//! The render side of the audio pipeline: what a render block takes from
//! the event channel, and how rendered sample pairs fill the device's
//! interleaved output buffer.

use crate::midi::ControlEvent;
use std::sync::mpsc::Receiver;
use vstd::prelude::*;

verus! {

/// The sample formats an output device may ask for.
#[derive(Clone, Copy, Debug, PartialEq, Eq, Structural)]
pub enum DeviceFormat {
    Signed8,
    Signed16,
    Signed32,
    Signed64,
    Unsigned8,
    Unsigned16,
    Unsigned32,
    Unsigned64,
    Float32,
    Float64,
}

/// The sample encodings the engine can render.
#[derive(Clone, Copy, Debug, PartialEq, Eq, Structural)]
pub enum SampleEncoding {
    Float32,
    Signed16,
    Unsigned16,
}

/// What the caller found out about the default output device.
#[derive(Clone, Copy, Debug, PartialEq, Eq, Structural)]
pub struct DeviceConfig {
    pub format: DeviceFormat,
    pub channels: u16,
    pub sample_rate: u32,
}

/// Why no engine can be built.
#[derive(Clone, Copy, Debug, PartialEq, Eq, Structural)]
pub enum AudioDeviceError {
    NoOutputDevice,
    UnsupportedSampleFormat,
    NoOutputChannel,
    NoQueueCapacity,
    QueueTooLarge,
    NoDrainCap,
}

/// The largest number of events the channel may be asked to hold. Its
/// room is set aside when the channel is opened.
pub const MAX_QUEUE_CAPACITY: usize = 1048576;

/// The encoding that renders a device format, if there is one.
pub open spec fn encoding_of(format: DeviceFormat) -> Option<SampleEncoding> {
    match format {
        DeviceFormat::Float32 => Some(SampleEncoding::Float32),
        DeviceFormat::Signed16 => Some(SampleEncoding::Signed16),
        DeviceFormat::Unsigned16 => Some(SampleEncoding::Unsigned16),
        _ => None,
    }
}

/// Picks the encoding for a device format.
pub fn select_encoding(format: DeviceFormat) -> (r: Result<SampleEncoding, AudioDeviceError>)
    ensures
        match encoding_of(format) {
            Some(encoding) => r == Ok::<SampleEncoding, AudioDeviceError>(encoding),
            None => r == Err::<SampleEncoding, AudioDeviceError>(
                AudioDeviceError::UnsupportedSampleFormat,
            ),
        },
{
    match format {
        DeviceFormat::Float32 => Ok(SampleEncoding::Float32),
        DeviceFormat::Signed16 => Ok(SampleEncoding::Signed16),
        DeviceFormat::Unsigned16 => Ok(SampleEncoding::Unsigned16),
        _ => Err(AudioDeviceError::UnsupportedSampleFormat),
    }
}

/// The first reason, if any, for which no engine can be built from these
/// settings.
pub open spec fn construction_fault(
    device: Option<DeviceConfig>,
    queue_capacity: usize,
    drain_cap: usize,
) -> Option<AudioDeviceError> {
    match device {
        None => Some(AudioDeviceError::NoOutputDevice),
        Some(config) => if encoding_of(config.format) is None {
            Some(AudioDeviceError::UnsupportedSampleFormat)
        } else if config.channels == 0 {
            Some(AudioDeviceError::NoOutputChannel)
        } else if queue_capacity == 0 {
            Some(AudioDeviceError::NoQueueCapacity)
        } else if queue_capacity > MAX_QUEUE_CAPACITY {
            Some(AudioDeviceError::QueueTooLarge)
        } else if drain_cap == 0 {
            Some(AudioDeviceError::NoDrainCap)
        } else {
            None
        },
    }
}

/// The well-formed events of a sequence, in their order.
pub open spec fn accepted(events: Seq<ControlEvent>) -> Seq<ControlEvent>
    decreases events.len(),
{
    if events.len() == 0 {
        Seq::empty()
    } else if events.last().well_formed() {
        accepted(events.drop_last()).push(events.last())
    } else {
        accepted(events.drop_last())
    }
}

/// Each event as the answer of a channel that held it.
pub open spec fn some_each(events: Seq<ControlEvent>) -> Seq<Option<ControlEvent>> {
    Seq::new(events.len(), |i: int| Some(events[i]))
}

/// The answers of the channel in a block in which `arrived` arrived: one
/// for each event and, when fewer events than the cap arrived, the `None`
/// of the empty channel.
pub open spec fn block_answers(arrived: Seq<ControlEvent>, cap: nat) -> Seq<Option<ControlEvent>> {
    if arrived.len() < cap {
        some_each(arrived).push(None)
    } else {
        some_each(arrived)
    }
}

/// `count` raised by `by`, held at the largest `u64`.
pub open spec fn raised(count: nat, by: nat) -> nat {
    if count + by <= u64::MAX {
        count + by
    } else {
        u64::MAX as nat
    }
}

/// How many frames an interleaved buffer of `len` samples holds, a last
/// partial frame counted.
pub open spec fn frame_count(len: nat, channels: nat) -> nat
    recommends
        channels > 0,
{
    ((len + channels - 1) / channels as int) as nat
}

/// The interleaved buffer of `len` samples that `samples` fill: within
/// each frame the even slots take the left sample of the frame's pair, the
/// odd slots the right one.
pub open spec fn interleaved<T>(samples: Seq<(T, T)>, channels: nat, len: nat) -> Seq<T>
    recommends
        channels > 0,
{
    Seq::new(
        len,
        |i: int|
            if (i % channels as int) % 2 == 0 {
                samples[i / channels as int].0
            } else {
                samples[i / channels as int].1
            },
    )
}

/// Calls `Receiver::try_recv`, which never blocks and returns the oldest
/// event in the channel, if there is one. What is in the channel depends
/// on other threads, so nothing is claimed of the result.
#[verifier::external_body]
fn poll(receiver: &Receiver<ControlEvent>) -> (r: Option<ControlEvent>) {
    receiver.try_recv().ok()
}

/// The render thread's end of the pipeline. It alone reads the event
/// channel.
pub struct RenderEngine {
    receiver: Receiver<ControlEvent>,
    encoding: SampleEncoding,
    channels: u16,
    sample_rate: u32,
    drain_cap: usize,
    rejected: u64,
    received: Ghost<Seq<ControlEvent>>,
    answers: Ghost<Seq<Option<ControlEvent>>>,
}

impl RenderEngine {
    /// The encoding the device asked for.
    pub closed spec fn encoding(&self) -> SampleEncoding {
        self.encoding
    }

    /// How many samples make a frame.
    pub closed spec fn channels(&self) -> nat {
        self.channels as nat
    }

    /// The device's sample rate, in frames per second.
    pub closed spec fn sample_rate(&self) -> u32 {
        self.sample_rate
    }

    /// The largest number of events one block takes from the channel.
    pub closed spec fn drain_cap(&self) -> nat {
        self.drain_cap as nat
    }

    /// How many malformed events were turned away, held at the largest
    /// `u64`.
    pub closed spec fn rejected(&self) -> u64 {
        self.rejected
    }

    /// Every event taken from the channel so far, in arrival order.
    pub closed spec fn received(&self) -> Seq<ControlEvent> {
        self.received@
    }

    /// Every answer the channel gave when it was asked for its oldest
    /// event, in the order of the asking: an event, or `None` for an empty
    /// channel.
    pub closed spec fn answers(&self) -> Seq<Option<ControlEvent>> {
        self.answers@
    }

    /// A frame has at least one sample, and a block may take at least one
    /// event.
    #[verifier::type_invariant]
    spec fn usable(self) -> bool {
        self.channels > 0 && self.drain_cap > 0
    }

    /// The settings of an engine never change.
    pub open spec fn same_settings(&self, other: &RenderEngine) -> bool {
        &&& self.encoding() == other.encoding()
        &&& self.channels() == other.channels()
        &&& self.sample_rate() == other.sample_rate()
        &&& self.drain_cap() == other.drain_cap()
    }

    /// An engine as `MidiPlayer::new` returns it for a device.
    pub open spec fn fresh_for(&self, device: DeviceConfig, drain_cap: usize) -> bool {
        &&& Some(self.encoding()) == encoding_of(device.format)
        &&& self.channels() == device.channels
        &&& self.sample_rate() == device.sample_rate
        &&& self.drain_cap() == drain_cap
        &&& self.rejected() == 0
        &&& self.received() == Seq::<ControlEvent>::empty()
        &&& self.answers() == Seq::<Option<ControlEvent>>::empty()
    }

    pub(crate) fn check_settings(
        device: Option<DeviceConfig>,
        queue_capacity: usize,
        drain_cap: usize,
    ) -> (r: Result<SampleEncoding, AudioDeviceError>)
        ensures
            match construction_fault(device, queue_capacity, drain_cap) {
                Some(e) => r == Err::<SampleEncoding, AudioDeviceError>(e),
                None => device is Some && r is Ok && Some(r->Ok_0) == encoding_of(
                    device->Some_0.format,
                ),
            },
    {
        match device {
            None => Err(AudioDeviceError::NoOutputDevice),
            Some(config) => {
                match select_encoding(config.format) {
                    Err(e) => Err(e),
                    Ok(encoding) => {
                        if config.channels == 0 {
                            Err(AudioDeviceError::NoOutputChannel)
                        } else if queue_capacity == 0 {
                            Err(AudioDeviceError::NoQueueCapacity)
                        } else if queue_capacity > MAX_QUEUE_CAPACITY {
                            Err(AudioDeviceError::QueueTooLarge)
                        } else if drain_cap == 0 {
                            Err(AudioDeviceError::NoDrainCap)
                        } else {
                            Ok(encoding)
                        }
                    },
                }
            },
        }
    }

    pub(crate) fn assemble(
        receiver: Receiver<ControlEvent>,
        encoding: SampleEncoding,
        config: DeviceConfig,
        drain_cap: usize,
    ) -> (engine: RenderEngine)
        requires
            Some(encoding) == encoding_of(config.format),
            config.channels > 0,
            drain_cap > 0,
        ensures
            engine.fresh_for(config, drain_cap),
    {
        RenderEngine {
            receiver,
            encoding,
            channels: config.channels,
            sample_rate: config.sample_rate,
            drain_cap,
            rejected: 0,
            received: Ghost(Seq::empty()),
            answers: Ghost(Seq::empty()),
        }
    }

    /// The encoding the device asked for.
    pub fn sample_encoding(&self) -> (e: SampleEncoding)
        ensures
            e == self.encoding(),
    {
        self.encoding
    }

    /// How many samples make a frame.
    pub fn channel_count(&self) -> (n: usize)
        ensures
            n == self.channels(),
            n > 0,
    {
        proof {
            use_type_invariant(self);
        }
        self.channels as usize
    }

    /// The device's sample rate, in frames per second.
    pub fn frames_per_second(&self) -> (hz: u32)
        ensures
            hz == self.sample_rate(),
    {
        self.sample_rate
    }

    /// How many malformed events were turned away.
    pub fn rejected_count(&self) -> (n: u64)
        ensures
            n == self.rejected(),
    {
        self.rejected
    }

    /// The events that arrived between two states of an engine.
    pub open spec fn arrivals(pre: RenderEngine, post: RenderEngine) -> Seq<ControlEvent> {
        post.received().skip(pre.received().len() as int)
    }

    /// The answers the channel gave between two states of an engine.
    pub open spec fn asked(pre: RenderEngine, post: RenderEngine) -> Seq<Option<ControlEvent>> {
        post.answers().skip(pre.answers().len() as int)
    }

    /// Takes in one answer of the channel, the `taken + 1`st of a block,
    /// and says whether the block asks again. An empty channel ends the
    /// draining and changes nothing else. An event counts as arrived; a
    /// well-formed one joins the batch, a malformed one is counted and left
    /// out; and the block asks again unless the event was the last that
    /// the drain cap allows.
    pub fn take_in(
        &mut self,
        polled: Option<ControlEvent>,
        taken: usize,
        batch: &mut Vec<ControlEvent>,
    ) -> (go_on: bool)
        requires
            taken < old(self).drain_cap(),
        ensures
            final(self).same_settings(old(self)),
            final(self).answers() == old(self).answers().push(polled),
            match polled {
                None => {
                    &&& !go_on
                    &&& final(self).received() == old(self).received()
                    &&& final(self).rejected() == old(self).rejected()
                    &&& final(batch)@ == old(batch)@
                },
                Some(event) => {
                    &&& go_on == (taken + 1 < old(self).drain_cap())
                    &&& final(self).received() == old(self).received().push(event)
                    &&& final(batch)@ == if event.well_formed() {
                        old(batch)@.push(event)
                    } else {
                        old(batch)@
                    }
                    &&& final(self).rejected() == if event.well_formed() {
                        old(self).rejected() as nat
                    } else {
                        raised(old(self).rejected() as nat, 1)
                    }
                },
            },
    {
        proof {
            use_type_invariant(&*self);
        }
        self.answers = Ghost(self.answers@.push(polled));
        match polled {
            None => false,
            Some(event) => {
                self.received = Ghost(self.received@.push(event));
                if event.validate().is_ok() {
                    batch.push(event);
                } else if self.rejected < u64::MAX {
                    self.rejected = self.rejected + 1;
                }
                taken + 1 < self.drain_cap
            },
        }
    }

    /// What one block's draining does to an engine. The channel is asked
    /// until it is empty or the drain cap is reached, and for no other
    /// reason does the asking stop: the answers of a block are the events
    /// that arrived and, when fewer than the cap arrived, the one `None`
    /// that ended the block. The batch holds the well-formed arrivals in
    /// their order, and each malformed one is counted.
    pub open spec fn drained(
        pre: RenderEngine,
        post: RenderEngine,
        taken: nat,
        batch: Seq<ControlEvent>,
    ) -> bool {
        let arrived = Self::arrivals(pre, post);
        &&& post.same_settings(&pre)
        &&& taken <= pre.drain_cap()
        &&& pre.received().is_prefix_of(post.received())
        &&& pre.answers().is_prefix_of(post.answers())
        &&& arrived.len() == taken
        &&& Self::asked(pre, post) == block_answers(arrived, pre.drain_cap())
        &&& batch == accepted(arrived)
        &&& batch.len() <= taken
        &&& post.rejected() == raised(pre.rejected() as nat, (taken - batch.len()) as nat)
    }

    /// Opens a render block. Takes events from the channel, oldest first,
    /// until the channel is empty or the drain cap is reached, and leaves
    /// in `batch` the well-formed ones in arrival order: the events that
    /// the caller applies to the synthesizer, in this order, before it
    /// renders the block's first sample. Malformed events are counted and
    /// left out. Returns how many events were taken.
    pub fn begin_block(&mut self, batch: &mut Vec<ControlEvent>) -> (taken: usize)
        ensures
            Self::drained(*old(self), *final(self), taken as nat, final(batch)@),
    {
        proof {
            use_type_invariant(&*self);
        }
        batch.clear();
        let ghost start = self.received@;
        let ghost first = self.answers@;
        let mut taken: usize = 0;
        let mut go_on = true;
        proof {
            assert(self.received@.skip(start.len() as int) =~= Seq::<ControlEvent>::empty());
            assert(self.answers@.skip(first.len() as int) =~= Seq::<Option<ControlEvent>>::empty());
        }
        while go_on
            invariant
                self.usable(),
                self.same_settings(old(self)),
                start == old(self).received(),
                first == old(self).answers(),
                taken <= self.drain_cap,
                go_on ==> taken < self.drain_cap,
                start.is_prefix_of(self.received@),
                first.is_prefix_of(self.answers@),
                self.received@.len() == start.len() + taken,
                self.answers@.skip(first.len() as int) == if go_on {
                    some_each(self.received@.skip(start.len() as int))
                } else {
                    block_answers(self.received@.skip(start.len() as int), self.drain_cap as nat)
                },
                batch@ == accepted(self.received@.skip(start.len() as int)),
                batch@.len() <= taken,
                self.rejected as nat == raised(
                    old(self).rejected() as nat,
                    (taken - batch@.len()) as nat,
                ),
            decreases (if go_on { 1int } else { 0int }) + self.drain_cap - taken,
        {
            let ghost had = self.received@.skip(start.len() as int);
            let ghost asked = self.answers@.skip(first.len() as int);
            let polled = poll(&self.receiver);
            go_on = self.take_in(polled, taken, batch);
            proof {
                assert(self.answers@.skip(first.len() as int) =~= asked.push(polled));
                match polled {
                    None => {
                        assert(self.received@.skip(start.len() as int) =~= had);
                        assert(asked.push(polled) =~= block_answers(had, self.drain_cap as nat));
                    },
                    Some(event) => {
                        assert(self.received@.skip(start.len() as int) =~= had.push(event));
                        assert(had.push(event).drop_last() =~= had);
                        assert(asked.push(polled) =~= some_each(had.push(event)));
                        assert(some_each(had.push(event)) =~= block_answers(
                            had.push(event),
                            (taken + 1) as nat,
                        ));
                    },
                }
            }
            if polled.is_some() {
                taken = taken + 1;
            }
        }
        taken
    }

    /// How many sample pairs a buffer of `len` samples needs.
    pub fn frames_needed(&self, len: usize) -> (frames: usize)
        ensures
            frames == frame_count(len as nat, self.channels()),
            self.channels() > 0,
    {
        proof {
            use_type_invariant(self);
        }
        let channels = self.channels as usize;
        let whole = len / channels;
        if len % channels == 0 {
            proof {
                lemma_frame_count(len as nat, channels as nat);
            }
            whole
        } else {
            proof {
                lemma_frame_count(len as nat, channels as nat);
                assert(whole < len) by (nonlinear_arith)
                    requires
                        channels > 0,
                        whole == len / channels,
                        len % channels != 0,
                ;
            }
            whole + 1
        }
    }

    /// Fills the device's buffer for this engine's channel count.
    pub fn write_block<T: Copy>(&self, output: &mut [T], samples: &[(T, T)])
        requires
            frame_count(old(output)@.len(), self.channels()) <= samples@.len(),
        ensures
            final(output)@ == interleaved(samples@, self.channels(), old(output)@.len()),
    {
        proof {
            use_type_invariant(self);
        }
        write_data(output, self.channels as usize, samples)
    }
}

/// Events that are all well formed are all accepted, in their order:
/// nothing is left out and nothing changes place.
pub proof fn lemma_well_formed_all_accepted(events: Seq<ControlEvent>)
    requires
        forall|i: int| 0 <= i < events.len() ==> (#[trigger] events[i]).well_formed(),
    ensures
        accepted(events) == events,
    decreases events.len(),
{
    if events.len() > 0 {
        let front = events.drop_last();
        assert forall|i: int| 0 <= i < front.len() implies (#[trigger] front[i]).well_formed() by {
            assert(events[i].well_formed());
        }
        lemma_well_formed_all_accepted(front);
        assert(events.last() == events[events.len() - 1]);
        assert(front.push(events.last()) =~= events);
    } else {
        assert(accepted(events) =~= events);
    }
}

/// Every accepted event is well formed, and the accepted events keep the
/// order in which they arrived: event `i` of the accepted ones arrived at
/// a position `at(i)`, and `at` grows with `i`.
pub proof fn lemma_accepted_in_order(events: Seq<ControlEvent>) -> (at: Seq<int>)
    ensures
        at.len() == accepted(events).len(),
        forall|i: int|
            0 <= i < at.len() ==> 0 <= #[trigger] at[i] < events.len() && events[at[i]]
                == accepted(events)[i] && accepted(events)[i].well_formed(),
        forall|i: int, j: int| 0 <= i < j < at.len() ==> #[trigger] at[i] < #[trigger] at[j],
    decreases events.len(),
{
    if events.len() == 0 {
        Seq::empty()
    } else {
        let front = events.drop_last();
        let before = lemma_accepted_in_order(front);
        if events.last().well_formed() {
            let at = before.push(events.len() - 1);
            assert forall|i: int| 0 <= i < at.len() implies 0 <= #[trigger] at[i] < events.len()
                && events[at[i]] == accepted(events)[i] && accepted(events)[i].well_formed() by {
                if i < before.len() {
                    assert(events[before[i]] == front[before[i]]);
                }
            }
            at
        } else {
            assert forall|i: int| 0 <= i < before.len() implies 0 <= #[trigger] before[i]
                < events.len() && events[before[i]] == accepted(events)[i] && accepted(
                events,
            )[i].well_formed() by {
                assert(events[before[i]] == front[before[i]]);
            }
            before
        }
    }
}

/// The number of frames is the quotient of length by channels, plus one
/// when a partial frame is left.
pub proof fn lemma_frame_count(len: nat, channels: nat)
    requires
        channels > 0,
    ensures
        frame_count(len, channels) == len / channels + (if len % channels == 0 {
            0nat
        } else {
            1nat
        }),
        forall|i: int| 0 <= i < len ==> 0 <= #[trigger] (i / channels as int) < frame_count(len, channels),
{
    let c = channels as int;
    let l = len as int;
    assert(l == c * (l / c) + l % c && 0 <= l % c < c) by (nonlinear_arith)
        requires
            c > 0,
            l >= 0,
    ;
    let q = l / c;
    let r = l % c;
    assert((l + c - 1) / c == q + (if r == 0 { 0int } else { 1int })) by (nonlinear_arith)
        requires
            c > 0,
            l == c * q + r,
            0 <= r < c,
    ;
    assert forall|i: int| 0 <= i < len implies 0 <= #[trigger] (i / c) < frame_count(
        len,
        channels,
    ) by {
        assert(0 <= i / c && (i / c < q || (i / c == q && r != 0))) by (nonlinear_arith)
            requires
                c > 0,
                0 <= i < l,
                l == c * q + r,
                0 <= r < c,
        ;
    }
}

/// Fills an interleaved output buffer from rendered sample pairs, one pair
/// for each frame of `channels` samples: even slots of a frame take the
/// left sample, odd slots the right one. A last partial frame is filled
/// like the others.
pub fn write_data<T: Copy>(output: &mut [T], channels: usize, samples: &[(T, T)])
    requires
        channels > 0,
        frame_count(old(output)@.len(), channels as nat) <= samples@.len(),
    ensures
        final(output)@ == interleaved(samples@, channels as nat, old(output)@.len()),
{
    let len = output.len();
    let mut i: usize = 0;
    proof {
        lemma_frame_count(len as nat, channels as nat);
    }
    while i < len
        invariant
            channels > 0,
            output@.len() == len,
            len == old(output)@.len(),
            i <= len,
            frame_count(len as nat, channels as nat) <= samples@.len(),
            forall|j: int| 0 <= j < len ==> 0 <= #[trigger] (j / channels as int) < frame_count(len as nat, channels as nat),
            forall|j: int|
                0 <= j < i ==> output@[j] == interleaved(samples@, channels as nat, len as nat)[j],
        decreases len - i,
    {
        let frame = i / channels;
        let slot = i % channels;
        assert(0 <= (i as int) / (channels as int) < frame_count(len as nat, channels as nat));
        let pair = samples[frame];
        output[i] = if slot % 2 == 0 {
            pair.0
        } else {
            pair.1
        };
        i = i + 1;
    }
    assert(output@ =~= interleaved(samples@, channels as nat, len as nat));
}

} // verus!
