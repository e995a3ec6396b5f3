//! The producer side of the event channel: the handle through which command
//! threads send control events to the render thread.

use crate::engine::{
    construction_fault,
    AudioDeviceError,
    DeviceConfig,
    RenderEngine,
    MAX_QUEUE_CAPACITY,
};
use crate::midi::{ControlEvent, VOLUME_CONTROLLER};
use std::sync::mpsc::{Receiver, SyncSender, TrySendError};
use vstd::prelude::*;

verus! {

/// The sending end of a bounded channel of the standard library. Opaque to
/// the verifier.
#[verifier::external_type_specification]
#[verifier::external_body]
#[verifier::reject_recursive_types(T)]
pub struct ExSyncSender<T>(SyncSender<T>);

/// The receiving end of a channel of the standard library. Opaque to the
/// verifier.
#[verifier::external_type_specification]
#[verifier::external_body]
#[verifier::reject_recursive_types(T)]
pub struct ExReceiver<T>(Receiver<T>);

/// Why an event did not reach the channel.
#[derive(Clone, Copy, Debug, PartialEq, Eq, Structural)]
pub enum DeliveryFailure {
    /// The channel holds as many events as it has room for.
    Full,
    /// The player was stopped, or the render side is gone.
    Closed,
}

/// Calls `std::sync::mpsc::sync_channel`, which makes a channel that holds
/// at most `capacity` events and sets the room for them aside at once.
/// Nothing is claimed of the two ends.
#[verifier::external_body]
fn open_channel(capacity: usize) -> (ends: (SyncSender<ControlEvent>, Receiver<ControlEvent>))
    requires
        0 < capacity <= MAX_QUEUE_CAPACITY,
{
    std::sync::mpsc::sync_channel(capacity)
}

/// Calls `SyncSender::try_send`, which never blocks. Whether the event is
/// taken depends on what other threads have done, so nothing is claimed of
/// the result.
#[verifier::external_body]
fn offer(sender: &SyncSender<ControlEvent>, event: ControlEvent) -> (r: Result<
    (),
    DeliveryFailure,
>) {
    match sender.try_send(event) {
        Ok(()) => Ok(()),
        Err(TrySendError::Full(_)) => Err(DeliveryFailure::Full),
        Err(TrySendError::Disconnected(_)) => Err(DeliveryFailure::Closed),
    }
}

/// Calls `SyncSender::clone`, which gives a second sending end of the same
/// channel. Nothing is claimed of the result.
#[verifier::external_body]
fn share(sender: &SyncSender<ControlEvent>) -> (other: SyncSender<ControlEvent>) {
    sender.clone()
}

/// A producer's handle on the live synthesizer. Sending never blocks: an
/// event that finds the channel full or closed is dropped and counted.
pub struct MidiPlayer {
    sender: SyncSender<ControlEvent>,
    running: bool,
    dropped: u64,
    offered: Ghost<Seq<ControlEvent>>,
}

/// `count` plus one, held at the largest `u64`.
pub open spec fn bump(count: nat) -> nat {
    if count < u64::MAX {
        count + 1
    } else {
        count
    }
}

impl MidiPlayer {
    /// Whether the player has not been stopped yet.
    pub closed spec fn running(&self) -> bool {
        self.running
    }

    /// How many events this handle has dropped, held at the largest `u64`.
    pub closed spec fn dropped(&self) -> u64 {
        self.dropped
    }

    /// Every event this handle has offered to the channel, oldest first.
    pub closed spec fn offered(&self) -> Seq<ControlEvent> {
        self.offered@
    }

    /// What one send does to a handle: a running handle offers exactly
    /// `event` to the channel, a stopped one offers nothing and reports
    /// `Closed`; a failed send raises the drop count by one.
    pub open spec fn sent(
        pre: MidiPlayer,
        post: MidiPlayer,
        event: ControlEvent,
        r: Result<(), DeliveryFailure>,
    ) -> bool {
        &&& post.running() == pre.running()
        &&& post.offered() == if pre.running() {
            pre.offered().push(event)
        } else {
            pre.offered()
        }
        &&& post.dropped() == if r is Err {
            bump(pre.dropped() as nat)
        } else {
            pre.dropped() as nat
        }
        &&& !pre.running() ==> r == Err::<(), DeliveryFailure>(DeliveryFailure::Closed)
    }

    /// Opens the event channel for the output device that the caller found
    /// and returns its two sides: the producer handle and the render
    /// engine. Fails when there is no device, when the device's sample
    /// format is none of the supported ones, when it has no output channel,
    /// when the channel would hold no event or more than
    /// `MAX_QUEUE_CAPACITY`, or when a block would take no event.
    pub fn new(device: Option<DeviceConfig>, queue_capacity: usize, drain_cap: usize) -> (r: Result<
        (MidiPlayer, RenderEngine),
        AudioDeviceError,
    >)
        ensures
            match construction_fault(device, queue_capacity, drain_cap) {
                Some(e) => r == Err::<(MidiPlayer, RenderEngine), AudioDeviceError>(e),
                None => {
                    &&& r matches Ok((player, engine))
                    &&& player.running()
                    &&& player.dropped() == 0
                    &&& player.offered() == Seq::<ControlEvent>::empty()
                    &&& engine.fresh_for(device->Some_0, drain_cap)
                },
            },
    {
        match RenderEngine::check_settings(device, queue_capacity, drain_cap) {
            Err(e) => Err(e),
            Ok(encoding) => {
                let config = device.unwrap();
                let (sender, receiver) = open_channel(queue_capacity);
                let player = MidiPlayer {
                    sender,
                    running: true,
                    dropped: 0,
                    offered: Ghost(Seq::empty()),
                };
                let engine = RenderEngine::assemble(receiver, encoding, config, drain_cap);
                Ok((player, engine))
            },
        }
    }

    /// A second handle on the same channel for another producer thread. It
    /// starts its own count of dropped events, and it stops on its own.
    pub fn producer(&self) -> (other: MidiPlayer)
        ensures
            other.running() == self.running(),
            other.dropped() == 0,
            other.offered() == Seq::<ControlEvent>::empty(),
    {
        MidiPlayer {
            sender: share(&self.sender),
            running: self.running,
            dropped: 0,
            offered: Ghost(Seq::empty()),
        }
    }

    /// Whether the player has not been stopped yet.
    pub fn is_running(&self) -> (b: bool)
        ensures
            b == self.running(),
    {
        self.running
    }

    /// How many events this handle has dropped.
    pub fn dropped_count(&self) -> (n: u64)
        ensures
            n == self.dropped(),
    {
        self.dropped
    }

    /// Offers one event to the channel without blocking.
    pub fn send(&mut self, event: ControlEvent) -> (r: Result<(), DeliveryFailure>)
        ensures
            Self::sent(*old(self), *final(self), event, r),
    {
        let r = if self.running {
            self.offered = Ghost(self.offered@.push(event));
            offer(&self.sender, event)
        } else {
            Err(DeliveryFailure::Closed)
        };
        if r.is_err() && self.dropped < u64::MAX {
            self.dropped = self.dropped + 1;
        }
        r
    }

    /// What one stop does to a handle: it asks for a release exactly when
    /// the handle was running, leaves it stopped, and changes nothing of a
    /// handle that was stopped already.
    pub open spec fn stopped(pre: MidiPlayer, post: MidiPlayer, release: bool) -> bool {
        &&& release == pre.running()
        &&& !post.running()
        &&& post.dropped() == pre.dropped()
        &&& post.offered() == pre.offered()
        &&& !pre.running() ==> post == pre
    }

    /// Stops the player. The first call returns `true`: the caller must now
    /// release the device stream and wake the thread that owns it. Every
    /// later call returns `false` and changes nothing.
    pub fn stop(&mut self) -> (release: bool)
        ensures
            Self::stopped(*old(self), *final(self), release),
    {
        let release = self.running;
        self.running = false;
        release
    }

    /// Starts a note.
    #[allow(non_snake_case)]
    pub fn noteOn(&mut self, channel: u8, key: u8, vel: u8) -> (r: Result<(), DeliveryFailure>)
        ensures
            Self::sent(
                *old(self),
                *final(self),
                ControlEvent::NoteOn { channel, key, velocity: vel },
                r,
            ),
    {
        self.send(ControlEvent::NoteOn { channel, key, velocity: vel })
    }

    /// Releases a note.
    #[allow(non_snake_case)]
    pub fn noteOff(&mut self, channel: u8, key: u8) -> (r: Result<(), DeliveryFailure>)
        ensures
            Self::sent(*old(self), *final(self), ControlEvent::NoteOff { channel, key }, r),
    {
        self.send(ControlEvent::NoteOff { channel, key })
    }

    /// Selects the instrument of a channel.
    #[allow(non_snake_case)]
    pub fn setProgram(&mut self, channel: u8, program: u8) -> (r: Result<(), DeliveryFailure>)
        ensures
            Self::sent(
                *old(self),
                *final(self),
                ControlEvent::ProgramChange { channel, program },
                r,
            ),
    {
        self.send(ControlEvent::ProgramChange { channel, program })
    }

    /// Sets the volume of a channel, through the channel volume controller.
    #[allow(non_snake_case)]
    pub fn setVolume(&mut self, channel: u8, volume: u8) -> (r: Result<(), DeliveryFailure>)
        ensures
            Self::sent(
                *old(self),
                *final(self),
                ControlEvent::ControlChange {
                    channel,
                    controller: VOLUME_CONTROLLER,
                    value: volume,
                },
                r,
            ),
    {
        self.send(
            ControlEvent::ControlChange { channel, controller: VOLUME_CONTROLLER, value: volume },
        )
    }

    /// Sets any controller of a channel.
    pub fn control_change(&mut self, channel: u8, controller: u8, value: u8) -> (r: Result<
        (),
        DeliveryFailure,
    >)
        ensures
            Self::sent(
                *old(self),
                *final(self),
                ControlEvent::ControlChange { channel, controller, value },
                r,
            ),
    {
        self.send(ControlEvent::ControlChange { channel, controller, value })
    }

    /// Releases every note of a channel.
    #[allow(non_snake_case)]
    pub fn allNotesOff(&mut self, channel: u8) -> (r: Result<(), DeliveryFailure>)
        ensures
            Self::sent(*old(self), *final(self), ControlEvent::AllNotesOff { channel }, r),
    {
        self.send(ControlEvent::AllNotesOff { channel })
    }

    /// Silences a channel at once.
    #[allow(non_snake_case)]
    pub fn allSoundOff(&mut self, channel: u8) -> (r: Result<(), DeliveryFailure>)
        ensures
            Self::sent(*old(self), *final(self), ControlEvent::AllSoundOff { channel }, r),
    {
        self.send(ControlEvent::AllSoundOff { channel })
    }
}

/// Stopping is idempotent: whatever state a player is in, a second stop
/// right after a first asks for no release and leaves the player as the
/// first stop left it.
pub proof fn lemma_stop_twice(
    before: MidiPlayer,
    after_first: MidiPlayer,
    after_second: MidiPlayer,
    first: bool,
    second: bool,
)
    requires
        MidiPlayer::stopped(before, after_first, first),
        MidiPlayer::stopped(after_first, after_second, second),
    ensures
        !second,
        after_second == after_first,
{
}

} // verus!
