//! MIDI-like control events and their validation.

use vstd::pervasive::unreached;
use vstd::prelude::*;

verus! {

/// Largest value of a seven-bit MIDI data byte.
pub const DATA_MAX: u8 = 127;

/// Controller number of the channel volume controller.
pub const VOLUME_CONTROLLER: u8 = 7;

/// The synthesizer's own event type. Its variants and fields are visible to
/// the verifier, so events handed to the synthesizer are built in verified
/// code.
#[verifier::external_type_specification]
pub struct ExSynthEvent(oxisynth::MidiEvent);

/// A control message for the live synthesizer.
#[derive(Clone, Copy, Debug, PartialEq, Eq, Structural)]
pub enum ControlEvent {
    NoteOn { channel: u8, key: u8, velocity: u8 },
    NoteOff { channel: u8, key: u8 },
    ProgramChange { channel: u8, program: u8 },
    ControlChange { channel: u8, controller: u8, value: u8 },
    AllNotesOff { channel: u8 },
    AllSoundOff { channel: u8 },
}

/// Why an event is malformed.
#[derive(Clone, Copy, Debug, PartialEq, Eq, Structural)]
pub enum EventError {
    KeyOutOfRange,
    VelocityOutOfRange,
    ControllerOutOfRange,
    ControllerValueOutOfRange,
    ProgramOutOfRange,
}

/// Largest value of a fourteen-bit pitch bend.
pub const PITCH_BEND_MAX: u16 = 16383;

/// Whether every data field of a synthesizer event is in its MIDI range.
pub open spec fn synth_in_range(event: oxisynth::MidiEvent) -> bool {
    match event {
        oxisynth::MidiEvent::NoteOn { channel, key, vel } => key <= DATA_MAX && vel <= DATA_MAX,
        oxisynth::MidiEvent::NoteOff { channel, key } => key <= DATA_MAX,
        oxisynth::MidiEvent::ControlChange { channel, ctrl, value } => ctrl <= DATA_MAX && value
            <= DATA_MAX,
        oxisynth::MidiEvent::AllNotesOff { channel } => true,
        oxisynth::MidiEvent::AllSoundOff { channel } => true,
        oxisynth::MidiEvent::PitchBend { channel, value } => value <= PITCH_BEND_MAX,
        oxisynth::MidiEvent::ProgramChange { channel, program_id } => program_id <= DATA_MAX,
        oxisynth::MidiEvent::ChannelPressure { channel, value } => value <= DATA_MAX,
        oxisynth::MidiEvent::PolyphonicKeyPressure { channel, key, value } => key <= DATA_MAX
            && value <= DATA_MAX,
        oxisynth::MidiEvent::SystemReset => true,
    }
}

/// Calls `oxisynth::MidiEvent::check`. That function tests each data field
/// of the event against its MIDI range (0..=127, pitch bend 0..=16383) and
/// passes the event exactly when every field is in range. Believed, not
/// proved.
#[verifier::external_body]
fn synth_accepts(event: oxisynth::MidiEvent) -> (passes: bool)
    ensures
        passes == synth_in_range(event),
{
    event.check().is_ok()
}

impl ControlEvent {
    /// The first data field that does not fit in seven bits, if any.
    pub open spec fn fault(self) -> Result<(), EventError> {
        match self {
            ControlEvent::NoteOn { channel, key, velocity } => if key > DATA_MAX {
                Err(EventError::KeyOutOfRange)
            } else if velocity > DATA_MAX {
                Err(EventError::VelocityOutOfRange)
            } else {
                Ok(())
            },
            ControlEvent::NoteOff { channel, key } => if key > DATA_MAX {
                Err(EventError::KeyOutOfRange)
            } else {
                Ok(())
            },
            ControlEvent::ProgramChange { channel, program } => if program > DATA_MAX {
                Err(EventError::ProgramOutOfRange)
            } else {
                Ok(())
            },
            ControlEvent::ControlChange { channel, controller, value } => if controller > DATA_MAX {
                Err(EventError::ControllerOutOfRange)
            } else if value > DATA_MAX {
                Err(EventError::ControllerValueOutOfRange)
            } else {
                Ok(())
            },
            ControlEvent::AllNotesOff { channel } => Ok(()),
            ControlEvent::AllSoundOff { channel } => Ok(()),
        }
    }

    /// An event is well formed when every data field fits in seven bits.
    pub open spec fn well_formed(self) -> bool {
        self.fault() is Ok
    }

    /// The synthesizer event that carries the same message.
    pub open spec fn synth_event(self) -> oxisynth::MidiEvent {
        match self {
            ControlEvent::NoteOn { channel, key, velocity } => oxisynth::MidiEvent::NoteOn {
                channel,
                key,
                vel: velocity,
            },
            ControlEvent::NoteOff { channel, key } => oxisynth::MidiEvent::NoteOff { channel, key },
            ControlEvent::ProgramChange { channel, program } => oxisynth::MidiEvent::ProgramChange {
                channel,
                program_id: program,
            },
            ControlEvent::ControlChange {
                channel,
                controller,
                value,
            } => oxisynth::MidiEvent::ControlChange { channel, ctrl: controller, value },
            ControlEvent::AllNotesOff { channel } => oxisynth::MidiEvent::AllNotesOff { channel },
            ControlEvent::AllSoundOff { channel } => oxisynth::MidiEvent::AllSoundOff { channel },
        }
    }

    /// Converts the event into the synthesizer's own type.
    pub fn to_synth(self) -> (e: oxisynth::MidiEvent)
        ensures
            e == self.synth_event(),
    {
        match self {
            ControlEvent::NoteOn { channel, key, velocity } => oxisynth::MidiEvent::NoteOn {
                channel,
                key,
                vel: velocity,
            },
            ControlEvent::NoteOff { channel, key } => oxisynth::MidiEvent::NoteOff { channel, key },
            ControlEvent::ProgramChange { channel, program } => oxisynth::MidiEvent::ProgramChange {
                channel,
                program_id: program,
            },
            ControlEvent::ControlChange {
                channel,
                controller,
                value,
            } => oxisynth::MidiEvent::ControlChange { channel, ctrl: controller, value },
            ControlEvent::AllNotesOff { channel } => oxisynth::MidiEvent::AllNotesOff { channel },
            ControlEvent::AllSoundOff { channel } => oxisynth::MidiEvent::AllSoundOff { channel },
        }
    }

    /// Reads a synthesizer event back. Kinds that the player never sends
    /// (pitch bend, pressure, reset) have no counterpart.
    pub fn from_synth(event: oxisynth::MidiEvent) -> (r: Option<ControlEvent>)
        ensures
            r matches Some(e) ==> e.synth_event() == event,
            r is None <==> (forall|e: ControlEvent| e.synth_event() != event),
    {
        match event {
            oxisynth::MidiEvent::NoteOn { channel, key, vel } => Some(
                ControlEvent::NoteOn { channel, key, velocity: vel },
            ),
            oxisynth::MidiEvent::NoteOff { channel, key } => Some(
                ControlEvent::NoteOff { channel, key },
            ),
            oxisynth::MidiEvent::ProgramChange { channel, program_id } => Some(
                ControlEvent::ProgramChange { channel, program: program_id },
            ),
            oxisynth::MidiEvent::ControlChange { channel, ctrl, value } => Some(
                ControlEvent::ControlChange { channel, controller: ctrl, value },
            ),
            oxisynth::MidiEvent::AllNotesOff { channel } => Some(
                ControlEvent::AllNotesOff { channel },
            ),
            oxisynth::MidiEvent::AllSoundOff { channel } => Some(
                ControlEvent::AllSoundOff { channel },
            ),
            _ => None,
        }
    }

    /// Names the first data field of a malformed event that does not fit
    /// in seven bits.
    fn first_fault(self) -> (e: EventError)
        requires
            !self.well_formed(),
        ensures
            self.fault() == Err::<(), EventError>(e),
    {
        match self {
            ControlEvent::NoteOn { channel, key, velocity } => if key > DATA_MAX {
                EventError::KeyOutOfRange
            } else {
                EventError::VelocityOutOfRange
            },
            ControlEvent::NoteOff { channel, key } => EventError::KeyOutOfRange,
            ControlEvent::ProgramChange { channel, program } => EventError::ProgramOutOfRange,
            ControlEvent::ControlChange { channel, controller, value } => if controller
                > DATA_MAX {
                EventError::ControllerOutOfRange
            } else {
                EventError::ControllerValueOutOfRange
            },
            ControlEvent::AllNotesOff { channel } => unreached(),
            ControlEvent::AllSoundOff { channel } => unreached(),
        }
    }

    /// Puts the event to the synthesizer's range check, which decides
    /// whether the event is well formed. For an event that does not pass,
    /// the first field out of range is named.
    pub fn validate(self) -> (r: Result<(), EventError>)
        ensures
            r == self.fault(),
    {
        if synth_accepts(self.to_synth()) {
            Ok(())
        } else {
            Err(self.first_fault())
        }
    }
}

/// The conversion into the synthesizer's type loses nothing: two events that
/// convert to the same synthesizer event are the same event.
pub proof fn lemma_synth_event_injective(a: ControlEvent, b: ControlEvent)
    requires
        a.synth_event() == b.synth_event(),
    ensures
        a == b,
{
}

/// The synthesizer's range check passes exactly the well-formed events.
pub proof fn lemma_range_check_agrees(event: ControlEvent)
    ensures
        synth_in_range(event.synth_event()) == event.well_formed(),
{
}

} // verus!
