use polyfoni::midi::{ControlEvent, EventError};

#[test]
fn well_formed_events_pass_the_range_check() {
    let events = [
        ControlEvent::NoteOn { channel: 0, key: 60, velocity: 100 },
        ControlEvent::NoteOn { channel: 15, key: 127, velocity: 127 },
        ControlEvent::NoteOn { channel: 0, key: 0, velocity: 0 },
        ControlEvent::NoteOff { channel: 0, key: 60 },
        ControlEvent::ProgramChange { channel: 3, program: 127 },
        ControlEvent::ControlChange { channel: 1, controller: 7, value: 90 },
        ControlEvent::AllNotesOff { channel: 200 },
        ControlEvent::AllSoundOff { channel: 255 },
    ];
    for event in events {
        assert_eq!(event.validate(), Ok(()));
    }
}

#[test]
fn key_out_of_range_is_reported() {
    let on = ControlEvent::NoteOn { channel: 0, key: 128, velocity: 100 };
    assert_eq!(on.validate(), Err(EventError::KeyOutOfRange));
    let off = ControlEvent::NoteOff { channel: 0, key: 255 };
    assert_eq!(off.validate(), Err(EventError::KeyOutOfRange));
}

#[test]
fn velocity_out_of_range_is_reported() {
    let on = ControlEvent::NoteOn { channel: 0, key: 60, velocity: 128 };
    assert_eq!(on.validate(), Err(EventError::VelocityOutOfRange));
}

#[test]
fn key_fault_comes_before_velocity_fault() {
    let on = ControlEvent::NoteOn { channel: 0, key: 200, velocity: 200 };
    assert_eq!(on.validate(), Err(EventError::KeyOutOfRange));
}

#[test]
fn controller_faults_are_reported_in_order() {
    let both = ControlEvent::ControlChange { channel: 0, controller: 128, value: 128 };
    assert_eq!(both.validate(), Err(EventError::ControllerOutOfRange));
    let value = ControlEvent::ControlChange { channel: 0, controller: 7, value: 128 };
    assert_eq!(value.validate(), Err(EventError::ControllerValueOutOfRange));
}

#[test]
fn program_out_of_range_is_reported() {
    let change = ControlEvent::ProgramChange { channel: 0, program: 128 };
    assert_eq!(change.validate(), Err(EventError::ProgramOutOfRange));
}

#[test]
fn conversion_keeps_every_field() {
    let on = ControlEvent::NoteOn { channel: 2, key: 61, velocity: 99 }.to_synth();
    assert!(matches!(on, oxisynth::MidiEvent::NoteOn { channel: 2, key: 61, vel: 99 }));
    let off = ControlEvent::NoteOff { channel: 3, key: 62 }.to_synth();
    assert!(matches!(off, oxisynth::MidiEvent::NoteOff { channel: 3, key: 62 }));
    let program = ControlEvent::ProgramChange { channel: 4, program: 5 }.to_synth();
    assert!(matches!(program, oxisynth::MidiEvent::ProgramChange { channel: 4, program_id: 5 }));
    let control = ControlEvent::ControlChange { channel: 5, controller: 7, value: 8 }.to_synth();
    assert!(matches!(control, oxisynth::MidiEvent::ControlChange { channel: 5, ctrl: 7, value: 8 }));
    let notes = ControlEvent::AllNotesOff { channel: 6 }.to_synth();
    assert!(matches!(notes, oxisynth::MidiEvent::AllNotesOff { channel: 6 }));
    let sound = ControlEvent::AllSoundOff { channel: 7 }.to_synth();
    assert!(matches!(sound, oxisynth::MidiEvent::AllSoundOff { channel: 7 }));
}

#[test]
fn conversion_round_trips() {
    let events = [
        ControlEvent::NoteOn { channel: 0, key: 60, velocity: 100 },
        ControlEvent::NoteOff { channel: 0, key: 60 },
        ControlEvent::ProgramChange { channel: 9, program: 12 },
        ControlEvent::ControlChange { channel: 1, controller: 64, value: 0 },
        ControlEvent::AllNotesOff { channel: 4 },
        ControlEvent::AllSoundOff { channel: 5 },
    ];
    for event in events {
        assert_eq!(ControlEvent::from_synth(event.to_synth()), Some(event));
    }
}

#[test]
fn kinds_the_player_never_sends_have_no_counterpart() {
    assert_eq!(ControlEvent::from_synth(oxisynth::MidiEvent::SystemReset), None);
    assert_eq!(
        ControlEvent::from_synth(oxisynth::MidiEvent::PitchBend { channel: 0, value: 8192 }),
        None
    );
    assert_eq!(
        ControlEvent::from_synth(oxisynth::MidiEvent::ChannelPressure { channel: 0, value: 1 }),
        None
    );
}

#[test]
fn synthesizer_agrees_with_validation() {
    let mut synth = oxisynth::Synth::default();
    let good = ControlEvent::AllSoundOff { channel: 0 };
    assert_eq!(good.validate(), Ok(()));
    assert!(synth.send_event(good.to_synth()).is_ok());
    let bad = ControlEvent::NoteOff { channel: 0, key: 128 };
    assert_eq!(bad.validate(), Err(EventError::KeyOutOfRange));
    assert!(synth.send_event(bad.to_synth()).is_err());
}
