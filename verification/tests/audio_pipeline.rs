use polyfoni::engine::{
    select_encoding, write_data, AudioDeviceError, DeviceConfig, DeviceFormat, RenderEngine,
    SampleEncoding, MAX_QUEUE_CAPACITY,
};
use polyfoni::midi::ControlEvent;
use polyfoni::player::{DeliveryFailure, MidiPlayer};

fn stereo() -> Option<DeviceConfig> {
    Some(DeviceConfig { format: DeviceFormat::Float32, channels: 2, sample_rate: 44100 })
}

fn open(queue: usize, cap: usize) -> (MidiPlayer, RenderEngine) {
    match MidiPlayer::new(stereo(), queue, cap) {
        Ok(pair) => pair,
        Err(e) => panic!("no engine: {:?}", e),
    }
}

#[test]
fn supported_formats_get_their_encoding() {
    assert_eq!(select_encoding(DeviceFormat::Float32), Ok(SampleEncoding::Float32));
    assert_eq!(select_encoding(DeviceFormat::Signed16), Ok(SampleEncoding::Signed16));
    assert_eq!(select_encoding(DeviceFormat::Unsigned16), Ok(SampleEncoding::Unsigned16));
}

#[test]
fn other_formats_are_unsupported() {
    for format in [
        DeviceFormat::Signed8,
        DeviceFormat::Signed32,
        DeviceFormat::Signed64,
        DeviceFormat::Unsigned8,
        DeviceFormat::Unsigned32,
        DeviceFormat::Unsigned64,
        DeviceFormat::Float64,
    ] {
        assert_eq!(select_encoding(format), Err(AudioDeviceError::UnsupportedSampleFormat));
    }
}

#[test]
fn no_device_is_fatal() {
    assert!(matches!(MidiPlayer::new(None, 8, 8), Err(AudioDeviceError::NoOutputDevice)));
}

#[test]
fn unsupported_format_is_fatal() {
    let device = Some(DeviceConfig { format: DeviceFormat::Signed32, channels: 2, sample_rate: 48000 });
    assert!(matches!(
        MidiPlayer::new(device, 8, 8),
        Err(AudioDeviceError::UnsupportedSampleFormat)
    ));
}

#[test]
fn settings_faults_are_reported_in_order() {
    let silent = Some(DeviceConfig { format: DeviceFormat::Signed16, channels: 0, sample_rate: 48000 });
    assert!(matches!(MidiPlayer::new(silent, 0, 0), Err(AudioDeviceError::NoOutputChannel)));
    assert!(matches!(MidiPlayer::new(stereo(), 0, 0), Err(AudioDeviceError::NoQueueCapacity)));
    assert!(matches!(
        MidiPlayer::new(stereo(), MAX_QUEUE_CAPACITY + 1, 0),
        Err(AudioDeviceError::QueueTooLarge)
    ));
    assert!(matches!(
        MidiPlayer::new(stereo(), usize::MAX, 4),
        Err(AudioDeviceError::QueueTooLarge)
    ));
    assert!(matches!(MidiPlayer::new(stereo(), 4, 0), Err(AudioDeviceError::NoDrainCap)));
    assert!(MidiPlayer::new(stereo(), 1, 1).is_ok());
    assert!(MidiPlayer::new(stereo(), MAX_QUEUE_CAPACITY, usize::MAX).is_ok());
}

#[test]
fn new_engine_reports_the_device() {
    let device = Some(DeviceConfig { format: DeviceFormat::Unsigned16, channels: 6, sample_rate: 22050 });
    let (player, engine) = match MidiPlayer::new(device, 4, 2) {
        Ok(pair) => pair,
        Err(e) => panic!("no engine: {:?}", e),
    };
    assert!(player.is_running());
    assert_eq!(player.dropped_count(), 0);
    assert_eq!(engine.sample_encoding(), SampleEncoding::Unsigned16);
    assert_eq!(engine.channel_count(), 6);
    assert_eq!(engine.frames_per_second(), 22050);
    assert_eq!(engine.rejected_count(), 0);
}

#[test]
fn events_arrive_in_the_order_sent() {
    let (mut player, mut engine) = open(16, 16);
    assert_eq!(player.noteOn(0, 60, 100), Ok(()));
    assert_eq!(player.setProgram(1, 5), Ok(()));
    assert_eq!(player.setVolume(2, 90), Ok(()));
    assert_eq!(player.control_change(2, 64, 127), Ok(()));
    assert_eq!(player.noteOff(0, 60), Ok(()));
    assert_eq!(player.allNotesOff(3), Ok(()));
    assert_eq!(player.allSoundOff(4), Ok(()));
    let mut batch = Vec::new();
    let taken = engine.begin_block(&mut batch);
    assert_eq!(taken, 7);
    assert_eq!(
        batch,
        vec![
            ControlEvent::NoteOn { channel: 0, key: 60, velocity: 100 },
            ControlEvent::ProgramChange { channel: 1, program: 5 },
            ControlEvent::ControlChange { channel: 2, controller: 7, value: 90 },
            ControlEvent::ControlChange { channel: 2, controller: 64, value: 127 },
            ControlEvent::NoteOff { channel: 0, key: 60 },
            ControlEvent::AllNotesOff { channel: 3 },
            ControlEvent::AllSoundOff { channel: 4 },
        ]
    );
}

#[test]
fn a_block_drains_more_than_one_event_up_to_the_cap() {
    let (mut player, mut engine) = open(16, 3);
    for key in 0..5u8 {
        assert_eq!(player.noteOn(0, key, 64), Ok(()));
    }
    let mut batch = Vec::new();
    assert_eq!(engine.begin_block(&mut batch), 3);
    assert_eq!(
        batch,
        vec![
            ControlEvent::NoteOn { channel: 0, key: 0, velocity: 64 },
            ControlEvent::NoteOn { channel: 0, key: 1, velocity: 64 },
            ControlEvent::NoteOn { channel: 0, key: 2, velocity: 64 },
        ]
    );
    assert_eq!(engine.begin_block(&mut batch), 2);
    assert_eq!(
        batch,
        vec![
            ControlEvent::NoteOn { channel: 0, key: 3, velocity: 64 },
            ControlEvent::NoteOn { channel: 0, key: 4, velocity: 64 },
        ]
    );
    assert_eq!(engine.begin_block(&mut batch), 0);
    assert!(batch.is_empty());
}

#[test]
fn malformed_events_are_counted_and_left_out() {
    let (mut player, mut engine) = open(16, 16);
    assert_eq!(player.noteOn(0, 60, 100), Ok(()));
    assert_eq!(player.noteOn(0, 200, 100), Ok(()));
    assert_eq!(player.setVolume(0, 255), Ok(()));
    assert_eq!(player.noteOff(0, 60), Ok(()));
    let mut batch = vec![ControlEvent::AllSoundOff { channel: 9 }];
    assert_eq!(engine.begin_block(&mut batch), 4);
    assert_eq!(
        batch,
        vec![
            ControlEvent::NoteOn { channel: 0, key: 60, velocity: 100 },
            ControlEvent::NoteOff { channel: 0, key: 60 },
        ]
    );
    assert_eq!(engine.rejected_count(), 2);
}

#[test]
fn a_full_channel_drops_and_counts() {
    let (mut player, mut engine) = open(2, 8);
    assert_eq!(player.noteOn(0, 1, 1), Ok(()));
    assert_eq!(player.noteOn(0, 2, 1), Ok(()));
    assert_eq!(player.noteOn(0, 3, 1), Err(DeliveryFailure::Full));
    assert_eq!(player.dropped_count(), 1);
    let mut batch = Vec::new();
    assert_eq!(engine.begin_block(&mut batch), 2);
    assert_eq!(player.noteOn(0, 4, 1), Ok(()));
    assert_eq!(player.dropped_count(), 1);
}

#[test]
fn a_closed_channel_drops_and_counts() {
    let (mut player, engine) = open(2, 8);
    drop(engine);
    assert_eq!(player.noteOn(0, 1, 1), Err(DeliveryFailure::Closed));
    assert_eq!(player.dropped_count(), 1);
}

#[test]
fn a_thousand_notes_never_block_a_producer() {
    let (player, mut engine) = open(64, 16);
    let mut producers = vec![player.producer(), player.producer(), player.producer(), player];
    let mut delivered = 0u64;
    for round in 0..250u32 {
        for producer in producers.iter_mut() {
            if producer.noteOn(0, (round % 128) as u8, 100).is_ok() {
                delivered += 1;
            }
        }
    }
    let dropped: u64 = producers.iter().map(|p| p.dropped_count()).sum();
    assert_eq!(delivered + dropped, 1000);
    assert_eq!(delivered, 64);
    let mut batch = Vec::with_capacity(16);
    let room = batch.capacity();
    let mut seen = 0;
    loop {
        let taken = engine.begin_block(&mut batch);
        assert!(taken <= 16);
        assert_eq!(batch.capacity(), room);
        if taken == 0 {
            break;
        }
        seen += taken;
    }
    assert_eq!(seen, 64);
}

#[test]
fn each_producer_keeps_its_own_order() {
    let (player, mut engine) = open(1024, 1024);
    let mut producers = vec![player.producer(), player.producer(), player.producer(), player];
    for key in 0..100u8 {
        for (channel, producer) in producers.iter_mut().enumerate() {
            assert_eq!(producer.noteOn(channel as u8, key, 100), Ok(()));
        }
    }
    let mut batch = Vec::new();
    assert_eq!(engine.begin_block(&mut batch), 400);
    for channel in 0..4u8 {
        let keys: Vec<u8> = batch
            .iter()
            .filter_map(|e| match e {
                ControlEvent::NoteOn { channel: c, key, .. } if *c == channel => Some(*key),
                _ => None,
            })
            .collect();
        assert_eq!(keys, (0..100u8).collect::<Vec<u8>>());
    }
}

#[test]
fn a_released_note_reaches_the_synthesizer_before_its_second_start() {
    let (mut player, mut engine) = open(8, 8);
    let mut synth = oxisynth::Synth::default();
    let mut batch = Vec::new();
    assert_eq!(player.noteOn(0, 60, 100), Ok(()));
    assert_eq!(engine.begin_block(&mut batch), 1);
    assert_eq!(batch, vec![ControlEvent::NoteOn { channel: 0, key: 60, velocity: 100 }]);
    for event in batch.iter() {
        let _ = synth.send_event(event.to_synth());
    }
    for _ in 0..64 {
        let _ = synth.read_next();
    }
    assert_eq!(player.noteOff(0, 60), Ok(()));
    assert_eq!(player.noteOn(0, 60, 100), Ok(()));
    assert_eq!(engine.begin_block(&mut batch), 2);
    assert_eq!(
        batch,
        vec![
            ControlEvent::NoteOff { channel: 0, key: 60 },
            ControlEvent::NoteOn { channel: 0, key: 60, velocity: 100 },
        ]
    );
    assert!(synth.send_event(batch[0].to_synth()).is_ok());
}

#[test]
fn stopping_twice_releases_once() {
    let (mut player, _engine) = open(4, 4);
    assert!(player.is_running());
    assert!(player.stop());
    assert!(!player.is_running());
    assert!(!player.stop());
    assert!(!player.is_running());
    assert_eq!(player.dropped_count(), 0);
}

#[test]
fn a_stopped_player_sends_nothing() {
    let (mut player, mut engine) = open(4, 4);
    assert!(player.stop());
    assert_eq!(player.noteOn(0, 60, 100), Err(DeliveryFailure::Closed));
    assert_eq!(player.allSoundOff(0), Err(DeliveryFailure::Closed));
    assert_eq!(player.dropped_count(), 2);
    let mut batch = Vec::new();
    assert_eq!(engine.begin_block(&mut batch), 0);
}

#[test]
fn stereo_frames_interleave_left_and_right() {
    let mut out = [0i16; 6];
    write_data(&mut out, 2, &[(1, -1), (2, -2), (3, -3)]);
    assert_eq!(out, [1, -1, 2, -2, 3, -3]);
}

#[test]
fn mono_frames_take_the_left_sample() {
    let mut out = [0u16; 3];
    write_data(&mut out, 1, &[(10, 20), (30, 40), (50, 60)]);
    assert_eq!(out, [10, 30, 50]);
}

#[test]
fn wider_frames_alternate_left_and_right() {
    let mut out = [0i16; 10];
    write_data(&mut out, 5, &[(1, 2), (3, 4)]);
    assert_eq!(out, [1, 2, 1, 2, 1, 3, 4, 3, 4, 3]);
}

#[test]
fn a_partial_last_frame_is_filled() {
    let mut out = [0i16; 5];
    write_data(&mut out, 2, &[(1, 2), (3, 4), (5, 6), (7, 8)]);
    assert_eq!(out, [1, 2, 3, 4, 5]);
}

#[test]
fn an_empty_buffer_stays_empty() {
    let mut out: [i16; 0] = [];
    write_data(&mut out, 2, &[]);
    assert_eq!(out.len(), 0);
}

#[test]
fn float_samples_pass_through_untouched() {
    let mut out = [0.0f32; 4];
    write_data(&mut out, 2, &[(0.5, -0.5), (0.25, -0.25)]);
    assert_eq!(out, [0.5, -0.5, 0.25, -0.25]);
}

#[test]
fn frames_needed_counts_a_partial_frame() {
    let (_player, engine) = open(4, 4);
    assert_eq!(engine.frames_needed(0), 0);
    assert_eq!(engine.frames_needed(1), 1);
    assert_eq!(engine.frames_needed(2), 1);
    assert_eq!(engine.frames_needed(3), 2);
    assert_eq!(engine.frames_needed(512), 256);
    assert_eq!(engine.frames_needed(usize::MAX), usize::MAX / 2 + 1);
}

#[test]
fn write_block_uses_the_engine_channels() {
    let (_player, engine) = open(4, 4);
    let mut out = [0i16; 4];
    engine.write_block(&mut out, &[(7, 8), (9, 10)]);
    assert_eq!(out, [7, 8, 9, 10]);
}

fn note(key: u8) -> ControlEvent {
    ControlEvent::NoteOn { channel: 0, key, velocity: 100 }
}

#[test]
fn an_empty_channel_ends_the_draining() {
    let (_player, mut engine) = open(8, 3);
    let mut batch = vec![note(1)];
    assert!(!engine.take_in(None, 0, &mut batch));
    assert_eq!(batch, vec![note(1)]);
    assert_eq!(engine.rejected_count(), 0);
}

#[test]
fn a_block_asks_again_until_the_cap_is_reached() {
    let (_player, mut engine) = open(8, 3);
    let mut batch = Vec::new();
    let off = ControlEvent::NoteOff { channel: 0, key: 60 };
    assert!(engine.take_in(Some(note(60)), 0, &mut batch));
    assert!(engine.take_in(Some(off), 1, &mut batch));
    assert!(!engine.take_in(Some(note(60)), 2, &mut batch));
    assert_eq!(batch, vec![note(60), off, note(60)]);
    assert_eq!(engine.rejected_count(), 0);
}

#[test]
fn a_malformed_answer_is_counted_and_the_block_goes_on() {
    let (_player, mut engine) = open(8, 4);
    let mut batch = Vec::new();
    assert!(engine.take_in(Some(note(200)), 0, &mut batch));
    assert!(batch.is_empty());
    assert_eq!(engine.rejected_count(), 1);
    assert!(engine.take_in(Some(note(61)), 1, &mut batch));
    assert_eq!(batch, vec![note(61)]);
    assert_eq!(engine.rejected_count(), 1);
}

#[test]
fn a_cap_of_one_takes_one_event_and_stops() {
    let (_player, mut engine) = open(8, 1);
    let mut batch = Vec::new();
    assert!(!engine.take_in(Some(note(60)), 0, &mut batch));
    assert_eq!(batch, vec![note(60)]);
}

#[test]
fn three_events_waiting_are_all_handed_over_by_one_block() {
    let (mut player, mut engine) = open(8, 3);
    assert_eq!(player.noteOn(0, 60, 100), Ok(()));
    assert_eq!(player.noteOff(0, 60), Ok(()));
    assert_eq!(player.noteOn(0, 60, 100), Ok(()));
    let mut batch = Vec::new();
    assert_eq!(engine.begin_block(&mut batch), 3);
    assert_eq!(
        batch,
        vec![note(60), ControlEvent::NoteOff { channel: 0, key: 60 }, note(60)]
    );
    assert_eq!(engine.begin_block(&mut batch), 0);
    assert!(batch.is_empty());
}

#[test]
fn what_the_cap_leaves_stays_queued_in_order() {
    let (mut player, mut engine) = open(16, 4);
    for key in 0..10u8 {
        assert_eq!(player.noteOn(0, key, 100), Ok(()));
    }
    let mut batch = Vec::new();
    assert_eq!(engine.begin_block(&mut batch), 4);
    assert_eq!(batch, vec![note(0), note(1), note(2), note(3)]);
    assert_eq!(engine.begin_block(&mut batch), 4);
    assert_eq!(batch, vec![note(4), note(5), note(6), note(7)]);
    assert_eq!(engine.begin_block(&mut batch), 2);
    assert_eq!(batch, vec![note(8), note(9)]);
}
