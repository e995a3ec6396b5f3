use polyfoni::evaluator::{
    close_step, evaluate, CloseAction, Evaluator, Exchange, Recovery, WorkerState,
};
use polyfoni::protocol::{
    frame_bytes, frame_request, parse_response, EvaluationError, ProtocolViolation, Request,
};

#[test]
fn a_request_is_its_payload_and_a_newline() {
    assert_eq!(frame_request("x + 1"), Ok(b"x + 1\n".to_vec()));
    assert_eq!(frame_request(""), Ok(b"\n".to_vec()));
    assert_eq!(frame_bytes(b"1+1"), Ok(b"1+1\n".to_vec()));
}

#[test]
fn a_request_keeps_text_beyond_ascii() {
    assert_eq!(frame_request("π·2"), Ok("π·2\n".as_bytes().to_vec()));
}

#[test]
fn a_payload_of_two_lines_is_turned_away() {
    assert_eq!(frame_request("1\n2"), Err(ProtocolViolation::EmbeddedNewline));
    assert_eq!(frame_request("1\n"), Err(ProtocolViolation::EmbeddedNewline));
    assert_eq!(frame_bytes(b"\n"), Err(ProtocolViolation::EmbeddedNewline));
    assert!(matches!(Request::from_text("a\nb"), Err(ProtocolViolation::EmbeddedNewline)));
}

#[test]
fn a_framed_request_gives_its_bytes() {
    let request = match Request::from_text("2 * 3") {
        Ok(request) => request,
        Err(e) => panic!("not framed: {:?}", e),
    };
    assert_eq!(request.bytes(), &b"2 * 3\n".to_vec());
    let raw = match Request::from_bytes(b"abc") {
        Ok(request) => request,
        Err(e) => panic!("not framed: {:?}", e),
    };
    assert_eq!(raw.bytes(), &b"abc\n".to_vec());
}

#[test]
fn a_reply_loses_its_newline() {
    assert_eq!(parse_response(b"3\n".to_vec()), Ok("3".to_string()));
    assert_eq!(parse_response(b"\n".to_vec()), Ok(String::new()));
    assert_eq!(parse_response("4.5 ± 0.1\n".as_bytes().to_vec()), Ok("4.5 ± 0.1".to_string()));
}

#[test]
fn a_reply_keeps_a_carriage_return() {
    assert_eq!(parse_response(b"3\r\n".to_vec()), Ok("3\r".to_string()));
}

#[test]
fn end_of_stream_is_a_violation() {
    assert_eq!(parse_response(Vec::new()), Err(ProtocolViolation::EndOfStream));
}

#[test]
fn a_reply_cut_short_is_a_violation() {
    assert_eq!(parse_response(b"3".to_vec()), Err(ProtocolViolation::MissingNewline));
    assert_eq!(parse_response(b"1\n2".to_vec()), Err(ProtocolViolation::MissingNewline));
}

#[test]
fn two_lines_in_one_reply_are_a_violation() {
    assert_eq!(parse_response(b"1\n2\n".to_vec()), Err(ProtocolViolation::EmbeddedNewline));
}

#[test]
fn bytes_that_are_not_utf8_are_a_violation() {
    assert_eq!(parse_response(vec![0xff, 0xfe, b'\n']), Err(ProtocolViolation::InvalidUtf8));
    assert_eq!(parse_response(vec![0xc0, 0x80, b'\n']), Err(ProtocolViolation::InvalidUtf8));
    assert_eq!(parse_response(vec![0xed, 0xa0, 0x80, b'\n']), Err(ProtocolViolation::InvalidUtf8));
    assert_eq!(parse_response(vec![0xe2, 0x82, b'\n']), Err(ProtocolViolation::InvalidUtf8));
}

#[test]
fn framing_faults_come_before_encoding_faults() {
    assert_eq!(parse_response(vec![0xff]), Err(ProtocolViolation::MissingNewline));
    assert_eq!(parse_response(vec![0xff, b'\n', b'\n']), Err(ProtocolViolation::EmbeddedNewline));
}

#[test]
fn a_new_worker_is_ready() {
    let worker = Evaluator::new(3);
    assert_eq!(worker.current_state(), WorkerState::Ready);
    assert_eq!(worker.remaining_respawns(), 3);
}

#[test]
fn a_worker_holds_one_task_at_a_time() {
    let mut worker = Evaluator::new(1);
    assert!(worker.begin(7));
    assert_eq!(worker.current_state(), WorkerState::Busy { task: 7 });
    assert!(!worker.begin(8));
    assert_eq!(worker.current_state(), WorkerState::Busy { task: 7 });
}

#[test]
fn a_good_reply_gives_the_text_and_frees_the_worker() {
    let mut worker = Evaluator::new(1);
    assert!(worker.begin(0));
    let done = evaluate(&mut worker, Exchange::Reply(b"3\n".to_vec()));
    assert_eq!(done, Some((Ok("3".to_string()), Recovery::Keep)));
    assert_eq!(worker.current_state(), WorkerState::Ready);
    assert_eq!(worker.remaining_respawns(), 1);
}

#[test]
fn an_idle_worker_has_nothing_to_finish() {
    let mut worker = Evaluator::new(1);
    assert_eq!(evaluate(&mut worker, Exchange::Reply(b"3\n".to_vec())), None);
    assert_eq!(worker.current_state(), WorkerState::Ready);
}

#[test]
fn a_failed_write_costs_a_respawn() {
    let mut worker = Evaluator::new(2);
    assert!(worker.begin(0));
    let done = evaluate(&mut worker, Exchange::WriteFailed);
    assert_eq!(done, Some((Err(EvaluationError::WriteFailed), Recovery::Respawn)));
    assert_eq!(worker.current_state(), WorkerState::Respawning);
    assert_eq!(worker.remaining_respawns(), 1);
}

#[test]
fn a_failed_read_retires_a_worker_without_budget() {
    let mut worker = Evaluator::new(0);
    assert!(worker.begin(0));
    let done = evaluate(&mut worker, Exchange::ReadFailed);
    assert_eq!(done, Some((Err(EvaluationError::ReadFailed), Recovery::Retire)));
    assert_eq!(worker.current_state(), WorkerState::Retired);
    assert!(!worker.begin(1));
}

#[test]
fn a_bad_reply_is_an_error_value_and_costs_the_subprocess() {
    let mut worker = Evaluator::new(1);
    assert!(worker.begin(0));
    let done = evaluate(&mut worker, Exchange::Reply(Vec::new()));
    assert_eq!(
        done,
        Some((
            Err(EvaluationError::Protocol(ProtocolViolation::EndOfStream)),
            Recovery::Respawn
        ))
    );
    let mut other = Evaluator::new(1);
    assert!(other.begin(0));
    let done = evaluate(&mut other, Exchange::Reply(vec![0xff, b'\n']));
    assert_eq!(
        done,
        Some((
            Err(EvaluationError::Protocol(ProtocolViolation::InvalidUtf8)),
            Recovery::Respawn
        ))
    );
}

#[test]
fn a_respawn_that_starts_makes_the_worker_ready() {
    let mut worker = Evaluator::new(1);
    assert!(worker.begin(0));
    let _ = evaluate(&mut worker, Exchange::WriteFailed);
    assert_eq!(worker.respawned(true), Recovery::Keep);
    assert_eq!(worker.current_state(), WorkerState::Ready);
    assert_eq!(worker.remaining_respawns(), 0);
}

#[test]
fn a_respawn_that_fails_spends_the_budget_and_then_retires() {
    let mut worker = Evaluator::new(2);
    assert!(worker.begin(0));
    let _ = evaluate(&mut worker, Exchange::WriteFailed);
    assert_eq!(worker.remaining_respawns(), 1);
    assert_eq!(worker.respawned(false), Recovery::Respawn);
    assert_eq!(worker.remaining_respawns(), 0);
    assert_eq!(worker.current_state(), WorkerState::Respawning);
    assert_eq!(worker.respawned(false), Recovery::Retire);
    assert_eq!(worker.current_state(), WorkerState::Retired);
    assert_eq!(worker.respawned(true), Recovery::Keep);
    assert_eq!(worker.current_state(), WorkerState::Retired);
}

#[test]
fn a_payload_that_is_not_utf8_is_turned_away() {
    assert!(matches!(Request::from_bytes(&[0xff, 0xfe]), Err(ProtocolViolation::InvalidUtf8)));
    assert!(matches!(
        Request::from_bytes(&[0xff, b'\n']),
        Err(ProtocolViolation::EmbeddedNewline)
    ));
    let ok = match Request::from_bytes("π".as_bytes()) {
        Ok(request) => request,
        Err(e) => panic!("not framed: {:?}", e),
    };
    assert_eq!(ok.bytes(), &"π\n".as_bytes().to_vec());
}

#[test]
fn a_retired_worker_gives_up_its_task() {
    let mut busy = Evaluator::new(2);
    assert!(busy.begin(5));
    assert_eq!(busy.retire(), Some(5));
    assert_eq!(busy.current_state(), WorkerState::Retired);
    assert_eq!(busy.remaining_respawns(), 2);
    let mut idle = Evaluator::new(2);
    assert_eq!(idle.retire(), None);
    assert_eq!(idle.current_state(), WorkerState::Retired);
}

#[test]
fn a_closed_subprocess_is_waited_for_and_then_killed() {
    assert_eq!(close_step(true, 0, 2000), CloseAction::Done);
    assert_eq!(close_step(true, 5000, 2000), CloseAction::Done);
    assert_eq!(close_step(false, 0, 2000), CloseAction::Wait);
    assert_eq!(close_step(false, 1999, 2000), CloseAction::Wait);
    assert_eq!(close_step(false, 2000, 2000), CloseAction::Kill);
    assert_eq!(close_step(false, u64::MAX, 2000), CloseAction::Kill);
    assert_eq!(close_step(false, 0, 0), CloseAction::Kill);
}
