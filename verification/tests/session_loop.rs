use kenny::session::{run_session, session_step, SessionEnd, SessionState};

#[test]
fn interactive_echo() {
    let lines = vec!["hello".to_string(), "world".to_string(), "exit".to_string()];
    let (acks, end) = run_session(&lines);
    assert_eq!(acks, vec!["You typed: hello", "You typed: world"]);
    assert_eq!(end, SessionEnd::Sentinel);
}

#[test]
fn line_after_sentinel_is_never_read() {
    let lines = vec!["one".to_string(), "exit".to_string(), "two".to_string()];
    let (acks, end) = run_session(&lines);
    assert_eq!(acks, vec!["You typed: one"]);
    assert_eq!(end, SessionEnd::Sentinel);
}

#[test]
fn graceful_stream_end() {
    let lines = vec!["hello".to_string(), "world".to_string()];
    let (acks, end) = run_session(&lines);
    assert_eq!(acks, vec!["You typed: hello", "You typed: world"]);
    assert_eq!(end, SessionEnd::InputClosed);
}

#[test]
fn empty_stream_terminates_cleanly() {
    let (acks, end) = run_session(&Vec::new());
    assert!(acks.is_empty());
    assert_eq!(end, SessionEnd::InputClosed);
}

#[test]
fn step_echoes_an_ordinary_line() {
    let (state, ack) = session_step(Some("hello".to_string()));
    assert_eq!(state, SessionState::AwaitingLine);
    assert_eq!(ack, Some("You typed: hello".to_string()));
}

#[test]
fn step_stops_on_the_sentinel() {
    let (state, ack) = session_step(Some("exit".to_string()));
    assert_eq!(state, SessionState::Terminated);
    assert_eq!(ack, None);
}

#[test]
fn step_stops_on_a_closed_channel() {
    let (state, ack) = session_step(None);
    assert_eq!(state, SessionState::Terminated);
    assert_eq!(ack, None);
}
