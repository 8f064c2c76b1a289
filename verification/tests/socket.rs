use trading_core::socket::{
    frame_message, supervisor_action, supervisor_continues, FrameBuffer, Mode, SocketConfig,
    SupervisorAction,
};

#[test]
fn test_frame_message_appends_suffix() {
    let framed = frame_message(b"ping", b"\r\n");
    assert_eq!(framed, b"ping\r\n".to_vec());
}

#[test]
fn test_frame_message_empty_payload() {
    let framed = frame_message(b"", b"\r\n");
    assert_eq!(framed, b"\r\n".to_vec());
}

#[test]
fn test_frame_split_across_chunks() {
    // "hello\r\nworld\r" then "\n" delivers "hello" then "world"
    let mut buffer = FrameBuffer::new(b"\r\n".to_vec());

    let frames = buffer.feed(b"hello\r\nworld\r");
    assert_eq!(frames, vec![b"hello".to_vec()]);

    let frames = buffer.feed(b"\n");
    assert_eq!(frames, vec![b"world".to_vec()]);
}

#[test]
fn test_frames_delivered_in_wire_order() {
    let mut buffer = FrameBuffer::new(b"\r\n".to_vec());
    let frames = buffer.feed(b"a\r\nb\r\nc\r\n");
    assert_eq!(frames, vec![b"a".to_vec(), b"b".to_vec(), b"c".to_vec()]);
}

#[test]
fn test_frames_same_for_any_chunking() {
    let stream = b"alpha\r\nbeta\r\ngamma\r\n";
    let mut whole = FrameBuffer::new(b"\r\n".to_vec());
    let expected = whole.feed(stream);

    for cut in 0..stream.len() {
        let mut buffer = FrameBuffer::new(b"\r\n".to_vec());
        let mut got = buffer.feed(&stream[..cut]);
        got.extend(buffer.feed(&stream[cut..]));
        assert_eq!(got, expected);
    }
}

#[test]
fn test_partial_tail_stays_buffered() {
    let mut buffer = FrameBuffer::new(b"\r\n".to_vec());
    assert!(buffer.feed(b"no end yet").is_empty());
    assert!(buffer.feed(b", still none").is_empty());
    let frames = buffer.feed(b"\r\n");
    assert_eq!(frames, vec![b"no end yet, still none".to_vec()]);
}

#[test]
fn test_empty_frame() {
    let mut buffer = FrameBuffer::new(b"\r\n".to_vec());
    let frames = buffer.feed(b"\r\n\r\n");
    assert_eq!(frames, vec![b"".to_vec(), b"".to_vec()]);
}

#[test]
fn test_single_byte_suffix() {
    let mut buffer = FrameBuffer::new(b"\n".to_vec());
    let frames = buffer.feed(b"one\ntwo\nthr");
    assert_eq!(frames, vec![b"one".to_vec(), b"two".to_vec()]);
    let frames = buffer.feed(b"ee\n");
    assert_eq!(frames, vec![b"three".to_vec()]);
}

#[test]
fn test_supervisor_decision_table() {
    assert_eq!(supervisor_action(false, true), SupervisorAction::Idle);
    assert_eq!(supervisor_action(false, false), SupervisorAction::Reconnect);
    assert_eq!(
        supervisor_action(true, true),
        SupervisorAction::ShutdownThenTerminate
    );
    assert_eq!(supervisor_action(true, false), SupervisorAction::Terminate);
}

#[test]
fn test_supervisor_termination() {
    assert!(supervisor_continues(SupervisorAction::Idle, false));
    assert!(supervisor_continues(SupervisorAction::Reconnect, true));
    assert!(!supervisor_continues(SupervisorAction::Reconnect, false));
    assert!(!supervisor_continues(
        SupervisorAction::ShutdownThenTerminate,
        true
    ));
    assert!(!supervisor_continues(SupervisorAction::Terminate, true));
}

#[test]
fn test_socket_config() {
    let config = SocketConfig::new(
        "127.0.0.1:7878".to_string(),
        Mode::Plain,
        b"\r\n".to_vec(),
        Some((1, b"ping".to_vec())),
    );
    assert_eq!(config.url, "127.0.0.1:7878");
    assert_eq!(config.mode, Mode::Plain);
    assert_eq!(config.suffix, b"\r\n".to_vec());
    assert_eq!(config.heartbeat, Some((1, b"ping".to_vec())));
}

#[test]
fn test_false_prefix_before_suffix() {
    let mut buffer = FrameBuffer::new(b"ab".to_vec());
    let frames = buffer.feed(b"aaab");
    assert_eq!(frames, vec![b"aa".to_vec()]);
}
