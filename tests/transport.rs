use tokio_redis::{Cmd, Polled, RedisTransport, Value};

fn command(name: &[u8], key: &[u8]) -> Cmd {
    let mut cmd = Cmd::new();
    cmd.arg(name).arg(key);
    cmd
}

#[test]
fn flush_resumes_after_short_write() {
    let mut t = RedisTransport::new();
    let first = command(b"GET", b"a");
    let second = command(b"GET", b"b");
    let first_bytes = first.get_packed_command();
    let second_bytes = second.get_packed_command();
    t.start_send(first);
    t.start_send(second);

    let mut wire: Vec<u8> = Vec::new();
    assert!(t.next_write());
    assert_eq!(t.pending(), &first_bytes[..]);
    wire.extend_from_slice(&t.pending()[..5]);
    assert!(t.wr_flush(Some(5)));
    assert_eq!(t.wr_pos(), 5);
    assert_eq!(t.wr_remaining(), first_bytes.len() - 5);

    assert!(!t.wr_flush(None));
    assert_eq!(t.wr_pos(), 5);

    assert!(t.next_write());
    assert_eq!(t.pending(), &first_bytes[5..]);
    let n = t.pending().len();
    wire.extend_from_slice(t.pending());
    assert!(t.wr_flush(Some(n)));
    assert!(t.wr_is_empty());

    assert!(t.next_write());
    assert_eq!(t.pending(), &second_bytes[..]);
    let n = t.pending().len();
    wire.extend_from_slice(t.pending());
    assert!(t.wr_flush(Some(n)));
    assert!(!t.next_write());

    let mut expected = first_bytes.clone();
    expected.extend_from_slice(&second_bytes);
    assert_eq!(wire, expected);
}

#[test]
fn nothing_to_write_when_idle() {
    let mut t = RedisTransport::new();
    assert!(t.wr_is_empty());
    assert!(!t.next_write());
    assert_eq!(t.wr_remaining(), 0);
}

#[test]
fn replies_come_out_as_bytes_arrive() {
    let mut t = RedisTransport::new();
    assert_eq!(t.poll_value(), Polled::NotReady);
    t.fill(b"+OK\r\n:4");
    assert_eq!(t.poll_value(), Polled::Ready(Value::Status(b"OK".to_vec())));
    assert_eq!(t.poll_value(), Polled::NotReady);
    t.fill(b"2\r\n");
    assert_eq!(t.poll_value(), Polled::Ready(Value::Integer(42)));
    assert_eq!(t.poll_value(), Polled::NotReady);
}

#[test]
fn end_of_stream_is_reported() {
    let mut t = RedisTransport::new();
    t.fill(b"$3\r\nab");
    assert!(!t.is_done());
    t.set_done();
    assert!(t.is_done());
    assert_eq!(t.poll_value(), Polled::End);
}

#[test]
fn buffered_reply_still_comes_after_end() {
    let mut t = RedisTransport::new();
    t.fill(b":1\r\n");
    t.set_done();
    assert_eq!(t.poll_value(), Polled::Ready(Value::Integer(1)));
    assert_eq!(t.poll_value(), Polled::End);
}

#[test]
fn protocol_error_breaks_the_transport() {
    let mut t = RedisTransport::new();
    t.fill(b"!oops\r\n");
    assert_eq!(t.poll_value(), Polled::Broken);
    assert_eq!(t.poll_value(), Polled::Broken);
}
