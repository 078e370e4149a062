use tokio_redis::cmd::{bulklen, encode_command, packed_len, Arg};
use tokio_redis::resp::{countdigits, push_bulk, push_decimal};
use tokio_redis::{get_cmd, set_cmd, Client, Cmd};

#[test]
fn set_command_bytes() {
    let mut cmd = Cmd::new();
    cmd.arg(b"SET").arg(b"k").arg(b"v");
    assert_eq!(cmd.get_packed_command(), b"*3\r\n$3\r\nSET\r\n$1\r\nk\r\n$1\r\nv\r\n".to_vec());
}

#[test]
fn empty_command_bytes() {
    let cmd = Cmd::new();
    assert_eq!(cmd.get_packed_command(), b"*0\r\n".to_vec());
    assert!(!cmd.in_scan_mode());
}

#[test]
fn binary_and_empty_arguments() {
    let mut cmd = Cmd::new();
    cmd.arg(b"").arg(&[0u8, 13, 10, 255]);
    assert_eq!(cmd.get_packed_command(), b"*2\r\n$0\r\n\r\n$4\r\n\x00\r\n\xff\r\n".to_vec());
}

#[test]
fn digit_count_matches_decimal_text() {
    let samples: Vec<u64> = vec![
        0, 1, 9, 10, 11, 99, 100, 999, 1000, 9999, 10000, 10001, 99999, 100000, 123456789,
        9999999999, 10000000000, u32::MAX as u64, u64::MAX - 1, u64::MAX,
    ];
    for n in samples {
        assert_eq!(countdigits(n), n.to_string().len(), "digits of {}", n);
    }
    let mut n: u64 = 1;
    while n < u64::MAX / 10 {
        assert_eq!(countdigits(n - 1), (n - 1).to_string().len());
        assert_eq!(countdigits(n), n.to_string().len());
        n *= 10;
    }
}

#[test]
fn decimal_writer() {
    let mut out = b"x".to_vec();
    push_decimal(&mut out, 0);
    push_decimal(&mut out, 17);
    push_decimal(&mut out, u64::MAX);
    assert_eq!(out, b"x01718446744073709551615".to_vec());
}

#[test]
fn bulk_writer() {
    let mut out = Vec::new();
    push_bulk(&mut out, b"hello");
    assert_eq!(out, b"$5\r\nhello\r\n".to_vec());
}

#[test]
fn bulk_length() {
    assert_eq!(bulklen(0), Some(6));
    assert_eq!(bulklen(3), Some(9));
    assert_eq!(bulklen(10), Some(17));
    assert_eq!(bulklen(usize::MAX), None);
}

#[test]
fn packed_length_is_exact() {
    let args = vec![Arg::Simple(b"SET".to_vec()), Arg::Cursor, Arg::Simple(vec![7u8; 12])];
    for cursor in [0u64, 9, 10, 17, 123456, u64::MAX] {
        let bytes = encode_command(&args, cursor);
        assert_eq!(packed_len(&args, cursor), Some(bytes.len()));
    }
}

#[test]
fn cursor_field_alone_changes() {
    let mut cmd = Cmd::new();
    cmd.arg(b"SCAN").cursor_arg(0).arg(b"MATCH").arg(b"a*");
    assert!(cmd.in_scan_mode());
    let first = cmd.get_packed_command_with_cursor(0).unwrap();
    let second = cmd.get_packed_command_with_cursor(17).unwrap();
    assert_eq!(first, b"*4\r\n$4\r\nSCAN\r\n$1\r\n0\r\n$5\r\nMATCH\r\n$2\r\na*\r\n".to_vec());
    assert_eq!(second, b"*4\r\n$4\r\nSCAN\r\n$2\r\n17\r\n$5\r\nMATCH\r\n$2\r\na*\r\n".to_vec());
    assert_eq!(cmd.get_packed_command(), first);
}

#[test]
fn stored_cursor_is_used() {
    let mut cmd = Cmd::new();
    cmd.arg(b"SSCAN").arg(b"set").cursor_arg(42);
    assert_eq!(
        cmd.get_packed_command(),
        b"*3\r\n$5\r\nSSCAN\r\n$3\r\nset\r\n$2\r\n42\r\n".to_vec()
    );
}

#[test]
fn command_without_cursor_ignores_cursor() {
    let mut cmd = Cmd::new();
    cmd.arg(b"GET").arg(b"key");
    assert_eq!(cmd.get_packed_command_with_cursor(17), None);
    let args = vec![Arg::Simple(b"GET".to_vec()), Arg::Simple(b"key".to_vec())];
    assert_eq!(encode_command(&args, 0), encode_command(&args, 17));
    assert_eq!(encode_command(&args, 0), cmd.get_packed_command());
}

#[test]
#[allow(unused_must_use)]
fn cloned_command_packs_the_same() {
    let mut cmd = Cmd::new();
    cmd.arg(b"PING");
    let copy = cmd.clone();
    assert_eq!(copy.get_packed_command(), cmd.get_packed_command());
}

#[test]
fn get_and_set_commands() {
    let one = get_cmd(&vec![b"k".to_vec()]);
    assert_eq!(one.get_packed_command(), b"*2\r\n$3\r\nGET\r\n$1\r\nk\r\n".to_vec());
    let many = get_cmd(&vec![b"a".to_vec(), b"b".to_vec()]);
    assert_eq!(
        many.get_packed_command(),
        b"*3\r\n$4\r\nMGET\r\n$1\r\na\r\n$1\r\nb\r\n".to_vec()
    );
    let set = set_cmd(b"zomghi2u", b"SOME VALUE");
    assert_eq!(
        set.get_packed_command(),
        b"*3\r\n$3\r\nSET\r\n$8\r\nzomghi2u\r\n$10\r\nSOME VALUE\r\n".to_vec()
    );
    let _client = Client::new();
}
