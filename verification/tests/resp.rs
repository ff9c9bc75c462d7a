use vmstat_valkey::client::lset_reply;
use vmstat_valkey::resp::{
    encode_command, read_exact_len, read_line_crlf, read_resp, Decoded, Resp,
};

fn reply(bytes: &[u8]) -> Decoded {
    read_resp(bytes, 0)
}

fn args(texts: &[&str]) -> Vec<Vec<u8>> {
    texts.iter().map(|t| t.as_bytes().to_vec()).collect()
}

#[test]
fn simple_string() {
    assert_eq!(reply(b"+OK\r\n"), Decoded::Complete(Resp::SimpleString("OK".to_string()), 5));
    assert_eq!(
        reply(b"+\xff!\r\n"),
        Decoded::Complete(Resp::SimpleString("\u{fffd}!".to_string()), 5)
    );
    assert_eq!(
        reply(b"+a\r\r\n"),
        Decoded::Complete(Resp::SimpleString("a\r".to_string()), 5)
    );
    assert_eq!(
        reply(b"+a\nb\r\n"),
        Decoded::Complete(Resp::SimpleString("a\nb".to_string()), 6)
    );
}

#[test]
fn error_reply() {
    assert_eq!(
        reply(b"-ERR no such key\r\n+"),
        Decoded::Complete(Resp::Error("ERR no such key".to_string()), 18)
    );
}

#[test]
fn integer_reply() {
    assert_eq!(reply(b":123\r\n"), Decoded::Complete(Resp::Integer(123), 6));
    assert_eq!(reply(b":-7\r\n"), Decoded::Complete(Resp::Integer(-7), 5));
    assert_eq!(reply(b":+7\r\n"), Decoded::Complete(Resp::Integer(7), 5));
    assert_eq!(reply(b":\r\n"), Decoded::Complete(Resp::Integer(0), 3));
    assert_eq!(reply(b":x\r\n"), Decoded::Complete(Resp::Integer(0), 4));
    assert_eq!(
        reply(b":9223372036854775808\r\n"),
        Decoded::Complete(Resp::Integer(0), 22)
    );
}

#[test]
fn bulk_string() {
    assert_eq!(
        reply(b"$3\r\na\r\n\r\n"),
        Decoded::Complete(Resp::BulkString(Some(b"a\r\n".to_vec())), 9)
    );
    assert_eq!(reply(b"$0\r\n\r\n"), Decoded::Complete(Resp::BulkString(Some(vec![])), 6));
    assert_eq!(reply(b"$-1\r\n"), Decoded::Complete(Resp::BulkString(None), 5));
    assert_eq!(reply(b"$zz\r\n"), Decoded::Complete(Resp::BulkString(None), 5));
    // What stands between the string and the end of its line is passed over.
    assert_eq!(
        reply(b"$1\r\naxyz\r\n"),
        Decoded::Complete(Resp::BulkString(Some(b"a".to_vec())), 10)
    );
}

#[test]
fn array_reply() {
    assert_eq!(
        reply(b"*2\r\n:1\r\n*1\r\n$1\r\nx\r\n"),
        Decoded::Complete(
            Resp::Array(Some(vec![
                Resp::Integer(1),
                Resp::Array(Some(vec![Resp::BulkString(Some(b"x".to_vec()))])),
            ])),
            19
        )
    );
    assert_eq!(reply(b"*0\r\n"), Decoded::Complete(Resp::Array(Some(vec![])), 4));
    assert_eq!(reply(b"*-1\r\n"), Decoded::Complete(Resp::Array(None), 5));
    assert_eq!(reply(b"*9223372036854775807\r\n:1\r\n"), Decoded::Partial);
}

#[test]
fn unknown_lead_byte() {
    assert_eq!(reply(b"!x"), Decoded::Unknown(b'!', 1));
    assert_eq!(reply(b"*2\r\n:1\r\n?"), Decoded::Unknown(b'?', 9));
}

#[test]
fn reply_is_read_from_its_place() {
    assert_eq!(read_resp(b"+OK\r\n:5\r\n", 5), Decoded::Complete(Resp::Integer(5), 4));
    assert_eq!(read_resp(b"+OK\r\n", 5), Decoded::Partial);
}

#[test]
fn command_on_the_wire() {
    assert_eq!(
        encode_command(&args(&["LSET", "k", "7", "\u{e9}"])),
        b"*4\r\n$4\r\nLSET\r\n$1\r\nk\r\n$1\r\n7\r\n$2\r\n\xc3\xa9\r\n".to_vec()
    );
    assert_eq!(encode_command(&[]), b"*0\r\n".to_vec());
}

#[test]
fn command_reads_back() {
    let command = args(&["RPUSH", "list", "", "a\r\nb", "0123456789abc"]);
    let mut bytes = encode_command(&command);
    let len = bytes.len();
    bytes.extend_from_slice(b"+left over");
    let expected = command.iter().map(|a| Resp::BulkString(Some(a.clone()))).collect();
    assert_eq!(reply(&bytes), Decoded::Complete(Resp::Array(Some(expected)), len));
}

#[test]
fn cut_command_is_partial() {
    let bytes = encode_command(&args(&["EXISTS", "a\r\n"]));
    for n in 0..bytes.len() {
        assert_eq!(reply(&bytes[..n]), Decoded::Partial);
    }
}

#[test]
fn reply_stays_when_more_comes() {
    for whole in [&b"+OK\r\n"[..], b"$2\r\nab\r\n", b"*1\r\n:1\r\n", b"*1\r\n?", b":1\r\n"] {
        let first = reply(whole);
        for more in [&b"x"[..], b"\r\n", b"*2\r\n", b"\n"] {
            let mut longer = whole.to_vec();
            longer.extend_from_slice(more);
            assert_eq!(reply(&longer), first);
        }
    }
}

#[test]
fn reply_is_within_its_bytes() {
    for bytes in [&b"+OK\r\nx"[..], b"$-1\r\n", b"*1\r\n:1\r\n", b"!"] {
        match reply(bytes) {
            Decoded::Complete(_, used) | Decoded::Unknown(_, used) => {
                assert!(0 < used && used <= bytes.len())
            }
            Decoded::Partial => panic!("partial"),
        }
    }
}

#[test]
fn line_up_to_its_end() {
    assert_eq!(read_line_crlf(b"ab\r\ncd", 0), Some((b"ab".to_vec(), 4)));
    assert_eq!(read_line_crlf(b"ab\r\ncd\r\n", 4), Some((b"cd".to_vec(), 8)));
    assert_eq!(read_line_crlf(b"\r\r\n", 0), Some((b"\r".to_vec(), 3)));
    assert_eq!(read_line_crlf(b"ab\r", 0), None);
    assert_eq!(read_line_crlf(b"ab\n", 0), None);
    assert_eq!(read_line_crlf(b"", 0), None);
}

#[test]
fn exact_number_of_bytes() {
    assert_eq!(read_exact_len(b"abcd", 1, 2), Some((b"bc".to_vec(), 3)));
    assert_eq!(read_exact_len(b"abcd", 4, 0), Some((vec![], 4)));
    assert_eq!(read_exact_len(b"abcd", 1, 4), None);
    assert_eq!(read_exact_len(b"abcd", 1, usize::MAX), None);
}

#[test]
fn answer_comes_over_the_wire() {
    match reply(b"+OK\r\nrest") {
        Decoded::Complete(r, used) => {
            assert!(lset_reply(&r));
            assert_eq!(used, 5);
        }
        _ => panic!("no reply"),
    }
    match reply(b"-ERR index out of range\r\n") {
        Decoded::Complete(r, _) => assert!(!lset_reply(&r)),
        _ => panic!("no reply"),
    }
    assert_eq!(
        reply("+n\u{e9}\r\n".as_bytes()),
        Decoded::Complete(Resp::SimpleString("n\u{e9}".to_string()), 6)
    );
}

/// A reply on the wire.
fn written(r: &Resp) -> Vec<u8> {
    match r {
        Resp::SimpleString(s) => format!("+{}\r\n", s).into_bytes(),
        Resp::Error(s) => format!("-{}\r\n", s).into_bytes(),
        Resp::Integer(n) => format!(":{}\r\n", n).into_bytes(),
        Resp::BulkString(None) => b"$-1\r\n".to_vec(),
        Resp::BulkString(Some(b)) => {
            [format!("${}\r\n", b.len()).as_bytes(), b, b"\r\n"].concat()
        }
        Resp::Array(None) => b"*-1\r\n".to_vec(),
        Resp::Array(Some(vs)) => {
            let mut out = format!("*{}\r\n", vs.len()).into_bytes();
            for v in vs {
                out.extend(written(v));
            }
            out
        }
    }
}

fn nested_reply() -> Resp {
    Resp::Array(Some(vec![
        Resp::SimpleString("a\r".to_string()),
        Resp::Array(Some(vec![
            Resp::Array(None),
            Resp::Integer(i64::MIN),
            Resp::Array(Some(vec![Resp::BulkString(Some(b"\r\n".to_vec()))])),
        ])),
        Resp::BulkString(None),
        Resp::Error("\u{1f600}".to_string()),
        Resp::Array(Some(vec![])),
    ]))
}

#[test]
fn nested_reply_reads_back() {
    let mut bytes = written(&nested_reply());
    let len = bytes.len();
    assert_eq!(reply(&bytes), Decoded::Complete(nested_reply(), len));
    bytes.extend_from_slice(b"\r\n*");
    assert_eq!(reply(&bytes), Decoded::Complete(nested_reply(), len));
}

#[test]
fn cut_nested_reply_is_partial() {
    let bytes = written(&nested_reply());
    for n in 0..bytes.len() {
        assert_eq!(reply(&bytes[..n]), Decoded::Partial);
    }
}
