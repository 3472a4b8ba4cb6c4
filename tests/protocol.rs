use rustredis::decimal::{parse_int, push_signed_decimal};
use rustredis::decode::{decode, LeadingUnit, Unit, MAX_DEPTH};
use rustredis::error::Error;
use rustredis::piece::RawPiece;
use rustredis::stream::Decoder;

fn bulk(s: &[u8]) -> RawPiece {
    RawPiece::BulkString { data: s.to_vec() }
}

fn simple(s: &[u8]) -> RawPiece {
    RawPiece::SimpleString { data: s.to_vec() }
}

fn decode_all(bytes: &[u8]) -> Result<(RawPiece, usize), Error> {
    decode(bytes, true)
}

#[test]
fn marshal() {
    let input = RawPiece::Array(vec![]);
    let out = input.encode();
    assert_eq!(out.len(), 4);
    assert_eq!(out, b"*0\r\n".to_vec());
}

#[test]
fn encodes_each_kind() {
    assert_eq!(simple(b"OK").encode(), b"+OK\r\n".to_vec());
    assert_eq!(
        RawPiece::Error { typ: b"ERR".to_vec(), cause: b"bad thing".to_vec() }.encode(),
        b"-ERR bad thing\r\n".to_vec()
    );
    assert_eq!(RawPiece::Error { typ: b"ERR".to_vec(), cause: vec![] }.encode(), b"-ERR\r\n".to_vec());
    assert_eq!(RawPiece::Integer(-42).encode(), b":-42\r\n".to_vec());
    assert_eq!(RawPiece::Integer(i64::MIN).encode(), b":-9223372036854775808\r\n".to_vec());
    assert_eq!(bulk(b"foo").encode(), b"$3\r\nfoo\r\n".to_vec());
    assert_eq!(bulk(b"").encode(), b"$0\r\n\r\n".to_vec());
    assert_eq!(RawPiece::Null.encode(), b"$-1\r\n".to_vec());
    assert_eq!(
        RawPiece::Array(vec![bulk(b"get"), RawPiece::Integer(7)]).encode(),
        b"*2\r\n$3\r\nget\r\n:7\r\n".to_vec()
    );
}

#[test]
fn prefix_bytes() {
    assert_eq!(simple(b"x").prefix(), b'+');
    assert_eq!(RawPiece::Integer(1).prefix(), b':');
    assert_eq!(RawPiece::Null.prefix(), b'$');
    assert_eq!(RawPiece::Array(vec![]).prefix(), b'*');
}

#[test]
fn bulk_round_trip() {
    for s in [&b""[..], b"foo", b"hello world", b"a\tb", b"9abc"] {
        let enc = bulk(s).encode();
        let (p, n) = decode_all(&enc).unwrap();
        assert_eq!(p, bulk(s));
        assert_eq!(n, enc.len());
    }
}

#[test]
fn array_round_trip() {
    let items = vec![
        simple(b"OK"),
        RawPiece::Error { typ: b"WRONGTYPE".to_vec(), cause: b"Operation against a key".to_vec() },
        RawPiece::Integer(-17),
        bulk(b"value"),
        RawPiece::Null,
        RawPiece::Array(vec![RawPiece::Integer(1), RawPiece::Array(vec![])]),
    ];
    let piece = RawPiece::Array(items);
    let enc = piece.encode();
    let (p, n) = decode_all(&enc).unwrap();
    assert_eq!(p, piece);
    assert_eq!(n, enc.len());
    let (empty, m) = decode_all(b"*0\r\n").unwrap();
    assert_eq!(empty, RawPiece::Array(vec![]));
    assert_eq!(m, 4);
}

#[test]
fn bulk_length_mismatch() {
    assert!(matches!(decode_all(b"$3\r\nfo\r\n"), Err(Error::BrokenProtocol(_))));
    assert!(matches!(decode_all(b"$3\r\nfooo\r\n"), Err(Error::BrokenProtocol(_))));
}

#[test]
fn bulk_special_lengths() {
    assert_eq!(decode_all(b"$-1\r\n").unwrap(), (RawPiece::Null, 5));
    assert_eq!(decode_all(b"$0\r\n\r\n").unwrap(), (bulk(b""), 6));
    assert!(matches!(decode_all(b"$-2\r\n"), Err(Error::BrokenProtocol(_))));
    assert!(matches!(decode_all(b"$x\r\nab\r\n"), Err(Error::BrokenProtocol(_))));
}

#[test]
fn decode_errors() {
    assert!(matches!(decode_all(b":12a\r\n"), Err(Error::BrokenProtocol(_))));
    assert!(matches!(decode_all(b"hello\r\n"), Err(Error::BrokenProtocol(_))));
    assert!(matches!(decode_all(b"$3\r\n+ab\r\n"), Err(Error::BrokenProtocol(_))));
    assert!(matches!(decode_all(b"*-1\r\n"), Err(Error::BrokenProtocol(_))));
    assert!(matches!(decode_all(b""), Err(Error::EOF)));
    assert!(matches!(decode(b"$3\r\nfo", false), Err(Error::NotReady)));
    assert!(matches!(decode(b"*2\r\n:1\r\n", false), Err(Error::NotReady)));
}

#[test]
fn nesting_is_bounded() {
    let mut deep = RawPiece::Array(vec![]);
    for _ in 0..MAX_DEPTH {
        deep = RawPiece::Array(vec![deep]);
    }
    let enc = deep.encode();
    assert!(matches!(decode_all(&enc), Err(Error::BrokenProtocol(_))));
    let mut ok = RawPiece::Array(vec![]);
    for _ in 1..MAX_DEPTH {
        ok = RawPiece::Array(vec![ok]);
    }
    let enc = ok.encode();
    assert_eq!(decode_all(&enc).unwrap().0, ok);
}

#[test]
fn error_line_split_at_first_space() {
    let (p, _) = decode_all(b"-ERR unknown command 'x'\r\n").unwrap();
    assert_eq!(
        p,
        RawPiece::Error { typ: b"ERR".to_vec(), cause: b"unknown command 'x'".to_vec() }
    );
    let (q, _) = decode_all(b"-ERR\r\n").unwrap();
    assert_eq!(q, RawPiece::Error { typ: b"ERR".to_vec(), cause: vec![] });
}

#[test]
fn integers() {
    assert_eq!(parse_int(b"0"), Some(0));
    assert_eq!(parse_int(b"+15"), Some(15));
    assert_eq!(parse_int(b"-9223372036854775808"), Some(i64::MIN));
    assert_eq!(parse_int(b"9223372036854775807"), Some(i64::MAX));
    assert_eq!(parse_int(b"9223372036854775808"), None);
    assert_eq!(parse_int(b""), None);
    assert_eq!(parse_int(b"-"), None);
    assert_eq!(parse_int(b"1 2"), None);
    let mut out = Vec::new();
    push_signed_decimal(&mut out, -1203);
    assert_eq!(out, b"-1203".to_vec());
    let unit = LeadingUnit { prefix_char: b':', data: b"-77".to_vec() };
    assert_eq!(unit.read_int(), Some(-77));
}

#[test]
fn units_and_spaces() {
    let buf = b"+OK\r\nraw\r\ntail";
    match RawPiece::read_unit(buf, 0, false) {
        Ok((Unit::Leading(l), end)) => {
            assert_eq!(l.prefix_char, b'+');
            assert_eq!(l.data, b"OK".to_vec());
            assert_eq!(end, 5);
        }
        _ => panic!("expected a leading unit"),
    }
    match RawPiece::read_unit(buf, 5, false) {
        Ok((Unit::Payload(d), end)) => {
            assert_eq!(d, b"raw".to_vec());
            assert_eq!(end, 10);
        }
        _ => panic!("expected a payload unit"),
    }
    assert!(matches!(RawPiece::read_unit(buf, 10, false), Err(Error::NotReady)));
    match RawPiece::read_unit(buf, 10, true) {
        Ok((Unit::Payload(d), end)) => {
            assert_eq!(d, b"tail".to_vec());
            assert_eq!(end, 14);
        }
        _ => panic!("expected a truncated unit"),
    }
    assert_eq!(RawPiece::space_pos(b"ab cd"), Some(2));
    assert_eq!(RawPiece::space_pos(b"abcd"), None);
}

#[test]
fn read_string_of_pieces() {
    assert_eq!(simple(b"a").read_string(), Some(&b"a".to_vec()));
    assert_eq!(bulk(b"b").read_string(), Some(&b"b".to_vec()));
    assert_eq!(RawPiece::Integer(3).read_string(), None);
    assert_eq!(RawPiece::Null.read_string(), None);
}

#[test]
fn decoder_across_partial_reads() {
    let mut d = Decoder::new();
    d.feed(b"*2\r\n$3\r\nge");
    assert!(matches!(d.next_piece(false), Err(Error::NotReady)));
    assert_eq!(d.pending_len(), 10);
    d.feed(b"t\r\n$3\r\nfoo\r\n+P");
    let p = d.next_piece(false).unwrap();
    assert_eq!(p, RawPiece::Array(vec![bulk(b"get"), bulk(b"foo")]));
    assert_eq!(d.pending_len(), 2);
    d.feed(b"ING\r\n");
    assert_eq!(d.next_piece(false).unwrap(), simple(b"PING"));
    assert!(matches!(d.next_piece(true), Err(Error::EOF)));
}

#[test]
fn decoder_drops_nul_bytes() {
    let mut d = Decoder::new();
    d.feed(b"+a\0b\r\0\n");
    assert_eq!(d.pending_len(), 5);
    assert_eq!(d.next_piece(false).unwrap(), simple(b"ab"));
}
