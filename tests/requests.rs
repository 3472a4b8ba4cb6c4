use rustredis::client::{Client, Step};
use rustredis::command::Command;
use rustredis::decode::decode;
use rustredis::error::Error;
use rustredis::ids::IdGen;
use rustredis::piece::RawPiece;
use rustredis::stream::Decoder;

fn command_of(bytes: &[u8]) -> Result<Command, Error> {
    let mut d = Decoder::new();
    d.feed(bytes);
    Command::from_resp2(&mut d, true)
}

fn get(key: &[u8]) -> Command {
    Command::Get { key: key.to_vec() }
}

#[test]
fn array_request_is_get() {
    assert_eq!(command_of(b"*2\r\n$3\r\nget\r\n$3\r\nfoo\r\n").unwrap(), get(b"foo"));
}

#[test]
fn inline_request_is_get() {
    assert_eq!(command_of(b"+get foo\r\n").unwrap(), get(b"foo"));
    assert_eq!(command_of(b"+  get \t foo  \r\n").unwrap(), get(b"foo"));
}

#[test]
fn null_is_not_a_request() {
    let (p, _) = decode(b"$-1\r\n", true).unwrap();
    assert_eq!(p, RawPiece::Null);
    assert!(matches!(command_of(b"$-1\r\n"), Err(Error::BrokenProtocol(_))));
}

#[test]
fn empty_array_is_not_a_request() {
    let (p, _) = decode(b"*0\r\n", true).unwrap();
    assert_eq!(p, RawPiece::Array(vec![]));
    assert!(matches!(command_of(b"*0\r\n"), Err(Error::BrokenProtocol(_))));
}

#[test]
fn verb_case_does_not_matter() {
    for verb in [&b"GET"[..], b"get", b"GeT"] {
        let piece = RawPiece::Array(vec![
            RawPiece::BulkString { data: verb.to_vec() },
            RawPiece::BulkString { data: b"k".to_vec() },
        ]);
        assert_eq!(Command::from_piece(piece).unwrap(), get(b"k"));
    }
    assert_eq!(command_of(b"+GeT foo\r\n").unwrap(), get(b"foo"));
}

#[test]
fn missing_argument_and_unknown_verb() {
    assert!(matches!(command_of(b"*1\r\n$3\r\nget\r\n"), Err(Error::BrokenProtocol(_))));
    assert!(matches!(command_of(b"+get\r\n"), Err(Error::BrokenProtocol(_))));
    assert!(matches!(command_of(b"*3\r\n$3\r\nget\r\n$1\r\na\r\n$1\r\nb\r\n"), Err(Error::BrokenProtocol(_))));
    assert!(matches!(command_of(b"*2\r\n$3\r\nget\r\n:1\r\n"), Err(Error::BrokenProtocol(_))));
    assert!(matches!(command_of(b"*2\r\n$3\r\nset\r\n$1\r\na\r\n"), Err(Error::Unsupported(_))));
    assert!(matches!(command_of(b"*1\r\n:5\r\n"), Err(Error::BrokenProtocol(_))));
    assert!(matches!(command_of(b":5\r\n"), Err(Error::BrokenProtocol(_))));
}

#[test]
fn verb_that_is_not_text() {
    let piece = RawPiece::Array(vec![RawPiece::BulkString { data: vec![0xff, 0xfe] }]);
    assert!(matches!(Command::from_piece(piece), Err(Error::Encode(_))));
    assert!(matches!(Command::dispatch(b"xyz", false, &[]), Err(Error::Encode(_))));
    assert!(matches!(Command::dispatch(b"xyz", true, &[]), Err(Error::Unsupported(_))));
}

#[test]
fn lower_and_split() {
    assert_eq!(Command::lower_bytes(&b"GeT-1Z".to_vec()), b"get-1z".to_vec());
    assert_eq!(
        Command::split_vector_by_space(&b"  a bc\t\td \r\n".to_vec()),
        vec![b"a".to_vec(), b"bc".to_vec(), b"d".to_vec()]
    );
    assert_eq!(Command::split_vector_by_space(&b"get foo".to_vec()), vec![b"get".to_vec(), b"foo".to_vec()]);
    assert!(Command::split_vector_by_space(&b" \t ".to_vec()).is_empty());
}

#[test]
fn allocator_fills_and_reuses() {
    let mut ids = IdGen::new();
    let mut seen = Vec::new();
    for expected in 1..1024u64 {
        let id = ids.new_id();
        assert_eq!(id, Some(expected));
        seen.push(expected);
    }
    assert_eq!(ids.new_id(), None);
    assert!(ids.is_live(500));
    ids.recycle_id(500);
    assert!(!ids.is_live(500));
    assert_eq!(ids.new_id(), Some(500));
    assert_eq!(ids.new_id(), None);
    assert!(!ids.is_live(0));
}

#[test]
fn allocator_hands_out_lowest_free() {
    let mut ids = IdGen::new();
    assert_eq!(ids.new_id(), Some(1));
    assert_eq!(ids.new_id(), Some(2));
    assert_eq!(ids.new_id(), Some(3));
    ids.recycle_id(2);
    ids.recycle_id(1);
    assert_eq!(ids.new_id(), Some(1));
    assert_eq!(ids.new_id(), Some(2));
    assert_eq!(ids.new_id(), Some(4));
}

#[test]
fn truncated_frame_ends_the_connection() {
    let mut c = Client::new(7);
    assert_eq!(c.id(), 7);
    assert!(matches!(c.next_step(), Step::NeedInput));
    c.received(b"get\r\n$3\r\nfo");
    assert!(matches!(c.next_step(), Step::ClosedError(Error::BrokenProtocol(_))));
    let mut d = Client::new(8);
    d.received(b"*2\r\n$3\r\nget\r\n$3\r\nfoo\r\n*2\r\n$3\r\nget");
    match d.next_step() {
        Step::Execute(cmd) => assert_eq!(cmd, get(b"foo")),
        _ => panic!("expected a command"),
    }
    assert!(matches!(d.next_step(), Step::NeedInput));
    d.received(b"");
    assert!(matches!(d.next_step(), Step::ClosedError(_)));
}

#[test]
fn clean_close() {
    let mut c = Client::new(1);
    c.received(b"+get a\r\n");
    assert!(matches!(c.next_step(), Step::Execute(_)));
    c.received(b"");
    assert!(matches!(c.next_step(), Step::ClosedClean));
}

#[test]
fn error_descriptions() {
    assert_eq!(Error::EOF.describe(), "end of stream".to_string());
    assert_eq!(Error::BrokenProtocol("x".to_string()).describe(), "x".to_string());
}
