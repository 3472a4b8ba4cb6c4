//! Requests: a decoded value turned into a command.
use vstd::prelude::*;

use crate::decode::{copy_range, parse, MAX_DEPTH};
use crate::error::{Error, Fault};
use crate::piece::{lemma_pieces_of_len, piece_of, pieces_of, Piece, RawPiece};
use crate::stream::Decoder;

verus! {

/// Whether the bytes are valid UTF-8.
pub uninterp spec fn utf8_valid(s: Seq<u8>) -> bool;

/// Relies on `std::str::from_utf8`: it succeeds exactly on valid UTF-8.
#[verifier::external_body]
fn is_utf8(b: &[u8]) -> (r: bool)
    ensures
        r == utf8_valid(b@),
{
    std::str::from_utf8(b).is_ok()
}

/// ASCII whitespace: space, tab, line feed, form feed, carriage return.
pub open spec fn is_ws(c: u8) -> bool {
    c == 32 || c == 9 || c == 10 || c == 12 || c == 13
}

pub open spec fn lower_byte(c: u8) -> u8 {
    if 65 <= c <= 90 {
        (c + 32) as u8
    } else {
        c
    }
}

/// The bytes with ASCII letters in lower case.
pub open spec fn lower(s: Seq<u8>) -> Seq<u8> {
    Seq::new(s.len(), |i: int| lower_byte(s[i]))
}

/// The runs of non-whitespace bytes of `s`, in order. Read one byte at a
/// time: whitespace ends a token, a byte after a token byte extends it,
/// any other byte starts a new one.
pub open spec fn tokens(s: Seq<u8>) -> Seq<Seq<u8>>
    decreases s.len(),
{
    if s.len() == 0 {
        Seq::empty()
    } else {
        let t = tokens(s.drop_last());
        let c = s.last();
        if is_ws(c) {
            t
        } else if s.len() >= 2 && !is_ws(s[s.len() - 2]) {
            t.drop_last().push(t.last().push(c))
        } else {
            t.push(seq![c])
        }
    }
}

/// A request, as a value.
pub enum Request {
    Get(Seq<u8>),
}

/// A parsed request.
#[derive(Debug, PartialEq, Eq)]
pub enum Command {
    Get { key: Vec<u8> },
}

impl View for Command {
    type V = Request;

    open spec fn view(&self) -> Request {
        match self {
            Command::Get { key } => Request::Get(key@),
        }
    }
}

pub open spec fn string_of(p: Piece) -> Option<Seq<u8>> {
    match p {
        Piece::Simple(d) => Some(d),
        Piece::Bulk(d) => Some(d),
        _ => None,
    }
}

/// The arguments of a request: the tokens of an inline request, each as a
/// simple string, or the elements of an array.
pub open spec fn args_of(p: Piece) -> Option<Seq<Piece>> {
    match p {
        Piece::Simple(d) => Some(inline_args(d)),
        Piece::Bulk(d) => Some(inline_args(d)),
        Piece::Array(items) => Some(items),
        _ => None,
    }
}

pub open spec fn inline_args(d: Seq<u8>) -> Seq<Piece> {
    Seq::new(tokens(d).len(), |i: int| Piece::Simple(tokens(d)[i]))
}

pub open spec fn get_verb() -> Seq<u8> {
    seq![103u8, 101u8, 116u8]
}

/// The request named by the lower-case verb `verb`, given whether it is
/// valid UTF-8, with `args` the whole argument list, verb first.
pub open spec fn verb_request(verb: Seq<u8>, text: bool, args: Seq<Piece>) -> Result<Request, Fault> {
    if verb == get_verb() {
        if args.len() == 2 && string_of(args[1]) is Some {
            Ok(Request::Get(string_of(args[1])->0))
        } else {
            Err(Fault::BrokenProtocol)
        }
    } else if !text {
        Err(Fault::Encode)
    } else {
        Err(Fault::Unsupported)
    }
}

/// The request that a decoded value carries.
pub open spec fn request_of(p: Piece) -> Result<Request, Fault> {
    match args_of(p) {
        None => Err(Fault::BrokenProtocol),
        Some(args) => if args.len() == 0 {
            Err(Fault::BrokenProtocol)
        } else {
            match string_of(args[0]) {
                None => Err(Fault::BrokenProtocol),
                Some(v) => verb_request(lower(v), utf8_valid(lower(v)), args),
            }
        },
    }
}

pub open spec fn request_outcome(r: Result<Command, Error>) -> Result<Request, Fault> {
    match r {
        Ok(c) => Ok(c@),
        Err(e) => Err(e.fault()),
    }
}

impl Command {
    /// The bytes with ASCII letters in lower case.
    pub fn lower_bytes(src: &Vec<u8>) -> (r: Vec<u8>)
        ensures
            r@ == lower(src@),
    {
        let mut dst: Vec<u8> = Vec::new();
        let mut i: usize = 0;
        while i < src.len()
            invariant
                0 <= i <= src.len(),
                dst@ =~= lower(src@).take(i as int),
            decreases src.len() - i,
        {
            let c = src[i];
            if c >= 65 && c <= 90 {
                dst.push(c + 32);
            } else {
                dst.push(c);
            }
            i = i + 1;
        }
        dst
    }

    /// Splits `src` at runs of ASCII whitespace; no token is empty.
    pub fn split_vector_by_space(src: &Vec<u8>) -> (r: Vec<Vec<u8>>)
        ensures
            r@.map_values(|v: Vec<u8>| v@) == tokens(src@),
    {
        let mut result: Vec<Vec<u8>> = Vec::new();
        let mut current_start: usize = 0;
        let mut offset: usize = 0;
        while offset < src.len()
            invariant
                0 <= current_start <= offset <= src.len(),
                forall|j: int| current_start <= j < offset ==> !is_ws(#[trigger] src@[j]),
                current_start == offset ==> (offset == 0 || is_ws(src@[offset - 1])),
                tokens(src@.take(offset as int)) == result@.map_values(|v: Vec<u8>| v@) + (
                if offset > current_start {
                    seq![src@.subrange(current_start as int, offset as int)]
                } else {
                    Seq::empty()
                }),
            decreases src.len() - offset,
        {
            let c = src[offset];
            let ghost s = src@.take(offset as int + 1);
            let ghost before = result@.map_values(|v: Vec<u8>| v@);
            assert(s.drop_last() =~= src@.take(offset as int));
            if c == 32 || c == 9 || c == 10 || c == 12 || c == 13 {
                if offset > current_start {
                    let token = copy_range(src.as_slice(), current_start, offset);
                    result.push(token);
                    assert(result@.map_values(|v: Vec<u8>| v@) =~= before.push(token@));
                }
                current_start = offset + 1;
            } else {
                proof {
                    let t = tokens(src@.take(offset as int));
                    if offset > current_start {
                        assert(src@[offset - 1] == s[offset - 1]);
                        assert(t.drop_last() =~= before);
                        assert(t.last().push(c) =~= src@.subrange(current_start as int, offset + 1));
                    } else {
                        if offset > 0 {
                            assert(src@[offset - 1] == s[offset - 1]);
                        }
                        assert(src@.subrange(current_start as int, offset + 1) =~= seq![c]);
                    }
                }
            }
            offset = offset + 1;
        }
        assert(src@.take(src.len() as int) =~= src@);
        if offset > current_start {
            let ghost before = result@.map_values(|v: Vec<u8>| v@);
            let token = copy_range(src.as_slice(), current_start, offset);
            result.push(token);
            assert(result@.map_values(|v: Vec<u8>| v@) =~= before.push(token@));
        } else {
            assert(result@.map_values(|v: Vec<u8>| v@) + Seq::empty() =~= result@.map_values(|v: Vec<u8>| v@));
        }
        result
    }

    /// The command named by the lower-case verb `verb`, where `text` says
    /// whether `verb` is valid UTF-8 and `args` is the whole argument list,
    /// verb first.
    pub fn dispatch(verb: &[u8], text: bool, args: &[RawPiece]) -> (r: Result<Command, Error>)
        ensures
            request_outcome(r) == verb_request(verb@, text, pieces_of(args@)),
    {
        proof {
            lemma_pieces_of_len(args@);
        }
        if verb.len() == 3 && verb[0] == 103u8 && verb[1] == 101u8 && verb[2] == 116u8 {
            assert(verb@ =~= get_verb());
            if args.len() != 2 {
                return Err(Error::BrokenProtocol("wrong number of arguments for get".to_string()));
            }
            match args[1].read_string() {
                Some(key) => {
                    let key = copy_range(key.as_slice(), 0, key.len());
                    assert(key@ =~= string_of(piece_of(args@[1]))->0);
                    Ok(Command::Get { key })
                },
                None => Err(Error::BrokenProtocol("missing key for get".to_string())),
            }
        } else {
            assert(verb@ != get_verb()) by {
                if verb@ == get_verb() {
                    assert(verb@.len() == 3);
                    assert(verb@[0] == 103u8 && verb@[1] == 101u8 && verb@[2] == 116u8);
                }
            }
            if !text {
                Err(Error::Encode("invalid utf8 format".to_string()))
            } else {
                Err(Error::Unsupported("unknown command".to_string()))
            }
        }
    }

    /// The command that a decoded value carries.
    pub fn from_piece(piece: RawPiece) -> (r: Result<Command, Error>)
        ensures
            request_outcome(r) == request_of(piece@),
    {
        let ghost model = piece@;
        let args: Vec<RawPiece> = match piece {
            RawPiece::SimpleString { data } | RawPiece::BulkString { data } => {
                let words = Self::split_vector_by_space(&data);
                let ghost toks = tokens(data@);
                let mut args: Vec<RawPiece> = Vec::new();
                let mut i: usize = 0;
                while i < words.len()
                    invariant
                        0 <= i <= words.len(),
                        words@.map_values(|v: Vec<u8>| v@) == toks,
                        args@.len() == i,
                        forall|j: int| 0 <= j < i ==> #[trigger] piece_of(args@[j]) == Piece::Simple(toks[j]),
                    decreases words.len() - i,
                {
                    let w = copy_range(words[i].as_slice(), 0, words[i].len());
                    assert(w@ =~= toks[i as int]);
                    args.push(RawPiece::SimpleString { data: w });
                    i = i + 1;
                }
                proof {
                    lemma_pieces_of_len(args@);
                    assert(pieces_of(args@) =~= inline_args(data@));
                }
                args
            },
            RawPiece::Array(arr) => arr,
            _ => {
                return Err(
                    Error::BrokenProtocol(
                        "request must be simple string, bulk string, or array".to_string(),
                    ),
                );
            },
        };
        assert(args_of(model) == Some(pieces_of(args@)));
        proof {
            lemma_pieces_of_len(args@);
        }
        if args.len() == 0 {
            return Err(Error::BrokenProtocol("empty lines given for command".to_string()));
        }
        let verb = match args[0].read_string() {
            Some(v) => Self::lower_bytes(v),
            None => return Err(Error::BrokenProtocol("command must be a string".to_string())),
        };
        let text = is_utf8(verb.as_slice());
        Self::dispatch(verb.as_slice(), text, args.as_slice())
    }

    /// Decodes the next value from the connection's buffer and reads the
    /// command it carries.
    pub fn from_resp2(decoder: &mut Decoder, eof: bool) -> (r: Result<Command, Error>)
        ensures
            match parse(old(decoder).pending(), eof, MAX_DEPTH as nat) {
                Ok((p, n)) => request_outcome(r) == request_of(p) && final(decoder).pending()
                    == old(decoder).pending().skip(n as int),
                Err(f) => r matches Err(e) && e.fault() == f && final(decoder).pending() == old(
                    decoder,
                ).pending(),
            },
    {
        match decoder.next_piece(eof) {
            Ok(piece) => Self::from_piece(piece),
            Err(e) => Err(e),
        }
    }
}

/// Verbs are matched without regard to the case of ASCII letters: two
/// requests that differ only in how their verbs are written give the same
/// result.
pub proof fn law_verb_case_insensitive(v1: Seq<u8>, v2: Seq<u8>, rest: Seq<Piece>)
    requires
        lower(v1) == lower(v2),
    ensures
        request_of(Piece::Array(seq![Piece::Bulk(v1)] + rest)) == request_of(
            Piece::Array(seq![Piece::Bulk(v2)] + rest),
        ),
        request_of(Piece::Array(seq![Piece::Simple(v1)] + rest)) == request_of(
            Piece::Array(seq![Piece::Bulk(v2)] + rest),
        ),
{
    let a1 = seq![Piece::Bulk(v1)] + rest;
    let a2 = seq![Piece::Bulk(v2)] + rest;
    let a3 = seq![Piece::Simple(v1)] + rest;
    assert(a1.len() == a2.len() && a1[0] == Piece::Bulk(v1) && a2[0] == Piece::Bulk(v2));
    assert(a3[0] == Piece::Simple(v1));
    if a1.len() == 2 {
        assert(a1[1] == a2[1] && a1[1] == a3[1]);
    }
}

/// Any spelling of `get` followed by one string argument is a `Get` of
/// that argument.
pub proof fn law_get_any_case(v: Seq<u8>, key: Seq<u8>)
    requires
        lower(v) == get_verb(),
    ensures
        request_of(Piece::Array(seq![Piece::Bulk(v), Piece::Bulk(key)])) == Ok::<Request, Fault>(
            Request::Get(key),
        ),
{
}

/// A known verb without its argument is a protocol error; a verb that is
/// not known, and is valid text, is unsupported, whatever follows it.
pub proof fn law_missing_argument_and_unknown_verb(v: Seq<u8>, rest: Seq<Piece>)
    ensures
        lower(v) == get_verb() ==> request_of(Piece::Array(seq![Piece::Bulk(v)]))
            == Err::<Request, Fault>(Fault::BrokenProtocol),
        lower(v) != get_verb() && utf8_valid(lower(v)) ==> request_of(
            Piece::Array(seq![Piece::Bulk(v)] + rest),
        ) == Err::<Request, Fault>(Fault::Unsupported),
{
    let a = seq![Piece::Bulk(v)] + rest;
    assert(a[0] == Piece::Bulk(v));
}

} // verus!
