//! The values that travel on the wire, their mathematical model and their
//! encoding.
use vstd::prelude::*;

use crate::decimal::{decimal, push_decimal, push_signed_decimal, signed_decimal};

verus! {

pub const PREFIX_SIMPLE_STRING: u8 = 43;

pub const PREFIX_ERROR: u8 = 45;

pub const PREFIX_INTEGER: u8 = 58;

pub const PREFIX_BULK_STRING: u8 = 36;

pub const PREFIX_ARRAY: u8 = 42;

pub const CR: u8 = 13;

pub const LF: u8 = 10;

pub const SPACE: u8 = 32;

/// The model of a decoded value.
pub enum Piece {
    Simple(Seq<u8>),
    Error(Seq<u8>, Seq<u8>),
    Integer(int),
    Bulk(Seq<u8>),
    Array(Seq<Piece>),
    Null,
}

/// A decoded protocol value. Arrays own their elements.
#[derive(Debug, PartialEq, Eq)]
pub enum RawPiece {
    SimpleString { data: Vec<u8> },
    Error { typ: Vec<u8>, cause: Vec<u8> },
    Integer(i64),
    BulkString { data: Vec<u8> },
    Array(Vec<RawPiece>),
    Null,
}

pub open spec fn piece_of(p: RawPiece) -> Piece
    decreases p,
{
    match p {
        RawPiece::SimpleString { data } => Piece::Simple(data@),
        RawPiece::Error { typ, cause } => Piece::Error(typ@, cause@),
        RawPiece::Integer(i) => Piece::Integer(i as int),
        RawPiece::BulkString { data } => Piece::Bulk(data@),
        RawPiece::Array(v) => Piece::Array(pieces_of(v@)),
        RawPiece::Null => Piece::Null,
    }
}

pub open spec fn pieces_of(s: Seq<RawPiece>) -> Seq<Piece>
    decreases s,
{
    if s.len() == 0 {
        Seq::empty()
    } else {
        pieces_of(s.subrange(0, s.len() - 1)).push(piece_of(s[s.len() - 1]))
    }
}

impl View for RawPiece {
    type V = Piece;

    open spec fn view(&self) -> Piece {
        piece_of(*self)
    }
}

pub proof fn lemma_pieces_of_push(s: Seq<RawPiece>, p: RawPiece)
    ensures
        pieces_of(s.push(p)) == pieces_of(s).push(piece_of(p)),
{
    assert(s.push(p).subrange(0, s.len() as int) =~= s);
}

pub proof fn lemma_pieces_of_len(s: Seq<RawPiece>)
    ensures
        pieces_of(s).len() == s.len(),
        forall|i: int| 0 <= i < s.len() ==> #[trigger] pieces_of(s)[i] == piece_of(s[i]),
    decreases s.len(),
{
    if s.len() > 0 {
        let t = s.subrange(0, s.len() - 1);
        lemma_pieces_of_len(t);
        assert forall|i: int| 0 <= i < s.len() implies #[trigger] pieces_of(s)[i] == piece_of(s[i]) by {
            if i < s.len() - 1 {
                assert(t[i] == s[i]);
            }
        }
    }
}

pub open spec fn crlf() -> Seq<u8> {
    seq![CR, LF]
}

pub open spec fn is_tag(c: u8) -> bool {
    c == PREFIX_SIMPLE_STRING || c == PREFIX_ERROR || c == PREFIX_INTEGER || c
        == PREFIX_BULK_STRING || c == PREFIX_ARRAY
}

/// The bytes of one value on the wire.
pub open spec fn encode(p: Piece) -> Seq<u8>
    decreases p,
{
    match p {
        Piece::Simple(d) => seq![PREFIX_SIMPLE_STRING] + d + crlf(),
        Piece::Error(k, d) => if d.len() == 0 {
            seq![PREFIX_ERROR] + k + crlf()
        } else {
            seq![PREFIX_ERROR] + k + seq![SPACE] + d + crlf()
        },
        Piece::Integer(i) => seq![PREFIX_INTEGER] + signed_decimal(i) + crlf(),
        Piece::Bulk(d) => seq![PREFIX_BULK_STRING] + decimal(d.len()) + crlf() + d + crlf(),
        Piece::Array(items) => seq![PREFIX_ARRAY] + decimal(items.len()) + crlf() + encode_all(
            items,
        ),
        Piece::Null => seq![PREFIX_BULK_STRING, PREFIX_ERROR, 49u8] + crlf(),
    }
}

/// The bytes of several values, one after the other.
pub open spec fn encode_all(items: Seq<Piece>) -> Seq<u8>
    decreases items,
{
    if items.len() == 0 {
        Seq::empty()
    } else {
        encode_all(items.subrange(0, items.len() - 1)) + encode(items[items.len() - 1])
    }
}

impl RawPiece {
    /// The bytes of a string value, for a simple or a bulk string.
    pub fn read_string(&self) -> (r: Option<&Vec<u8>>)
        ensures
            match self@ {
                Piece::Simple(d) => r matches Some(v) && v@ == d,
                Piece::Bulk(d) => r matches Some(v) && v@ == d,
                _ => r is None,
            },
    {
        match self {
            RawPiece::SimpleString { data } => Some(data),
            RawPiece::BulkString { data } => Some(data),
            _ => None,
        }
    }

    /// The tag byte that starts this value on the wire.
    pub fn prefix(&self) -> (r: u8)
        ensures
            r == encode(self@)[0],
    {
        let r = match self {
            RawPiece::SimpleString { .. } => PREFIX_SIMPLE_STRING,
            RawPiece::Error { .. } => PREFIX_ERROR,
            RawPiece::Integer(_) => PREFIX_INTEGER,
            RawPiece::BulkString { .. } => PREFIX_BULK_STRING,
            RawPiece::Array(_) => PREFIX_ARRAY,
            RawPiece::Null => PREFIX_BULK_STRING,
        };
        r
    }

    /// Appends the encoding of this value to `out`.
    pub fn encode_into(&self, out: &mut Vec<u8>)
        ensures
            final(out)@ == old(out)@ + encode(self@),
        decreases self,
    {
        let ghost start = out@;
        match self {
            RawPiece::SimpleString { data } => {
                out.push(PREFIX_SIMPLE_STRING);
                push_all(out, data);
                out.push(CR);
                out.push(LF);
            },
            RawPiece::Error { typ, cause } => {
                out.push(PREFIX_ERROR);
                push_all(out, typ);
                if cause.len() > 0 {
                    out.push(SPACE);
                    push_all(out, cause);
                }
                out.push(CR);
                out.push(LF);
            },
            RawPiece::Integer(i) => {
                out.push(PREFIX_INTEGER);
                push_signed_decimal(out, *i);
                out.push(CR);
                out.push(LF);
            },
            RawPiece::BulkString { data } => {
                out.push(PREFIX_BULK_STRING);
                push_decimal(out, data.len() as u64);
                out.push(CR);
                out.push(LF);
                push_all(out, data);
                out.push(CR);
                out.push(LF);
            },
            RawPiece::Array(v) => {
                out.push(PREFIX_ARRAY);
                push_decimal(out, v.len() as u64);
                out.push(CR);
                out.push(LF);
                let ghost head = out@;
                let mut i: usize = 0;
                while i < v.len()
                    invariant
                        0 <= i <= v.len(),
                        *self == RawPiece::Array(*v),
                        out@ == head + encode_all(pieces_of(v@.subrange(0, i as int))),
                    decreases v.len() - i,
                {
                    proof {
                        assert(decreases_to!(*v => v[i as int]));
                        assert(decreases_to!(*self => self->Array_0));
                    }
                    v[i].encode_into(out);
                    proof {
                        let s = v@.subrange(0, i as int + 1);
                        assert(s =~= v@.subrange(0, i as int).push(v@[i as int]));
                        lemma_pieces_of_push(v@.subrange(0, i as int), v@[i as int]);
                        lemma_pieces_of_len(s);
                        assert(pieces_of(s).subrange(0, i as int) =~= pieces_of(
                            v@.subrange(0, i as int),
                        ));
                    }
                    i = i + 1;
                }
                assert(v@.subrange(0, v.len() as int) =~= v@);
                proof {
                    lemma_pieces_of_len(v@);
                }
            },
            RawPiece::Null => {
                out.push(PREFIX_BULK_STRING);
                out.push(PREFIX_ERROR);
                out.push(49u8);
                out.push(CR);
                out.push(LF);
            },
        }
        assert(final(out)@ =~= old(out)@ + encode(self@));
    }

    /// The encoding of this value.
    pub fn encode(&self) -> (r: Vec<u8>)
        ensures
            r@ == encode(self@),
    {
        let mut out: Vec<u8> = Vec::new();
        self.encode_into(&mut out);
        assert(out@ =~= encode(self@));
        out
    }
}

/// Appends the bytes of `src` to `out`.
pub fn push_all(out: &mut Vec<u8>, src: &[u8])
    ensures
        final(out)@ == old(out)@ + src@,
{
    let mut i: usize = 0;
    while i < src.len()
        invariant
            0 <= i <= src.len(),
            out@ == old(out)@ + src@.subrange(0, i as int),
        decreases src.len() - i,
    {
        out.push(src[i]);
        assert(src@.subrange(0, i as int + 1) =~= src@.subrange(0, i as int).push(src@[i as int]));
        i = i + 1;
    }
    assert(src@.subrange(0, src.len() as int) =~= src@);
}

} // verus!
