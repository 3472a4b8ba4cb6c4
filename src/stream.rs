//! The read buffer of one connection: bytes come in as the socket delivers
//! them, values go out as soon as they are complete.
use vstd::prelude::*;

use crate::decode::{decode, parse, MAX_DEPTH};
use crate::error::Error;
use crate::piece::RawPiece;

verus! {

/// The growable byte buffer of the `bytes` crate.
#[verifier::external_type_specification]
#[verifier::external_body]
pub struct ExBytesMut(bytes::BytesMut);

/// The bytes that a `BytesMut` holds, front first.
pub uninterp spec fn buffered(b: bytes::BytesMut) -> Seq<u8>;

/// Relies on `BytesMut::new`: an empty buffer.
#[verifier::external_body]
fn new_buffer() -> (r: bytes::BytesMut)
    ensures
        buffered(r) == Seq::<u8>::empty(),
{
    bytes::BytesMut::new()
}

/// Relies on `BytesMut::extend_from_slice`: the bytes of `src` are added at the back.
#[verifier::external_body]
fn append(b: &mut bytes::BytesMut, src: &[u8])
    ensures
        buffered(*final(b)) == buffered(*old(b)) + src@,
{
    b.extend_from_slice(src)
}

/// Relies on `BytesMut`'s `Deref` to `[u8]`: the bytes it holds.
#[verifier::external_body]
fn contents(b: &bytes::BytesMut) -> (r: &[u8])
    ensures
        r@ == buffered(*b),
{
    &b[..]
}

/// Relies on `Buf::advance` for `BytesMut`: the first `n` bytes are dropped.
/// It panics when `n` is larger than the length.
#[verifier::external_body]
fn consume(b: &mut bytes::BytesMut, n: usize)
    requires
        n <= buffered(*old(b)).len(),
    ensures
        buffered(*final(b)) == buffered(*old(b)).skip(n as int),
{
    bytes::Buf::advance(b, n)
}

pub open spec fn not_nul(c: u8) -> bool {
    c != 0
}

/// The bytes of `s` without its NUL bytes.
pub open spec fn strip_nul(s: Seq<u8>) -> Seq<u8> {
    s.filter(|c: u8| not_nul(c))
}

/// Accumulates the bytes that a connection reads and cuts values out of them.
pub struct Decoder {
    buffer: bytes::BytesMut,
}

impl Decoder {
    /// The bytes read and not yet decoded.
    pub closed spec fn pending(&self) -> Seq<u8> {
        buffered(self.buffer)
    }

    pub fn new() -> (r: Decoder)
        ensures
            r.pending() == Seq::<u8>::empty(),
    {
        Decoder { buffer: new_buffer() }
    }

    /// Adds bytes read from the socket; NUL bytes are dropped.
    pub fn feed(&mut self, chunk: &[u8])
        ensures
            final(self).pending() == old(self).pending() + strip_nul(chunk@),
    {
        let mut kept: Vec<u8> = Vec::new();
        let mut i: usize = 0;
        while i < chunk.len()
            invariant
                0 <= i <= chunk.len(),
                kept@ == strip_nul(chunk@.take(i as int)),
            decreases chunk.len() - i,
        {
            let c = chunk[i];
            proof {
                let f = |c: u8| not_nul(c);
                assert(chunk@.take(i as int + 1) =~= chunk@.take(i as int) + seq![c]);
                Seq::filter_distributes_over_add(chunk@.take(i as int), seq![c], f);
                reveal_with_fuel(Seq::filter, 2);
                assert(seq![c].drop_last() =~= Seq::<u8>::empty());
            }
            if c != 0 {
                kept.push(c);
            }
            assert(kept@ =~= strip_nul(chunk@.take(i as int + 1)));
            i = i + 1;
        }
        assert(chunk@.take(chunk.len() as int) =~= chunk@);
        append(&mut self.buffer, kept.as_slice());
    }

    /// The number of bytes read and not yet decoded.
    pub fn pending_len(&self) -> (r: usize)
        ensures
            r == self.pending().len(),
    {
        contents(&self.buffer).len()
    }

    /// Cuts the next value off the front of the pending bytes. `eof` says
    /// that the peer has closed the stream. On an error nothing is taken;
    /// `NotReady` asks for more bytes.
    pub fn next_piece(&mut self, eof: bool) -> (r: Result<RawPiece, Error>)
        ensures
            match parse(old(self).pending(), eof, MAX_DEPTH as nat) {
                Ok((p, n)) => r matches Ok(q) && q@ == p && final(self).pending() == old(
                    self,
                ).pending().skip(n as int),
                Err(f) => r matches Err(e) && e.fault() == f && final(self).pending() == old(
                    self,
                ).pending(),
            },
    {
        let res = decode(contents(&self.buffer), eof);
        match res {
            Ok((p, n)) => {
                consume(&mut self.buffer, n);
                Ok(p)
            },
            Err(e) => Err(e),
        }
    }
}

} // verus!
