//! The rules of one connection: bytes in, commands out, and when to stop.
use vstd::prelude::*;

use crate::command::{request_of, Command};
use crate::decode::{parse, MAX_DEPTH};
use crate::error::{Error, Fault};
use crate::stream::{strip_nul, Decoder};

verus! {

/// What a connection does next.
pub enum Step {
    /// Hand the command to the store and write back its reply.
    Execute(Command),
    /// Read more bytes from the socket.
    NeedInput,
    /// The peer closed the stream with no frame pending.
    ClosedClean,
    /// The connection ends on this error.
    ClosedError(Error),
}

/// The state of one connection.
pub struct Client {
    id: u64,
    decoder: Decoder,
    /// Reserved for protocol negotiation.
    flags: u32,
    eof: bool,
}

impl Client {
    pub closed spec fn spec_id(&self) -> u64 {
        self.id
    }

    /// The bytes read and not yet decoded.
    pub closed spec fn pending(&self) -> Seq<u8> {
        self.decoder.pending()
    }

    /// Whether the peer has closed the stream.
    pub closed spec fn at_eof(&self) -> bool {
        self.eof
    }

    pub fn new(id: u64) -> (r: Client)
        ensures
            r.spec_id() == id,
            r.pending() == Seq::<u8>::empty(),
            !r.at_eof(),
    {
        Client { id, decoder: Decoder::new(), flags: 0, eof: false }
    }

    pub fn id(&self) -> (r: u64)
        ensures
            r == self.spec_id(),
    {
        self.id
    }

    /// The result of one read from the socket: no bytes means that the
    /// peer has closed the stream.
    pub fn received(&mut self, chunk: &[u8])
        ensures
            final(self).spec_id() == old(self).spec_id(),
            final(self).pending() == old(self).pending() + strip_nul(chunk@),
            final(self).at_eof() == (old(self).at_eof() || chunk@.len() == 0),
    {
        if chunk.len() == 0 {
            self.eof = true;
        }
        self.decoder.feed(chunk);
    }

    /// Decides what to do with the bytes read so far. A protocol error
    /// ends the connection: the framing has no point to resume from. So
    /// does the end of the stream inside a frame.
    pub fn next_step(&mut self) -> (r: Step)
        ensures
            final(self).spec_id() == old(self).spec_id(),
            final(self).at_eof() == old(self).at_eof(),
            match parse(old(self).pending(), old(self).at_eof(), MAX_DEPTH as nat) {
                Ok((p, n)) => final(self).pending() == old(self).pending().skip(n as int) && match request_of(p) {
                    Ok(req) => r matches Step::Execute(c) && c@ == req,
                    Err(f) => r matches Step::ClosedError(e) && e.fault() == f,
                },
                Err(Fault::NotReady) => r is NeedInput && final(self).pending() == old(self).pending(),
                Err(Fault::Eof) => final(self).pending() == old(self).pending() && if old(
                    self,
                ).pending().len() == 0 {
                    r is ClosedClean
                } else {
                    r matches Step::ClosedError(e) && e.fault() == Fault::BrokenProtocol
                },
                Err(f) => r matches Step::ClosedError(e) && e.fault() == f && final(self).pending()
                    == old(self).pending(),
            },
    {
        let pending = self.decoder.pending_len();
        match Command::from_resp2(&mut self.decoder, self.eof) {
            Ok(cmd) => Step::Execute(cmd),
            Err(Error::NotReady) => Step::NeedInput,
            Err(Error::EOF) => if pending == 0 {
                Step::ClosedClean
            } else {
                Step::ClosedError(Error::BrokenProtocol("stream ended inside a frame".to_string()))
            },
            Err(e) => Step::ClosedError(e),
        }
    }
}

} // verus!
