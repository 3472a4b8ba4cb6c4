use vstd::prelude::*;

verus! {

/// The I/O error of the standard library, carried through unchanged.
#[verifier::external_type_specification]
#[verifier::external_body]
pub struct ExIoError(std::io::Error);

/// What went wrong, without the message that comes with it.
pub enum Fault {
    Io,
    BrokenProtocol,
    Unsupported,
    Encode,
    Eof,
    NotReady,
}

/// The errors of this core.
///
/// `Eof` is the clean end of a stream; `NotReady` says that the buffered
/// bytes end inside a frame and more must be read.
#[derive(Debug)]
pub enum Error {
    IO(std::io::Error),
    BrokenProtocol(String),
    Unsupported(String),
    Encode(String),
    EOF,
    NotReady,
}

impl Error {
    pub open spec fn fault(&self) -> Fault {
        match self {
            Error::IO(_) => Fault::Io,
            Error::BrokenProtocol(_) => Fault::BrokenProtocol,
            Error::Unsupported(_) => Fault::Unsupported,
            Error::Encode(_) => Fault::Encode,
            Error::EOF => Fault::Eof,
            Error::NotReady => Fault::NotReady,
        }
    }

    /// A one-line description of the error.
    pub fn describe(&self) -> (r: String)
        ensures
            match self {
                Error::BrokenProtocol(m) => r@ == m@,
                Error::Unsupported(m) => r@ == m@,
                Error::Encode(m) => r@ == m@,
                _ => r@.len() > 0,
            },
    {
        match self {
            Error::IO(_) => {
                proof {
                    reveal_strlit("I/O failure");
                }
                String::from_str("I/O failure")
            },
            Error::BrokenProtocol(m) => m.clone(),
            Error::Unsupported(m) => m.clone(),
            Error::Encode(m) => m.clone(),
            Error::EOF => {
                proof {
                    reveal_strlit("end of stream");
                }
                String::from_str("end of stream")
            },
            Error::NotReady => {
                proof {
                    reveal_strlit("frame not complete");
                }
                String::from_str("frame not complete")
            },
        }
    }
}

} // verus!
