//! Narrow error type for the VMDK reader.

use crate::text::{decimal_digits, push_decimal, push_text};
use vstd::prelude::*;

verus! {

/// The operating system's own I/O error, carried through unread.
#[verifier::external_type_specification]
#[verifier::external_body]
pub struct ExIoError(std::io::Error);

#[derive(Debug)]
pub enum Error {
    /// Underlying I/O failure (open, seek, read, write).
    Io(std::io::Error),
    /// Magic number didn't match `KDMV`.
    NotVmdk,
    /// Header or descriptor field combination is internally inconsistent.
    Corrupt(&'static str),
    /// A VMDK variant the reader doesn't yet handle (everything other
    /// than `monolithicSparse`).
    Unsupported(&'static str),
    /// Read past the end of the virtual disk.
    OutOfBounds { offset: u64, len: u64, size: u64 },
    /// `write_at` called on an image opened read-only, or on top of a
    /// non-writable backing device.
    ReadOnly,
}

pub type Result<T> = std::result::Result<T, Error>;

impl From<std::io::Error> for Error {
    fn from(e: std::io::Error) -> (r: Self) {
        Error::Io(e)
    }
}

impl vstd::std_specs::convert::FromSpecImpl<std::io::Error> for Error {
    open spec fn obeys_from_spec() -> bool {
        true
    }

    open spec fn from_spec(e: std::io::Error) -> Self {
        Error::Io(e)
    }
}

/// The text of an I/O error, as `std::io::Error` displays it. The wording
/// is the operating system's, so nothing is claimed of it.
#[verifier::external_body]
fn io_text(e: &std::io::Error) -> (text: String) {
    e.to_string()
}

/// What an error says, where `io` is what the I/O error in it says.
pub open spec fn message_of(e: Error, io: Seq<char>) -> Seq<char> {
    match e {
        Error::Io(_) => "io: "@ + io,
        Error::NotVmdk => "not a VMDK image (magic mismatch)"@,
        Error::Corrupt(s) => "corrupt VMDK: "@ + s@,
        Error::Unsupported(s) => "unsupported VMDK feature: "@ + s@,
        Error::OutOfBounds { offset, len, size } => "read ["@ + decimal_digits(offset as nat) + ", "@
            + decimal_digits(offset as nat) + "+"@ + decimal_digits(len as nat)
            + ") past virtual size "@ + decimal_digits(size as nat),
        Error::ReadOnly => "image was opened read-only"@,
    }
}

impl Error {
    /// What the error says.
    pub fn message(&self) -> (text: String)
        ensures
            exists|io: Seq<char>| text@ == #[trigger] message_of(*self, io),
    {
        let io: String = match self {
            Error::Io(e) => io_text(e),
            _ => String::new(),
        };
        self.message_with(io.as_str())
    }

    /// What the error says, where `io` is what the I/O error in it says.
    pub fn message_with(&self, io: &str) -> (text: String)
        ensures
            text@ == message_of(*self, io@),
    {
        let mut text: String = String::new();
        match self {
            Error::Io(_) => {
                push_text(&mut text, "io: ");
                push_text(&mut text, io);
            },
            Error::NotVmdk => push_text(&mut text, "not a VMDK image (magic mismatch)"),
            Error::Corrupt(s) => {
                push_text(&mut text, "corrupt VMDK: ");
                push_text(&mut text, s);
            },
            Error::Unsupported(s) => {
                push_text(&mut text, "unsupported VMDK feature: ");
                push_text(&mut text, s);
            },
            Error::OutOfBounds { offset, len, size } => {
                push_text(&mut text, "read [");
                push_decimal(&mut text, *offset);
                push_text(&mut text, ", ");
                push_decimal(&mut text, *offset);
                push_text(&mut text, "+");
                push_decimal(&mut text, *len);
                push_text(&mut text, ") past virtual size ");
                push_decimal(&mut text, *size);
            },
            Error::ReadOnly => push_text(&mut text, "image was opened read-only"),
        }
        assert(text@ =~= message_of(*self, io@));
        text
    }

    /// The I/O error underneath, where there is one.
    pub fn source(&self) -> (e: Option<&std::io::Error>)
        ensures
            e == (match self {
                Error::Io(e) => Some(e),
                _ => None,
            }),
    {
        match self {
            Error::Io(e) => Some(e),
            _ => None,
        }
    }
}

} // verus!
