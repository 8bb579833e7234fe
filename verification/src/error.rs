//! Error type of the frame decoder.
use vstd::prelude::*;

verus! {

/// What went wrong with a frame or a container.
#[derive(Debug, Clone, PartialEq, Eq)]
pub enum Vp8Error {
    /// The data breaks the format.
    InvalidData(String),
    /// The data asks for something that is not implemented.
    Unsupported(String),
    /// The stream has ended.
    Eof,
    /// More input is needed.
    NeedMore,
}

pub type Result<T> = core::result::Result<T, Vp8Error>;

impl Vp8Error {
    /// `InvalidData` with the message `msg`.
    pub open spec fn is_invalid(self, msg: Seq<char>) -> bool {
        self matches Vp8Error::InvalidData(s) && s@ == msg
    }

    /// What the error says.
    pub open spec fn text(self) -> Seq<char> {
        match self {
            Vp8Error::InvalidData(s) => "invalid data: "@ + s@,
            Vp8Error::Unsupported(s) => "unsupported: "@ + s@,
            Vp8Error::Eof => "end of stream"@,
            Vp8Error::NeedMore => "need more data"@,
        }
    }

    /// Text for people.
    pub fn message(&self) -> (r: String)
        ensures
            r@ == self.text(),
    {
        match self {
            Vp8Error::InvalidData(s) => "invalid data: ".to_owned().concat(s.as_str()),
            Vp8Error::Unsupported(s) => "unsupported: ".to_owned().concat(s.as_str()),
            Vp8Error::Eof => "end of stream".to_owned(),
            Vp8Error::NeedMore => "need more data".to_owned(),
        }
    }

    /// `InvalidData` with the given message.
    pub fn invalid(msg: &str) -> (e: Self)
        ensures
            e.is_invalid(msg@),
    {
        Vp8Error::InvalidData(msg.to_owned())
    }

    /// `Unsupported` with the given message.
    pub fn unsupported(msg: &str) -> (e: Self)
        ensures
            e matches Vp8Error::Unsupported(s) && s@ == msg@,
    {
        Vp8Error::Unsupported(msg.to_owned())
    }
}

} // verus!
