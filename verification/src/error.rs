//! Errors of the decode path.

use vstd::prelude::*;

use crate::text;

verus! {

/// What can go wrong on the way to decoded packets.
#[derive(Debug, Clone)]
pub enum Error {
    /// An input or output operation failed, with this message.
    Io(String),
    /// The other end of a channel is gone.
    ChannelClosed,
}

impl Error {
    /// The error as text.
    pub open spec fn text(self) -> Seq<char> {
        match self {
            Error::Io(e) => "I/O error: "@ + e@,
            Error::ChannelClosed => "channel closed"@,
        }
    }

    /// The error as text.
    pub fn message(&self) -> (r: String)
        ensures
            r@ == self.text(),
    {
        let mut s: String = String::new();
        match self {
            Error::Io(e) => {
                text::push_text(&mut s, "I/O error: ");
                text::push_text(&mut s, e.as_str());
            },
            Error::ChannelClosed => text::push_text(&mut s, "channel closed"),
        }
        assert(s@ =~= self.text());
        s
    }
}

} // verus!
