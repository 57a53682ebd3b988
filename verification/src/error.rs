//! What can stop a marshaller.

use vstd::prelude::*;

verus! {

/// The reasons for which a request is not carried out.
#[derive(Debug, Clone, Copy, PartialEq, Eq, Structural)]
pub enum Error {
    /// The size of a buffer, an element size times a count, does not fit in
    /// `usize`.
    MulOverflow,
    /// An extension of a buffer-object chain carries a name that has no
    /// layout.
    IllegalName(u32),
    /// A protected-content operation carries an action that has no layout.
    IllegalAction,
    /// An extension of a context, address-space or engine chain carries a name
    /// that has no layout.
    UnsupportedName,
    /// The command has no marshaller.
    UnsupportedIoctl(u32),
    /// No arena can serve a request of this many bytes.
    OutOfSpace(usize),
    /// The region offered as a new arena cannot be one.
    RegionRefused,
    /// A chain of extensions does not end.
    EndlessChain,
}

impl Error {
    /// The reason in words.
    pub open spec fn reason(self) -> &'static str {
        match self {
            Error::MulOverflow => "mul error",
            Error::IllegalName(_) => "the name is illegal",
            Error::IllegalAction => "the action is illegal",
            Error::UnsupportedName => "name is not supported",
            Error::UnsupportedIoctl(_) => "unsupported ioctl",
            Error::OutOfSpace(_) => "no arena has room for the request",
            Error::RegionRefused => "the region cannot be an arena",
            Error::EndlessChain => "the chain of extensions does not end",
        }
    }

    /// The reason in words, for a message to whoever made the request.
    pub fn message(&self) -> (text: &'static str)
        ensures
            text == self.reason(),
    {
        match self {
            Error::MulOverflow => "mul error",
            Error::IllegalName(_) => "the name is illegal",
            Error::IllegalAction => "the action is illegal",
            Error::UnsupportedName => "name is not supported",
            Error::UnsupportedIoctl(_) => "unsupported ioctl",
            Error::OutOfSpace(_) => "no arena has room for the request",
            Error::RegionRefused => "the region cannot be an arena",
            Error::EndlessChain => "the chain of extensions does not end",
        }
    }
}

} // verus!
