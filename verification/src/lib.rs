//! A Cap'n Proto implementation: the wire format of messages, their segments and
//! pointers, stream framing and packing, with their contracts proved.

pub mod num;
pub mod allocator;
pub mod io;
pub mod ptr;
pub mod arena;
pub mod message;
pub mod data;
pub mod text;
pub mod rpc;
pub mod any;
pub mod field;
pub mod list;
pub mod clear;
pub mod orphan;
pub mod equality;

use vstd::prelude::*;

verus! {

/// The kinds of error that reading or building a message can run into.
#[derive(Debug, Clone, Copy, PartialEq, Eq, Structural)]
pub enum ErrorKind {
    NestingLimitExceeded,
    PointerOutOfBounds,
    ReadLimitExceeded,
    InlineCompositeOverrun,
    UnsupportedInlineCompositeElementTag,
    UnexpectedRead(ptr::FailedRead),
    IncompatibleUpgrade(ptr::IncompatibleUpgrade),
    CapabilityNotAllowed,
    InvalidCapabilityPointer(u32),
    TextNotNulTerminated,
    MissingSegment(u32),
    WritingNotAllowed,
    AllocTooLarge,
    AllocFailed(allocator::AllocLen),
    OrphanFromDifferentMessage,
}

/// An error that occurred while reading or building a message.
#[derive(Debug, Clone, Copy, PartialEq, Eq, Structural)]
pub struct Error {
    pub kind: ErrorKind,
}

impl Error {
    /// Wraps a kind of error.
    pub fn from_kind(kind: ErrorKind) -> (r: Error)
        ensures
            r.kind == kind,
    {
        Error { kind }
    }

    /// The description of the error.
    pub open spec fn spec_message(&self) -> Seq<char> {
        match self.kind {
            ErrorKind::NestingLimitExceeded => "nesting limit exceeded"@,
            ErrorKind::PointerOutOfBounds => "pointer out of bounds"@,
            ErrorKind::ReadLimitExceeded => "read limit exceeded"@,
            ErrorKind::InlineCompositeOverrun => "inline composite word count overrun"@,
            ErrorKind::UnsupportedInlineCompositeElementTag => "unsupported inline composite element tag"@,
            ErrorKind::UnexpectedRead(_) => "unexpected pointer read"@,
            ErrorKind::IncompatibleUpgrade(_) => "incompatible list upgrade"@,
            ErrorKind::CapabilityNotAllowed => "capability not allowed in this context"@,
            ErrorKind::InvalidCapabilityPointer(_) => "invalid capability pointer"@,
            ErrorKind::TextNotNulTerminated => "text wasn't NUL terminated"@,
            ErrorKind::MissingSegment(_) => "missing segment"@,
            ErrorKind::WritingNotAllowed => "attempted to write to read-only segment"@,
            ErrorKind::AllocTooLarge => "allocation too large"@,
            ErrorKind::AllocFailed(_) => "failed to allocate in message"@,
            ErrorKind::OrphanFromDifferentMessage => "orphan from different message"@,
        }
    }

    /// A short description of the error.
    pub fn message(&self) -> (r: &'static str)
        ensures
            r@ == self.spec_message(),
    {
        match self.kind {
            ErrorKind::NestingLimitExceeded => "nesting limit exceeded",
            ErrorKind::PointerOutOfBounds => "pointer out of bounds",
            ErrorKind::ReadLimitExceeded => "read limit exceeded",
            ErrorKind::InlineCompositeOverrun => "inline composite word count overrun",
            ErrorKind::UnsupportedInlineCompositeElementTag => "unsupported inline composite element tag",
            ErrorKind::UnexpectedRead(_) => "unexpected pointer read",
            ErrorKind::IncompatibleUpgrade(_) => "incompatible list upgrade",
            ErrorKind::CapabilityNotAllowed => "capability not allowed in this context",
            ErrorKind::InvalidCapabilityPointer(_) => "invalid capability pointer",
            ErrorKind::TextNotNulTerminated => "text wasn't NUL terminated",
            ErrorKind::MissingSegment(_) => "missing segment",
            ErrorKind::WritingNotAllowed => "attempted to write to read-only segment",
            ErrorKind::AllocTooLarge => "allocation too large",
            ErrorKind::AllocFailed(_) => "failed to allocate in message",
            ErrorKind::OrphanFromDifferentMessage => "orphan from different message",
        }
    }
}

/// The error returned when reading an enum value the schema does not know.
#[derive(Debug, Clone, Copy, PartialEq, Eq, Structural)]
pub struct NotInSchema(pub u16);

/// The marker type of a family of types.
#[derive(Clone, Copy, Debug, Default, PartialEq, Eq, Structural)]
pub struct Family;

} // verus!
