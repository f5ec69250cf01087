//! Blobs of bytes: `Data` values in a message.

use crate::arena::{BuildArena, SegmentId};
use crate::num::{u29, u29_max};
use crate::ptr::{BlobBuilder, BlobReader};
use vstd::prelude::*;

verus! {

/// A blob of bytes, as read or as built.
#[derive(Clone, Debug, PartialEq, Eq)]
pub struct Data<T>(T);

/// A reader of a blob.
pub type Reader = Data<BlobReader>;

/// A builder of a blob.
pub type Builder = Data<BlobBuilder>;

impl Reader {
    /// The bytes.
    pub closed spec fn spec_bytes(&self) -> Seq<u8> {
        self.0.spec_bytes()
    }

    /// An empty blob.
    pub fn empty() -> (r: Self)
        ensures
            r.spec_bytes().len() == 0,
    {
        Data(BlobReader::empty())
    }

    /// A blob of the given bytes, which must fit a message.
    pub fn from_slice(slice: &[u8]) -> (r: Self)
        requires
            slice@.len() <= u29_max(),
        ensures
            r.spec_bytes() == slice@,
    {
        let mut v: Vec<u8> = Vec::new();
        let mut i: usize = 0;
        while i < slice.len()
            invariant
                i <= slice@.len(),
                v@ == slice@.subrange(0, i as int),
            decreases slice@.len() - i,
        {
            v.push(slice[i]);
            i = i + 1;
        }
        assert(slice@.subrange(0, slice@.len() as int) =~= slice@);
        Data(BlobReader::from_vec(v))
    }

    /// A blob read from a message.
    pub fn from_blob(blob: BlobReader) -> (r: Self)
        ensures
            r.spec_bytes() == blob.spec_bytes(),
    {
        Data(blob)
    }

    /// The number of bytes.
    pub fn len(&self) -> (r: u32)
        ensures
            r == self.spec_bytes().len(),
    {
        self.0.len() as u32
    }

    /// Whether there are no bytes.
    pub fn is_empty(&self) -> (r: bool)
        ensures
            r == (self.spec_bytes().len() == 0),
    {
        self.0.len() == 0
    }

    /// The bytes.
    pub fn as_slice(&self) -> (r: &[u8])
        ensures
            r@ == self.spec_bytes(),
    {
        self.0.as_slice()
    }
}

impl Builder {
    /// The blob builder.
    pub closed spec fn spec_blob(&self) -> BlobBuilder {
        self.0
    }

    /// An empty blob builder.
    pub fn empty() -> (r: Self)
        ensures
            r.spec_blob().len@ == 0,
    {
        Data(BlobBuilder::empty())
    }

    /// The number of bytes.
    pub fn len(&self) -> (r: u32)
        ensures
            r == self.spec_blob().len@,
    {
        self.0.len().get()
    }

    /// Whether there are no bytes.
    pub fn is_empty(&self) -> (r: bool)
        ensures
            r == (self.spec_blob().len@ == 0),
    {
        self.0.len().get() == 0
    }

    /// A reader of the bytes built so far.
    pub fn as_reader<B: BuildArena + ?Sized>(&self, arena: &B) -> (r: Data<BlobReader>)
        requires
            arena.inv(),
            self.spec_blob().valid_in(arena.spec_arena()),
        ensures
            r.spec_bytes() == self.spec_blob().spec_bytes_in(arena.spec_arena()),
    {
        Data(self.0.as_reader(arena))
    }
}

} // verus!
