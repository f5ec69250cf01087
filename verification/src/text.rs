//! UTF-8 text: byte lists that end with a NUL byte.

use crate::arena::BuildArena;
use crate::num::u29_max;
use crate::ptr::{BlobBuilder, BlobReader};
use vstd::prelude::*;
use vstd::string::StringSliceAdditionalSpecFns;
use vstd::utf8::{valid_utf8, decode_utf8};

verus! {

/// The error type of `core::str::from_utf8`, carried through as an opaque value.
#[verifier::external_type_specification]
#[verifier::external_body]
pub struct ExUtf8Error(core::str::Utf8Error);

/// Decodes bytes as UTF-8 with `core::str::from_utf8`: the text when the bytes are valid UTF-8,
/// else the error. The text returned is the bytes themselves, and its characters are what they
/// decode to. What the error holds is left unsaid.
#[verifier::external_body]
fn str_from_utf8(bytes: &[u8]) -> (r: Result<&str, core::str::Utf8Error>)
    ensures
        r is Ok <==> valid_utf8(bytes@),
        r matches Ok(s) ==> s@ == decode_utf8(bytes@) && s.spec_bytes() == bytes@,
{
    core::str::from_utf8(bytes)
}

/// Text, as read or as built.
#[derive(Clone, Debug, PartialEq, Eq)]
pub struct Text<T>(T);

/// A reader of text.
pub type Reader = Text<BlobReader>;

/// A builder of text.
pub type Builder = Text<BlobBuilder>;

/// Whether bytes end with a NUL byte.
pub open spec fn nul_terminated(bytes: Seq<u8>) -> bool {
    bytes.len() > 0 && bytes.last() == 0
}

impl Reader {
    /// The bytes, the NUL byte included.
    pub closed spec fn spec_bytes(&self) -> Seq<u8> {
        self.0.spec_bytes()
    }

    /// The empty text: a single NUL byte.
    pub fn empty() -> (r: Self)
        ensures
            r.spec_bytes() == seq![0u8],
    {
        let mut v: Vec<u8> = Vec::new();
        v.push(0);
        let blob = BlobReader::from_vec(v);
        assert(blob.spec_bytes() =~= seq![0u8]);
        Text(blob)
    }

    /// The text of a blob, if the blob ends with a NUL byte.
    pub fn new(blob: BlobReader) -> (r: Option<Self>)
        ensures
            r is Some <==> nul_terminated(blob.spec_bytes()),
            r matches Some(t) ==> t.spec_bytes() == blob.spec_bytes(),
    {
        let n = blob.len();
        if n > 0 && blob.as_slice()[n - 1] == 0 {
            Some(Text(blob))
        } else {
            None
        }
    }

    /// The number of bytes, the NUL byte included.
    pub fn len(&self) -> (r: u32)
        ensures
            r == self.spec_bytes().len(),
    {
        self.0.len() as u32
    }

    /// Whether the text is empty: a single NUL byte.
    pub fn is_empty(&self) -> (r: bool)
        ensures
            r == (self.spec_bytes().len() == 1),
    {
        self.0.len() == 1
    }

    /// The bytes, the NUL byte left out.
    pub fn as_bytes(&self) -> (r: &[u8])
        ensures
            self.spec_bytes().len() > 0 ==> r@ == self.spec_bytes().drop_last(),
            self.spec_bytes().len() == 0 ==> r@.len() == 0,
    {
        let all = self.0.as_slice();
        if all.len() == 0 {
            return all;
        }
        &all[0..all.len() - 1]
    }

    /// The bytes, the NUL byte included.
    pub fn as_bytes_with_nul(&self) -> (r: &[u8])
        ensures
            r@ == self.spec_bytes(),
    {
        self.0.as_slice()
    }

    /// The text as a string, if its bytes (the NUL byte left out) are valid UTF-8.
    pub fn as_str(&self) -> (r: Result<&str, core::str::Utf8Error>)
        requires
            self.spec_bytes().len() > 0,
        ensures
            r is Ok <==> valid_utf8(self.spec_bytes().drop_last()),
            r matches Ok(s) ==> s@ == decode_utf8(self.spec_bytes().drop_last()) && s.spec_bytes() == self.spec_bytes().drop_last(),
    {
        str_from_utf8(self.as_bytes())
    }
}

impl Builder {
    /// The blob builder.
    pub closed spec fn spec_blob(&self) -> BlobBuilder {
        self.0
    }

    /// Text built in the given blob, which holds the NUL byte.
    pub fn from_blob(blob: BlobBuilder) -> (r: Self)
        ensures
            r.spec_blob() == blob,
    {
        Text(blob)
    }

    /// The number of bytes, the NUL byte included.
    pub fn len(&self) -> (r: u32)
        ensures
            r == self.spec_blob().len@,
    {
        self.0.len().get()
    }

    /// Whether the text is empty: a single NUL byte.
    pub fn is_empty(&self) -> (r: bool)
        ensures
            r == (self.spec_blob().len@ == 1),
    {
        self.0.len().get() == 1
    }

    /// A reader of the text as it is now, if it ends with a NUL byte.
    pub fn as_reader<B: BuildArena + ?Sized>(&self, arena: &B) -> (r: Option<Text<BlobReader>>)
        requires
            arena.inv(),
            self.spec_blob().valid_in(arena.spec_arena()),
        ensures
            r is Some <==> nul_terminated(self.spec_blob().spec_bytes_in(arena.spec_arena())),
            r matches Some(t) ==> t.spec_bytes() == self.spec_blob().spec_bytes_in(arena.spec_arena()),
    {
        Text::<BlobReader>::new(self.0.as_reader(arena))
    }

    /// The bytes, the NUL byte left out.
    pub fn as_bytes<B: BuildArena + ?Sized>(&self, arena: &B) -> (r: Vec<u8>)
        requires
            arena.inv(),
            self.spec_blob().valid_in(arena.spec_arena()),
        ensures
            self.spec_blob().spec_bytes_in(arena.spec_arena()).len() > 0 ==> r@ == self.spec_blob().spec_bytes_in(arena.spec_arena()).drop_last(),
            self.spec_blob().spec_bytes_in(arena.spec_arena()).len() == 0 ==> r@.len() == 0,
    {
        let blob = self.0.as_reader(arena);
        let all = blob.as_slice();
        let mut v: Vec<u8> = Vec::new();
        if all.len() == 0 {
            return v;
        }
        let n = all.len() - 1;
        let mut i: usize = 0;
        while i < n
            invariant
                i <= n,
                n == all@.len() - 1,
                v@ == all@.subrange(0, i as int),
            decreases n - i,
        {
            v.push(all[i]);
            i = i + 1;
        }
        assert(all@.subrange(0, n as int) =~= all@.drop_last());
        v
    }
}

} // verus!
