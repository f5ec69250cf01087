//! Segment allocation APIs and other primitives.
//!
//! Memory is modelled by value: a [`Segment`] owns its words, and positions inside a
//! segment are word indexes ([`SegmentPtr`], [`SegmentRef`]).

use crate::num::{i30, i30_max, i30_min, u29, u29_max, NonZeroU29};
use vstd::prelude::*;

verus! {

/// An aligned 64-bit word type, stored as its eight bytes in little endian order.
#[derive(Copy, Clone, Debug, PartialEq, Eq, PartialOrd, Ord, Hash)]
pub struct Word(pub [u8; 8]);

/// The bytes of a sequence of words, in order.
pub open spec fn words_bytes(words: Seq<Word>) -> Seq<u8> {
    Seq::new((words.len() * 8) as nat, |i: int| words[i / 8].0@[i % 8])
}

/// Whether every byte of a word is zero.
pub open spec fn word_is_zero(w: Word) -> bool {
    forall|i: int| 0 <= i < 8 ==> #[trigger] w.0@[i] == 0
}

/// Whether every word of a sequence is zero.
pub open spec fn all_zero(words: Seq<Word>) -> bool {
    forall|i: int| 0 <= i < words.len() ==> word_is_zero(#[trigger] words[i])
}

/// The number of 64 bit words needed for `bits` bits.
pub open spec fn words_for_bits(bits: int) -> int {
    (bits + 63) / 64
}

/// The number of 64 bit words needed for `bytes` bytes.
pub open spec fn words_for_bytes(bytes: int) -> int {
    (bytes + 7) / 8
}

impl Word {
    /// The number of bytes in a Word (8)
    pub const BYTES: usize = 8;
    /// The number of bits in a word (64)
    pub const BITS: usize = 64;

    /// Returns whether this word is null
    pub fn is_null(self) -> (r: bool)
        ensures
            r == word_is_zero(self),
    {
        let b = self.0;
        b[0] == 0 && b[1] == 0 && b[2] == 0 && b[3] == 0 && b[4] == 0 && b[5] == 0 && b[6] == 0
            && b[7] == 0
    }

    /// Returns a null word.
    pub fn null() -> (r: Word)
        ensures
            word_is_zero(r),
    {
        Word([0u8; 8])
    }

    /// Round up a bit count to words.
    ///
    /// The maximum object size is 4GB - 1 byte. If measured in bits, this would overflow a
    /// 32-bit counter, so this accepts a `u64`; the word count is truncated to 32 bits.
    pub fn round_up_bit_count(bits: u64) -> (r: u32)
        ensures
            r == (words_for_bits(bits as int) as u32),
    {
        let q = bits / 64;
        let words = if bits % 64 != 0 {
            q + 1
        } else {
            q
        };
        words as u32
    }

    /// Round up a byte count to words.
    pub fn round_up_byte_count(bytes: u32) -> (r: u32)
        ensures
            r == words_for_bytes(bytes as int),
    {
        let q = bytes / 8;
        if bytes % 8 != 0 {
            q + 1
        } else {
            q
        }
    }

    /// Converts a slice of Words into the bytes they hold.
    pub fn slice_to_bytes(slice: &[Word]) -> (r: Vec<u8>)
        requires
            slice@.len() * 8 <= usize::MAX,
        ensures
            r@ == words_bytes(slice@),
    {
        let mut out: Vec<u8> = Vec::new();
        let mut i: usize = 0;
        while i < slice.len()
            invariant
                i <= slice@.len(),
                slice@.len() * 8 <= usize::MAX,
                out@ =~= words_bytes(slice@.subrange(0, i as int)),
            decreases slice@.len() - i,
        {
            let w = slice[i];
            let mut k: usize = 0;
            while k < 8
                invariant
                    k <= 8,
                    i < slice@.len(),
                    w == slice@[i as int],
                    out@ =~= words_bytes(slice@.subrange(0, i as int)) + w.0@.subrange(0, k as int),
                decreases 8 - k,
            {
                out.push(w.0[k]);
                k = k + 1;
            }
            i = i + 1;
            assert(out@ =~= words_bytes(slice@.subrange(0, i as int))) by {
                assert forall|j: int| 0 <= j < out@.len() implies out@[j] == words_bytes(
                    slice@.subrange(0, i as int),
                )[j] by {
                    if j < (i - 1) * 8 {
                        assert(j / 8 < i - 1) by (nonlinear_arith)
                            requires
                                0 <= j < (i - 1) * 8,
                        ;
                    } else {
                        assert(j / 8 == i - 1 && j % 8 == j - (i - 1) * 8) by (nonlinear_arith)
                            requires
                                (i - 1) * 8 <= j < i * 8,
                        ;
                    }
                }
            }
        }
        assert(slice@.subrange(0, slice@.len() as int) =~= slice@);
        out
    }
}

impl Default for Word {
    fn default() -> (r: Self)
        ensures
            word_is_zero(r),
    {
        Word([0u8; 8])
    }
}

/// The length of a segment in a message
pub type SegmentLen = u29;

/// An offset from the start of a segment to an object within it.
pub type SegmentOffset = u29;

/// A signed offset between objects in a segment.
pub type SignedSegmentOffset = i30;

/// The length of an allocation made in a message. This cannot be zero.
pub type AllocLen = NonZeroU29;

/// A segment of Words, owned by value.
#[derive(Debug, PartialEq, Eq)]
pub struct Segment {
    data: Vec<Word>,
    scratch: bool,
}

impl View for Segment {
    type V = Seq<Word>;

    open spec fn view(&self) -> Seq<Word> {
        self.spec_words()
    }
}

impl Segment {
    /// The words of the segment.
    pub closed spec fn spec_words(&self) -> Seq<Word> {
        self.data@
    }

    /// Whether this segment is the borrowed scratch space of a [`Scratch`] allocator.
    pub closed spec fn spec_is_scratch(&self) -> bool {
        self.scratch
    }

    /// The length of a segment never exceeds the largest segment length.
    #[verifier::type_invariant]
    pub(crate) closed spec fn fits(&self) -> bool {
        self.data@.len() <= u29_max()
    }

    /// Makes a segment of the given words, if there are not too many of them.
    pub fn new(data: Vec<Word>) -> (r: Option<Segment>)
        ensures
            r is Some <==> data@.len() <= u29_max(),
            r matches Some(s) ==> s@ == data@ && !s.spec_is_scratch(),
    {
        if data.len() <= 536870911usize {
            Some(Segment { data, scratch: false })
        } else {
            None
        }
    }

    /// Makes a zeroed segment of `len` words.
    pub fn zeroed(len: SegmentLen) -> (r: Segment)
        ensures
            r@.len() == len@,
            all_zero(r@),
            !r.spec_is_scratch(),
    {
        let n = len.get();
        let mut data: Vec<Word> = Vec::new();
        let mut i: u32 = 0;
        while i < n
            invariant
                i <= n,
                n <= u29_max(),
                data@.len() == i,
                all_zero(data@),
            decreases n - i,
        {
            data.push(Word::null());
            i = i + 1;
        }
        Segment { data, scratch: false }
    }

    /// The length of the segment in words.
    pub fn len(&self) -> (r: SegmentLen)
        ensures
            r@ == self@.len(),
    {
        proof {
            use_type_invariant(self);
        }
        u29::new_unwrap(self.data.len() as u32)
    }

    /// The positions of the first word of the segment and of the place just beyond its end.
    pub fn to_ptr_range(&self) -> (r: (SegmentPtr, SegmentPtr))
        ensures
            r.0@ == 0,
            r.1@ == self@.len(),
    {
        proof {
            use_type_invariant(self);
        }
        (SegmentPtr::new(0), SegmentPtr::new(self.data.len() as i64))
    }

    /// The length of the segment in bytes.
    pub fn len_as_bytes(&self) -> (r: usize)
        ensures
            r == self@.len() * 8,
    {
        proof {
            use_type_invariant(self);
        }
        self.data.len() * 8
    }

    /// The words of the segment.
    pub fn as_slice(&self) -> (r: &[Word])
        ensures
            r@ == self@,
    {
        self.data.as_slice()
    }

    /// The bytes of the segment.
    pub fn as_bytes(&self) -> (r: Vec<u8>)
        ensures
            r@ == words_bytes(self@),
    {
        proof {
            use_type_invariant(self);
        }
        Word::slice_to_bytes(self.data.as_slice())
    }

    /// The word at `index`.
    pub fn get(&self, index: usize) -> (r: Word)
        requires
            index < self@.len(),
        ensures
            r == self@[index as int],
    {
        self.data[index]
    }

    /// Replaces the word at `index`.
    pub fn set(&mut self, index: usize, w: Word)
        requires
            index < old(self)@.len(),
        ensures
            final(self)@ == old(self)@.update(index as int, w),
            final(self).spec_is_scratch() == old(self).spec_is_scratch(),
        no_unwind
    {
        proof {
            use_type_invariant(&*self);
        }
        self.data[index] = w;
    }

    /// Takes the words out of the segment.
    pub fn into_words(self) -> (r: Vec<Word>)
        ensures
            r@ == self@,
            r@.len() <= u29_max(),
    {
        proof {
            use_type_invariant(&self);
        }
        self.data
    }
}

/// An unchecked position in a segment, in words from the start of the segment. It may lie
/// outside of the segment; it must be checked and turned into a [`SegmentRef`].
#[derive(Clone, Copy, Debug, PartialEq, Eq, Structural, PartialOrd, Ord)]
pub struct SegmentPtr {
    pos: i64,
}

impl View for SegmentPtr {
    type V = int;

    open spec fn view(&self) -> int {
        self.spec_pos() as int
    }
}

impl SegmentPtr {
    /// The position.
    pub closed spec fn spec_pos(&self) -> i64 {
        self.pos
    }

    /// Makes a position.
    pub fn new(pos: i64) -> (r: Self)
        ensures
            r@ == pos,
    {
        Self { pos }
    }

    /// The position held.
    pub fn as_ptr(self) -> (r: i64)
        ensures
            r == self@,
    {
        self.pos
    }

    /// The position held, for writing.
    pub fn as_ptr_mut(self) -> (r: i64)
        ensures
            r == self@,
    {
        self.pos
    }

    /// The position `offset` words further on.
    pub fn offset(self, offset: SegmentOffset) -> (r: Self)
        requires
            self@ + offset@ <= i64::MAX,
        ensures
            r@ == self@ + offset@,
    {
        Self { pos: self.pos + offset.get() as i64 }
    }

    /// The position moved by a signed `offset`.
    pub fn signed_offset(self, offset: SignedSegmentOffset) -> (r: Self)
        requires
            i64::MIN <= self@ + offset@ <= i64::MAX,
        ensures
            r@ == self@ + offset@,
    {
        Self { pos: self.pos + offset.get() as i64 }
    }

    /// The position moved by a signed `offset` from the end of the word at this position.
    pub fn signed_offset_from_end(self, offset: SignedSegmentOffset) -> (r: Self)
        requires
            self@ < i64::MAX,
            i64::MIN <= self@ + 1 + offset@ <= i64::MAX,
        ensures
            r@ == self@ + 1 + offset@,
    {
        let one = i30::new_unwrap(1);
        self.signed_offset(one).signed_offset(offset)
    }

    /// Makes a checked reference of a position already known to be in a segment.
    pub fn as_ref_unchecked(self) -> (r: SegmentRef)
        requires
            0 <= self@ <= u29_max(),
        ensures
            r@ == self@,
    {
        SegmentRef { pos: u29::new_unwrap(self.pos as u32) }
    }
}

/// A checked reference to a location in a segment, in words from its start.
#[derive(Clone, Copy, Debug, PartialEq, Eq, Structural, PartialOrd, Ord)]
pub struct SegmentRef {
    pos: u29,
}

impl View for SegmentRef {
    type V = int;

    open spec fn view(&self) -> int {
        self.spec_pos()@ as int
    }
}

impl SegmentRef {
    /// The position.
    pub closed spec fn spec_pos(&self) -> u29 {
        self.pos
    }

    /// Makes a reference to a position (the caller has checked it).
    pub fn new_unchecked(pos: u29) -> (r: Self)
        ensures
            r@ == pos@,
            r.spec_pos() == pos,
    {
        Self { pos }
    }

    /// The unchecked position of this reference.
    pub fn as_segment_ptr(self) -> (r: SegmentPtr)
        ensures
            r@ == self@,
    {
        SegmentPtr::new(self.pos.get() as i64)
    }

    /// The position held.
    pub fn as_ptr(self) -> (r: u32)
        ensures
            r == self@,
    {
        self.pos.get()
    }

    /// The position held, for writing.
    pub fn as_ptr_mut(self) -> (r: u32)
        ensures
            r == self@,
    {
        self.pos.get()
    }

    /// The position held as a segment offset.
    pub fn as_inner(self) -> (r: SegmentOffset)
        ensures
            r@ == self@,
    {
        self.pos
    }

    /// The position `offset` words further on.
    pub fn offset(self, offset: SegmentOffset) -> (r: SegmentPtr)
        ensures
            r@ == self@ + offset@,
    {
        let p = self.pos.get();
        let o = offset.get();
        SegmentPtr::new(p as i64 + o as i64)
    }

    /// The position moved by a signed `offset`.
    pub fn signed_offset(self, offset: SignedSegmentOffset) -> (r: SegmentPtr)
        ensures
            r@ == self@ + offset@,
    {
        let p = self.pos.get();
        let o = offset.get();
        SegmentPtr::new(p as i64 + o as i64)
    }

    /// The position moved by a signed `offset` from the end of the word at this position.
    pub fn signed_offset_from_end(self, offset: SignedSegmentOffset) -> (r: SegmentPtr)
        ensures
            r@ == self@ + 1 + offset@,
    {
        let p = self.pos.get();
        let o = offset.get();
        SegmentPtr::new(p as i64 + 1 + o as i64)
    }
}

/// An allocation trait that can be used to get a builder to allocate segments for an arena.
pub trait Alloc {
    /// Whether this allocator, asked for `size` words, may answer `r`.
    spec fn spec_grants(&self, size: int, r: Option<Segment>) -> bool;

    /// Allocates a zeroed [`Segment`] of memory that can fit at least `size` [`Word`]s.
    ///
    /// If the segment cannot be allocated, `None` is returned instead.
    fn allocate(&mut self, size: AllocLen) -> (r: Option<Segment>)
        ensures
            r matches Some(s) ==> s@.len() >= size@ && all_zero(s@),
            old(self).spec_grants(size@ as int, r),
    ;

    /// Deallocates the segment. This segment must be previously allocated by this allocator.
    fn dealloc(&mut self, segment: Segment);
}

/// An allocator that never allocates, it always returns None.
///
/// This can be useful as a backing allocator to a Scratch allocator to make sure
/// nothing is ever allocated.
#[derive(Default, Clone, Copy, Debug)]
pub struct Never;

impl Alloc for Never {
    open spec fn spec_grants(&self, size: int, r: Option<Segment>) -> bool {
        r is None
    }

    fn allocate(&mut self, size: AllocLen) -> (r: Option<Segment>) {
        None
    }

    fn dealloc(&mut self, segment: Segment) {
    }
}

/// An allocator that allocates a zeroed segment of exactly the size requested.
///
/// You probably don't want to use this allocator directly, since it will
/// always allocate the minimum size requested. Instead you probably want
/// to layer another allocator on top, like a Growing or Fixed allocator.
#[derive(Default, Clone, Copy, Debug)]
pub struct Global;

impl Alloc for Global {
    open spec fn spec_grants(&self, size: int, r: Option<Segment>) -> bool {
        r matches Some(s) && s@.len() == size && !s.spec_is_scratch()
    }

    fn allocate(&mut self, size: AllocLen) -> (r: Option<Segment>)
        ensures
            r matches Some(s) && s@.len() == size@ && !s.spec_is_scratch(),
    {
        Some(Segment::zeroed(u29::from_non_zero(size)))
    }

    fn dealloc(&mut self, segment: Segment) {
    }
}

/// An allocation layer that prefers to allocate the same amount of space for each
/// segment (unless larger segments are required).
#[derive(Debug)]
pub struct Fixed<A> {
    size: AllocLen,
    inner: A,
}

impl<A> Fixed<A> {
    /// The size this layer asks of the inner allocator at least.
    pub closed spec fn spec_size(&self) -> AllocLen {
        self.size
    }

    /// The inner allocator.
    pub closed spec fn spec_inner(&self) -> A {
        self.inner
    }

    pub fn new(size: AllocLen, inner: A) -> (r: Self)
        ensures
            r.spec_size() == size,
            r.spec_inner() == inner,
    {
        Self { size, inner }
    }
}

impl<A: Alloc> Alloc for Fixed<A> {
    open spec fn spec_grants(&self, size: int, r: Option<Segment>) -> bool {
        self.spec_inner().spec_grants(growing_alloc_size(size, self.spec_size()@ as int), r)
    }

    /// Asks the inner allocator for the larger of `size` and the fixed size.
    fn allocate(&mut self, size: AllocLen) -> (r: Option<Segment>)
        ensures
            final(self).spec_size() == old(self).spec_size(),
            r matches Some(s) ==> s@.len() >= if size@ >= old(self).spec_size()@ {
                size@ as int
            } else {
                old(self).spec_size()@ as int
            },
    {
        let s = if size.get() >= self.size.get() {
            size
        } else {
            self.size
        };
        self.inner.allocate(s)
    }

    fn dealloc(&mut self, segment: Segment)
        ensures
            final(self).spec_size() == old(self).spec_size(),
    {
        self.inner.dealloc(segment)
    }
}

/// The size a [`Growing`] allocator asks for: the larger of the request and its next size.
pub open spec fn growing_alloc_size(requested: int, next: int) -> int {
    if requested >= next {
        requested
    } else {
        next
    }
}

/// The next size of a [`Growing`] allocator after it asked for `allocated` words.
pub open spec fn growing_next_size(next: int, allocated: int) -> int {
    if next + allocated <= u29_max() {
        next + allocated
    } else {
        u29_max()
    }
}

/// An allocation layer that will grow the allocation size for each segment on the
/// assumption that message sizes are exponentially distributed.
#[derive(Debug)]
pub struct Growing<A> {
    next_segment: AllocLen,
    inner: A,
}

impl<A> Growing<A> {
    /// The default length used for the first segment of 1024 words (8 kibibytes).
    pub const DEFAULT_FIRST_SEGMENT_LEN: u32 = 1024;

    /// The size of the next segment this layer asks for, unless a larger one is requested.
    pub closed spec fn spec_next_segment(&self) -> AllocLen {
        self.next_segment
    }

    /// The inner allocator.
    pub closed spec fn spec_inner(&self) -> A {
        self.inner
    }

    pub fn new(first_segment: AllocLen, alloc: A) -> (r: Self)
        ensures
            r.spec_next_segment() == first_segment,
            r.spec_inner() == alloc,
    {
        Self { next_segment: first_segment, inner: alloc }
    }
}

impl<A: Default> Default for Growing<A> {
    fn default() -> (r: Self)
        ensures
            r.spec_next_segment()@ == 1024,
    {
        Self::new(NonZeroU29::new_unwrap(1024), A::default())
    }
}

impl<A: Alloc> Alloc for Growing<A> {
    open spec fn spec_grants(&self, size: int, r: Option<Segment>) -> bool {
        self.spec_inner().spec_grants(growing_alloc_size(size, self.spec_next_segment()@ as int), r)
    }

    /// Allocates a segment of the larger of `size` and the next segment size, and grows the
    /// next segment size by the amount allocated (saturating at the largest segment length).
    fn allocate(&mut self, size: AllocLen) -> (r: Option<Segment>)
        ensures
            final(self).spec_next_segment()@ == growing_next_size(
                old(self).spec_next_segment()@ as int,
                growing_alloc_size(size@ as int, old(self).spec_next_segment()@ as int),
            ),
            r matches Some(s) ==> s@.len() >= growing_alloc_size(
                size@ as int,
                old(self).spec_next_segment()@ as int,
            ),
    {
        let next = self.next_segment.get();
        let requested = size.get();
        let alloc_size = if requested >= next {
            size
        } else {
            self.next_segment
        };
        let next_size = next.saturating_add(alloc_size.get());
        self.next_segment = match NonZeroU29::new(next_size) {
            Some(v) => v,
            None => NonZeroU29::maximum(),
        };
        self.inner.allocate(alloc_size)
    }

    fn dealloc(&mut self, segment: Segment)
        ensures
            final(self).spec_next_segment() == old(self).spec_next_segment(),
    {
        self.inner.dealloc(segment)
    }
}

/// Scratch space that can be passed to a [Scratch] allocator.
pub struct Space<const N: usize> {
    /// Indicates if this space has been used and needs to be cleared.
    dirty: bool,
}

impl<const N: usize> Space<N> {
    /// Whether the space was handed out before.
    pub closed spec fn spec_dirty(&self) -> bool {
        self.dirty
    }

    /// Makes scratch space of `N` words; `N` must be a valid allocation length.
    pub fn new() -> (r: Self)
        requires
            0 < N <= u29_max(),
        ensures
            !r.spec_dirty(),
    {
        Self { dirty: false }
    }

    /// Hands out the space as a zeroed segment of `N` words.
    pub fn segment(&mut self) -> (r: Segment)
        requires
            0 < N <= u29_max(),
        ensures
            r@.len() == N,
            all_zero(r@),
            r.spec_is_scratch(),
            final(self).spec_dirty(),
    {
        self.dirty = true;
        let s = Segment::zeroed(u29::new_unwrap(N as u32));
        Segment { data: s.into_words(), scratch: true }
    }
}

/// A simple alias that makes it easy to create scratch space.
pub fn space<const N: usize>() -> (r: Space<N>)
    requires
        0 < N <= u29_max(),
    ensures
        !r.spec_dirty(),
{
    Space::new()
}

/// Scratch space with a dynamic length that can be passed to a [Scratch] allocator.
pub struct DynSpace {
    dirty: bool,
    len: AllocLen,
}

impl DynSpace {
    /// The length of the space in words.
    pub closed spec fn spec_len(&self) -> AllocLen {
        self.len
    }

    pub fn new(len: AllocLen) -> (r: Self)
        ensures
            r.spec_len() == len,
    {
        DynSpace { dirty: false, len }
    }

    /// Hands out the space as a zeroed segment.
    pub fn segment(&mut self) -> (r: Segment)
        ensures
            r@.len() == old(self).spec_len()@,
            all_zero(r@),
            r.spec_is_scratch(),
            final(self).spec_len() == old(self).spec_len(),
    {
        self.dirty = true;
        let s = Segment::zeroed(u29::from_non_zero(self.len));
        Segment { data: s.into_words(), scratch: true }
    }
}

/// An allocation layer that first attempts to allocate to some borrowed scratch space before
/// falling back to another allocator.
#[derive(Debug)]
pub struct Scratch<A> {
    segment: Option<Segment>,
    len: SegmentLen,
    used: bool,
    next: A,
}

impl<A> Scratch<A> {
    /// Whether the scratch space was handed out already.
    pub closed spec fn spec_used(&self) -> bool {
        self.used
    }

    /// The length of the scratch space in words.
    pub closed spec fn spec_len(&self) -> nat {
        self.len@ as nat
    }

    /// The allocator used once the scratch space is used or too small.
    pub closed spec fn spec_next(&self) -> A {
        self.next
    }

    /// The scratch segment is held until it is handed out.
    pub closed spec fn wf(&self) -> bool {
        !self.used ==> (self.segment matches Some(s) && s@.len() == self.len@ && all_zero(s@)
            && s.spec_is_scratch())
    }

    /// Creates a new scratch space allocator for the given statically allocated space.
    pub fn with_space<const N: usize>(space: &mut Space<N>, alloc: A) -> (r: Self)
        requires
            0 < N <= u29_max(),
        ensures
            !r.spec_used(),
            r.spec_len() == N,
            r.spec_next() == alloc,
            r.wf(),
    {
        let segment = space.segment();
        let len = segment.len();
        Self { segment: Some(segment), len, used: false, next: alloc }
    }

    /// Creates a new scratch space allocator for the given dynamically allocated space.
    pub fn with_dyn_space(space: &mut DynSpace, alloc: A) -> (r: Self)
        ensures
            !r.spec_used(),
            r.spec_len() == old(space).spec_len()@,
            r.spec_next() == alloc,
            r.wf(),
    {
        let segment = space.segment();
        let len = segment.len();
        Self { segment: Some(segment), len, used: false, next: alloc }
    }

    /// Creates a new scratch space allocator with the given zeroed segment.
    pub fn with_segment(segment: Segment, alloc: A) -> (r: Self)
        requires
            all_zero(segment@),
        ensures
            !r.spec_used(),
            r.spec_len() == segment@.len(),
            r.spec_next() == alloc,
            r.wf(),
    {
        let len = segment.len();
        let data = segment.into_words();
        Self { segment: Some(Segment { data, scratch: true }), len, used: false, next: alloc }
    }
}

impl<A: Alloc> Alloc for Scratch<A> {
    open spec fn spec_grants(&self, size: int, r: Option<Segment>) -> bool {
        if self.spec_used() || size > self.spec_len() {
            self.spec_next().spec_grants(size, r)
        } else {
            self.wf() ==> (r matches Some(s) && s@.len() == self.spec_len() && s.spec_is_scratch())
        }
    }

    /// Allocates from the scratch space when it is unused and large enough, and from the next
    /// allocator otherwise.
    fn allocate(&mut self, size: AllocLen) -> (r: Option<Segment>)
        ensures
            final(self).spec_len() == old(self).spec_len(),
            old(self).wf() ==> final(self).wf(),
            old(self).wf() && !old(self).spec_used() && size@ <= old(self).spec_len() ==> {
                &&& final(self).spec_used()
                &&& r matches Some(s) && s@.len() == old(self).spec_len() && s.spec_is_scratch()
            },
            old(self).spec_used() || size@ > old(self).spec_len() ==> final(self).spec_used()
                == old(self).spec_used(),
    {
        if self.used || self.len.get() < size.get() {
            self.next.allocate(size)
        } else {
            match self.segment.take() {
                Some(s) => {
                    self.used = true;
                    if s.data.len() >= size.get() as usize && all_words_zero(&s.data) {
                        Some(s)
                    } else {
                        None
                    }
                },
                None => self.next.allocate(size),
            }
        }
    }

    /// Hands a segment that is not the scratch space to the next allocator; the scratch space is
    /// not handed out again.
    fn dealloc(&mut self, segment: Segment)
        ensures
            final(self).spec_used() == old(self).spec_used(),
            final(self).spec_len() == old(self).spec_len(),
            old(self).wf() ==> final(self).wf(),
            segment.spec_is_scratch() ==> *final(self) == *old(self),
    {
        if !segment.scratch {
            self.next.dealloc(segment)
        }
    }
}

/// Checks that every word of a slice is zero.
fn all_words_zero(words: &Vec<Word>) -> (r: bool)
    ensures
        r == all_zero(words@),
{
    let mut i: usize = 0;
    while i < words.len()
        invariant
            i <= words@.len(),
            all_zero(words@.subrange(0, i as int)),
        decreases words@.len() - i,
    {
        if !words[i].is_null() {
            assert(!word_is_zero(words@[i as int]));
            return false;
        }
        assert(all_zero(words@.subrange(0, i + 1))) by {
            assert forall|j: int| 0 <= j < i + 1 implies word_is_zero(
                #[trigger] words@.subrange(0, i + 1)[j],
            ) by {
                if j < i {
                    assert(words@.subrange(0, i + 1)[j] == words@.subrange(0, i as int)[j]);
                }
            }
        }
        i = i + 1;
    }
    assert(words@.subrange(0, i as int) =~= words@);
    true
}

} // verus!
