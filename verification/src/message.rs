//! Messages: arenas of segments that can be read and built.

use crate::allocator::{AllocLen, Segment, SegmentOffset, Space, Word, words_bytes};
use crate::arena::{
    allocated, segments_fit, total_len, used_segments, ArenaSegment, BuildArena, ReadArena,
    SegmentId, lemma_total_len_push,
};
use crate::num::{u29, u29_max, NonZeroU29};
use crate::ptr::{PtrBuilder, PtrReader, ReadState, StructBuilder, StructReader, StructSize};
use crate::arena::Arena;
use crate::allocator::{Alloc, Global, Growing};
use crate::Error;
use vstd::prelude::*;

verus! {

/// An arena of one segment.
pub struct SingleSegmentArena {
    segment: ArenaSegment,
}

impl SingleSegmentArena {
    /// The segment.
    pub closed spec fn spec_segment(&self) -> ArenaSegment {
        self.segment
    }

    /// An arena of the given segment, of which the first word (the root pointer) is used.
    pub fn new(segment: Segment) -> (r: Self)
        requires
            ArenaSegment::can_hold(segment@, 1),
        ensures
            r.spec_segment().spec_words() == segment@,
            r.spec_segment().spec_id() == 0,
            r.spec_segment().spec_used_len() == 1,
            r.spec_segment().spec_state() is Used,
    {
        SingleSegmentArena { segment: ArenaSegment::new(segment, NonZeroU29::minimum(), 0) }
    }

    /// The segment.
    pub fn segment(&self) -> (r: &ArenaSegment)
        ensures
            *r == self.spec_segment(),
    {
        &self.segment
    }
}

impl BuildArena for SingleSegmentArena {
    open spec fn spec_arena(&self) -> Seq<ArenaSegment> {
        seq![self.spec_segment()]
    }

    open spec fn spec_alloc_segment(&self) -> SegmentId {
        0
    }

    open spec fn inv(&self) -> bool {
        &&& self.spec_segment().spec_id() == 0
        &&& self.spec_segment().spec_state() is Used
        &&& self.spec_segment().spec_used_len() <= self.spec_segment().spec_words().len()
        &&& self.spec_segment().spec_words().len() <= u29_max()
    }

    proof fn lemma_used_fits(&self) {
    }

    fn allocate(&mut self, min_size: AllocLen) -> (r: Option<(SegmentOffset, SegmentId)>)
        ensures
            r is Some <==> crate::arena::has_room(old(self).spec_arena(), 0, min_size@ as int),
    {
        let ghost before = self.segment;
        let place = self.segment.try_use_len(min_size);
        match place {
            Some(off) => {
                assert(self.spec_arena().len() == 1);
                Some((off, 0))
            },
            None => {
                assert(self.spec_arena() =~= seq![before]);
                None
            },
        }
    }

    fn try_use_len(&mut self, id: SegmentId, len: AllocLen) -> (r: Option<SegmentOffset>) {
        let ghost before = self.segment;
        let place = self.segment.try_use_len(len);
        if place.is_none() {
            assert(self.spec_arena() =~= seq![before]);
        }
        place
    }

    fn segment(&self, id: SegmentId) -> (r: Option<&ArenaSegment>) {
        if id != 0 {
            return None;
        }
        Some(&self.segment)
    }

    fn set_word(&mut self, id: SegmentId, index: usize, w: Word) {
        self.segment.set_word(index, w);
    }

    fn len(&self) -> (r: u32) {
        1
    }

    fn size_in_words(&self) -> (r: usize) {
        let n = self.segment.used_len().get() as usize;
        proof {
            let u = used_segments(self.spec_arena());
            assert(u =~= Seq::<Seq<Word>>::empty().push(self.spec_segment().spec_used()));
            lemma_total_len_push(Seq::<Seq<Word>>::empty(), self.spec_segment().spec_used());
        }
        n
    }
}

impl ReadArena for SingleSegmentArena {
    open spec fn spec_segments(&self) -> Seq<Seq<Word>> {
        seq![self.spec_segment().spec_used()]
    }

    open spec fn read_inv(&self) -> bool {
        BuildArena::inv(self)
    }

    proof fn lemma_segments_fit(&self) {
        let u = self.spec_segments();
        assert(u =~= Seq::<Seq<Word>>::empty().push(self.spec_segment().spec_used()));
        lemma_total_len_push(Seq::<Seq<Word>>::empty(), self.spec_segment().spec_used());
    }

    fn segment(&self, id: SegmentId) -> (r: Option<&[Word]>) {
        if id != 0 {
            return None;
        }
        Some(self.segment.used_segment())
    }

    fn size_in_words(&self) -> (r: usize) {
        assert(used_segments(BuildArena::spec_arena(self)) =~= self.spec_segments());
        BuildArena::size_in_words(self)
    }
}

/// A message of one fixed segment.
pub struct SingleSegmentMessage {
    arena: SingleSegmentArena,
}

impl SingleSegmentMessage {
    /// The arena of the message.
    pub closed spec fn spec_arena_of(&self) -> SingleSegmentArena {
        self.arena
    }

    /// A message in the given scratch space. Its first word is the root pointer.
    pub fn with_space<const N: usize>(space: &mut Space<N>) -> (r: Self)
        requires
            1 <= N <= u29_max(),
        ensures
            r.spec_arena_of().inv(),
            r.spec_arena_of().spec_segment().spec_used_len() == 1,
            r.spec_arena_of().spec_segment().spec_words().len() == N,
    {
        let segment = space.segment();
        proof {
            assert(segment@.subrange(1, segment@.len() as int) =~= segment@.subrange(1, segment@.len() as int));
            assert forall|i: int| 0 <= i < segment@.len() - 1 implies crate::allocator::word_is_zero(
                #[trigger] segment@.subrange(1, segment@.len() as int)[i]) by {
                assert(segment@.subrange(1, segment@.len() as int)[i] == segment@[i + 1]);
            }
        }
        SingleSegmentMessage { arena: SingleSegmentArena::new(segment) }
    }

    /// The used words of the message.
    pub fn as_words(&self) -> (r: &[Word])
        ensures
            r@ == self.spec_arena_of().spec_segment().spec_used(),
    {
        self.arena.segment().used_segment()
    }

    /// The bytes of the used words of the message.
    pub fn as_bytes(&self) -> (r: Vec<u8>)
        requires
            self.spec_arena_of().inv(),
        ensures
            r@ == words_bytes(self.spec_arena_of().spec_segment().spec_used()),
    {
        let words = self.as_words();
        assert(words@.len() <= u29_max());
        Word::slice_to_bytes(words)
    }
}

/// Controls how far a reader can read into a message: the number of words it may still read.
#[derive(Debug, Clone, Copy, PartialEq, Eq, Structural)]
pub struct ReadLimiter {
    limit: u64,
}

impl ReadLimiter {
    /// The number of words that can still be read.
    pub closed spec fn spec_limit(&self) -> u64 {
        self.limit
    }

    /// A limiter that lets `word_count` words be read.
    pub fn new(word_count: u64) -> (r: Self)
        ensures
            r.spec_limit() == word_count,
    {
        ReadLimiter { limit: word_count }
    }

    /// Reads `words` from the limit, if that many are left. Returns whether it could.
    pub fn try_read(&mut self, words: u64) -> (r: bool)
        ensures
            r == (words <= old(self).spec_limit()),
            r ==> final(self).spec_limit() == old(self).spec_limit() - words,
            !r ==> final(self).spec_limit() == old(self).spec_limit(),
    {
        let current = self.limit;
        if words <= current {
            self.limit = current - words;
            return true;
        }
        false
    }

    /// The number of words that can still be read.
    pub fn current_limit(&self) -> (r: u64)
        ensures
            r == self.spec_limit(),
    {
        self.limit
    }
}

/// Options controlling how data is read.
#[derive(Debug, Clone, Copy, PartialEq, Eq, Structural)]
pub struct ReaderOptions {
    /// Limits how many total words of data may be traversed.
    pub traversal_limit: u64,
    /// Limits how deeply nested a message structure can be.
    pub nesting_limit: u32,
}

impl ReaderOptions {
    /// The default options: a traversal limit of 8 Mi words (64 MiB) and a nesting limit of 64.
    pub fn default_options() -> (r: Self)
        ensures
            r.traversal_limit == 8 * 1024 * 1024,
            r.nesting_limit == 64,
    {
        ReaderOptions { traversal_limit: 8 * 1024 * 1024, nesting_limit: 64 }
    }
}

impl Default for ReaderOptions {
    fn default() -> (r: Self)
        ensures
            r.traversal_limit == 8 * 1024 * 1024,
            r.nesting_limit == 64,
    {
        Self::default_options()
    }
}

/// The segments of a message being built. There is always at least one.
pub struct MessageSegments<'b, B: BuildArena + ?Sized> {
    arena: &'b B,
}

impl<'b, B: BuildArena + ?Sized> MessageSegments<'b, B> {
    /// The arena the segments are in.
    pub closed spec fn spec_arena_ref(&self) -> &'b B {
        self.arena
    }

    /// The used words of each segment.
    pub open spec fn spec_used(&self) -> Seq<Seq<Word>> {
        used_segments(self.spec_arena_ref().spec_arena())
    }

    /// The segments of an arena that has a root segment.
    pub fn new(arena: &'b B) -> (r: Self)
        requires
            arena.inv(),
            arena.spec_arena().len() > 0,
        ensures
            r.spec_arena_ref() == arena,
    {
        MessageSegments { arena }
    }

    /// The first segment.
    pub fn first(&self) -> (r: MessageSegment<'b>)
        requires
            self.spec_arena_ref().spec_arena().len() > 0,
        ensures
            r.spec_segment() == self.spec_arena_ref().spec_arena()[0],
    {
        MessageSegment(self.arena.segment(0).unwrap())
    }

    /// The number of segments.
    pub fn len(&self) -> (r: u32)
        requires
            self.spec_arena_ref().inv(),
        ensures
            r == self.spec_arena_ref().spec_arena().len(),
    {
        self.arena.len()
    }

    /// The segment with the given id.
    pub fn segment(&self, id: SegmentId) -> (r: Option<MessageSegment<'b>>)
        ensures
            r is Some <==> id < self.spec_arena_ref().spec_arena().len(),
            r matches Some(s) ==> s.spec_segment() == self.spec_arena_ref().spec_arena()[id as int],
    {
        match self.arena.segment(id) {
            Some(s) => Some(MessageSegment(s)),
            None => None,
        }
    }

    /// An iterator over the segments, first to last.
    pub fn iter(&self) -> (r: SegmentsIter<'b, B>)
        ensures
            r.spec_next_id() == 0,
            r.spec_arena_ref() == Some(self.spec_arena_ref()),
    {
        SegmentsIter { arena: Some(self.arena), curr: 0 }
    }
}

/// A segment of a message being built.
pub struct MessageSegment<'b>(&'b ArenaSegment);

impl<'b> MessageSegment<'b> {
    /// The arena segment.
    pub closed spec fn spec_segment(&self) -> ArenaSegment {
        *self.0
    }

    /// The number of used words.
    pub fn len(&self) -> (r: u32)
        ensures
            r == self.spec_segment().spec_used_len(),
    {
        self.0.used_len().get()
    }

    /// The used words.
    pub fn as_words(&self) -> (r: &'b [Word])
        ensures
            r@ == self.spec_segment().spec_used(),
    {
        self.0.used_segment()
    }

    /// The bytes of the used words.
    pub fn as_bytes(&self) -> (r: Vec<u8>)
        ensures
            r@ == words_bytes(self.spec_segment().spec_used()),
    {
        let words = self.0.used_segment();
        let n = self.0.used_len();
        assert(words@.len() <= u29_max());
        Word::slice_to_bytes(words)
    }
}

/// Walks the segments of a message being built, first to last.
pub struct SegmentsIter<'b, B: BuildArena + ?Sized> {
    arena: Option<&'b B>,
    curr: SegmentId,
}

impl<'b, B: BuildArena + ?Sized> SegmentsIter<'b, B> {
    /// The id of the segment the next call gives.
    pub closed spec fn spec_next_id(&self) -> SegmentId {
        self.curr
    }

    /// The arena walked, until the walk ends.
    pub closed spec fn spec_arena_ref(&self) -> Option<&'b B> {
        self.arena
    }

    /// The next segment, or `None` once the segments are all walked.
    pub fn next(&mut self) -> (r: Option<MessageSegment<'b>>)
        requires
            old(self).spec_next_id() < u32::MAX,
        ensures
            match old(self).spec_arena_ref() {
                None => r is None && final(self).spec_arena_ref() is None,
                Some(a) => {
                    &&& r is Some <==> old(self).spec_next_id() < a.spec_arena().len()
                    &&& r matches Some(s) ==> s.spec_segment() == a.spec_arena()[old(self).spec_next_id() as int]
                    &&& r is Some ==> final(self).spec_arena_ref() == old(self).spec_arena_ref()
                    &&& r is None ==> final(self).spec_arena_ref() is None
                    &&& final(self).spec_next_id() == old(self).spec_next_id() + 1
                },
            },
    {
        let arena = match self.arena {
            Some(a) => a,
            None => {
                return None;
            },
        };
        let segment = arena.segment(self.curr);
        if segment.is_none() {
            self.arena = None;
        }
        self.curr = self.curr + 1;
        match segment {
            Some(s) => Some(MessageSegment(s)),
            None => None,
        }
    }
}

} // verus!

verus! {

/// A reader of a message, with limits on how much and how deep it reads.
pub struct Reader<'a, A: ReadArena + ?Sized> {
    limit: Option<u64>,
    nesting_limit: u32,
    message: &'a A,
}

impl<'a, A: ReadArena + ?Sized> Reader<'a, A> {
    /// The words the reader may read, `None` if it has no limit.
    pub closed spec fn spec_limit(&self) -> Option<u64> {
        self.limit
    }

    /// How deep the reader may follow pointers.
    pub closed spec fn spec_nesting_limit(&self) -> u32 {
        self.nesting_limit
    }

    /// The message read.
    pub closed spec fn spec_message(&self) -> &'a A {
        self.message
    }

    #[verifier::type_invariant]
    closed spec fn wf(&self) -> bool {
        self.message.read_inv()
    }

    /// A reader of the message with the given limits.
    pub fn new(message: &'a A, options: ReaderOptions) -> (r: Self)
        requires
            message.read_inv(),
        ensures
            r.spec_limit() == Some(options.traversal_limit),
            r.spec_nesting_limit() == options.nesting_limit,
            r.spec_message() == message,
    {
        Reader { limit: Some(options.traversal_limit), nesting_limit: options.nesting_limit, message }
    }

    /// A reader of the message with no limits. Use it only for trusted data.
    pub fn limitless(message: &'a A) -> (r: Self)
        requires
            message.read_inv(),
        ensures
            r.spec_limit() is None,
            r.spec_nesting_limit() == u32::MAX,
            r.spec_message() == message,
    {
        Reader { limit: None, nesting_limit: u32::MAX, message }
    }

    /// The root pointer, if the message has a root segment with a word in it.
    pub fn root_option(&self) -> (r: Option<PtrReader<'a, A>>)
        ensures
            r is Some <==> self.spec_message().spec_segments().len() > 0
                && self.spec_message().spec_segments()[0].len() > 0,
            r matches Some(p) ==> (p.spec_ptr() matches Some((pos, rd)) && pos@ == 0 && rd.spec_state()
                == (ReadState { segment: 0, limit: self.spec_limit() })
                && rd.spec_segment().spec_arena() == self.spec_message()
                && p.spec_nesting_limit() == self.spec_nesting_limit()),
    {
        proof {
            use_type_invariant(self);
        }
        PtrReader::root(self.message, self.limit, self.nesting_limit)
    }

    /// The root pointer, or a null pointer if the message has no root.
    pub fn root(&self) -> (r: PtrReader<'a, A>)
        ensures
            self.spec_message().spec_segments().len() > 0 && self.spec_message().spec_segments()[0].len() > 0 ==> (r.spec_ptr() matches Some((pos, rd)) && pos@ == 0 && rd.spec_state()
                == (ReadState { segment: 0, limit: self.spec_limit() })
                && rd.spec_segment().spec_arena() == self.spec_message()
                && r.spec_nesting_limit() == self.spec_nesting_limit()),
            !(self.spec_message().spec_segments().len() > 0 && self.spec_message().spec_segments()[0].len() > 0) ==> r.spec_ptr() is None,
    {
        match self.root_option() {
            Some(p) => p,
            None => PtrReader::null(),
        }
    }

    /// Reads the root as a struct; `None` if the root is null.
    pub fn read_as(&self) -> (r: Result<Option<StructReader<'a, A>>, Error>)
        ensures
            ({
                let segs = self.spec_message().spec_segments();
                if !(segs.len() > 0 && segs[0].len() > 0) || crate::ptr::parts_null(crate::ptr::parts_of(segs[0][0])) {
                    r matches Ok(None)
                } else if self.spec_nesting_limit() == 0 {
                    r == Err::<Option<StructReader<'a, A>>, Error>(Error { kind: crate::ErrorKind::NestingLimitExceeded })
                } else {
                    match crate::ptr::spec_read_struct(segs, ReadState { segment: 0, limit: self.spec_limit() }, 0) {
                        Err(e) => r == Err::<Option<StructReader<'a, A>>, Error>(e),
                        Ok((st, start, size)) => r matches Ok(Some(s)) && s.spec_data() == segs[st.segment as int].subrange(start, start + size.data)
                            && s.spec_ptrs_start() == start + size.data && s.spec_ptrs_len() == size.ptrs,
                    }
                }
            }),
    {
        self.root().to_struct()
    }

    /// The total size of the message in words.
    pub fn size_in_words(&self) -> (r: usize)
        ensures
            r == total_len(self.spec_message().spec_segments()),
    {
        proof {
            use_type_invariant(self);
        }
        self.message.size_in_words()
    }
}

} // verus!

verus! {

/// The builder of a message: its root pointer. The arena is handed to each operation.
#[derive(Clone, Copy, Debug, PartialEq, Eq, Structural)]
pub struct Builder {
    root: PtrBuilder,
}

impl Builder {
    /// The root pointer builder.
    pub closed spec fn spec_root(&self) -> PtrBuilder {
        self.root
    }

    /// The builder of a message whose root segment exists.
    pub fn new() -> (r: Self)
        ensures
            r.spec_root().ptr@ == 0,
            r.spec_root().builder.segment == 0,
    {
        Builder { root: PtrBuilder::root() }
    }

    /// Another handle to the same builder.
    pub fn by_ref(&mut self) -> (r: Builder)
        ensures
            r == *old(self),
            *final(self) == *old(self),
    {
        *self
    }

    /// The root pointer builder.
    pub fn into_root(self) -> (r: PtrBuilder)
        ensures
            r == self.spec_root(),
    {
        self.root
    }

    /// Allocates the root struct of the given size, clearing first what the root referred to.
    pub fn init_struct_root<B: BuildArena + ?Sized>(self, arena: &mut B, size: StructSize) -> (r: Result<StructBuilder, Error>)
        requires
            old(arena).inv(),
            crate::ptr::writable(old(arena).spec_arena(), self.spec_root().builder.segment, self.spec_root().ptr@),
        ensures
            final(arena).inv(),
            crate::ptr::parts_null(crate::ptr::parts_of(crate::ptr::arena_words(old(arena).spec_arena(), self.spec_root().builder.segment)[self.spec_root().ptr@]))
                ==> (r is Err ==> final(arena).spec_arena() == old(arena).spec_arena()),
            r is Err ==> crate::clear::zeroed_from(old(arena).spec_arena(), final(arena).spec_arena()),
            r matches Err(e) ==> (e.kind matches crate::ErrorKind::AllocFailed(n) && n@ == size.spec_total() + 1),
            size.spec_total() == 0 || crate::arena::has_room(old(arena).spec_arena(), self.spec_root().builder.segment, size.spec_total())
                || crate::arena::has_room(old(arena).spec_arena(), old(arena).spec_alloc_segment(), size.spec_total() + 1) ==> r is Ok,
            r matches Ok(s) ==> s.size == size && crate::ptr::reads_struct(final(arena).spec_arena(), self.spec_root().builder.segment, self.spec_root().ptr@, s.builder.segment, s.start as int, size),
    {
        self.root.try_init_struct(arena, size)
    }

    /// The segments of the message.
    pub fn segments<'b, B: BuildArena + ?Sized>(&self, arena: &'b B) -> (r: MessageSegments<'b, B>)
        requires
            arena.inv(),
            arena.spec_arena().len() > 0,
        ensures
            r.spec_arena_ref() == arena,
    {
        MessageSegments::new(arena)
    }

    /// The size of the message in words.
    pub fn size_in_words<B: BuildArena + ?Sized>(&self, arena: &B) -> (r: usize)
        requires
            arena.inv(),
        ensures
            r == total_len(used_segments(arena.spec_arena())),
    {
        arena.size_in_words()
    }
}

/// A message that grows by asking its allocator for segments.
pub struct Message<A> {
    pub arena: Arena<A>,
}

impl<A: Alloc> Message<A> {
    /// A message with no segments, allocating with `alloc`.
    pub fn new(alloc: A) -> (r: Self)
        ensures
            r.arena.inv(),
            r.arena.spec_segments_of().len() == 0,
    {
        Message { arena: Arena::new(alloc) }
    }

    /// The builder of the message, allocating the root segment if there is none yet; `None` if
    /// it could not be allocated.
    pub fn builder(&mut self) -> (r: Option<Builder>)
        requires
            old(self).arena.inv(),
        ensures
            final(self).arena.inv(),
            r is Some <==> final(self).arena.spec_segments_of().len() > 0,
            r matches Some(b) ==> b.spec_root().ptr@ == 0 && b.spec_root().builder.segment == 0,
            old(self).arena.spec_segments_of().len() == 0 && r is Some ==> crate::ptr::writable(final(self).arena.spec_segments_of(), 0, 0)
                && crate::ptr::parts_null(crate::ptr::parts_of(final(self).arena.spec_segments_of()[0].spec_words()[0])),
    {
        let ghost old_len = self.arena.spec_segments_of().len();
        if self.arena.alloc_root() {
            proof {
                let s = self.arena.spec_segments_of();
                if old_len == 0 {
                    lemma_zero_word_null(s[0].spec_words()[0]);
                }
            }
            Some(Builder::new())
        } else {
            None
        }
    }

    /// The segments of the message, if it has a root segment.
    pub fn segments(&self) -> (r: Option<MessageSegments<'_, Arena<A>>>)
        requires
            self.arena.inv(),
        ensures
            r is Some <==> self.arena.spec_segments_of().len() > 0,
    {
        if self.arena.len() > 0 {
            Some(MessageSegments::new(&self.arena))
        } else {
            None
        }
    }

    /// A reader of the message with no limits.
    pub fn reader(&self) -> (r: Reader<'_, Arena<A>>)
        requires
            self.arena.inv(),
        ensures
            r.spec_limit() is None,
    {
        Reader::limitless(&self.arena)
    }

    /// A reader of the message with the given limits.
    pub fn reader_with_options(&self, options: ReaderOptions) -> (r: Reader<'_, Arena<A>>)
        requires
            self.arena.inv(),
        ensures
            r.spec_limit() == Some(options.traversal_limit),
    {
        Reader::new(&self.arena, options)
    }
}

impl Message<Growing<Global>> {
    /// A message backed by the default growing allocator: its first segment is 1024 words.
    pub fn global() -> (r: Self)
        ensures
            r.arena.inv(),
            r.arena.spec_segments_of().len() == 0,
    {
        let first = crate::num::NonZeroU29::new_unwrap(1024);
        Message::new(Growing::new(first, Global))
    }
}

/// A zero word is a null pointer.
proof fn lemma_zero_word_null(w: Word)
    requires
        crate::allocator::word_is_zero(w),
    ensures
        crate::ptr::parts_null(crate::ptr::parts_of(w)),
{
}

impl SingleSegmentMessage {
    /// The arena of the message.
    pub fn arena(&self) -> (r: &SingleSegmentArena)
        ensures
            *r == self.spec_arena_of(),
    {
        &self.arena
    }

    /// A reader of the message with no limits.
    pub fn reader(&self) -> (r: Reader<'_, SingleSegmentArena>)
        requires
            self.spec_arena_of().inv(),
        ensures
            r.spec_limit() is None,
    {
        Reader::limitless(&self.arena)
    }

    /// A reader of the message with the given limits.
    pub fn reader_with_options(&self, options: ReaderOptions) -> (r: Reader<'_, SingleSegmentArena>)
        requires
            self.spec_arena_of().inv(),
        ensures
            r.spec_limit() == Some(options.traversal_limit),
    {
        Reader::new(&self.arena, options)
    }

    /// The builder of the message.
    pub fn builder(&self) -> (r: Builder)
        ensures
            r.spec_root().ptr@ == 0,
            r.spec_root().builder.segment == 0,
    {
        Builder::new()
    }
}

} // verus!

verus! {

impl SingleSegmentArena {
    /// A single segment arena is read as the used words of its segment.
    pub proof fn lemma_reads_as_built(&self)
        requires
            BuildArena::inv(self),
        ensures
            crate::ptr::reads_as_built(self),
    {
        assert(used_segments(self.spec_arena()) =~= seq![self.spec_segment().spec_used()]);
    }
}

} // verus!
