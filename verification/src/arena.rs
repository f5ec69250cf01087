//! Arenas of segments: what a message is made of.
//!
//! A [`ReadArena`] hands out the words of its segments by id. A [`BuildArena`] holds
//! [`ArenaSegment`]s, whose used prefix grows as objects are allocated in them; the words beyond
//! the used prefix of a segment are always zero.

use crate::allocator::{
    all_zero, Alloc, AllocLen, Segment, SegmentLen, SegmentOffset, SegmentRef, Word,
};
use crate::num::{u29, u29_max, NonZeroU29};
use vstd::prelude::*;

verus! {

/// The index of a segment in an arena.
pub type SegmentId = u32;

/// The total number of words in a sequence of segments.
pub open spec fn total_len(segs: Seq<Seq<Word>>) -> int
    decreases segs.len(),
{
    if segs.len() == 0 {
        0
    } else {
        total_len(segs.drop_last()) + segs.last().len()
    }
}

/// Adding a segment adds its length to the total.
pub proof fn lemma_total_len_push(segs: Seq<Seq<Word>>, s: Seq<Word>)
    ensures
        total_len(segs.push(s)) == total_len(segs) + s.len(),
{
    assert(segs.push(s).drop_last() =~= segs);
}

/// Sequences of segments of the same lengths hold the same number of words.
pub proof fn lemma_total_len_same_lens(a: Seq<Seq<Word>>, b: Seq<Seq<Word>>)
    requires
        a.len() == b.len(),
        forall|i: int| 0 <= i < a.len() ==> #[trigger] a[i].len() == b[i].len(),
    ensures
        total_len(a) == total_len(b),
    decreases a.len(),
{
    if a.len() > 0 {
        lemma_total_len_same_lens(a.drop_last(), b.drop_last());
    }
}

/// Whether every segment fits the largest segment length.
pub open spec fn segments_fit(segs: Seq<Seq<Word>>) -> bool {
    forall|i: int| 0 <= i < segs.len() ==> #[trigger] segs[i].len() <= u29_max()
}

/// An arena of segments that can be read.
pub trait ReadArena {
    /// The segments of the arena, by id.
    spec fn spec_segments(&self) -> Seq<Seq<Word>>;

    /// Whether the arena is in a consistent state.
    spec fn read_inv(&self) -> bool;

    /// Every segment fits the largest segment length, and all of them fit in memory.
    proof fn lemma_segments_fit(&self)
        requires
            self.read_inv(),
        ensures
            segments_fit(self.spec_segments()),
            total_len(self.spec_segments()) <= usize::MAX,
            self.spec_segments().len() <= u32::MAX,
    ;

    /// The segment with the given id, if there is one.
    fn segment(&self, id: SegmentId) -> (r: Option<&[Word]>)
        ensures
            r is Some <==> id < self.spec_segments().len(),
            r matches Some(s) ==> s@ == self.spec_segments()[id as int],
    ;

    /// The total size of the arena's segments in words.
    fn size_in_words(&self) -> (r: usize)
        requires
            self.read_inv(),
        ensures
            r == total_len(self.spec_segments()),
    ;
}

/// The state of an arena segment.
#[derive(Debug, Clone, Copy, PartialEq, Eq, Structural)]
pub enum SegmentState {
    /// A segment owned by the arena, of which a prefix of the given length is used.
    Used(AllocLen),
    /// A segment inserted from outside; it can be read, not written.
    ReadOnly,
    /// A segment that was removed.
    Deleted,
}

/// A segment in a [`BuildArena`].
#[derive(Debug)]
pub struct ArenaSegment {
    segment: Segment,
    id: SegmentId,
    state: SegmentState,
}

impl ArenaSegment {
    /// All the words of the segment, used or not.
    pub closed spec fn spec_words(&self) -> Seq<Word> {
        self.segment@
    }

    /// The id of the segment.
    pub closed spec fn spec_id(&self) -> SegmentId {
        self.id
    }

    /// The state of the segment.
    pub closed spec fn spec_state(&self) -> SegmentState {
        self.state
    }

    /// The length of the used prefix of the segment.
    pub open spec fn spec_used_len(&self) -> int {
        match self.spec_state() {
            SegmentState::Used(n) => n@ as int,
            SegmentState::ReadOnly => self.spec_words().len() as int,
            SegmentState::Deleted => 0,
        }
    }

    /// The used words of the segment.
    pub open spec fn spec_used(&self) -> Seq<Word> {
        self.spec_words().subrange(0, self.spec_used_len())
    }

    /// The used prefix lies in the segment, and the words past it are zero.
    #[verifier::type_invariant]
    closed spec fn wf(&self) -> bool {
        &&& self.state matches SegmentState::Used(n) ==> {
            &&& n@ <= self.segment@.len()
            &&& all_zero(self.segment@.subrange(n@ as int, self.segment@.len() as int))
        }
    }

    /// Whether a segment could be an arena segment with the given used length.
    pub open spec fn can_hold(segment: Seq<Word>, used_len: int) -> bool {
        &&& used_len <= segment.len()
        &&& all_zero(segment.subrange(used_len, segment.len() as int))
    }

    /// An owned segment whose first `used_len` words are in use.
    pub fn new(segment: Segment, used_len: AllocLen, id: SegmentId) -> (r: Self)
        requires
            Self::can_hold(segment@, used_len@ as int),
        ensures
            r.spec_words() == segment@,
            r.spec_id() == id,
            r.spec_state() == SegmentState::Used(used_len),
    {
        proof {
            use_type_invariant(&segment);
        }
        ArenaSegment { segment, id, state: SegmentState::Used(used_len) }
    }

    /// A read-only segment inserted from outside the arena.
    pub fn external(segment: Segment, id: SegmentId) -> (r: Self)
        ensures
            r.spec_words() == segment@,
            r.spec_id() == id,
            r.spec_state() == SegmentState::ReadOnly,
    {
        proof {
            use_type_invariant(&segment);
        }
        ArenaSegment { segment, id, state: SegmentState::ReadOnly }
    }

    /// Whether the segment is read-only.
    pub fn is_read_only(&self) -> (r: bool)
        ensures
            r == (self.spec_state() is ReadOnly),
    {
        match self.state {
            SegmentState::ReadOnly => true,
            _ => false,
        }
    }

    /// Marks the segment removed.
    pub fn delete(&mut self)
        ensures
            final(self).spec_state() == SegmentState::Deleted,
            final(self).spec_words() == old(self).spec_words(),
            final(self).spec_id() == old(self).spec_id(),
    {
        self.state = SegmentState::Deleted;
    }

    /// The id of the segment.
    pub fn id(&self) -> (r: SegmentId)
        ensures
            r == self.spec_id(),
    {
        self.id
    }

    /// The whole segment, used or not.
    pub fn segment(&self) -> (r: &Segment)
        ensures
            r@ == self.spec_words(),
    {
        &self.segment
    }

    /// The position of the first word of the segment.
    pub fn start(&self) -> (r: SegmentRef)
        ensures
            r@ == 0,
    {
        SegmentRef::new_unchecked(u29::zero())
    }

    /// Extends the used prefix by `len` words, if they fit in the segment, and returns where
    /// they start.
    pub fn try_use_len(&mut self, len: AllocLen) -> (r: Option<SegmentOffset>)
        requires
            old(self).spec_state() is Used,
        ensures
            final(self).spec_words() == old(self).spec_words(),
            final(self).spec_id() == old(self).spec_id(),
            old(self).spec_used_len() + len@ <= old(self).spec_words().len() ==> {
                &&& r matches Some(off) && off@ == old(self).spec_used_len()
                &&& final(self).spec_state() is Used
                &&& final(self).spec_used_len() == old(self).spec_used_len() + len@
                &&& all_zero(
                    old(self).spec_words().subrange(
                        old(self).spec_used_len(),
                        old(self).spec_used_len() + len@,
                    ),
                )
            },
            old(self).spec_used_len() + len@ > old(self).spec_words().len() ==> {
                &&& r is None
                &&& *final(self) == *old(self)
            },
    {
        proof {
            use_type_invariant(&*self);
        }
        let old_used = match self.state {
            SegmentState::Used(n) => n,
            _ => {
                return None;
            },
        };
        let max = self.segment.len().get();
        let new_used = old_used.get() + len.get();
        if new_used > max {
            return None;
        }
        let ghost words = self.segment@;
        proof {
            assert forall|i: int| 0 <= i < len@ implies crate::allocator::word_is_zero(
                #[trigger] words.subrange(old_used@ as int, new_used as int)[i],
            ) by {
                assert(words.subrange(old_used@ as int, new_used as int)[i] == words.subrange(
                    old_used@ as int,
                    words.len() as int,
                )[i]);
            }
            assert forall|i: int| 0 <= i < words.len() - new_used implies crate::allocator::word_is_zero(
                #[trigger] words.subrange(new_used as int, words.len() as int)[i],
            ) by {
                assert(words.subrange(new_used as int, words.len() as int)[i] == words.subrange(
                    old_used@ as int,
                    words.len() as int,
                )[i + len@]);
            }
        }
        self.state = SegmentState::Used(NonZeroU29::new_unwrap(new_used));
        Some(u29::new_unwrap(old_used.get()))
    }

    /// The length of the used prefix of the segment.
    pub fn used_len(&self) -> (r: SegmentOffset)
        ensures
            r@ == self.spec_used_len(),
            self.spec_used_len() <= self.spec_words().len(),
    {
        proof {
            use_type_invariant(self);
        }
        match self.state {
            SegmentState::Used(n) => u29::new_unwrap(n.get()),
            SegmentState::ReadOnly => self.segment.len(),
            SegmentState::Deleted => u29::zero(),
        }
    }

    /// The used words of the segment.
    pub fn used_segment(&self) -> (r: &[Word])
        ensures
            r@ == self.spec_used(),
            r@.len() == self.spec_used_len(),
            self.spec_used_len() <= u29_max(),
    {
        proof {
            use_type_invariant(self);
        }
        let n = self.used_len().get() as usize;
        let all = self.segment.as_slice();
        &all[0..n]
    }

    /// The word at `index` of the used prefix.
    pub fn word(&self, index: usize) -> (r: Word)
        requires
            index < self.spec_used_len(),
        ensures
            r == self.spec_words()[index as int],
    {
        proof {
            use_type_invariant(self);
        }
        self.segment.get(index)
    }

    /// Replaces the word at `index` of the used prefix of an owned segment.
    pub fn set_word(&mut self, index: usize, w: Word)
        requires
            old(self).spec_state() is Used,
            index < old(self).spec_used_len(),
        ensures
            final(self).spec_words() == old(self).spec_words().update(index as int, w),
            final(self).spec_state() == old(self).spec_state(),
            final(self).spec_id() == old(self).spec_id(),
        no_unwind
    {
        proof {
            use_type_invariant(&*self);
        }
        let ghost before = self.segment@;
        let ghost n = self.spec_used_len();
        proof {
            assert(before.update(index as int, w).subrange(n, before.len() as int) =~= before.subrange(
                n,
                before.len() as int,
            ));
        }
        self.segment.set(index, w);
    }

    /// Takes the segment out of the arena segment.
    pub fn into_segment(self) -> (r: Segment)
        ensures
            r@ == self.spec_words(),
    {
        self.segment
    }
}

} // verus!

verus! {

/// The used words of each arena segment.
pub open spec fn used_segments(segs: Seq<ArenaSegment>) -> Seq<Seq<Word>> {
    Seq::new(segs.len(), |i: int| segs[i].spec_used())
}

/// What an allocation of `size` words did to an arena: the segments that were there keep their
/// words, ids and, but for the one allocated in, their state; the allocation lies at the end of
/// the used prefix of its segment, which is an owned segment, and its words are zero.
pub open spec fn allocated(
    before: Seq<ArenaSegment>,
    after: Seq<ArenaSegment>,
    size: int,
    r: Option<(SegmentOffset, SegmentId)>,
) -> bool {
    match r {
        None => after == before,
        Some((off, id)) => {
            &&& before.len() <= after.len()
            &&& id < after.len()
            &&& forall|i: int|
                0 <= i < before.len() ==> #[trigger] after[i].spec_words() == before[i].spec_words()
                    && after[i].spec_id() == before[i].spec_id()
            &&& forall|i: int|
                0 <= i < before.len() && i != id ==> #[trigger] after[i].spec_state()
                    == before[i].spec_state()
            &&& forall|i: int|
                before.len() <= i < after.len() ==> i == id && #[trigger] after[i].spec_id() == i
            &&& after[id as int].spec_state() is Used
            &&& after[id as int].spec_used_len() == off@ + size
            &&& id < before.len() ==> off@ == before[id as int].spec_used_len()
            &&& id >= before.len() ==> off@ == 0
            &&& all_zero(after[id as int].spec_words().subrange(off@ as int, off@ + size))
        },
    }
}

/// Whether segment `id` of an arena is owned and has room for `len` more words after its used
/// part.
pub open spec fn has_room(arena: Seq<ArenaSegment>, id: SegmentId, len: int) -> bool {
    &&& id < arena.len()
    &&& arena[id as int].spec_state() is Used
    &&& arena[id as int].spec_used_len() + len <= arena[id as int].spec_words().len()
}

/// An arena of segments in which objects can be allocated and written.
pub trait BuildArena {
    /// The segments of the arena, by id.
    spec fn spec_arena(&self) -> Seq<ArenaSegment>;

    /// The segment in which `allocate` tries first to place what it allocates.
    spec fn spec_alloc_segment(&self) -> SegmentId;

    /// Whether the arena is in a consistent state.
    spec fn inv(&self) -> bool;

    /// The used part of each segment lies in the segment, and segments fit the largest
    /// segment length.
    proof fn lemma_used_fits(&self)
        requires
            self.inv(),
        ensures
            forall|i: int| 0 <= i < self.spec_arena().len() ==> #[trigger] self.spec_arena()[i].spec_used_len() <= self.spec_arena()[i].spec_words().len(),
            forall|i: int| 0 <= i < self.spec_arena().len() ==> #[trigger] self.spec_arena()[i].spec_words().len() <= u29_max(),
    ;

    /// Allocates `min_size` words in one of the arena's segments, adding a segment if need be.
    fn allocate(&mut self, min_size: AllocLen) -> (r: Option<(SegmentOffset, SegmentId)>)
        requires
            old(self).inv(),
            old(self).spec_arena().len() > 0,
        ensures
            final(self).inv(),
            allocated(old(self).spec_arena(), final(self).spec_arena(), min_size@ as int, r),
            has_room(old(self).spec_arena(), old(self).spec_alloc_segment(), min_size@ as int) ==> (r matches Some((_, id))
                && id == old(self).spec_alloc_segment()),
    ;

    /// Extends the used prefix of the owned segment `id` by `len` words, if they fit in it.
    fn try_use_len(&mut self, id: SegmentId, len: AllocLen) -> (r: Option<SegmentOffset>)
        requires
            old(self).inv(),
            id < old(self).spec_arena().len(),
            old(self).spec_arena()[id as int].spec_state() is Used,
        ensures
            final(self).inv(),
            allocated(
                old(self).spec_arena(),
                final(self).spec_arena(),
                len@ as int,
                match r {
                    Some(off) => Some((off, id)),
                    None => None,
                },
            ),
            r is Some <==> has_room(old(self).spec_arena(), id, len@ as int),
            final(self).spec_alloc_segment() == old(self).spec_alloc_segment(),
    ;

    /// The segment with the given id, if there is one.
    fn segment(&self, id: SegmentId) -> (r: Option<&ArenaSegment>)
        ensures
            r is Some <==> id < self.spec_arena().len(),
            r matches Some(s) ==> *s == self.spec_arena()[id as int],
    ;

    /// Replaces a word in the used part of an owned segment.
    fn set_word(&mut self, id: SegmentId, index: usize, w: Word)
        requires
            old(self).inv(),
            id < old(self).spec_arena().len(),
            old(self).spec_arena()[id as int].spec_state() is Used,
            index < old(self).spec_arena()[id as int].spec_used_len(),
        ensures
            final(self).inv(),
            final(self).spec_arena().len() == old(self).spec_arena().len(),
            final(self).spec_arena()[id as int].spec_words() == old(self).spec_arena()[id as int].spec_words().update(index as int, w),
            final(self).spec_arena()[id as int].spec_state() == old(self).spec_arena()[id as int].spec_state(),
            final(self).spec_arena()[id as int].spec_id() == old(self).spec_arena()[id as int].spec_id(),
            forall|i: int|
                0 <= i < old(self).spec_arena().len() && i != id ==> #[trigger] final(self).spec_arena()[i] == old(self).spec_arena()[i],
            final(self).spec_alloc_segment() == old(self).spec_alloc_segment(),
    ;

    /// The number of segments.
    fn len(&self) -> (r: u32)
        requires
            self.inv(),
        ensures
            r == self.spec_arena().len(),
    ;

    /// The number of used words in all the segments.
    fn size_in_words(&self) -> (r: usize)
        requires
            self.inv(),
        ensures
            r == total_len(used_segments(self.spec_arena())),
    ;
}

} // verus!

verus! {

/// The sum of the used lengths of a sequence of arena segments is at most the sum of their
/// lengths.
proof fn lemma_used_within(segs: Seq<ArenaSegment>)
    requires
        forall|i: int| 0 <= i < segs.len() ==> #[trigger] segs[i].spec_used_len() <= segs[i].spec_words().len(),
    ensures
        total_len(used_segments(segs)) <= total_len(Seq::new(segs.len(), |i: int| segs[i].spec_words())),
    decreases segs.len(),
{
    if segs.len() > 0 {
        let init = segs.drop_last();
        lemma_used_within(init);
        assert(used_segments(segs).drop_last() =~= used_segments(init));
        assert(Seq::new(segs.len(), |i: int| segs[i].spec_words()).drop_last() =~= Seq::new(
            init.len(),
            |i: int| init[i].spec_words(),
        ));
    }
}

/// An arena that grows by asking its allocator for new segments.
///
/// The first segment, the root, is allocated on demand. Segment `i` has id `i`.
pub struct Arena<A> {
    segments: Vec<ArenaSegment>,
    last_owned: SegmentId,
    words: usize,
    alloc: A,
}

/// The largest number of segments an arena holds.
pub open spec fn max_segments() -> int {
    u32::MAX - 1
}

impl<A> Arena<A> {
    /// The segments of the arena, by id.
    pub closed spec fn spec_segments_of(&self) -> Seq<ArenaSegment> {
        self.segments@
    }

    /// The allocator.
    pub closed spec fn spec_alloc(&self) -> A {
        self.alloc
    }

    /// The owned segment that was added last, in which allocation is tried first.
    pub closed spec fn spec_last_owned(&self) -> SegmentId {
        self.last_owned
    }

    /// Segment ids match their place, the last owned segment is an owned segment, and all the
    /// words fit in memory.
    pub closed spec fn inv(&self) -> bool {
        &&& self.segments@.len() <= max_segments() + 1
        &&& forall|i: int| 0 <= i < self.segments@.len() ==> #[trigger] self.segments@[i].spec_id() == i
        &&& self.segments@.len() > 0 ==> {
            &&& self.last_owned < self.segments@.len()
            &&& self.segments@[self.last_owned as int].spec_state() is Used
        }
        &&& self.words == total_len(Seq::new(self.segments@.len(), |i: int| self.segments@[i].spec_words()))
        &&& forall|i: int| 0 <= i < self.segments@.len() ==> #[trigger] self.segments@[i].spec_used_len() <= self.segments@[i].spec_words().len()
        &&& forall|i: int| 0 <= i < self.segments@.len() ==> #[trigger] self.segments@[i].spec_words().len() <= u29_max()
    }

    /// An arena with no segments, allocating with `alloc`.
    pub fn new(alloc: A) -> (r: Self)
        ensures
            r.inv(),
            r.spec_segments_of().len() == 0,
            r.spec_alloc() == alloc,
    {
        let r = Arena { segments: Vec::new(), last_owned: 0, words: 0, alloc };
        assert(Seq::new(r.segments@.len(), |i: int| r.segments@[i].spec_words()) =~= Seq::empty());
        r
    }

    /// The root segment, if it was allocated.
    pub fn root(&self) -> (r: Option<&ArenaSegment>)
        ensures
            r is Some <==> self.spec_segments_of().len() > 0,
            r matches Some(s) ==> *s == self.spec_segments_of()[0],
    {
        if self.segments.len() > 0 {
            Some(&self.segments[0])
        } else {
            None
        }
    }

    /// The segment with the given id.
    pub fn segment(&self, id: SegmentId) -> (r: Option<&ArenaSegment>)
        ensures
            r is Some <==> id < self.spec_segments_of().len(),
            r matches Some(s) ==> *s == self.spec_segments_of()[id as int],
    {
        if (id as usize) < self.segments.len() {
            Some(&self.segments[id as usize])
        } else {
            None
        }
    }

    /// The number of segments.
    pub fn len(&self) -> (r: u32)
        requires
            self.inv(),
        ensures
            r == self.spec_segments_of().len(),
    {
        self.segments.len() as u32
    }

    /// The number of used words in all the segments.
    pub fn size_in_words(&self) -> (r: usize)
        requires
            self.inv(),
        ensures
            r == total_len(used_segments(self.spec_segments_of())),
    {
        proof {
            lemma_used_within(self.segments@);
        }
        let ghost segs = self.segments@;
        let mut sum: usize = 0;
        let mut i: usize = 0;
        while i < self.segments.len()
            invariant
                i <= segs.len(),
                segs == self.segments@,
                sum == total_len(used_segments(segs.subrange(0, i as int))),
                total_len(used_segments(segs)) <= usize::MAX,
                forall|j: int| 0 <= j < segs.len() ==> #[trigger] segs[j].spec_used_len() <= segs[j].spec_words().len(),
            decreases segs.len() - i,
        {
            proof {
                lemma_total_len_prefix_bound(used_segments(segs), i as int + 1);
                assert(used_segments(segs.subrange(0, i as int + 1)).drop_last() =~= used_segments(
                    segs.subrange(0, i as int),
                ));
                assert(used_segments(segs.subrange(0, i as int + 1)) =~= used_segments(segs).subrange(0, i as int + 1));
            }
            let n = self.segments[i].used_len().get() as usize;
            proof {
                let x = used_segments(segs.subrange(0, i as int + 1));
                assert(x.last().len() == n);
            }
            sum = sum + n;
            i = i + 1;
        }
        assert(segs.subrange(0, segs.len() as int) =~= segs);
        sum
    }
}

/// A prefix of a sequence of segments holds no more words than the whole.
proof fn lemma_total_len_prefix_bound(segs: Seq<Seq<Word>>, n: int)
    requires
        0 <= n <= segs.len(),
    ensures
        total_len(segs.subrange(0, n)) <= total_len(segs),
    decreases segs.len(),
{
    if n < segs.len() {
        lemma_total_len_prefix_bound(segs.drop_last(), n);
        assert(segs.drop_last().subrange(0, n) =~= segs.subrange(0, n));
    } else {
        assert(segs.subrange(0, n) =~= segs);
    }
}

} // verus!

verus! {

impl<A: Alloc> Arena<A> {
    /// Removes all the segments, handing each back to the allocator, first to last.
    pub fn clear(&mut self)
        ensures
            final(self).inv(),
            final(self).spec_segments_of().len() == 0,
    {
        let mut segments = Vec::new();
        std::mem::swap(&mut segments, &mut self.segments);
        while segments.len() > 0
            invariant
                self.segments@.len() == 0,
            decreases segments.len(),
        {
            let s = segments.remove(0);
            self.alloc.dealloc(s.into_segment());
        }
        self.last_owned = 0;
        self.words = 0;
        assert(Seq::new(self.segments@.len(), |i: int| self.segments@[i].spec_words()) =~= Seq::empty());
    }

    /// Allocates the root segment, if there is none yet. Returns whether the arena has a root.
    pub fn alloc_root(&mut self) -> (r: bool)
        requires
            old(self).inv(),
        ensures
            final(self).inv(),
            r == (final(self).spec_segments_of().len() > 0),
            old(self).spec_segments_of().len() > 0 ==> final(self).spec_segments_of() == old(self).spec_segments_of(),
            old(self).spec_segments_of().len() == 0 && r ==> {
                &&& final(self).spec_segments_of().len() == 1
                &&& final(self).spec_segments_of()[0].spec_used_len() == 1
                &&& final(self).spec_segments_of()[0].spec_state() is Used
                &&& all_zero(final(self).spec_segments_of()[0].spec_words().subrange(0, 1))
                &&& crate::allocator::word_is_zero(final(self).spec_segments_of()[0].spec_words()[0])
                &&& final(self).spec_segments_of()[0].spec_words().len() >= 1
            },
    {
        if self.segments.len() > 0 {
            return true;
        }
        let one = NonZeroU29::minimum();
        match self.alloc.allocate(one) {
            Some(segment) => {
                let n = segment.len().get() as usize;
                proof {
                    assert(segment@.subrange(1, segment@.len() as int) =~= segment@.subrange(1, segment@.len() as int));
                    assert forall|i: int| 0 <= i < segment@.len() - 1 implies crate::allocator::word_is_zero(
                        #[trigger] segment@.subrange(1, segment@.len() as int)[i]) by {
                        assert(segment@.subrange(1, segment@.len() as int)[i] == segment@[i + 1]);
                    }
                    assert forall|i: int| 0 <= i < 1 implies crate::allocator::word_is_zero(
                        #[trigger] segment@.subrange(0, 1)[i]) by {
                        assert(segment@.subrange(0, 1)[i] == segment@[i]);
                    }
                }
                let seg = ArenaSegment::new(segment, one, 0);
                self.segments.push(seg);
                self.last_owned = 0;
                self.words = n;
                proof {
                    let s = self.segments@;
                    let ws = Seq::new(s.len(), |i: int| s[i].spec_words());
                    assert(ws =~= Seq::<Seq<Word>>::empty().push(s[0].spec_words()));
                    lemma_total_len_push(Seq::<Seq<Word>>::empty(), s[0].spec_words());
                }
                true
            },
            None => false,
        }
    }
}

} // verus!

verus! {

impl<A: Alloc> BuildArena for Arena<A> {
    open spec fn spec_arena(&self) -> Seq<ArenaSegment> {
        self.spec_segments_of()
    }

    open spec fn spec_alloc_segment(&self) -> SegmentId {
        self.spec_last_owned()
    }

    open spec fn inv(&self) -> bool {
        Arena::<A>::inv(self)
    }

    proof fn lemma_used_fits(&self) {
    }

    fn allocate(&mut self, min_size: AllocLen) -> (r: Option<(SegmentOffset, SegmentId)>) {
        let lo = self.last_owned as usize;
        let ghost before0 = self.segments@;
        let used = self.segments[lo].try_use_len(min_size);
        proof {
            let s = self.segments@;
            lemma_total_len_same_lens(
                Seq::new(s.len(), |i: int| s[i].spec_words()),
                Seq::new(before0.len(), |i: int| before0[i].spec_words()),
            );
        }
        if let Some(off) = used {
            return Some((off, self.last_owned));
        }
        assert(self.segments@ =~= before0);
        if self.segments.len() - 1 >= 4294967294usize {
            return None;
        }
        let id = self.segments.len() as u32;
        match self.alloc.allocate(min_size) {
            None => None,
            Some(segment) => {
                let n = segment.len().get() as usize;
                if n > usize::MAX - self.words {
                    return None;
                }
                proof {
                    assert forall|i: int| 0 <= i < segment@.len() - min_size@ implies crate::allocator::word_is_zero(
                        #[trigger] segment@.subrange(min_size@ as int, segment@.len() as int)[i]) by {
                        assert(segment@.subrange(min_size@ as int, segment@.len() as int)[i] == segment@[i + min_size@]);
                    }
                    assert forall|i: int| 0 <= i < min_size@ implies crate::allocator::word_is_zero(
                        #[trigger] segment@.subrange(0, min_size@ as int)[i]) by {
                        assert(segment@.subrange(0, min_size@ as int)[i] == segment@[i]);
                    }
                }
                let ghost before = self.segments@;
                let seg = ArenaSegment::new(segment, min_size, id);
                self.segments.push(seg);
                self.last_owned = id;
                proof {
                    let s = self.segments@;
                    assert(Seq::new(s.len(), |i: int| s[i].spec_words()) =~= Seq::new(
                        before.len(),
                        |i: int| before[i].spec_words(),
                    ).push(s[id as int].spec_words()));
                    lemma_total_len_push(Seq::new(before.len(), |i: int| before[i].spec_words()), s[id as int].spec_words());
                }
                self.words = self.words + n;
                Some((u29::zero(), id))
            },
        }
    }

    fn try_use_len(&mut self, id: SegmentId, len: AllocLen) -> (r: Option<SegmentOffset>) {
        let ghost before = self.segments@;
        let used = self.segments[id as usize].try_use_len(len);
        proof {
            let s = self.segments@;
            lemma_total_len_same_lens(
                Seq::new(s.len(), |i: int| s[i].spec_words()),
                Seq::new(before.len(), |i: int| before[i].spec_words()),
            );
        }
        if used.is_none() {
            assert(self.segments@ =~= before);
        }
        used
    }

    fn segment(&self, id: SegmentId) -> (r: Option<&ArenaSegment>) {
        Arena::<A>::segment(self, id)
    }

    fn set_word(&mut self, id: SegmentId, index: usize, w: Word) {
        let ghost before = self.segments@;
        self.segments[id as usize].set_word(index, w);
        proof {
            let s = self.segments@;
            lemma_total_len_same_lens(
                Seq::new(s.len(), |i: int| s[i].spec_words()),
                Seq::new(before.len(), |i: int| before[i].spec_words()),
            );
        }
    }

    fn len(&self) -> (r: u32) {
        Arena::<A>::len(self)
    }

    fn size_in_words(&self) -> (r: usize) {
        Arena::<A>::size_in_words(self)
    }
}

impl<A: Alloc> ReadArena for Arena<A> {
    open spec fn spec_segments(&self) -> Seq<Seq<Word>> {
        used_segments(self.spec_segments_of())
    }

    open spec fn read_inv(&self) -> bool {
        Arena::<A>::inv(self)
    }

    proof fn lemma_segments_fit(&self) {
        lemma_used_within(self.spec_segments_of());
        let u = used_segments(self.spec_segments_of());
        assert forall|i: int| 0 <= i < u.len() implies #[trigger] u[i].len() <= u29_max() by {
            assert(self.spec_segments_of()[i].spec_words().len() <= u29_max());
        }
    }

    fn segment(&self, id: SegmentId) -> (r: Option<&[Word]>) {
        match Arena::<A>::segment(self, id) {
            Some(s) => Some(s.used_segment()),
            None => None,
        }
    }

    fn size_in_words(&self) -> (r: usize) {
        Arena::<A>::size_in_words(self)
    }
}

} // verus!

verus! {

/// The words of a segment and its id.
#[derive(Clone, Copy, Debug)]
pub struct SegmentWithId<'a> {
    pub data: &'a [Word],
    pub id: SegmentId,
}

impl<'a> SegmentWithId<'a> {
    /// The words of the segment.
    pub fn segment(&self) -> (r: &'a [Word])
        ensures
            r@ == self.data@,
    {
        self.data
    }
}

} // verus!

verus! {

impl<A: Alloc> Arena<A> {
    /// An arena is read as the used words of its segments.
    pub proof fn lemma_reads_as_built(&self)
        requires
            self.inv(),
        ensures
            crate::ptr::reads_as_built(self),
    {
    }
}

} // verus!
