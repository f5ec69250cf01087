//! Clearing a pointer of a message being built: the pointer becomes null and the objects it
//! refers to, directly or through other pointers, are zeroed.

use vstd::prelude::*;
use crate::allocator::{Word, word_is_zero, SegmentRef};
use crate::arena::{ArenaSegment, BuildArena, ReadArena, SegmentId, used_segments, total_len};
use crate::num::{u29, u29_max};
use crate::ptr::{ObjectReader, SegmentReader, TypedContent, TypedRead, ElementSize, WirePtr, PtrBuilder, ReadState, Parts, WireKind, writable, parts_null, parts_of, spec_read_typed, spec_bits, kind_of, region_writable, all_zero_in};

verus! {

/// The number of words of a sequence that are not zero.
pub open spec fn nonzero_words(ws: Seq<Word>) -> nat
    decreases ws.len(),
{
    if ws.len() == 0 {
        0
    } else {
        nonzero_words(ws.drop_last()) + if word_is_zero(ws.last()) {
            0nat
        } else {
            1nat
        }
    }
}

/// The number of words of an arena's segments that are not zero.
pub open spec fn nonzero_in(a: Seq<ArenaSegment>) -> nat
    decreases a.len(),
{
    if a.len() == 0 {
        0
    } else {
        nonzero_in(a.drop_last()) + nonzero_words(a.last().spec_words())
    }
}

/// Whether `w` is `v` or zero.
pub open spec fn kept_or_zero(v: Word, w: Word) -> bool {
    w == v || word_is_zero(w)
}

/// Whether `after` is `before` with some words set to zero: the same segments, with the same
/// ids, states and lengths, each word either kept or zero.
pub open spec fn zeroed_from(before: Seq<ArenaSegment>, after: Seq<ArenaSegment>) -> bool {
    &&& after.len() == before.len()
    &&& forall|i: int| 0 <= i < before.len() ==> #[trigger] after[i].spec_id() == before[i].spec_id()
    &&& forall|i: int| 0 <= i < before.len() ==> #[trigger] after[i].spec_state() == before[i].spec_state()
    &&& forall|i: int| 0 <= i < before.len() ==> #[trigger] after[i].spec_words().len() == before[i].spec_words().len()
    &&& forall|i: int, k: int|
        0 <= i < before.len() && 0 <= k < before[i].spec_words().len() ==> kept_or_zero(
            before[i].spec_words()[k],
            #[trigger] after[i].spec_words()[k],
        )
}

/// An arena is itself with no word zeroed.
pub proof fn lemma_zeroed_refl(a: Seq<ArenaSegment>)
    ensures
        zeroed_from(a, a),
{
}

proof fn lemma_zeroed_trans(a: Seq<ArenaSegment>, b: Seq<ArenaSegment>, c: Seq<ArenaSegment>)
    requires
        zeroed_from(a, b),
        zeroed_from(b, c),
    ensures
        zeroed_from(a, c),
{
    assert forall|i: int, k: int| 0 <= i < a.len() && 0 <= k < a[i].spec_words().len() implies kept_or_zero(
        a[i].spec_words()[k],
        #[trigger] c[i].spec_words()[k],
    ) by {
        assert(kept_or_zero(a[i].spec_words()[k], b[i].spec_words()[k]));
        assert(kept_or_zero(b[i].spec_words()[k], c[i].spec_words()[k]));
    }
}

/// Words that are kept or zeroed are no more often nonzero, and less often where one of them was
/// zeroed.
proof fn lemma_nonzero_words(a: Seq<Word>, b: Seq<Word>, k: int)
    requires
        a.len() == b.len(),
        forall|j: int| 0 <= j < a.len() ==> kept_or_zero(a[j], #[trigger] b[j]),
    ensures
        nonzero_words(b) <= nonzero_words(a),
        0 <= k < a.len() && !word_is_zero(a[k]) && word_is_zero(b[k]) ==> nonzero_words(b) < nonzero_words(a),
    decreases a.len(),
{
    if a.len() > 0 {
        let n = a.len() - 1;
        assert forall|j: int| 0 <= j < n implies kept_or_zero(a.drop_last()[j], #[trigger] b.drop_last()[j]) by {
            assert(kept_or_zero(a[j], b[j]));
        }
        assert(kept_or_zero(a[n], b[n]));
        lemma_nonzero_words(a.drop_last(), b.drop_last(), k);
    }
}

/// An arena with some words zeroed has no more nonzero words, and fewer where a nonzero word
/// was zeroed.
proof fn lemma_nonzero_in(a: Seq<ArenaSegment>, b: Seq<ArenaSegment>, id: int, k: int)
    requires
        zeroed_from(a, b),
    ensures
        nonzero_in(b) <= nonzero_in(a),
        0 <= id < a.len() && 0 <= k < a[id].spec_words().len() && !word_is_zero(a[id].spec_words()[k])
            && word_is_zero(b[id].spec_words()[k]) ==> nonzero_in(b) < nonzero_in(a),
    decreases a.len(),
{
    if a.len() > 0 {
        let n = a.len() - 1;
        let a0 = a.drop_last();
        let b0 = b.drop_last();
        assert forall|i: int| 0 <= i < a0.len() implies #[trigger] b0[i].spec_id() == a0[i].spec_id() by {
            assert(b[i].spec_id() == a[i].spec_id());
        }
        assert forall|i: int| 0 <= i < a0.len() implies #[trigger] b0[i].spec_state() == a0[i].spec_state() by {
            assert(b[i].spec_state() == a[i].spec_state());
        }
        assert forall|i: int| 0 <= i < a0.len() implies #[trigger] b0[i].spec_words().len() == a0[i].spec_words().len() by {
            assert(b[i].spec_words().len() == a[i].spec_words().len());
        }
        assert forall|i: int, j: int| 0 <= i < a0.len() && 0 <= j < a0[i].spec_words().len() implies kept_or_zero(
            a0[i].spec_words()[j],
            #[trigger] b0[i].spec_words()[j],
        ) by {
            assert(kept_or_zero(a[i].spec_words()[j], b[i].spec_words()[j]));
        }
        lemma_nonzero_in(a0, b0, id, k);
        assert(b[n].spec_words().len() == a[n].spec_words().len());
        assert forall|j: int| 0 <= j < a[n].spec_words().len() implies kept_or_zero(
            a[n].spec_words()[j],
            #[trigger] b[n].spec_words()[j],
        ) by {}
        lemma_nonzero_words(a[n].spec_words(), b[n].spec_words(), k);
    }
}

/// A word whose bytes are all zero is a null pointer.
proof fn lemma_zero_word_null(w: Word)
    requires
        word_is_zero(w),
    ensures
        parts_null(parts_of(w)),
{
    assert(w.0@[0] == 0 && w.0@[1] == 0 && w.0@[2] == 0 && w.0@[3] == 0);
    assert(w.0@[4] == 0 && w.0@[5] == 0 && w.0@[6] == 0 && w.0@[7] == 0);
}

/// Whether every byte of a word is zero.
pub(crate) fn is_zero_word(w: Word) -> (r: bool)
    ensures
        r == word_is_zero(w),
{
    let mut i: usize = 0;
    while i < 8
        invariant
            0 <= i <= 8,
            forall|j: int| 0 <= j < i ==> w.0@[j] == 0,
        decreases 8 - i,
    {
        if w.0[i] != 0 {
            return false;
        }
        i = i + 1;
    }
    true
}

/// The used words of an arena being built, read as an arena.
struct BuiltView<'a, B: BuildArena + ?Sized> {
    arena: &'a B,
}

impl<'a, B: BuildArena + ?Sized> BuiltView<'a, B> {
    fn new(arena: &'a B) -> (r: Self)
        requires
            arena.inv(),
        ensures
            r.read_inv(),
            r.spec_segments() == used_segments(arena.spec_arena()),
    {
        let _n = arena.size_in_words();
        let _m = arena.len();
        BuiltView { arena }
    }
}

impl<'a, B: BuildArena + ?Sized> ReadArena for BuiltView<'a, B> {
    closed spec fn spec_segments(&self) -> Seq<Seq<Word>> {
        used_segments(self.arena.spec_arena())
    }

    closed spec fn read_inv(&self) -> bool {
        &&& self.arena.inv()
        &&& total_len(used_segments(self.arena.spec_arena())) <= usize::MAX
        &&& self.arena.spec_arena().len() <= u32::MAX
    }

    proof fn lemma_segments_fit(&self) {
        self.arena.lemma_used_fits();
        let segs = used_segments(self.arena.spec_arena());
        assert forall|i: int| 0 <= i < segs.len() implies #[trigger] segs[i].len() <= u29_max() by {
            assert(self.arena.spec_arena()[i].spec_used_len() <= self.arena.spec_arena()[i].spec_words().len());
        }
    }

    fn segment(&self, id: SegmentId) -> (r: Option<&[Word]>) {
        match self.arena.segment(id) {
            Some(s) => Some(s.used_segment()),
            None => None,
        }
    }

    fn size_in_words(&self) -> (r: usize) {
        self.arena.size_in_words()
    }
}

/// Where an object that a pointer refers to lies, as plain numbers: its words, and the runs of
/// pointers in it, `count` runs of `per` pointers, run `e` starting at `ptrs_at + e * stride`.
struct Found {
    seg: SegmentId,
    start: u64,
    len: u64,
    ptrs_at: u64,
    stride: u64,
    per: u64,
    count: u64,
}

/// Finds the object the pointer at `pos` of segment `seg` refers to, reading the used words of
/// the arena with no limit.
fn locate<B: BuildArena + ?Sized>(arena: &B, seg: SegmentId, pos: u32) -> (r: Option<Found>)
    requires
        arena.inv(),
        seg < arena.spec_arena().len(),
        pos < arena.spec_arena()[seg as int].spec_used_len(),
    ensures
        match spec_read_typed(used_segments(arena.spec_arena()), ReadState { segment: seg, limit: None }, pos as int) {
            Ok((st, TypedRead::Struct { start, size })) => r matches Some(f) && f.seg == st.segment && f.start == start
                && f.len == size.data + size.ptrs && f.ptrs_at == start + size.data && f.per == size.ptrs && f.count == 1,
            Ok((st, TypedRead::List { start, size, count })) => match size {
                ElementSize::InlineComposite(es) => if start == 0 {
                    r is None
                } else {
                    r matches Some(f) && f.seg == st.segment && f.start == start - 1 && f.len == count * (es.data + es.ptrs) + 1
                        && f.ptrs_at == start + es.data && f.stride == es.data + es.ptrs && f.per == es.ptrs && f.count == count
                },
                ElementSize::Pointer => r matches Some(f) && f.seg == st.segment && f.start == start && f.len == count
                    && f.ptrs_at == start && f.stride == 1 && f.per == 1 && f.count == count,
                _ => r matches Some(f) && f.seg == st.segment && f.start == start && f.len == (spec_bits(size) * count + 63) / 64
                    && f.count == 0,
            },
            _ => r is None,
        },
{
    proof {
        arena.lemma_used_fits();
    }
    let view = BuiltView::new(arena);
    let sr = SegmentReader::from_source(&view, seg).unwrap();
    let mut rd = ObjectReader::new(sr, None);
    let at = SegmentRef::new_unchecked(u29::new(pos).unwrap());
    match rd.try_read_typed(at) {
        Ok(TypedContent::Struct(c)) => {
            let start = c.ptr.as_ptr() as u64;
            let data = c.size.data as u64;
            let ptrs = c.size.ptrs as u64;
            Some(Found { seg: rd.segment_reader().id(), start, len: data + ptrs, ptrs_at: start + data, stride: 0, per: ptrs, count: 1 })
        },
        Ok(TypedContent::List(l)) => {
            let start = l.ptr.as_ptr() as u64;
            let count = l.element_count.get() as u64;
            let id = rd.segment_reader().id();
            match l.element_size {
                ElementSize::InlineComposite(size) => {
                    let data = size.data as u64;
                    let total = data + size.ptrs as u64;
                    if start == 0 {
                        return None;
                    }
                    Some(Found { seg: id, start: start - 1, len: count * total + 1, ptrs_at: start + data, stride: total, per: size.ptrs as u64, count })
                },
                ElementSize::Pointer => Some(Found { seg: id, start, len: count, ptrs_at: start, stride: 1, per: 1, count }),
                other => Some(Found { seg: id, start, len: other.total_words(l.element_count) as u64, ptrs_at: start, stride: 0, per: 0, count: 0 }),
            }
        },
        _ => None,
    }
}

/// Whether word `at` of segment `seg` can be written, checked on the arena.
fn can_write<B: BuildArena + ?Sized>(arena: &B, seg: SegmentId, at: u64) -> (r: bool)
    requires
        arena.inv(),
    ensures
        r == writable(arena.spec_arena(), seg, at as int),
{
    proof {
        arena.lemma_used_fits();
    }
    match arena.segment(seg) {
        None => false,
        Some(s) => !s.is_read_only() && at < s.used_len().get() as u64,
    }
}

/// Sets word `at` of segment `seg` to zero, where it can be written.
fn zero_word<B: BuildArena + ?Sized>(arena: &mut B, seg: SegmentId, at: u64)
    requires
        old(arena).inv(),
    ensures
        final(arena).inv(),
        zeroed_from(old(arena).spec_arena(), final(arena).spec_arena()),
        final(arena).spec_alloc_segment() == old(arena).spec_alloc_segment(),
        writable(old(arena).spec_arena(), seg, at as int) ==> word_is_zero(final(arena).spec_arena()[seg as int].spec_words()[at as int]),
{
    proof {
        arena.lemma_used_fits();
    }
    if !can_write(&*arena, seg, at) {
        proof {
            lemma_zeroed_refl(arena.spec_arena());
        }
        return;
    }
    let ghost before = arena.spec_arena();
    arena.set_word(seg, at as usize, Word::null());
    proof {
        let after = arena.spec_arena();
        assert forall|i: int, k: int| 0 <= i < before.len() && 0 <= k < before[i].spec_words().len() implies kept_or_zero(
            before[i].spec_words()[k],
            #[trigger] after[i].spec_words()[k],
        ) by {
            if i != seg {
                assert(after[i] == before[i]);
            }
        }
        assert forall|i: int| 0 <= i < before.len() implies #[trigger] after[i].spec_id() == before[i].spec_id() by {
            if i != seg {
                assert(after[i] == before[i]);
            }
        }
        assert forall|i: int| 0 <= i < before.len() implies #[trigger] after[i].spec_state() == before[i].spec_state() by {
            if i != seg {
                assert(after[i] == before[i]);
            }
        }
        assert forall|i: int| 0 <= i < before.len() implies #[trigger] after[i].spec_words().len() == before[i].spec_words().len() by {
            if i != seg {
                assert(after[i] == before[i]);
            }
        }
    }
}

/// The words of the object that the pointer at `pos` of segment `seg` refers to, read with no
/// limit: its segment, where its words start and how many there are (a struct's sections; a
/// list's elements, with the tag of a list of structs). `None` where the pointer cannot be read
/// or refers to a capability.
pub open spec fn object_of(segs: Seq<Seq<Word>>, seg: SegmentId, pos: int) -> Option<(SegmentId, int, int)> {
    match spec_read_typed(segs, ReadState { segment: seg, limit: None }, pos) {
        Ok((st, TypedRead::Struct { start, size })) => Some((st.segment, start, size.data + size.ptrs)),
        Ok((st, TypedRead::List { start, size, count })) => match size {
            ElementSize::InlineComposite(es) => if start == 0 {
                None
            } else {
                Some((st.segment, start - 1, count * (es.data + es.ptrs) + 1))
            },
            ElementSize::Pointer => Some((st.segment, start, count)),
            _ => Some((st.segment, start, (spec_bits(size) * count + 63) / 64)),
        },
        _ => None,
    }
}

/// Whether the landing pads that a far pointer `p` names are zero in `after`, where they could
/// be written in `before`.
pub open spec fn pads_zeroed(before: Seq<ArenaSegment>, after: Seq<ArenaSegment>, p: Parts) -> bool {
    kind_of(p.lower) == WireKind::Far ==> {
        &&& writable(before, p.upper, (p.lower / 8) as int) ==> word_is_zero(after[p.upper as int].spec_words()[(p.lower / 8) as int])
        &&& (p.lower / 4) % 2 == 1 && writable(before, p.upper, p.lower / 8 + 1) ==> word_is_zero(
            after[p.upper as int].spec_words()[p.lower / 8 + 1],
        )
    }
}

/// Whether the object that the pointer at `pos` of segment `seg` of `before` refers to is zero in
/// `after`, where all its words could be written.
pub open spec fn object_zeroed(before: Seq<ArenaSegment>, after: Seq<ArenaSegment>, seg: SegmentId, pos: int) -> bool {
    match object_of(used_segments(before), seg, pos) {
        Some((s, a, n)) => region_writable(before, s, a, n) ==> all_zero_in(after, s, a, n),
        None => true,
    }
}

/// A null pointer refers to no words, and names no landing pads.
proof fn lemma_null_object(a: Seq<ArenaSegment>, seg: SegmentId, pos: int)
    requires
        writable(a, seg, pos),
        a[seg as int].spec_used_len() <= a[seg as int].spec_words().len(),
        parts_null(parts_of(a[seg as int].spec_words()[pos])),
    ensures
        object_zeroed(a, a, seg, pos),
        pads_zeroed(a, a, parts_of(a[seg as int].spec_words()[pos])),
{
    let p = parts_of(a[seg as int].spec_words()[pos]);
    assert(used_segments(a)[seg as int][pos] == a[seg as int].spec_words()[pos]);
    assert(kind_of(p.lower) == WireKind::Struct);
    if let Some((s, st, n)) = object_of(used_segments(a), seg, pos) {
        assert(n == 0);
        assert(a[s as int].spec_words().subrange(st, st + n) =~= Seq::<Word>::empty());
    }
}

/// Sets the pointer at `pos` of segment `seg` to null, with the landing pads of a far pointer,
/// and zeroes the object it referred to, after clearing in turn each pointer in that object.
/// Words of read-only segments, and objects that cannot be located, are left as they are.
#[verifier::rlimit(100)]
#[verifier::spinoff_prover]
fn clear_at<B: BuildArena + ?Sized>(arena: &mut B, seg: SegmentId, pos: u32)
    requires
        old(arena).inv(),
        writable(old(arena).spec_arena(), seg, pos as int),
    ensures
        final(arena).inv(),
        zeroed_from(old(arena).spec_arena(), final(arena).spec_arena()),
        final(arena).spec_alloc_segment() == old(arena).spec_alloc_segment(),
        word_is_zero(final(arena).spec_arena()[seg as int].spec_words()[pos as int]),
        pads_zeroed(old(arena).spec_arena(), final(arena).spec_arena(), parts_of(old(arena).spec_arena()[seg as int].spec_words()[pos as int])),
        object_zeroed(old(arena).spec_arena(), final(arena).spec_arena(), seg, pos as int),
    decreases nonzero_in(old(arena).spec_arena()),
{
    proof {
        arena.lemma_used_fits();
    }
    let ghost entry = arena.spec_arena();
    let w = arena.segment(seg).unwrap().used_segment()[pos as usize];
    if is_zero_word(w) {
        proof {
            lemma_zeroed_refl(entry);
            lemma_zero_word_null(w);
            assert(w == entry[seg as int].spec_words()[pos as int]);
            lemma_null_object(entry, seg, pos as int);
        }
        return;
    }
    let found = locate(&*arena, seg, pos);
    zero_word(arena, seg, pos as u64);
    let ghost first = arena.spec_arena();
    proof {
        lemma_nonzero_in(entry, first, seg as int, pos as int);
    }
    match WirePtr::from_word(w).far_ptr() {
        Some(far) => {
            let pad_seg = far.segment();
            let pad = far.offset().get() as u64;
            zero_word(arena, pad_seg, pad);
            if far.double_far() {
                let ghost mid = arena.spec_arena();
                zero_word(arena, pad_seg, pad + 1);
                proof {
                    lemma_zeroed_trans(first, mid, arena.spec_arena());
                    if writable(first, pad_seg, pad as int) {
                        assert(kept_or_zero(mid[pad_seg as int].spec_words()[pad as int], arena.spec_arena()[pad_seg as int].spec_words()[pad as int]));
                    }
                }
            }
        },
        None => {
            proof {
                lemma_zeroed_refl(first);
            }
        },
    }
    let ghost nulled = arena.spec_arena();
    proof {
        lemma_nonzero_in(first, nulled, 0, 0);
        assert(kept_or_zero(first[seg as int].spec_words()[pos as int], nulled[seg as int].spec_words()[pos as int]));
        lemma_zeroed_refl(nulled);
    }
    if let Some(f) = found {
        let mut e: u64 = 0;
        while e < f.count
            invariant
                arena.inv(),
                zeroed_from(nulled, arena.spec_arena()),
                nonzero_in(nulled) < nonzero_in(entry),
                entry == old(arena).spec_arena(),
                arena.spec_alloc_segment() == old(arena).spec_alloc_segment(),
            decreases f.count - e,
        {
            let run = match e.checked_mul(f.stride) {
                Some(m) => m.checked_add(f.ptrs_at),
                None => None,
            };
            if let Some(base) = run {
                let mut j: u64 = 0;
                while j < f.per
                    invariant
                        arena.inv(),
                        zeroed_from(nulled, arena.spec_arena()),
                        nonzero_in(nulled) < nonzero_in(entry),
                        entry == old(arena).spec_arena(),
                        arena.spec_alloc_segment() == old(arena).spec_alloc_segment(),
                    decreases f.per - j,
                {
                    if let Some(p) = base.checked_add(j) {
                        if can_write(&*arena, f.seg, p) {
                            let ghost cur = arena.spec_arena();
                            proof {
                                lemma_nonzero_in(nulled, cur, 0, 0);
                                arena.lemma_used_fits();
                            }
                            clear_at(arena, f.seg, p as u32);
                            proof {
                                lemma_zeroed_trans(nulled, cur, arena.spec_arena());
                            }
                        }
                    }
                    j = j + 1;
                }
            }
            e = e + 1;
        }
        let ghost before_zero = arena.spec_arena();
        let fits = match f.start.checked_add(f.len) {
            Some(end) => end == 0 || can_write(&*arena, f.seg, end - 1),
            None => false,
        };
        proof {
            lemma_zeroed_trans(entry, first, nulled);
            lemma_zeroed_trans(entry, nulled, before_zero);
        }
        if fits && f.len > 0 {
            let mut k: u64 = 0;
            while k < f.len
                invariant
                    arena.inv(),
                    zeroed_from(nulled, arena.spec_arena()),
                    zeroed_from(before_zero, arena.spec_arena()),
                    k <= f.len,
                    f.start + f.len <= u64::MAX,
                    arena.spec_alloc_segment() == old(arena).spec_alloc_segment(),
                    region_writable(arena.spec_arena(), f.seg, f.start as int, f.len as int),
                    forall|j: int| f.start <= j < f.start + k ==> word_is_zero(#[trigger] arena.spec_arena()[f.seg as int].spec_words()[j]),
                decreases f.len - k,
            {
                proof {
                    arena.lemma_used_fits();
                }
                let ghost cur = arena.spec_arena();
                zero_word(arena, f.seg, f.start + k);
                proof {
                    let nxt = arena.spec_arena();
                    lemma_zeroed_trans(nulled, cur, nxt);
                    lemma_zeroed_trans(before_zero, cur, nxt);
                    assert forall|j: int| f.start <= j < f.start + k + 1 implies word_is_zero(#[trigger] nxt[f.seg as int].spec_words()[j]) by {
                        if j < f.start + k {
                            assert(kept_or_zero(cur[f.seg as int].spec_words()[j], nxt[f.seg as int].spec_words()[j]));
                        }
                    }
                }
                k = k + 1;
            }
            proof {
                let a = arena.spec_arena();
                assert forall|i: int| 0 <= i < f.len implies crate::allocator::word_is_zero(
                    #[trigger] a[f.seg as int].spec_words().subrange(f.start as int, f.start + f.len)[i]) by {
                    assert(a[f.seg as int].spec_words().subrange(f.start as int, f.start + f.len)[i] == a[f.seg as int].spec_words()[f.start + i]);
                }
            }
        }
    }
    proof {
        let fin = arena.spec_arena();
        lemma_zeroed_trans(entry, first, nulled);
        lemma_zeroed_trans(entry, nulled, fin);
        lemma_zeroed_trans(nulled, nulled, fin);
        assert(kept_or_zero(nulled[seg as int].spec_words()[pos as int], fin[seg as int].spec_words()[pos as int]));
        let p = parts_of(entry[seg as int].spec_words()[pos as int]);
        if kind_of(p.lower) == WireKind::Far {
            if writable(entry, p.upper, (p.lower / 8) as int) {
                assert(kept_or_zero(nulled[p.upper as int].spec_words()[(p.lower / 8) as int], fin[p.upper as int].spec_words()[(p.lower / 8) as int]));
            }
            if (p.lower / 4) % 2 == 1 && writable(entry, p.upper, p.lower / 8 + 1) {
                assert(kept_or_zero(nulled[p.upper as int].spec_words()[p.lower / 8 + 1], fin[p.upper as int].spec_words()[p.lower / 8 + 1]));
            }
        }
    }
}

impl PtrBuilder {
    /// Sets the pointer to null and zeroes what it referred to: the object, the landing pads of a
    /// far pointer, and, in turn, what each pointer in the object referred to. Words of read-only
    /// segments are left as they are. The object and the landing pads are zero afterwards where
    /// they could be written; every other word is kept or zeroed.
    pub fn clear<B: BuildArena + ?Sized>(&self, arena: &mut B)
        requires
            old(arena).inv(),
            writable(old(arena).spec_arena(), self.builder.segment, self.ptr@),
        ensures
            final(arena).inv(),
            zeroed_from(old(arena).spec_arena(), final(arena).spec_arena()),
            final(arena).spec_alloc_segment() == old(arena).spec_alloc_segment(),
            word_is_zero(final(arena).spec_arena()[self.builder.segment as int].spec_words()[self.ptr@]),
            parts_null(parts_of(final(arena).spec_arena()[self.builder.segment as int].spec_words()[self.ptr@])),
            pads_zeroed(old(arena).spec_arena(), final(arena).spec_arena(), parts_of(old(arena).spec_arena()[self.builder.segment as int].spec_words()[self.ptr@])),
            object_zeroed(old(arena).spec_arena(), final(arena).spec_arena(), self.builder.segment, self.ptr@),
    {
        proof {
            arena.lemma_used_fits();
        }
        clear_at(arena, self.builder.segment, self.ptr.as_ptr());
        proof {
            lemma_zero_word_null(arena.spec_arena()[self.builder.segment as int].spec_words()[self.ptr@]);
        }
    }
}

} // verus!
