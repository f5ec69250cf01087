//! Orphans: objects of a message being built that no pointer refers to. Disowning a pointer
//! makes what it referred to an orphan and the pointer null; adopting an orphan points a pointer
//! at it again, through a landing pad where the orphan lies in another segment.

use vstd::prelude::*;
use crate::allocator::{SegmentRef, Word};
use crate::arena::{ArenaSegment, BuildArena, SegmentId, has_room, used_segments};
use crate::num::{NonZeroU29, i30, u29, u29_max};
use crate::ptr::{
    content_offset_of, kind_of, parts_null, parts_of, ptr_element_size_code, ptr_element_size_of, spec_location_of,
    is_capability_parts, struct_size_of, writable, CapabilityPtr, FarPtr, ListPtr, LocationModel, ObjectBuilder, Parts, PtrBuilder,
    PtrElementSize, ReadState, StructPtr, StructSize, WireKind, WirePtr,
};
use crate::clear::{kept_or_zero, zeroed_from};
use crate::{Error, ErrorKind};

verus! {

/// Where the content of the pointer at `src` of segment `seg` is: the segment, the position of
/// its first word, the kind bits of the pointer that describes it and that pointer's upper half.
/// A far pointer is followed to its landing pad. `None` where the pointer cannot be followed.
pub open spec fn spec_content_of(segs: Seq<Seq<Word>>, seg: SegmentId, src: int) -> Option<(SegmentId, int, u32, u32)> {
    match spec_location_of(segs, ReadState { segment: seg, limit: None }, src) {
        Ok((st, p, loc)) => match loc {
            LocationModel::Near(o) => Some((st.segment, o + 1 + content_offset_of(p.lower), p.lower % 4, p.upper)),
            LocationModel::Far(o) => Some((st.segment, o + 1 + content_offset_of(p.lower), p.lower % 4, p.upper)),
            LocationModel::DoubleFar(s, off) => Some((s, off as int, p.lower % 4, p.upper)),
        },
        Err(_) => None,
    }
}

/// Whether a pointer `q` found at `at` describes content at `location` with the kind bits and
/// upper half of `tag`.
pub open spec fn describes(q: Parts, at: int, location: int, tag: Parts) -> bool {
    &&& q.lower % 4 == tag.lower % 4
    &&& q.upper == tag.upper
    &&& at + 1 + content_offset_of(q.lower) == location
}

/// Whether the pointer at `pos` of segment `seg` leads to content at `location` of segment
/// `cseg` described by the kind bits and upper half of `tag`: directly, through a landing pad in
/// `cseg`, or through a two-word landing pad (a far pointer to the content and its tag).
pub open spec fn points_at(arena: Seq<ArenaSegment>, seg: SegmentId, pos: int, cseg: SegmentId, location: int, tag: Parts) -> bool {
    let p = parts_of(arena[seg as int].spec_words()[pos]);
    let pad = (p.lower / 8) as int;
    ||| seg == cseg && describes(p, pos, location, tag)
    ||| {
        &&& kind_of(p.lower) == WireKind::Far
        &&& (p.lower / 4) % 2 == 0
        &&& p.upper == cseg
        &&& writable(arena, cseg, pad)
        &&& describes(parts_of(arena[cseg as int].spec_words()[pad]), pad, location, tag)
    }
    ||| {
        &&& kind_of(p.lower) == WireKind::Far
        &&& (p.lower / 4) % 2 == 1
        &&& writable(arena, p.upper, pad)
        &&& writable(arena, p.upper, pad + 1)
        &&& kind_of(parts_of(arena[p.upper as int].spec_words()[pad]).lower) == WireKind::Far
        &&& (parts_of(arena[p.upper as int].spec_words()[pad]).lower / 4) % 2 == 0
        &&& parts_of(arena[p.upper as int].spec_words()[pad]).upper == cseg
        &&& parts_of(arena[p.upper as int].spec_words()[pad]).lower / 8 == location
        &&& parts_of(arena[p.upper as int].spec_words()[pad + 1]).lower % 4 == tag.lower % 4
        &&& parts_of(arena[p.upper as int].spec_words()[pad + 1]).upper == tag.upper
    }
}

/// Whether the words of the used parts of `before` are kept in `after`, but for the word at
/// `pos` of segment `seg`; segments may have been added and used parts grown.
pub open spec fn kept_but(before: Seq<ArenaSegment>, after: Seq<ArenaSegment>, seg: SegmentId, pos: int) -> bool {
    &&& before.len() <= after.len()
    &&& forall|i: int| 0 <= i < before.len() ==> #[trigger] after[i].spec_words().len() == before[i].spec_words().len()
    &&& forall|i: int| 0 <= i < before.len() ==> after[i].spec_used_len() >= #[trigger] before[i].spec_used_len()
    &&& forall|i: int| 0 <= i < before.len() && #[trigger] before[i].spec_state() is Used ==> after[i].spec_state() is Used
    &&& forall|i: int, k: int|
        0 <= i < before.len() && 0 <= k < before[i].spec_used_len() && !(i == seg && k == pos)
            ==> #[trigger] after[i].spec_words()[k] == before[i].spec_words()[k]
}

/// An allocation keeps the words of the used parts.
proof fn lemma_alloc_kept(s0: Seq<ArenaSegment>, s1: Seq<ArenaSegment>, size: int, off: u29, id: SegmentId, seg: SegmentId, pos: int)
    requires
        crate::arena::allocated(s0, s1, size, Some((off, id))),
        size > 0,
    ensures
        kept_but(s0, s1, seg, pos),
{
    assert forall|i: int| 0 <= i < s0.len() implies s1[i].spec_used_len() >= #[trigger] s0[i].spec_used_len() by {
        if i != id {
            assert(s1[i].spec_state() == s0[i].spec_state());
            assert(s1[i].spec_words() == s0[i].spec_words());
        }
    }
    assert forall|i: int| 0 <= i < s0.len() implies #[trigger] s1[i].spec_words().len() == s0[i].spec_words().len() by {
        assert(s1[i].spec_words() == s0[i].spec_words());
    }
    assert forall|i: int, k: int|
        0 <= i < s0.len() && 0 <= k < s0[i].spec_used_len() && !(i == seg && k == pos)
            implies #[trigger] s1[i].spec_words()[k] == s0[i].spec_words()[k] by {
        assert(s1[i].spec_words() == s0[i].spec_words());
    }
    assert forall|i: int| 0 <= i < s0.len() && #[trigger] s0[i].spec_state() is Used implies s1[i].spec_state() is Used by {
        if i != id {
            assert(s1[i].spec_state() == s0[i].spec_state());
        }
    }
}

/// Writing a word outside the used parts of `s0`, or at the word already excepted, keeps what
/// `kept_but` says.
proof fn lemma_set_kept(s0: Seq<ArenaSegment>, s1: Seq<ArenaSegment>, s2: Seq<ArenaSegment>, seg: SegmentId, pos: int, id: SegmentId, at: int, p: Parts)
    requires
        kept_but(s0, s1, seg, pos),
        crate::ptr::word_set(s1, s2, id, at, p),
        id < s1.len(),
        id >= s0.len() || at >= s0[id as int].spec_used_len() || (id == seg && at == pos),
        forall|i: int| 0 <= i < s0.len() ==> #[trigger] s0[i].spec_used_len() <= s0[i].spec_words().len(),
    ensures
        kept_but(s0, s2, seg, pos),
{
    assert forall|i: int| 0 <= i < s0.len() implies #[trigger] s2[i].spec_words().len() == s0[i].spec_words().len() by {
        if i != id {
            assert(s2[i] == s1[i]);
        }
    }
    assert forall|i: int| 0 <= i < s0.len() implies s2[i].spec_used_len() >= #[trigger] s0[i].spec_used_len() by {
        if i != id {
            assert(s2[i] == s1[i]);
        }
    }
    assert forall|i: int| 0 <= i < s0.len() && #[trigger] s0[i].spec_state() is Used implies s2[i].spec_state() is Used by {
        if i != id {
            assert(s2[i] == s1[i]);
        }
    }
    assert forall|i: int, k: int|
        0 <= i < s0.len() && 0 <= k < s0[i].spec_used_len() && !(i == seg && k == pos)
            implies #[trigger] s2[i].spec_words()[k] == s0[i].spec_words()[k] by {
        if i != id {
            assert(s2[i] == s1[i]);
        } else {
            assert(s1[i].spec_words()[k] == s0[i].spec_words()[k]);
        }
    }
}

/// A pointer that leads to content, as `points_at` says, is followed to that content.
pub proof fn lemma_points_at_content(arena: Seq<ArenaSegment>, seg: SegmentId, pos: int, cseg: SegmentId, location: int, tag: Parts)
    requires
        points_at(arena, seg, pos, cseg, location, tag),
        writable(arena, seg, pos),
        tag.lower % 4 < 2,
        forall|i: int| 0 <= i < arena.len() ==> #[trigger] arena[i].spec_used_len() <= arena[i].spec_words().len(),
    ensures
        spec_content_of(used_segments(arena), seg, pos) == Some((cseg, location, tag.lower % 4, tag.upper)),
{
    let segs = used_segments(arena);
    assert(segs[seg as int][pos] == arena[seg as int].spec_words()[pos]);
    let p = parts_of(arena[seg as int].spec_words()[pos]);
    let pad = (p.lower / 8) as int;
    if kind_of(p.lower) == WireKind::Far {
        if (p.lower / 4) % 2 == 0 {
            assert(segs[cseg as int][pad] == arena[cseg as int].spec_words()[pad]);
        } else {
            assert(segs[p.upper as int][pad] == arena[p.upper as int].spec_words()[pad]);
            assert(segs[p.upper as int][pad + 1] == arena[p.upper as int].spec_words()[pad + 1]);
        }
    }
}

/// Points the pointer `dst` at content at `location` of the segment of `content`, with the kind
/// bits and upper half of `tag`: directly where both are in one segment, else through a landing
/// pad allocated in the content's segment, else through a two-word landing pad allocated near
/// `dst` or anywhere in the arena.
#[verifier::rlimit(100)]
#[verifier::spinoff_prover]
fn point_at<B: BuildArena + ?Sized>(arena: &mut B, dst: PtrBuilder, content: ObjectBuilder, location: SegmentRef, tag: Parts) -> (r: Result<(), Error>)
    requires
        old(arena).inv(),
        writable(old(arena).spec_arena(), dst.builder.segment, dst.ptr@),
        content.segment < old(arena).spec_arena().len(),
        old(arena).spec_arena()[content.segment as int].spec_state() is Used,
        tag.lower % 4 < 2,
    ensures
        final(arena).inv(),
        r is Ok ==> points_at(final(arena).spec_arena(), dst.builder.segment, dst.ptr@, content.segment, location@, tag),
        r is Ok ==> kept_but(old(arena).spec_arena(), final(arena).spec_arena(), dst.builder.segment, dst.ptr@),
        r matches Err(e) ==> e.kind matches ErrorKind::AllocFailed(n) && n@ == 2,
        r is Err ==> final(arena).spec_arena() == old(arena).spec_arena(),
        r is Err ==> {
            &&& content.segment != dst.builder.segment
            &&& !has_room(old(arena).spec_arena(), content.segment, 1)
            &&& !has_room(old(arena).spec_arena(), dst.builder.segment, 2)
            &&& !has_room(old(arena).spec_arena(), old(arena).spec_alloc_segment(), 2)
        },
{
    proof {
        arena.lemma_used_fits();
    }
    // reading the position shows that it lies within the bounds of a segment
    let _loc: u32 = location.as_inner().get();
    let ghost s0 = arena.spec_arena();
    if content.is_same_segment(&dst.builder) {
        let offset = dst.builder.offset_from_end_of(dst.ptr.as_segment_ptr(), location.as_segment_ptr());
        let parts = tag.set_content_offset(offset);
        dst.builder.set_ptr(arena, dst.ptr, WirePtr { parts });
        proof {
            assert forall|i: int| 0 <= i < s0.len() && #[trigger] s0[i].spec_state() is Used implies arena.spec_arena()[i].spec_state() is Used by {
                if i != dst.builder.segment {
                    assert(arena.spec_arena()[i] == s0[i]);
                }
            }
        }
        return Ok(());
    }
    match content.alloc_in_segment(arena, NonZeroU29::new_unwrap(1)) {
        Some(pad) => {
            let ghost s1 = arena.spec_arena();
            proof {
                arena.lemma_used_fits();
                lemma_alloc_kept(s0, s1, 1, pad.spec_pos(), content.segment, dst.builder.segment, dst.ptr@);
            }
            let offset = content.offset_from_end_of(pad.as_segment_ptr(), location.as_segment_ptr());
            let pad_parts = tag.set_content_offset(offset);
            content.set_ptr(arena, pad, WirePtr { parts: pad_parts });
            let ghost mid = arena.spec_arena();
            proof {
                lemma_set_kept(s0, s1, mid, dst.builder.segment, dst.ptr@, content.segment, pad@, pad_parts);
            }
            let far = FarPtr::new(content.id(), content.offset_from_start(pad.as_segment_ptr()), false);
            dst.builder.set_ptr(arena, dst.ptr, WirePtr { parts: far.parts });
            proof {
                let a = arena.spec_arena();
                assert(a[content.segment as int] == mid[content.segment as int]);
                lemma_set_kept(s0, mid, a, dst.builder.segment, dst.ptr@, dst.builder.segment, dst.ptr@, far.parts);
            }
            Ok(())
        },
        None => match dst.builder.allocate(arena, NonZeroU29::new_unwrap(2)) {
            Some((pad, pad_builder)) => {
                let ghost s1 = arena.spec_arena();
                proof {
                    arena.lemma_used_fits();
                    lemma_alloc_kept(s0, s1, 2, pad.spec_pos(), pad_builder.segment, dst.builder.segment, dst.ptr@);
                }
                let far = FarPtr::new(content.id(), content.offset_from_start(location.as_segment_ptr()), false);
                pad_builder.set_ptr(arena, pad, WirePtr { parts: far.parts });
                let ghost m1 = arena.spec_arena();
                proof {
                    lemma_set_kept(s0, s1, m1, dst.builder.segment, dst.ptr@, pad_builder.segment, pad@, far.parts);
                }
                let tag_at = pad.offset(u29::new_unwrap(1)).as_ref_unchecked();
                let tag_parts = tag.set_content_offset(i30::new_unwrap(0));
                pad_builder.set_ptr(arena, tag_at, WirePtr { parts: tag_parts });
                let ghost m2 = arena.spec_arena();
                proof {
                    lemma_set_kept(s0, m1, m2, dst.builder.segment, dst.ptr@, pad_builder.segment, tag_at@, tag_parts);
                }
                let dfar = FarPtr::new(pad_builder.id(), pad_builder.offset_from_start(pad.as_segment_ptr()), true);
                proof {
                    if pad_builder.segment == dst.builder.segment {
                        assert(dst.ptr@ < pad@);
                    }
                }
                dst.builder.set_ptr(arena, dst.ptr, WirePtr { parts: dfar.parts });
                proof {
                    let a = arena.spec_arena();
                    if pad_builder.segment != dst.builder.segment {
                        assert(a[pad_builder.segment as int] == m2[pad_builder.segment as int]);
                    }
                    lemma_set_kept(s0, m2, a, dst.builder.segment, dst.ptr@, dst.builder.segment, dst.ptr@, dfar.parts);
                }
                Ok(())
            },
            None => Err(Error::from_kind(ErrorKind::AllocFailed(NonZeroU29::new_unwrap(2)))),
        },
    }
}

/// What an orphan holds: where its object is, and what the pointer to it said of it. A far
/// pointer's orphan is its landing pad.
#[derive(Clone, Copy, Debug, PartialEq, Eq, Structural)]
pub enum OrphanObject {
    Struct { location: SegmentRef, size: StructSize },
    List { location: SegmentRef, element_size: PtrElementSize, element_count: u29 },
    Far { location: SegmentRef, double_far: bool },
    Capability(u32),
}

/// An object of a message being built that no pointer refers to (`None`: nothing), with a
/// builder of the segment it lies in.
#[derive(Clone, Copy, Debug)]
pub struct OrphanBuilder {
    pub object: Option<OrphanObject>,
    pub builder: ObjectBuilder,
}

/// Whether the pointer `p` at `pos` of segment `seg` can be disowned: a struct or list pointer
/// refers to a position a segment can have, a far pointer to a segment of the arena that is not
/// read-only, and any other pointer is a capability.
pub open spec fn disownable(arena: Seq<ArenaSegment>, seg: SegmentId, pos: int) -> bool {
    let p = parts_of(arena[seg as int].spec_words()[pos]);
    !parts_null(p) ==> match kind_of(p.lower) {
        WireKind::Struct => 0 <= pos + 1 + content_offset_of(p.lower) <= u29_max(),
        WireKind::List => 0 <= pos + 1 + content_offset_of(p.lower) <= u29_max(),
        WireKind::Far => p.upper < arena.len() && !(arena[p.upper as int].spec_state() is ReadOnly),
        WireKind::Other => is_capability_parts(p),
    }
}

/// Whether `o` is the orphan made of the pointer `p` found at `pos` of segment `seg`.
pub open spec fn disowned(p: Parts, seg: SegmentId, pos: int, o: OrphanBuilder) -> bool {
    if parts_null(p) {
        o.object is None
    } else {
        match kind_of(p.lower) {
            WireKind::Struct => o.object matches Some(OrphanObject::Struct { location, size }) && location@ == pos + 1
                + content_offset_of(p.lower) && size == struct_size_of(p) && o.builder.segment == seg,
            WireKind::List => o.object matches Some(OrphanObject::List { location, element_size, element_count })
                && location@ == pos + 1 + content_offset_of(p.lower) && element_size == ptr_element_size_of(
                (p.upper % 8) as int,
            ) && element_count@ == p.upper / 8 && o.builder.segment == seg,
            WireKind::Far => o.object matches Some(OrphanObject::Far { location, double_far }) && location@ == p.lower
                / 8 && double_far == ((p.lower / 4) % 2 == 1) && o.builder.segment == p.upper,
            WireKind::Other => is_capability_parts(p) && o.object == Some(OrphanObject::Capability(p.upper)),
        }
    }
}

/// The kind bits and upper half of a pointer to a struct of the given size.
pub open spec fn struct_tag(size: StructSize) -> Parts {
    Parts { lower: 0, upper: (size.data + size.ptrs * 65536) as u32 }
}

/// The kind bits and upper half of a pointer to a list of the given elements.
pub open spec fn list_tag(element_size: PtrElementSize, element_count: int) -> Parts {
    Parts { lower: 1, upper: (element_count * 8 + ptr_element_size_code(element_size)) as u32 }
}

/// Whether `o` can be adopted in the arena: a struct or list lies in an owned segment of it.
pub open spec fn adoptable(arena: Seq<ArenaSegment>, o: OrphanBuilder) -> bool {
    (o.object matches Some(OrphanObject::Struct { .. }) || o.object matches Some(OrphanObject::List { .. })) ==> {
        &&& o.builder.segment < arena.len()
        &&& arena[o.builder.segment as int].spec_state() is Used
    }
}

/// Whether the pointer at `pos` of segment `seg` of `arena` refers to the orphan `o`: null for
/// nothing, the capability, the far pointer to the landing pad, or a pointer leading to the
/// struct or list.
pub open spec fn adopted(arena: Seq<ArenaSegment>, seg: SegmentId, pos: int, o: OrphanBuilder) -> bool {
    let p = parts_of(arena[seg as int].spec_words()[pos]);
    match o.object {
        None => parts_null(p),
        Some(OrphanObject::Capability(i)) => p == Parts { lower: 3, upper: i },
        Some(OrphanObject::Far { location, double_far }) => {
            &&& kind_of(p.lower) == WireKind::Far
            &&& p.lower / 8 == location@
            &&& ((p.lower / 4) % 2 == 1) == double_far
            &&& p.upper == o.builder.segment
        },
        Some(OrphanObject::Struct { location, size }) => points_at(arena, seg, pos, o.builder.segment, location@, struct_tag(size)),
        Some(OrphanObject::List { location, element_size, element_count }) => points_at(
            arena,
            seg,
            pos,
            o.builder.segment,
            location@,
            list_tag(element_size, element_count@ as int),
        ),
    }
}

/// Whether the used words of `before` other than the word at `pos` of segment `seg` are kept or
/// zero in `after`.
pub open spec fn kept_or_zero_but(before: Seq<ArenaSegment>, after: Seq<ArenaSegment>, seg: SegmentId, pos: int) -> bool {
    &&& before.len() <= after.len()
    &&& forall|i: int, k: int|
        0 <= i < before.len() && 0 <= k < before[i].spec_used_len() && !(i == seg && k == pos) ==> kept_or_zero(
            before[i].spec_words()[k],
            #[trigger] after[i].spec_words()[k],
        )
}

impl PtrBuilder {
    /// Makes what the pointer refers to an orphan and sets the pointer to null. A far pointer's
    /// orphan is its landing pad; a null pointer gives an orphan of nothing and is left as it is.
    pub fn disown_into<B: BuildArena + ?Sized>(&self, arena: &mut B) -> (r: OrphanBuilder)
        requires
            old(arena).inv(),
            writable(old(arena).spec_arena(), self.builder.segment, self.ptr@),
            disownable(old(arena).spec_arena(), self.builder.segment, self.ptr@),
        ensures
            final(arena).inv(),
            disowned(parts_of(old(arena).spec_arena()[self.builder.segment as int].spec_words()[self.ptr@]), self.builder.segment, self.ptr@, r),
            parts_null(parts_of(old(arena).spec_arena()[self.builder.segment as int].spec_words()[self.ptr@])) ==> final(arena).spec_arena() == old(arena).spec_arena(),
            !parts_null(parts_of(old(arena).spec_arena()[self.builder.segment as int].spec_words()[self.ptr@])) ==> crate::ptr::word_set(
                old(arena).spec_arena(),
                final(arena).spec_arena(),
                self.builder.segment,
                self.ptr@,
                Parts { lower: 0, upper: 0 },
            ),
    {
        proof {
            arena.lemma_used_fits();
        }
        let w = arena.segment(self.builder.segment).unwrap().used_segment()[self.ptr.as_ptr() as usize];
        let ptr = WirePtr::from_word(w);
        if ptr.is_null() {
            return OrphanBuilder { object: None, builder: self.builder };
        }
        self.builder.set_ptr(arena, self.ptr, WirePtr::null());
        match ptr.kind() {
            WireKind::Struct => {
                let sp = ptr.struct_ptr().unwrap();
                let (location, builder) = self.builder.build_object_from_end_of(self.ptr.as_segment_ptr(), sp.offset());
                OrphanBuilder { object: Some(OrphanObject::Struct { location, size: sp.size() }), builder }
            },
            WireKind::List => {
                let lp = ptr.list_ptr().unwrap();
                let (location, builder) = self.builder.build_object_from_end_of(self.ptr.as_segment_ptr(), lp.offset());
                OrphanBuilder {
                    object: Some(OrphanObject::List { location, element_size: lp.element_size(), element_count: lp.element_count() }),
                    builder,
                }
            },
            WireKind::Far => {
                let fp = ptr.far_ptr().unwrap();
                let (location, builder) = self.builder.build_object_in(&*arena, fp.segment(), fp.offset()).unwrap();
                OrphanBuilder { object: Some(OrphanObject::Far { location, double_far: fp.double_far() }), builder }
            },
            WireKind::Other => {
                let cp = ptr.cap_ptr().unwrap();
                OrphanBuilder { object: Some(OrphanObject::Capability(cp.capability_index())), builder: self.builder }
            },
        }
    }

    /// Clears what the pointer refers to and points it at the orphan. A struct or list in another
    /// segment is reached through a landing pad in its segment, or, where that segment is full,
    /// through a two-word landing pad allocated elsewhere; where neither can be allocated the
    /// orphan is handed back with the error.
    #[verifier::rlimit(50)]
    pub fn try_adopt<B: BuildArena + ?Sized>(&self, arena: &mut B, orphan: OrphanBuilder) -> (r: Result<(), (Error, OrphanBuilder)>)
        requires
            old(arena).inv(),
            writable(old(arena).spec_arena(), self.builder.segment, self.ptr@),
            adoptable(old(arena).spec_arena(), orphan),
        ensures
            final(arena).inv(),
            r is Ok ==> adopted(final(arena).spec_arena(), self.builder.segment, self.ptr@, orphan),
            r is Ok ==> kept_or_zero_but(old(arena).spec_arena(), final(arena).spec_arena(), self.builder.segment, self.ptr@),
            r is Err ==> zeroed_from(old(arena).spec_arena(), final(arena).spec_arena()),
            r matches Err((e, o)) ==> o == orphan && (e.kind matches ErrorKind::AllocFailed(n) && n@ == 2),
            r is Err ==> {
                &&& (orphan.object matches Some(OrphanObject::Struct { .. }) || orphan.object matches Some(OrphanObject::List { .. }))
                &&& orphan.builder.segment != self.builder.segment
                &&& !has_room(old(arena).spec_arena(), orphan.builder.segment, 1)
                &&& !has_room(old(arena).spec_arena(), self.builder.segment, 2)
                &&& !has_room(old(arena).spec_arena(), old(arena).spec_alloc_segment(), 2)
            },
    {
        proof {
            arena.lemma_used_fits();
        }
        let ghost s0 = arena.spec_arena();
        self.clear(arena);
        let ghost s1 = arena.spec_arena();
        proof {
            arena.lemma_used_fits();
            assert forall|i: int| 0 <= i < s0.len() implies #[trigger] s1[i].spec_used_len() == s0[i].spec_used_len() by {
                assert(s1[i].spec_state() == s0[i].spec_state());
            }
        }
        let (location, tag) = match orphan.object {
            None => {
                proof {
                    assert(kept_or_zero_but(s0, s1, self.builder.segment, self.ptr@));
                }
                return Ok(());
            },
            Some(OrphanObject::Far { location, double_far }) => {
                let far = FarPtr::new(orphan.builder.id(), location.as_inner(), double_far);
                self.builder.set_ptr(arena, self.ptr, WirePtr { parts: far.parts });
                proof {
                    let a = arena.spec_arena();
                    assert forall|i: int, k: int|
                        0 <= i < s0.len() && 0 <= k < s0[i].spec_used_len() && !(i == self.builder.segment && k == self.ptr@)
                            implies kept_or_zero(s0[i].spec_words()[k], #[trigger] a[i].spec_words()[k]) by {
                        assert(kept_or_zero(s0[i].spec_words()[k], s1[i].spec_words()[k]));
                    }
                }
                return Ok(());
            },
            Some(OrphanObject::Capability(index)) => {
                self.builder.set_ptr(arena, self.ptr, WirePtr { parts: CapabilityPtr::new(index).parts });
                proof {
                    let a = arena.spec_arena();
                    assert forall|i: int, k: int|
                        0 <= i < s0.len() && 0 <= k < s0[i].spec_used_len() && !(i == self.builder.segment && k == self.ptr@)
                            implies kept_or_zero(s0[i].spec_words()[k], #[trigger] a[i].spec_words()[k]) by {
                        assert(kept_or_zero(s0[i].spec_words()[k], s1[i].spec_words()[k]));
                    }
                }
                return Ok(());
            },
            Some(OrphanObject::Struct { location, size }) => (location, StructPtr::new(i30::new_unwrap(0), size).parts),
            Some(OrphanObject::List { location, element_size, element_count }) => (
                location,
                ListPtr::new(i30::new_unwrap(0), element_size, element_count).parts,
            ),
        };
        match point_at(arena, *self, orphan.builder, location, tag) {
            Ok(()) => {
                proof {
                    let a = arena.spec_arena();
                    assert forall|i: int, k: int|
                        0 <= i < s0.len() && 0 <= k < s0[i].spec_used_len() && !(i == self.builder.segment && k == self.ptr@)
                            implies kept_or_zero(s0[i].spec_words()[k], #[trigger] a[i].spec_words()[k]) by {
                        assert(kept_or_zero(s0[i].spec_words()[k], s1[i].spec_words()[k]));
                    }
                }
                Ok(())
            },
            Err(e) => Err((e, orphan)),
        }
    }
}

/// A struct or list pointer that is not far leads to the content at its offset in its own
/// segment.
proof fn lemma_near_content(arena: Seq<ArenaSegment>, seg: SegmentId, pos: int)
    requires
        writable(arena, seg, pos),
        forall|i: int| 0 <= i < arena.len() ==> #[trigger] arena[i].spec_used_len() <= arena[i].spec_words().len(),
        kind_of(parts_of(arena[seg as int].spec_words()[pos]).lower) != WireKind::Far,
    ensures
        ({
            let p = parts_of(arena[seg as int].spec_words()[pos]);
            spec_content_of(used_segments(arena), seg, pos) == Some((seg, pos + 1 + content_offset_of(p.lower), p.lower % 4, p.upper))
        }),
{
    assert(used_segments(arena)[seg as int][pos] == arena[seg as int].spec_words()[pos]);
}

/// The struct case of `lemma_disown_adopt`.
proof fn lemma_disown_adopt_struct(p: Parts, seg: SegmentId, pos: int, o: OrphanBuilder, after: Seq<ArenaSegment>, dseg: SegmentId, dpos: int)
    requires
        !parts_null(p),
        kind_of(p.lower) == WireKind::Struct,
        writable(after, dseg, dpos),
        forall|i: int| 0 <= i < after.len() ==> #[trigger] after[i].spec_used_len() <= after[i].spec_words().len(),
        disowned(p, seg, pos, o),
        adopted(after, dseg, dpos, o),
    ensures
        spec_content_of(used_segments(after), dseg, dpos) == Some((seg, pos + 1 + content_offset_of(p.lower), p.lower % 4, p.upper)),
{
    let size = struct_size_of(p);
    assert(size.data + size.ptrs * 65536 == p.upper);
    lemma_points_at_content(after, dseg, dpos, seg, pos + 1 + content_offset_of(p.lower), struct_tag(size));
}

/// The list case of `lemma_disown_adopt`.
proof fn lemma_disown_adopt_list(p: Parts, seg: SegmentId, pos: int, o: OrphanBuilder, after: Seq<ArenaSegment>, dseg: SegmentId, dpos: int)
    requires
        !parts_null(p),
        kind_of(p.lower) == WireKind::List,
        writable(after, dseg, dpos),
        forall|i: int| 0 <= i < after.len() ==> #[trigger] after[i].spec_used_len() <= after[i].spec_words().len(),
        disowned(p, seg, pos, o),
        adopted(after, dseg, dpos, o),
    ensures
        spec_content_of(used_segments(after), dseg, dpos) == Some((seg, pos + 1 + content_offset_of(p.lower), p.lower % 4, p.upper)),
{
    let c = (p.upper % 8) as int;
    assert(ptr_element_size_code(ptr_element_size_of(c)) == c);
    assert((p.upper / 8) * 8 + c == p.upper);
    lemma_points_at_content(after, dseg, dpos, seg, pos + 1 + content_offset_of(p.lower), list_tag(ptr_element_size_of(c), (p.upper / 8) as int));
}

/// The far case of `lemma_disown_adopt`: `q` is the adopted pointer.
proof fn lemma_disown_adopt_far(p: Parts, seg: SegmentId, pos: int, o: OrphanBuilder, q: Parts)
    requires
        !parts_null(p),
        kind_of(p.lower) == WireKind::Far,
        disowned(p, seg, pos, o),
        o.object matches Some(OrphanObject::Far { location, double_far }) ==> {
            &&& kind_of(q.lower) == WireKind::Far
            &&& q.lower / 8 == location@
            &&& ((q.lower / 4) % 2 == 1) == double_far
            &&& q.upper == o.builder.segment
        },
    ensures
        q == p,
{
    assert(q.lower == (q.lower / 8) * 8 + ((q.lower / 4) % 2) * 4 + 2);
    assert(p.lower == (p.lower / 8) * 8 + ((p.lower / 4) % 2) * 4 + 2);
}

/// Disowning then adopting keeps what a pointer refers to: when the pointer at `pos` of segment
/// `seg` of `before` is disowned into `o`, and `o` is adopted at `dpos` of segment `dseg` of
/// `after`, a struct or list pointer there leads to the same content, with the same kind and
/// size, as the disowned pointer did; a far or capability pointer is the same pointer, and a null
/// pointer stays null.
pub proof fn lemma_disown_adopt(
    before: Seq<ArenaSegment>,
    seg: SegmentId,
    pos: int,
    o: OrphanBuilder,
    after: Seq<ArenaSegment>,
    dseg: SegmentId,
    dpos: int,
)
    requires
        writable(before, seg, pos),
        writable(after, dseg, dpos),
        forall|i: int| 0 <= i < before.len() ==> #[trigger] before[i].spec_used_len() <= before[i].spec_words().len(),
        forall|i: int| 0 <= i < after.len() ==> #[trigger] after[i].spec_used_len() <= after[i].spec_words().len(),
        disowned(parts_of(before[seg as int].spec_words()[pos]), seg, pos, o),
        adopted(after, dseg, dpos, o),
    ensures
        ({
            let p = parts_of(before[seg as int].spec_words()[pos]);
            let q = parts_of(after[dseg as int].spec_words()[dpos]);
            &&& parts_null(p) ==> parts_null(q)
            &&& !parts_null(p) && (kind_of(p.lower) == WireKind::Struct || kind_of(p.lower) == WireKind::List) ==> spec_content_of(
                used_segments(after),
                dseg,
                dpos,
            ) == spec_content_of(used_segments(before), seg, pos)
            &&& !parts_null(p) && (kind_of(p.lower) == WireKind::Far || kind_of(p.lower) == WireKind::Other) ==> q == p
        }),
{
    let p = parts_of(before[seg as int].spec_words()[pos]);
    if !parts_null(p) {
        if kind_of(p.lower) == WireKind::Struct {
            lemma_near_content(before, seg, pos);
            lemma_disown_adopt_struct(p, seg, pos, o, after, dseg, dpos);
        } else if kind_of(p.lower) == WireKind::List {
            lemma_near_content(before, seg, pos);
            lemma_disown_adopt_list(p, seg, pos, o, after, dseg, dpos);
        } else if kind_of(p.lower) == WireKind::Far {
            lemma_disown_adopt_far(p, seg, pos, o, parts_of(after[dseg as int].spec_words()[dpos]));
        }
    }
}

} // verus!
