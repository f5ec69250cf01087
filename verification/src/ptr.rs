//! Cap'n Proto pointers, the sizes of the objects they refer to, and the readers and builders
//! of objects in a message.
//!
//! A pointer is one [`Word`] split into two little endian 32-bit halves ([`Parts`]). The low two
//! bits of the lower half give the kind of pointer; the rest of the bits are laid out according
//! to that kind.

use crate::allocator::{words_bytes, SegmentOffset, SegmentPtr, SegmentRef, SignedSegmentOffset, Word};
use crate::clear::{zeroed_from, lemma_zeroed_refl};
use crate::arena::{allocated, has_room, used_segments, ArenaSegment, BuildArena, ReadArena, SegmentId};
use crate::allocator::AllocLen;
use crate::num::NonZeroU29;
use crate::message::ReadLimiter;
use crate::num::{i30, u29, u29_max};
use crate::{Error, ErrorKind};
use vstd::prelude::*;


verus! {

/// The unsigned value of four bytes read in little endian order.
pub open spec fn le_u32(b0: u8, b1: u8, b2: u8, b3: u8) -> int {
    b0 + 256 * b1 + 65536 * b2 + 16777216 * b3
}

/// The 30-bit signed value held in the upper 30 bits of the lower half of a pointer.
pub open spec fn content_offset_of(lower: u32) -> int {
    let u = lower / 4;
    if u >= 536870912 {
        u - 1073741824
    } else {
        u as int
    }
}

/// The 30-bit two's complement encoding of a signed offset.
pub open spec fn encode_offset(offset: int) -> int {
    if offset < 0 {
        offset + 1073741824
    } else {
        offset
    }
}

proof fn lemma_byte_split(v: u32)
    by (bit_vector)
    ensures
        v == (v % 256) + 256 * ((v / 256) % 256) + 65536 * ((v / 65536) % 256) + 16777216 * (v
            / 16777216),
        v / 16777216 < 256,
{
}

proof fn lemma_byte_join(b0: u8, b1: u8, b2: u8, b3: u8)
    by (bit_vector)
    ensures
        (b0 + 256 * b1 + 65536 * b2 + 16777216 * b3) % 256 == b0,
        ((b0 + 256 * b1 + 65536 * b2 + 16777216 * b3) / 256) % 256 == b1,
        ((b0 + 256 * b1 + 65536 * b2 + 16777216 * b3) / 65536) % 256 == b2,
        (b0 + 256 * b1 + 65536 * b2 + 16777216 * b3) / 16777216 == b3,
        b0 + 256 * b1 + 65536 * b2 + 16777216 * b3 <= 0xffff_ffff,
{
}

/// Whether the encoding of a signed offset, shifted into the lower half of a pointer, reads back
/// as the same offset.
proof fn lemma_offset_round_trip(offset: int, kind: int)
    requires
        -536870912 <= offset <= 536870911,
        0 <= kind < 4,
    ensures
        0 <= encode_offset(offset) * 4 + kind <= 0xffff_ffff,
        content_offset_of((encode_offset(offset) * 4 + kind) as u32) == offset,
        ((encode_offset(offset) * 4 + kind) as u32) % 4 == kind,
{
    let e = encode_offset(offset);
    let l = e * 4 + kind;
    assert(0 <= e < 1073741824);
    assert(l / 4 == e && l % 4 == kind) by (nonlinear_arith)
        requires
            l == e * 4 + kind,
            0 <= kind < 4,
            0 <= e,
    ;
}

/// A little endian value stored in a message.
#[derive(Clone, Copy, PartialEq, Eq, Debug)]
pub struct WireValue<T>(T);

impl<T: Copy> WireValue<T> {
    /// The value held.
    pub closed spec fn value(&self) -> T {
        self.0
    }

    /// Wraps a value.
    pub fn new(value: T) -> (r: Self)
        ensures
            r.value() == value,
    {
        WireValue(value)
    }

    /// Reads the value.
    pub fn get(&self) -> (r: T)
        ensures
            r == self.value(),
    {
        self.0
    }

    /// Replaces the value.
    pub fn set(&mut self, value: T)
        ensures
            final(self).value() == value,
    {
        self.0 = value;
    }
}

/// The total size of a message, in words and capabilities.
#[derive(Default, Debug, Clone, Copy, PartialEq, Eq, Structural, Hash)]
pub struct MessageSize {
    pub words: u64,
    pub caps: u32,
}

impl MessageSize {
    /// The sum of two sizes. The sums must fit their fields.
    pub fn sum(self, rhs: Self) -> (r: Self)
        requires
            self.words + rhs.words <= u64::MAX,
            self.caps + rhs.caps <= u32::MAX,
        ensures
            r.words == self.words + rhs.words,
            r.caps == self.caps + rhs.caps,
    {
        MessageSize { words: self.words + rhs.words, caps: self.caps + rhs.caps }
    }
}

/// The size of a struct in data words and pointers.
///
/// A struct in Cap'n Proto is made up of a "data" section and a pointer section.
#[derive(Default, Debug, Clone, Copy, PartialEq, Eq, Structural, Hash)]
pub struct StructSize {
    /// The number of words of data in this struct
    pub data: u16,
    /// The number of pointers in this struct
    pub ptrs: u16,
}

/// The largest number of elements a list can hold, `2^29 - 1`.
pub open spec fn max_element_count() -> int {
    u29_max()
}

impl StructSize {
    /// The total size of the struct in words.
    pub open spec fn spec_total(self) -> int {
        self.data + self.ptrs
    }

    /// An empty struct with 0 data words and 0 pointers.
    pub fn empty() -> (r: Self)
        ensures
            r.data == 0 && r.ptrs == 0,
    {
        StructSize { data: 0, ptrs: 0 }
    }

    /// Whether the struct has no data or pointer words.
    pub fn is_empty(self) -> (r: bool)
        ensures
            r <==> (self.data == 0 && self.ptrs == 0),
    {
        self.data == 0 && self.ptrs == 0
    }

    /// Gets the total size of the struct in words.
    pub fn total(self) -> (r: u32)
        ensures
            r == self.spec_total(),
    {
        self.data as u32 + self.ptrs as u32
    }

    /// Gets the total size of the struct in words as an object length.
    pub fn len(self) -> (r: u29)
        ensures
            r@ == self.spec_total(),
    {
        u29::new_unwrap(self.total())
    }

    /// The largest number of elements a struct list of structs of this size can have.
    ///
    /// The list's word count (not counting its tag) must fit in a list pointer, so the number
    /// of elements shrinks as the struct grows.
    pub fn max_elements(self) -> (r: u29)
        ensures
            r@ == (if self.spec_total() == 0 {
                max_element_count()
            } else {
                (max_element_count() - 1) / self.spec_total()
            }),
    {
        if self.is_empty() {
            u29::maximum()
        } else {
            let total = self.total();
            let n = (u29::MAX_VALUE - 1) / total;
            assert(n <= u29_max()) by (nonlinear_arith)
                requires
                    n == (536870911 - 1) / (total as int),
                    total >= 1,
            ;
            u29::new_unwrap(n)
        }
    }

    /// Whether a struct of this size fits inside a struct of the given size.
    pub fn fits_inside(self, outer: Self) -> (r: bool)
        ensures
            r <==> (self.data <= outer.data && self.ptrs <= outer.ptrs),
    {
        self.data <= outer.data && self.ptrs <= outer.ptrs
    }

    /// The larger data and pointer sections of two sizes.
    pub fn max(self, other: Self) -> (r: Self)
        ensures
            r == spec_struct_max(self, other),
            self.data <= r.data && other.data <= r.data && (r.data == self.data || r.data == other.data),
            self.ptrs <= r.ptrs && other.ptrs <= r.ptrs && (r.ptrs == self.ptrs || r.ptrs == other.ptrs),
    {
        StructSize {
            data: if self.data >= other.data {
                self.data
            } else {
                other.data
            },
            ptrs: if self.ptrs >= other.ptrs {
                self.ptrs
            } else {
                other.ptrs
            },
        }
    }
}

/// The larger data and pointer sections of two sizes.
pub open spec fn spec_struct_max(a: StructSize, b: StructSize) -> StructSize {
    StructSize {
        data: if a.data >= b.data {
            a.data
        } else {
            b.data
        },
        ptrs: if a.ptrs >= b.ptrs {
            a.ptrs
        } else {
            b.ptrs
        },
    }
}

/// The kind of a pointer, held in its two lowest bits.
#[derive(Debug, Copy, Clone, PartialEq, Eq, Structural)]
pub enum WireKind {
    Struct,
    List,
    Far,
    Other,
}

/// The kind of pointer held by the two lowest bits of a lower half.
pub open spec fn kind_of(lower: u32) -> WireKind {
    let k = lower % 4;
    if k == 0 {
        WireKind::Struct
    } else if k == 1 {
        WireKind::List
    } else if k == 2 {
        WireKind::Far
    } else {
        WireKind::Other
    }
}

/// The type of data a pointer refers to.
#[derive(Debug, Copy, Clone, PartialEq, Eq, Structural)]
pub enum PtrType {
    /// The pointer is null (it doesn't refer to anything).
    Null,
    /// The pointer refers to a struct.
    Struct,
    /// The pointer refers to a list, including `Data` and `Text`.
    List,
    /// The pointer refers to a capability.
    Capability,
}

/// The two little endian halves of a pointer word.
#[derive(Clone, Copy, Debug, PartialEq, Eq, Structural)]
pub struct Parts {
    pub lower: u32,
    pub upper: u32,
}

/// The halves of a word.
pub open spec fn parts_of(w: Word) -> Parts {
    Parts {
        lower: le_u32(w.0@[0], w.0@[1], w.0@[2], w.0@[3]) as u32,
        upper: le_u32(w.0@[4], w.0@[5], w.0@[6], w.0@[7]) as u32,
    }
}

impl Parts {
    /// Splits a word into its halves.
    pub fn from_word(w: Word) -> (r: Parts)
        ensures
            r == parts_of(w),
    {
        let b = w.0;
        proof {
            lemma_byte_join(b[0], b[1], b[2], b[3]);
            lemma_byte_join(b[4], b[5], b[6], b[7]);
        }
        let lower = b[0] as u32 + 256 * (b[1] as u32) + 65536 * (b[2] as u32) + 16777216 * (
        b[3] as u32);
        let upper = b[4] as u32 + 256 * (b[5] as u32) + 65536 * (b[6] as u32) + 16777216 * (
        b[7] as u32);
        Parts { lower, upper }
    }

    /// Joins the halves back into a word.
    pub fn to_word(self) -> (r: Word)
        ensures
            parts_of(r) == self,
    {
        let l = self.lower;
        let u = self.upper;
        proof {
            lemma_byte_split(l);
            lemma_byte_split(u);
        }
        let w = Word(
            [
                (l % 256) as u8,
                ((l / 256) % 256) as u8,
                ((l / 65536) % 256) as u8,
                (l / 16777216) as u8,
                (u % 256) as u8,
                ((u / 256) % 256) as u8,
                ((u / 65536) % 256) as u8,
                (u / 16777216) as u8,
            ],
        );
        assert(parts_of(w) == self);
        w
    }

    /// Gets the segment offset of some content. This is only meaningful for struct and list
    /// pointers.
    pub fn content_offset(&self) -> (r: SignedSegmentOffset)
        ensures
            r@ == content_offset_of(self.lower),
    {
        let u = self.lower / 4;
        let v: i32 = if u >= 536870912 {
            (u as i32) - 1073741824
        } else {
            u as i32
        };
        i30::new_unwrap(v)
    }

    /// Replaces the segment offset of some content, keeping the pointer kind and upper half.
    pub fn set_content_offset(&self, offset: SignedSegmentOffset) -> (r: Self)
        ensures
            r.upper == self.upper,
            r.lower % 4 == self.lower % 4,
            content_offset_of(r.lower) == offset@,
    {
        let o = offset.get();
        let enc: u32 = if o < 0 {
            (o + 1073741824) as u32
        } else {
            o as u32
        };
        proof {
            lemma_offset_round_trip(o as int, (self.lower % 4) as int);
        }
        Parts { lower: enc * 4 + self.lower % 4, upper: self.upper }
    }
}

/// Whether a pointer's parts are both zero.
pub open spec fn parts_null(p: Parts) -> bool {
    p.lower == 0 && p.upper == 0
}

} // verus!

verus! {

/// What a read expected to find behind a pointer.
#[derive(Debug, Clone, Copy, PartialEq, Eq, Structural)]
pub enum ExpectedRead {
    Struct,
    List,
    Far,
    Capability,
}

/// What a read found behind a pointer.
#[derive(Debug, Clone, Copy, PartialEq, Eq, Structural)]
pub enum ActualRead {
    Null,
    Struct,
    List,
    Far,
    Other,
}

/// A read that found something else than what it expected.
#[derive(Debug, Clone, Copy, PartialEq, Eq, Structural)]
pub struct FailedRead {
    /// The thing we expected to read from the pointer.
    pub expected: Option<ExpectedRead>,
    /// The actual pointer value.
    pub actual: ActualRead,
}

/// An error returned when attempting to perform an incompatible upgrade to another list type.
#[derive(Debug, Clone, Copy, PartialEq, Eq, Structural)]
pub struct IncompatibleUpgrade {
    /// The element size the upgrade started from.
    pub from: PtrElementSize,
    /// The new element size we tried to upgrade into.
    pub to: PtrElementSize,
}

/// A list element's size, with a struct size for inline composite values.
#[derive(Clone, Copy, Debug, PartialEq, Eq, Structural)]
pub enum ElementSize {
    /// A void element. This takes up no space on the wire.
    Void,
    /// A bit element, used by bool lists.
    Bit,
    /// A byte element. `Data` and `Text` are lists of byte elements.
    Byte,
    /// A two-byte element. Enums are represented by this size.
    TwoBytes,
    /// A four-byte element.
    FourBytes,
    /// A eight-byte element.
    EightBytes,
    /// A pointer element.
    Pointer,
    /// An inline composite element. Struct lists use this element size.
    InlineComposite(StructSize),
}

/// A simplified element size that only indicates the variant of the element.
#[derive(Clone, Copy, Debug, PartialEq, Eq, Structural)]
pub enum PtrElementSize {
    Void,
    Bit,
    Byte,
    TwoBytes,
    FourBytes,
    EightBytes,
    Pointer,
    InlineComposite,
}

} // verus!

verus! {

/// The element size held by the three lowest bits of a list pointer's upper half.
pub open spec fn ptr_element_size_of(code: int) -> PtrElementSize {
    if code == 0 {
        PtrElementSize::Void
    } else if code == 1 {
        PtrElementSize::Bit
    } else if code == 2 {
        PtrElementSize::Byte
    } else if code == 3 {
        PtrElementSize::TwoBytes
    } else if code == 4 {
        PtrElementSize::FourBytes
    } else if code == 5 {
        PtrElementSize::EightBytes
    } else if code == 6 {
        PtrElementSize::Pointer
    } else {
        PtrElementSize::InlineComposite
    }
}

/// The three bit code of an element size in a list pointer.
pub open spec fn ptr_element_size_code(size: PtrElementSize) -> int {
    match size {
        PtrElementSize::Void => 0,
        PtrElementSize::Bit => 1,
        PtrElementSize::Byte => 2,
        PtrElementSize::TwoBytes => 3,
        PtrElementSize::FourBytes => 4,
        PtrElementSize::EightBytes => 5,
        PtrElementSize::Pointer => 6,
        PtrElementSize::InlineComposite => 7,
    }
}

impl PtrElementSize {
    /// The three bit code of this element size in a list pointer.
    pub fn code(self) -> (r: u32)
        ensures
            r == ptr_element_size_code(self),
            r < 8,
    {
        match self {
            PtrElementSize::Void => 0,
            PtrElementSize::Bit => 1,
            PtrElementSize::Byte => 2,
            PtrElementSize::TwoBytes => 3,
            PtrElementSize::FourBytes => 4,
            PtrElementSize::EightBytes => 5,
            PtrElementSize::Pointer => 6,
            PtrElementSize::InlineComposite => 7,
        }
    }

    /// The element size of a three bit code.
    pub fn from_code(code: u32) -> (r: Self)
        requires
            code < 8,
        ensures
            r == ptr_element_size_of(code as int),
    {
        if code == 0 {
            PtrElementSize::Void
        } else if code == 1 {
            PtrElementSize::Bit
        } else if code == 2 {
            PtrElementSize::Byte
        } else if code == 3 {
            PtrElementSize::TwoBytes
        } else if code == 4 {
            PtrElementSize::FourBytes
        } else if code == 5 {
            PtrElementSize::EightBytes
        } else if code == 6 {
            PtrElementSize::Pointer
        } else {
            PtrElementSize::InlineComposite
        }
    }

    /// The pointer element size of a list of values of type `D`.
    pub fn size_of<D: Data>() -> (r: PtrElementSize)
        ensures
            r == spec_as_ptr_size(D::spec_element_size()),
    {
        D::element_size().as_ptr_size()
    }

    /// Converts to a full element size. An inline composite element is taken to be empty.
    pub fn to_element_size(self) -> (r: ElementSize)
        ensures
            r == spec_to_element_size(self),
    {
        match self {
            PtrElementSize::Void => ElementSize::Void,
            PtrElementSize::Bit => ElementSize::Bit,
            PtrElementSize::Byte => ElementSize::Byte,
            PtrElementSize::TwoBytes => ElementSize::TwoBytes,
            PtrElementSize::FourBytes => ElementSize::FourBytes,
            PtrElementSize::EightBytes => ElementSize::EightBytes,
            PtrElementSize::Pointer => ElementSize::Pointer,
            PtrElementSize::InlineComposite => ElementSize::InlineComposite(StructSize::empty()),
        }
    }
}

/// The full element size of a pointer element size, an inline composite element being empty.
pub open spec fn spec_to_element_size(s: PtrElementSize) -> ElementSize {
    match s {
        PtrElementSize::Void => ElementSize::Void,
        PtrElementSize::Bit => ElementSize::Bit,
        PtrElementSize::Byte => ElementSize::Byte,
        PtrElementSize::TwoBytes => ElementSize::TwoBytes,
        PtrElementSize::FourBytes => ElementSize::FourBytes,
        PtrElementSize::EightBytes => ElementSize::EightBytes,
        PtrElementSize::Pointer => ElementSize::Pointer,
        PtrElementSize::InlineComposite => ElementSize::InlineComposite(
            StructSize { data: 0, ptrs: 0 },
        ),
    }
}

/// The pointer element size of a full element size.
pub open spec fn spec_as_ptr_size(s: ElementSize) -> PtrElementSize {
    match s {
        ElementSize::Void => PtrElementSize::Void,
        ElementSize::Bit => PtrElementSize::Bit,
        ElementSize::Byte => PtrElementSize::Byte,
        ElementSize::TwoBytes => PtrElementSize::TwoBytes,
        ElementSize::FourBytes => PtrElementSize::FourBytes,
        ElementSize::EightBytes => PtrElementSize::EightBytes,
        ElementSize::Pointer => PtrElementSize::Pointer,
        ElementSize::InlineComposite(_) => PtrElementSize::InlineComposite,
    }
}

/// The number of bits one element of this size takes.
pub open spec fn spec_bits(s: ElementSize) -> int {
    match s {
        ElementSize::Void => 0,
        ElementSize::Bit => 1,
        ElementSize::Byte => 8,
        ElementSize::TwoBytes => 16,
        ElementSize::FourBytes => 32,
        ElementSize::EightBytes => 64,
        ElementSize::Pointer => 64,
        ElementSize::InlineComposite(size) => size.spec_total() * 64,
    }
}

/// Whether an element size takes no space.
pub open spec fn spec_element_empty(s: ElementSize) -> bool {
    s == ElementSize::Void || s == ElementSize::InlineComposite(StructSize { data: 0, ptrs: 0 })
}

/// Whether an element size is made of pointers alone.
pub open spec fn spec_element_ptrs(s: ElementSize) -> bool {
    !spec_element_empty(s) && (s == ElementSize::Pointer || (s is InlineComposite
        && s->InlineComposite_0.data == 0))
}

/// Whether an element size is a struct with both data and pointers.
pub open spec fn spec_element_composite(s: ElementSize) -> bool {
    s is InlineComposite && s->InlineComposite_0.data != 0 && s->InlineComposite_0.ptrs != 0
}

/// The result of upgrading a list of one element size so that it can also hold another.
pub open spec fn spec_upgrade(a: ElementSize, b: ElementSize) -> Option<ElementSize> {
    if a == b {
        Some(b)
    } else {
        match (a, b) {
            (ElementSize::InlineComposite(x), ElementSize::InlineComposite(y)) => Some(
                ElementSize::InlineComposite(spec_struct_max(x, y)),
            ),
            (ElementSize::Bit, _) => None,
            (_, ElementSize::Bit) => None,
            (ElementSize::InlineComposite(x), ElementSize::Pointer) => if x.ptrs == 0 {
                None
            } else {
                Some(a)
            },
            (ElementSize::Pointer, ElementSize::InlineComposite(y)) => if y.ptrs == 0 {
                None
            } else {
                Some(b)
            },
            (ElementSize::InlineComposite(x), ElementSize::Void) => Some(a),
            (ElementSize::InlineComposite(x), _) => if x.data == 0 {
                None
            } else {
                Some(a)
            },
            (ElementSize::Void, ElementSize::InlineComposite(y)) => Some(b),
            (_, ElementSize::InlineComposite(y)) => if y.data == 0 {
                None
            } else {
                Some(b)
            },
            _ => None,
        }
    }
}

/// Whether a list of one element size can be read as a list of another.
pub open spec fn spec_upgradable_to(a: ElementSize, b: PtrElementSize) -> bool {
    match (a, b) {
        (ElementSize::InlineComposite(_), PtrElementSize::InlineComposite) => true,
        (ElementSize::Bit, PtrElementSize::Bit) => true,
        (ElementSize::Bit, _) => false,
        (_, PtrElementSize::Bit) => false,
        (ElementSize::InlineComposite(x), PtrElementSize::Pointer) => x.ptrs != 0,
        (ElementSize::InlineComposite(x), PtrElementSize::Byte) => x.data != 0,
        (ElementSize::InlineComposite(x), PtrElementSize::TwoBytes) => x.data != 0,
        (ElementSize::InlineComposite(x), PtrElementSize::FourBytes) => x.data != 0,
        (ElementSize::InlineComposite(x), PtrElementSize::EightBytes) => x.data != 0,
        (_, PtrElementSize::InlineComposite) => true,
        _ => spec_as_ptr_size(a) == b,
    }
}

impl ElementSize {
    /// Whether this element size has no data or pointers.
    pub fn is_empty(self) -> (r: bool)
        ensures
            r == spec_element_empty(self),
    {
        match self {
            ElementSize::Void => true,
            ElementSize::InlineComposite(s) => s.is_empty(),
            _ => false,
        }
    }

    /// Whether this element size consists entirely of pointers.
    pub fn is_ptrs(self) -> (r: bool)
        ensures
            r == spec_element_ptrs(self),
    {
        let not_empty = !self.is_empty();
        let has_ptrs = match self {
            ElementSize::Pointer => true,
            ElementSize::InlineComposite(s) => s.data == 0,
            _ => false,
        };
        not_empty && has_ptrs
    }

    /// Whether this element size is a composite of data *and* pointers.
    pub fn is_composite(self) -> (r: bool)
        ensures
            r == spec_element_composite(self),
    {
        match self {
            ElementSize::InlineComposite(s) => s.data != 0 && s.ptrs != 0,
            _ => false,
        }
    }

    /// Whether this element size consists entirely of data.
    pub fn is_data(self) -> (r: bool)
        ensures
            r == (!spec_element_empty(self) && !spec_element_ptrs(self)
                && !spec_element_composite(self)),
    {
        let not_empty = !self.is_empty();
        let not_ptrs = !self.is_ptrs();
        let not_composite = !self.is_composite();
        not_empty && not_ptrs && not_composite
    }

    /// Whether this is an inline composite element size, whatever its struct size.
    pub fn is_inline_composite(self) -> (r: bool)
        ensures
            r == (self is InlineComposite),
    {
        match self {
            ElementSize::InlineComposite(_) => true,
            _ => false,
        }
    }

    /// The number of bits per element.
    pub fn bits(self) -> (r: u32)
        ensures
            r == spec_bits(self),
    {
        match self {
            ElementSize::Void => 0,
            ElementSize::Bit => 1,
            ElementSize::Byte => 8,
            ElementSize::TwoBytes => 16,
            ElementSize::FourBytes => 32,
            ElementSize::EightBytes => 64,
            ElementSize::Pointer => 64,
            ElementSize::InlineComposite(size) => size.total() * 64,
        }
    }

    /// The number of bytes and pointers per element. Bit elements give 0 bytes.
    pub fn bytes_and_ptrs(self) -> (r: (u32, u16))
        ensures
            r == (match self {
                ElementSize::Void => (0u32, 0u16),
                ElementSize::Bit => (0u32, 0u16),
                ElementSize::Byte => (1u32, 0u16),
                ElementSize::TwoBytes => (2u32, 0u16),
                ElementSize::FourBytes => (4u32, 0u16),
                ElementSize::EightBytes => (8u32, 0u16),
                ElementSize::Pointer => (0u32, 1u16),
                ElementSize::InlineComposite(size) => ((size.data * 8) as u32, size.ptrs),
            }),
    {
        match self {
            ElementSize::Void => (0, 0),
            ElementSize::Bit => (0, 0),
            ElementSize::Byte => (1, 0),
            ElementSize::TwoBytes => (2, 0),
            ElementSize::FourBytes => (4, 0),
            ElementSize::EightBytes => (8, 0),
            ElementSize::Pointer => (0, 1),
            ElementSize::InlineComposite(size) => (size.data as u32 * 8, size.ptrs),
        }
    }

    /// The struct size of an element of this size read as a struct. Bits read as empty structs.
    pub fn struct_upgrade(self) -> (r: StructSize)
        ensures
            r == (match self {
                ElementSize::Void => StructSize { data: 0, ptrs: 0 },
                ElementSize::Bit => StructSize { data: 0, ptrs: 0 },
                ElementSize::Pointer => StructSize { data: 0, ptrs: 1 },
                ElementSize::InlineComposite(size) => size,
                _ => StructSize { data: 1, ptrs: 0 },
            }),
    {
        match self {
            ElementSize::Void | ElementSize::Bit => StructSize::empty(),
            ElementSize::Byte | ElementSize::TwoBytes | ElementSize::FourBytes
            | ElementSize::EightBytes => StructSize { data: 1, ptrs: 0 },
            ElementSize::Pointer => StructSize { data: 0, ptrs: 1 },
            ElementSize::InlineComposite(size) => size,
        }
    }

    /// The largest number of elements a list of this element size can hold.
    pub fn max_elements(self) -> (r: u29)
        ensures
            r@ == (match self {
                ElementSize::InlineComposite(size) => if size.spec_total() == 0 {
                    max_element_count()
                } else {
                    (max_element_count() - 1) / size.spec_total()
                },
                _ => max_element_count(),
            }),
    {
        match self {
            ElementSize::InlineComposite(size) => size.max_elements(),
            _ => u29::maximum(),
        }
    }

    /// The number of bytes holding the data of a list of `count` elements, a partial byte of
    /// bits counting as a whole byte. The result is truncated to 32 bits.
    pub fn total_bytes(self, count: u29) -> (r: u32)
        ensures
            r == (((spec_bits(self) * count@ + 7) / 8) as u32),
    {
        let c = count.get() as u64;
        let bits = self.bits() as u64;
        assert(bits * c <= 8388480 * 536870911) by (nonlinear_arith)
            requires
                bits <= 8388480,
                c <= 536870911,
        ;
        let total = bits * c;
        ((total + 7) / 8) as u32
    }

    /// The number of words holding the data of a list of `count` elements, not counting the tag
    /// of an inline composite list. The result is truncated to 32 bits.
    pub fn total_words(self, count: u29) -> (r: u32)
        ensures
            r == (((spec_bits(self) * count@ + 63) / 64) as u32),
    {
        let c = count.get() as u64;
        let bits = self.bits() as u64;
        assert(bits * c <= 8388480 * 536870911) by (nonlinear_arith)
            requires
                bits <= 8388480,
                c <= 536870911,
        ;
        Word::round_up_bit_count(bits * c)
    }

    /// The number of words to allocate for a list of `count` elements, its tag included.
    pub fn object_words(self, count: u29) -> (r: u32)
        requires
            ((spec_bits(self) * count@ + 63) / 64) as u32 + (if self is InlineComposite {
                1int
            } else {
                0
            }) <= u32::MAX,
        ensures
            r == ((spec_bits(self) * count@ + 63) / 64) as u32 + (if self is InlineComposite {
                1int
            } else {
                0
            }),
    {
        let tag: u32 = if self.is_inline_composite() {
            1
        } else {
            0
        };
        self.total_words(count) + tag
    }

    /// Whether a list with elements of this size can be read as a list of the other size.
    pub fn upgradable_to(self, other: PtrElementSize) -> (r: bool)
        ensures
            r == spec_upgradable_to(self, other),
    {
        match (self, other) {
            (ElementSize::InlineComposite(_), PtrElementSize::InlineComposite) => true,
            (ElementSize::Bit, PtrElementSize::Bit) => true,
            (ElementSize::Bit, _) => false,
            (_, PtrElementSize::Bit) => false,
            (ElementSize::InlineComposite(x), PtrElementSize::Pointer) => x.ptrs != 0,
            (ElementSize::InlineComposite(x), PtrElementSize::Byte) => x.data != 0,
            (ElementSize::InlineComposite(x), PtrElementSize::TwoBytes) => x.data != 0,
            (ElementSize::InlineComposite(x), PtrElementSize::FourBytes) => x.data != 0,
            (ElementSize::InlineComposite(x), PtrElementSize::EightBytes) => x.data != 0,
            (_, PtrElementSize::InlineComposite) => true,
            (s, o) => s.as_ptr_size() == o,
        }
    }

    /// The element size of a list upgraded so that it holds elements of both sizes, or `None`
    /// when no such upgrade exists.
    pub fn upgrade_to(self, other: ElementSize) -> (r: Option<ElementSize>)
        ensures
            r == spec_upgrade(self, other),
    {
        if self == other {
            return Some(other);
        }
        match (self, other) {
            (ElementSize::InlineComposite(x), ElementSize::InlineComposite(y)) => Some(
                ElementSize::InlineComposite(x.max(y)),
            ),
            (ElementSize::Bit, _) => None,
            (_, ElementSize::Bit) => None,
            (ElementSize::InlineComposite(x), ElementSize::Pointer) => if x.ptrs == 0 {
                None
            } else {
                Some(self)
            },
            (ElementSize::Pointer, ElementSize::InlineComposite(y)) => if y.ptrs == 0 {
                None
            } else {
                Some(other)
            },
            (ElementSize::InlineComposite(_), ElementSize::Void) => Some(self),
            (ElementSize::InlineComposite(x), _) => if x.data == 0 {
                None
            } else {
                Some(self)
            },
            (ElementSize::Void, ElementSize::InlineComposite(_)) => Some(other),
            (_, ElementSize::InlineComposite(y)) => if y.data == 0 {
                None
            } else {
                Some(other)
            },
            _ => None,
        }
    }

    /// The element size of a list of values of type `D`.
    pub fn size_of<D: Data>() -> (r: ElementSize)
        ensures
            r == D::spec_element_size(),
    {
        D::element_size()
    }

    /// An element size for an empty list of values of type `D`: their size, taken through the
    /// pointer element size, so that a struct element is an empty one.
    pub fn empty_size_of<D: Data>() -> (r: ElementSize)
        ensures
            r == spec_to_element_size(spec_as_ptr_size(D::spec_element_size())),
    {
        PtrElementSize::size_of::<D>().to_element_size()
    }

    /// Converts this element size into its pointer element size counterpart.
    pub fn as_ptr_size(self) -> (r: PtrElementSize)
        ensures
            r == spec_as_ptr_size(self),
    {
        match self {
            ElementSize::Void => PtrElementSize::Void,
            ElementSize::Bit => PtrElementSize::Bit,
            ElementSize::Byte => PtrElementSize::Byte,
            ElementSize::TwoBytes => PtrElementSize::TwoBytes,
            ElementSize::FourBytes => PtrElementSize::FourBytes,
            ElementSize::EightBytes => PtrElementSize::EightBytes,
            ElementSize::Pointer => PtrElementSize::Pointer,
            ElementSize::InlineComposite(_) => PtrElementSize::InlineComposite,
        }
    }
}

/// Upgrading is reflexive: every element size upgrades to itself.
pub proof fn lemma_upgrade_reflexive(a: ElementSize)
    ensures
        spec_upgrade(a, a) == Some(a),
{
}

/// Upgrading is commutative: the upgrade of `a` to `b` is the upgrade of `b` to `a`.
pub proof fn lemma_upgrade_commutative(a: ElementSize, b: ElementSize)
    ensures
        spec_upgrade(a, b) == spec_upgrade(b, a),
{
}

/// The result of an upgrade absorbs both of its inputs: upgrading it again to either input
/// gives it back.
pub proof fn lemma_upgrade_absorbs(a: ElementSize, b: ElementSize)
    requires
        spec_upgrade(a, b) is Some,
    ensures
        spec_upgrade(spec_upgrade(a, b)->0, a) == spec_upgrade(a, b),
        spec_upgrade(spec_upgrade(a, b)->0, b) == spec_upgrade(a, b),
{
}

/// An upgrade succeeds only where the list can be read as the other size.
pub proof fn lemma_upgrade_readable(a: ElementSize, b: ElementSize)
    requires
        spec_upgrade(a, b) is Some,
    ensures
        spec_upgradable_to(a, spec_as_ptr_size(spec_upgrade(a, b)->0)),
        spec_upgradable_to(b, spec_as_ptr_size(spec_upgrade(a, b)->0)),
{
}

} // verus!

verus! {

/// A struct pointer: the offset of the struct's content and its size.
#[derive(Clone, Copy, Debug, PartialEq, Eq, Structural)]
pub struct StructPtr {
    pub parts: Parts,
}

impl StructPtr {
    /// A pointer to a struct of the given size at the given offset from the pointer's end.
    pub fn new(offset: SignedSegmentOffset, size: StructSize) -> (r: Self)
        ensures
            kind_of(r.parts.lower) == WireKind::Struct,
            content_offset_of(r.parts.lower) == offset@,
            r.parts.upper == size.data + size.ptrs * 65536,
    {
        let o = offset.get();
        let enc: u32 = if o < 0 {
            (o + 1073741824) as u32
        } else {
            o as u32
        };
        proof {
            lemma_offset_round_trip(o as int, 0);
        }
        StructPtr {
            parts: Parts { lower: enc * 4, upper: size.data as u32 + (size.ptrs as u32) * 65536 },
        }
    }

    /// The tag of an inline composite list: the number of elements and their struct size.
    pub fn new_inline_composite_tag(count: u29, size: StructSize) -> (r: Self)
        ensures
            r.parts.lower == count@ * 4,
            r.parts.upper == size.data + size.ptrs * 65536,
    {
        StructPtr {
            parts: Parts {
                lower: count.get() * 4,
                upper: size.data as u32 + (size.ptrs as u32) * 65536,
            },
        }
    }

    /// The offset of the struct's content from the end of the pointer.
    pub fn offset(&self) -> (r: SignedSegmentOffset)
        ensures
            r@ == content_offset_of(self.parts.lower),
    {
        self.parts.content_offset()
    }

    /// The element count held by an inline composite list tag.
    pub fn inline_composite_element_count(&self) -> (r: u29)
        ensures
            r@ == (self.parts.lower / 4) % 536870912,
    {
        u29::new_unwrap((self.parts.lower / 4) % 536870912)
    }

    /// The size of the data section in words.
    pub fn data_size(&self) -> (r: u16)
        ensures
            r == self.parts.upper % 65536,
    {
        (self.parts.upper % 65536) as u16
    }

    /// The number of pointers in the pointer section.
    pub fn ptr_count(&self) -> (r: u16)
        ensures
            r == self.parts.upper / 65536,
    {
        (self.parts.upper / 65536) as u16
    }

    /// The size of the struct.
    pub fn size(&self) -> (r: StructSize)
        ensures
            r.data == self.parts.upper % 65536,
            r.ptrs == self.parts.upper / 65536,
    {
        StructSize { data: self.data_size(), ptrs: self.ptr_count() }
    }
}

/// A struct pointer reads back the offset and size it was made with.
pub proof fn lemma_struct_ptr_round_trip(p: StructPtr, offset: int, size: StructSize)
    requires
        kind_of(p.parts.lower) == WireKind::Struct,
        content_offset_of(p.parts.lower) == offset,
        p.parts.upper == size.data + size.ptrs * 65536,
    ensures
        p.parts.upper % 65536 == size.data,
        p.parts.upper / 65536 == size.ptrs,
{
}

/// A list pointer: the offset of the list's content, its element size and element count.
#[derive(Clone, Copy, Debug, PartialEq, Eq, Structural)]
pub struct ListPtr {
    pub parts: Parts,
}

impl ListPtr {
    /// A pointer to a list at the given offset from the pointer's end.
    pub fn new(offset: SignedSegmentOffset, size: PtrElementSize, count: u29) -> (r: Self)
        ensures
            kind_of(r.parts.lower) == WireKind::List,
            content_offset_of(r.parts.lower) == offset@,
            r.parts.upper % 8 == ptr_element_size_code(size),
            r.parts.upper / 8 == count@,
    {
        let o = offset.get();
        let enc: u32 = if o < 0 {
            (o + 1073741824) as u32
        } else {
            o as u32
        };
        proof {
            lemma_offset_round_trip(o as int, 1);
        }
        let c = count.get();
        let code = size.code();
        ListPtr { parts: Parts { lower: enc * 4 + 1, upper: c * 8 + code } }
    }

    /// The size of the list's elements.
    pub fn element_size(&self) -> (r: PtrElementSize)
        ensures
            r == ptr_element_size_of((self.parts.upper % 8) as int),
    {
        PtrElementSize::from_code(self.parts.upper % 8)
    }

    /// The number of elements; for inline composite lists, the word count of the list without
    /// its tag.
    pub fn element_count(&self) -> (r: u29)
        ensures
            r@ == self.parts.upper / 8,
    {
        u29::new_unwrap(self.parts.upper / 8)
    }

    /// The offset of the list's content from the end of the pointer.
    pub fn offset(&self) -> (r: SignedSegmentOffset)
        ensures
            r@ == content_offset_of(self.parts.lower),
    {
        self.parts.content_offset()
    }
}

/// The element size a code stands for has that code.
pub proof fn lemma_element_size_code_round_trip(size: PtrElementSize)
    ensures
        ptr_element_size_of(ptr_element_size_code(size)) == size,
{
}

/// A far pointer: a segment, an offset into it, and whether the landing pad is two words.
#[derive(Clone, Copy, Debug, PartialEq, Eq, Structural)]
pub struct FarPtr {
    pub parts: Parts,
}

impl FarPtr {
    /// A far pointer to the landing pad at `offset` in `segment`.
    pub fn new(segment: u32, offset: SegmentOffset, double_far: bool) -> (r: Self)
        ensures
            kind_of(r.parts.lower) == WireKind::Far,
            r.parts.lower / 8 == offset@,
            ((r.parts.lower / 4) % 2 == 1) == double_far,
            r.parts.upper == segment,
    {
        let df: u32 = if double_far {
            1
        } else {
            0
        };
        FarPtr { parts: Parts { lower: offset.get() * 8 + df * 4 + 2, upper: segment } }
    }

    /// The offset of the landing pad in its segment.
    pub fn offset(&self) -> (r: SegmentOffset)
        ensures
            r@ == self.parts.lower / 8,
    {
        u29::new_unwrap(self.parts.lower / 8)
    }

    /// Whether the landing pad is two words: a far pointer and the tag of the content.
    pub fn double_far(&self) -> (r: bool)
        ensures
            r == ((self.parts.lower / 4) % 2 == 1),
    {
        (self.parts.lower / 4) % 2 == 1
    }

    /// The segment holding the landing pad.
    pub fn segment(&self) -> (r: u32)
        ensures
            r == self.parts.upper,
    {
        self.parts.upper
    }
}

/// A capability pointer: an index into the message's capability table.
#[derive(Clone, Copy, Debug, PartialEq, Eq, Structural)]
pub struct CapabilityPtr {
    pub parts: Parts,
}

impl CapabilityPtr {
    /// The index of the capability in the table.
    pub fn capability_index(&self) -> (r: u32)
        ensures
            r == self.parts.upper,
    {
        self.parts.upper
    }

    /// A pointer to the capability at `index`.
    pub fn new(index: u32) -> (r: Self)
        ensures
            r.parts.lower == 3,
            r.parts.upper == index,
    {
        CapabilityPtr { parts: Parts { lower: 3, upper: index } }
    }
}

/// Whether a word's lower half makes it a capability pointer.
pub open spec fn is_capability_parts(p: Parts) -> bool {
    p.lower == 3
}

/// What a read that expected `expected` reports on finding the pointer `p`.
pub open spec fn spec_fail_read(p: Parts, expected: Option<ExpectedRead>) -> Error {
    Error {
        kind: ErrorKind::UnexpectedRead(
            FailedRead {
                expected,
                actual: if parts_null(p) {
                    ActualRead::Null
                } else {
                    match kind_of(p.lower) {
                        WireKind::Struct => ActualRead::Struct,
                        WireKind::List => ActualRead::List,
                        WireKind::Far => ActualRead::Far,
                        WireKind::Other => ActualRead::Other,
                    }
                },
            },
        ),
    }
}

/// A pointer of any kind.
#[derive(Clone, Copy, Debug, PartialEq, Eq, Structural)]
pub struct WirePtr {
    pub parts: Parts,
}

impl WirePtr {
    /// The null pointer.
    pub fn null() -> (r: Self)
        ensures
            parts_null(r.parts),
    {
        WirePtr { parts: Parts { lower: 0, upper: 0 } }
    }

    /// The pointer held by a word.
    pub fn from_word(w: Word) -> (r: Self)
        ensures
            r.parts == parts_of(w),
    {
        WirePtr { parts: Parts::from_word(w) }
    }

    /// The word holding this pointer.
    pub fn to_word(self) -> (r: Word)
        ensures
            parts_of(r) == self.parts,
    {
        self.parts.to_word()
    }

    /// The error reported when this pointer is not what a read expected.
    pub fn fail_read(&self, expected: Option<ExpectedRead>) -> (r: Error)
        ensures
            r == spec_fail_read(self.parts, expected),
    {
        let actual = if self.is_null() {
            ActualRead::Null
        } else {
            match self.kind() {
                WireKind::Struct => ActualRead::Struct,
                WireKind::List => ActualRead::List,
                WireKind::Far => ActualRead::Far,
                WireKind::Other => ActualRead::Other,
            }
        };
        Error::from_kind(ErrorKind::UnexpectedRead(FailedRead { expected, actual }))
    }

    /// The kind of pointer.
    pub fn kind(&self) -> (r: WireKind)
        ensures
            r == kind_of(self.parts.lower),
    {
        let k = self.parts.lower % 4;
        if k == 0 {
            WireKind::Struct
        } else if k == 1 {
            WireKind::List
        } else if k == 2 {
            WireKind::Far
        } else {
            WireKind::Other
        }
    }

    /// Whether the pointer is null.
    pub fn is_null(&self) -> (r: bool)
        ensures
            r == parts_null(self.parts),
    {
        self.parts.lower == 0 && self.parts.upper == 0
    }

    /// Whether the pointer is a struct pointer (a null pointer is one too).
    pub fn is_struct(&self) -> (r: bool)
        ensures
            r == (kind_of(self.parts.lower) == WireKind::Struct),
    {
        self.parts.lower % 4 == 0
    }

    /// Whether the pointer is a list pointer.
    pub fn is_list(&self) -> (r: bool)
        ensures
            r == (kind_of(self.parts.lower) == WireKind::List),
    {
        self.parts.lower % 4 == 1
    }

    /// Whether the pointer is a capability pointer.
    pub fn is_capability(&self) -> (r: bool)
        ensures
            r == is_capability_parts(self.parts),
    {
        self.parts.lower == 3
    }

    /// The struct pointer, if this is one.
    pub fn struct_ptr(&self) -> (r: Option<StructPtr>)
        ensures
            r is Some <==> kind_of(self.parts.lower) == WireKind::Struct,
            r matches Some(p) ==> p.parts == self.parts,
    {
        if self.is_struct() {
            Some(StructPtr { parts: self.parts })
        } else {
            None
        }
    }

    /// The struct pointer, or an error saying a struct was expected.
    pub fn try_struct_ptr(&self) -> (r: Result<StructPtr, Error>)
        ensures
            r is Ok <==> kind_of(self.parts.lower) == WireKind::Struct,
            r matches Ok(p) ==> p.parts == self.parts,
            r matches Err(e) ==> e == spec_fail_read(self.parts, Some(ExpectedRead::Struct)),
    {
        match self.struct_ptr() {
            Some(p) => Ok(p),
            None => Err(self.fail_read(Some(ExpectedRead::Struct))),
        }
    }

    /// The list pointer, if this is one.
    pub fn list_ptr(&self) -> (r: Option<ListPtr>)
        ensures
            r is Some <==> kind_of(self.parts.lower) == WireKind::List,
            r matches Some(p) ==> p.parts == self.parts,
    {
        if self.is_list() {
            Some(ListPtr { parts: self.parts })
        } else {
            None
        }
    }

    /// The list pointer, or an error saying a list was expected.
    pub fn try_list_ptr(&self) -> (r: Result<ListPtr, Error>)
        ensures
            r is Ok <==> kind_of(self.parts.lower) == WireKind::List,
            r matches Ok(p) ==> p.parts == self.parts,
            r matches Err(e) ==> e == spec_fail_read(self.parts, Some(ExpectedRead::List)),
    {
        match self.list_ptr() {
            Some(p) => Ok(p),
            None => Err(self.fail_read(Some(ExpectedRead::List))),
        }
    }

    /// The far pointer, if this is one.
    pub fn far_ptr(&self) -> (r: Option<FarPtr>)
        ensures
            r is Some <==> kind_of(self.parts.lower) == WireKind::Far,
            r matches Some(p) ==> p.parts == self.parts,
    {
        if self.parts.lower % 4 == 2 {
            Some(FarPtr { parts: self.parts })
        } else {
            None
        }
    }

    /// The far pointer, or an error saying a far pointer was expected.
    pub fn try_far_ptr(&self) -> (r: Result<FarPtr, Error>)
        ensures
            r is Ok <==> kind_of(self.parts.lower) == WireKind::Far,
            r matches Ok(p) ==> p.parts == self.parts,
            r matches Err(e) ==> e == spec_fail_read(self.parts, Some(ExpectedRead::Far)),
    {
        match self.far_ptr() {
            Some(p) => Ok(p),
            None => Err(self.fail_read(Some(ExpectedRead::Far))),
        }
    }

    /// The capability pointer, if this is one.
    pub fn cap_ptr(&self) -> (r: Option<CapabilityPtr>)
        ensures
            r is Some <==> is_capability_parts(self.parts),
            r matches Some(p) ==> p.parts == self.parts,
    {
        if self.is_capability() {
            Some(CapabilityPtr { parts: self.parts })
        } else {
            None
        }
    }

    /// The capability pointer, or an error saying a capability was expected.
    pub fn try_cap_ptr(&self) -> (r: Result<CapabilityPtr, Error>)
        ensures
            r is Ok <==> is_capability_parts(self.parts),
            r matches Ok(p) ==> p.parts == self.parts,
            r matches Err(e) ==> e == spec_fail_read(self.parts, Some(ExpectedRead::Capability)),
    {
        match self.cap_ptr() {
            Some(p) => Ok(p),
            None => Err(self.fail_read(Some(ExpectedRead::Capability))),
        }
    }
}

/// Two words with the same halves are the same word: splitting a word into its halves loses
/// nothing.
pub proof fn lemma_parts_injective(a: Word, b: Word)
    requires
        parts_of(a) == parts_of(b),
    ensures
        a == b,
{
    lemma_byte_join(a.0@[0], a.0@[1], a.0@[2], a.0@[3]);
    lemma_byte_join(a.0@[4], a.0@[5], a.0@[6], a.0@[7]);
    lemma_byte_join(b.0@[0], b.0@[1], b.0@[2], b.0@[3]);
    lemma_byte_join(b.0@[4], b.0@[5], b.0@[6], b.0@[7]);
    assert(a.0 =~= b.0);
}

/// The location of an object in a message.
#[derive(Clone, Copy, Debug, PartialEq, Eq, Structural)]
pub struct Address {
    /// The segment the object is in.
    pub segment: u32,
    /// The offset into the segment the object is at.
    pub offset: SegmentOffset,
}

impl Address {
    /// The root address of a message: the first word of the first segment.
    pub fn root() -> (r: Self)
        ensures
            r.segment == 0,
            r.offset@ == 0,
    {
        Address { segment: 0, offset: u29::zero() }
    }
}

/// Controls how a type is copied into a message.
#[derive(Clone, Copy, PartialEq, Eq, Debug, Structural)]
pub enum CopySize<T> {
    /// Size is copied from the input value's size.
    FromValue,
    /// Size is determined by the canonical size of the value.
    Canonical,
    /// The size is at least this value.
    Minimum(T),
}

impl<T> CopySize<T> {
    /// Whether the size is the canonical size of the value.
    pub fn is_canonical(&self) -> (r: bool)
        ensures
            r == (*self is Canonical),
    {
        match self {
            CopySize::Canonical => true,
            _ => false,
        }
    }
}

/// The result of comparing two pointers.
#[derive(PartialEq, Eq, Debug, Clone, Copy, Structural)]
pub enum PtrEquality {
    NotEqual,
    Equal,
    ContainsCaps,
}

/// Signals that, when an error occurs while copying, the destination should be written null.
#[derive(Default, Clone, Copy, Debug, PartialEq, Eq, Structural)]
pub struct WriteNull;

} // verus!

verus! {

/// Where the reads of a reader stand: the segment it is in and the words it may still read
/// (`None`: no limit).
#[derive(Debug, Clone, Copy, PartialEq, Eq, Structural)]
pub struct ReadState {
    pub segment: u32,
    pub limit: Option<u64>,
}

/// Reads `words` from a limit: the new limit, or `None` when the limit is exceeded.
pub open spec fn spec_limit_read(limit: Option<u64>, words: int) -> Option<Option<u64>> {
    match limit {
        None => Some(None),
        Some(l) => if words <= l {
            Some(Some((l - words) as u64))
        } else {
            None
        },
    }
}

/// Whether `len` words starting at `start` lie in a segment, `start` itself being inside it.
pub open spec fn section_ok(seg: Seq<Word>, start: int, len: int) -> bool {
    0 <= start < seg.len() && start + len <= seg.len()
}

/// Reading `len` words at `offset` of segment `id`: the new state and where the words start.
pub open spec fn spec_read_in(
    segs: Seq<Seq<Word>>,
    st: ReadState,
    id: u32,
    offset: int,
    len: int,
) -> Result<(ReadState, int), Error> {
    if id >= segs.len() {
        Err(Error { kind: ErrorKind::MissingSegment(id) })
    } else if !section_ok(segs[id as int], offset, len) {
        Err(Error { kind: ErrorKind::PointerOutOfBounds })
    } else {
        match spec_limit_read(st.limit, len) {
            None => Err(Error { kind: ErrorKind::ReadLimitExceeded }),
            Some(l) => Ok((ReadState { segment: id, limit: l }, offset)),
        }
    }
}

/// Reading `len` words at `offset` words from the end of the word at `origin` in the current
/// segment.
pub open spec fn spec_read_from_end(
    segs: Seq<Seq<Word>>,
    st: ReadState,
    origin: int,
    offset: int,
    len: int,
) -> Result<(ReadState, int), Error> {
    let start = origin + 1 + offset;
    if !section_ok(segs[st.segment as int], start, len) {
        Err(Error { kind: ErrorKind::PointerOutOfBounds })
    } else {
        match spec_limit_read(st.limit, len) {
            None => Err(Error { kind: ErrorKind::ReadLimitExceeded }),
            Some(l) => Ok((ReadState { segment: st.segment, limit: l }, start)),
        }
    }
}

/// Where the content a pointer describes is found.
#[derive(Debug, Clone, Copy, PartialEq, Eq, Structural)]
pub enum LocationModel {
    /// In the current segment, relative to the end of the word at this position.
    Near(i64),
    /// In the current segment (the landing pad's), relative to the end of the pad.
    Far(i64),
    /// At an offset of another segment.
    DoubleFar(u32, i64),
}

/// Finds the pointer that describes the content of the pointer at `src` in the current segment,
/// following a far pointer to its landing pad.
pub open spec fn spec_location_of(segs: Seq<Seq<Word>>, st: ReadState, src: int) -> Result<
    (ReadState, Parts, LocationModel),
    Error,
> {
    let p = parts_of(segs[st.segment as int][src]);
    if kind_of(p.lower) == WireKind::Far {
        let far_seg = p.upper;
        let double_far = (p.lower / 4) % 2 == 1;
        let pad_len: int = if double_far {
            2
        } else {
            1
        };
        match spec_read_in(segs, st, far_seg, (p.lower / 8) as int, pad_len) {
            Err(e) => Err(e),
            Ok((st2, pad)) => {
                let pad_ptr = parts_of(segs[far_seg as int][pad]);
                if double_far {
                    let tag = parts_of(segs[far_seg as int][pad + 1]);
                    if kind_of(pad_ptr.lower) != WireKind::Far {
                        Err(spec_fail_read(pad_ptr, Some(ExpectedRead::Far)))
                    } else {
                        Ok((st2, tag, LocationModel::DoubleFar(pad_ptr.upper, (pad_ptr.lower / 8) as i64)))
                    }
                } else {
                    Ok((st2, pad_ptr, LocationModel::Far(pad as i64)))
                }
            },
        }
    } else {
        Ok((st, p, LocationModel::Near(src as i64)))
    }
}

/// Reads `len` words of content found at `loc`, `offset` being the content offset of its
/// pointer.
pub open spec fn spec_read_content(
    segs: Seq<Seq<Word>>,
    st: ReadState,
    loc: LocationModel,
    offset: int,
    len: int,
) -> Result<(ReadState, int), Error> {
    match loc {
        LocationModel::Near(o) => spec_read_from_end(segs, st, o as int, offset, len),
        LocationModel::Far(o) => spec_read_from_end(segs, st, o as int, offset, len),
        LocationModel::DoubleFar(s, off) => spec_read_in(segs, st, s, off as int, len),
    }
}

/// The size of the struct a struct pointer describes.
pub open spec fn struct_size_of(p: Parts) -> StructSize {
    StructSize { data: (p.upper % 65536) as u16, ptrs: (p.upper / 65536) as u16 }
}

/// Reading the struct the pointer at `src` refers to: the new state, where the struct starts
/// and its size.
pub open spec fn spec_read_struct(segs: Seq<Seq<Word>>, st: ReadState, src: int) -> Result<
    (ReadState, int, StructSize),
    Error,
> {
    match spec_location_of(segs, st, src) {
        Err(e) => Err(e),
        Ok((st1, p, loc)) => if kind_of(p.lower) != WireKind::Struct {
            Err(spec_fail_read(p, Some(ExpectedRead::Struct)))
        } else {
            let size = struct_size_of(p);
            match spec_read_content(segs, st1, loc, content_offset_of(p.lower), size.spec_total()) {
                Err(e) => Err(e),
                Ok((st2, start)) => Ok((st2, start, size)),
            }
        },
    }
}

/// The error of a list read whose elements cannot be read as the expected size.
pub open spec fn spec_fail_upgrade(from: PtrElementSize, to: PtrElementSize) -> Error {
    Error { kind: ErrorKind::IncompatibleUpgrade(IncompatibleUpgrade { from, to }) }
}

/// Reading the list described by a list pointer `p` found at `loc`: the new state, where the
/// elements start, their size and their count.
pub open spec fn spec_read_list_content(
    segs: Seq<Seq<Word>>,
    st: ReadState,
    loc: LocationModel,
    p: Parts,
    expected: Option<PtrElementSize>,
) -> Result<(ReadState, int, ElementSize, int), Error> {
    let ptr_element = ptr_element_size_of((p.upper % 8) as int);
    let count = p.upper / 8;
    if ptr_element == PtrElementSize::InlineComposite {
        let word_count = count;
        if word_count + 1 > u29_max() {
            Err(Error { kind: ErrorKind::PointerOutOfBounds })
        } else {
            match spec_read_content(segs, st, loc, content_offset_of(p.lower), word_count + 1) {
                Err(e) => Err(e),
                Ok((st2, tag_pos)) => {
                    let tag = parts_of(segs[st2.segment as int][tag_pos]);
                    if kind_of(tag.lower) != WireKind::Struct {
                        Err(Error { kind: ErrorKind::UnsupportedInlineCompositeElementTag })
                    } else {
                        let element_count = (tag.lower / 4) % 536870912;
                        let size = struct_size_of(tag);
                        let element_size = ElementSize::InlineComposite(size);
                        if expected is Some && !spec_upgradable_to(element_size, expected->0) {
                            Err(spec_fail_upgrade(ptr_element, expected->0))
                        } else if element_count * size.spec_total() > word_count {
                            Err(Error { kind: ErrorKind::InlineCompositeOverrun })
                        } else if size.spec_total() == 0 {
                            match spec_limit_read(st2.limit, element_count as int) {
                                None => Err(Error { kind: ErrorKind::ReadLimitExceeded }),
                                Some(l) => Ok(
                                    (
                                        ReadState { segment: st2.segment, limit: l },
                                        tag_pos + 1,
                                        element_size,
                                        element_count as int,
                                    ),
                                ),
                            }
                        } else {
                            Ok((st2, tag_pos + 1, element_size, element_count as int))
                        }
                    }
                },
            }
        }
    } else {
        let element_size = spec_to_element_size(ptr_element);
        if expected is Some && !spec_upgradable_to(element_size, expected->0) {
            Err(spec_fail_upgrade(ptr_element, expected->0))
        } else {
            let st1 = if element_size == ElementSize::Void {
                match spec_limit_read(st.limit, count as int) {
                    None => None,
                    Some(l) => Some(ReadState { segment: st.segment, limit: l }),
                }
            } else {
                Some(st)
            };
            match st1 {
                None => Err(Error { kind: ErrorKind::ReadLimitExceeded }),
                Some(st1) => {
                    let words = (spec_bits(element_size) * count + 63) / 64;
                    match spec_read_content(segs, st1, loc, content_offset_of(p.lower), words) {
                        Err(e) => Err(e),
                        Ok((st2, start)) => Ok((st2, start, element_size, count as int)),
                    }
                },
            }
        }
    }
}

/// Reading the list the pointer at `src` refers to.
pub open spec fn spec_read_list(
    segs: Seq<Seq<Word>>,
    st: ReadState,
    src: int,
    expected: Option<PtrElementSize>,
) -> Result<(ReadState, int, ElementSize, int), Error> {
    match spec_location_of(segs, st, src) {
        Err(e) => Err(e),
        Ok((st1, p, loc)) => if kind_of(p.lower) != WireKind::List {
            Err(spec_fail_read(p, Some(ExpectedRead::List)))
        } else {
            spec_read_list_content(segs, st1, loc, p, expected)
        },
    }
}

} // verus!

verus! {

/// A reader of one segment of an arena.
pub struct SegmentReader<'a, A: ReadArena + ?Sized> {
    arena: &'a A,
    id: SegmentId,
    segment: &'a [Word],
}

impl<'a, A: ReadArena + ?Sized> Clone for SegmentReader<'a, A> {
    fn clone(&self) -> (r: Self)
        ensures
            r == *self,
    {
        *self
    }
}

impl<'a, A: ReadArena + ?Sized> Copy for SegmentReader<'a, A> {

}

impl<'a, A: ReadArena + ?Sized> SegmentReader<'a, A> {
    /// The arena read.
    pub closed spec fn spec_arena(&self) -> &'a A {
        self.arena
    }

    /// The id of the segment read.
    pub closed spec fn spec_id(&self) -> SegmentId {
        self.id
    }

    /// The segments of the arena.
    pub open spec fn spec_segs(&self) -> Seq<Seq<Word>> {
        self.spec_arena().spec_segments()
    }

    /// The words of the segment read.
    pub open spec fn spec_words(&self) -> Seq<Word> {
        self.spec_segs()[self.spec_id() as int]
    }

    #[verifier::type_invariant]
    closed spec fn wf(&self) -> bool {
        &&& self.arena.read_inv()
        &&& self.id < self.arena.spec_segments().len()
        &&& self.segment@ == self.arena.spec_segments()[self.id as int]
    }

    /// A reader of segment `id` of the arena, if there is one.
    pub fn from_source(arena: &'a A, id: SegmentId) -> (r: Option<Self>)
        requires
            arena.read_inv(),
        ensures
            r is Some <==> id < arena.spec_segments().len(),
            r matches Some(s) ==> s.spec_arena() == arena && s.spec_id() == id,
    {
        match arena.segment(id) {
            Some(segment) => Some(Self::new(arena, id, segment)),
            None => None,
        }
    }

    /// A reader of segment `id` of the arena, given its words.
    pub fn new(arena: &'a A, id: SegmentId, segment: &'a [Word]) -> (r: Self)
        requires
            arena.read_inv(),
            id < arena.spec_segments().len(),
            segment@ == arena.spec_segments()[id as int],
        ensures
            r.spec_arena() == arena,
            r.spec_id() == id,
    {
        SegmentReader { arena, id, segment }
    }

    /// The id of the segment.
    pub fn id(&self) -> (r: SegmentId)
        ensures
            r == self.spec_id(),
    {
        self.id
    }

    /// The number of words in the segment.
    pub fn len(&self) -> (r: u32)
        ensures
            r == self.spec_words().len(),
    {
        proof {
            use_type_invariant(self);
            self.arena.lemma_segments_fit();
        }
        self.segment.len() as u32
    }

    /// The first word of the segment, if it has any.
    pub fn start(&self) -> (r: Option<SegmentRef>)
        ensures
            r is Some <==> self.spec_words().len() > 0,
            r matches Some(p) ==> p@ == 0,
    {
        if self.len() == 0 {
            None
        } else {
            Some(SegmentRef::new_unchecked(u29::zero()))
        }
    }

    /// The position of the first word of the segment.
    pub fn start_ptr(&self) -> (r: SegmentPtr)
        ensures
            r@ == 0,
    {
        SegmentPtr::new(0)
    }

    /// The position just beyond the end of the segment.
    pub fn end(&self) -> (r: SegmentPtr)
        ensures
            r@ == self.spec_words().len(),
    {
        SegmentPtr::new(self.len() as i64)
    }

    /// Whether the position is inside the segment.
    pub fn contains(&self, ptr: SegmentPtr) -> (r: bool)
        ensures
            r == (0 <= ptr@ < self.spec_words().len()),
    {
        let p = ptr.as_ptr();
        0 <= p && p < self.len() as i64
    }

    /// A checked reference to the position, if it is inside the segment.
    pub fn try_get(&self, ptr: SegmentPtr) -> (r: Option<SegmentRef>)
        ensures
            r is Some <==> (0 <= ptr@ < self.spec_words().len()),
            r matches Some(p) ==> p@ == ptr@,
    {
        proof {
            use_type_invariant(self);
            self.arena.lemma_segments_fit();
        }
        if self.contains(ptr) {
            Some(ptr.as_ref_unchecked())
        } else {
            None
        }
    }

    /// A checked reference to the start of `len` words at `start`, if they lie in the segment.
    pub fn try_get_section(&self, start: SegmentPtr, len: u29) -> (r: Option<SegmentRef>)
        requires
            -0x1_0000_0000 <= start@ <= 0x1_0000_0000,
        ensures
            r is Some <==> section_ok(self.spec_words(), start@, len@ as int),
            r matches Some(p) ==> p@ == start@,
    {
        let end = start.offset(len);
        if end.as_ptr() < start.as_ptr() {
            return None;
        }
        if end.as_ptr() > self.end().as_ptr() {
            return None;
        }
        self.try_get(start)
    }

    /// A checked reference to `len` words at `offset` from the start of the segment.
    pub fn try_get_section_offset(&self, offset: SegmentOffset, len: u29) -> (r: Option<SegmentRef>)
        ensures
            r is Some <==> section_ok(self.spec_words(), offset@ as int, len@ as int),
            r matches Some(p) ==> p@ == offset@,
    {
        let start = self.start_ptr().offset(offset);
        self.try_get_section(start, len)
    }

    /// A reader of another segment of the same arena.
    pub fn segment(&self, id: SegmentId) -> (r: Option<SegmentReader<'a, A>>)
        ensures
            r is Some <==> id < self.spec_segs().len(),
            r matches Some(s) ==> s.spec_arena() == self.spec_arena() && s.spec_id() == id,
    {
        proof {
            use_type_invariant(self);
            self.arena.lemma_segments_fit();
        }
        Self::from_source(self.arena, id)
    }

    /// The word at a position inside the segment.
    pub fn word(&self, at: SegmentRef) -> (r: Word)
        requires
            at@ < self.spec_words().len(),
        ensures
            r == self.spec_words()[at@],
    {
        proof {
            use_type_invariant(self);
        }
        self.segment[at.as_ptr() as usize]
    }

    /// The words of the segment.
    pub fn words(&self) -> (r: &'a [Word])
        ensures
            r@ == self.spec_words(),
    {
        proof {
            use_type_invariant(self);
        }
        self.segment
    }
}

/// Where the content a pointer describes is found.
#[derive(Debug, Clone, Copy)]
pub enum Location {
    /// In the same segment as the pointer, relative to its end.
    Near { origin: SegmentPtr },
    /// In the segment of the landing pad, relative to the end of the pad.
    Far { origin: SegmentPtr },
    /// At an offset of another segment.
    DoubleFar { segment: SegmentId, offset: SegmentOffset },
}

impl Location {
    /// The location as a mathematical value.
    pub open spec fn model(self) -> LocationModel {
        match self {
            Location::Near { origin } => LocationModel::Near(origin@ as i64),
            Location::Far { origin } => LocationModel::Far(origin@ as i64),
            Location::DoubleFar { segment, offset } => LocationModel::DoubleFar(segment, offset@ as i64),
        }
    }
}

/// The pointer describing some content and where the content is.
#[derive(Debug, Clone, Copy)]
pub struct Content {
    pub ptr: WirePtr,
    pub location: Location,
}

/// The position and size of a struct that was read.
#[derive(Debug, Clone, Copy)]
pub struct StructContent {
    pub ptr: SegmentRef,
    pub size: StructSize,
}

impl StructContent {
    /// The position of the struct's data section.
    pub fn data_start(&self) -> (r: SegmentRef)
        ensures
            r@ == self.ptr@,
    {
        self.ptr
    }

    /// The position of the struct's pointer section.
    pub fn ptrs_start(&self) -> (r: SegmentPtr)
        ensures
            r@ == self.ptr@ + self.size.data,
    {
        self.ptr.offset(u29::from_u16(self.size.data))
    }
}

/// The position, element size and element count of a list that was read.
#[derive(Debug, Clone, Copy)]
pub struct ListContent {
    pub ptr: SegmentRef,
    pub element_size: ElementSize,
    pub element_count: u29,
}

/// A reader of objects in an arena: the segment it is in and the words it may still read.
///
/// The limit travels with the reader: each reader made from another starts with what was left
/// of the other's limit.
pub struct ObjectReader<'a, A: ReadArena + ?Sized> {
    segment: SegmentReader<'a, A>,
    limiter: Option<ReadLimiter>,
}

impl<'a, A: ReadArena + ?Sized> Clone for ObjectReader<'a, A> {
    fn clone(&self) -> (r: Self)
        ensures
            r == *self,
    {
        *self
    }
}

impl<'a, A: ReadArena + ?Sized> Copy for ObjectReader<'a, A> {

}

impl<'a, A: ReadArena + ?Sized> ObjectReader<'a, A> {
    /// The segment reader.
    pub closed spec fn spec_segment(&self) -> SegmentReader<'a, A> {
        self.segment
    }

    /// The segments of the arena.
    pub open spec fn spec_segs(&self) -> Seq<Seq<Word>> {
        self.spec_segment().spec_segs()
    }

    /// The words of the current segment.
    pub open spec fn spec_words(&self) -> Seq<Word> {
        self.spec_segment().spec_words()
    }

    /// The words the reader may still read, `None` if it has no limit.
    pub closed spec fn spec_limit(&self) -> Option<u64> {
        match self.limiter {
            Some(l) => Some(l.spec_limit()),
            None => None,
        }
    }

    /// The current segment and limit.
    pub open spec fn spec_state(&self) -> ReadState {
        ReadState { segment: self.spec_segment().spec_id(), limit: self.spec_limit() }
    }

    /// A reader in the given segment, with the given limit.
    pub fn new(segment: SegmentReader<'a, A>, limit: Option<u64>) -> (r: Self)
        ensures
            r.spec_segment() == segment,
            r.spec_state() == (ReadState { segment: segment.spec_id(), limit }),
    {
        let limiter = match limit {
            Some(l) => Some(ReadLimiter::new(l)),
            None => None,
        };
        ObjectReader { segment, limiter }
    }

    /// The current segment reader.
    pub fn segment_reader(&self) -> (r: SegmentReader<'a, A>)
        ensures
            r == self.spec_segment(),
    {
        self.segment
    }

    /// The words left to read, if there is a limit.
    pub fn limit(&self) -> (r: Option<u64>)
        ensures
            r == self.spec_state().limit,
    {
        match self.limiter {
            Some(l) => Some(l.current_limit()),
            None => None,
        }
    }

    /// Reads `words` from the limit, if there is one. Returns whether the read is allowed.
    pub fn try_amplified_read(&mut self, words: u64) -> (r: bool)
        ensures
            r == (spec_limit_read(old(self).spec_state().limit, words as int) is Some),
            r ==> final(self).spec_state() == (ReadState {
                segment: old(self).spec_state().segment,
                limit: spec_limit_read(old(self).spec_state().limit, words as int)->0,
            }),
            !r ==> final(self).spec_state() == old(self).spec_state(),
            final(self).spec_segment() == old(self).spec_segment(),
    {
        match &mut self.limiter {
            Some(l) => l.try_read(words),
            None => true,
        }
    }

    /// Reads `len` words at `offset` in segment `segment`, moving the reader to that segment.
    pub fn try_read_object_in(&mut self, segment: SegmentId, offset: SegmentOffset, len: u29) -> (r:
        Result<SegmentRef, Error>)
        ensures
            final(self).spec_segs() == old(self).spec_segs(),
            final(self).spec_segment().spec_arena() == old(self).spec_segment().spec_arena(),
            match spec_read_in(old(self).spec_segs(), old(self).spec_state(), segment, offset@ as int, len@ as int) {
                Ok((st, pos)) => r matches Ok(p) && p@ == pos && final(self).spec_state() == st,
                Err(e) => r == Err::<SegmentRef, Error>(e) && final(self).spec_state() == old(self).spec_state(),
            },
    {
        let reader = match self.segment.segment(segment) {
            Some(r) => r,
            None => {
                return Err(Error::from_kind(ErrorKind::MissingSegment(segment)));
            },
        };
        let ptr = match reader.try_get_section_offset(offset, len) {
            Some(p) => p,
            None => {
                return Err(Error::from_kind(ErrorKind::PointerOutOfBounds));
            },
        };
        if !self.try_amplified_read(len.get() as u64) {
            return Err(Error::from_kind(ErrorKind::ReadLimitExceeded));
        }
        self.segment = reader;
        Ok(ptr)
    }

    /// Reads `len` words at `offset` words from the end of the word at `ptr`, in the current
    /// segment.
    pub fn try_read_object_from_end_of(&mut self, ptr: SegmentPtr, offset: SignedSegmentOffset, len: u29) -> (r:
        Result<SegmentRef, Error>)
        requires
            0 <= ptr@ <= u29_max(),
        ensures
            final(self).spec_segment() == old(self).spec_segment(),
            match spec_read_from_end(old(self).spec_segs(), old(self).spec_state(), ptr@, offset@ as int, len@ as int) {
                Ok((st, pos)) => r matches Ok(p) && p@ == pos && final(self).spec_state() == st,
                Err(e) => r == Err::<SegmentRef, Error>(e) && final(self).spec_state() == old(self).spec_state(),
            },
    {
        let start = ptr.signed_offset_from_end(offset);
        let new_ptr = match self.segment.try_get_section(start, len) {
            Some(p) => p,
            None => {
                return Err(Error::from_kind(ErrorKind::PointerOutOfBounds));
            },
        };
        if !self.try_amplified_read(len.get() as u64) {
            return Err(Error::from_kind(ErrorKind::ReadLimitExceeded));
        }
        Ok(new_ptr)
    }

    /// Reads `len` words of content at `location`, `offset` being its pointer's content offset.
    pub fn read_content(&mut self, location: Location, offset: SignedSegmentOffset, len: u29) -> (r:
        Result<SegmentRef, Error>)
        requires
            location matches Location::Near { origin } ==> 0 <= origin@ <= u29_max(),
            location matches Location::Far { origin } ==> 0 <= origin@ <= u29_max(),
        ensures
            final(self).spec_segs() == old(self).spec_segs(),
            final(self).spec_segment().spec_arena() == old(self).spec_segment().spec_arena(),
            match spec_read_content(old(self).spec_segs(), old(self).spec_state(), location.model(), offset@ as int, len@ as int) {
                Ok((st, pos)) => r matches Ok(p) && p@ == pos && final(self).spec_state() == st,
                Err(e) => r == Err::<SegmentRef, Error>(e) && final(self).spec_state() == old(self).spec_state(),
            },
    {
        match location {
            Location::Near { origin } => self.try_read_object_from_end_of(origin, offset, len),
            Location::Far { origin } => self.try_read_object_from_end_of(origin, offset, len),
            Location::DoubleFar { segment, offset: off } => self.try_read_object_in(segment, off, len),
        }
    }
}

} // verus!

verus! {

impl<'a, A: ReadArena + ?Sized> ObjectReader<'a, A> {
    /// The pointer describing the content of the pointer at `src`, and where the content is,
    /// following a far pointer to its landing pad.
    pub fn location_of(&mut self, src: SegmentRef) -> (r: Result<Content, Error>)
        requires
            src@ < old(self).spec_words().len(),
        ensures
            final(self).spec_segs() == old(self).spec_segs(),
            final(self).spec_segment().spec_arena() == old(self).spec_segment().spec_arena(),
            match spec_location_of(old(self).spec_segs(), old(self).spec_state(), src@) {
                Ok((st, p, loc)) => r matches Ok(c) && c.ptr.parts == p && c.location.model() == loc
                    && final(self).spec_state() == st,
                Err(e) => r == Err::<Content, Error>(e),
            },
            r matches Ok(c) ==> match c.location {
                Location::Near { origin } => 0 <= origin@ < final(self).spec_words().len(),
                Location::Far { origin } => 0 <= origin@ < final(self).spec_words().len(),
                _ => true,
            },
    {
        proof {
            use_type_invariant(&self.segment);
            self.segment.arena.lemma_segments_fit();
        }
        let ptr = WirePtr::from_word(self.segment.word(src));
        match ptr.far_ptr() {
            Some(far) => {
                let segment = far.segment();
                let double_far = far.double_far();
                let pad_len = u29::new_unwrap(
                    if double_far {
                        2
                    } else {
                        1
                    },
                );
                let pad = match self.try_read_object_in(segment, far.offset(), pad_len) {
                    Ok(p) => p,
                    Err(e) => {
                        return Err(e);
                    },
                };
                proof {
                    use_type_invariant(&self.segment);
                    self.segment.arena.lemma_segments_fit();
                }
                let pad_ptr = WirePtr::from_word(self.segment.word(pad));
                if double_far {
                    let tag_ref = pad.offset(u29::new_unwrap(1)).as_ref_unchecked();
                    let tag = WirePtr::from_word(self.segment.word(tag_ref));
                    let far_ptr = match pad_ptr.try_far_ptr() {
                        Ok(f) => f,
                        Err(e) => {
                            return Err(e);
                        },
                    };
                    Ok(
                        Content {
                            ptr: tag,
                            location: Location::DoubleFar {
                                segment: far_ptr.segment(),
                                offset: far_ptr.offset(),
                            },
                        },
                    )
                } else {
                    Ok(Content { ptr: pad_ptr, location: Location::Far { origin: pad.as_segment_ptr() } })
                }
            },
            None => Ok(Content { ptr, location: Location::Near { origin: src.as_segment_ptr() } }),
        }
    }

    /// Reads the struct the pointer at `src` refers to.
    pub fn try_read_struct(&mut self, src: SegmentRef) -> (r: Result<StructContent, Error>)
        requires
            src@ < old(self).spec_words().len(),
        ensures
            final(self).spec_segs() == old(self).spec_segs(),
            final(self).spec_segment().spec_arena() == old(self).spec_segment().spec_arena(),
            match spec_read_struct(old(self).spec_segs(), old(self).spec_state(), src@) {
                Ok((st, start, size)) => r matches Ok(c) && c.ptr@ == start && c.size == size
                    && final(self).spec_state() == st,
                Err(e) => r == Err::<StructContent, Error>(e),
            },
    {
        let content = match self.location_of(src) {
            Ok(c) => c,
            Err(e) => {
                return Err(e);
            },
        };
        let sp = match content.ptr.try_struct_ptr() {
            Ok(p) => p,
            Err(e) => {
                return Err(e);
            },
        };
        let size = sp.size();
        let len = size.len();
        proof {
            use_type_invariant(&self.segment);
            self.segment.arena.lemma_segments_fit();
        }
        let start = match self.read_content(content.location, sp.offset(), len) {
            Ok(p) => p,
            Err(e) => {
                return Err(e);
            },
        };
        Ok(StructContent { ptr: start, size })
    }

    /// Reads the list described by the list pointer `list_ptr` found at `location`, checking
    /// that its elements can be read as `expected`.
    pub fn read_as_list_content(
        &mut self,
        location: Location,
        list_ptr: ListPtr,
        expected: Option<PtrElementSize>,
    ) -> (r: Result<ListContent, Error>)
        requires
            location matches Location::Near { origin } ==> 0 <= origin@ <= u29_max(),
            location matches Location::Far { origin } ==> 0 <= origin@ <= u29_max(),
        ensures
            final(self).spec_segs() == old(self).spec_segs(),
            final(self).spec_segment().spec_arena() == old(self).spec_segment().spec_arena(),
            match spec_read_list_content(old(self).spec_segs(), old(self).spec_state(), location.model(), list_ptr.parts, expected) {
                Ok((st, start, size, count)) => r matches Ok(c) && c.ptr@ == start && c.element_size
                    == size && c.element_count@ == count && final(self).spec_state() == st,
                Err(e) => r == Err::<ListContent, Error>(e),
            },
    {
        let ptr_element = list_ptr.element_size();
        if ptr_element == PtrElementSize::InlineComposite {
            let word_count = list_ptr.element_count().get();
            if word_count + 1 > u29::MAX_VALUE {
                return Err(Error::from_kind(ErrorKind::PointerOutOfBounds));
            }
            let len = u29::new_unwrap(word_count + 1);
            let tag_ptr = match self.read_content(location, list_ptr.offset(), len) {
                Ok(p) => p,
                Err(e) => {
                    return Err(e);
                },
            };
            proof {
                use_type_invariant(&self.segment);
                self.segment.arena.lemma_segments_fit();
            }
            let tag_wire = WirePtr::from_word(self.segment.word(tag_ptr));
            let tag = match tag_wire.struct_ptr() {
                Some(t) => t,
                None => {
                    return Err(Error::from_kind(ErrorKind::UnsupportedInlineCompositeElementTag));
                },
            };
            let first = tag_ptr.offset(u29::new_unwrap(1)).as_ref_unchecked();
            let element_count = tag.inline_composite_element_count();
            let struct_size = tag.size();
            let element_size = ElementSize::InlineComposite(struct_size);
            if let Some(exp) = expected {
                if !element_size.upgradable_to(exp) {
                    return Err(
                        Error::from_kind(
                            ErrorKind::IncompatibleUpgrade(IncompatibleUpgrade { from: ptr_element, to: exp }),
                        ),
                    );
                }
            }
            let words_per_element = struct_size.total();
            let ec = element_count.get();
            assert((ec as u64) * (words_per_element as u64) <= 536870911 * 131070) by (nonlinear_arith)
                requires
                    ec <= 536870911,
                    words_per_element <= 131070,
            ;
            if (ec as u64) * (words_per_element as u64) > word_count as u64 {
                return Err(Error::from_kind(ErrorKind::InlineCompositeOverrun));
            }
            if words_per_element == 0 {
                if !self.try_amplified_read(element_count.get() as u64) {
                    return Err(Error::from_kind(ErrorKind::ReadLimitExceeded));
                }
            }
            Ok(ListContent { ptr: first, element_size, element_count })
        } else {
            let element_size = ptr_element.to_element_size();
            if let Some(exp) = expected {
                if !element_size.upgradable_to(exp) {
                    return Err(
                        Error::from_kind(
                            ErrorKind::IncompatibleUpgrade(IncompatibleUpgrade { from: ptr_element, to: exp }),
                        ),
                    );
                }
            }
            let element_count = list_ptr.element_count();
            if element_size == ElementSize::Void && !self.try_amplified_read(element_count.get() as u64) {
                return Err(Error::from_kind(ErrorKind::ReadLimitExceeded));
            }
            let element_bits = element_size.bits();
            let ec = element_count.get();
            assert((element_bits as u64) * (ec as u64) <= 536870911 * 64) by (nonlinear_arith)
                requires
                    ec <= 536870911,
                    element_bits <= 64,
            ;
            let word_count = Word::round_up_bit_count((element_bits as u64) * (ec as u64));
            let len = u29::new_unwrap(word_count);
            let ptr = match self.read_content(location, list_ptr.offset(), len) {
                Ok(p) => p,
                Err(e) => {
                    return Err(e);
                },
            };
            Ok(ListContent { ptr, element_size, element_count })
        }
    }

    /// Reads the list the pointer at `src` refers to, checking that its elements can be read as
    /// `expected`.
    pub fn try_read_list(&mut self, src: SegmentRef, expected: Option<PtrElementSize>) -> (r: Result<ListContent, Error>)
        requires
            src@ < old(self).spec_words().len(),
        ensures
            final(self).spec_segs() == old(self).spec_segs(),
            final(self).spec_segment().spec_arena() == old(self).spec_segment().spec_arena(),
            match spec_read_list(old(self).spec_segs(), old(self).spec_state(), src@, expected) {
                Ok((st, start, size, count)) => r matches Ok(c) && c.ptr@ == start && c.element_size
                    == size && c.element_count@ == count && final(self).spec_state() == st,
                Err(e) => r == Err::<ListContent, Error>(e),
            },
    {
        let content = match self.location_of(src) {
            Ok(c) => c,
            Err(e) => {
                return Err(e);
            },
        };
        let lp = match content.ptr.try_list_ptr() {
            Ok(p) => p,
            Err(e) => {
                return Err(e);
            },
        };
        proof {
            use_type_invariant(&self.segment);
            self.segment.arena.lemma_segments_fit();
        }
        self.read_as_list_content(content.location, lp, expected)
    }
}

} // verus!

verus! {

/// The unsigned little endian value of `n` bytes at `off` (`n` is 1, 2, 4 or 8).
pub open spec fn le_n(bytes: Seq<u8>, off: int, n: int) -> int {
    if n == 1 {
        bytes[off] as int
    } else if n == 2 {
        bytes[off] + 256 * bytes[off + 1]
    } else if n == 4 {
        le_u32(bytes[off], bytes[off + 1], bytes[off + 2], bytes[off + 3])
    } else {
        le_u32(bytes[off], bytes[off + 1], bytes[off + 2], bytes[off + 3]) + 4294967296 * le_u32(
            bytes[off + 4],
            bytes[off + 5],
            bytes[off + 6],
            bytes[off + 7],
        )
    }
}

/// Whether `n` is the byte size of an integer field.
pub open spec fn field_width(n: int) -> bool {
    n == 1 || n == 2 || n == 4 || n == 8
}

/// The largest value `n` bytes hold, plus one.
pub open spec fn width_bound(n: int) -> int {
    if n == 1 {
        0x100
    } else if n == 2 {
        0x1_0000
    } else if n == 4 {
        0x1_0000_0000
    } else {
        0x1_0000_0000_0000_0000
    }
}

proof fn lemma_u16_split(v: u64)
    by (bit_vector)
    requires
        v < 0x1_0000,
    ensures
        v == (v % 256) + 256 * (v / 256),
        v / 256 < 256,
{
}

proof fn lemma_u64_split(v: u64)
    by (bit_vector)
    ensures
        v == (v % 0x1_0000_0000) + 0x1_0000_0000 * (v / 0x1_0000_0000),
        v / 0x1_0000_0000 < 0x1_0000_0000,
{
}

/// The byte at `k` of a sequence of words.
pub fn byte_at(section: &[Word], k: usize) -> (r: u8)
    requires
        k < section@.len() * 8,
    ensures
        r == words_bytes(section@)[k as int],
{
    section[k / 8].0[k % 8]
}

/// Reads the unsigned little endian value of `n` bytes at byte `off` of the words.
pub fn read_le(section: &[Word], off: usize, n: usize) -> (r: u64)
    requires
        field_width(n as int),
        off + n <= section@.len() * 8,
        section@.len() <= u29_max(),
    ensures
        r == le_n(words_bytes(section@), off as int, n as int),
{
    if n == 1 {
        byte_at(section, off) as u64
    } else if n == 2 {
        byte_at(section, off) as u64 + 256 * (byte_at(section, off + 1) as u64)
    } else if n == 4 {
        let b0 = byte_at(section, off);
        let b1 = byte_at(section, off + 1);
        let b2 = byte_at(section, off + 2);
        let b3 = byte_at(section, off + 3);
        proof {
            lemma_byte_join(b0, b1, b2, b3);
        }
        b0 as u64 + 256 * (b1 as u64) + 65536 * (b2 as u64) + 16777216 * (b3 as u64)
    } else {
        let b0 = byte_at(section, off);
        let b1 = byte_at(section, off + 1);
        let b2 = byte_at(section, off + 2);
        let b3 = byte_at(section, off + 3);
        let b4 = byte_at(section, off + 4);
        let b5 = byte_at(section, off + 5);
        let b6 = byte_at(section, off + 6);
        let b7 = byte_at(section, off + 7);
        proof {
            lemma_byte_join(b0, b1, b2, b3);
            lemma_byte_join(b4, b5, b6, b7);
        }
        let lo = b0 as u64 + 256 * (b1 as u64) + 65536 * (b2 as u64) + 16777216 * (b3 as u64);
        let hi = b4 as u64 + 256 * (b5 as u64) + 65536 * (b6 as u64) + 16777216 * (b7 as u64);
        lo + 4294967296 * hi
    }
}

/// Whether `after` is `before` with the `n` bytes at `off` holding the little endian value `v`
/// and every other byte unchanged.
pub open spec fn bytes_written(before: Seq<u8>, after: Seq<u8>, off: int, n: int, v: int) -> bool {
    &&& after.len() == before.len()
    &&& le_n(after, off, n) == v
    &&& forall|k: int| 0 <= k < before.len() && !(off <= k < off + n) ==> #[trigger] after[k] == before[k]
}

/// The word with the `n` bytes at `bo` replaced by the little endian bytes of `v`.
fn set_le_in_word(w: Word, bo: usize, n: usize, v: u64) -> (r: Word)
    requires
        field_width(n as int),
        bo + n <= 8,
        v < width_bound(n as int),
    ensures
        le_n(r.0@, bo as int, n as int) == v,
        forall|k: int| 0 <= k < 8 && !(bo <= k < bo + n) ==> #[trigger] r.0@[k] == w.0@[k],
{
    let mut a = w.0;
    if n == 1 {
        a[bo] = v as u8;
    } else if n == 2 {
        proof {
            lemma_u16_split(v);
        }
        a[bo] = (v % 256) as u8;
        a[bo + 1] = (v / 256) as u8;
    } else if n == 4 {
        let x = v as u32;
        proof {
            lemma_byte_split(x);
        }
        a[bo] = (x % 256) as u8;
        a[bo + 1] = ((x / 256) % 256) as u8;
        a[bo + 2] = ((x / 65536) % 256) as u8;
        a[bo + 3] = (x / 16777216) as u8;
    } else {
        proof {
            lemma_u64_split(v);
        }
        let lo = (v % 0x1_0000_0000) as u32;
        let hi = (v / 0x1_0000_0000) as u32;
        proof {
            lemma_byte_split(lo);
            lemma_byte_split(hi);
        }
        a[bo] = (lo % 256) as u8;
        a[bo + 1] = ((lo / 256) % 256) as u8;
        a[bo + 2] = ((lo / 65536) % 256) as u8;
        a[bo + 3] = (lo / 16777216) as u8;
        a[bo + 4] = (hi % 256) as u8;
        a[bo + 5] = ((hi / 256) % 256) as u8;
        a[bo + 6] = ((hi / 65536) % 256) as u8;
        a[bo + 7] = (hi / 16777216) as u8;
    }
    Word(a)
}

/// The bytes of words with one word replaced.
proof fn lemma_words_bytes_update(ws: Seq<Word>, i: int, w: Word)
    requires
        0 <= i < ws.len(),
    ensures
        words_bytes(ws.update(i, w)).len() == words_bytes(ws).len(),
        forall|k: int| 0 <= k < ws.len() * 8 ==> #[trigger] words_bytes(ws.update(i, w))[k] == if k / 8 == i {
            w.0@[k % 8]
        } else {
            words_bytes(ws)[k]
        },
{
}

/// Computes the word to write so that the `n` bytes at byte `off` of the words hold `v`: the index
/// of the word and its new value. The field must lie within one word.
pub fn write_le(section: &[Word], off: usize, n: usize, v: u64) -> (r: (usize, Word))
    requires
        field_width(n as int),
        off % n == 0,
        off + n <= section@.len() * 8,
        section@.len() <= u29_max(),
        v < width_bound(n as int),
    ensures
        r.0 < section@.len(),
        r.0 == off / 8,
        bytes_written(words_bytes(section@), words_bytes(section@.update(r.0 as int, r.1)), off as int, n as int, v as int),
{
    let i = off / 8;
    let bo = off % 8;
    assert(bo + n <= 8) by (nonlinear_arith)
        requires
            bo == off % 8,
            off % n == 0,
            n == 1 || n == 2 || n == 4 || n == 8,
    ;
    let w = set_le_in_word(section[i], bo, n, v);
    proof {
        lemma_words_bytes_update(section@, i as int, w);
        let after = words_bytes(section@.update(i as int, w));
        assert forall|j: int| 0 <= j < n implies #[trigger] after[off + j] == w.0@[bo + j] by {
            assert((off + j) / 8 == i && (off + j) % 8 == bo + j) by (nonlinear_arith)
                requires
                    i == off / 8,
                    bo == off % 8,
                    bo + n <= 8,
                    0 <= j < n,
            ;
        }
        assert forall|k: int| 0 <= k < section@.len() * 8 && !(off <= k < off + n) implies #[trigger] after[k]
            == words_bytes(section@)[k] by {
            if k / 8 == i {
                assert(!(bo <= k % 8 < bo + n)) by (nonlinear_arith)
                    requires
                        k / 8 == i,
                        i == off / 8,
                        bo == off % 8,
                        !(off <= k < off + n),
                        0 <= k,
                ;
            }
        }
    }
    (i, w)
}

} // verus!

verus! {

/// A field type that can be found in the data section of a struct.
///
/// A field holds its value xored with the field's default, so that an all-zero section reads as
/// the defaults; a field beyond the end of the section reads as its default.
pub trait Data: Copy + Sized {
    /// The bytes a field at `slot` takes: its first byte and the byte past its last.
    spec fn spec_range(slot: int) -> (int, int);

    /// The value of the field at `slot` of a data section with the given bytes, given its default.
    spec fn spec_read(bytes: Seq<u8>, slot: int, default: Self) -> Self;

    /// The zero value, the default of a field without an explicit default.
    spec fn spec_zero() -> Self;

    /// The zero value.
    fn zero() -> (r: Self)
        ensures
            r == Self::spec_zero(),
    ;

    /// The size of an element of a list of such values.
    spec fn spec_element_size() -> ElementSize;

    /// A field of zero bytes holds its default.
    proof fn lemma_read_zero(bytes: Seq<u8>, slot: int, default: Self)
        requires
            0 <= slot,
            forall|k: int| 0 <= k < bytes.len() ==> #[trigger] bytes[k] == 0,
        ensures
            Self::spec_read(bytes, slot, default) == default,
    ;

    /// The size of an element of a list of such values.
    fn element_size() -> (r: ElementSize)
        ensures
            r == Self::spec_element_size(),
    ;

    /// Reads the field at `slot` of a data section.
    fn read(section: &[Word], slot: usize, default: Self) -> (r: Self)
        requires
            section@.len() <= u29_max(),
        ensures
            r == Self::spec_read(words_bytes(section@), slot as int, default),
    ;

    /// The word to write, and its index, for the field at `slot` of a data section to hold
    /// `value`; `None` if the field lies beyond the section, where nothing is written.
    fn write(section: &[Word], slot: usize, value: Self, default: Self) -> (r: Option<(usize, Word)>)
        requires
            section@.len() <= u29_max(),
        ensures
            r is Some <==> Self::spec_range(slot as int).1 <= section@.len() * 8,
            r matches Some((i, w)) ==> {
                &&& i < section@.len()
                &&& Self::spec_read(words_bytes(section@.update(i as int, w)), slot as int, default)
                    == value
                &&& forall|k: int|
                    0 <= k < section@.len() * 8 && !(Self::spec_range(slot as int).0 <= k
                        < Self::spec_range(slot as int).1) ==> #[trigger] words_bytes(
                        section@.update(i as int, w),
                    )[k] == words_bytes(section@)[k]
            },
    ;
}

proof fn lemma_xor_u8(v: u8, d: u8)
    by (bit_vector)
    ensures
        (v ^ d) ^ d == v,
{
}

impl Data for u8 {
    proof fn lemma_read_zero(bytes: Seq<u8>, slot: int, default: Self) {
        if slot * 1 + 1 <= bytes.len() {
            let o = slot * 1;
            assert(le_n(bytes, o, 1) == 0) by {
                assert(bytes[o + 0] == 0);
            }
            assert(0u8 ^ default == default) by (bit_vector);
        }
    }

    open spec fn spec_element_size() -> ElementSize {
        ElementSize::Byte
    }

    fn element_size() -> (r: ElementSize) {
        ElementSize::Byte
    }

    open spec fn spec_zero() -> Self {
        0
    }

    fn zero() -> (r: Self) {
        0
    }

    open spec fn spec_range(slot: int) -> (int, int) {
        (slot * 1, slot * 1 + 1)
    }

    open spec fn spec_read(bytes: Seq<u8>, slot: int, default: Self) -> Self {
        if slot * 1 + 1 <= bytes.len() {
            ((le_n(bytes, slot * 1, 1) as u8) ^ default)
        } else {
            default
        }
    }

    fn read(section: &[Word], slot: usize, default: Self) -> (r: Self) {
        let len = section.len() * 8;
        if slot < len / 1 {
            assert(slot * 1 + 1 <= len) by (nonlinear_arith)
                requires
                    slot < len / 1,
            ;
            ((read_le(section, slot * 1, 1) as u8) ^ default)
        } else {
            assert(!(slot * 1 + 1 <= len)) by (nonlinear_arith)
                requires
                    slot >= len / 1,
                    len % 8 == 0,
            ;
            default
        }
    }

    fn write(section: &[Word], slot: usize, value: Self, default: Self) -> (r: Option<(usize, Word)>) {
        let len = section.len() * 8;
        if slot < len / 1 {
            assert(slot * 1 + 1 <= len && (slot * 1) % 1 == 0) by (nonlinear_arith)
                requires
                    slot < len / 1,
            ;
            let bits = ((value ^ default) as u64);
            let (i, w) = write_le(section, slot * 1, 1, bits);
            proof {
                lemma_xor_u8(value, default);
            }
            Some((i, w))
        } else {
            assert(!(slot * 1 + 1 <= len)) by (nonlinear_arith)
                requires
                    slot >= len / 1,
                    len % 8 == 0,
            ;
            None
        }
    }
}

proof fn lemma_xor_u16(v: u16, d: u16)
    by (bit_vector)
    ensures
        (v ^ d) ^ d == v,
{
}

impl Data for u16 {
    proof fn lemma_read_zero(bytes: Seq<u8>, slot: int, default: Self) {
        if slot * 2 + 2 <= bytes.len() {
            let o = slot * 2;
            assert(le_n(bytes, o, 2) == 0) by {
                assert(bytes[o + 0] == 0);
                assert(bytes[o + 1] == 0);
            }
            assert(0u16 ^ default == default) by (bit_vector);
        }
    }

    open spec fn spec_element_size() -> ElementSize {
        ElementSize::TwoBytes
    }

    fn element_size() -> (r: ElementSize) {
        ElementSize::TwoBytes
    }

    open spec fn spec_zero() -> Self {
        0
    }

    fn zero() -> (r: Self) {
        0
    }

    open spec fn spec_range(slot: int) -> (int, int) {
        (slot * 2, slot * 2 + 2)
    }

    open spec fn spec_read(bytes: Seq<u8>, slot: int, default: Self) -> Self {
        if slot * 2 + 2 <= bytes.len() {
            ((le_n(bytes, slot * 2, 2) as u16) ^ default)
        } else {
            default
        }
    }

    fn read(section: &[Word], slot: usize, default: Self) -> (r: Self) {
        let len = section.len() * 8;
        if slot < len / 2 {
            assert(slot * 2 + 2 <= len) by (nonlinear_arith)
                requires
                    slot < len / 2,
            ;
            ((read_le(section, slot * 2, 2) as u16) ^ default)
        } else {
            assert(!(slot * 2 + 2 <= len)) by (nonlinear_arith)
                requires
                    slot >= len / 2,
                    len % 8 == 0,
            ;
            default
        }
    }

    fn write(section: &[Word], slot: usize, value: Self, default: Self) -> (r: Option<(usize, Word)>) {
        let len = section.len() * 8;
        if slot < len / 2 {
            assert(slot * 2 + 2 <= len && (slot * 2) % 2 == 0) by (nonlinear_arith)
                requires
                    slot < len / 2,
            ;
            let bits = ((value ^ default) as u64);
            let (i, w) = write_le(section, slot * 2, 2, bits);
            proof {
                lemma_xor_u16(value, default);
            }
            Some((i, w))
        } else {
            assert(!(slot * 2 + 2 <= len)) by (nonlinear_arith)
                requires
                    slot >= len / 2,
                    len % 8 == 0,
            ;
            None
        }
    }
}

proof fn lemma_xor_u32(v: u32, d: u32)
    by (bit_vector)
    ensures
        (v ^ d) ^ d == v,
{
}

impl Data for u32 {
    proof fn lemma_read_zero(bytes: Seq<u8>, slot: int, default: Self) {
        if slot * 4 + 4 <= bytes.len() {
            let o = slot * 4;
            assert(le_n(bytes, o, 4) == 0) by {
                assert(bytes[o + 0] == 0);
                assert(bytes[o + 1] == 0);
                assert(bytes[o + 2] == 0);
                assert(bytes[o + 3] == 0);
            }
            assert(0u32 ^ default == default) by (bit_vector);
        }
    }

    open spec fn spec_element_size() -> ElementSize {
        ElementSize::FourBytes
    }

    fn element_size() -> (r: ElementSize) {
        ElementSize::FourBytes
    }

    open spec fn spec_zero() -> Self {
        0
    }

    fn zero() -> (r: Self) {
        0
    }

    open spec fn spec_range(slot: int) -> (int, int) {
        (slot * 4, slot * 4 + 4)
    }

    open spec fn spec_read(bytes: Seq<u8>, slot: int, default: Self) -> Self {
        if slot * 4 + 4 <= bytes.len() {
            ((le_n(bytes, slot * 4, 4) as u32) ^ default)
        } else {
            default
        }
    }

    fn read(section: &[Word], slot: usize, default: Self) -> (r: Self) {
        let len = section.len() * 8;
        if slot < len / 4 {
            assert(slot * 4 + 4 <= len) by (nonlinear_arith)
                requires
                    slot < len / 4,
            ;
            ((read_le(section, slot * 4, 4) as u32) ^ default)
        } else {
            assert(!(slot * 4 + 4 <= len)) by (nonlinear_arith)
                requires
                    slot >= len / 4,
                    len % 8 == 0,
            ;
            default
        }
    }

    fn write(section: &[Word], slot: usize, value: Self, default: Self) -> (r: Option<(usize, Word)>) {
        let len = section.len() * 8;
        if slot < len / 4 {
            assert(slot * 4 + 4 <= len && (slot * 4) % 4 == 0) by (nonlinear_arith)
                requires
                    slot < len / 4,
            ;
            let bits = ((value ^ default) as u64);
            let (i, w) = write_le(section, slot * 4, 4, bits);
            proof {
                lemma_xor_u32(value, default);
            }
            Some((i, w))
        } else {
            assert(!(slot * 4 + 4 <= len)) by (nonlinear_arith)
                requires
                    slot >= len / 4,
                    len % 8 == 0,
            ;
            None
        }
    }
}

proof fn lemma_xor_u64(v: u64, d: u64)
    by (bit_vector)
    ensures
        (v ^ d) ^ d == v,
{
}

impl Data for u64 {
    proof fn lemma_read_zero(bytes: Seq<u8>, slot: int, default: Self) {
        if slot * 8 + 8 <= bytes.len() {
            let o = slot * 8;
            assert(le_n(bytes, o, 8) == 0) by {
                assert(bytes[o + 0] == 0);
                assert(bytes[o + 1] == 0);
                assert(bytes[o + 2] == 0);
                assert(bytes[o + 3] == 0);
                assert(bytes[o + 4] == 0);
                assert(bytes[o + 5] == 0);
                assert(bytes[o + 6] == 0);
                assert(bytes[o + 7] == 0);
            }
            assert(0u64 ^ default == default) by (bit_vector);
        }
    }

    open spec fn spec_element_size() -> ElementSize {
        ElementSize::EightBytes
    }

    fn element_size() -> (r: ElementSize) {
        ElementSize::EightBytes
    }

    open spec fn spec_zero() -> Self {
        0
    }

    fn zero() -> (r: Self) {
        0
    }

    open spec fn spec_range(slot: int) -> (int, int) {
        (slot * 8, slot * 8 + 8)
    }

    open spec fn spec_read(bytes: Seq<u8>, slot: int, default: Self) -> Self {
        if slot * 8 + 8 <= bytes.len() {
            ((le_n(bytes, slot * 8, 8) as u64) ^ default)
        } else {
            default
        }
    }

    fn read(section: &[Word], slot: usize, default: Self) -> (r: Self) {
        let len = section.len() * 8;
        if slot < len / 8 {
            assert(slot * 8 + 8 <= len) by (nonlinear_arith)
                requires
                    slot < len / 8,
            ;
            ((read_le(section, slot * 8, 8) as u64) ^ default)
        } else {
            assert(!(slot * 8 + 8 <= len)) by (nonlinear_arith)
                requires
                    slot >= len / 8,
                    len % 8 == 0,
            ;
            default
        }
    }

    fn write(section: &[Word], slot: usize, value: Self, default: Self) -> (r: Option<(usize, Word)>) {
        let len = section.len() * 8;
        if slot < len / 8 {
            assert(slot * 8 + 8 <= len && (slot * 8) % 8 == 0) by (nonlinear_arith)
                requires
                    slot < len / 8,
            ;
            let bits = ((value ^ default) as u64);
            let (i, w) = write_le(section, slot * 8, 8, bits);
            proof {
                lemma_xor_u64(value, default);
            }
            Some((i, w))
        } else {
            assert(!(slot * 8 + 8 <= len)) by (nonlinear_arith)
                requires
                    slot >= len / 8,
                    len % 8 == 0,
            ;
            None
        }
    }
}

proof fn lemma_xor_i8(v: i8, d: i8)
    by (bit_vector)
    ensures
        (((v ^ d) as u8) as i8) ^ d == v,
{
}

impl Data for i8 {
    proof fn lemma_read_zero(bytes: Seq<u8>, slot: int, default: Self) {
        if slot * 1 + 1 <= bytes.len() {
            let o = slot * 1;
            assert(le_n(bytes, o, 1) == 0) by {
                assert(bytes[o + 0] == 0);
            }
            assert(0i8 ^ default == default) by (bit_vector);
        }
    }

    open spec fn spec_element_size() -> ElementSize {
        ElementSize::Byte
    }

    fn element_size() -> (r: ElementSize) {
        ElementSize::Byte
    }

    open spec fn spec_zero() -> Self {
        0
    }

    fn zero() -> (r: Self) {
        0
    }

    open spec fn spec_range(slot: int) -> (int, int) {
        (slot * 1, slot * 1 + 1)
    }

    open spec fn spec_read(bytes: Seq<u8>, slot: int, default: Self) -> Self {
        if slot * 1 + 1 <= bytes.len() {
            (((le_n(bytes, slot * 1, 1) as u8) as i8) ^ default)
        } else {
            default
        }
    }

    fn read(section: &[Word], slot: usize, default: Self) -> (r: Self) {
        let len = section.len() * 8;
        if slot < len / 1 {
            assert(slot * 1 + 1 <= len) by (nonlinear_arith)
                requires
                    slot < len / 1,
            ;
            (((read_le(section, slot * 1, 1) as u8) as i8) ^ default)
        } else {
            assert(!(slot * 1 + 1 <= len)) by (nonlinear_arith)
                requires
                    slot >= len / 1,
                    len % 8 == 0,
            ;
            default
        }
    }

    fn write(section: &[Word], slot: usize, value: Self, default: Self) -> (r: Option<(usize, Word)>) {
        let len = section.len() * 8;
        if slot < len / 1 {
            assert(slot * 1 + 1 <= len && (slot * 1) % 1 == 0) by (nonlinear_arith)
                requires
                    slot < len / 1,
            ;
            let bits = (((value ^ default) as u8) as u64);
            let (i, w) = write_le(section, slot * 1, 1, bits);
            proof {
                lemma_xor_i8(value, default);
            }
            Some((i, w))
        } else {
            assert(!(slot * 1 + 1 <= len)) by (nonlinear_arith)
                requires
                    slot >= len / 1,
                    len % 8 == 0,
            ;
            None
        }
    }
}

proof fn lemma_xor_i16(v: i16, d: i16)
    by (bit_vector)
    ensures
        (((v ^ d) as u16) as i16) ^ d == v,
{
}

impl Data for i16 {
    proof fn lemma_read_zero(bytes: Seq<u8>, slot: int, default: Self) {
        if slot * 2 + 2 <= bytes.len() {
            let o = slot * 2;
            assert(le_n(bytes, o, 2) == 0) by {
                assert(bytes[o + 0] == 0);
                assert(bytes[o + 1] == 0);
            }
            assert(0i16 ^ default == default) by (bit_vector);
        }
    }

    open spec fn spec_element_size() -> ElementSize {
        ElementSize::TwoBytes
    }

    fn element_size() -> (r: ElementSize) {
        ElementSize::TwoBytes
    }

    open spec fn spec_zero() -> Self {
        0
    }

    fn zero() -> (r: Self) {
        0
    }

    open spec fn spec_range(slot: int) -> (int, int) {
        (slot * 2, slot * 2 + 2)
    }

    open spec fn spec_read(bytes: Seq<u8>, slot: int, default: Self) -> Self {
        if slot * 2 + 2 <= bytes.len() {
            (((le_n(bytes, slot * 2, 2) as u16) as i16) ^ default)
        } else {
            default
        }
    }

    fn read(section: &[Word], slot: usize, default: Self) -> (r: Self) {
        let len = section.len() * 8;
        if slot < len / 2 {
            assert(slot * 2 + 2 <= len) by (nonlinear_arith)
                requires
                    slot < len / 2,
            ;
            (((read_le(section, slot * 2, 2) as u16) as i16) ^ default)
        } else {
            assert(!(slot * 2 + 2 <= len)) by (nonlinear_arith)
                requires
                    slot >= len / 2,
                    len % 8 == 0,
            ;
            default
        }
    }

    fn write(section: &[Word], slot: usize, value: Self, default: Self) -> (r: Option<(usize, Word)>) {
        let len = section.len() * 8;
        if slot < len / 2 {
            assert(slot * 2 + 2 <= len && (slot * 2) % 2 == 0) by (nonlinear_arith)
                requires
                    slot < len / 2,
            ;
            let bits = (((value ^ default) as u16) as u64);
            let (i, w) = write_le(section, slot * 2, 2, bits);
            proof {
                lemma_xor_i16(value, default);
            }
            Some((i, w))
        } else {
            assert(!(slot * 2 + 2 <= len)) by (nonlinear_arith)
                requires
                    slot >= len / 2,
                    len % 8 == 0,
            ;
            None
        }
    }
}

proof fn lemma_xor_i32(v: i32, d: i32)
    by (bit_vector)
    ensures
        (((v ^ d) as u32) as i32) ^ d == v,
{
}

impl Data for i32 {
    proof fn lemma_read_zero(bytes: Seq<u8>, slot: int, default: Self) {
        if slot * 4 + 4 <= bytes.len() {
            let o = slot * 4;
            assert(le_n(bytes, o, 4) == 0) by {
                assert(bytes[o + 0] == 0);
                assert(bytes[o + 1] == 0);
                assert(bytes[o + 2] == 0);
                assert(bytes[o + 3] == 0);
            }
            assert(0i32 ^ default == default) by (bit_vector);
        }
    }

    open spec fn spec_element_size() -> ElementSize {
        ElementSize::FourBytes
    }

    fn element_size() -> (r: ElementSize) {
        ElementSize::FourBytes
    }

    open spec fn spec_zero() -> Self {
        0
    }

    fn zero() -> (r: Self) {
        0
    }

    open spec fn spec_range(slot: int) -> (int, int) {
        (slot * 4, slot * 4 + 4)
    }

    open spec fn spec_read(bytes: Seq<u8>, slot: int, default: Self) -> Self {
        if slot * 4 + 4 <= bytes.len() {
            (((le_n(bytes, slot * 4, 4) as u32) as i32) ^ default)
        } else {
            default
        }
    }

    fn read(section: &[Word], slot: usize, default: Self) -> (r: Self) {
        let len = section.len() * 8;
        if slot < len / 4 {
            assert(slot * 4 + 4 <= len) by (nonlinear_arith)
                requires
                    slot < len / 4,
            ;
            (((read_le(section, slot * 4, 4) as u32) as i32) ^ default)
        } else {
            assert(!(slot * 4 + 4 <= len)) by (nonlinear_arith)
                requires
                    slot >= len / 4,
                    len % 8 == 0,
            ;
            default
        }
    }

    fn write(section: &[Word], slot: usize, value: Self, default: Self) -> (r: Option<(usize, Word)>) {
        let len = section.len() * 8;
        if slot < len / 4 {
            assert(slot * 4 + 4 <= len && (slot * 4) % 4 == 0) by (nonlinear_arith)
                requires
                    slot < len / 4,
            ;
            let bits = (((value ^ default) as u32) as u64);
            let (i, w) = write_le(section, slot * 4, 4, bits);
            proof {
                lemma_xor_i32(value, default);
            }
            Some((i, w))
        } else {
            assert(!(slot * 4 + 4 <= len)) by (nonlinear_arith)
                requires
                    slot >= len / 4,
                    len % 8 == 0,
            ;
            None
        }
    }
}

proof fn lemma_xor_i64(v: i64, d: i64)
    by (bit_vector)
    ensures
        (((v ^ d) as u64) as i64) ^ d == v,
{
}

impl Data for i64 {
    proof fn lemma_read_zero(bytes: Seq<u8>, slot: int, default: Self) {
        if slot * 8 + 8 <= bytes.len() {
            let o = slot * 8;
            assert(le_n(bytes, o, 8) == 0) by {
                assert(bytes[o + 0] == 0);
                assert(bytes[o + 1] == 0);
                assert(bytes[o + 2] == 0);
                assert(bytes[o + 3] == 0);
                assert(bytes[o + 4] == 0);
                assert(bytes[o + 5] == 0);
                assert(bytes[o + 6] == 0);
                assert(bytes[o + 7] == 0);
            }
            assert(0i64 ^ default == default) by (bit_vector);
        }
    }

    open spec fn spec_element_size() -> ElementSize {
        ElementSize::EightBytes
    }

    fn element_size() -> (r: ElementSize) {
        ElementSize::EightBytes
    }

    open spec fn spec_zero() -> Self {
        0
    }

    fn zero() -> (r: Self) {
        0
    }

    open spec fn spec_range(slot: int) -> (int, int) {
        (slot * 8, slot * 8 + 8)
    }

    open spec fn spec_read(bytes: Seq<u8>, slot: int, default: Self) -> Self {
        if slot * 8 + 8 <= bytes.len() {
            (((le_n(bytes, slot * 8, 8) as u64) as i64) ^ default)
        } else {
            default
        }
    }

    fn read(section: &[Word], slot: usize, default: Self) -> (r: Self) {
        let len = section.len() * 8;
        if slot < len / 8 {
            assert(slot * 8 + 8 <= len) by (nonlinear_arith)
                requires
                    slot < len / 8,
            ;
            (((read_le(section, slot * 8, 8) as u64) as i64) ^ default)
        } else {
            assert(!(slot * 8 + 8 <= len)) by (nonlinear_arith)
                requires
                    slot >= len / 8,
                    len % 8 == 0,
            ;
            default
        }
    }

    fn write(section: &[Word], slot: usize, value: Self, default: Self) -> (r: Option<(usize, Word)>) {
        let len = section.len() * 8;
        if slot < len / 8 {
            assert(slot * 8 + 8 <= len && (slot * 8) % 8 == 0) by (nonlinear_arith)
                requires
                    slot < len / 8,
            ;
            let bits = (((value ^ default) as u64) as u64);
            let (i, w) = write_le(section, slot * 8, 8, bits);
            proof {
                lemma_xor_i64(value, default);
            }
            Some((i, w))
        } else {
            assert(!(slot * 8 + 8 <= len)) by (nonlinear_arith)
                requires
                    slot >= len / 8,
                    len % 8 == 0,
            ;
            None
        }
    }
}

proof fn lemma_bit_write(b: u8, k: u8, x: u8)
    by (bit_vector)
    requires
        k < 8,
        x < 2,
    ensures
        ((((b & !(1u8 << k)) | (x << k)) & (1u8 << k)) != 0) == (x == 1),
{
}

impl Data for bool {
    proof fn lemma_read_zero(bytes: Seq<u8>, slot: int, default: Self) {
        if slot / 8 < bytes.len() {
            let b = bytes[slot / 8];
            let m = (1u8 << ((slot % 8) as u8));
            assert(b == 0);
            assert(b & m == 0) by (bit_vector)
                requires
                    b == 0,
            ;
        }
    }

    open spec fn spec_element_size() -> ElementSize {
        ElementSize::Bit
    }

    fn element_size() -> (r: ElementSize) {
        ElementSize::Bit
    }

    open spec fn spec_zero() -> Self {
        false
    }

    fn zero() -> (r: Self) {
        false
    }

    open spec fn spec_range(slot: int) -> (int, int) {
        (slot / 8, slot / 8 + 1)
    }

    open spec fn spec_read(bytes: Seq<u8>, slot: int, default: Self) -> Self {
        if slot / 8 < bytes.len() {
            ((bytes[slot / 8] & (1u8 << ((slot % 8) as u8))) != 0) != default
        } else {
            default
        }
    }

    fn read(section: &[Word], slot: usize, default: Self) -> (r: Self) {
        let len = section.len() * 8;
        if slot / 8 < len {
            let byte = byte_at(section, slot / 8);
            let bit = (slot % 8) as u8;
            ((byte & (1u8 << bit)) != 0) != default
        } else {
            default
        }
    }

    fn write(section: &[Word], slot: usize, value: Self, default: Self) -> (r: Option<(usize, Word)>) {
        let len = section.len() * 8;
        if slot / 8 < len {
            let byte = byte_at(section, slot / 8);
            let bit = (slot % 8) as u8;
            let x: u8 = if value != default {
                1
            } else {
                0
            };
            let new_byte = (byte & !(1u8 << bit)) | (x << bit);
            let (i, w) = write_le(section, slot / 8, 1, new_byte as u64);
            proof {
                lemma_bit_write(byte, bit, x);
            }
            Some((i, w))
        } else {
            None
        }
    }
}

} // verus!

verus! {

/// The bytes of a list of bytes.
#[derive(Debug, PartialEq, Eq)]
pub struct BlobReader {
    bytes: Vec<u8>,
}

impl Clone for BlobReader {
    fn clone(&self) -> (r: Self)
        ensures
            r.spec_bytes() == self.spec_bytes(),
    {
        proof {
            use_type_invariant(self);
        }
        let mut v: Vec<u8> = Vec::new();
        let mut i: usize = 0;
        while i < self.bytes.len()
            invariant
                i <= self.bytes@.len(),
                v@ == self.bytes@.subrange(0, i as int),
            decreases self.bytes@.len() - i,
        {
            v.push(self.bytes[i]);
            i = i + 1;
        }
        assert(v@ =~= self.bytes@);
        BlobReader { bytes: v }
    }
}

impl BlobReader {
    /// The bytes.
    pub closed spec fn spec_bytes(&self) -> Seq<u8> {
        self.bytes@
    }

    /// A blob holds no more bytes than a list can.
    #[verifier::type_invariant]
    closed spec fn wf(&self) -> bool {
        self.bytes@.len() <= u29_max()
    }

    /// An empty blob.
    pub fn empty() -> (r: Self)
        ensures
            r.spec_bytes().len() == 0,
    {
        BlobReader { bytes: Vec::new() }
    }

    /// A blob of the given bytes, no more than a list can hold.
    pub fn from_vec(bytes: Vec<u8>) -> (r: Self)
        requires
            bytes@.len() <= u29_max(),
        ensures
            r.spec_bytes() == bytes@,
    {
        BlobReader { bytes }
    }

    /// The number of bytes.
    pub fn len(&self) -> (r: usize)
        ensures
            r == self.spec_bytes().len(),
            r <= u29_max(),
    {
        proof {
            use_type_invariant(self);
        }
        self.bytes.len()
    }

    /// The bytes.
    pub fn as_slice(&self) -> (r: &[u8])
        ensures
            r@ == self.spec_bytes(),
    {
        self.bytes.as_slice()
    }
}

/// Copies `n` bytes out of words, starting at the first byte.
fn copy_bytes(words: &[Word], n: usize) -> (r: Vec<u8>)
    requires
        n <= words@.len() * 8,
        words@.len() <= u29_max(),
    ensures
        r@ == words_bytes(words@).subrange(0, n as int),
{
    let mut out: Vec<u8> = Vec::new();
    let mut i: usize = 0;
    while i < n
        invariant
            i <= n,
            n <= words@.len() * 8,
            out@ == words_bytes(words@).subrange(0, i as int),
        decreases n - i,
    {
        out.push(byte_at(words, i));
        i = i + 1;
    }
    out
}

/// A reader of a struct: its data section and pointer section.
pub struct StructReader<'a, A: ReadArena + ?Sized> {
    data: &'a [Word],
    ptrs_start: u32,
    ptrs_len: u16,
    reader: Option<ObjectReader<'a, A>>,
    nesting_limit: u32,
}

impl<'a, A: ReadArena + ?Sized> Clone for StructReader<'a, A> {
    fn clone(&self) -> (r: Self)
        ensures
            r == *self,
    {
        *self
    }
}

impl<'a, A: ReadArena + ?Sized> Copy for StructReader<'a, A> {

}

impl<'a, A: ReadArena + ?Sized> StructReader<'a, A> {
    /// The words of the data section.
    pub closed spec fn spec_data(&self) -> Seq<Word> {
        self.data@
    }

    /// The position of the pointer section in the reader's segment.
    pub closed spec fn spec_ptrs_start(&self) -> u32 {
        self.ptrs_start
    }

    /// The number of pointers.
    pub closed spec fn spec_ptrs_len(&self) -> u16 {
        self.ptrs_len
    }

    /// The reader the struct was read with, if any.
    pub closed spec fn spec_reader(&self) -> Option<ObjectReader<'a, A>> {
        self.reader
    }

    /// How much deeper the struct's pointers may be followed.
    pub closed spec fn spec_nesting_limit(&self) -> u32 {
        self.nesting_limit
    }

    #[verifier::type_invariant]
    closed spec fn wf(&self) -> bool {
        &&& self.data@.len() <= u16::MAX
        &&& match self.reader {
            Some(r) => self.ptrs_start + self.ptrs_len <= r.spec_words().len(),
            None => self.ptrs_len == 0,
        }
    }

    /// The reader of an empty struct.
    pub fn empty() -> (r: Self)
        ensures
            r.spec_data().len() == 0,
            r.spec_ptrs_len() == 0,
    {
        StructReader { data: &[], ptrs_start: 0, ptrs_len: 0, reader: None, nesting_limit: u32::MAX }
    }

    /// The size of the struct.
    pub fn size(&self) -> (r: StructSize)
        ensures
            r.data == self.spec_data().len(),
            r.ptrs == self.spec_ptrs_len(),
    {
        proof {
            use_type_invariant(self);
        }
        StructSize { data: self.data.len() as u16, ptrs: self.ptrs_len }
    }

    /// The data section.
    pub fn data_section_words(&self) -> (r: &'a [Word])
        ensures
            r@ == self.spec_data(),
    {
        self.data
    }

    /// The bytes of the data section.
    pub fn data_section(&self) -> (r: Vec<u8>)
        ensures
            r@ == words_bytes(self.spec_data()),
    {
        proof {
            use_type_invariant(self);
        }
        let n = self.data.len() * 8;
        let v = copy_bytes(self.data, n);
        assert(words_bytes(self.data@).subrange(0, n as int) =~= words_bytes(self.data@));
        v
    }

    /// The size of the data section in bytes.
    pub fn data_size_bytes(&self) -> (r: u32)
        ensures
            r == self.spec_data().len() * 8,
    {
        proof {
            use_type_invariant(self);
        }
        self.data.len() as u32 * 8
    }

    /// The size of the data section in words.
    pub fn data_size(&self) -> (r: u16)
        ensures
            r == self.spec_data().len(),
    {
        proof {
            use_type_invariant(self);
        }
        self.data.len() as u16
    }

    /// The number of pointers.
    pub fn ptr_count(&self) -> (r: u16)
        ensures
            r == self.spec_ptrs_len(),
    {
        self.ptrs_len
    }

    /// Reads the data field at `slot`, whose default is zero.
    pub fn data_field<D: Data>(&self, slot: usize) -> (r: D)
        ensures
            r == D::spec_read(words_bytes(self.spec_data()), slot as int, D::spec_zero()),
    {
        proof {
            use_type_invariant(self);
        }
        D::read(self.data, slot, D::zero())
    }

    /// Reads the data field at `slot` with the given default.
    pub fn data_field_with_default<D: Data>(&self, slot: usize, default: D) -> (r: D)
        ensures
            r == D::spec_read(words_bytes(self.spec_data()), slot as int, default),
    {
        proof {
            use_type_invariant(self);
        }
        D::read(self.data, slot, default)
    }

    /// The reader of the pointer at `index` of the pointer section, if there is one.
    pub fn ptr_field_option(&self, index: u16) -> (r: Option<PtrReader<'a, A>>)
        ensures
            r is Some <==> index < self.spec_ptrs_len(),
            r matches Some(p) ==> p.spec_ptr() matches Some((pos, rd)) && pos@ == self.spec_ptrs_start()
                + index && Some(rd) == self.spec_reader() && p.spec_nesting_limit()
                == self.spec_nesting_limit(),
    {
        proof {
            use_type_invariant(self);
        }
        if index < self.ptrs_len {
            match self.reader {
                Some(rd) => {
                    proof {
                        use_type_invariant(&rd.segment);
                        rd.segment.arena.lemma_segments_fit();
                    }
                    let pos = SegmentRef::new_unchecked(u29::new_unwrap(self.ptrs_start + index as u32));
                    Some(PtrReader { ptr: Some((pos, rd)), nesting_limit: self.nesting_limit })
                },
                None => None,
            }
        } else {
            None
        }
    }

    /// The reader of the pointer at `index`, or a null pointer reader beyond the section.
    pub fn ptr_field(&self, index: u16) -> (r: PtrReader<'a, A>)
        ensures
            index < self.spec_ptrs_len() ==> (r.spec_ptr() matches Some((pos, rd)) && pos@
                == self.spec_ptrs_start() + index && Some(rd) == self.spec_reader()
                && r.spec_nesting_limit() == self.spec_nesting_limit()),
            index >= self.spec_ptrs_len() ==> r.spec_ptr() is None,
    {
        match self.ptr_field_option(index) {
            Some(p) => p,
            None => PtrReader::null(),
        }
    }
}

/// A reader of a pointer of any kind.
pub struct PtrReader<'a, A: ReadArena + ?Sized> {
    ptr: Option<(SegmentRef, ObjectReader<'a, A>)>,
    nesting_limit: u32,
}

impl<'a, A: ReadArena + ?Sized> PtrReader<'a, A> {
    /// The position of the pointer and the reader of its segment; `None` for the null pointer
    /// that stands for no pointer at all.
    pub closed spec fn spec_ptr(&self) -> Option<(SegmentRef, ObjectReader<'a, A>)> {
        self.ptr
    }

    /// How much deeper pointers may be followed.
    pub closed spec fn spec_nesting_limit(&self) -> u32 {
        self.nesting_limit
    }

    /// The halves of the pointer word.
    pub open spec fn spec_parts(&self) -> Parts {
        match self.spec_ptr() {
            None => Parts { lower: 0, upper: 0 },
            Some((pos, rd)) => parts_of(rd.spec_words()[pos@]),
        }
    }

    #[verifier::type_invariant]
    closed spec fn wf(&self) -> bool {
        self.ptr matches Some((pos, rd)) ==> pos@ < rd.spec_words().len()
    }

    /// A null pointer.
    pub fn null() -> (r: Self)
        ensures
            r.spec_ptr() is None,
    {
        PtrReader { ptr: None, nesting_limit: u32::MAX }
    }

    /// The root pointer of an arena: the first word of its first segment, if there is one.
    pub fn root(arena: &'a A, limit: Option<u64>, nesting_limit: u32) -> (r: Option<Self>)
        requires
            arena.read_inv(),
        ensures
            r is Some <==> arena.spec_segments().len() > 0 && arena.spec_segments()[0].len() > 0,
            r matches Some(p) ==> p.spec_ptr() matches Some((pos, rd)) && pos@ == 0 && rd.spec_state()
                == (ReadState { segment: 0, limit }) && rd.spec_segment().spec_arena() == arena
                && p.spec_nesting_limit() == nesting_limit,
    {
        let root = match SegmentReader::from_source(arena, 0) {
            Some(s) => s,
            None => {
                return None;
            },
        };
        let start = match root.start() {
            Some(s) => s,
            None => {
                return None;
            },
        };
        Some(PtrReader { ptr: Some((start, ObjectReader::new(root, limit))), nesting_limit })
    }

    /// The pointer word.
    pub fn wire_ptr(&self) -> (r: WirePtr)
        ensures
            r.parts == self.spec_parts(),
    {
        proof {
            use_type_invariant(self);
        }
        match &self.ptr {
            None => WirePtr::null(),
            Some((pos, rd)) => {
                proof {
                    use_type_invariant(&rd.segment);
                }
                WirePtr::from_word(rd.segment.word(*pos))
            },
        }
    }

    /// Whether the pointer is null.
    pub fn is_null(&self) -> (r: bool)
        ensures
            r == parts_null(self.spec_parts()),
    {
        self.wire_ptr().is_null()
    }

    /// The type of data the pointer refers to.
    pub fn ptr_type(&self) -> (r: Result<PtrType, Error>)
        ensures
            parts_null(self.spec_parts()) ==> r == Ok::<PtrType, Error>(PtrType::Null),
            !parts_null(self.spec_parts()) ==> (self.spec_ptr() matches Some((pos, rd)) && match spec_location_of(rd.spec_segs(), rd.spec_state(), pos@) {
                Err(e) => r == Err::<PtrType, Error>(e),
                Ok((_, p, _)) => if kind_of(p.lower) == WireKind::Struct {
                    r == Ok::<PtrType, Error>(PtrType::Struct)
                } else if kind_of(p.lower) == WireKind::List {
                    r == Ok::<PtrType, Error>(PtrType::List)
                } else if is_capability_parts(p) {
                    r == Ok::<PtrType, Error>(PtrType::Capability)
                } else {
                    r == Err::<PtrType, Error>(spec_fail_read(p, None))
                },
            }),
    {
        proof {
            use_type_invariant(self);
        }
        if self.is_null() {
            return Ok(PtrType::Null);
        }
        match &self.ptr {
            None => Ok(PtrType::Null),
            Some((pos, rd)) => {
                let mut reader = *rd;
                let content = match reader.location_of(*pos) {
                    Ok(c) => c,
                    Err(e) => {
                        return Err(e);
                    },
                };
                let ptr = content.ptr;
                if ptr.is_struct() {
                    Ok(PtrType::Struct)
                } else if ptr.is_list() {
                    Ok(PtrType::List)
                } else if ptr.is_capability() {
                    Ok(PtrType::Capability)
                } else {
                    Err(ptr.fail_read(None))
                }
            },
        }
    }

    /// Reads the struct the pointer refers to; `None` for a null pointer.
    pub fn to_struct(&self) -> (r: Result<Option<StructReader<'a, A>>, Error>)
        ensures
            parts_null(self.spec_parts()) ==> r matches Ok(None),
            !parts_null(self.spec_parts()) && self.spec_nesting_limit() == 0 ==> r == Err::<Option<StructReader<'a, A>>, Error>(
                Error { kind: ErrorKind::NestingLimitExceeded },
            ),
            !parts_null(self.spec_parts()) && self.spec_nesting_limit() > 0 ==> (self.spec_ptr() matches Some((pos, rd)) && match spec_read_struct(rd.spec_segs(), rd.spec_state(), pos@) {
                Err(e) => r == Err::<Option<StructReader<'a, A>>, Error>(e),
                Ok((st, start, size)) => r matches Ok(Some(s)) && s.spec_data() == rd.spec_segs()[st.segment as int].subrange(start, start + size.data)
                    && s.spec_ptrs_start() == start + size.data && s.spec_ptrs_len() == size.ptrs
                    && s.spec_nesting_limit() == self.spec_nesting_limit() - 1
                    && (s.spec_reader() matches Some(sr) && sr.spec_state() == st
                    && sr.spec_segs() == rd.spec_segs()),
            }),
    {
        proof {
            use_type_invariant(self);
        }
        if self.is_null() {
            return Ok(None);
        }
        let nesting_limit = match self.nesting_limit.checked_sub(1) {
            Some(n) => n,
            None => {
                return Err(Error::from_kind(ErrorKind::NestingLimitExceeded));
            },
        };
        match &self.ptr {
            None => Ok(None),
            Some((pos, rd)) => {
                let mut reader = *rd;
                let content = match reader.try_read_struct(*pos) {
                    Ok(c) => c,
                    Err(e) => {
                        return Err(e);
                    },
                };
                proof {
                    use_type_invariant(&reader.segment);
                    reader.segment.arena.lemma_segments_fit();
                }
                let start = content.ptr.as_ptr() as usize;
                let data = content.size.data as usize;
                let words = reader.segment.words();
                let section = &words[start..start + data];
                Ok(
                    Some(
                        StructReader {
                            data: section,
                            ptrs_start: (start + data) as u32,
                            ptrs_len: content.size.ptrs,
                            reader: Some(reader),
                            nesting_limit,
                        },
                    ),
                )
            },
        }
    }

    /// Reads the list the pointer refers to, checking that its elements can be read as
    /// `expected`; `None` for a null pointer.
    pub fn to_list(&self, expected: Option<PtrElementSize>) -> (r: Result<Option<ListReader<'a, A>>, Error>)
        ensures
            parts_null(self.spec_parts()) ==> r matches Ok(None),
            !parts_null(self.spec_parts()) && self.spec_nesting_limit() == 0 ==> r == Err::<Option<ListReader<'a, A>>, Error>(
                Error { kind: ErrorKind::NestingLimitExceeded },
            ),
            !parts_null(self.spec_parts()) && self.spec_nesting_limit() > 0 ==> (self.spec_ptr() matches Some((pos, rd)) && match spec_read_list(rd.spec_segs(), rd.spec_state(), pos@, expected) {
                Err(e) => r == Err::<Option<ListReader<'a, A>>, Error>(e),
                Ok((st, start, size, count)) => r matches Ok(Some(l)) && l.spec_start() == start
                    && l.spec_element_size() == size && l.spec_len() == count
                    && l.spec_nesting_limit() == self.spec_nesting_limit() - 1
                    && (l.spec_reader() matches Some(lr) && lr.spec_state() == st
                    && lr.spec_segs() == rd.spec_segs()),
            }),
    {
        proof {
            use_type_invariant(self);
        }
        if self.is_null() {
            return Ok(None);
        }
        let nesting_limit = match self.nesting_limit.checked_sub(1) {
            Some(n) => n,
            None => {
                return Err(Error::from_kind(ErrorKind::NestingLimitExceeded));
            },
        };
        match &self.ptr {
            None => Ok(None),
            Some((pos, rd)) => {
                let mut reader = *rd;
                let content = match reader.try_read_list(*pos, expected) {
                    Ok(c) => c,
                    Err(e) => {
                        return Err(e);
                    },
                };
                Ok(
                    Some(
                        ListReader {
                            ptr: content.ptr.as_ptr(),
                            reader: Some(reader),
                            element_count: content.element_count,
                            element_size: content.element_size,
                            nesting_limit,
                        },
                    ),
                )
            },
        }
    }

    /// Reads the bytes of the byte list the pointer refers to; `None` for a null pointer.
    pub fn to_blob(&self) -> (r: Result<Option<BlobReader>, Error>)
        ensures
            parts_null(self.spec_parts()) ==> r matches Ok(None),
            !parts_null(self.spec_parts()) ==> (self.spec_ptr() matches Some((pos, rd)) && match spec_location_of(rd.spec_segs(), rd.spec_state(), pos@) {
                Err(e) => r == Err::<Option<BlobReader>, Error>(e),
                Ok((st, p, loc)) => if kind_of(p.lower) != WireKind::List {
                    r == Err::<Option<BlobReader>, Error>(spec_fail_read(p, Some(ExpectedRead::List)))
                } else if ptr_element_size_of((p.upper % 8) as int) != PtrElementSize::Byte {
                    r == Err::<Option<BlobReader>, Error>(spec_fail_upgrade(ptr_element_size_of((p.upper % 8) as int), PtrElementSize::Byte))
                } else {
                    match spec_read_content(rd.spec_segs(), st, loc, content_offset_of(p.lower), (p.upper / 8 + 7) / 8) {
                        Err(e) => r == Err::<Option<BlobReader>, Error>(e),
                        Ok((st2, start)) => r matches Ok(Some(b)) && b.spec_bytes() == words_bytes(rd.spec_segs()[st2.segment as int].subrange(start, start + (p.upper / 8 + 7) / 8)).subrange(0, (p.upper / 8) as int),
                    }
                },
            }),
    {
        proof {
            use_type_invariant(self);
        }
        if self.is_null() {
            return Ok(None);
        }
        match &self.ptr {
            None => Ok(None),
            Some((pos, rd)) => {
                let mut reader = *rd;
                let content = match reader.location_of(*pos) {
                    Ok(c) => c,
                    Err(e) => {
                        return Err(e);
                    },
                };
                let list_ptr = match content.ptr.try_list_ptr() {
                    Ok(l) => l,
                    Err(e) => {
                        return Err(e);
                    },
                };
                let element_size = list_ptr.element_size();
                if element_size != PtrElementSize::Byte {
                    return Err(
                        Error::from_kind(
                            ErrorKind::IncompatibleUpgrade(
                                IncompatibleUpgrade { from: element_size, to: PtrElementSize::Byte },
                            ),
                        ),
                    );
                }
                let element_count = list_ptr.element_count();
                let len = u29::new_unwrap(Word::round_up_byte_count(element_count.get()));
                proof {
                    use_type_invariant(&reader.segment);
                    reader.segment.arena.lemma_segments_fit();
                }
                let start = match reader.read_content(content.location, list_ptr.offset(), len) {
                    Ok(p) => p,
                    Err(e) => {
                        return Err(e);
                    },
                };
                proof {
                    use_type_invariant(&reader.segment);
                    reader.segment.arena.lemma_segments_fit();
                }
                let words = reader.segment.words();
                let s = start.as_ptr() as usize;
                let section = &words[s..s + len.get() as usize];
                let bytes = copy_bytes(section, element_count.get() as usize);
                Ok(Some(BlobReader { bytes }))
            },
        }
    }

    /// The index of the capability the pointer refers to; `None` for a null pointer.
    pub fn try_to_capability_index(&self) -> (r: Result<Option<u32>, Error>)
        ensures
            parts_null(self.spec_parts()) ==> r == Ok::<Option<u32>, Error>(None),
            !parts_null(self.spec_parts()) && is_capability_parts(self.spec_parts()) ==> r == Ok::<Option<u32>, Error>(Some(self.spec_parts().upper)),
            !parts_null(self.spec_parts()) && !is_capability_parts(self.spec_parts()) ==> r == Err::<Option<u32>, Error>(spec_fail_read(self.spec_parts(), Some(ExpectedRead::Capability))),
    {
        let ptr = self.wire_ptr();
        if ptr.is_null() {
            Ok(None)
        } else {
            match ptr.try_cap_ptr() {
                Ok(c) => Ok(Some(c.capability_index())),
                Err(e) => Err(e),
            }
        }
    }
}

/// The number of words the elements of a list take.
pub open spec fn list_words(size: ElementSize, count: int) -> int {
    match size {
        ElementSize::InlineComposite(s) => count * s.spec_total(),
        _ => (spec_bits(size) * count + 63) / 64,
    }
}

/// A reader of a list.
pub struct ListReader<'a, A: ReadArena + ?Sized> {
    ptr: u32,
    reader: Option<ObjectReader<'a, A>>,
    element_count: u29,
    element_size: ElementSize,
    nesting_limit: u32,
}

impl<'a, A: ReadArena + ?Sized> ListReader<'a, A> {
    /// The position of the first element in the reader's segment.
    pub closed spec fn spec_start(&self) -> int {
        self.ptr as int
    }

    /// The number of elements.
    pub closed spec fn spec_len(&self) -> int {
        self.element_count@ as int
    }

    /// The size of the elements.
    pub closed spec fn spec_element_size(&self) -> ElementSize {
        self.element_size
    }

    /// The reader the list was read with, if any.
    pub closed spec fn spec_reader(&self) -> Option<ObjectReader<'a, A>> {
        self.reader
    }

    /// How much deeper the list's pointers may be followed.
    pub closed spec fn spec_nesting_limit(&self) -> u32 {
        self.nesting_limit
    }

    #[verifier::type_invariant]
    closed spec fn wf(&self) -> bool {
        match self.reader {
            Some(r) => self.ptr + list_words(self.element_size, self.element_count@ as int) <= r.spec_words().len(),
            None => self.element_count@ == 0,
        }
    }

    /// An empty list of elements of the given size.
    pub fn empty(element_size: ElementSize) -> (r: Self)
        ensures
            r.spec_len() == 0,
            r.spec_element_size() == element_size,
    {
        ListReader { ptr: 0, reader: None, element_count: u29::zero(), element_size, nesting_limit: u32::MAX }
    }

    /// The number of elements.
    pub fn len(&self) -> (r: u29)
        ensures
            r@ == self.spec_len(),
    {
        self.element_count
    }

    /// The size of the elements.
    pub fn element_size(&self) -> (r: ElementSize)
        ensures
            r == self.spec_element_size(),
    {
        self.element_size
    }

    /// Whether the list has no elements.
    pub fn is_empty(&self) -> (r: bool)
        ensures
            r == (self.spec_len() == 0),
    {
        self.element_count.get() == 0
    }

    /// The words that hold the elements.
    pub open spec fn spec_section(&self) -> Seq<Word> {
        match self.spec_reader() {
            Some(rd) => rd.spec_words().subrange(
                self.spec_start(),
                self.spec_start() + list_words(self.spec_element_size(), self.spec_len()),
            ),
            None => Seq::empty(),
        }
    }

    /// The words that hold the elements.
    pub fn section(&self) -> (r: &'a [Word])
        ensures
            r@ == self.spec_section(),
            r@.len() <= u29_max(),
    {
        proof {
            use_type_invariant(self);
        }
        match &self.reader {
            None => &[],
            Some(rd) => {
                proof {
                    use_type_invariant(&rd.segment);
                    rd.segment.arena.lemma_segments_fit();
                }
                let n = self.total_words();
                let words = rd.segment.words();
                let start = self.ptr as usize;
                &words[start..start + n]
            },
        }
    }

    /// The number of words that hold the elements.
    fn total_words(&self) -> (r: usize)
        ensures
            r == list_words(self.spec_element_size(), self.spec_len()),
    {
        proof {
            use_type_invariant(self);
            match self.reader {
                Some(rd) => {
                    use_type_invariant(&rd.segment);
                    rd.segment.arena.lemma_segments_fit();
                },
                None => {},
            }
        }
        let count = self.element_count.get() as u64;
        match self.element_size {
            ElementSize::InlineComposite(s) => {
                let t = s.total() as u64;
                assert(count * t <= 536870911 * 131070) by (nonlinear_arith)
                    requires
                        count <= 536870911,
                        t <= 131070,
                ;
                (count * t) as usize
            },
            _ => {
                let bits = self.element_size.bits() as u64;
                assert(bits * count <= 536870911 * 64) by (nonlinear_arith)
                    requires
                        count <= 536870911,
                        bits <= 64,
                ;
                ((bits * count + 63) / 64) as usize
            },
        }
    }

    /// Reads the data element at `index` of a list of data elements, or the first data field of
    /// the struct at `index` of a struct list.
    pub fn data_element<D: Data>(&self, index: u32) -> (r: D)
        requires
            index < self.spec_len(),
        ensures
            self.spec_element_size() matches ElementSize::InlineComposite(size) ==> r == D::spec_read(
                words_bytes(self.spec_section().subrange(index * size.spec_total(), index * size.spec_total() + size.data)),
                0,
                D::spec_zero(),
            ),
            !(self.spec_element_size() is InlineComposite) ==> r == D::spec_read(words_bytes(self.spec_section()), index as int, D::spec_zero()),
    {
        match self.element_size {
            ElementSize::InlineComposite(_) => self.struct_element(index).data_field(0),
            _ => D::read(self.section(), index as usize, D::zero()),
        }
    }

    /// The reader of the struct at `index` of a struct list.
    pub fn struct_element(&self, index: u32) -> (r: StructReader<'a, A>)
        requires
            index < self.spec_len(),
        ensures
            self.spec_element_size() matches ElementSize::InlineComposite(size) ==> {
                &&& r.spec_data() == self.spec_section().subrange(index * size.spec_total(), index * size.spec_total() + size.data)
                &&& r.spec_ptrs_len() == size.ptrs
                &&& r.spec_ptrs_start() == self.spec_start() + index * size.spec_total() + size.data
                &&& r.spec_reader() == self.spec_reader()
                &&& r.spec_nesting_limit() == if self.spec_nesting_limit() > 0 {
                    self.spec_nesting_limit() - 1
                } else {
                    0
                }
            },
            !(self.spec_element_size() is InlineComposite) ==> r.spec_data().len() == 0 && r.spec_ptrs_len() == 0,
    {
        proof {
            use_type_invariant(self);
        }
        match self.element_size {
            ElementSize::InlineComposite(size) => {
                let section = self.section();
                let t = size.total() as usize;
                let i = index as usize;
                assert(i * t + t <= list_words(self.element_size, self.element_count@ as int)) by (nonlinear_arith)
                    requires
                        i < self.element_count@,
                        list_words(self.element_size, self.element_count@ as int) == self.element_count@ * t,
                ;
                let start = i * t;
                let data = size.data as usize;
                match &self.reader {
                    Some(rd) => StructReader {
                        data: {
                            proof {
                                use_type_invariant(&rd.segment);
                                rd.segment.arena.lemma_segments_fit();
                            }
                            &section[start..start + data]
                        },
                        ptrs_start: self.ptr + (start + data) as u32,
                        ptrs_len: size.ptrs,
                        reader: Some(*rd),
                        nesting_limit: if self.nesting_limit > 0 { self.nesting_limit - 1 } else { 0 },
                    },
                    None => StructReader::empty(),
                }
            },
            _ => StructReader::empty(),
        }
    }

    /// The reader of the pointer at `index` of a pointer list, or of the first pointer of the
    /// struct at `index` of a struct list.
    pub fn ptr_element(&self, index: u32) -> (r: PtrReader<'a, A>)
        requires
            index < self.spec_len(),
        ensures
            self.spec_element_size() == ElementSize::Pointer ==> (r.spec_ptr() matches Some((pos, rd)) && pos@ == self.spec_start() + index && Some(rd) == self.spec_reader()),
            self.spec_element_size() matches ElementSize::InlineComposite(size) ==> if size.ptrs > 0 {
                r.spec_ptr() matches Some((pos, rd)) && pos@ == self.spec_start() + index * size.spec_total() + size.data && Some(rd)
                    == self.spec_reader()
            } else {
                r.spec_ptr() is None
            },
            !(self.spec_element_size() is InlineComposite) && self.spec_element_size() != ElementSize::Pointer ==> r.spec_ptr() is None,
    {
        proof {
            use_type_invariant(self);
        }
        match self.element_size {
            ElementSize::Pointer => match &self.reader {
                Some(rd) => {
                    proof {
                        use_type_invariant(&rd.segment);
                        rd.segment.arena.lemma_segments_fit();
                    }
                    let pos = SegmentRef::new_unchecked(u29::new_unwrap(self.ptr + index));
                    PtrReader { ptr: Some((pos, *rd)), nesting_limit: self.nesting_limit }
                },
                None => PtrReader::null(),
            },
            ElementSize::InlineComposite(_) => self.struct_element(index).ptr_field(0),
            _ => PtrReader::null(),
        }
    }
}

} // verus!

verus! {

/// The words of segment `id` of an arena being built.
pub open spec fn arena_words(arena: Seq<ArenaSegment>, id: SegmentId) -> Seq<Word> {
    arena[id as int].spec_words()
}

/// Whether position `at` of segment `id` can be written: the segment is owned and `at` is in its
/// used part.
pub open spec fn writable(arena: Seq<ArenaSegment>, id: SegmentId, at: int) -> bool {
    &&& id < arena.len()
    &&& arena[id as int].spec_state() is Used
    &&& 0 <= at < arena[id as int].spec_used_len()
}

/// Whether an arena is `before` with the word at `at` of segment `id` holding `p`.
pub open spec fn word_set(before: Seq<ArenaSegment>, after: Seq<ArenaSegment>, id: SegmentId, at: int, p: Parts) -> bool {
    &&& after.len() == before.len()
    &&& after[id as int].spec_words().len() == before[id as int].spec_words().len()
    &&& parts_of(after[id as int].spec_words()[at]) == p
    &&& forall|i: int| 0 <= i < before[id as int].spec_words().len() && i != at ==> #[trigger] after[id as int].spec_words()[i] == before[id as int].spec_words()[i]
    &&& after[id as int].spec_state() == before[id as int].spec_state()
    &&& after[id as int].spec_id() == before[id as int].spec_id()
    &&& forall|i: int| 0 <= i < before.len() && i != id ==> #[trigger] after[i] == before[i]
}

/// A builder of objects in one segment of an arena; the arena is handed to each operation.
#[derive(Clone, Copy, Debug, PartialEq, Eq, Structural)]
pub struct ObjectBuilder {
    pub segment: SegmentId,
}

impl ObjectBuilder {
    /// A builder of objects in segment `segment`.
    pub fn new(segment: SegmentId) -> (r: Self)
        ensures
            r.segment == segment,
    {
        ObjectBuilder { segment }
    }

    /// The id of the segment.
    pub fn id(&self) -> (r: SegmentId)
        ensures
            r == self.segment,
    {
        self.segment
    }

    /// Whether another builder builds in the same segment.
    pub fn is_same_segment(&self, other: &ObjectBuilder) -> (r: bool)
        ensures
            r == (self.segment == other.segment),
    {
        self.segment == other.segment
    }

    /// The first word of the segment.
    pub fn start(&self) -> (r: SegmentRef)
        ensures
            r@ == 0,
    {
        SegmentRef::new_unchecked(u29::zero())
    }

    /// The position just beyond the used part of the segment.
    pub fn end<B: BuildArena + ?Sized>(&self, arena: &B) -> (r: SegmentPtr)
        requires
            arena.inv(),
            self.segment < arena.spec_arena().len(),
        ensures
            r@ == arena.spec_arena()[self.segment as int].spec_used_len(),
    {
        let s = arena.segment(self.segment).unwrap();
        SegmentPtr::new(s.used_len().get() as i64)
    }

    /// Whether the position lies in the segment.
    pub fn contains<B: BuildArena + ?Sized>(&self, arena: &B, r: SegmentPtr) -> (res: bool)
        requires
            arena.inv(),
            self.segment < arena.spec_arena().len(),
        ensures
            res == (0 <= r@ < arena.spec_arena()[self.segment as int].spec_words().len()),
    {
        let s = arena.segment(self.segment).unwrap();
        let len = s.segment().len().get() as i64;
        0 <= r.as_ptr() && r.as_ptr() < len
    }

    /// Whether `start..end` lies in the used part of the segment.
    pub fn contains_range<B: BuildArena + ?Sized>(&self, arena: &B, start: SegmentPtr, end: SegmentPtr) -> (r: bool)
        requires
            arena.inv(),
            self.segment < arena.spec_arena().len(),
        ensures
            r == (0 <= start@ <= end@ <= arena.spec_arena()[self.segment as int].spec_used_len()),
    {
        let e = self.end(arena);
        0 <= start.as_ptr() && start.as_ptr() <= end.as_ptr() && end.as_ptr() <= e.as_ptr()
    }

    /// Whether `offset` words from `r` lie in the used part of the segment.
    pub fn contains_section<B: BuildArena + ?Sized>(&self, arena: &B, r: SegmentRef, offset: SegmentOffset) -> (res: bool)
        requires
            arena.inv(),
            self.segment < arena.spec_arena().len(),
        ensures
            res == (r@ + offset@ <= arena.spec_arena()[self.segment as int].spec_used_len()),
    {
        self.contains_range(arena, r.as_segment_ptr(), r.offset(offset))
    }

    /// The offset from the end of the word at `from` to `to`.
    pub fn offset_from_end_of(&self, from: SegmentPtr, to: SegmentPtr) -> (r: SignedSegmentOffset)
        requires
            0 <= from@ <= u29_max(),
            0 <= to@ <= u29_max(),
        ensures
            r@ == to@ - (from@ + 1),
    {
        let d = to.as_ptr() - (from.as_ptr() + 1);
        i30::new_unwrap(d as i32)
    }

    /// The offset of `to` from the start of the segment.
    pub fn offset_from_start(&self, to: SegmentPtr) -> (r: SegmentOffset)
        requires
            0 <= to@ <= u29_max(),
        ensures
            r@ == to@,
    {
        u29::new_unwrap(to.as_ptr() as u32)
    }

    /// A builder of another segment of the arena, if there is one.
    pub fn build_segment<B: BuildArena + ?Sized>(&self, arena: &B, segment: SegmentId) -> (r: Option<ObjectBuilder>)
        requires
            arena.inv(),
        ensures
            r is Some <==> segment < arena.spec_arena().len(),
            r matches Some(b) ==> b.segment == segment,
    {
        match arena.segment(segment) {
            Some(_) => Some(ObjectBuilder { segment }),
            None => None,
        }
    }

    /// The position `offset` of segment `segment`, and a builder of that segment; `None` where
    /// there is no such segment or it is read-only.
    pub fn build_object_in<B: BuildArena + ?Sized>(&self, arena: &B, segment: SegmentId, offset: SegmentOffset) -> (r: Option<(SegmentRef, ObjectBuilder)>)
        requires
            arena.inv(),
        ensures
            r is Some <==> segment < arena.spec_arena().len() && !(arena.spec_arena()[segment as int].spec_state() is ReadOnly),
            r matches Some((p, b)) ==> p@ == offset@ && b.segment == segment,
    {
        match arena.segment(segment) {
            Some(s) => if s.is_read_only() {
                None
            } else {
                Some((SegmentRef::new_unchecked(offset), ObjectBuilder { segment }))
            },
            None => None,
        }
    }

    /// The position `offset` words from the end of the word at `ptr`, in this segment.
    pub fn build_object_from_end_of(&self, ptr: SegmentPtr, offset: SignedSegmentOffset) -> (r: (SegmentRef, ObjectBuilder))
        requires
            0 <= ptr@ + 1 + offset@ <= u29_max(),
        ensures
            r.0@ == ptr@ + 1 + offset@,
            r.1 == *self,
    {
        let p = ptr.as_ptr() + 1 + offset.get() as i64;
        (SegmentPtr::new(p).as_ref_unchecked(), *self)
    }

    /// The position `offset` words from the end of the word at `ptr`, with a builder of segment
    /// `segment`.
    pub fn build_object_from_end_in<B: BuildArena + ?Sized>(&self, arena: &B, segment: SegmentId, ptr: SegmentPtr, offset: SignedSegmentOffset) -> (r: Option<(SegmentRef, ObjectBuilder)>)
        requires
            arena.inv(),
            0 <= ptr@ + 1 + offset@ <= u29_max(),
        ensures
            r is Some <==> segment < arena.spec_arena().len(),
            r matches Some((p, b)) ==> p@ == ptr@ + 1 + offset@ && b.segment == segment,
    {
        match self.build_segment(arena, segment) {
            Some(b) => {
                let p = ptr.as_ptr() + 1 + offset.get() as i64;
                Some((SegmentPtr::new(p).as_ref_unchecked(), b))
            },
            None => None,
        }
    }

    /// Writes a pointer at `at` in this segment.
    pub fn set_ptr<B: BuildArena + ?Sized>(&self, arena: &mut B, at: SegmentRef, value: WirePtr)
        requires
            old(arena).inv(),
            writable(old(arena).spec_arena(), self.segment, at@),
        ensures
            final(arena).inv(),
            word_set(old(arena).spec_arena(), final(arena).spec_arena(), self.segment, at@, value.parts),
    {
        let w = value.to_word();
        proof {
            arena.lemma_used_fits();
        }
        arena.set_word(self.segment, at.as_ptr() as usize, w);
    }

    /// Allocates `size` words at the end of the used part of this segment, if they fit.
    pub fn alloc_in_segment<B: BuildArena + ?Sized>(&self, arena: &mut B, size: AllocLen) -> (r: Option<SegmentRef>)
        requires
            old(arena).inv(),
            self.segment < old(arena).spec_arena().len(),
            old(arena).spec_arena()[self.segment as int].spec_state() is Used,
        ensures
            final(arena).inv(),
            allocated(old(arena).spec_arena(), final(arena).spec_arena(), size@ as int, match r {
                Some(p) => Some((p.spec_pos(), self.segment)),
                None => None,
            }),
            r is Some <==> has_room(old(arena).spec_arena(), self.segment, size@ as int),
            final(arena).spec_alloc_segment() == old(arena).spec_alloc_segment(),
    {
        match arena.try_use_len(self.segment, size) {
            Some(off) => Some(SegmentRef::new_unchecked(off)),
            None => None,
        }
    }

    /// Allocates `size` words in some segment of the arena, adding a segment if need be.
    pub fn alloc_in_arena<B: BuildArena + ?Sized>(&self, arena: &mut B, size: AllocLen) -> (r: Option<(SegmentRef, ObjectBuilder)>)
        requires
            old(arena).inv(),
            old(arena).spec_arena().len() > 0,
        ensures
            final(arena).inv(),
            allocated(old(arena).spec_arena(), final(arena).spec_arena(), size@ as int, match r {
                Some((p, b)) => Some((p.spec_pos(), b.segment)),
                None => None,
            }),
            has_room(old(arena).spec_arena(), old(arena).spec_alloc_segment(), size@ as int) ==> (r matches Some((_, b))
                && b.segment == old(arena).spec_alloc_segment()),
    {
        match arena.allocate(size) {
            Some((off, id)) => Some((SegmentRef::new_unchecked(off), ObjectBuilder { segment: id })),
            None => None,
        }
    }

    /// Allocates `size` words in this segment if they fit, else somewhere in the arena.
    pub fn allocate<B: BuildArena + ?Sized>(&self, arena: &mut B, size: AllocLen) -> (r: Option<(SegmentRef, ObjectBuilder)>)
        requires
            old(arena).inv(),
            self.segment < old(arena).spec_arena().len(),
            old(arena).spec_arena()[self.segment as int].spec_state() is Used,
        ensures
            final(arena).inv(),
            allocated(old(arena).spec_arena(), final(arena).spec_arena(), size@ as int, match r {
                Some((p, b)) => Some((p.spec_pos(), b.segment)),
                None => None,
            }),
            has_room(old(arena).spec_arena(), self.segment, size@ as int) ==> (r matches Some((_, b)) && b.segment
                == self.segment),
            !has_room(old(arena).spec_arena(), self.segment, size@ as int) && has_room(
                old(arena).spec_arena(),
                old(arena).spec_alloc_segment(),
                size@ as int,
            ) ==> (r matches Some((_, b)) && b.segment == old(arena).spec_alloc_segment()),
    {
        match self.alloc_in_segment(arena, size) {
            Some(p) => Some((p, *self)),
            None => self.alloc_in_arena(arena, size),
        }
    }
}

} // verus!

verus! {

/// Whether reading the pointer at `ptr` of segment `id` of the arena, with no limit, finds a
/// struct of the given size starting at `start` of segment `seg`.
pub open spec fn reads_struct(
    arena: Seq<ArenaSegment>,
    id: SegmentId,
    ptr: int,
    seg: SegmentId,
    start: int,
    size: StructSize,
) -> bool {
    spec_read_struct(used_segments(arena), ReadState { segment: id, limit: None }, ptr)
        == Ok::<(ReadState, int, StructSize), Error>((ReadState { segment: seg, limit: None }, start, size))
}

/// Whether `len` words at `start` of segment `seg` are in the used part of an owned segment.
pub open spec fn region_writable(arena: Seq<ArenaSegment>, seg: SegmentId, start: int, len: int) -> bool {
    &&& seg < arena.len()
    &&& arena[seg as int].spec_state() is Used
    &&& 0 <= start
    &&& start + len <= arena[seg as int].spec_used_len()
}

/// The word at `at` of the used part of segment `id`.
proof fn lemma_used_word(arena: Seq<ArenaSegment>, id: SegmentId, at: int)
    requires
        id < arena.len(),
        0 <= at < arena[id as int].spec_used_len(),
        arena[id as int].spec_used_len() <= arena[id as int].spec_words().len(),
    ensures
        used_segments(arena)[id as int][at] == arena[id as int].spec_words()[at],
        used_segments(arena)[id as int].len() == arena[id as int].spec_used_len(),
        used_segments(arena).len() == arena.len(),
{
}

impl ObjectBuilder {
    /// Allocates a struct of the given size and points the pointer at `ptr` of this segment at
    /// it: in this segment if it fits there, else after a landing pad in another segment, the
    /// pointer becoming a far pointer to the pad. Returns the start of the struct and a builder
    /// of its segment.
    #[verifier::rlimit(100)]
    pub fn alloc_struct<B: BuildArena + ?Sized>(&self, arena: &mut B, ptr: SegmentRef, size: StructSize) -> (r: Result<(SegmentRef, ObjectBuilder), Error>)
        requires
            old(arena).inv(),
            writable(old(arena).spec_arena(), self.segment, ptr@),
        ensures
            final(arena).inv(),
            r is Err ==> final(arena).spec_arena() == old(arena).spec_arena(),
            r matches Err(e) ==> (e.kind matches ErrorKind::AllocFailed(n) && n@ == size.spec_total() + 1),
            size.spec_total() == 0 || has_room(old(arena).spec_arena(), self.segment, size.spec_total()) || has_room(
                old(arena).spec_arena(),
                old(arena).spec_alloc_segment(),
                size.spec_total() + 1,
            ) ==> r is Ok,
            r matches Ok((start, b)) ==> {
                &&& reads_struct(final(arena).spec_arena(), self.segment, ptr@, b.segment, start@, size)
                &&& !is_double_far(parts_of(final(arena).spec_arena()[self.segment as int].spec_words()[ptr@]))
                &&& pad_outside(parts_of(final(arena).spec_arena()[self.segment as int].spec_words()[ptr@]), b.segment, start@, start@ + size.spec_total())
                &&& (b.segment == self.segment && size.spec_total() > 0 ==> ptr@ < start@)
                &&& region_writable(final(arena).spec_arena(), b.segment, start@, size.spec_total())
                &&& all_zero_in(final(arena).spec_arena(), b.segment, start@, size.spec_total())
                &&& final(arena).spec_arena().len() >= old(arena).spec_arena().len()
            },
            forall|k: int|
                0 <= k < old(arena).spec_arena()[self.segment as int].spec_used_len() && k != ptr@
                    ==> #[trigger] final(arena).spec_arena()[self.segment as int].spec_words()[k]
                    == old(arena).spec_arena()[self.segment as int].spec_words()[k],
            final(arena).spec_arena()[self.segment as int].spec_words().len() == old(arena).spec_arena()[self.segment as int].spec_words().len(),
    {
        proof {
            arena.lemma_used_fits();
        }
        let total = size.total();
        if total == 0 {
            let p = StructPtr::new(i30::new_unwrap(-1), size);
            self.set_ptr(arena, ptr, WirePtr { parts: p.parts });
            proof {
                arena.lemma_used_fits();
                let a = arena.spec_arena();
                lemma_used_word(a, self.segment, ptr@);
                lemma_struct_ptr_round_trip(p, -1, size);
            }
            return Ok((ptr, *self));
        }
        let len = NonZeroU29::new_unwrap(total);
        match self.alloc_in_segment(arena, len) {
            Some(start) => {
                let offset = self.offset_from_end_of(ptr.as_segment_ptr(), start.as_segment_ptr());
                let p = StructPtr::new(offset, size);
                let ghost mid = arena.spec_arena();
                proof {
                    arena.lemma_used_fits();
                }
                self.set_ptr(arena, ptr, WirePtr { parts: p.parts });
                proof {
                    arena.lemma_used_fits();
                    let a = arena.spec_arena();
                    lemma_used_word(a, self.segment, ptr@);
                    lemma_struct_ptr_round_trip(p, offset@ as int, size);
                    assert(all_zero_in(a, self.segment, start@, total as int)) by {
                        assert forall|i: int| 0 <= i < total implies crate::allocator::word_is_zero(
                            #[trigger] a[self.segment as int].spec_words().subrange(start@, start@ + total)[i]) by {
                            assert(a[self.segment as int].spec_words()[start@ + i] == mid[self.segment as int].spec_words()[start@ + i]);
                            assert(mid[self.segment as int].spec_words().subrange(start@, start@ + total)[i] == mid[self.segment as int].spec_words()[start@ + i]);
                        }
                    }
                }
                Ok((start, *self))
            },
            None => {
                let len_with_pad = NonZeroU29::new_unwrap(total + 1);
                match self.alloc_in_arena(arena, len_with_pad) {
                    None => Err(Error::from_kind(ErrorKind::AllocFailed(len_with_pad))),
                    Some((pad, seg)) => {
                        let ghost mid = arena.spec_arena();
                        proof {
                            arena.lemma_used_fits();
                        }
                        let start = pad.offset(u29::new_unwrap(1)).as_ref_unchecked();
                        let offset_to_pad = seg.offset_from_start(pad.as_segment_ptr());
                        let far = FarPtr::new(seg.id(), offset_to_pad, false);
                        self.set_ptr(arena, ptr, WirePtr { parts: far.parts });
                        let ghost mid2 = arena.spec_arena();
                        proof {
                            arena.lemma_used_fits();
                            if seg.segment == self.segment {
                                assert(pad@ != ptr@);
                            }
                        }
                        let tag = StructPtr::new(i30::new_unwrap(0), size);
                        seg.set_ptr(arena, pad, WirePtr { parts: tag.parts });
                        proof {
                            arena.lemma_used_fits();
                            let a = arena.spec_arena();
                            lemma_used_word(a, self.segment, ptr@);
                            lemma_used_word(a, seg.segment, pad@);
                            lemma_struct_ptr_round_trip(tag, 0, size);
                            assert(parts_of(a[self.segment as int].spec_words()[ptr@]) == far.parts);
                            assert(all_zero_in(a, seg.segment, start@, total as int)) by {
                                assert forall|i: int| 0 <= i < total implies crate::allocator::word_is_zero(
                                    #[trigger] a[seg.segment as int].spec_words().subrange(start@, start@ + total)[i]) by {
                                    assert(a[seg.segment as int].spec_words()[start@ + i] == mid[seg.segment as int].spec_words()[start@ + i]);
                                    assert(mid[seg.segment as int].spec_words().subrange(pad@, pad@ + total + 1)[i + 1] == mid[seg.segment as int].spec_words()[start@ + i]);
                                }
                            }
                        }
                        Ok((start, seg))
                    },
                }
            },
        }
    }
}

/// Whether the `len` words at `start` of segment `seg` are zero.
pub open spec fn all_zero_in(arena: Seq<ArenaSegment>, seg: SegmentId, start: int, len: int) -> bool {
    crate::allocator::all_zero(arena[seg as int].spec_words().subrange(start, start + len))
}

} // verus!

verus! {

/// The words of the data section of a struct at `start` of segment `seg`.
pub open spec fn struct_data(arena: Seq<ArenaSegment>, seg: SegmentId, start: int, size: StructSize) -> Seq<Word> {
    arena[seg as int].spec_words().subrange(start, start + size.data)
}

/// Whether two arenas differ at most in the words `lo..hi` of segment `seg`.
pub open spec fn same_but(a: Seq<ArenaSegment>, b: Seq<ArenaSegment>, seg: SegmentId, lo: int, hi: int) -> bool {
    &&& a.len() == b.len()
    &&& forall|i: int| 0 <= i < a.len() && i != seg ==> #[trigger] b[i] == a[i]
    &&& b[seg as int].spec_state() == a[seg as int].spec_state()
    &&& b[seg as int].spec_id() == a[seg as int].spec_id()
    &&& b[seg as int].spec_words().len() == a[seg as int].spec_words().len()
    &&& forall|k: int| 0 <= k < a[seg as int].spec_words().len() && !(lo <= k < hi) ==> #[trigger] b[seg as int].spec_words()[k] == a[seg as int].spec_words()[k]
}

/// Whether a far pointer's landing pad lies outside the words `lo..hi` of segment `seg`.
pub open spec fn pad_outside(p: Parts, seg: SegmentId, lo: int, hi: int) -> bool {
    kind_of(p.lower) == WireKind::Far ==> (p.upper != seg || !(lo <= p.lower / 8 < hi))
}

/// Whether a pointer is a far pointer to a two-word landing pad.
pub open spec fn is_double_far(p: Parts) -> bool {
    kind_of(p.lower) == WireKind::Far && (p.lower / 4) % 2 == 1
}

/// The used words of two arenas that differ at most in the words `lo..hi` of segment `seg`
/// differ at most there too.
proof fn lemma_used_same_but(a: Seq<ArenaSegment>, b: Seq<ArenaSegment>, seg: SegmentId, lo: int, hi: int)
    requires
        same_but(a, b, seg, lo, hi),
        forall|i: int| 0 <= i < a.len() ==> #[trigger] a[i].spec_used_len() <= a[i].spec_words().len(),
    ensures
        used_segments(b).len() == used_segments(a).len(),
        forall|i: int| 0 <= i < a.len() ==> #[trigger] used_segments(b)[i].len() == used_segments(a)[i].len(),
        forall|i: int, k: int|
            0 <= i < a.len() && 0 <= k < used_segments(a)[i].len() && (i != seg || !(lo <= k < hi))
                ==> #[trigger] used_segments(b)[i][k] == used_segments(a)[i][k],
{
    assert forall|i: int, k: int|
        0 <= i < a.len() && 0 <= k < used_segments(a)[i].len() && (i != seg || !(lo <= k < hi))
            implies #[trigger] used_segments(b)[i][k] == used_segments(a)[i][k] by {
        if i != seg {
            assert(b[i] == a[i]);
        } else {
            assert(b[i].spec_words()[k] == a[i].spec_words()[k]);
        }
    }
}

/// Reading content depends only on the lengths of the segments.
proof fn lemma_read_content_lens(ua: Seq<Seq<Word>>, ub: Seq<Seq<Word>>, st: ReadState, loc: LocationModel, offset: int, len: int)
    requires
        ua.len() == ub.len(),
        forall|i: int| 0 <= i < ua.len() ==> #[trigger] ub[i].len() == ua[i].len(),
        st.segment < ua.len(),
    ensures
        spec_read_content(ub, st, loc, offset, len) == spec_read_content(ua, st, loc, offset, len),
{
}

/// A struct found by reading a pointer (not a double far one) is still found there after words
/// inside the struct change, the pointer itself lying outside of them.
#[verifier::rlimit(50)]
pub proof fn lemma_reads_struct_frame(
    a: Seq<ArenaSegment>,
    b: Seq<ArenaSegment>,
    id: SegmentId,
    ptr: int,
    seg: SegmentId,
    start: int,
    size: StructSize,
    lo: int,
    hi: int,
)
    requires
        reads_struct(a, id, ptr, seg, start, size),
        same_but(a, b, seg, lo, hi),
        start <= lo,
        hi <= start + size.spec_total(),
        id == seg ==> !(lo <= ptr < hi),
        id < a.len(),
        0 <= ptr < a[id as int].spec_used_len(),
        forall|i: int| 0 <= i < a.len() ==> #[trigger] a[i].spec_used_len() <= a[i].spec_words().len(),
        !is_double_far(parts_of(a[id as int].spec_words()[ptr])),
        pad_outside(parts_of(a[id as int].spec_words()[ptr]), seg, lo, hi),
    ensures
        reads_struct(b, id, ptr, seg, start, size),
{
    let ua = used_segments(a);
    let ub = used_segments(b);
    let st = ReadState { segment: id, limit: None };
    lemma_used_same_but(a, b, seg, lo, hi);
    assert(ub[id as int][ptr] == ua[id as int][ptr]);
    let p = parts_of(ua[id as int][ptr]);
    assert(p == parts_of(a[id as int].spec_words()[ptr]));
    let loc_a = spec_location_of(ua, st, ptr);
    if kind_of(p.lower) == WireKind::Far {
        let pad = (p.lower / 8) as int;
        let fs = p.upper;
        assert(spec_read_in(ub, st, fs, pad, 1) == spec_read_in(ua, st, fs, pad, 1));
        match spec_read_in(ua, st, fs, pad, 1) {
            Ok((st2, q)) => {
                let pad_ptr = parts_of(ua[fs as int][pad]);
                assert(ub[fs as int][pad] == ua[fs as int][pad]);
                assert(spec_location_of(ub, st, ptr) == loc_a);
                match loc_a {
                    Ok((st1, p1, l1)) => {
                        lemma_read_content_lens(ua, ub, st1, l1, content_offset_of(p1.lower), struct_size_of(p1).spec_total());
                    },
                    Err(_) => {},
                }
            },
            Err(e) => {
                assert(false);
            },
        }
    } else {
        assert(spec_location_of(ub, st, ptr) == loc_a);
        match loc_a {
            Ok((st1, p1, l1)) => {
                lemma_read_content_lens(ua, ub, st1, l1, content_offset_of(p1.lower), struct_size_of(p1).spec_total());
            },
            Err(_) => {},
        }
    }
}

/// A builder of a pointer.
#[derive(Clone, Copy, Debug, PartialEq, Eq, Structural)]
pub struct PtrBuilder {
    pub ptr: SegmentRef,
    pub builder: ObjectBuilder,
}

/// A builder of a struct: its data section and pointer section.
#[derive(Clone, Copy, Debug, PartialEq, Eq, Structural)]
pub struct StructBuilder {
    pub builder: ObjectBuilder,
    pub start: u32,
    pub size: StructSize,
}

impl PtrBuilder {
    /// The builder of the root pointer: the first word of the first segment.
    pub fn root() -> (r: Self)
        ensures
            r.ptr@ == 0,
            r.builder.segment == 0,
    {
        PtrBuilder { ptr: SegmentRef::new_unchecked(u29::zero()), builder: ObjectBuilder::new(0) }
    }

    /// Whether the pointer is null.
    pub fn is_null<B: BuildArena + ?Sized>(&self, arena: &B) -> (r: bool)
        requires
            arena.inv(),
            writable(arena.spec_arena(), self.builder.segment, self.ptr@),
        ensures
            r == parts_null(parts_of(arena_words(arena.spec_arena(), self.builder.segment)[self.ptr@])),
    {
        let s = arena.segment(self.builder.segment).unwrap();
        let w = s.word(self.ptr.as_ptr() as usize);
        WirePtr::from_word(w).is_null()
    }

    /// Allocates a zeroed struct of the given size and points the pointer at it, clearing first
    /// what the pointer referred to.
    pub fn try_init_struct<B: BuildArena + ?Sized>(&self, arena: &mut B, size: StructSize) -> (r: Result<StructBuilder, Error>)
        requires
            old(arena).inv(),
            writable(old(arena).spec_arena(), self.builder.segment, self.ptr@),
        ensures
            final(arena).inv(),
            parts_null(parts_of(arena_words(old(arena).spec_arena(), self.builder.segment)[self.ptr@])) ==> (r is Err
                ==> final(arena).spec_arena() == old(arena).spec_arena()),
            r is Err ==> zeroed_from(old(arena).spec_arena(), final(arena).spec_arena()),
            r matches Err(e) ==> (e.kind matches ErrorKind::AllocFailed(n) && n@ == size.spec_total() + 1),
            size.spec_total() == 0 || has_room(old(arena).spec_arena(), self.builder.segment, size.spec_total()) || has_room(
                old(arena).spec_arena(),
                old(arena).spec_alloc_segment(),
                size.spec_total() + 1,
            ) ==> r is Ok,
            r matches Ok(s) ==> {
                &&& s.size == size
                &&& reads_struct(final(arena).spec_arena(), self.builder.segment, self.ptr@, s.builder.segment, s.start as int, size)
                &&& !is_double_far(parts_of(final(arena).spec_arena()[self.builder.segment as int].spec_words()[self.ptr@]))
                &&& pad_outside(parts_of(final(arena).spec_arena()[self.builder.segment as int].spec_words()[self.ptr@]), s.builder.segment, s.start as int, s.start + size.spec_total())
                &&& (s.builder.segment == self.builder.segment && size.spec_total() > 0 ==> self.ptr@ < s.start)
                &&& region_writable(final(arena).spec_arena(), s.builder.segment, s.start as int, size.spec_total())
                &&& all_zero_in(final(arena).spec_arena(), s.builder.segment, s.start as int, size.spec_total())
            },
            parts_null(parts_of(arena_words(old(arena).spec_arena(), self.builder.segment)[self.ptr@])) ==> forall|k: int|
                0 <= k < old(arena).spec_arena()[self.builder.segment as int].spec_used_len() && k != self.ptr@
                    ==> #[trigger] final(arena).spec_arena()[self.builder.segment as int].spec_words()[k]
                    == old(arena).spec_arena()[self.builder.segment as int].spec_words()[k],
            final(arena).spec_arena()[self.builder.segment as int].spec_words().len() == old(arena).spec_arena()[self.builder.segment as int].spec_words().len(),
    {
        if !self.is_null(arena) {
            self.clear(arena);
        } else {
            proof {
                lemma_zeroed_refl(arena.spec_arena());
            }
        }
        match self.builder.alloc_struct(arena, self.ptr, size) {
            Ok((start, builder)) => Ok(StructBuilder { builder, start: start.as_ptr(), size }),
            Err(e) => Err(e),
        }
    }
}

impl StructBuilder {
    /// Whether the struct lies in the used part of an owned segment of the arena.
    pub open spec fn valid_in(&self, arena: Seq<ArenaSegment>) -> bool {
        region_writable(arena, self.builder.segment, self.start as int, self.size.spec_total())
    }

    /// The size of the struct.
    pub fn size(&self) -> (r: StructSize)
        ensures
            r == self.size,
    {
        self.size
    }

    /// The words of the data section.
    fn data_section<'b, B: BuildArena + ?Sized>(&self, arena: &'b B) -> (r: &'b [Word])
        requires
            arena.inv(),
            self.valid_in(arena.spec_arena()),
        ensures
            r@ == struct_data(arena.spec_arena(), self.builder.segment, self.start as int, self.size),
            r@.len() <= u29_max(),
    {
        proof {
            arena.lemma_used_fits();
        }
        let s = arena.segment(self.builder.segment).unwrap();
        let words = s.segment().as_slice();
        let start = self.start as usize;
        &words[start..start + self.size.data as usize]
    }

    /// Reads the data field at `slot` with the given default.
    pub fn data_field_with_default<D: Data, B: BuildArena + ?Sized>(&self, arena: &B, slot: usize, default: D) -> (r: D)
        requires
            arena.inv(),
            self.valid_in(arena.spec_arena()),
        ensures
            r == D::spec_read(words_bytes(struct_data(arena.spec_arena(), self.builder.segment, self.start as int, self.size)), slot as int, default),
    {
        D::read(self.data_section(arena), slot, default)
    }

    /// Reads the data field at `slot`, whose default is zero.
    pub fn data_field<D: Data, B: BuildArena + ?Sized>(&self, arena: &B, slot: usize) -> (r: D)
        requires
            arena.inv(),
            self.valid_in(arena.spec_arena()),
        ensures
            r == D::spec_read(words_bytes(struct_data(arena.spec_arena(), self.builder.segment, self.start as int, self.size)), slot as int, D::spec_zero()),
    {
        D::read(self.data_section(arena), slot, D::zero())
    }

    /// Writes the data field at `slot` with the given default. A field beyond the data section
    /// is not written.
    pub fn set_field_with_default<D: Data, B: BuildArena + ?Sized>(&self, arena: &mut B, slot: usize, value: D, default: D)
        requires
            old(arena).inv(),
            self.valid_in(old(arena).spec_arena()),
        ensures
            final(arena).spec_alloc_segment() == old(arena).spec_alloc_segment(),
            final(arena).inv(),
            self.valid_in(final(arena).spec_arena()),
            same_but(old(arena).spec_arena(), final(arena).spec_arena(), self.builder.segment, self.start as int, self.start + self.size.data),
            D::spec_range(slot as int).1 <= self.size.data * 8 ==> D::spec_read(words_bytes(struct_data(final(arena).spec_arena(), self.builder.segment, self.start as int, self.size)), slot as int, default) == value,
            forall|k: int| 0 <= k < self.size.data * 8 && !(D::spec_range(slot as int).0 <= k < D::spec_range(slot as int).1) ==>
                #[trigger] words_bytes(struct_data(final(arena).spec_arena(), self.builder.segment, self.start as int, self.size))[k]
                    == words_bytes(struct_data(old(arena).spec_arena(), self.builder.segment, self.start as int, self.size))[k],
    {
        proof {
            arena.lemma_used_fits();
        }
        let ghost before = arena.spec_arena();
        let ghost data_before = struct_data(before, self.builder.segment, self.start as int, self.size);
        let w = D::write(self.data_section(arena), slot, value, default);
        match w {
            None => {
                assert(arena.spec_arena() =~= before);
            },
            Some((i, word)) => {
                arena.set_word(self.builder.segment, self.start as usize + i, word);
                proof {
                    let after = arena.spec_arena();
                    let data_after = struct_data(after, self.builder.segment, self.start as int, self.size);
                    assert(data_after =~= data_before.update(i as int, word));
                    assert forall|k: int| 0 <= k < before[self.builder.segment as int].spec_words().len() && !(self.start <= k < self.start + self.size.data)
                        implies #[trigger] after[self.builder.segment as int].spec_words()[k] == before[self.builder.segment as int].spec_words()[k] by {
                    }
                }
            },
        }
    }

    /// Writes the data field at `slot`, whose default is zero.
    pub fn set_field<D: Data, B: BuildArena + ?Sized>(&self, arena: &mut B, slot: usize, value: D)
        requires
            old(arena).inv(),
            self.valid_in(old(arena).spec_arena()),
        ensures
            final(arena).spec_alloc_segment() == old(arena).spec_alloc_segment(),
            final(arena).inv(),
            self.valid_in(final(arena).spec_arena()),
            same_but(old(arena).spec_arena(), final(arena).spec_arena(), self.builder.segment, self.start as int, self.start + self.size.data),
            D::spec_range(slot as int).1 <= self.size.data * 8 ==> D::spec_read(words_bytes(struct_data(final(arena).spec_arena(), self.builder.segment, self.start as int, self.size)), slot as int, D::spec_zero()) == value,
    {
        let zero = D::zero();
        self.set_field_with_default(arena, slot, value, zero);
    }

    /// The builder of the pointer at `index` of the pointer section, if there is one.
    pub fn ptr_field_mut(&self, index: u16) -> (r: Option<PtrBuilder>)
        requires
            self.start + self.size.spec_total() <= u29_max(),
        ensures
            r is Some <==> index < self.size.ptrs,
            r matches Some(p) ==> p.builder == self.builder && p.ptr@ == self.start + self.size.data + index,
    {
        if index < self.size.ptrs {
            let pos = self.start + self.size.data as u32 + index as u32;
            Some(PtrBuilder { ptr: SegmentRef::new_unchecked(u29::new_unwrap(pos)), builder: self.builder })
        } else {
            None
        }
    }
}

/// Writing a field of a struct reached through a pointer leaves the struct reachable through the
/// pointer, and the field then reads as the value written.
pub proof fn lemma_write_then_read<D: Data>(
    before: Seq<ArenaSegment>,
    after: Seq<ArenaSegment>,
    s: StructBuilder,
    id: SegmentId,
    ptr: int,
    slot: int,
    value: D,
)
    requires
        reads_struct(before, id, ptr, s.builder.segment, s.start as int, s.size),
        same_but(before, after, s.builder.segment, s.start as int, s.start + s.size.data),
        D::spec_range(slot).1 <= s.size.data * 8 ==> D::spec_read(words_bytes(struct_data(after, s.builder.segment, s.start as int, s.size)), slot, D::spec_zero()) == value,
        id == s.builder.segment ==> !(s.start <= ptr < s.start + s.size.data),
        id < before.len(),
        0 <= ptr < before[id as int].spec_used_len(),
        forall|i: int| 0 <= i < before.len() ==> #[trigger] before[i].spec_used_len() <= before[i].spec_words().len(),
        D::spec_range(slot).1 <= s.size.data * 8,
        !is_double_far(parts_of(before[id as int].spec_words()[ptr])),
        pad_outside(parts_of(before[id as int].spec_words()[ptr]), s.builder.segment, s.start as int, s.start + s.size.spec_total()),
    ensures
        reads_struct(after, id, ptr, s.builder.segment, s.start as int, s.size),
        D::spec_read(words_bytes(struct_data(after, s.builder.segment, s.start as int, s.size)), slot, D::spec_zero()) == value,
{
    lemma_reads_struct_frame(before, after, id, ptr, s.builder.segment, s.start as int, s.size, s.start as int, s.start + s.size.data);
}

} // verus!

verus! {

/// A builder of the bytes of a byte list: where they are in the arena and how many there are.
#[derive(Clone, Copy, Debug, PartialEq, Eq, Structural)]
pub struct BlobBuilder {
    pub segment: SegmentId,
    pub start: u32,
    pub len: u29,
}

impl BlobBuilder {
    /// Whether the bytes lie in the used part of an owned segment.
    pub open spec fn valid_in(&self, arena: Seq<ArenaSegment>) -> bool {
        region_writable(arena, self.segment, self.start as int, (self.len@ + 7) / 8)
    }

    /// The bytes in the arena.
    pub open spec fn spec_bytes_in(&self, arena: Seq<ArenaSegment>) -> Seq<u8> {
        words_bytes(arena[self.segment as int].spec_words().subrange(self.start as int, self.start + (self.len@ + 7) / 8)).subrange(0, self.len@ as int)
    }

    /// An empty blob.
    pub fn empty() -> (r: Self)
        ensures
            r.len@ == 0,
    {
        BlobBuilder { segment: 0, start: 0, len: u29::zero() }
    }

    /// The position of the first word of the bytes.
    pub fn data(&self) -> (r: SegmentRef)
        requires
            self.start <= u29_max(),
        ensures
            r@ == self.start,
    {
        SegmentRef::new_unchecked(u29::new_unwrap(self.start))
    }

    /// The number of bytes.
    pub fn len(&self) -> (r: u29)
        ensures
            r == self.len,
    {
        self.len
    }

    /// A reader of the bytes as they are now.
    pub fn as_reader<B: BuildArena + ?Sized>(&self, arena: &B) -> (r: BlobReader)
        requires
            arena.inv(),
            self.valid_in(arena.spec_arena()),
        ensures
            r.spec_bytes() == self.spec_bytes_in(arena.spec_arena()),
    {
        proof {
            arena.lemma_used_fits();
        }
        let s = arena.segment(self.segment).unwrap();
        let words = s.segment().as_slice();
        let start = self.start as usize;
        let n = Word::round_up_byte_count(self.len.get()) as usize;
        let section = &words[start..start + n];
        BlobReader::from_vec(copy_bytes(section, self.len.get() as usize))
    }
}

} // verus!

verus! {

/// Whether reading the pointer at `ptr` of segment `id` of the arena as a list, with no limit
/// and no expected element size, finds `count` elements of the given size starting at `start` of
/// segment `seg`.
pub open spec fn reads_list(
    arena: Seq<ArenaSegment>,
    id: SegmentId,
    ptr: int,
    seg: SegmentId,
    start: int,
    size: ElementSize,
    count: int,
) -> bool {
    spec_read_list(used_segments(arena), ReadState { segment: id, limit: None }, ptr, None)
        == Ok::<(ReadState, int, ElementSize, int), Error>((ReadState { segment: seg, limit: None }, start, size, count))
}

/// The words a list's elements and tag take.
pub open spec fn list_object_words(size: ElementSize, count: int) -> int {
    (spec_bits(size) * count + 63) / 64 + if size is InlineComposite {
        1int
    } else {
        0
    }
}

/// A builder of a list: where its elements are, their size and their count.
#[derive(Clone, Copy, Debug, PartialEq, Eq, Structural)]
pub struct ListBuilder {
    pub builder: ObjectBuilder,
    pub start: u32,
    pub element_size: ElementSize,
    pub element_count: u29,
}

/// The bits of an element count times an element size are the words of the list.
proof fn lemma_list_words(size: ElementSize, count: int)
    requires
        0 <= count <= u29_max(),
    ensures
        size matches ElementSize::InlineComposite(s) ==> (spec_bits(size) * count + 63) / 64 == count * s.spec_total(),
        !(size is InlineComposite) ==> (spec_bits(size) * count + 63) / 64 == list_words(size, count),
        (spec_bits(size) * count + 63) / 64 >= 0,
{
    match size {
        ElementSize::InlineComposite(s) => {
            assert((s.spec_total() * 64 * count + 63) / 64 == count * s.spec_total()) by (nonlinear_arith)
                requires
                    s.spec_total() >= 0,
                    count >= 0,
            ;
        },
        _ => {
            assert(spec_bits(size) * count >= 0) by (nonlinear_arith)
                requires
                    spec_bits(size) >= 0,
                    count >= 0,
            ;
        },
    }
}

impl ObjectBuilder {
    /// Allocates a list of `element_count` elements of the given size, with its tag for a struct
    /// list, and points the pointer at `ptr` of this segment at it: in this segment if it fits
    /// there, else after a landing pad in another segment. Returns the start of the elements and a
    /// builder of their segment.
    pub fn alloc_list<B: BuildArena + ?Sized>(&self, arena: &mut B, ptr: SegmentRef, element_size: ElementSize, element_count: u29) -> (r: Result<(SegmentRef, ObjectBuilder), Error>)
        requires
            old(arena).inv(),
            writable(old(arena).spec_arena(), self.segment, ptr@),
            list_object_words(element_size, element_count@ as int) <= u32::MAX,
        ensures
            final(arena).inv(),
            list_allocated(old(arena).spec_arena(), final(arena).spec_arena(), self.segment, ptr@, r, element_size, element_count@ as int),
            list_alloc_owed(old(arena).spec_arena(), old(arena).spec_alloc_segment(), self.segment, element_size, element_count@ as int) ==> r is Ok,
    {
        match element_size {
            ElementSize::InlineComposite(ssize) => self.alloc_struct_list(arena, ptr, ssize, element_count),
            _ => self.alloc_data_list(arena, ptr, element_size, element_count),
        }
    }

    /// Allocates a list of data or pointer elements; see `alloc_list`.
    #[verifier::rlimit(100)]
    #[verifier::spinoff_prover]
    fn alloc_data_list<B: BuildArena + ?Sized>(&self, arena: &mut B, ptr: SegmentRef, element_size: ElementSize, element_count: u29) -> (r: Result<(SegmentRef, ObjectBuilder), Error>)
        requires
            old(arena).inv(),
            writable(old(arena).spec_arena(), self.segment, ptr@),
            list_object_words(element_size, element_count@ as int) <= u32::MAX,
            !(element_size is InlineComposite),
        ensures
            final(arena).inv(),
            list_allocated(old(arena).spec_arena(), final(arena).spec_arena(), self.segment, ptr@, r, element_size, element_count@ as int),
            list_alloc_owed(old(arena).spec_arena(), old(arena).spec_alloc_segment(), self.segment, element_size, element_count@ as int) ==> r is Ok,
    {
        let ec = element_count.get();
        proof {
            arena.lemma_used_fits();
            lemma_list_words(element_size, element_count@ as int);
            lemma_element_size_code_round_trip(spec_as_ptr_size(element_size));
        }
        let total_size = element_size.total_words(element_count);
        let ptr_size = element_size.as_ptr_size();
        if total_size == 0 {
            let lp = ListPtr::new(i30::new_unwrap(0), ptr_size, element_count);
            self.set_ptr(arena, ptr, WirePtr { parts: lp.parts });
            proof {
                arena.lemma_used_fits();
                lemma_used_word(arena.spec_arena(), self.segment, ptr@);
                assert(all_zero_in(arena.spec_arena(), self.segment, ptr@ + 1, 0));
            }
            let start = ptr.offset(u29::new_unwrap(1)).as_ref_unchecked();
            return Ok((start, *self));
        }
        if total_size > u29::MAX_VALUE {
            return Err(Error::from_kind(ErrorKind::AllocTooLarge));
        }
        let len = NonZeroU29::new_unwrap(total_size);
        match self.alloc_in_segment(arena, len) {
            Some(alloc) => {
                proof {
                    arena.lemma_used_fits();
                }
                let ghost mid = arena.spec_arena();
                let offset = self.offset_from_end_of(ptr.as_segment_ptr(), alloc.as_segment_ptr());
                let lp = ListPtr::new(offset, ptr_size, element_count);
                self.set_ptr(arena, ptr, WirePtr { parts: lp.parts });
                proof {
                    arena.lemma_used_fits();
                    lemma_used_word(arena.spec_arena(), self.segment, ptr@);
                    lemma_zero_kept(mid, arena.spec_arena(), self.segment, alloc@, total_size as int, self.segment, ptr@, lp.parts);
                }
                Ok((alloc, *self))
            },
            None => {
                if total_size + 1 > u29::MAX_VALUE {
                    return Err(Error::from_kind(ErrorKind::AllocFailed(NonZeroU29::maximum())));
                }
                let len_with_pad = NonZeroU29::new_unwrap(total_size + 1);
                match self.alloc_in_arena(arena, len_with_pad) {
                    None => Err(Error::from_kind(ErrorKind::AllocFailed(len_with_pad))),
                    Some((pad, seg)) => {
                        proof {
                            arena.lemma_used_fits();
                        }
                        let ghost mid = arena.spec_arena();
                        proof {
                            lemma_zero_sub(mid, seg.segment, pad@, total_size + 1, pad@ + 1, total_size as int);
                        }
                        let start = pad.offset(u29::new_unwrap(1)).as_ref_unchecked();
                        let offset_to_pad = seg.offset_from_start(pad.as_segment_ptr());
                        let far = FarPtr::new(seg.id(), offset_to_pad, false);
                        self.set_ptr(arena, ptr, WirePtr { parts: far.parts });
                        let ghost mid2 = arena.spec_arena();
                        proof {
                            arena.lemma_used_fits();
                            lemma_zero_kept(mid, mid2, seg.segment, pad@ + 1, total_size as int, self.segment, ptr@, far.parts);
                        }
                        let lp = ListPtr::new(i30::new_unwrap(0), ptr_size, element_count);
                        seg.set_ptr(arena, pad, WirePtr { parts: lp.parts });
                        proof {
                            arena.lemma_used_fits();
                            let a = arena.spec_arena();
                            lemma_used_word(a, self.segment, ptr@);
                            lemma_used_word(a, seg.segment, pad@);
                            assert(parts_of(a[self.segment as int].spec_words()[ptr@]) == far.parts);
                            lemma_zero_kept(mid2, a, seg.segment, pad@ + 1, total_size as int, seg.segment, pad@, lp.parts);
                        }
                        Ok((start, seg))
                    },
                }
            },
        }
    }

    /// Allocates a list of structs of the given size, its tag included; see `alloc_list`.
    #[verifier::rlimit(100)]
    #[verifier::spinoff_prover]
    fn alloc_struct_list<B: BuildArena + ?Sized>(&self, arena: &mut B, ptr: SegmentRef, ssize: StructSize, element_count: u29) -> (r: Result<(SegmentRef, ObjectBuilder), Error>)
        requires
            old(arena).inv(),
            writable(old(arena).spec_arena(), self.segment, ptr@),
            list_object_words(ElementSize::InlineComposite(ssize), element_count@ as int) <= u32::MAX,
        ensures
            final(arena).inv(),
            list_allocated(old(arena).spec_arena(), final(arena).spec_arena(), self.segment, ptr@, r, ElementSize::InlineComposite(ssize), element_count@ as int),
            list_alloc_owed(old(arena).spec_arena(), old(arena).spec_alloc_segment(), self.segment, ElementSize::InlineComposite(ssize), element_count@ as int) ==> r is Ok,
    {
        let element_size = ElementSize::InlineComposite(ssize);
        let ec = element_count.get();
        proof {
            arena.lemma_used_fits();
            lemma_list_words(element_size, element_count@ as int);
            lemma_element_size_code_round_trip(spec_as_ptr_size(element_size));
        }
        let size = element_size.total_words(element_count);
        let total_size = size + 1;
        let ptr_size = element_size.as_ptr_size();
        if total_size > u29::MAX_VALUE {
            return Err(Error::from_kind(ErrorKind::AllocTooLarge));
        }
        let len = NonZeroU29::new_unwrap(total_size);
        let lp_count = u29::new_unwrap(size);
        let ghost mut far_used = false;
        let ghost mut pad_pos: int = 0;
        let (pos, seg) = match self.alloc_in_segment(arena, len) {
            Some(alloc) => {
                proof {
                    arena.lemma_used_fits();
                }
                let ghost mid = arena.spec_arena();
                let offset = self.offset_from_end_of(ptr.as_segment_ptr(), alloc.as_segment_ptr());
                let lp = ListPtr::new(offset, ptr_size, lp_count);
                self.set_ptr(arena, ptr, WirePtr { parts: lp.parts });
                proof {
                    assert(all_zero_in(arena.spec_arena(), self.segment, alloc@, total_size as int)) by {
                        lemma_zero_kept(mid, arena.spec_arena(), self.segment, alloc@, total_size as int, self.segment, ptr@, lp.parts);
                    }
                }
                (alloc, *self)
            },
            None => {
                if total_size + 1 > u29::MAX_VALUE {
                    return Err(Error::from_kind(ErrorKind::AllocFailed(NonZeroU29::maximum())));
                }
                let len_with_pad = NonZeroU29::new_unwrap(total_size + 1);
                match self.alloc_in_arena(arena, len_with_pad) {
                    None => {
                        return Err(Error::from_kind(ErrorKind::AllocFailed(len_with_pad)));
                    },
                    Some((pad, seg)) => {
                        proof {
                            arena.lemma_used_fits();
                        }
                        let ghost mid = arena.spec_arena();
                        proof {
                            lemma_zero_sub(mid, seg.segment, pad@, total_size + 1, pad@ + 1, total_size as int);
                        }
                        let start = pad.offset(u29::new_unwrap(1)).as_ref_unchecked();
                        let offset_to_pad = seg.offset_from_start(pad.as_segment_ptr());
                        let far = FarPtr::new(seg.id(), offset_to_pad, false);
                        self.set_ptr(arena, ptr, WirePtr { parts: far.parts });
                        let ghost mid2 = arena.spec_arena();
                        proof {
                            arena.lemma_used_fits();
                            far_used = true;
                            pad_pos = pad@;
                            lemma_zero_kept(mid, mid2, seg.segment, pad@ + 1, total_size as int, self.segment, ptr@, far.parts);
                        }
                        let lp = ListPtr::new(i30::new_unwrap(0), ptr_size, lp_count);
                        seg.set_ptr(arena, pad, WirePtr { parts: lp.parts });
                        proof {
                            arena.lemma_used_fits();
                            lemma_used_word(arena.spec_arena(), self.segment, ptr@);
                            assert(parts_of(arena.spec_arena()[self.segment as int].spec_words()[ptr@]) == far.parts);
                            assert(all_zero_in(arena.spec_arena(), seg.segment, pad@ + 1, total_size as int)) by {
                                lemma_zero_kept(mid2, arena.spec_arena(), seg.segment, pad@ + 1, total_size as int, seg.segment, pad@, lp.parts);
                            }
                        }
                        (start, seg)
                    },
                }
            },
        };
        let ghost before_tag = arena.spec_arena();
        proof {
            arena.lemma_used_fits();
            lemma_zero_sub(before_tag, seg.segment, pos@, total_size as int, pos@ + 1, size as int);
        }
        let tag = StructPtr::new_inline_composite_tag(element_count, ssize);
        seg.set_ptr(arena, pos, WirePtr { parts: tag.parts });
        proof {
            arena.lemma_used_fits();
            let a = arena.spec_arena();
            assert(all_zero_in(a, seg.segment, pos@ + 1, size as int)) by {
                lemma_zero_kept(before_tag, a, seg.segment, pos@ + 1, size as int, seg.segment, pos@, tag.parts);
            }
            lemma_used_word(a, self.segment, ptr@);
            lemma_used_word(a, seg.segment, pos@);
            if far_used {
                lemma_used_word(a, seg.segment, pad_pos);
            }
            lemma_struct_ptr_round_trip(tag, content_offset_of(tag.parts.lower), ssize);
            assert((tag.parts.lower / 4) % 536870912 == ec) by (nonlinear_arith)
                requires
                    tag.parts.lower == ec * 4,
                    ec <= 536870911,
            ;
        }
        let first = pos.offset(u29::new_unwrap(1)).as_ref_unchecked();
        Ok((first, seg))
    }
}

/// Zero words stay zero while a word outside them is written.
proof fn lemma_zero_kept(mid: Seq<ArenaSegment>, after: Seq<ArenaSegment>, seg: SegmentId, start: int, len: int, id: SegmentId, at: int, p: Parts)
    requires
        seg < mid.len(),
        id < mid.len(),
        0 <= start,
        0 <= len,
        start + len <= mid[seg as int].spec_words().len(),
        all_zero_in(mid, seg, start, len),
        word_set(mid, after, id, at, p),
        id == seg ==> !(start <= at < start + len),
    ensures
        all_zero_in(after, seg, start, len),
{
    assert forall|i: int| 0 <= i < len implies crate::allocator::word_is_zero(
        #[trigger] after[seg as int].spec_words().subrange(start, start + len)[i],
    ) by {
        assert(after[seg as int].spec_words()[start + i] == mid[seg as int].spec_words()[start + i]);
        assert(mid[seg as int].spec_words().subrange(start, start + len)[i] == mid[seg as int].spec_words()[start + i]);
    }
}

/// Words among zero words are zero.
proof fn lemma_zero_sub(a: Seq<ArenaSegment>, seg: SegmentId, s1: int, n1: int, s2: int, n2: int)
    requires
        seg < a.len(),
        0 <= s1 <= s2,
        0 <= n2,
        s2 + n2 <= s1 + n1,
        s1 + n1 <= a[seg as int].spec_words().len(),
        all_zero_in(a, seg, s1, n1),
    ensures
        all_zero_in(a, seg, s2, n2),
{
    assert forall|i: int| 0 <= i < n2 implies crate::allocator::word_is_zero(
        #[trigger] a[seg as int].spec_words().subrange(s2, s2 + n2)[i],
    ) by {
        assert(a[seg as int].spec_words().subrange(s1, s1 + n1)[s2 - s1 + i] == a[seg as int].spec_words()[s2 + i]);
    }
}

/// What allocating a list of `count` elements of the given size and pointing the pointer at
/// `ptr` of segment `id` at it gives: see `list_alloc_failed` and `list_placed`.
pub open spec fn list_allocated(
    before: Seq<ArenaSegment>,
    after: Seq<ArenaSegment>,
    id: SegmentId,
    ptr: int,
    r: Result<(SegmentRef, ObjectBuilder), Error>,
    size: ElementSize,
    count: int,
) -> bool {
    match r {
        Err(e) => list_alloc_failed(before, after, e, size, count),
        Ok((start, b)) => list_placed(before, after, id, ptr, b.segment, start@, size, count),
    }
}

/// Whether allocating a list of `count` elements of the given size for a pointer in segment
/// `id` needs nothing of the allocator: it takes no words, or fits in segment `id`, or fits with
/// its landing pad in the segment where the arena allocates first.
pub open spec fn list_alloc_owed(arena: Seq<ArenaSegment>, alloc_segment: SegmentId, id: SegmentId, size: ElementSize, count: int) -> bool {
    let words = list_object_words(size, count);
    ||| words == 0
    ||| words <= u29_max() && has_room(arena, id, words)
    ||| words + 1 <= u29_max() && has_room(arena, alloc_segment, words + 1)
}

/// A failed list allocation leaves the arena unchanged, and its error is a request too large for
/// a segment or the number of words that could not be had.
pub open spec fn list_alloc_failed(before: Seq<ArenaSegment>, after: Seq<ArenaSegment>, e: Error, size: ElementSize, count: int) -> bool {
    &&& after == before
    &&& list_alloc_error(e, size, count)
}

/// The error of a failed list allocation: a request too large for a segment, or the number of
/// words that could not be had.
pub open spec fn list_alloc_error(e: Error, size: ElementSize, count: int) -> bool {
    let words = list_object_words(size, count);
    &&& words > 0
    &&& words > u29_max() ==> e.kind is AllocTooLarge
    &&& words <= u29_max() ==> (e.kind matches ErrorKind::AllocFailed(n) && n@ == if words + 1 > u29_max() {
        u29_max()
    } else {
        words + 1
    })
}

/// A list placed at `start` of segment `seg` for the pointer at `ptr` of segment `id`: the list
/// reads back through the pointer (when it takes words, or the pointer is not the last used word
/// of its segment), its words are writable, and the pointer is a near or single far one whose
/// landing pad lies outside the elements.
pub open spec fn list_placed(
    before: Seq<ArenaSegment>,
    after: Seq<ArenaSegment>,
    id: SegmentId,
    ptr: int,
    seg: SegmentId,
    start: int,
    size: ElementSize,
    count: int,
) -> bool {
    &&& (list_object_words(size, count) > 0 || ptr + 1 < used_segments(before)[id as int].len())
        ==> reads_list(after, id, ptr, seg, start, size, count)
    &&& region_writable(after, seg, start, list_words(size, count))
    &&& !is_double_far(parts_of(after[id as int].spec_words()[ptr]))
    &&& pad_outside(parts_of(after[id as int].spec_words()[ptr]), seg, start, start + list_words(size, count))
    &&& (seg == id && list_words(size, count) > 0 ==> ptr < start)
    &&& writable(after, id, ptr)
    &&& all_zero_in(after, seg, start, list_words(size, count))
}

impl PtrBuilder {
    /// Allocates a zeroed list and points the pointer at it, clearing first what the pointer
    /// referred to.
    pub fn try_init_list<B: BuildArena + ?Sized>(&self, arena: &mut B, element_size: ElementSize, element_count: u29) -> (r: Result<ListBuilder, Error>)
        requires
            old(arena).inv(),
            writable(old(arena).spec_arena(), self.builder.segment, self.ptr@),
            list_object_words(element_size, element_count@ as int) <= u32::MAX,
        ensures
            final(arena).inv(),
            parts_null(parts_of(arena_words(old(arena).spec_arena(), self.builder.segment)[self.ptr@])) ==> (r matches Err(e)
                ==> list_alloc_failed(old(arena).spec_arena(), final(arena).spec_arena(), e, element_size, element_count@ as int)),
            r matches Err(e) ==> list_alloc_error(e, element_size, element_count@ as int) && zeroed_from(old(arena).spec_arena(), final(arena).spec_arena()),
            list_alloc_owed(old(arena).spec_arena(), old(arena).spec_alloc_segment(), self.builder.segment, element_size, element_count@ as int) ==> r is Ok,
            r matches Ok(l) ==> {
                &&& l.element_size == element_size
                &&& l.element_count == element_count
                &&& list_placed(
                    old(arena).spec_arena(),
                    final(arena).spec_arena(),
                    self.builder.segment,
                    self.ptr@,
                    l.builder.segment,
                    l.start as int,
                    element_size,
                    element_count@ as int,
                )
                &&& l.valid_in(final(arena).spec_arena())
            },
    {
        let ghost a0 = arena.spec_arena();
        if !self.is_null(arena) {
            self.clear(arena);
        } else {
            proof {
                lemma_zeroed_refl(arena.spec_arena());
            }
        }
        let ghost a1 = arena.spec_arena();
        proof {
            arena.lemma_used_fits();
            assert(used_segments(a1)[self.builder.segment as int].len() == used_segments(a0)[self.builder.segment as int].len());
        }
        match self.builder.alloc_list(arena, self.ptr, element_size, element_count) {
            Ok((start, builder)) => Ok(ListBuilder { builder, start: start.as_ptr(), element_size, element_count }),
            Err(e) => Err(e),
        }
    }
}

impl ListBuilder {
    /// Whether the list's elements lie in the used part of an owned segment.
    pub open spec fn valid_in(&self, arena: Seq<ArenaSegment>) -> bool {
        region_writable(arena, self.builder.segment, self.start as int, list_words(self.element_size, self.element_count@ as int))
    }

    /// The number of elements.
    pub fn len(&self) -> (r: u29)
        ensures
            r == self.element_count,
    {
        self.element_count
    }

    /// The size of each element.
    pub fn element_size(&self) -> (r: ElementSize)
        ensures
            r == self.element_size,
    {
        self.element_size
    }

    /// The words holding the elements.
    fn section<'b, B: BuildArena + ?Sized>(&self, arena: &'b B) -> (r: &'b [Word])
        requires
            arena.inv(),
            self.valid_in(arena.spec_arena()),
        ensures
            r@ == list_section(arena.spec_arena(), self.builder.segment, self.start as int, self.element_size, self.element_count@ as int),
            r@.len() <= u29_max(),
    {
        let _ = self.element_count.get();
        proof {
            arena.lemma_used_fits();
            lemma_list_words(self.element_size, self.element_count@ as int);
        }
        let s = arena.segment(self.builder.segment).unwrap();
        let words = s.segment().as_slice();
        let start = self.start as usize;
        let n = self.element_size.total_words(self.element_count);
        &words[start..start + n as usize]
    }

    /// The builder of the struct at `index` of a struct list.
    pub fn struct_mut_unchecked<B: BuildArena + ?Sized>(&self, arena: &B, index: u32) -> (r: StructBuilder)
        requires
            arena.inv(),
            self.valid_in(arena.spec_arena()),
            self.element_size is InlineComposite,
            index < self.element_count@,
        ensures
            r.builder == self.builder,
            r.size == self.element_size->0,
            r.start == self.start + index * r.size.spec_total(),
            r.start + r.size.spec_total() <= self.start + list_words(self.element_size, self.element_count@ as int),
            r.valid_in(arena.spec_arena()),
    {
        proof {
            arena.lemma_used_fits();
        }
        let size = match self.element_size {
            ElementSize::InlineComposite(s) => s,
            _ => StructSize::empty(),
        };
        let t = size.total() as u32;
        assert(index * t + t <= self.element_count@ * t) by (nonlinear_arith)
            requires
                index < self.element_count@,
        ;
        StructBuilder { builder: self.builder, start: self.start + index * t, size }
    }

    /// The builder of the pointer at `index` of a pointer list, or of the first pointer of the
    /// struct at `index` of a struct list.
    pub fn ptr_mut_unchecked<B: BuildArena + ?Sized>(&self, arena: &B, index: u32) -> (r: PtrBuilder)
        requires
            arena.inv(),
            self.valid_in(arena.spec_arena()),
            self.element_size is Pointer || (self.element_size matches ElementSize::InlineComposite(s) && s.ptrs > 0),
            index < self.element_count@,
        ensures
            r.builder == self.builder,
            self.element_size is Pointer ==> r.ptr@ == self.start + index,
            self.element_size matches ElementSize::InlineComposite(s) ==> r.ptr@ == self.start + index * s.spec_total() + s.data,
            self.start <= r.ptr@ < self.start + list_words(self.element_size, self.element_count@ as int),
    {
        let _ = self.element_count.get();
        proof {
            arena.lemma_used_fits();
            lemma_list_words(self.element_size, self.element_count@ as int);
        }
        match self.element_size {
            ElementSize::InlineComposite(s) => {
                let b = self.struct_mut_unchecked(arena, index);
                PtrBuilder { ptr: SegmentRef::new_unchecked(u29::new_unwrap(b.start + s.data as u32)), builder: self.builder }
            },
            _ => {
                assert((spec_bits(ElementSize::Pointer) * self.element_count@ + 63) / 64 == self.element_count@);
                PtrBuilder { ptr: SegmentRef::new_unchecked(u29::new_unwrap(self.start + index)), builder: self.builder }
            },
        }
    }

    /// Reads the data element at `index` of a list of data elements, or the first data field of
    /// the struct at `index` of a struct list.
    pub fn data_unchecked<D: Data, B: BuildArena + ?Sized>(&self, arena: &B, index: u32) -> (r: D)
        requires
            arena.inv(),
            self.valid_in(arena.spec_arena()),
            index < self.element_count@,
        ensures
            self.element_size matches ElementSize::InlineComposite(size) ==> r == D::spec_read(
                words_bytes(struct_data(arena.spec_arena(), self.builder.segment, self.start + index * size.spec_total(), size)),
                0,
                D::spec_zero(),
            ),
            !(self.element_size is InlineComposite) ==> r == D::spec_read(
                words_bytes(list_section(arena.spec_arena(), self.builder.segment, self.start as int, self.element_size, self.element_count@ as int)),
                index as int,
                D::spec_zero(),
            ),
    {
        match self.element_size {
            ElementSize::InlineComposite(_) => self.struct_mut_unchecked(arena, index).data_field(arena, 0),
            _ => D::read(self.section(arena), index as usize, D::zero()),
        }
    }

    /// Writes the data element at `index` of a list of data elements, or the first data field of
    /// the struct at `index` of a struct list.
    pub fn set_data_unchecked<D: Data, B: BuildArena + ?Sized>(&self, arena: &mut B, index: u32, value: D)
        requires
            old(arena).inv(),
            self.valid_in(old(arena).spec_arena()),
            index < self.element_count@,
        ensures
            final(arena).inv(),
            self.valid_in(final(arena).spec_arena()),
            self.element_size matches ElementSize::InlineComposite(size) ==> {
                let at = self.start + index * size.spec_total();
                &&& same_but(old(arena).spec_arena(), final(arena).spec_arena(), self.builder.segment, at, at + size.data)
                &&& D::spec_range(0).1 <= size.data * 8 ==> D::spec_read(
                    words_bytes(struct_data(final(arena).spec_arena(), self.builder.segment, at, size)),
                    0,
                    D::spec_zero(),
                ) == value
            },
            !(self.element_size is InlineComposite) ==> {
                let n = list_words(self.element_size, self.element_count@ as int);
                &&& same_but(old(arena).spec_arena(), final(arena).spec_arena(), self.builder.segment, self.start as int, self.start + n)
                &&& D::spec_range(index as int).1 <= n * 8 ==> D::spec_read(
                    words_bytes(list_section(final(arena).spec_arena(), self.builder.segment, self.start as int, self.element_size, self.element_count@ as int)),
                    index as int,
                    D::spec_zero(),
                ) == value
                &&& forall|k: int| 0 <= k < n * 8 && !(D::spec_range(index as int).0 <= k < D::spec_range(index as int).1) ==>
                    #[trigger] words_bytes(list_section(final(arena).spec_arena(), self.builder.segment, self.start as int, self.element_size, self.element_count@ as int))[k]
                        == words_bytes(list_section(old(arena).spec_arena(), self.builder.segment, self.start as int, self.element_size, self.element_count@ as int))[k]
            },
    {
        proof {
            arena.lemma_used_fits();
        }
        match self.element_size {
            ElementSize::InlineComposite(_) => {
                let b = self.struct_mut_unchecked(arena, index);
                b.set_field(arena, 0, value);
            },
            _ => {
                let ghost before = arena.spec_arena();
                let ghost n = list_words(self.element_size, self.element_count@ as int);
                let ghost data_before = list_section(before, self.builder.segment, self.start as int, self.element_size, self.element_count@ as int);
                let w = D::write(self.section(arena), index as usize, value, D::zero());
                match w {
                    None => {
                        assert(arena.spec_arena() =~= before);
                    },
                    Some((i, word)) => {
                        arena.set_word(self.builder.segment, self.start as usize + i, word);
                        proof {
                            let after = arena.spec_arena();
                            let data_after = list_section(after, self.builder.segment, self.start as int, self.element_size, self.element_count@ as int);
                            assert(data_after =~= data_before.update(i as int, word));
                            assert forall|k: int| 0 <= k < before[self.builder.segment as int].spec_words().len() && !(self.start <= k < self.start + n)
                                implies #[trigger] after[self.builder.segment as int].spec_words()[k] == before[self.builder.segment as int].spec_words()[k] by {
                            }
                        }
                    },
                }
            },
        }
    }
}

/// A list found by reading a pointer (not a double far one) is still found there after words
/// among its elements change, the pointer itself lying outside of them.
#[verifier::rlimit(50)]
pub proof fn lemma_reads_list_frame(
    a: Seq<ArenaSegment>,
    b: Seq<ArenaSegment>,
    id: SegmentId,
    ptr: int,
    seg: SegmentId,
    start: int,
    size: ElementSize,
    count: int,
    lo: int,
    hi: int,
)
    requires
        reads_list(a, id, ptr, seg, start, size, count),
        same_but(a, b, seg, lo, hi),
        start <= lo,
        hi <= start + list_words(size, count),
        id == seg ==> !(lo <= ptr < hi),
        id < a.len(),
        0 <= ptr < a[id as int].spec_used_len(),
        forall|i: int| 0 <= i < a.len() ==> #[trigger] a[i].spec_used_len() <= a[i].spec_words().len(),
        !is_double_far(parts_of(a[id as int].spec_words()[ptr])),
        pad_outside(parts_of(a[id as int].spec_words()[ptr]), seg, lo, hi),
    ensures
        reads_list(b, id, ptr, seg, start, size, count),
{
    let ua = used_segments(a);
    let ub = used_segments(b);
    let st = ReadState { segment: id, limit: None };
    lemma_used_same_but(a, b, seg, lo, hi);
    assert(ub[id as int][ptr] == ua[id as int][ptr]);
    let p = parts_of(ua[id as int][ptr]);
    assert(p == parts_of(a[id as int].spec_words()[ptr]));
    let loc_a = spec_location_of(ua, st, ptr);
    if kind_of(p.lower) == WireKind::Far {
        let pad = (p.lower / 8) as int;
        let fs = p.upper;
        assert(spec_read_in(ub, st, fs, pad, 1) == spec_read_in(ua, st, fs, pad, 1));
        match spec_read_in(ua, st, fs, pad, 1) {
            Ok((st2, q)) => {
                assert(ub[fs as int][pad] == ua[fs as int][pad]);
                assert(spec_location_of(ub, st, ptr) == loc_a);
            },
            Err(e) => {
                assert(false);
            },
        }
    } else {
        assert(spec_location_of(ub, st, ptr) == loc_a);
    }
    match loc_a {
        Ok((st1, p1, l1)) => {
            lemma_list_content_frame(ua, ub, st1, l1, p1, seg, start, size, count, lo, hi);
        },
        Err(_) => {},
    }
}

/// Reading a list's content gives the same result after words among its elements change.
proof fn lemma_list_content_frame(
    ua: Seq<Seq<Word>>,
    ub: Seq<Seq<Word>>,
    st: ReadState,
    loc: LocationModel,
    p: Parts,
    seg: SegmentId,
    start: int,
    size: ElementSize,
    count: int,
    lo: int,
    hi: int,
)
    requires
        spec_read_list_content(ua, st, loc, p, None) == Ok::<(ReadState, int, ElementSize, int), Error>(
            (ReadState { segment: seg, limit: None }, start, size, count),
        ),
        st.limit is None,
        st.segment < ua.len(),
        ua.len() == ub.len(),
        forall|i: int| 0 <= i < ua.len() ==> #[trigger] ub[i].len() == ua[i].len(),
        forall|i: int, k: int|
            0 <= i < ua.len() && 0 <= k < ua[i].len() && (i != seg || !(lo <= k < hi)) ==> #[trigger] ub[i][k] == ua[i][k],
        start <= lo,
    ensures
        spec_read_list_content(ub, st, loc, p, None) == spec_read_list_content(ua, st, loc, p, None),
{
    let ptr_element = ptr_element_size_of((p.upper % 8) as int);
    let c = p.upper / 8;
    if ptr_element == PtrElementSize::InlineComposite {
        lemma_read_content_lens(ua, ub, st, loc, content_offset_of(p.lower), c + 1);
        match spec_read_content(ua, st, loc, content_offset_of(p.lower), c + 1) {
            Ok((st2, tag_pos)) => {
                assert(ub[st2.segment as int][tag_pos] == ua[st2.segment as int][tag_pos]);
            },
            Err(_) => {},
        }
    } else {
        let element_size = spec_to_element_size(ptr_element);
        let words = (spec_bits(element_size) * c + 63) / 64;
        lemma_read_content_lens(ua, ub, st, loc, content_offset_of(p.lower), words);
    }
}

/// Writing a data element of a list reached through a pointer leaves the list reachable through
/// the pointer, and the element then reads as the value written.
pub proof fn lemma_list_write_then_read<D: Data>(
    before: Seq<ArenaSegment>,
    after: Seq<ArenaSegment>,
    l: ListBuilder,
    id: SegmentId,
    ptr: int,
    index: int,
    value: D,
)
    requires
        !(l.element_size is InlineComposite),
        reads_list(before, id, ptr, l.builder.segment, l.start as int, l.element_size, l.element_count@ as int),
        same_but(before, after, l.builder.segment, l.start as int, l.start + list_words(l.element_size, l.element_count@ as int)),
        D::spec_range(index).1 <= list_words(l.element_size, l.element_count@ as int) * 8 ==> D::spec_read(
            words_bytes(list_section(after, l.builder.segment, l.start as int, l.element_size, l.element_count@ as int)),
            index,
            D::spec_zero(),
        ) == value,
        id == l.builder.segment ==> !(l.start <= ptr < l.start + list_words(l.element_size, l.element_count@ as int)),
        id < before.len(),
        0 <= ptr < before[id as int].spec_used_len(),
        forall|i: int| 0 <= i < before.len() ==> #[trigger] before[i].spec_used_len() <= before[i].spec_words().len(),
        D::spec_range(index).1 <= list_words(l.element_size, l.element_count@ as int) * 8,
        !is_double_far(parts_of(before[id as int].spec_words()[ptr])),
        pad_outside(parts_of(before[id as int].spec_words()[ptr]), l.builder.segment, l.start as int, l.start + list_words(l.element_size, l.element_count@ as int)),
    ensures
        reads_list(after, id, ptr, l.builder.segment, l.start as int, l.element_size, l.element_count@ as int),
        D::spec_read(
            words_bytes(list_section(after, l.builder.segment, l.start as int, l.element_size, l.element_count@ as int)),
            index,
            D::spec_zero(),
        ) == value,
{
    let n = list_words(l.element_size, l.element_count@ as int);
    lemma_reads_list_frame(before, after, id, ptr, l.builder.segment, l.start as int, l.element_size, l.element_count@ as int, l.start as int, l.start + n);
}

/// A list of `len` bytes takes the words that `len` bytes fill.
proof fn lemma_byte_list_words(len: int)
    requires
        0 <= len <= u29_max(),
    ensures
        list_words(ElementSize::Byte, len) == (len + 7) / 8,
        list_object_words(ElementSize::Byte, len) == (len + 7) / 8,
        (len + 7) / 8 <= u29_max(),
{
    assert((8 * len + 63) / 64 == (len + 7) / 8) by (nonlinear_arith)
        requires
            0 <= len,
    {
        let q = (len + 7) / 8;
        let r = (len + 7) % 8;
        assert(len + 7 == 8 * q + r);
        assert(8 * len + 63 == 64 * q + 8 * r + 7);
    }
}

/// Changes to the words `lo..hi` of a segment, one after the other, are a change to those words.
proof fn lemma_same_but_trans(a: Seq<ArenaSegment>, b: Seq<ArenaSegment>, c: Seq<ArenaSegment>, seg: SegmentId, lo: int, hi: int)
    requires
        same_but(a, b, seg, lo, hi),
        same_but(b, c, seg, lo, hi),
        seg < a.len(),
    ensures
        same_but(a, c, seg, lo, hi),
{
}

impl PtrBuilder {
    /// Allocates a zeroed blob of `len` bytes, a list of bytes, and points the pointer at it,
    /// clearing first what the pointer referred to.
    pub fn try_init_blob<B: BuildArena + ?Sized>(&self, arena: &mut B, len: u29) -> (r: Result<BlobBuilder, Error>)
        requires
            old(arena).inv(),
            writable(old(arena).spec_arena(), self.builder.segment, self.ptr@),
        ensures
            final(arena).inv(),
            parts_null(parts_of(arena_words(old(arena).spec_arena(), self.builder.segment)[self.ptr@])) ==> (r matches Err(e)
                ==> list_alloc_failed(old(arena).spec_arena(), final(arena).spec_arena(), e, ElementSize::Byte, len@ as int)),
            r matches Err(e) ==> list_alloc_error(e, ElementSize::Byte, len@ as int) && zeroed_from(old(arena).spec_arena(), final(arena).spec_arena()),
            list_alloc_owed(old(arena).spec_arena(), old(arena).spec_alloc_segment(), self.builder.segment, ElementSize::Byte, len@ as int) ==> r is Ok,
            r matches Ok(b) ==> {
                &&& b.len == len
                &&& b.valid_in(final(arena).spec_arena())
                &&& list_placed(
                    old(arena).spec_arena(),
                    final(arena).spec_arena(),
                    self.builder.segment,
                    self.ptr@,
                    b.segment,
                    b.start as int,
                    ElementSize::Byte,
                    len@ as int,
                )
            },
    {
        let _ = len.get();
        proof {
            lemma_byte_list_words(len@ as int);
        }
        match self.try_init_list(arena, ElementSize::Byte, len) {
            Ok(l) => Ok(BlobBuilder { segment: l.builder.segment, start: l.start, len }),
            Err(e) => Err(e),
        }
    }
}

impl PtrBuilder {
    /// Allocates a blob holding a copy of `bytes`, a list of bytes, and points the pointer at
    /// it, clearing first what the pointer referred to.
    pub fn try_set_blob<B: BuildArena + ?Sized>(&self, arena: &mut B, bytes: &[u8]) -> (r: Result<BlobBuilder, Error>)
        requires
            old(arena).inv(),
            writable(old(arena).spec_arena(), self.builder.segment, self.ptr@),
            bytes@.len() <= u29_max(),
        ensures
            final(arena).inv(),
            parts_null(parts_of(arena_words(old(arena).spec_arena(), self.builder.segment)[self.ptr@])) ==> (r matches Err(e)
                ==> list_alloc_failed(old(arena).spec_arena(), final(arena).spec_arena(), e, ElementSize::Byte, bytes@.len() as int)),
            r matches Err(e) ==> list_alloc_error(e, ElementSize::Byte, bytes@.len() as int) && zeroed_from(old(arena).spec_arena(), final(arena).spec_arena()),
            list_alloc_owed(old(arena).spec_arena(), old(arena).spec_alloc_segment(), self.builder.segment, ElementSize::Byte, bytes@.len() as int) ==> r is Ok,
            r matches Ok(b) ==> {
                &&& b.len@ == bytes@.len()
                &&& b.valid_in(final(arena).spec_arena())
                &&& b.spec_bytes_in(final(arena).spec_arena()) == bytes@
                &&& (bytes@.len() > 0 || self.ptr@ + 1 < used_segments(old(arena).spec_arena())[self.builder.segment as int].len())
                    ==> reads_list(final(arena).spec_arena(), self.builder.segment, self.ptr@, b.segment, b.start as int, ElementSize::Byte, bytes@.len() as int)
            },
    {
        let len = u29::new_unwrap(bytes.len() as u32);
        proof {
            lemma_byte_list_words(len@ as int);
        }
        let b = match self.try_init_blob(arena, len) {
            Ok(b) => b,
            Err(e) => {
                return Err(e);
            },
        };
        let ghost mid = arena.spec_arena();
        proof {
            arena.lemma_used_fits();
        }
        b.set_bytes(arena, bytes);
        proof {
            lemma_blob_frame(old(arena).spec_arena(), mid, arena.spec_arena(), self.builder.segment, self.ptr@, b, bytes@.len() as int);
        }
        Ok(b)
    }
}

/// A blob placed for a pointer still reads through the pointer after its bytes are written.
proof fn lemma_blob_frame(
    before: Seq<ArenaSegment>,
    mid: Seq<ArenaSegment>,
    after: Seq<ArenaSegment>,
    id: SegmentId,
    ptr: int,
    b: BlobBuilder,
    n: int,
)
    requires
        0 <= n <= u29_max(),
        list_placed(before, mid, id, ptr, b.segment, b.start as int, ElementSize::Byte, n),
        same_but(mid, after, b.segment, b.start as int, b.start + (n + 7) / 8),
        forall|i: int| 0 <= i < mid.len() ==> #[trigger] mid[i].spec_used_len() <= mid[i].spec_words().len(),
    ensures
        (n > 0 || ptr + 1 < used_segments(before)[id as int].len()) ==> reads_list(after, id, ptr, b.segment, b.start as int, ElementSize::Byte, n),
{
    lemma_byte_list_words(n);
    if n > 0 || ptr + 1 < used_segments(before)[id as int].len() {
        lemma_reads_list_frame(mid, after, id, ptr, b.segment, b.start as int, ElementSize::Byte, n, b.start as int, b.start + (n + 7) / 8);
    }
}

impl BlobBuilder {
    /// Writes the bytes of the blob, which must be as many as it holds.
    pub fn set_bytes<B: BuildArena + ?Sized>(&self, arena: &mut B, bytes: &[u8])
        requires
            old(arena).inv(),
            self.valid_in(old(arena).spec_arena()),
            bytes@.len() == self.len@,
        ensures
            final(arena).inv(),
            self.valid_in(final(arena).spec_arena()),
            same_but(old(arena).spec_arena(), final(arena).spec_arena(), self.segment, self.start as int, self.start + (self.len@ + 7) / 8),
            self.spec_bytes_in(final(arena).spec_arena()) == bytes@,
    {
        let n = self.len.get();
        proof {
            lemma_byte_list_words(n as int);
        }
        let l = ListBuilder { builder: ObjectBuilder { segment: self.segment }, start: self.start, element_size: ElementSize::Byte, element_count: self.len };
        let ghost before = arena.spec_arena();
        let ghost w = (n + 7) / 8;
        let mut i: u32 = 0;
        while i < n
            invariant
                i <= n,
                n == self.len@,
                bytes@.len() == n,
                w == (n + 7) / 8,
                list_words(ElementSize::Byte, n as int) == w,
                l.builder.segment == self.segment,
                l.start == self.start,
                l.element_size == ElementSize::Byte,
                l.element_count == self.len,
                arena.inv(),
                self.valid_in(arena.spec_arena()),
                self.segment < before.len(),
                same_but(before, arena.spec_arena(), self.segment, self.start as int, self.start + w),
                forall|k: int| 0 <= k < i ==> #[trigger] words_bytes(list_section(arena.spec_arena(), self.segment, self.start as int, ElementSize::Byte, n as int))[k] == bytes@[k],
            decreases n - i,
        {
            let ghost mid = arena.spec_arena();
            let ghost wb0 = words_bytes(list_section(mid, self.segment, self.start as int, ElementSize::Byte, n as int));
            l.set_data_unchecked::<u8, B>(arena, i, bytes[i as usize]);
            proof {
                let after = arena.spec_arena();
                arena.lemma_used_fits();
                lemma_same_but_trans(before, mid, after, self.segment, self.start as int, self.start + w);
                let sec = list_section(after, self.segment, self.start as int, ElementSize::Byte, n as int);
                let wb = words_bytes(sec);
                assert(sec.len() == w);
                assert(wb.len() == w * 8);
                assert(i + 1 <= w * 8) by (nonlinear_arith)
                    requires
                        i < n,
                        w == (n + 7) / 8,
                ;
                assert(<u8 as Data>::spec_range(i as int).1 <= w * 8);
                assert(<u8 as Data>::spec_read(wb, i as int, 0) == bytes@[i as int]);
                let x = wb[i as int];
                assert(le_n(wb, i as int, 1) == x as int);
                assert(x ^ 0u8 == x) by (bit_vector);
                assert(wb[i as int] == bytes@[i as int]);
                assert forall|k: int| 0 <= k < i + 1 implies #[trigger] wb[k] == bytes@[k] by {
                    if k < i {
                        assert(wb[k] == wb0[k]);
                    }
                }
            }
            i = i + 1;
        }
        proof {
            let after = arena.spec_arena();
            arena.lemma_used_fits();
            let sec = list_section(after, self.segment, self.start as int, ElementSize::Byte, n as int);
            let wb = words_bytes(sec);
            assert(sec == after[self.segment as int].spec_words().subrange(self.start as int, self.start + (self.len@ + 7) / 8));
            assert(wb.len() == w * 8);
            assert(n <= w * 8) by (nonlinear_arith)
                requires
                    w == (n + 7) / 8,
            ;
            assert(self.spec_bytes_in(after) =~= bytes@) by {
                assert forall|k: int| 0 <= k < n implies #[trigger] self.spec_bytes_in(after)[k] == bytes@[k] by {
                    assert(wb[k] == bytes@[k]);
                }
            }
        }
    }
}

/// The words of the elements of a list of `count` elements of the given size starting at `start`
/// of segment `seg`.
pub open spec fn list_section(arena: Seq<ArenaSegment>, seg: SegmentId, start: int, size: ElementSize, count: int) -> Seq<Word> {
    arena[seg as int].spec_words().subrange(start, start + list_words(size, count))
}

} // verus!

verus! {

/// What a pointer was read as: a struct, a list or a capability.
pub enum TypedRead {
    Struct { start: int, size: StructSize },
    List { start: int, size: ElementSize, count: int },
    Capability { index: u32 },
}

/// Reading what the pointer at `src` refers to, whatever its kind: the new state and what was
/// read.
pub open spec fn spec_read_typed(segs: Seq<Seq<Word>>, st: ReadState, src: int) -> Result<(ReadState, TypedRead), Error> {
    match spec_location_of(segs, st, src) {
        Err(e) => Err(e),
        Ok((st1, p, loc)) => if kind_of(p.lower) == WireKind::Struct {
            let size = struct_size_of(p);
            match spec_read_content(segs, st1, loc, content_offset_of(p.lower), size.spec_total()) {
                Err(e) => Err(e),
                Ok((st2, start)) => Ok((st2, TypedRead::Struct { start, size })),
            }
        } else if kind_of(p.lower) == WireKind::List {
            match spec_read_list_content(segs, st1, loc, p, None) {
                Err(e) => Err(e),
                Ok((st2, start, size, count)) => Ok((st2, TypedRead::List { start, size, count })),
            }
        } else if is_capability_parts(p) {
            Ok((st1, TypedRead::Capability { index: p.upper }))
        } else {
            Err(spec_fail_read(p, None))
        },
    }
}

/// What a pointer was read as.
#[derive(Debug, Clone, Copy)]
pub enum TypedContent {
    Struct(StructContent),
    List(ListContent),
    Capability(u32),
}

impl TypedContent {
    /// The model of what was read.
    pub open spec fn model(self) -> TypedRead {
        match self {
            TypedContent::Struct(c) => TypedRead::Struct { start: c.ptr@, size: c.size },
            TypedContent::List(c) => TypedRead::List { start: c.ptr@, size: c.element_size, count: c.element_count@ as int },
            TypedContent::Capability(i) => TypedRead::Capability { index: i },
        }
    }
}

/// The outcome of measuring what pointers refer to: the limit left, the words and the
/// capabilities; the error; or sizes too large for their counters.
pub enum SizeRead {
    Size(Option<u64>, int, int),
    Failed(Error),
    TooLarge,
}

/// A size, or too large where its words or capabilities do not fit their counters.
pub open spec fn fit_size(limit: Option<u64>, words: int, caps: int) -> SizeRead {
    if words > u64::MAX || caps > u32::MAX {
        SizeRead::TooLarge
    } else {
        SizeRead::Size(limit, words, caps)
    }
}

/// The size of what the pointer at `src` of the current segment refers to and of all that
/// refers to in turn, following pointers at most `nesting` levels further down.
pub open spec fn spec_target_size(segs: Seq<Seq<Word>>, st: ReadState, src: int, nesting: int) -> SizeRead
    decreases nesting, 0int, 0int,
{
    match spec_read_typed(segs, st, src) {
        Err(e) => SizeRead::Failed(e),
        Ok((st1, t)) => match t {
            TypedRead::Capability { .. } => SizeRead::Size(st1.limit, 0, 1),
            TypedRead::Struct { start, size } => if nesting <= 0 {
                SizeRead::Failed(Error { kind: ErrorKind::NestingLimitExceeded })
            } else {
                match spec_ptrs_size(segs, st1, start + size.data, size.ptrs as int, nesting - 1) {
                    SizeRead::Size(l, w, c) => fit_size(l, size.spec_total() + w, c),
                    other => other,
                }
            },
            TypedRead::List { start, size, count } => {
                let content = (spec_bits(size) * count + 63) / 64;
                match size {
                    ElementSize::InlineComposite(s) => if nesting <= 0 {
                        SizeRead::Failed(Error { kind: ErrorKind::NestingLimitExceeded })
                    } else {
                        match spec_composites_size(segs, st1, start, s, count, nesting - 1) {
                            SizeRead::Size(l, w, c) => fit_size(l, content + 1 + w, c),
                            other => other,
                        }
                    },
                    ElementSize::Pointer => if nesting <= 0 {
                        SizeRead::Failed(Error { kind: ErrorKind::NestingLimitExceeded })
                    } else {
                        match spec_ptrs_size(segs, st1, start, count, nesting - 1) {
                            SizeRead::Size(l, w, c) => fit_size(l, content + w, c),
                            other => other,
                        }
                    },
                    _ => SizeRead::Size(st1.limit, content, 0),
                }
            },
        },
    }
}

/// The sizes of what the first `len` pointers at `start` of the current segment refer to, the
/// null ones taking nothing.
pub open spec fn spec_ptrs_size(segs: Seq<Seq<Word>>, st: ReadState, start: int, len: int, nesting: int) -> SizeRead
    decreases nesting, 1int, len,
{
    if len <= 0 {
        SizeRead::Size(st.limit, 0, 0)
    } else {
        match spec_ptrs_size(segs, st, start, len - 1, nesting) {
            SizeRead::Size(l, w, c) => {
                let pos = start + len - 1;
                if parts_null(parts_of(segs[st.segment as int][pos])) {
                    SizeRead::Size(l, w, c)
                } else {
                    match spec_target_size(segs, ReadState { segment: st.segment, limit: l }, pos, nesting) {
                        SizeRead::Size(l2, w2, c2) => fit_size(l2, w + w2, c + c2),
                        other => other,
                    }
                }
            },
            other => other,
        }
    }
}

/// The sizes of what the pointers of the first `count` structs of a struct list at `start`
/// refer to.
pub open spec fn spec_composites_size(
    segs: Seq<Seq<Word>>,
    st: ReadState,
    start: int,
    size: StructSize,
    count: int,
    nesting: int,
) -> SizeRead
    decreases nesting, 2int, count,
{
    if count <= 0 {
        SizeRead::Size(st.limit, 0, 0)
    } else {
        match spec_composites_size(segs, st, start, size, count - 1, nesting) {
            SizeRead::Size(l, w, c) => match spec_ptrs_size(
                segs,
                ReadState { segment: st.segment, limit: l },
                start + (count - 1) * size.spec_total() + size.data,
                size.ptrs as int,
                nesting,
            ) {
                SizeRead::Size(l2, w2, c2) => fit_size(l2, w + w2, c + c2),
                other => other,
            },
            other => other,
        }
    }
}

/// Whether a measured size is what `r` gives, with the limit left `limit`.
pub open spec fn size_result(s: SizeRead, r: Result<MessageSize, Error>, limit: Option<u64>) -> bool {
    match s {
        SizeRead::Size(l, w, c) => r matches Ok(m) && m.words == w && m.caps == c && limit == l,
        SizeRead::Failed(e) => r == Err::<MessageSize, Error>(e),
        SizeRead::TooLarge => true,
    }
}

} // verus!

verus! {

/// A measure of pointers that neither failed nor got too large leaves a measure of fewer of them
/// that did neither; one of fewer that failed, or got too large, is the measure of all.
proof fn lemma_ptrs_prefix(segs: Seq<Seq<Word>>, st: ReadState, start: int, k: int, len: int, nesting: int)
    requires
        0 <= k <= len,
    ensures
        !(spec_ptrs_size(segs, st, start, k, nesting) is Size) ==> spec_ptrs_size(segs, st, start, len, nesting)
            == spec_ptrs_size(segs, st, start, k, nesting),
    decreases len - k,
{
    if k < len {
        lemma_ptrs_prefix(segs, st, start, k, len - 1, nesting);
    }
}

/// The same for the structs of a struct list.
proof fn lemma_composites_prefix(
    segs: Seq<Seq<Word>>,
    st: ReadState,
    start: int,
    size: StructSize,
    k: int,
    count: int,
    nesting: int,
)
    requires
        0 <= k <= count,
    ensures
        !(spec_composites_size(segs, st, start, size, k, nesting) is Size) ==> spec_composites_size(
            segs,
            st,
            start,
            size,
            count,
            nesting,
        ) == spec_composites_size(segs, st, start, size, k, nesting),
    decreases count - k,
{
    if k < count {
        lemma_composites_prefix(segs, st, start, size, k, count - 1, nesting);
    }
}

impl<'a, A: ReadArena + ?Sized> ObjectReader<'a, A> {
    /// Takes the limit left to another reader, staying in this reader's segment.
    fn take_limit(&mut self, other: &Self)
        ensures
            final(self).spec_segment() == old(self).spec_segment(),
            final(self).spec_limit() == other.spec_limit(),
    {
        self.limiter = other.limiter;
    }

    /// Reads what the pointer at `src` refers to, whatever its kind.
    pub fn try_read_typed(&mut self, src: SegmentRef) -> (r: Result<TypedContent, Error>)
        requires
            src@ < old(self).spec_words().len(),
        ensures
            final(self).spec_segs() == old(self).spec_segs(),
            final(self).spec_segment().spec_arena() == old(self).spec_segment().spec_arena(),
            match spec_read_typed(old(self).spec_segs(), old(self).spec_state(), src@) {
                Ok((st, t)) => r matches Ok(c) && c.model() == t && final(self).spec_state() == st,
                Err(e) => r == Err::<TypedContent, Error>(e),
            },
    {
        let content = match self.location_of(src) {
            Ok(c) => c,
            Err(e) => {
                return Err(e);
            },
        };
        proof {
            use_type_invariant(&self.segment);
            self.segment.arena.lemma_segments_fit();
        }
        let ptr = content.ptr;
        if let Some(sp) = ptr.struct_ptr() {
            let size = sp.size();
            let start = match self.read_content(content.location, sp.offset(), size.len()) {
                Ok(p) => p,
                Err(e) => {
                    return Err(e);
                },
            };
            Ok(TypedContent::Struct(StructContent { ptr: start, size }))
        } else if let Some(lp) = ptr.list_ptr() {
            match self.read_as_list_content(content.location, lp, None) {
                Ok(c) => Ok(TypedContent::List(c)),
                Err(e) => Err(e),
            }
        } else if ptr.is_capability() {
            Ok(TypedContent::Capability(ptr.parts.upper))
        } else {
            Err(ptr.fail_read(None))
        }
    }
}

} // verus!

verus! {

impl<'a, A: ReadArena + ?Sized> ObjectReader<'a, A> {
    /// The size of what the pointer at `src` refers to and of all that refers to in turn,
    /// following pointers at most `nesting` levels further down. The reader stays in its segment
    /// and is left with the limit the reads left.
    #[verifier::rlimit(50)]
    #[verifier::spinoff_prover]
    pub fn target_size(&mut self, src: SegmentRef, nesting: u32) -> (r: Result<MessageSize, Error>)
        requires
            src@ < old(self).spec_words().len(),
            !(spec_target_size(old(self).spec_segs(), old(self).spec_state(), src@, nesting as int) is TooLarge),
        ensures
            final(self).spec_segment() == old(self).spec_segment(),
            size_result(spec_target_size(old(self).spec_segs(), old(self).spec_state(), src@, nesting as int), r, final(self).spec_limit()),
        decreases nesting, 0int, 0int,
    {
        let ghost segs = self.spec_segs();
        let ghost st = self.spec_state();
        let mut child = *self;
        let typed = match child.try_read_typed(src) {
            Ok(t) => t,
            Err(e) => {
                return Err(e);
            },
        };
        proof {
            use_type_invariant(&child.segment);
            child.segment.arena.lemma_segments_fit();
        }
        match typed {
            TypedContent::Capability(_) => {
                self.take_limit(&child);
                Ok(MessageSize { words: 0, caps: 1 })
            },
            TypedContent::Struct(c) => {
                if nesting == 0 {
                    return Err(Error::from_kind(ErrorKind::NestingLimitExceeded));
                }
                let ptrs_start = c.ptr.as_ptr() + c.size.data as u32;
                let ptrs = match child.ptrs_size(ptrs_start, c.size.ptrs as u32, nesting - 1) {
                    Ok(s) => s,
                    Err(e) => {
                        return Err(e);
                    },
                };
                self.take_limit(&child);
                Ok(MessageSize { words: c.size.total() as u64 + ptrs.words, caps: ptrs.caps })
            },
            TypedContent::List(l) => {
                let ghost count = l.element_count@ as int;
                proof {
                    lemma_list_words(l.element_size, count);
                }
                let content = l.element_size.total_words(l.element_count) as u64;
                match l.element_size {
                    ElementSize::InlineComposite(s) => {
                        if nesting == 0 {
                            return Err(Error::from_kind(ErrorKind::NestingLimitExceeded));
                        }
                        let t = match child.composites_size(l.ptr.as_ptr(), s, l.element_count.get(), nesting - 1) {
                            Ok(t) => t,
                            Err(e) => {
                                return Err(e);
                            },
                        };
                        self.take_limit(&child);
                        Ok(MessageSize { words: content + 1 + t.words, caps: t.caps })
                    },
                    ElementSize::Pointer => {
                        if nesting == 0 {
                            return Err(Error::from_kind(ErrorKind::NestingLimitExceeded));
                        }
                        let t = match child.ptrs_size(l.ptr.as_ptr(), l.element_count.get(), nesting - 1) {
                            Ok(t) => t,
                            Err(e) => {
                                return Err(e);
                            },
                        };
                        self.take_limit(&child);
                        Ok(MessageSize { words: content + t.words, caps: t.caps })
                    },
                    _ => {
                        self.take_limit(&child);
                        Ok(MessageSize { words: content, caps: 0 })
                    },
                }
            },
        }
    }

    /// The sizes of what the `len` pointers at `start` of the reader's segment refer to. The
    /// reader stays in its segment and is left with the limit the reads left.
    pub fn ptrs_size(&mut self, start: u32, len: u32, nesting: u32) -> (r: Result<MessageSize, Error>)
        requires
            start + len <= old(self).spec_words().len(),
            !(spec_ptrs_size(old(self).spec_segs(), old(self).spec_state(), start as int, len as int, nesting as int) is TooLarge),
        ensures
            final(self).spec_segment() == old(self).spec_segment(),
            size_result(spec_ptrs_size(old(self).spec_segs(), old(self).spec_state(), start as int, len as int, nesting as int), r, final(self).spec_limit()),
        decreases nesting, 1int, len,
    {
        let ghost segs = self.spec_segs();
        let ghost st0 = self.spec_state();
        let ghost seg0 = self.spec_segment();
        let mut total = MessageSize { words: 0, caps: 0 };
        let mut k: u32 = 0;
        while k < len
            invariant
                k <= len,
                self.spec_segment() == seg0,
                seg0 == old(self).spec_segment(),
                st0 == old(self).spec_state(),
                segs == seg0.spec_segs(),
                st0.segment == seg0.spec_id(),
                start + len <= seg0.spec_words().len(),
                spec_ptrs_size(segs, st0, start as int, k as int, nesting as int) == SizeRead::Size(self.spec_limit(), total.words as int, total.caps as int),
                !(spec_ptrs_size(segs, st0, start as int, len as int, nesting as int) is TooLarge),
            decreases len - k,
        {
            proof {
                use_type_invariant(&self.segment);
                self.segment.arena.lemma_segments_fit();
                lemma_ptrs_prefix(segs, st0, start as int, k + 1, len as int, nesting as int);
            }
            let pos = start + k;
            let at = SegmentRef::new_unchecked(u29::new_unwrap(pos));
            let w = self.segment.word(at);
            if !WirePtr::from_word(w).is_null() {
                match self.target_size(at, nesting) {
                    Ok(s) => {
                        total = total.sum(s);
                    },
                    Err(e) => {
                        return Err(e);
                    },
                }
            }
            k = k + 1;
        }
        Ok(total)
    }

    /// The sizes of what the pointers of the `count` structs of the given size at `start` of the
    /// reader's segment refer to. The reader stays in its segment and is left with the limit the
    /// reads left.
    pub fn composites_size(&mut self, start: u32, size: StructSize, count: u32, nesting: u32) -> (r: Result<MessageSize, Error>)
        requires
            start + count * size.spec_total() <= old(self).spec_words().len(),
            !(spec_composites_size(old(self).spec_segs(), old(self).spec_state(), start as int, size, count as int, nesting as int) is TooLarge),
        ensures
            final(self).spec_segment() == old(self).spec_segment(),
            size_result(
                spec_composites_size(old(self).spec_segs(), old(self).spec_state(), start as int, size, count as int, nesting as int),
                r,
                final(self).spec_limit(),
            ),
        decreases nesting, 2int, count,
    {
        let ghost segs = self.spec_segs();
        let ghost st0 = self.spec_state();
        let ghost seg0 = self.spec_segment();
        let t = size.total();
        let mut total = MessageSize { words: 0, caps: 0 };
        let mut k: u32 = 0;
        while k < count
            invariant
                k <= count,
                t == size.spec_total(),
                self.spec_segment() == seg0,
                seg0 == old(self).spec_segment(),
                st0 == old(self).spec_state(),
                segs == seg0.spec_segs(),
                st0.segment == seg0.spec_id(),
                start + count * size.spec_total() <= seg0.spec_words().len(),
                spec_composites_size(segs, st0, start as int, size, k as int, nesting as int) == SizeRead::Size(
                    self.spec_limit(),
                    total.words as int,
                    total.caps as int,
                ),
                !(spec_composites_size(segs, st0, start as int, size, count as int, nesting as int) is TooLarge),
            decreases count - k,
        {
            proof {
                use_type_invariant(&self.segment);
                self.segment.arena.lemma_segments_fit();
                lemma_composites_prefix(segs, st0, start as int, size, k + 1, count as int, nesting as int);
            }
            assert(k * t + t <= count * t) by (nonlinear_arith)
                requires
                    k < count,
            ;
            let ptrs_start = start + k * t + size.data as u32;
            match self.ptrs_size(ptrs_start, size.ptrs as u32, nesting) {
                Ok(s) => {
                    total = total.sum(s);
                },
                Err(e) => {
                    return Err(e);
                },
            }
            k = k + 1;
        }
        Ok(total)
    }
}

} // verus!

verus! {

impl<'a, A: ReadArena + ?Sized> PtrReader<'a, A> {
    /// The size of what the pointer refers to and of all that refers to in turn: nothing for a
    /// null pointer.
    pub fn target_size(&self) -> (r: Result<MessageSize, Error>)
        requires
            !parts_null(self.spec_parts()) && self.spec_nesting_limit() > 0 ==> (self.spec_ptr() matches Some((pos, rd))
                && !(spec_target_size(rd.spec_segs(), rd.spec_state(), pos@, self.spec_nesting_limit() - 1) is TooLarge)),
        ensures
            parts_null(self.spec_parts()) ==> r == Ok::<MessageSize, Error>(MessageSize { words: 0, caps: 0 }),
            !parts_null(self.spec_parts()) && self.spec_nesting_limit() == 0 ==> r == Err::<MessageSize, Error>(
                Error { kind: ErrorKind::NestingLimitExceeded },
            ),
            !parts_null(self.spec_parts()) && self.spec_nesting_limit() > 0 ==> (self.spec_ptr() matches Some((pos, rd))
                && match spec_target_size(rd.spec_segs(), rd.spec_state(), pos@, self.spec_nesting_limit() - 1) {
                SizeRead::Size(_, w, c) => r matches Ok(m) && m.words == w && m.caps == c,
                SizeRead::Failed(e) => r == Err::<MessageSize, Error>(e),
                SizeRead::TooLarge => true,
            }),
    {
        proof {
            use_type_invariant(self);
        }
        if self.is_null() {
            return Ok(MessageSize { words: 0, caps: 0 });
        }
        let nesting_limit = match self.nesting_limit.checked_sub(1) {
            Some(n) => n,
            None => {
                return Err(Error::from_kind(ErrorKind::NestingLimitExceeded));
            },
        };
        match &self.ptr {
            None => Ok(MessageSize { words: 0, caps: 0 }),
            Some((pos, rd)) => {
                let mut reader = *rd;
                reader.target_size(*pos, nesting_limit)
            },
        }
    }
}

impl<'a, A: ReadArena + ?Sized> StructReader<'a, A> {
    /// The size of the struct and of all its pointers refer to.
    pub fn total_size(&self) -> (r: Result<MessageSize, Error>)
        requires
            self.spec_reader() matches Some(rd) ==> match spec_ptrs_size(
                rd.spec_segs(),
                rd.spec_state(),
                self.spec_ptrs_start() as int,
                self.spec_ptrs_len() as int,
                self.spec_nesting_limit() as int,
            ) {
                SizeRead::Size(_, w, _) => self.spec_data().len() + self.spec_ptrs_len() + w <= u64::MAX,
                SizeRead::Failed(_) => true,
                SizeRead::TooLarge => false,
            },
        ensures
            self.spec_reader() is None ==> r == Ok::<MessageSize, Error>(
                MessageSize { words: (self.spec_data().len() + self.spec_ptrs_len()) as u64, caps: 0 },
            ),
            self.spec_reader() matches Some(rd) ==> match spec_ptrs_size(
                rd.spec_segs(),
                rd.spec_state(),
                self.spec_ptrs_start() as int,
                self.spec_ptrs_len() as int,
                self.spec_nesting_limit() as int,
            ) {
                SizeRead::Size(_, w, c) => r matches Ok(m) && m.words == self.spec_data().len() + self.spec_ptrs_len() + w && m.caps == c,
                SizeRead::Failed(e) => r == Err::<MessageSize, Error>(e),
                SizeRead::TooLarge => true,
            },
    {
        proof {
            use_type_invariant(self);
        }
        let own = self.data.len() as u64 + self.ptrs_len as u64;
        match self.reader {
            None => Ok(MessageSize { words: own, caps: 0 }),
            Some(rd) => {
                let mut reader = rd;
                match reader.ptrs_size(self.ptrs_start, self.ptrs_len as u32, self.nesting_limit) {
                    Ok(s) => Ok(MessageSize { words: own + s.words, caps: s.caps }),
                    Err(e) => Err(e),
                }
            },
        }
    }
}

impl<'a, A: ReadArena + ?Sized> ListReader<'a, A> {
    /// The size of the list, its tag included, and of all its pointers refer to.
    pub fn total_size(&self) -> (r: Result<MessageSize, Error>)
        requires
            self.spec_reader() matches Some(rd) ==> match self.spec_element_size() {
                ElementSize::InlineComposite(s) => match spec_composites_size(
                    rd.spec_segs(),
                    rd.spec_state(),
                    self.spec_start(),
                    s,
                    self.spec_len(),
                    self.spec_nesting_limit() as int,
                ) {
                    SizeRead::Size(_, w, _) => list_words(self.spec_element_size(), self.spec_len()) + 1 + w <= u64::MAX,
                    SizeRead::Failed(_) => true,
                    SizeRead::TooLarge => false,
                },
                ElementSize::Pointer => match spec_ptrs_size(
                    rd.spec_segs(),
                    rd.spec_state(),
                    self.spec_start(),
                    self.spec_len(),
                    self.spec_nesting_limit() as int,
                ) {
                    SizeRead::Size(_, w, _) => list_words(self.spec_element_size(), self.spec_len()) + w <= u64::MAX,
                    SizeRead::Failed(_) => true,
                    SizeRead::TooLarge => false,
                },
                _ => true,
            },
        ensures
            ({
                let own = list_words(self.spec_element_size(), self.spec_len()) + if self.spec_element_size() is InlineComposite {
                    1int
                } else {
                    0
                };
                match self.spec_reader() {
                    None => r == Ok::<MessageSize, Error>(MessageSize { words: own as u64, caps: 0 }),
                    Some(rd) => match self.spec_element_size() {
                        ElementSize::InlineComposite(s) => match spec_composites_size(
                            rd.spec_segs(),
                            rd.spec_state(),
                            self.spec_start(),
                            s,
                            self.spec_len(),
                            self.spec_nesting_limit() as int,
                        ) {
                            SizeRead::Size(_, w, c) => r matches Ok(m) && m.words == own + w && m.caps == c,
                            SizeRead::Failed(e) => r == Err::<MessageSize, Error>(e),
                            SizeRead::TooLarge => true,
                        },
                        ElementSize::Pointer => match spec_ptrs_size(
                            rd.spec_segs(),
                            rd.spec_state(),
                            self.spec_start(),
                            self.spec_len(),
                            self.spec_nesting_limit() as int,
                        ) {
                            SizeRead::Size(_, w, c) => r matches Ok(m) && m.words == own + w && m.caps == c,
                            SizeRead::Failed(e) => r == Err::<MessageSize, Error>(e),
                            SizeRead::TooLarge => true,
                        },
                        _ => r == Ok::<MessageSize, Error>(MessageSize { words: own as u64, caps: 0 }),
                    },
                }
            }),
    {
        let _ = self.element_count.get();
        proof {
            use_type_invariant(self);
            lemma_list_words(self.element_size, self.element_count@ as int);
            match self.reader {
                Some(rd) => {
                    use_type_invariant(&rd.segment);
                    rd.segment.arena.lemma_segments_fit();
                },
                None => {},
            }
        }
        let words = self.total_words() as u64;
        let own = if self.element_size.is_inline_composite() {
            words + 1
        } else {
            words
        };
        match self.reader {
            None => Ok(MessageSize { words: own, caps: 0 }),
            Some(rd) => {
                proof {
                    use_type_invariant(&rd.segment);
                    rd.segment.arena.lemma_segments_fit();
                }
                let mut reader = rd;
                match self.element_size {
                    ElementSize::InlineComposite(s) => {
                        match reader.composites_size(self.ptr, s, self.element_count.get(), self.nesting_limit) {
                            Ok(t) => Ok(MessageSize { words: own + t.words, caps: t.caps }),
                            Err(e) => Err(e),
                        }
                    },
                    ElementSize::Pointer => {
                        match reader.ptrs_size(self.ptr, self.element_count.get(), self.nesting_limit) {
                            Ok(t) => Ok(MessageSize { words: own + t.words, caps: t.caps }),
                            Err(e) => Err(e),
                        }
                    },
                    _ => Ok(MessageSize { words: own, caps: 0 }),
                }
            },
        }
    }
}

} // verus!

verus! {

/// The bytes of words within a run of zero words are zero.
proof fn lemma_zero_region_bytes(arena: Seq<ArenaSegment>, seg: SegmentId, start: int, len: int, from: int, n: int)
    requires
        seg < arena.len(),
        0 <= start <= from,
        0 <= n,
        from + n <= start + len,
        start + len <= arena[seg as int].spec_words().len(),
        all_zero_in(arena, seg, start, len),
    ensures
        forall|k: int| 0 <= k < n * 8 ==> #[trigger] words_bytes(arena[seg as int].spec_words().subrange(from, from + n))[k] == 0,
{
    let ws = arena[seg as int].spec_words().subrange(from, from + n);
    assert forall|i: int| 0 <= i < ws.len() implies crate::allocator::word_is_zero(#[trigger] ws[i]) by {
        assert(arena[seg as int].spec_words().subrange(start, start + len)[from - start + i] == ws[i]);
    }
    crate::io::packing::lemma_words_bytes_zero(ws);
}

/// Every data field of a struct whose words are all zero, as a newly allocated struct's are,
/// reads as its default.
pub proof fn lemma_zeroed_struct_reads_defaults<D: Data>(arena: Seq<ArenaSegment>, s: StructBuilder, slot: int, default: D)
    requires
        s.valid_in(arena),
        forall|i: int| 0 <= i < arena.len() ==> #[trigger] arena[i].spec_used_len() <= arena[i].spec_words().len(),
        all_zero_in(arena, s.builder.segment, s.start as int, s.size.spec_total()),
        0 <= slot,
    ensures
        D::spec_read(words_bytes(struct_data(arena, s.builder.segment, s.start as int, s.size)), slot, default) == default,
{
    lemma_zero_region_bytes(arena, s.builder.segment, s.start as int, s.size.spec_total(), s.start as int, s.size.data as int);
    D::lemma_read_zero(words_bytes(struct_data(arena, s.builder.segment, s.start as int, s.size)), slot, default);
}

/// Every element of a list of data whose words are all zero, as a newly allocated list's are,
/// reads as zero.
pub proof fn lemma_zeroed_list_reads_zero<D: Data>(arena: Seq<ArenaSegment>, l: ListBuilder, index: int)
    requires
        l.valid_in(arena),
        forall|i: int| 0 <= i < arena.len() ==> #[trigger] arena[i].spec_used_len() <= arena[i].spec_words().len(),
        all_zero_in(arena, l.builder.segment, l.start as int, list_words(l.element_size, l.element_count@ as int)),
        !(l.element_size is InlineComposite),
        0 <= index,
    ensures
        D::spec_read(
            words_bytes(list_section(arena, l.builder.segment, l.start as int, l.element_size, l.element_count@ as int)),
            index,
            D::spec_zero(),
        ) == D::spec_zero(),
{
    let n = list_words(l.element_size, l.element_count@ as int);
    lemma_zero_region_bytes(arena, l.builder.segment, l.start as int, n, l.start as int, n);
    D::lemma_read_zero(
        words_bytes(list_section(arena, l.builder.segment, l.start as int, l.element_size, l.element_count@ as int)),
        index,
        D::spec_zero(),
    );
}

} // verus!

verus! {

/// Whether an arena that is built is read as its used words.
pub open spec fn reads_as_built<B: BuildArena + ReadArena + ?Sized>(arena: &B) -> bool {
    &&& arena.read_inv()
    &&& arena.spec_segments() == used_segments(arena.spec_arena())
}

impl PtrBuilder {
    /// A reader of the pointer as it is now, with no limits.
    pub fn as_reader<'a, B: BuildArena + ReadArena + ?Sized>(&self, arena: &'a B) -> (r: PtrReader<'a, B>)
        requires
            arena.inv(),
            reads_as_built(arena),
            writable(arena.spec_arena(), self.builder.segment, self.ptr@),
        ensures
            r.spec_ptr() matches Some((pos, rd)) && pos == self.ptr && rd.spec_state() == (ReadState {
                segment: self.builder.segment,
                limit: None,
            }) && rd.spec_segment().spec_arena() == arena,
            r.spec_nesting_limit() == u32::MAX,
    {
        proof {
            arena.lemma_used_fits();
        }
        let sr = SegmentReader::from_source(arena, self.builder.segment).unwrap();
        let rd = ObjectReader::new(sr, None);
        PtrReader { ptr: Some((self.ptr, rd)), nesting_limit: u32::MAX }
    }
}

impl StructBuilder {
    /// A reader of the struct as it is now, with no limits.
    pub fn as_reader<'a, B: BuildArena + ReadArena + ?Sized>(&self, arena: &'a B) -> (r: StructReader<'a, B>)
        requires
            arena.inv(),
            reads_as_built(arena),
            self.valid_in(arena.spec_arena()),
        ensures
            r.spec_data() == struct_data(arena.spec_arena(), self.builder.segment, self.start as int, self.size),
            r.spec_ptrs_start() == self.start + self.size.data,
            r.spec_ptrs_len() == self.size.ptrs,
            r.spec_reader() matches Some(rd) && rd.spec_state() == (ReadState { segment: self.builder.segment, limit: None })
                && rd.spec_segment().spec_arena() == arena,
            r.spec_nesting_limit() == u32::MAX,
    {
        proof {
            arena.lemma_used_fits();
        }
        let sr = SegmentReader::from_source(arena, self.builder.segment).unwrap();
        let rd = ObjectReader::new(sr, None);
        let words = sr.words();
        let start = self.start as usize;
        let data = &words[start..start + self.size.data as usize];
        proof {
            assert(data@ =~= struct_data(arena.spec_arena(), self.builder.segment, self.start as int, self.size));
        }
        StructReader { data, ptrs_start: self.start + self.size.data as u32, ptrs_len: self.size.ptrs, reader: Some(rd), nesting_limit: u32::MAX }
    }
}

impl ListBuilder {
    /// A reader of the list as it is now, with no limits.
    pub fn as_reader<'a, B: BuildArena + ReadArena + ?Sized>(&self, arena: &'a B) -> (r: ListReader<'a, B>)
        requires
            arena.inv(),
            reads_as_built(arena),
            self.valid_in(arena.spec_arena()),
        ensures
            r.spec_start() == self.start,
            r.spec_len() == self.element_count@,
            r.spec_element_size() == self.element_size,
            r.spec_section() == list_section(arena.spec_arena(), self.builder.segment, self.start as int, self.element_size, self.element_count@ as int),
            r.spec_reader() matches Some(rd) && rd.spec_state() == (ReadState { segment: self.builder.segment, limit: None })
                && rd.spec_segment().spec_arena() == arena,
            r.spec_nesting_limit() == u32::MAX,
    {
        proof {
            arena.lemma_used_fits();
        }
        let sr = SegmentReader::from_source(arena, self.builder.segment).unwrap();
        let rd = ObjectReader::new(sr, None);
        ListReader { ptr: self.start, reader: Some(rd), element_count: self.element_count, element_size: self.element_size, nesting_limit: u32::MAX }
    }
}

impl PtrBuilder {
    /// Points the pointer at the capability at `index` of the message's capability table, leaving
    /// what it referred to before in place.
    pub fn set_capability_ptr<B: BuildArena + ?Sized>(&self, arena: &mut B, index: u32)
        requires
            old(arena).inv(),
            writable(old(arena).spec_arena(), self.builder.segment, self.ptr@),
        ensures
            final(arena).inv(),
            word_set(old(arena).spec_arena(), final(arena).spec_arena(), self.builder.segment, self.ptr@, Parts { lower: 3, upper: index }),
    {
        let cap = CapabilityPtr::new(index);
        self.builder.set_ptr(arena, self.ptr, WirePtr { parts: cap.parts });
    }
}

impl PtrBuilder {
    /// The type of what the pointer refers to, read as it is now, with no limits.
    pub fn ptr_type<B: BuildArena + ReadArena + ?Sized>(&self, arena: &B) -> (r: Result<PtrType, Error>)
        requires
            arena.inv(),
            reads_as_built(arena),
            writable(arena.spec_arena(), self.builder.segment, self.ptr@),
        ensures
            parts_null(parts_of(arena_words(arena.spec_arena(), self.builder.segment)[self.ptr@])) ==> r == Ok::<PtrType, Error>(PtrType::Null),
            !parts_null(parts_of(arena_words(arena.spec_arena(), self.builder.segment)[self.ptr@])) ==> match spec_location_of(
                used_segments(arena.spec_arena()),
                ReadState { segment: self.builder.segment, limit: None },
                self.ptr@,
            ) {
                Err(e) => r == Err::<PtrType, Error>(e),
                Ok((_, p, _)) => if kind_of(p.lower) == WireKind::Struct {
                    r == Ok::<PtrType, Error>(PtrType::Struct)
                } else if kind_of(p.lower) == WireKind::List {
                    r == Ok::<PtrType, Error>(PtrType::List)
                } else if is_capability_parts(p) {
                    r == Ok::<PtrType, Error>(PtrType::Capability)
                } else {
                    r == Err::<PtrType, Error>(spec_fail_read(p, None))
                },
            },
    {
        proof {
            arena.lemma_used_fits();
            lemma_used_word(arena.spec_arena(), self.builder.segment, self.ptr@);
        }
        self.as_reader(arena).ptr_type()
    }

    /// The struct the pointer refers to, read as it is now with no limits; `None` for a null
    /// pointer.
    pub fn to_struct<'a, B: BuildArena + ReadArena + ?Sized>(&self, arena: &'a B) -> (r: Result<Option<StructReader<'a, B>>, Error>)
        requires
            arena.inv(),
            reads_as_built(arena),
            writable(arena.spec_arena(), self.builder.segment, self.ptr@),
        ensures
            parts_null(parts_of(arena_words(arena.spec_arena(), self.builder.segment)[self.ptr@])) ==> r matches Ok(None),
            !parts_null(parts_of(arena_words(arena.spec_arena(), self.builder.segment)[self.ptr@])) ==> match spec_read_struct(
                used_segments(arena.spec_arena()),
                ReadState { segment: self.builder.segment, limit: None },
                self.ptr@,
            ) {
                Err(e) => r == Err::<Option<StructReader<'a, B>>, Error>(e),
                Ok((st, start, size)) => r matches Ok(Some(s)) && s.spec_data() == used_segments(arena.spec_arena())[st.segment as int].subrange(
                    start,
                    start + size.data,
                ) && s.spec_ptrs_start() == start + size.data && s.spec_ptrs_len() == size.ptrs,
            },
    {
        proof {
            arena.lemma_used_fits();
            lemma_used_word(arena.spec_arena(), self.builder.segment, self.ptr@);
        }
        self.as_reader(arena).to_struct()
    }

    /// The list the pointer refers to, read as it is now with no limits, checking that its
    /// elements can be read as `expected`; `None` for a null pointer.
    pub fn to_list<'a, B: BuildArena + ReadArena + ?Sized>(&self, arena: &'a B, expected: Option<PtrElementSize>) -> (r: Result<Option<ListReader<'a, B>>, Error>)
        requires
            arena.inv(),
            reads_as_built(arena),
            writable(arena.spec_arena(), self.builder.segment, self.ptr@),
        ensures
            parts_null(parts_of(arena_words(arena.spec_arena(), self.builder.segment)[self.ptr@])) ==> r matches Ok(None),
            !parts_null(parts_of(arena_words(arena.spec_arena(), self.builder.segment)[self.ptr@])) ==> match spec_read_list(
                used_segments(arena.spec_arena()),
                ReadState { segment: self.builder.segment, limit: None },
                self.ptr@,
                expected,
            ) {
                Err(e) => r == Err::<Option<ListReader<'a, B>>, Error>(e),
                Ok((st, start, size, count)) => r matches Ok(Some(l)) && l.spec_start() == start && l.spec_element_size() == size
                    && l.spec_len() == count,
            },
    {
        proof {
            arena.lemma_used_fits();
            lemma_used_word(arena.spec_arena(), self.builder.segment, self.ptr@);
        }
        self.as_reader(arena).to_list(expected)
    }

    /// The size of what the pointer refers to and of all that refers to in turn, read as it is
    /// now with no limits.
    pub fn target_size<B: BuildArena + ReadArena + ?Sized>(&self, arena: &B) -> (r: Result<MessageSize, Error>)
        requires
            arena.inv(),
            reads_as_built(arena),
            writable(arena.spec_arena(), self.builder.segment, self.ptr@),
            !parts_null(parts_of(arena_words(arena.spec_arena(), self.builder.segment)[self.ptr@])) ==> !(spec_target_size(
                used_segments(arena.spec_arena()),
                ReadState { segment: self.builder.segment, limit: None },
                self.ptr@,
                u32::MAX - 1,
            ) is TooLarge),
        ensures
            parts_null(parts_of(arena_words(arena.spec_arena(), self.builder.segment)[self.ptr@])) ==> r == Ok::<MessageSize, Error>(MessageSize { words: 0, caps: 0 }),
            !parts_null(parts_of(arena_words(arena.spec_arena(), self.builder.segment)[self.ptr@])) ==> match spec_target_size(
                used_segments(arena.spec_arena()),
                ReadState { segment: self.builder.segment, limit: None },
                self.ptr@,
                u32::MAX - 1,
            ) {
                SizeRead::Size(_, w, c) => r matches Ok(m) && m.words == w && m.caps == c,
                SizeRead::Failed(e) => r == Err::<MessageSize, Error>(e),
                SizeRead::TooLarge => true,
            },
    {
        proof {
            arena.lemma_used_fits();
            lemma_used_word(arena.spec_arena(), self.builder.segment, self.ptr@);
        }
        self.as_reader(arena).target_size()
    }

    /// The bytes of the byte list the pointer refers to, read as it is now with no limits;
    /// `None` for a null pointer.
    pub fn to_blob<B: BuildArena + ReadArena + ?Sized>(&self, arena: &B) -> (r: Result<Option<BlobReader>, Error>)
        requires
            arena.inv(),
            reads_as_built(arena),
            writable(arena.spec_arena(), self.builder.segment, self.ptr@),
        ensures
            parts_null(parts_of(arena_words(arena.spec_arena(), self.builder.segment)[self.ptr@])) ==> r matches Ok(None),
            !parts_null(parts_of(arena_words(arena.spec_arena(), self.builder.segment)[self.ptr@])) ==> match spec_location_of(
                used_segments(arena.spec_arena()),
                ReadState { segment: self.builder.segment, limit: None },
                self.ptr@,
            ) {
                Err(e) => r == Err::<Option<BlobReader>, Error>(e),
                Ok((st, p, loc)) => if kind_of(p.lower) != WireKind::List {
                    r == Err::<Option<BlobReader>, Error>(spec_fail_read(p, Some(ExpectedRead::List)))
                } else if ptr_element_size_of((p.upper % 8) as int) != PtrElementSize::Byte {
                    r == Err::<Option<BlobReader>, Error>(spec_fail_upgrade(ptr_element_size_of((p.upper % 8) as int), PtrElementSize::Byte))
                } else {
                    match spec_read_content(used_segments(arena.spec_arena()), st, loc, content_offset_of(p.lower), (p.upper / 8 + 7) / 8) {
                        Err(e) => r == Err::<Option<BlobReader>, Error>(e),
                        Ok((st2, start)) => r matches Ok(Some(b)) && b.spec_bytes() == words_bytes(
                            used_segments(arena.spec_arena())[st2.segment as int].subrange(start, start + (p.upper / 8 + 7) / 8),
                        ).subrange(0, (p.upper / 8) as int),
                    }
                },
            },
    {
        proof {
            arena.lemma_used_fits();
            lemma_used_word(arena.spec_arena(), self.builder.segment, self.ptr@);
        }
        self.as_reader(arena).to_blob()
    }
}

} // verus!

verus! {

/// The outcome of comparing contents: the limits left to the two readers and how the contents
/// compare, or the error a read met.
pub enum EqRead {
    Done(Option<u64>, Option<u64>, PtrEquality),
    Failed(Error),
}

/// How a run of contents compares when the run before compares as `e` and the next content as
/// `e2`.
pub open spec fn eq_join(e: PtrEquality, e2: PtrEquality) -> PtrEquality {
    match e2 {
        PtrEquality::NotEqual => PtrEquality::NotEqual,
        PtrEquality::ContainsCaps => PtrEquality::ContainsCaps,
        PtrEquality::Equal => e,
    }
}

/// The mask of the low `p` bits of a byte.
pub open spec fn low_mask(p: int) -> u8 {
    255u8 >> ((8 - p) as u8)
}

/// Whether the first `n` bits of two runs of words are equal, bit `i` being bit `i % 8` of byte
/// `i / 8`.
pub open spec fn bits_equal(a: Seq<Word>, b: Seq<Word>, n: int) -> bool {
    &&& words_bytes(a).take(n / 8) == words_bytes(b).take(n / 8)
    &&& n % 8 != 0 ==> words_bytes(a)[n / 8] & low_mask(n % 8) == words_bytes(b)[n / 8] & low_mask(n % 8)
}

/// Comparing what the pointer at `pa` (read in `sa` from state `sta`) refers to with what the
/// pointer at `pb` (read in `sb` from `stb`) refers to, following pointers at most `nesting`
/// levels further down. Two null pointers are equal unread; two structs compare their data
/// sections and their pointers pairwise; two lists compare their counts, element sizes and
/// elements; two capabilities compare as containing capabilities; anything else is not equal.
pub open spec fn spec_compare_ptr(sa: Seq<Seq<Word>>, sta: ReadState, pa: int, sb: Seq<Seq<Word>>, stb: ReadState, pb: int, nesting: int) -> EqRead
    decreases nesting, 0int, 0int,
{
    if parts_null(parts_of(sa[sta.segment as int][pa])) && parts_null(parts_of(sb[stb.segment as int][pb])) {
        EqRead::Done(sta.limit, stb.limit, PtrEquality::Equal)
    } else {
        match spec_read_typed(sa, sta, pa) {
            Err(e) => EqRead::Failed(e),
            Ok((sa1, ta)) => match spec_read_typed(sb, stb, pb) {
                Err(e) => EqRead::Failed(e),
                Ok((sb1, tb)) => match ta {
                    TypedRead::Struct { start: a, size: x } => match tb {
                        TypedRead::Struct { start: b, size: y } => if nesting <= 0 {
                            EqRead::Failed(Error { kind: ErrorKind::NestingLimitExceeded })
                        } else {
                            spec_compare_struct(sa, sa1, a, x, sb, sb1, b, y, nesting - 1)
                        },
                        _ => EqRead::Done(sa1.limit, sb1.limit, PtrEquality::NotEqual),
                    },
                    TypedRead::List { start: a, size: x, count: n } => match tb {
                        TypedRead::List { start: b, size: y, count: m } => if nesting <= 0 {
                            EqRead::Failed(Error { kind: ErrorKind::NestingLimitExceeded })
                        } else {
                            spec_compare_list(sa, sa1, a, x, n, sb, sb1, b, y, m, nesting - 1)
                        },
                        _ => EqRead::Done(sa1.limit, sb1.limit, PtrEquality::NotEqual),
                    },
                    TypedRead::Capability { .. } => match tb {
                        TypedRead::Capability { .. } => EqRead::Done(sa1.limit, sb1.limit, PtrEquality::ContainsCaps),
                        _ => EqRead::Done(sa1.limit, sb1.limit, PtrEquality::NotEqual),
                    },
                },
            },
        }
    }
}

/// Comparing the first `n` pointers at `a` and at `b` pairwise, stopping at the first pair that
/// is not equal.
pub open spec fn spec_compare_ptrs(sa: Seq<Seq<Word>>, sta: ReadState, a: int, sb: Seq<Seq<Word>>, stb: ReadState, b: int, n: int, nesting: int) -> EqRead
    decreases nesting, 1int, n,
{
    if n <= 0 {
        EqRead::Done(sta.limit, stb.limit, PtrEquality::Equal)
    } else {
        match spec_compare_ptrs(sa, sta, a, sb, stb, b, n - 1, nesting) {
            EqRead::Done(la, lb, e) => if e == PtrEquality::NotEqual {
                EqRead::Done(la, lb, PtrEquality::NotEqual)
            } else {
                match spec_compare_ptr(
                    sa,
                    ReadState { segment: sta.segment, limit: la },
                    a + n - 1,
                    sb,
                    ReadState { segment: stb.segment, limit: lb },
                    b + n - 1,
                    nesting,
                ) {
                    EqRead::Done(la2, lb2, e2) => EqRead::Done(la2, lb2, eq_join(e, e2)),
                    EqRead::Failed(err) => EqRead::Failed(err),
                }
            },
            EqRead::Failed(err) => EqRead::Failed(err),
        }
    }
}

/// Comparing the struct of size `x` at `a` with the struct of size `y` at `b`: their data
/// sections, then as many of their pointers as both have.
pub open spec fn spec_compare_struct(
    sa: Seq<Seq<Word>>,
    sta: ReadState,
    a: int,
    x: StructSize,
    sb: Seq<Seq<Word>>,
    stb: ReadState,
    b: int,
    y: StructSize,
    nesting: int,
) -> EqRead
    decreases nesting, 2int, 0int,
{
    if words_bytes(sa[sta.segment as int].subrange(a, a + x.data)) != words_bytes(sb[stb.segment as int].subrange(b, b + y.data)) {
        EqRead::Done(sta.limit, stb.limit, PtrEquality::NotEqual)
    } else {
        spec_compare_ptrs(sa, sta, a + x.data, sb, stb, b + y.data, if x.ptrs <= y.ptrs { x.ptrs as int } else { y.ptrs as int }, nesting)
    }
}

/// Comparing the first `n` structs of two struct lists pairwise, stopping at the first pair that
/// is not equal.
pub open spec fn spec_compare_composites(
    sa: Seq<Seq<Word>>,
    sta: ReadState,
    a: int,
    x: StructSize,
    sb: Seq<Seq<Word>>,
    stb: ReadState,
    b: int,
    y: StructSize,
    n: int,
    nesting: int,
) -> EqRead
    decreases nesting, 3int, n,
{
    if n <= 0 {
        EqRead::Done(sta.limit, stb.limit, PtrEquality::Equal)
    } else {
        match spec_compare_composites(sa, sta, a, x, sb, stb, b, y, n - 1, nesting) {
            EqRead::Done(la, lb, e) => if e == PtrEquality::NotEqual {
                EqRead::Done(la, lb, PtrEquality::NotEqual)
            } else {
                match spec_compare_struct(
                    sa,
                    ReadState { segment: sta.segment, limit: la },
                    a + (n - 1) * x.spec_total(),
                    x,
                    sb,
                    ReadState { segment: stb.segment, limit: lb },
                    b + (n - 1) * y.spec_total(),
                    y,
                    nesting,
                ) {
                    EqRead::Done(la2, lb2, e2) => EqRead::Done(la2, lb2, eq_join(e, e2)),
                    EqRead::Failed(err) => EqRead::Failed(err),
                }
            },
            EqRead::Failed(err) => EqRead::Failed(err),
        }
    }
}

/// Comparing the list of `n` elements of size `x` at `a` with the list of `m` elements of size
/// `y` at `b`: lists of different lengths or element kinds are not equal; otherwise bits, bytes,
/// pointers or structs are compared, data past the last element being ignored.
pub open spec fn spec_compare_list(
    sa: Seq<Seq<Word>>,
    sta: ReadState,
    a: int,
    x: ElementSize,
    n: int,
    sb: Seq<Seq<Word>>,
    stb: ReadState,
    b: int,
    y: ElementSize,
    m: int,
    nesting: int,
) -> EqRead
    decreases nesting, 4int, 0int,
{
    let wa = sa[sta.segment as int].subrange(a, a + list_words(x, n));
    let wb = sb[stb.segment as int].subrange(b, b + list_words(y, m));
    if n != m || spec_as_ptr_size(x) != spec_as_ptr_size(y) {
        EqRead::Done(sta.limit, stb.limit, PtrEquality::NotEqual)
    } else if n == 0 {
        EqRead::Done(sta.limit, stb.limit, PtrEquality::Equal)
    } else {
        match x {
            ElementSize::Pointer => spec_compare_ptrs(sa, sta, a, sb, stb, b, n, nesting),
            ElementSize::InlineComposite(xs) => match y {
                ElementSize::InlineComposite(ys) => spec_compare_composites(sa, sta, a, xs, sb, stb, b, ys, n, nesting),
                _ => EqRead::Done(sta.limit, stb.limit, PtrEquality::NotEqual),
            },
            _ => EqRead::Done(sta.limit, stb.limit, data_list_equality(wa, wb, x, n)),
        }
    }
}

/// How the words `wa` and `wb` of two lists of `n` data elements of size `x` compare: no void
/// elements differ, bits and bytes past the last element are ignored.
pub open spec fn data_list_equality(wa: Seq<Word>, wb: Seq<Word>, x: ElementSize, n: int) -> PtrEquality {
    let same = match x {
        ElementSize::Void => true,
        ElementSize::Bit => bits_equal(wa, wb, n),
        _ => words_bytes(wa).take(spec_bits(x) * n / 8) == words_bytes(wb).take(spec_bits(x) * n / 8),
    };
    if same {
        PtrEquality::Equal
    } else {
        PtrEquality::NotEqual
    }
}

/// How two lists of `n` data elements of size `x`, held in `a` and `b`, compare.
fn data_list_equality_exec(a: &[Word], b: &[Word], x: ElementSize, n: u29) -> (r: PtrEquality)
    requires
        !(x is Pointer),
        !(x is InlineComposite),
        a@.len() == list_words(x, n@ as int),
        b@.len() == list_words(x, n@ as int),
    ensures
        r == data_list_equality(a@, b@, x, n@ as int),
{
    let count = n.get();
    let same = match x {
        ElementSize::Void => true,
        ElementSize::Bit => bits_equal_exec(a, b, count),
        _ => {
            let bytes = x.total_bytes(n);
            proof {
                assert(spec_bits(x) * count <= 64 * count) by (nonlinear_arith)
                    requires
                        spec_bits(x) <= 64,
                ;
                let t = spec_bits(x) * count;
                let q: int = spec_bits(x) / 8;
                assert(t == (q * count) * 8) by (nonlinear_arith)
                    requires
                        t == spec_bits(x) * count,
                        spec_bits(x) == q * 8,
                ;
                vstd::arithmetic::div_mod::lemma_mod_multiples_basic(q * count, 8);
                assert((t + 7) / 8 == t / 8);
                assert(t / 8 <= ((t + 63) / 64) * 8);
            }
            bytes_equal(a, b, bytes as usize)
        },
    };
    if same {
        PtrEquality::Equal
    } else {
        PtrEquality::NotEqual
    }
}

/// Whether a comparison is what `r` gives, with the limits `la` and `lb` left to the readers.
pub open spec fn eq_result(s: EqRead, r: Result<PtrEquality, Error>, la: Option<u64>, lb: Option<u64>) -> bool {
    match s {
        EqRead::Done(x, y, e) => r == Ok::<PtrEquality, Error>(e) && la == x && lb == y,
        EqRead::Failed(err) => r == Err::<PtrEquality, Error>(err),
    }
}

/// A comparison of pointers that failed or found a pair not equal is the comparison of more of
/// them.
proof fn lemma_compare_ptrs_prefix(sa: Seq<Seq<Word>>, sta: ReadState, a: int, sb: Seq<Seq<Word>>, stb: ReadState, b: int, k: int, n: int, nesting: int)
    requires
        0 <= k <= n,
        spec_compare_ptrs(sa, sta, a, sb, stb, b, k, nesting) matches EqRead::Done(_, _, e) ==> e == PtrEquality::NotEqual,
    ensures
        spec_compare_ptrs(sa, sta, a, sb, stb, b, n, nesting) == spec_compare_ptrs(sa, sta, a, sb, stb, b, k, nesting),
    decreases n - k,
{
    if k < n {
        lemma_compare_ptrs_prefix(sa, sta, a, sb, stb, b, k, n - 1, nesting);
    }
}

/// The same for the structs of struct lists.
proof fn lemma_compare_composites_prefix(
    sa: Seq<Seq<Word>>,
    sta: ReadState,
    a: int,
    x: StructSize,
    sb: Seq<Seq<Word>>,
    stb: ReadState,
    b: int,
    y: StructSize,
    k: int,
    n: int,
    nesting: int,
)
    requires
        0 <= k <= n,
        spec_compare_composites(sa, sta, a, x, sb, stb, b, y, k, nesting) matches EqRead::Done(_, _, e) ==> e == PtrEquality::NotEqual,
    ensures
        spec_compare_composites(sa, sta, a, x, sb, stb, b, y, n, nesting) == spec_compare_composites(sa, sta, a, x, sb, stb, b, y, k, nesting),
    decreases n - k,
{
    if k < n {
        lemma_compare_composites_prefix(sa, sta, a, x, sb, stb, b, y, k, n - 1, nesting);
    }
}

/// Whether the first `n` bits of two runs of words are equal.
fn bits_equal_exec(a: &[Word], b: &[Word], n: u32) -> (r: bool)
    requires
        a@.len() == (n + 63) / 64,
        b@.len() == (n + 63) / 64,
    ensures
        r == bits_equal(a@, b@, n as int),
{
    let full = n / 8;
    let p = n % 8;
    if !bytes_equal(a, b, full as usize) {
        return false;
    }
    if p == 0 {
        return true;
    }
    let mask: u8 = 255u8 >> ((8 - p) as u8);
    (byte_at(a, full as usize) & mask) == (byte_at(b, full as usize) & mask)
}

/// Whether the first `n` bytes of two runs of words are equal.
fn bytes_equal(a: &[Word], b: &[Word], n: usize) -> (r: bool)
    requires
        n <= a@.len() * 8,
        n <= b@.len() * 8,
    ensures
        r == (words_bytes(a@).take(n as int) == words_bytes(b@).take(n as int)),
{
    let mut k: usize = 0;
    while k < n
        invariant
            k <= n,
            n <= a@.len() * 8,
            n <= b@.len() * 8,
            forall|j: int| 0 <= j < k ==> words_bytes(a@)[j] == words_bytes(b@)[j],
        decreases n - k,
    {
        if byte_at(a, k) != byte_at(b, k) {
            assert(words_bytes(a@).take(n as int)[k as int] != words_bytes(b@).take(n as int)[k as int]);
            return false;
        }
        k = k + 1;
    }
    assert(words_bytes(a@).take(n as int) =~= words_bytes(b@).take(n as int));
    true
}

} // verus!

verus! {

impl<'a, A: ReadArena + ?Sized> ObjectReader<'a, A> {
    /// Compares what the pointer at `pa` of this reader's segment refers to with what the pointer
    /// at `pb` of `other`'s segment refers to, following pointers at most `nesting` levels
    /// further down. Both readers stay in their segments and are left with the limits the reads
    /// left.
    #[verifier::rlimit(40)]
    #[verifier::spinoff_prover]
    pub fn compare_ptr<'b, A2: ReadArena + ?Sized>(&mut self, pa: u32, other: &mut ObjectReader<'b, A2>, pb: u32, nesting: u32) -> (r: Result<PtrEquality, Error>)
        requires
            pa < old(self).spec_words().len(),
            pb < old(other).spec_words().len(),
        ensures
            final(self).spec_segment() == old(self).spec_segment(),
            final(other).spec_segment() == old(other).spec_segment(),
            eq_result(
                spec_compare_ptr(old(self).spec_segs(), old(self).spec_state(), pa as int, old(other).spec_segs(), old(other).spec_state(), pb as int, nesting as int),
                r,
                final(self).spec_limit(),
                final(other).spec_limit(),
            ),
        decreases nesting, 0int, 0int,
    {
        proof {
            use_type_invariant(&self.segment);
            self.segment.arena.lemma_segments_fit();
            use_type_invariant(&other.segment);
            other.segment.arena.lemma_segments_fit();
        }
        let at_a = SegmentRef::new_unchecked(u29::new_unwrap(pa));
        let at_b = SegmentRef::new_unchecked(u29::new_unwrap(pb));
        let wa = self.segment.word(at_a);
        let wb = other.segment.word(at_b);
        if WirePtr::from_word(wa).is_null() && WirePtr::from_word(wb).is_null() {
            return Ok(PtrEquality::Equal);
        }
        let mut ca = *self;
        let mut cb = *other;
        let ta = match ca.try_read_typed(at_a) {
            Ok(t) => t,
            Err(e) => {
                return Err(e);
            },
        };
        let tb = match cb.try_read_typed(at_b) {
            Ok(t) => t,
            Err(e) => {
                return Err(e);
            },
        };
        proof {
            use_type_invariant(&ca.segment);
            ca.segment.arena.lemma_segments_fit();
            use_type_invariant(&cb.segment);
            cb.segment.arena.lemma_segments_fit();
        }
        let r = match ta {
            TypedContent::Struct(x) => match tb {
                TypedContent::Struct(y) => {
                    if nesting == 0 {
                        return Err(Error::from_kind(ErrorKind::NestingLimitExceeded));
                    }
                    ca.compare_struct(x.ptr.as_ptr(), x.size, &mut cb, y.ptr.as_ptr(), y.size, nesting - 1)
                },
                _ => Ok(PtrEquality::NotEqual),
            },
            TypedContent::List(x) => match tb {
                TypedContent::List(y) => {
                    if nesting == 0 {
                        return Err(Error::from_kind(ErrorKind::NestingLimitExceeded));
                    }
                    proof {
                        lemma_list_words(x.element_size, x.element_count@ as int);
                        lemma_list_words(y.element_size, y.element_count@ as int);
                    }
                    ca.compare_list(x.ptr.as_ptr(), x.element_size, x.element_count, &mut cb, y.ptr.as_ptr(), y.element_size, y.element_count, nesting - 1)
                },
                _ => Ok(PtrEquality::NotEqual),
            },
            TypedContent::Capability(_) => match tb {
                TypedContent::Capability(_) => Ok(PtrEquality::ContainsCaps),
                _ => Ok(PtrEquality::NotEqual),
            },
        };
        match r {
            Ok(e) => {
                self.take_limit(&ca);
                other.take_limit(&cb);
                Ok(e)
            },
            Err(e) => Err(e),
        }
    }

    /// Compares the `n` pointers at `a` of this reader's segment with the `n` pointers at `b` of
    /// `other`'s pairwise, stopping at the first pair that is not equal.
    pub fn compare_ptrs<'b, A2: ReadArena + ?Sized>(&mut self, a: u32, other: &mut ObjectReader<'b, A2>, b: u32, n: u32, nesting: u32) -> (r: Result<PtrEquality, Error>)
        requires
            a + n <= old(self).spec_words().len(),
            b + n <= old(other).spec_words().len(),
        ensures
            final(self).spec_segment() == old(self).spec_segment(),
            final(other).spec_segment() == old(other).spec_segment(),
            eq_result(
                spec_compare_ptrs(old(self).spec_segs(), old(self).spec_state(), a as int, old(other).spec_segs(), old(other).spec_state(), b as int, n as int, nesting as int),
                r,
                final(self).spec_limit(),
                final(other).spec_limit(),
            ),
        decreases nesting, 1int, n,
    {
        let ghost sa = self.spec_segs();
        let ghost sta = self.spec_state();
        let ghost sega = self.spec_segment();
        let ghost sb = other.spec_segs();
        let ghost stb = other.spec_state();
        let ghost segb = other.spec_segment();
        proof {
            use_type_invariant(&self.segment);
            self.segment.arena.lemma_segments_fit();
            use_type_invariant(&other.segment);
            other.segment.arena.lemma_segments_fit();
        }
        let mut acc = PtrEquality::Equal;
        let mut k: u32 = 0;
        while k < n
            invariant
                k <= n,
                sega.spec_words().len() <= u29_max(),
                segb.spec_words().len() <= u29_max(),
                self.spec_segment() == sega,
                other.spec_segment() == segb,
                sega == old(self).spec_segment(),
                segb == old(other).spec_segment(),
                sta == old(self).spec_state(),
                stb == old(other).spec_state(),
                sa == sega.spec_segs(),
                sb == segb.spec_segs(),
                sta.segment == sega.spec_id(),
                stb.segment == segb.spec_id(),
                a + n <= sega.spec_words().len(),
                b + n <= segb.spec_words().len(),
                acc != PtrEquality::NotEqual,
                spec_compare_ptrs(sa, sta, a as int, sb, stb, b as int, k as int, nesting as int) == EqRead::Done(self.spec_limit(), other.spec_limit(), acc),
            decreases n - k,
        {
            match self.compare_ptr(a + k, other, b + k, nesting) {
                Ok(PtrEquality::NotEqual) => {
                    proof {
                        lemma_compare_ptrs_prefix(sa, sta, a as int, sb, stb, b as int, k + 1, n as int, nesting as int);
                    }
                    return Ok(PtrEquality::NotEqual);
                },
                Ok(PtrEquality::ContainsCaps) => {
                    acc = PtrEquality::ContainsCaps;
                },
                Ok(PtrEquality::Equal) => {},
                Err(e) => {
                    proof {
                        lemma_compare_ptrs_prefix(sa, sta, a as int, sb, stb, b as int, k + 1, n as int, nesting as int);
                    }
                    return Err(e);
                },
            }
            k = k + 1;
        }
        Ok(acc)
    }

    /// Compares the struct of size `x` at `a` of this reader's segment with the struct of size
    /// `y` at `b` of `other`'s: their data sections, then as many of their pointers as both have.
    #[verifier::rlimit(50)]
    pub fn compare_struct<'b, A2: ReadArena + ?Sized>(&mut self, a: u32, x: StructSize, other: &mut ObjectReader<'b, A2>, b: u32, y: StructSize, nesting: u32) -> (r: Result<PtrEquality, Error>)
        requires
            a + x.spec_total() <= old(self).spec_words().len(),
            b + y.spec_total() <= old(other).spec_words().len(),
        ensures
            final(self).spec_segment() == old(self).spec_segment(),
            final(other).spec_segment() == old(other).spec_segment(),
            eq_result(
                spec_compare_struct(old(self).spec_segs(), old(self).spec_state(), a as int, x, old(other).spec_segs(), old(other).spec_state(), b as int, y, nesting as int),
                r,
                final(self).spec_limit(),
                final(other).spec_limit(),
            ),
        decreases nesting, 2int, 0int,
    {
        proof {
            use_type_invariant(&self.segment);
            self.segment.arena.lemma_segments_fit();
            use_type_invariant(&other.segment);
            other.segment.arena.lemma_segments_fit();
        }
        let wa = self.segment.words();
        let wb = other.segment.words();
        let da = &wa[a as usize..(a + x.data as u32) as usize];
        let db = &wb[b as usize..(b + y.data as u32) as usize];
        if x.data != y.data {
            proof {
                assert(words_bytes(da@).len() != words_bytes(db@).len());
            }
            return Ok(PtrEquality::NotEqual);
        }
        if !bytes_equal(da, db, 8 * x.data as usize) {
            return Ok(PtrEquality::NotEqual);
        }
        proof {
            assert(words_bytes(da@).take(8 * x.data) =~= words_bytes(da@));
            assert(words_bytes(db@).take(8 * x.data) =~= words_bytes(db@));
        }
        let n: u16 = if x.ptrs <= y.ptrs {
            x.ptrs
        } else {
            y.ptrs
        };
        self.compare_ptrs(a + x.data as u32, other, b + y.data as u32, n as u32, nesting)
    }

    /// Compares the `n` structs of size `x` at `a` of this reader's segment with the `n` structs
    /// of size `y` at `b` of `other`'s pairwise, stopping at the first pair that is not equal.
    pub fn compare_composites<'b, A2: ReadArena + ?Sized>(
        &mut self,
        a: u32,
        x: StructSize,
        other: &mut ObjectReader<'b, A2>,
        b: u32,
        y: StructSize,
        n: u32,
        nesting: u32,
    ) -> (r: Result<PtrEquality, Error>)
        requires
            a + n * x.spec_total() <= old(self).spec_words().len(),
            b + n * y.spec_total() <= old(other).spec_words().len(),
        ensures
            final(self).spec_segment() == old(self).spec_segment(),
            final(other).spec_segment() == old(other).spec_segment(),
            eq_result(
                spec_compare_composites(old(self).spec_segs(), old(self).spec_state(), a as int, x, old(other).spec_segs(), old(other).spec_state(), b as int, y, n as int, nesting as int),
                r,
                final(self).spec_limit(),
                final(other).spec_limit(),
            ),
        decreases nesting, 3int, n,
    {
        let ghost sa = self.spec_segs();
        let ghost sta = self.spec_state();
        let ghost sega = self.spec_segment();
        let ghost sb = other.spec_segs();
        let ghost stb = other.spec_state();
        let ghost segb = other.spec_segment();
        let tx = x.total();
        let ty = y.total();
        proof {
            use_type_invariant(&self.segment);
            self.segment.arena.lemma_segments_fit();
            use_type_invariant(&other.segment);
            other.segment.arena.lemma_segments_fit();
        }
        let mut acc = PtrEquality::Equal;
        let mut k: u32 = 0;
        while k < n
            invariant
                k <= n,
                sega.spec_words().len() <= u29_max(),
                segb.spec_words().len() <= u29_max(),
                tx == x.spec_total(),
                ty == y.spec_total(),
                self.spec_segment() == sega,
                other.spec_segment() == segb,
                sega == old(self).spec_segment(),
                segb == old(other).spec_segment(),
                sta == old(self).spec_state(),
                stb == old(other).spec_state(),
                sa == sega.spec_segs(),
                sb == segb.spec_segs(),
                sta.segment == sega.spec_id(),
                stb.segment == segb.spec_id(),
                a + n * x.spec_total() <= sega.spec_words().len(),
                b + n * y.spec_total() <= segb.spec_words().len(),
                acc != PtrEquality::NotEqual,
                spec_compare_composites(sa, sta, a as int, x, sb, stb, b as int, y, k as int, nesting as int) == EqRead::Done(self.spec_limit(), other.spec_limit(), acc),
            decreases n - k,
        {
            assert(k * tx + tx <= n * tx) by (nonlinear_arith)
                requires
                    k < n,
            ;
            assert(k * ty + ty <= n * ty) by (nonlinear_arith)
                requires
                    k < n,
            ;
            match self.compare_struct(a + k * tx, x, other, b + k * ty, y, nesting) {
                Ok(PtrEquality::NotEqual) => {
                    proof {
                        lemma_compare_composites_prefix(sa, sta, a as int, x, sb, stb, b as int, y, k + 1, n as int, nesting as int);
                    }
                    return Ok(PtrEquality::NotEqual);
                },
                Ok(PtrEquality::ContainsCaps) => {
                    acc = PtrEquality::ContainsCaps;
                },
                Ok(PtrEquality::Equal) => {},
                Err(e) => {
                    proof {
                        lemma_compare_composites_prefix(sa, sta, a as int, x, sb, stb, b as int, y, k + 1, n as int, nesting as int);
                    }
                    return Err(e);
                },
            }
            k = k + 1;
        }
        Ok(acc)
    }

    /// Compares the list of `n` elements of size `x` at `a` of this reader's segment with the
    /// list of `m` elements of size `y` at `b` of `other`'s.
    #[verifier::rlimit(40)]
    #[verifier::spinoff_prover]
    pub fn compare_list<'b, A2: ReadArena + ?Sized>(
        &mut self,
        a: u32,
        x: ElementSize,
        n: u29,
        other: &mut ObjectReader<'b, A2>,
        b: u32,
        y: ElementSize,
        m: u29,
        nesting: u32,
    ) -> (r: Result<PtrEquality, Error>)
        requires
            a + list_words(x, n@ as int) <= old(self).spec_words().len(),
            b + list_words(y, m@ as int) <= old(other).spec_words().len(),
        ensures
            final(self).spec_segment() == old(self).spec_segment(),
            final(other).spec_segment() == old(other).spec_segment(),
            eq_result(
                spec_compare_list(old(self).spec_segs(), old(self).spec_state(), a as int, x, n@ as int, old(other).spec_segs(), old(other).spec_state(), b as int, y, m@ as int, nesting as int),
                r,
                final(self).spec_limit(),
                final(other).spec_limit(),
            ),
        decreases nesting, 4int, 0int,
    {
        let count = n.get();
        let mcount = m.get();
        proof {
            use_type_invariant(&self.segment);
            self.segment.arena.lemma_segments_fit();
            use_type_invariant(&other.segment);
            other.segment.arena.lemma_segments_fit();
            lemma_list_words(x, n@ as int);
            lemma_list_words(y, m@ as int);
        }
        if count != mcount || x.as_ptr_size() != y.as_ptr_size() {
            return Ok(PtrEquality::NotEqual);
        }
        if count == 0 {
            return Ok(PtrEquality::Equal);
        }
        match x {
            ElementSize::Pointer => self.compare_ptrs(a, other, b, count, nesting),
            ElementSize::InlineComposite(xs) => match y {
                ElementSize::InlineComposite(ys) => self.compare_composites(a, xs, other, b, ys, count, nesting),
                _ => Ok(PtrEquality::NotEqual),
            },
            _ => {
                let words = x.total_words(n);
                let wa = self.segment.words();
                let wb = other.segment.words();
                let la = &wa[a as usize..(a + words) as usize];
                let lb = &wb[b as usize..(b + words) as usize];
                Ok(data_list_equality_exec(la, lb, x, n))
            },
        }
    }
}

} // verus!

verus! {

/// What a comparison gives: the outcome, or the error.
pub open spec fn eq_outcome(s: EqRead, r: Result<PtrEquality, Error>) -> bool {
    match s {
        EqRead::Done(_, _, e) => r == Ok::<PtrEquality, Error>(e),
        EqRead::Failed(err) => r == Err::<PtrEquality, Error>(err),
    }
}

/// Comparing two pointer readers: the pointers they read, followed at most as deep as the first
/// reader may go. A reader of no pointer at all equals exactly the null pointers.
pub open spec fn spec_ptr_equality<'a, 'b, A: ReadArena + ?Sized, A2: ReadArena + ?Sized>(x: PtrReader<'a, A>, y: PtrReader<'b, A2>) -> EqRead {
    match x.spec_ptr() {
        Some((pa, ra)) => match y.spec_ptr() {
            Some((pb, rb)) => spec_compare_ptr(
                ra.spec_segs(),
                ra.spec_state(),
                pa@,
                rb.spec_segs(),
                rb.spec_state(),
                pb@,
                x.spec_nesting_limit() as int,
            ),
            None => EqRead::Done(None, None, if parts_null(x.spec_parts()) {
                PtrEquality::Equal
            } else {
                PtrEquality::NotEqual
            }),
        },
        None => EqRead::Done(None, None, if parts_null(y.spec_parts()) {
            PtrEquality::Equal
        } else {
            PtrEquality::NotEqual
        }),
    }
}

/// A run of bytes without its trailing zero bytes.
pub open spec fn trim_zero_bytes(s: Seq<u8>) -> Seq<u8>
    decreases s.len(),
{
    if s.len() > 0 && s.last() == 0 {
        trim_zero_bytes(s.drop_last())
    } else {
        s
    }
}

/// The number of the `len` pointers at `start` left without the trailing null ones.
pub open spec fn trimmed_ptrs(ws: Seq<Word>, start: int, len: int) -> int
    decreases len,
{
    if len > 0 && crate::allocator::word_is_zero(ws[start + len - 1]) {
        trimmed_ptrs(ws, start, len - 1)
    } else {
        len
    }
}

/// The number of pointers of a struct reader left without the trailing null ones.
pub open spec fn struct_trimmed_ptrs<'a, A: ReadArena + ?Sized>(x: StructReader<'a, A>) -> int {
    match x.spec_reader() {
        Some(r) => trimmed_ptrs(r.spec_words(), x.spec_ptrs_start() as int, x.spec_ptrs_len() as int),
        None => 0,
    }
}

/// Comparing two struct readers: their data sections without trailing zero bytes, then their
/// pointer sections without trailing null pointers, pairwise.
pub open spec fn spec_struct_equality<'a, 'b, A: ReadArena + ?Sized, A2: ReadArena + ?Sized>(x: StructReader<'a, A>, y: StructReader<'b, A2>) -> EqRead {
    if trim_zero_bytes(words_bytes(x.spec_data())) != trim_zero_bytes(words_bytes(y.spec_data())) || struct_trimmed_ptrs(x)
        != struct_trimmed_ptrs(y) {
        EqRead::Done(None, None, PtrEquality::NotEqual)
    } else if struct_trimmed_ptrs(x) == 0 {
        EqRead::Done(None, None, PtrEquality::Equal)
    } else {
        match x.spec_reader() {
            Some(ra) => match y.spec_reader() {
                Some(rb) => spec_compare_ptrs(
                    ra.spec_segs(),
                    ra.spec_state(),
                    x.spec_ptrs_start() as int,
                    rb.spec_segs(),
                    rb.spec_state(),
                    y.spec_ptrs_start() as int,
                    struct_trimmed_ptrs(x),
                    x.spec_nesting_limit() as int,
                ),
                None => EqRead::Done(None, None, PtrEquality::NotEqual),
            },
            None => EqRead::Done(None, None, PtrEquality::NotEqual),
        }
    }
}

/// Comparing two list readers: their lengths, element sizes and elements.
pub open spec fn spec_list_equality<'a, 'b, A: ReadArena + ?Sized, A2: ReadArena + ?Sized>(x: ListReader<'a, A>, y: ListReader<'b, A2>) -> EqRead {
    match x.spec_reader() {
        Some(ra) => match y.spec_reader() {
            Some(rb) => spec_compare_list(
                ra.spec_segs(),
                ra.spec_state(),
                x.spec_start(),
                x.spec_element_size(),
                x.spec_len(),
                rb.spec_segs(),
                rb.spec_state(),
                y.spec_start(),
                y.spec_element_size(),
                y.spec_len(),
                x.spec_nesting_limit() as int,
            ),
            None => EqRead::Done(None, None, if x.spec_len() == y.spec_len() && spec_as_ptr_size(x.spec_element_size()) == spec_as_ptr_size(
                y.spec_element_size(),
            ) {
                PtrEquality::Equal
            } else {
                PtrEquality::NotEqual
            }),
        },
        None => EqRead::Done(None, None, if x.spec_len() == y.spec_len() && spec_as_ptr_size(x.spec_element_size()) == spec_as_ptr_size(
            y.spec_element_size(),
        ) {
            PtrEquality::Equal
        } else {
            PtrEquality::NotEqual
        }),
    }
}

/// The number of bytes of a run of words left without the trailing zero bytes.
fn trimmed_bytes(ws: &[Word]) -> (r: usize)
    requires
        ws@.len() <= u16::MAX,
    ensures
        r <= ws@.len() * 8,
        trim_zero_bytes(words_bytes(ws@)) == words_bytes(ws@).take(r as int),
{
    let mut k: usize = ws.len() * 8;
    assert(words_bytes(ws@).take(k as int) =~= words_bytes(ws@));
    while k > 0 && byte_at(ws, k - 1) == 0
        invariant
            k <= ws@.len() * 8,
            trim_zero_bytes(words_bytes(ws@)) == trim_zero_bytes(words_bytes(ws@).take(k as int)),
        decreases k,
    {
        assert(words_bytes(ws@).take(k as int).drop_last() =~= words_bytes(ws@).take(k - 1));
        k = k - 1;
    }
    k
}

impl<'a, A: ReadArena + ?Sized> ObjectReader<'a, A> {
    /// The number of the `len` pointers at `start` of the reader's segment left without the
    /// trailing null ones.
    fn trimmed_ptrs(&self, start: u32, len: u32) -> (r: u32)
        requires
            start + len <= self.spec_words().len(),
        ensures
            r == trimmed_ptrs(self.spec_words(), start as int, len as int),
            r <= len,
    {
        proof {
            use_type_invariant(&self.segment);
            self.segment.arena.lemma_segments_fit();
        }
        let mut j: u32 = len;
        while j > 0 && crate::clear::is_zero_word(self.segment.word(SegmentRef::new_unchecked(u29::new_unwrap(start + j - 1))))
            invariant
                j <= len,
                start + len <= self.spec_words().len(),
                self.spec_words().len() <= u29_max(),
                trimmed_ptrs(self.spec_words(), start as int, len as int) == trimmed_ptrs(self.spec_words(), start as int, j as int),
            decreases j,
        {
            j = j - 1;
        }
        j
    }
}

impl<'a, A: ReadArena + ?Sized> PtrReader<'a, A> {
    /// Compares what this pointer refers to with what `other` refers to: whether they are equal,
    /// not equal, or equal but for capabilities that cannot be compared.
    pub fn equality<'b, A2: ReadArena + ?Sized>(&self, other: &PtrReader<'b, A2>) -> (r: Result<PtrEquality, Error>)
        ensures
            eq_outcome(spec_ptr_equality(*self, *other), r),
    {
        proof {
            use_type_invariant(self);
            use_type_invariant(other);
        }
        match self.ptr {
            Some((pa, ra)) => match other.ptr {
                Some((pb, rb)) => {
                    let mut ra = ra;
                    let mut rb = rb;
                    ra.compare_ptr(pa.as_ptr(), &mut rb, pb.as_ptr(), self.nesting_limit)
                },
                None => if self.is_null() {
                    Ok(PtrEquality::Equal)
                } else {
                    Ok(PtrEquality::NotEqual)
                },
            },
            None => if other.is_null() {
                Ok(PtrEquality::Equal)
            } else {
                Ok(PtrEquality::NotEqual)
            },
        }
    }
}

impl<'a, A: ReadArena + ?Sized> StructReader<'a, A> {
    /// The number of pointers left without the trailing null ones.
    fn trimmed_ptr_count(&self) -> (r: u32)
        ensures
            r == struct_trimmed_ptrs(*self),
            r <= self.spec_ptrs_len(),
    {
        proof {
            use_type_invariant(self);
        }
        match &self.reader {
            Some(rd) => rd.trimmed_ptrs(self.ptrs_start, self.ptrs_len as u32),
            None => 0,
        }
    }

    /// Compares this struct with `other`: data sections without trailing zero bytes, then
    /// pointer sections without trailing null pointers, pairwise.
    pub fn equality<'b, A2: ReadArena + ?Sized>(&self, other: &StructReader<'b, A2>) -> (r: Result<PtrEquality, Error>)
        ensures
            eq_outcome(spec_struct_equality(*self, *other), r),
    {
        proof {
            use_type_invariant(self);
            use_type_invariant(other);
        }
        let ka = trimmed_bytes(self.data);
        let kb = trimmed_bytes(other.data);
        proof {
            assert(words_bytes(self.data@).take(ka as int).len() == ka);
            assert(words_bytes(other.data@).take(kb as int).len() == kb);
        }
        if ka != kb {
            return Ok(PtrEquality::NotEqual);
        }
        if !bytes_equal(self.data, other.data, ka) {
            return Ok(PtrEquality::NotEqual);
        }
        let na = self.trimmed_ptr_count();
        let nb = other.trimmed_ptr_count();
        if na != nb {
            return Ok(PtrEquality::NotEqual);
        }
        if na == 0 {
            return Ok(PtrEquality::Equal);
        }
        match self.reader {
            Some(ra) => match other.reader {
                Some(rb) => {
                    let mut ra = ra;
                    let mut rb = rb;
                    ra.compare_ptrs(self.ptrs_start, &mut rb, other.ptrs_start, na, self.nesting_limit)
                },
                None => Ok(PtrEquality::NotEqual),
            },
            None => Ok(PtrEquality::NotEqual),
        }
    }
}

impl<'a, A: ReadArena + ?Sized> ListReader<'a, A> {
    /// Compares this list with `other`: their lengths, element sizes and elements.
    pub fn equality<'b, A2: ReadArena + ?Sized>(&self, other: &ListReader<'b, A2>) -> (r: Result<PtrEquality, Error>)
        ensures
            eq_outcome(spec_list_equality(*self, *other), r),
    {
        proof {
            use_type_invariant(self);
            use_type_invariant(other);
        }
        match self.reader {
            Some(ra) => match other.reader {
                Some(rb) => {
                    let mut ra = ra;
                    let mut rb = rb;
                    ra.compare_list(self.ptr, self.element_size, self.element_count, &mut rb, other.ptr, other.element_size, other.element_count, self.nesting_limit)
                },
                None => if self.element_count.get() == other.element_count.get() && self.element_size.as_ptr_size() == other.element_size.as_ptr_size() {
                    Ok(PtrEquality::Equal)
                } else {
                    Ok(PtrEquality::NotEqual)
                },
            },
            None => if self.element_count.get() == other.element_count.get() && self.element_size.as_ptr_size() == other.element_size.as_ptr_size() {
                Ok(PtrEquality::Equal)
            } else {
                Ok(PtrEquality::NotEqual)
            },
        }
    }
}

} // verus!

verus! {

/// The larger of two struct sizes holds both: its data and pointer sections are at least as
/// large as each one's, and it is the smallest size that holds both.
pub proof fn lemma_struct_max_holds_both(a: StructSize, b: StructSize, c: StructSize)
    ensures
        a.data <= spec_struct_max(a, b).data && a.ptrs <= spec_struct_max(a, b).ptrs,
        b.data <= spec_struct_max(a, b).data && b.ptrs <= spec_struct_max(a, b).ptrs,
        a.data <= c.data && a.ptrs <= c.ptrs && b.data <= c.data && b.ptrs <= c.ptrs ==> spec_struct_max(a, b).data
            <= c.data && spec_struct_max(a, b).ptrs <= c.ptrs,
{
}

/// Upgrading a list of structs to hold structs of another size gives a list of structs whose
/// size holds both sizes, and no larger one than needed.
pub proof fn lemma_upgrade_structs_hold_both(x: StructSize, y: StructSize, c: StructSize)
    ensures
        spec_upgrade(ElementSize::InlineComposite(x), ElementSize::InlineComposite(y)) matches Some(ElementSize::InlineComposite(z))
            && x.data <= z.data && x.ptrs <= z.ptrs && y.data <= z.data && y.ptrs <= z.ptrs && (x.data <= c.data && x.ptrs
            <= c.ptrs && y.data <= c.data && y.ptrs <= c.ptrs ==> z.data <= c.data && z.ptrs <= c.ptrs),
{
}

/// The words measured for a list of data elements (not pointers, not structs) are the fewest
/// words that hold its elements' bits, and it holds no capabilities.
pub proof fn lemma_data_list_measured(segs: Seq<Seq<Word>>, st: ReadState, src: int, nesting: int)
    requires
        spec_read_typed(segs, st, src) matches Ok((_, TypedRead::List { size, .. })) && !(size is Pointer) && !(
        size is InlineComposite),
    ensures
        spec_read_typed(segs, st, src) matches Ok((st1, TypedRead::List { size, count, .. })) && spec_target_size(
            segs,
            st,
            src,
            nesting,
        ) matches SizeRead::Size(l, w, c) && l == st1.limit && c == 0 && w * 64 >= spec_bits(size) * count && w * 64
            < spec_bits(size) * count + 64,
{
    if let Ok((st1, TypedRead::List { start, size, count })) = spec_read_typed(segs, st, src) {
        assert(count >= 0);
        assert(spec_bits(size) * count >= 0) by (nonlinear_arith)
            requires
                spec_bits(size) >= 0,
                count >= 0,
        ;
    }
}

/// Byte `k` of the data of a list whose first word is at `start` of the words `ws`.
pub open spec fn list_byte(ws: Seq<Word>, start: int, k: int) -> u8 {
    ws[start + k / 8].0@[k % 8]
}

/// Two lists of the same number of data elements of the same byte-sized kind compare equal
/// exactly when every byte of every element is equal; they are never found to hold
/// capabilities, and comparing them reads nothing more.
pub proof fn lemma_data_lists_compare_bytes(
    sa: Seq<Seq<Word>>,
    sta: ReadState,
    a: int,
    sb: Seq<Seq<Word>>,
    stb: ReadState,
    b: int,
    x: ElementSize,
    n: int,
    nesting: int,
)
    requires
        x is Byte || x is TwoBytes || x is FourBytes || x is EightBytes,
        0 < n,
        0 <= a,
        0 <= b,
        a + list_words(x, n) <= sa[sta.segment as int].len(),
        b + list_words(x, n) <= sb[stb.segment as int].len(),
    ensures
        spec_compare_list(sa, sta, a, x, n, sb, stb, b, x, n, nesting) matches EqRead::Done(la, lb, e) && la == sta.limit
            && lb == stb.limit && e != PtrEquality::ContainsCaps && (e == PtrEquality::Equal <==> forall|k: int|
            0 <= k < spec_bits(x) * n / 8 ==> #[trigger] list_byte(sa[sta.segment as int], a, k) == list_byte(
                sb[stb.segment as int],
                b,
                k,
            )),
{
    let wa = sa[sta.segment as int].subrange(a, a + list_words(x, n));
    let wb = sb[stb.segment as int].subrange(b, b + list_words(x, n));
    let len = spec_bits(x) * n / 8;
    let t = spec_bits(x) * n;
    assert(t >= 0) by (nonlinear_arith)
        requires
            t == spec_bits(x) * n,
            spec_bits(x) >= 0,
            n >= 0,
    ;
    assert(len <= ((t + 63) / 64) * 8);
    assert(wa.len() == (t + 63) / 64);
    assert forall|k: int| 0 <= k < len implies words_bytes(wa).take(len)[k] == list_byte(sa[sta.segment as int], a, k)
        && words_bytes(wb).take(len)[k] == list_byte(sb[stb.segment as int], b, k) by {
        assert(k / 8 < wa.len());
    }
    if forall|k: int| 0 <= k < len ==> #[trigger] list_byte(sa[sta.segment as int], a, k) == list_byte(sb[stb.segment as int], b, k) {
        assert(words_bytes(wa).take(len) =~= words_bytes(wb).take(len));
    } else {
        let k = choose|k: int| 0 <= k < len && #[trigger] list_byte(sa[sta.segment as int], a, k) != list_byte(sb[stb.segment as int], b, k);
        assert(words_bytes(wa).take(len)[k] != words_bytes(wb).take(len)[k]);
    }
}

} // verus!

verus! {

/// Bit `i` of the data of a list whose first word is at `start` of the words `ws`: bit `i % 8`
/// of byte `i / 8`.
pub open spec fn list_bit(ws: Seq<Word>, start: int, i: int) -> u8 {
    (list_byte(ws, start, i / 8) >> ((i % 8) as u8)) & 1u8
}

/// The bits `0..p` of two bytes are equal.
pub open spec fn low_bits_equal(x: u8, y: u8, p: int) -> bool {
    forall|j: int| 0 <= j < p ==> #[trigger] ((x >> (j as u8)) & 1u8) == ((y >> (j as u8)) & 1u8)
}

/// Two bytes are equal exactly when their eight bits are.
proof fn lemma_byte_bits(x: u8, y: u8)
    ensures
        x == y <==> low_bits_equal(x, y, 8),
{
    assert(x == y <==> (x & 1u8) == (y & 1u8) && ((x >> 1u8) & 1u8) == ((y >> 1u8) & 1u8) && ((x >> 2u8) & 1u8) == ((y >> 2u8)
        & 1u8) && ((x >> 3u8) & 1u8) == ((y >> 3u8) & 1u8) && ((x >> 4u8) & 1u8) == ((y >> 4u8) & 1u8) && ((x >> 5u8) & 1u8)
        == ((y >> 5u8) & 1u8) && ((x >> 6u8) & 1u8) == ((y >> 6u8) & 1u8) && ((x >> 7u8) & 1u8) == ((y >> 7u8) & 1u8))
        by (bit_vector);
    assert((x >> 0u8) == x) by (bit_vector);
    assert((y >> 0u8) == y) by (bit_vector);
    if x == y {
    } else {
        if low_bits_equal(x, y, 8) {
            assert(((x >> (0int as u8)) & 1u8) == ((y >> (0int as u8)) & 1u8));
            assert(((x >> (1int as u8)) & 1u8) == ((y >> (1int as u8)) & 1u8));
            assert(((x >> (2int as u8)) & 1u8) == ((y >> (2int as u8)) & 1u8));
            assert(((x >> (3int as u8)) & 1u8) == ((y >> (3int as u8)) & 1u8));
            assert(((x >> (4int as u8)) & 1u8) == ((y >> (4int as u8)) & 1u8));
            assert(((x >> (5int as u8)) & 1u8) == ((y >> (5int as u8)) & 1u8));
            assert(((x >> (6int as u8)) & 1u8) == ((y >> (6int as u8)) & 1u8));
            assert(((x >> (7int as u8)) & 1u8) == ((y >> (7int as u8)) & 1u8));
        }
    }
}

/// Two bytes agree under the mask of their low `p` bits exactly when those bits are equal.
proof fn lemma_masked_bits(x: u8, y: u8, p: int)
    requires
        1 <= p <= 7,
    ensures
        (x & low_mask(p)) == (y & low_mask(p)) <==> low_bits_equal(x, y, p),
{
    let q = p as u8;
    let s = (8 - p) as u8;
    assert(low_mask(p) == 255u8 >> s);
    assert(1u8 <= q <= 7u8 && q + s == 8 ==> ((x & (255u8 >> s)) == (y & (255u8 >> s)) <==> ((x & 1u8) == (y & 1u8)
        && (q > 1u8 ==> ((x >> 1u8) & 1u8) == ((y >> 1u8) & 1u8)) && (q > 2u8 ==> ((x >> 2u8) & 1u8) == ((y >> 2u8) & 1u8))
        && (q > 3u8 ==> ((x >> 3u8) & 1u8) == ((y >> 3u8) & 1u8)) && (q > 4u8 ==> ((x >> 4u8) & 1u8) == ((y >> 4u8) & 1u8))
        && (q > 5u8 ==> ((x >> 5u8) & 1u8) == ((y >> 5u8) & 1u8)) && (q > 6u8 ==> ((x >> 6u8) & 1u8) == ((y >> 6u8) & 1u8)))))
        by (bit_vector);
    assert((x >> 0u8) == x) by (bit_vector);
    assert((y >> 0u8) == y) by (bit_vector);
    if low_bits_equal(x, y, p) {
        assert(((x >> (0int as u8)) & 1u8) == ((y >> (0int as u8)) & 1u8));
        if p > 1 { assert(((x >> (1int as u8)) & 1u8) == ((y >> (1int as u8)) & 1u8)); }
        if p > 2 { assert(((x >> (2int as u8)) & 1u8) == ((y >> (2int as u8)) & 1u8)); }
        if p > 3 { assert(((x >> (3int as u8)) & 1u8) == ((y >> (3int as u8)) & 1u8)); }
        if p > 4 { assert(((x >> (4int as u8)) & 1u8) == ((y >> (4int as u8)) & 1u8)); }
        if p > 5 { assert(((x >> (5int as u8)) & 1u8) == ((y >> (5int as u8)) & 1u8)); }
        if p > 6 { assert(((x >> (6int as u8)) & 1u8) == ((y >> (6int as u8)) & 1u8)); }
    }
    if (x & low_mask(p)) == (y & low_mask(p)) {
        assert forall|j: int| 0 <= j < p implies #[trigger] ((x >> (j as u8)) & 1u8) == ((y >> (j as u8)) & 1u8) by {
            if j == 0 {
                assert((j as u8) == 0u8);
            }
        }
    }
}

/// Two lists of the same number of bits compare equal exactly when every bit is equal; they
/// are never found to hold capabilities, and comparing them reads nothing more.
pub proof fn lemma_bit_lists_compare_bits(
    sa: Seq<Seq<Word>>,
    sta: ReadState,
    a: int,
    sb: Seq<Seq<Word>>,
    stb: ReadState,
    b: int,
    n: int,
    nesting: int,
)
    requires
        0 < n,
        0 <= a,
        0 <= b,
        a + list_words(ElementSize::Bit, n) <= sa[sta.segment as int].len(),
        b + list_words(ElementSize::Bit, n) <= sb[stb.segment as int].len(),
    ensures
        spec_compare_list(sa, sta, a, ElementSize::Bit, n, sb, stb, b, ElementSize::Bit, n, nesting) matches EqRead::Done(
            la,
            lb,
            e,
        ) && la == sta.limit && lb == stb.limit && e != PtrEquality::ContainsCaps && (e == PtrEquality::Equal <==> forall|i: int|
            0 <= i < n ==> #[trigger] list_bit(sa[sta.segment as int], a, i) == list_bit(sb[stb.segment as int], b, i)),
{
    let ua = sa[sta.segment as int];
    let ub = sb[stb.segment as int];
    let x = ElementSize::Bit;
    let wa = ua.subrange(a, a + list_words(x, n));
    let wb = ub.subrange(b, b + list_words(x, n));
    let full = n / 8;
    let p = n % 8;
    assert(spec_bits(x) * n == n);
    assert(wa.len() == (n + 63) / 64);
    assert(full * 8 + p == n);
    assert forall|k: int| 0 <= k < full + (if p == 0 { 0int } else { 1int }) implies #[trigger] words_bytes(wa)[k] == list_byte(
        ua,
        a,
        k,
    ) && words_bytes(wb)[k] == list_byte(ub, b, k) by {
        assert(k / 8 < wa.len());
    }
    let all = forall|i: int| 0 <= i < n ==> #[trigger] list_bit(ua, a, i) == list_bit(ub, b, i);
    if all {
        assert forall|k: int| 0 <= k < full implies #[trigger] list_byte(ua, a, k) == list_byte(ub, b, k) by {
            assert forall|j: int| 0 <= j < 8 implies #[trigger] ((list_byte(ua, a, k) >> (j as u8)) & 1u8) == ((list_byte(ub, b, k)
                >> (j as u8)) & 1u8) by {
                let i = 8 * k + j;
                assert(i / 8 == k && i % 8 == j);
                assert(list_bit(ua, a, i) == list_bit(ub, b, i));
            }
            lemma_byte_bits(list_byte(ua, a, k), list_byte(ub, b, k));
        }
        assert forall|k: int| 0 <= k < full implies words_bytes(wa).take(full)[k] == words_bytes(wb).take(full)[k] by {
            assert(list_byte(ua, a, k) == list_byte(ub, b, k));
        }
        assert(words_bytes(wa).take(full) =~= words_bytes(wb).take(full));
        if p != 0 {
            assert forall|j: int| 0 <= j < p implies #[trigger] ((list_byte(ua, a, full) >> (j as u8)) & 1u8) == ((list_byte(ub, b, full)
                >> (j as u8)) & 1u8) by {
                let i = 8 * full + j;
                assert(i / 8 == full && i % 8 == j);
                assert(list_bit(ua, a, i) == list_bit(ub, b, i));
            }
            lemma_masked_bits(list_byte(ua, a, full), list_byte(ub, b, full), p);
        }
        assert(bits_equal(wa, wb, n));
    } else {
        let i = choose|i: int| 0 <= i < n && #[trigger] list_bit(ua, a, i) != list_bit(ub, b, i);
        let k = i / 8;
        let j = i % 8;
        if bits_equal(wa, wb, n) {
            if k < full {
                assert(words_bytes(wa).take(full)[k] == words_bytes(wb).take(full)[k]);
                lemma_byte_bits(list_byte(ua, a, k), list_byte(ub, b, k));
                assert(((list_byte(ua, a, k) >> (j as u8)) & 1u8) == ((list_byte(ub, b, k) >> (j as u8)) & 1u8));
            } else {
                assert(k == full && p != 0 && j < p);
                lemma_masked_bits(list_byte(ua, a, full), list_byte(ub, b, full), p);
                assert(((list_byte(ua, a, k) >> (j as u8)) & 1u8) == ((list_byte(ub, b, k) >> (j as u8)) & 1u8));
            }
            assert(false);
        }
    }
}

/// Lists of different lengths or element kinds are not equal; empty lists of one kind, and
/// lists of void elements of one length, are equal; none of these reads anything.
pub proof fn lemma_lists_compare_shape(
    sa: Seq<Seq<Word>>,
    sta: ReadState,
    a: int,
    x: ElementSize,
    n: int,
    sb: Seq<Seq<Word>>,
    stb: ReadState,
    b: int,
    y: ElementSize,
    m: int,
    nesting: int,
)
    ensures
        n != m || spec_as_ptr_size(x) != spec_as_ptr_size(y) ==> spec_compare_list(sa, sta, a, x, n, sb, stb, b, y, m, nesting)
            == EqRead::Done(sta.limit, stb.limit, PtrEquality::NotEqual),
        n == m && spec_as_ptr_size(x) == spec_as_ptr_size(y) && (n == 0 || x is Void) ==> spec_compare_list(
            sa,
            sta,
            a,
            x,
            n,
            sb,
            stb,
            b,
            y,
            m,
            nesting,
        ) == EqRead::Done(sta.limit, stb.limit, PtrEquality::Equal),
{
}

/// Measuring pointers gives no negative counts.
proof fn lemma_target_size_nonneg(segs: Seq<Seq<Word>>, st: ReadState, src: int, nesting: int)
    ensures
        spec_target_size(segs, st, src, nesting) matches SizeRead::Size(_, w, c) ==> 0 <= w <= u64::MAX && 0 <= c <= u32::MAX,
        st.limit is None ==> (spec_target_size(segs, st, src, nesting) matches SizeRead::Size(l, _, _) ==> l is None),
    decreases nesting, 0int, 0int,
{
    match spec_read_typed(segs, st, src) {
        Ok((st1, TypedRead::Struct { start, size })) => {
            if nesting > 0 {
                lemma_ptrs_size_nonneg(segs, st1, start + size.data, size.ptrs as int, nesting - 1);
            }
        },
        Ok((st1, TypedRead::List { start, size, count })) => {
            assert(spec_bits(size) * count >= 0) by (nonlinear_arith)
                requires
                    spec_bits(size) >= 0,
                    count >= 0,
            ;
            if !(size is InlineComposite) {
                assert(count <= u32::MAX);
                assert(spec_bits(size) * count <= 64 * u32::MAX) by (nonlinear_arith)
                    requires
                        0 <= spec_bits(size) <= 64,
                        0 <= count <= u32::MAX,
                ;
            }
            if nesting > 0 {
                match size {
                    ElementSize::InlineComposite(s) => lemma_composites_size_nonneg(segs, st1, start, s, count, nesting - 1),
                    ElementSize::Pointer => lemma_ptrs_size_nonneg(segs, st1, start, count, nesting - 1),
                    _ => {},
                }
            }
        },
        _ => {},
    }
}

/// The same for runs of pointers.
proof fn lemma_ptrs_size_nonneg(segs: Seq<Seq<Word>>, st: ReadState, start: int, len: int, nesting: int)
    ensures
        spec_ptrs_size(segs, st, start, len, nesting) matches SizeRead::Size(_, w, c) ==> 0 <= w <= u64::MAX && 0 <= c <= u32::MAX,
        st.limit is None ==> (spec_ptrs_size(segs, st, start, len, nesting) matches SizeRead::Size(l, _, _) ==> l is None),
    decreases nesting, 1int, len,
{
    if len > 0 {
        lemma_ptrs_size_nonneg(segs, st, start, len - 1, nesting);
        if let SizeRead::Size(l, w, c) = spec_ptrs_size(segs, st, start, len - 1, nesting) {
            lemma_target_size_nonneg(segs, ReadState { segment: st.segment, limit: l }, start + len - 1, nesting);
        }
    }
}

/// The same for the structs of a struct list.
proof fn lemma_composites_size_nonneg(segs: Seq<Seq<Word>>, st: ReadState, start: int, size: StructSize, count: int, nesting: int)
    ensures
        spec_composites_size(segs, st, start, size, count, nesting) matches SizeRead::Size(_, w, c) ==> 0 <= w <= u64::MAX && 0 <= c
            <= u32::MAX,
        st.limit is None ==> (spec_composites_size(segs, st, start, size, count, nesting) matches SizeRead::Size(l, _, _) ==> l is None),
    decreases nesting, 2int, count,
{
    if count > 0 {
        lemma_composites_size_nonneg(segs, st, start, size, count - 1, nesting);
        if let SizeRead::Size(l, w, c) = spec_composites_size(segs, st, start, size, count - 1, nesting) {
            lemma_ptrs_size_nonneg(
                segs,
                ReadState { segment: st.segment, limit: l },
                start + (count - 1) * size.spec_total() + size.data,
                size.ptrs as int,
                nesting,
            );
        }
    }
}

/// Null pointers measure nothing.
proof fn lemma_null_ptrs_size(segs: Seq<Seq<Word>>, st: ReadState, start: int, len: int, nesting: int)
    requires
        forall|k: int| 0 <= k < len ==> parts_null(parts_of(#[trigger] segs[st.segment as int][start + k])),
    ensures
        spec_ptrs_size(segs, st, start, len, nesting) == SizeRead::Size(st.limit, 0, 0),
    decreases len,
{
    if len > 0 {
        lemma_null_ptrs_size(segs, st, start, len - 1, nesting);
        assert(parts_null(parts_of(segs[st.segment as int][start + (len - 1)])));
    }
}

/// The structs of a struct list whose pointers are all null measure nothing beyond themselves.
proof fn lemma_null_composites_size(segs: Seq<Seq<Word>>, st: ReadState, start: int, size: StructSize, count: int, nesting: int)
    requires
        forall|e: int, k: int|
            0 <= e < count && 0 <= k < size.ptrs ==> parts_null(
                parts_of(#[trigger] segs[st.segment as int][start + e * size.spec_total() + size.data + k]),
            ),
    ensures
        spec_composites_size(segs, st, start, size, count, nesting) == SizeRead::Size(st.limit, 0, 0),
    decreases count,
{
    if count > 0 {
        lemma_null_composites_size(segs, st, start, size, count - 1, nesting);
        let base = start + (count - 1) * size.spec_total() + size.data;
        assert forall|k: int| 0 <= k < size.ptrs implies parts_null(parts_of(#[trigger] segs[st.segment as int][base + k])) by {
            assert(segs[st.segment as int][base + k] == segs[st.segment as int][start + (count - 1) * size.spec_total() + size.data + k]);
        }
        lemma_null_ptrs_size(segs, st, base, size.ptrs as int, nesting);
    }
}

/// What a pointer measures: a capability one capability and no words; a struct (within the
/// nesting limit) at least its own words, and exactly them when its pointers are all null; a
/// list of pointers or of structs at least its own words (with the tag of a struct list), and
/// exactly them when the pointers in it are all null.
pub proof fn lemma_target_size_of(segs: Seq<Seq<Word>>, st: ReadState, src: int, nesting: int)
    ensures
        spec_read_typed(segs, st, src) matches Ok((st1, TypedRead::Capability { .. })) ==> spec_target_size(segs, st, src, nesting)
            == SizeRead::Size(st1.limit, 0, 1),
        spec_read_typed(segs, st, src) matches Ok((st1, TypedRead::Struct { start, size })) ==> {
            &&& nesting <= 0 ==> spec_target_size(segs, st, src, nesting) == SizeRead::Failed(
                Error { kind: ErrorKind::NestingLimitExceeded },
            )
            &&& spec_target_size(segs, st, src, nesting) matches SizeRead::Size(_, w, _) ==> w >= size.spec_total()
            &&& nesting > 0 && (forall|k: int|
                0 <= k < size.ptrs ==> parts_null(parts_of(#[trigger] segs[st1.segment as int][start + size.data + k])))
                ==> spec_target_size(segs, st, src, nesting) == SizeRead::Size(st1.limit, size.spec_total(), 0)
        },
        spec_read_typed(segs, st, src) matches Ok((st1, TypedRead::List { start, size: ElementSize::Pointer, count })) ==> {
            &&& spec_target_size(segs, st, src, nesting) matches SizeRead::Size(_, w, _) ==> w >= count
            &&& nesting > 0 && (forall|k: int| 0 <= k < count ==> parts_null(parts_of(#[trigger] segs[st1.segment as int][start + k])))
                ==> spec_target_size(segs, st, src, nesting) == SizeRead::Size(st1.limit, count, 0)
        },
        spec_read_typed(segs, st, src) matches Ok((st1, TypedRead::List { start, size: ElementSize::InlineComposite(s), count }))
            ==> {
            &&& spec_target_size(segs, st, src, nesting) matches SizeRead::Size(_, w, _) ==> w >= count * s.spec_total() + 1
            &&& nesting > 0 && (forall|e: int, k: int|
                0 <= e < count && 0 <= k < s.ptrs ==> parts_null(
                    parts_of(#[trigger] segs[st1.segment as int][start + e * s.spec_total() + s.data + k]),
                )) ==> spec_target_size(segs, st, src, nesting) == SizeRead::Size(st1.limit, count * s.spec_total() + 1, 0)
        },
{
    match spec_read_typed(segs, st, src) {
        Ok((st1, TypedRead::Struct { start, size })) => {
            if nesting > 0 {
                lemma_ptrs_size_nonneg(segs, st1, start + size.data, size.ptrs as int, nesting - 1);
                if forall|k: int| 0 <= k < size.ptrs ==> parts_null(parts_of(#[trigger] segs[st1.segment as int][start + size.data + k])) {
                    lemma_null_ptrs_size(segs, st1, start + size.data, size.ptrs as int, nesting - 1);
                }
            }
        },
        Ok((st1, TypedRead::List { start, size, count })) => {
            assert(count >= 0);
            lemma_list_words_any(size, count);
            if nesting > 0 {
                match size {
                    ElementSize::InlineComposite(s) => {
                        lemma_composites_size_nonneg(segs, st1, start, s, count, nesting - 1);
                        if forall|e: int, k: int|
                            0 <= e < count && 0 <= k < s.ptrs ==> parts_null(
                                parts_of(#[trigger] segs[st1.segment as int][start + e * s.spec_total() + s.data + k]),
                            ) {
                            lemma_null_composites_size(segs, st1, start, s, count, nesting - 1);
                        }
                    },
                    ElementSize::Pointer => {
                        lemma_ptrs_size_nonneg(segs, st1, start, count, nesting - 1);
                        if forall|k: int| 0 <= k < count ==> parts_null(parts_of(#[trigger] segs[st1.segment as int][start + k])) {
                            lemma_null_ptrs_size(segs, st1, start, count, nesting - 1);
                        }
                    },
                    _ => {},
                }
            }
        },
        _ => {},
    }
}

/// The words of a list of pointers are its count, and those of a struct list its count times
/// the struct's words.
proof fn lemma_list_words_any(size: ElementSize, count: int)
    requires
        count >= 0,
    ensures
        size is Pointer ==> (spec_bits(size) * count + 63) / 64 == count,
        size matches ElementSize::InlineComposite(s) ==> (spec_bits(size) * count + 63) / 64 == count * s.spec_total(),
{
    match size {
        ElementSize::InlineComposite(s) => {
            assert((s.spec_total() * 64 * count + 63) / 64 == count * s.spec_total()) by (nonlinear_arith)
                requires
                    s.spec_total() >= 0,
                    count >= 0,
            ;
        },
        _ => {},
    }
}

/// Structs whose data sections differ in size or in any byte are not equal, and comparing them
/// then reads nothing more; structs found equal have data sections of one size and the same bytes.
pub proof fn lemma_struct_data_compared(
    sa: Seq<Seq<Word>>,
    sta: ReadState,
    a: int,
    x: StructSize,
    sb: Seq<Seq<Word>>,
    stb: ReadState,
    b: int,
    y: StructSize,
    nesting: int,
)
    requires
        0 <= a,
        0 <= b,
        a + x.data <= sa[sta.segment as int].len(),
        b + y.data <= sb[stb.segment as int].len(),
    ensures
        x.data != y.data || (exists|k: int| 0 <= k < 8 * x.data && #[trigger] list_byte(sa[sta.segment as int], a, k) != list_byte(
            sb[stb.segment as int],
            b,
            k,
        )) ==> spec_compare_struct(sa, sta, a, x, sb, stb, b, y, nesting) == EqRead::Done(
            sta.limit,
            stb.limit,
            PtrEquality::NotEqual,
        ),
        spec_compare_struct(sa, sta, a, x, sb, stb, b, y, nesting) matches EqRead::Done(_, _, e) && e != PtrEquality::NotEqual
            ==> x.data == y.data && forall|k: int| 0 <= k < 8 * x.data ==> #[trigger] list_byte(sa[sta.segment as int], a, k)
            == list_byte(sb[stb.segment as int], b, k),
{
    let da = words_bytes(sa[sta.segment as int].subrange(a, a + x.data));
    let db = words_bytes(sb[stb.segment as int].subrange(b, b + y.data));
    assert forall|k: int| 0 <= k < 8 * x.data implies #[trigger] da[k] == list_byte(sa[sta.segment as int], a, k) by {}
    assert forall|k: int| 0 <= k < 8 * y.data implies #[trigger] db[k] == list_byte(sb[stb.segment as int], b, k) by {}
    if x.data != y.data {
        assert(da.len() != db.len());
    } else if exists|k: int| 0 <= k < 8 * x.data && #[trigger] list_byte(sa[sta.segment as int], a, k) != list_byte(
        sb[stb.segment as int],
        b,
        k,
    ) {
        let k = choose|k: int| 0 <= k < 8 * x.data && #[trigger] list_byte(sa[sta.segment as int], a, k) != list_byte(
            sb[stb.segment as int],
            b,
            k,
        );
        assert(da[k] != db[k]);
    }
    if da == db {
        assert forall|k: int| 0 <= k < 8 * x.data implies #[trigger] list_byte(sa[sta.segment as int], a, k) == list_byte(
            sb[stb.segment as int],
            b,
            k,
        ) by {
            assert(da[k] == db[k]);
        }
    }
}

/// Comparison is reflexive: what a pointer refers to is never found not equal to itself, and
/// both readers are left with the same limit.
pub proof fn lemma_compare_ptr_reflexive(s: Seq<Seq<Word>>, st: ReadState, p: int, nesting: int)
    ensures
        spec_compare_ptr(s, st, p, s, st, p, nesting) matches EqRead::Done(la, lb, e) ==> la == lb && e != PtrEquality::NotEqual,
    decreases nesting, 0int, 0int,
{
    if !parts_null(parts_of(s[st.segment as int][p])) {
        if let Ok((st1, t)) = spec_read_typed(s, st, p) {
            match t {
                TypedRead::Struct { start, size } => {
                    if nesting > 0 {
                        lemma_compare_struct_reflexive(s, st1, start, size, nesting - 1);
                    }
                },
                TypedRead::List { start, size, count } => {
                    if nesting > 0 {
                        lemma_compare_list_reflexive(s, st1, start, size, count, nesting - 1);
                    }
                },
                _ => {},
            }
        }
    }
}

/// The same for runs of pointers.
proof fn lemma_compare_ptrs_reflexive(s: Seq<Seq<Word>>, st: ReadState, a: int, n: int, nesting: int)
    ensures
        spec_compare_ptrs(s, st, a, s, st, a, n, nesting) matches EqRead::Done(la, lb, e) ==> la == lb && e != PtrEquality::NotEqual,
    decreases nesting, 1int, n,
{
    if n > 0 {
        lemma_compare_ptrs_reflexive(s, st, a, n - 1, nesting);
        if let EqRead::Done(la, lb, e) = spec_compare_ptrs(s, st, a, s, st, a, n - 1, nesting) {
            lemma_compare_ptr_reflexive(s, ReadState { segment: st.segment, limit: la }, a + n - 1, nesting);
        }
    }
}

/// The same for structs.
proof fn lemma_compare_struct_reflexive(s: Seq<Seq<Word>>, st: ReadState, a: int, x: StructSize, nesting: int)
    ensures
        spec_compare_struct(s, st, a, x, s, st, a, x, nesting) matches EqRead::Done(la, lb, e) ==> la == lb && e
            != PtrEquality::NotEqual,
    decreases nesting, 2int, 0int,
{
    lemma_compare_ptrs_reflexive(s, st, a + x.data, x.ptrs as int, nesting);
}

/// The same for the structs of struct lists.
proof fn lemma_compare_composites_reflexive(s: Seq<Seq<Word>>, st: ReadState, a: int, x: StructSize, n: int, nesting: int)
    ensures
        spec_compare_composites(s, st, a, x, s, st, a, x, n, nesting) matches EqRead::Done(la, lb, e) ==> la == lb && e
            != PtrEquality::NotEqual,
    decreases nesting, 3int, n,
{
    if n > 0 {
        lemma_compare_composites_reflexive(s, st, a, x, n - 1, nesting);
        if let EqRead::Done(la, lb, e) = spec_compare_composites(s, st, a, x, s, st, a, x, n - 1, nesting) {
            lemma_compare_struct_reflexive(s, ReadState { segment: st.segment, limit: la }, a + (n - 1) * x.spec_total(), x, nesting);
        }
    }
}

/// The same for lists.
proof fn lemma_compare_list_reflexive(s: Seq<Seq<Word>>, st: ReadState, a: int, x: ElementSize, n: int, nesting: int)
    ensures
        spec_compare_list(s, st, a, x, n, s, st, a, x, n, nesting) matches EqRead::Done(la, lb, e) ==> la == lb && e
            != PtrEquality::NotEqual,
    decreases nesting, 4int, 0int,
{
    match x {
        ElementSize::Pointer => lemma_compare_ptrs_reflexive(s, st, a, n, nesting),
        ElementSize::InlineComposite(xs) => lemma_compare_composites_reflexive(s, st, a, xs, n, nesting),
        _ => {},
    }
}

/// The words of a list of data or pointer elements are the fewest that hold its elements'
/// bits; those of a struct list are its count times the struct's words.
pub proof fn lemma_list_words_fit(size: ElementSize, count: int)
    requires
        count >= 0,
    ensures
        !(size is InlineComposite) ==> list_words(size, count) * 64 >= spec_bits(size) * count && list_words(size, count) * 64
            < spec_bits(size) * count + 64,
        size matches ElementSize::InlineComposite(s) ==> list_words(size, count) == count * s.spec_total(),
{
    assert(spec_bits(size) * count >= 0) by (nonlinear_arith)
        requires
            spec_bits(size) >= 0,
            count >= 0,
    ;
}

/// Reading with no limit leaves no limit.
proof fn lemma_read_typed_unlimited(s: Seq<Seq<Word>>, st: ReadState, p: int)
    requires
        st.limit is None,
    ensures
        spec_read_typed(s, st, p) matches Ok((st1, _)) ==> st1.limit is None,
{
}

/// Comparing with no limits leaves no limits.
pub(crate) proof fn lemma_compare_ptr_unlimited(sa: Seq<Seq<Word>>, sta: ReadState, pa: int, sb: Seq<Seq<Word>>, stb: ReadState, pb: int, nesting: int)
    requires
        sta.limit is None,
        stb.limit is None,
    ensures
        spec_compare_ptr(sa, sta, pa, sb, stb, pb, nesting) matches EqRead::Done(la, lb, _) ==> la is None && lb is None,
    decreases nesting, 0int, 0int,
{
    lemma_read_typed_unlimited(sa, sta, pa);
    lemma_read_typed_unlimited(sb, stb, pb);
    if let Ok((sa1, ta)) = spec_read_typed(sa, sta, pa) {
        if let Ok((sb1, tb)) = spec_read_typed(sb, stb, pb) {
            if nesting > 0 {
                match (ta, tb) {
                    (TypedRead::Struct { start: a, size: x }, TypedRead::Struct { start: b, size: y }) => {
                        lemma_compare_struct_unlimited(sa, sa1, a, x, sb, sb1, b, y, nesting - 1);
                    },
                    (TypedRead::List { start: a, size: x, count: n }, TypedRead::List { start: b, size: y, count: m }) => {
                        lemma_compare_list_unlimited(sa, sa1, a, x, n, sb, sb1, b, y, m, nesting - 1);
                    },
                    _ => {},
                }
            }
        }
    }
}

/// The same for runs of pointers.
pub(crate) proof fn lemma_compare_ptrs_unlimited(sa: Seq<Seq<Word>>, sta: ReadState, a: int, sb: Seq<Seq<Word>>, stb: ReadState, b: int, n: int, nesting: int)
    requires
        sta.limit is None,
        stb.limit is None,
    ensures
        spec_compare_ptrs(sa, sta, a, sb, stb, b, n, nesting) matches EqRead::Done(la, lb, _) ==> la is None && lb is None,
    decreases nesting, 1int, n,
{
    if n > 0 {
        lemma_compare_ptrs_unlimited(sa, sta, a, sb, stb, b, n - 1, nesting);
        if let EqRead::Done(la, lb, e) = spec_compare_ptrs(sa, sta, a, sb, stb, b, n - 1, nesting) {
            lemma_compare_ptr_unlimited(
                sa,
                ReadState { segment: sta.segment, limit: la },
                a + n - 1,
                sb,
                ReadState { segment: stb.segment, limit: lb },
                b + n - 1,
                nesting,
            );
        }
    }
}

/// The same for structs.
pub(crate) proof fn lemma_compare_struct_unlimited(
    sa: Seq<Seq<Word>>,
    sta: ReadState,
    a: int,
    x: StructSize,
    sb: Seq<Seq<Word>>,
    stb: ReadState,
    b: int,
    y: StructSize,
    nesting: int,
)
    requires
        sta.limit is None,
        stb.limit is None,
    ensures
        spec_compare_struct(sa, sta, a, x, sb, stb, b, y, nesting) matches EqRead::Done(la, lb, _) ==> la is None && lb is None,
    decreases nesting, 2int, 0int,
{
    lemma_compare_ptrs_unlimited(sa, sta, a + x.data, sb, stb, b + y.data, if x.ptrs <= y.ptrs { x.ptrs as int } else { y.ptrs as int }, nesting);
}

/// The same for the structs of struct lists.
pub(crate) proof fn lemma_compare_composites_unlimited(
    sa: Seq<Seq<Word>>,
    sta: ReadState,
    a: int,
    x: StructSize,
    sb: Seq<Seq<Word>>,
    stb: ReadState,
    b: int,
    y: StructSize,
    n: int,
    nesting: int,
)
    requires
        sta.limit is None,
        stb.limit is None,
    ensures
        spec_compare_composites(sa, sta, a, x, sb, stb, b, y, n, nesting) matches EqRead::Done(la, lb, _) ==> la is None && lb is None,
    decreases nesting, 3int, n,
{
    if n > 0 {
        lemma_compare_composites_unlimited(sa, sta, a, x, sb, stb, b, y, n - 1, nesting);
        if let EqRead::Done(la, lb, e) = spec_compare_composites(sa, sta, a, x, sb, stb, b, y, n - 1, nesting) {
            lemma_compare_struct_unlimited(
                sa,
                ReadState { segment: sta.segment, limit: la },
                a + (n - 1) * x.spec_total(),
                x,
                sb,
                ReadState { segment: stb.segment, limit: lb },
                b + (n - 1) * y.spec_total(),
                y,
                nesting,
            );
        }
    }
}

/// The same for lists.
proof fn lemma_compare_list_unlimited(
    sa: Seq<Seq<Word>>,
    sta: ReadState,
    a: int,
    x: ElementSize,
    n: int,
    sb: Seq<Seq<Word>>,
    stb: ReadState,
    b: int,
    y: ElementSize,
    m: int,
    nesting: int,
)
    requires
        sta.limit is None,
        stb.limit is None,
    ensures
        spec_compare_list(sa, sta, a, x, n, sb, stb, b, y, m, nesting) matches EqRead::Done(la, lb, _) ==> la is None && lb is None,
    decreases nesting, 4int, 0int,
{
    match x {
        ElementSize::Pointer => lemma_compare_ptrs_unlimited(sa, sta, a, sb, stb, b, n, nesting),
        ElementSize::InlineComposite(xs) => match y {
            ElementSize::InlineComposite(ys) => lemma_compare_composites_unlimited(sa, sta, a, xs, sb, stb, b, ys, n, nesting),
            _ => {},
        },
        _ => {},
    }
}

/// A struct read through a pointer lies within the segment it was found in.
pub proof fn lemma_read_struct_in_bounds(segs: Seq<Seq<Word>>, st: ReadState, src: int)
    requires
        st.segment < segs.len(),
    ensures
        spec_read_struct(segs, st, src) matches Ok((st1, start, size)) ==> st1.segment < segs.len() && 0 <= start && start
            + size.spec_total() <= segs[st1.segment as int].len(),
{
}

/// A list read through a pointer lies within the segment it was found in, and its elements
/// can be read as the size expected, if one was.
pub proof fn lemma_read_list_in_bounds(segs: Seq<Seq<Word>>, st: ReadState, src: int, expected: Option<PtrElementSize>)
    requires
        st.segment < segs.len(),
    ensures
        spec_read_list(segs, st, src, expected) matches Ok((st1, start, size, count)) ==> {
            &&& st1.segment < segs.len()
            &&& 0 <= start
            &&& 0 <= count
            &&& start + list_words(size, count) <= segs[st1.segment as int].len()
            &&& expected matches Some(e) ==> spec_upgradable_to(size, e)
        },
{
    if let Ok((st1, start, size, count)) = spec_read_list(segs, st, src, expected) {
        lemma_list_words_fit(size, count);
        if let ElementSize::InlineComposite(s) = size {
            assert(count * s.spec_total() >= 0) by (nonlinear_arith)
                requires
                    count >= 0,
                    s.spec_total() >= 0,
            ;
        }
    }
}

/// With no limit, a run of pointers of which only the one at `start + j` is not null measures
/// what that pointer measures.
proof fn lemma_one_ptr_size(segs: Seq<Seq<Word>>, st: ReadState, start: int, len: int, j: int, nesting: int)
    requires
        st.limit is None,
        0 <= j,
        !parts_null(parts_of(segs[st.segment as int][start + j])),
        forall|k: int| 0 <= k < len && k != j ==> parts_null(parts_of(#[trigger] segs[st.segment as int][start + k])),
    ensures
        j < len ==> spec_ptrs_size(segs, st, start, len, nesting) == match spec_target_size(segs, st, start + j, nesting) {
            SizeRead::Size(_, w, c) => SizeRead::Size(None, w, c),
            other => other,
        },
        len <= j ==> spec_ptrs_size(segs, st, start, len, nesting) == SizeRead::Size(st.limit, 0, 0),
    decreases len,
{
    if len <= j {
        lemma_null_ptrs_size(segs, st, start, len, nesting);
    } else {
        lemma_one_ptr_size(segs, st, start, len - 1, j, nesting);
        assert(ReadState { segment: st.segment, limit: None } == st);
        if len - 1 == j {
            lemma_target_size_nonneg(segs, st, start + j, nesting);
            assert(start + len - 1 == start + j);
        } else {
            assert(parts_null(parts_of(segs[st.segment as int][start + (len - 1)])));
            assert(start + len - 1 == start + (len - 1));
            lemma_target_size_nonneg(segs, st, start + j, nesting);
        }
    }
}

/// With no limit, a struct whose pointer section holds one pointer that is not null measures its
/// own words and what that pointer measures.
pub proof fn lemma_struct_size_adds_pointer(segs: Seq<Seq<Word>>, st: ReadState, src: int, j: int, nesting: int)
    requires
        st.limit is None,
        nesting > 0,
        spec_read_typed(segs, st, src) matches Ok((st1, TypedRead::Struct { start, size })) && 0 <= j < size.ptrs && !parts_null(
            parts_of(segs[st1.segment as int][start + size.data + j]),
        ) && forall|k: int|
            0 <= k < size.ptrs && k != j ==> parts_null(parts_of(#[trigger] segs[st1.segment as int][start + size.data + k])),
    ensures
        spec_read_typed(segs, st, src) matches Ok((st1, TypedRead::Struct { start, size })) && spec_target_size(segs, st, src, nesting)
            == match spec_target_size(segs, st1, start + size.data + j, nesting - 1) {
            SizeRead::Size(_, w, c) => fit_size(None, size.spec_total() + w, c),
            other => other,
        },
{
    if let Ok((st1, TypedRead::Struct { start, size })) = spec_read_typed(segs, st, src) {
        lemma_one_ptr_size(segs, st1, start + size.data, size.ptrs as int, j, nesting - 1);
    }
}

} // verus!
