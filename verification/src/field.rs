//! Accessors of the fields of structs: data fields, pointer fields and union variants.
//!
//! A field is described by its slot and default ([`FieldInfo`]); a union variant also by the
//! slot of the union's discriminant and its case ([`VariantInfo`]).

use crate::arena::{BuildArena, ReadArena};
use crate::allocator::words_bytes;
use crate::ptr::{
    arena_words, list_alloc_failed, list_placed, parts_null, parts_of, reads_list, reads_struct, same_but, spec_read_struct, struct_data,
    BlobBuilder, Data, ElementSize, PtrBuilder, PtrReader, ReadState, StructBuilder, StructReader, StructSize,
};
use crate::arena::used_segments;
use crate::arena::has_room;
use crate::ptr::list_alloc_owed;
use crate::clear::{zeroed_from, object_zeroed, object_of};
use crate::allocator::word_is_zero;
use crate::ptr::region_writable;
use crate::ptr::list_alloc_error;
use crate::num::{u29, u29_max};
use crate::ErrorKind;
use vstd::string::StringSliceAdditionalSpecFns;
use crate::Error;
use vstd::prelude::*;

verus! {

/// The slot of a field and its default value.
#[derive(Clone, Copy, Debug, PartialEq, Eq)]
pub struct FieldInfo<D> {
    pub slot: u32,
    pub default: D,
}

/// The slot of a union's discriminant and the case of one of its variants.
#[derive(Clone, Copy, Debug, PartialEq, Eq, Structural)]
pub struct VariantInfo {
    pub slot: u32,
    pub case: u16,
}

/// The discriminant of a union read from a struct reader.
pub open spec fn reader_case<'a, A: ReadArena + ?Sized>(r: StructReader<'a, A>, slot: u32) -> u16 {
    <u16 as Data>::spec_read(words_bytes(r.spec_data()), slot as int, 0)
}

/// The discriminant of a union read from a struct being built.
pub open spec fn builder_case(arena: Seq<crate::arena::ArenaSegment>, s: StructBuilder, slot: u32) -> u16 {
    <u16 as Data>::spec_read(words_bytes(struct_data(arena, s.builder.segment, s.start as int, s.size)), slot as int, 0)
}

/// An accessor of a data field of a struct.
pub struct DataField<D, Repr> {
    pub descriptor: FieldInfo<D>,
    pub repr: Repr,
}

impl<'a, A: ReadArena + ?Sized, D: Data> DataField<D, StructReader<'a, A>> {
    /// The value of the field.
    pub fn get(&self) -> (r: D)
        ensures
            r == D::spec_read(words_bytes(self.repr.spec_data()), self.descriptor.slot as int, self.descriptor.default),
    {
        self.repr.data_field_with_default(self.descriptor.slot as usize, self.descriptor.default)
    }
}

impl<D: Data> DataField<D, StructBuilder> {
    /// The value of the field.
    pub fn get<B: BuildArena + ?Sized>(&self, arena: &B) -> (r: D)
        requires
            arena.inv(),
            self.repr.valid_in(arena.spec_arena()),
        ensures
            r == D::spec_read(words_bytes(struct_data(arena.spec_arena(), self.repr.builder.segment, self.repr.start as int, self.repr.size)), self.descriptor.slot as int, self.descriptor.default),
    {
        self.repr.data_field_with_default(arena, self.descriptor.slot as usize, self.descriptor.default)
    }

    /// Sets the value of the field.
    pub fn set<B: BuildArena + ?Sized>(&self, arena: &mut B, value: D)
        requires
            old(arena).inv(),
            self.repr.valid_in(old(arena).spec_arena()),
        ensures
            final(arena).inv(),
            self.repr.valid_in(final(arena).spec_arena()),
            D::spec_range(self.descriptor.slot as int).1 <= self.repr.size.data * 8 ==> D::spec_read(
                words_bytes(struct_data(final(arena).spec_arena(), self.repr.builder.segment, self.repr.start as int, self.repr.size)),
                self.descriptor.slot as int,
                self.descriptor.default,
            ) == value,
            same_but(
                old(arena).spec_arena(),
                final(arena).spec_arena(),
                self.repr.builder.segment,
                self.repr.start as int,
                self.repr.start + self.repr.size.data,
            ),
            forall|k: int| 0 <= k < self.repr.size.data * 8 && !(D::spec_range(self.descriptor.slot as int).0 <= k < D::spec_range(self.descriptor.slot as int).1)
                ==> #[trigger] words_bytes(struct_data(final(arena).spec_arena(), self.repr.builder.segment, self.repr.start as int, self.repr.size))[k]
                == words_bytes(struct_data(old(arena).spec_arena(), self.repr.builder.segment, self.repr.start as int, self.repr.size))[k],
    {
        self.repr.set_field_with_default(arena, self.descriptor.slot as usize, value, self.descriptor.default);
    }
}

/// An accessor of a data field that is a variant of a union.
pub struct DataVariant<D, Repr> {
    pub descriptor: FieldInfo<D>,
    pub variant: VariantInfo,
    pub repr: Repr,
}

impl<'a, A: ReadArena + ?Sized, D: Data> DataVariant<D, StructReader<'a, A>> {
    /// Whether the union is set to this variant.
    pub fn is_set(&self) -> (r: bool)
        ensures
            r == (reader_case(self.repr, self.variant.slot) == self.variant.case),
    {
        self.repr.data_field::<u16>(self.variant.slot as usize) == self.variant.case
    }

    /// The value of the field, if the union is set to this variant.
    pub fn get(&self) -> (r: Option<D>)
        ensures
            (reader_case(self.repr, self.variant.slot) == self.variant.case) ==> r == Some(
                D::spec_read(words_bytes(self.repr.spec_data()), self.descriptor.slot as int, self.descriptor.default),
            ),
            (reader_case(self.repr, self.variant.slot) != self.variant.case) ==> r is None,
    {
        if self.is_set() {
            Some(self.repr.data_field_with_default(self.descriptor.slot as usize, self.descriptor.default))
        } else {
            None
        }
    }

    /// The value of the field, or its default if the union is set to another variant.
    pub fn get_or_default(&self) -> (r: D)
        ensures
            (reader_case(self.repr, self.variant.slot) == self.variant.case) ==> r == D::spec_read(
                words_bytes(self.repr.spec_data()),
                self.descriptor.slot as int,
                self.descriptor.default,
            ),
            (reader_case(self.repr, self.variant.slot) != self.variant.case) ==> r == self.descriptor.default,
    {
        match self.get() {
            Some(v) => v,
            None => self.descriptor.default,
        }
    }
}

impl<D: Data> DataVariant<D, StructBuilder> {
    /// Whether the union is set to this variant.
    pub fn is_set<B: BuildArena + ?Sized>(&self, arena: &B) -> (r: bool)
        requires
            arena.inv(),
            self.repr.valid_in(arena.spec_arena()),
        ensures
            r == (builder_case(arena.spec_arena(), self.repr, self.variant.slot) == self.variant.case),
    {
        self.repr.data_field::<u16, B>(arena, self.variant.slot as usize) == self.variant.case
    }

    /// The value of the field, if the union is set to this variant.
    pub fn get<B: BuildArena + ?Sized>(&self, arena: &B) -> (r: Option<D>)
        requires
            arena.inv(),
            self.repr.valid_in(arena.spec_arena()),
        ensures
            (builder_case(arena.spec_arena(), self.repr, self.variant.slot) == self.variant.case) ==> r == Some(
                D::spec_read(words_bytes(struct_data(arena.spec_arena(), self.repr.builder.segment, self.repr.start as int, self.repr.size)), self.descriptor.slot as int, self.descriptor.default),
            ),
            (builder_case(arena.spec_arena(), self.repr, self.variant.slot) != self.variant.case) ==> r is None,
    {
        if self.is_set(arena) {
            Some(self.repr.data_field_with_default(arena, self.descriptor.slot as usize, self.descriptor.default))
        } else {
            None
        }
    }

    /// The value of the field, or its default if the union is set to another variant.
    pub fn get_or_default<B: BuildArena + ?Sized>(&self, arena: &B) -> (r: D)
        requires
            arena.inv(),
            self.repr.valid_in(arena.spec_arena()),
        ensures
            (builder_case(arena.spec_arena(), self.repr, self.variant.slot) != self.variant.case) ==> r == self.descriptor.default,
            (builder_case(arena.spec_arena(), self.repr, self.variant.slot) == self.variant.case) ==> r == D::spec_read(
                words_bytes(struct_data(arena.spec_arena(), self.repr.builder.segment, self.repr.start as int, self.repr.size)),
                self.descriptor.slot as int,
                self.descriptor.default,
            ),
    {
        match self.get(arena) {
            Some(v) => v,
            None => self.descriptor.default,
        }
    }

    /// Sets the union to this variant and the field to the value. The discriminant is written
    /// first, so the union reads as this variant where the field does not overlap it.
    pub fn set<B: BuildArena + ?Sized>(&self, arena: &mut B, value: D)
        requires
            old(arena).inv(),
            self.repr.valid_in(old(arena).spec_arena()),
        ensures
            final(arena).inv(),
            self.repr.valid_in(final(arena).spec_arena()),
            D::spec_range(self.descriptor.slot as int).1 <= self.repr.size.data * 8 ==> D::spec_read(
                words_bytes(struct_data(final(arena).spec_arena(), self.repr.builder.segment, self.repr.start as int, self.repr.size)),
                self.descriptor.slot as int,
                self.descriptor.default,
            ) == value,
            <u16 as Data>::spec_range(self.variant.slot as int).1 <= self.repr.size.data * 8 && (D::spec_range(
                self.descriptor.slot as int,
            ).1 <= <u16 as Data>::spec_range(self.variant.slot as int).0 || <u16 as Data>::spec_range(self.variant.slot as int).1
                <= D::spec_range(self.descriptor.slot as int).0) ==> builder_case(final(arena).spec_arena(), self.repr, self.variant.slot)
                == self.variant.case,
            same_but(
                old(arena).spec_arena(),
                final(arena).spec_arena(),
                self.repr.builder.segment,
                self.repr.start as int,
                self.repr.start + self.repr.size.data,
            ),
            forall|k: int| 0 <= k < self.repr.size.data * 8 && !(D::spec_range(self.descriptor.slot as int).0 <= k < D::spec_range(self.descriptor.slot as int).1)
                && !(<u16 as Data>::spec_range(self.variant.slot as int).0 <= k < <u16 as Data>::spec_range(self.variant.slot as int).1)
                ==> #[trigger] words_bytes(struct_data(final(arena).spec_arena(), self.repr.builder.segment, self.repr.start as int, self.repr.size))[k]
                == words_bytes(struct_data(old(arena).spec_arena(), self.repr.builder.segment, self.repr.start as int, self.repr.size))[k],
    {
        let ghost before = arena.spec_arena();
        self.repr.set_field_with_default::<u16, B>(arena, self.variant.slot as usize, self.variant.case, 0u16);
        let ghost mid = arena.spec_arena();
        self.repr.set_field_with_default(arena, self.descriptor.slot as usize, value, self.descriptor.default);
        proof {
            arena.lemma_used_fits();
            let vs = self.variant.slot as int;
            let b0 = words_bytes(struct_data(mid, self.repr.builder.segment, self.repr.start as int, self.repr.size));
            let b1 = words_bytes(struct_data(arena.spec_arena(), self.repr.builder.segment, self.repr.start as int, self.repr.size));
            if <u16 as Data>::spec_range(vs).1 <= self.repr.size.data * 8 && (D::spec_range(self.descriptor.slot as int).1 <= vs * 2
                || vs * 2 + 2 <= D::spec_range(self.descriptor.slot as int).0) {
                assert(b1[vs * 2] == b0[vs * 2]);
                assert(b1[vs * 2 + 1] == b0[vs * 2 + 1]);
                assert(b1.len() == b0.len());
            }
            let a = arena.spec_arena();
            let seg = self.repr.builder.segment as int;
            assert forall|i: int| 0 <= i < before.len() && i != seg implies #[trigger] a[i] == before[i] by {
                assert(mid[i] == before[i]);
            }
            assert forall|k: int| 0 <= k < before[seg].spec_words().len() && !(self.repr.start <= k < self.repr.start + self.repr.size.data)
                implies #[trigger] a[seg].spec_words()[k] == before[seg].spec_words()[k] by {
                assert(mid[seg].spec_words()[k] == before[seg].spec_words()[k]);
            }
        }
    }
}

/// An accessor of a variant of a union that holds no data: void, or a group.
pub struct VoidVariant<Repr> {
    pub variant: VariantInfo,
    pub repr: Repr,
}

impl<'a, A: ReadArena + ?Sized> VoidVariant<StructReader<'a, A>> {
    /// Whether the union is set to this variant.
    pub fn is_set(&self) -> (r: bool)
        ensures
            r == (reader_case(self.repr, self.variant.slot) == self.variant.case),
    {
        self.repr.data_field::<u16>(self.variant.slot as usize) == self.variant.case
    }

    /// The struct holding the group, if the union is set to this variant.
    pub fn get(&self) -> (r: Option<StructReader<'a, A>>)
        ensures
            (reader_case(self.repr, self.variant.slot) == self.variant.case) ==> r == Some(self.repr),
            (reader_case(self.repr, self.variant.slot) != self.variant.case) ==> r is None,
    {
        if self.is_set() {
            Some(self.repr)
        } else {
            None
        }
    }

    /// The struct holding the group, or an empty struct if the union is set to another variant.
    pub fn get_or_default(&self) -> (r: StructReader<'a, A>)
        ensures
            (reader_case(self.repr, self.variant.slot) == self.variant.case) ==> r == self.repr,
            (reader_case(self.repr, self.variant.slot) != self.variant.case) ==> r.spec_data().len() == 0 && r.spec_ptrs_len() == 0,
    {
        match self.get() {
            Some(r) => r,
            None => StructReader::empty(),
        }
    }
}

impl VoidVariant<StructBuilder> {
    /// Whether the union is set to this variant.
    pub fn is_set<B: BuildArena + ?Sized>(&self, arena: &B) -> (r: bool)
        requires
            arena.inv(),
            self.repr.valid_in(arena.spec_arena()),
        ensures
            r == (builder_case(arena.spec_arena(), self.repr, self.variant.slot) == self.variant.case),
    {
        self.repr.data_field::<u16, B>(arena, self.variant.slot as usize) == self.variant.case
    }

    /// Sets the union to this variant.
    pub fn set<B: BuildArena + ?Sized>(&self, arena: &mut B)
        requires
            old(arena).inv(),
            self.repr.valid_in(old(arena).spec_arena()),
        ensures
            final(arena).inv(),
            self.repr.valid_in(final(arena).spec_arena()),
            <u16 as Data>::spec_range(self.variant.slot as int).1 <= self.repr.size.data * 8 ==> builder_case(
                final(arena).spec_arena(),
                self.repr,
                self.variant.slot,
            ) == self.variant.case,
    {
        self.repr.set_field::<u16, B>(arena, self.variant.slot as usize, self.variant.case);
    }
}

/// An accessor of a pointer field of a struct.
pub struct PtrField<Repr> {
    pub slot: u16,
    pub repr: Repr,
}

/// The struct that pointer `slot` of a struct being read refers to, where the pointer is there,
/// is not null, may still be followed and reads: the read state after it, where the struct
/// starts and its size.
pub open spec fn field_struct<'a, A: ReadArena + ?Sized>(repr: StructReader<'a, A>, slot: u16) -> Option<(ReadState, int, StructSize)> {
    if slot < repr.spec_ptrs_len() && repr.spec_reader() is Some && repr.spec_nesting_limit() > 0 {
        let rd = repr.spec_reader()->0;
        let pos = repr.spec_ptrs_start() + slot;
        if parts_null(parts_of(rd.spec_words()[pos])) {
            None
        } else {
            match spec_read_struct(rd.spec_segs(), rd.spec_state(), pos) {
                Ok(found) => Some(found),
                Err(_) => None,
            }
        }
    } else {
        None
    }
}

/// Reading the struct that pointer `slot` of a struct being read refers to: `None` where the
/// pointer is not there or is null, else the read state after it, where the struct starts and
/// its size, or the error.
pub open spec fn field_read<'a, A: ReadArena + ?Sized>(repr: StructReader<'a, A>, slot: u16) -> Result<
    Option<(ReadState, int, StructSize)>,
    Error,
> {
    if slot < repr.spec_ptrs_len() && repr.spec_reader() is Some {
        let rd = repr.spec_reader()->0;
        let pos = repr.spec_ptrs_start() + slot;
        if parts_null(parts_of(rd.spec_words()[pos])) {
            Ok(None)
        } else if repr.spec_nesting_limit() == 0 {
            Err(Error { kind: ErrorKind::NestingLimitExceeded })
        } else {
            match spec_read_struct(rd.spec_segs(), rd.spec_state(), pos) {
                Ok(found) => Ok(Some(found)),
                Err(e) => Err(e),
            }
        }
    } else {
        Ok(None)
    }
}

/// Whether `r` reads the struct that pointer `slot` of `repr` refers to, or is empty where there
/// is none.
pub open spec fn reads_field_struct<'a, A: ReadArena + ?Sized>(repr: StructReader<'a, A>, slot: u16, r: StructReader<'a, A>) -> bool {
    match field_struct(repr, slot) {
        Some((st, start, size)) => {
            &&& r.spec_data() == repr.spec_reader()->0.spec_segs()[st.segment as int].subrange(start, start + size.data)
            &&& r.spec_ptrs_start() == start + size.data
            &&& r.spec_ptrs_len() == size.ptrs
        },
        None => r.spec_data().len() == 0 && r.spec_ptrs_len() == 0,
    }
}

impl<'a, A: ReadArena + ?Sized> PtrField<StructReader<'a, A>> {
    /// The reader of the pointer.
    pub fn ptr(&self) -> (r: PtrReader<'a, A>)
        ensures
            self.slot < self.repr.spec_ptrs_len() ==> (r.spec_ptr() matches Some((pos, rd)) && pos@
                == self.repr.spec_ptrs_start() + self.slot && Some(rd) == self.repr.spec_reader()
                && r.spec_nesting_limit() == self.repr.spec_nesting_limit()),
            self.slot >= self.repr.spec_ptrs_len() ==> r.spec_ptr() is None,
    {
        self.repr.ptr_field(self.slot)
    }

    /// The struct the field points at, `None` where it is null, or the error reading it.
    pub fn try_get_option(&self) -> (r: Result<Option<StructReader<'a, A>>, Error>)
        ensures
            match field_read(self.repr, self.slot) {
                Ok(None) => r matches Ok(None),
                Ok(Some((st, start, size))) => r matches Ok(Some(s)) && s.spec_data() == self.repr.spec_reader()->0.spec_segs()[st.segment as int].subrange(
                    start,
                    start + size.data,
                ) && s.spec_ptrs_start() == start + size.data && s.spec_ptrs_len() == size.ptrs,
                Err(e) => r == Err::<Option<StructReader<'a, A>>, Error>(e),
            },
    {
        self.ptr().to_struct()
    }

    /// The struct the field points at, an empty struct where it is null, or the error reading
    /// it.
    pub fn try_get(&self) -> (r: Result<StructReader<'a, A>, Error>)
        ensures
            match field_read(self.repr, self.slot) {
                Ok(None) => r matches Ok(s) && s.spec_data().len() == 0 && s.spec_ptrs_len() == 0,
                Ok(Some((st, start, size))) => r matches Ok(s) && s.spec_data() == self.repr.spec_reader()->0.spec_segs()[st.segment as int].subrange(
                    start,
                    start + size.data,
                ) && s.spec_ptrs_start() == start + size.data && s.spec_ptrs_len() == size.ptrs,
                Err(e) => r == Err::<StructReader<'a, A>, Error>(e),
            },
    {
        match self.try_get_option() {
            Ok(Some(s)) => Ok(s),
            Ok(None) => Ok(StructReader::empty()),
            Err(e) => Err(e),
        }
    }

    /// The struct the field points at, or an empty struct where it is null or cannot be read.
    pub fn get(&self) -> (r: StructReader<'a, A>)
        ensures
            reads_field_struct(self.repr, self.slot, r),
    {
        match self.ptr().to_struct() {
            Ok(Some(s)) => s,
            _ => StructReader::empty(),
        }
    }
}

impl PtrField<StructBuilder> {
    /// Another accessor of the same field.
    pub fn by_ref(&mut self) -> (r: PtrField<StructBuilder>)
        ensures
            r.slot == old(self).slot,
            r.repr == old(self).repr,
            final(self).slot == old(self).slot,
            final(self).repr == old(self).repr,
    {
        PtrField { slot: self.slot, repr: self.repr }
    }

    /// The builder of the pointer, if the struct has that many pointers.
    pub fn ptr(&self) -> (r: Option<PtrBuilder>)
        requires
            self.repr.start + self.repr.size.spec_total() <= crate::num::u29_max(),
        ensures
            r is Some <==> self.slot < self.repr.size.ptrs,
            r matches Some(p) ==> p.builder == self.repr.builder && p.ptr@ == self.repr.start + self.repr.size.data + self.slot,
    {
        self.repr.ptr_field_mut(self.slot)
    }

    /// Sets the field to null and zeroes what it referred to, and in turn what that refers to.
    pub fn clear<B: BuildArena + ?Sized>(&self, arena: &mut B)
        requires
            old(arena).inv(),
            self.repr.start + self.repr.size.spec_total() <= u29_max(),
            self.repr.valid_in(old(arena).spec_arena()),
        ensures
            final(arena).inv(),
            zeroed_from(old(arena).spec_arena(), final(arena).spec_arena()),
            final(arena).spec_alloc_segment() == old(arena).spec_alloc_segment(),
            self.slot < self.repr.size.ptrs ==> crate::ptr::parts_null(crate::ptr::parts_of(crate::ptr::arena_words(final(arena).spec_arena(), self.repr.builder.segment)[self.repr.start + self.repr.size.data + self.slot])),
            self.slot < self.repr.size.ptrs ==> object_zeroed(old(arena).spec_arena(), final(arena).spec_arena(), self.repr.builder.segment, self.repr.start + self.repr.size.data + self.slot),
    {
        match self.repr.ptr_field_mut(self.slot) {
            Some(p) => p.clear(arena),
            None => {
                proof {
                    assert(zeroed_from(arena.spec_arena(), arena.spec_arena()));
                }
            },
        }
    }

    /// Allocates a zeroed struct of the given size for the field, clearing first what it referred to.
    pub fn try_init<B: BuildArena + ?Sized>(&self, arena: &mut B, size: StructSize) -> (r: Result<StructBuilder, Error>)
        requires
            old(arena).inv(),
            self.slot < self.repr.size.ptrs,
            self.repr.start + self.repr.size.spec_total() <= crate::num::u29_max(),
            self.repr.valid_in(old(arena).spec_arena()),
        ensures
            final(arena).inv(),
            parts_null(parts_of(arena_words(old(arena).spec_arena(), self.repr.builder.segment)[self.repr.start + self.repr.size.data + self.slot])) ==> (r is Err ==> final(arena).spec_arena() == old(arena).spec_arena()),
            r is Err ==> zeroed_from(old(arena).spec_arena(), final(arena).spec_arena()),
            r matches Err(e) ==> (e.kind matches ErrorKind::AllocFailed(n) && n@ == size.spec_total() + 1),
            size.spec_total() == 0 || has_room(old(arena).spec_arena(), self.repr.builder.segment, size.spec_total())
                || has_room(old(arena).spec_arena(), old(arena).spec_alloc_segment(), size.spec_total() + 1) ==> r is Ok,
            r matches Ok(s) ==> s.size == size && crate::ptr::reads_struct(
                final(arena).spec_arena(),
                self.repr.builder.segment,
                self.repr.start + self.repr.size.data + self.slot,
                s.builder.segment,
                s.start as int,
                size,
            ),
            parts_null(parts_of(arena_words(old(arena).spec_arena(), self.repr.builder.segment)[self.repr.start + self.repr.size.data + self.slot])) ==> forall|k: int|
                0 <= k < old(arena).spec_arena()[self.repr.builder.segment as int].spec_used_len() && k != self.repr.start
                    + self.repr.size.data + self.slot ==> #[trigger] final(arena).spec_arena()[self.repr.builder.segment as int].spec_words()[k]
                    == old(arena).spec_arena()[self.repr.builder.segment as int].spec_words()[k],
            final(arena).spec_arena()[self.repr.builder.segment as int].spec_words().len() == old(arena).spec_arena()[self.repr.builder.segment as int].spec_words().len(),
    {
        let p = self.repr.ptr_field_mut(self.slot).unwrap();
        p.try_init_struct(arena, size)
    }

    /// Allocates a zeroed blob of `len` bytes for the field, clearing first what it referred to.
    pub fn init_byte_count<B: BuildArena + ?Sized>(&self, arena: &mut B, len: u29) -> (r: Result<BlobBuilder, Error>)
        requires
            old(arena).inv(),
            self.slot < self.repr.size.ptrs,
            self.repr.start + self.repr.size.spec_total() <= u29_max(),
            self.repr.valid_in(old(arena).spec_arena()),
        ensures
            final(arena).inv(),
            parts_null(parts_of(arena_words(old(arena).spec_arena(), self.repr.builder.segment)[self.repr.start + self.repr.size.data + self.slot])) ==> (r matches Err(e) ==> list_alloc_failed(old(arena).spec_arena(), final(arena).spec_arena(), e, ElementSize::Byte, len@ as int)),
            r matches Err(e) ==> list_alloc_error(e, ElementSize::Byte, len@ as int) && zeroed_from(old(arena).spec_arena(), final(arena).spec_arena()),
            list_alloc_owed(old(arena).spec_arena(), old(arena).spec_alloc_segment(), self.repr.builder.segment, ElementSize::Byte, len@ as int) ==> r is Ok,
            r matches Ok(b) ==> {
                &&& b.len == len
                &&& b.valid_in(final(arena).spec_arena())
                &&& list_placed(
                    old(arena).spec_arena(),
                    final(arena).spec_arena(),
                    self.repr.builder.segment,
                    self.repr.start + self.repr.size.data + self.slot,
                    b.segment,
                    b.start as int,
                    ElementSize::Byte,
                    len@ as int,
                )
            },
    {
        let p = self.repr.ptr_field_mut(self.slot).unwrap();
        p.try_init_blob(arena, len)
    }

    /// Sets the field, clearing first what it referred to, to a blob holding a copy of `value`; refused as too
    /// large, with the arena unchanged, where `value` is longer than a list can be.
    pub fn try_set_slice<B: BuildArena + ?Sized>(&self, arena: &mut B, value: &[u8]) -> (r: Result<BlobBuilder, Error>)
        requires
            old(arena).inv(),
            self.slot < self.repr.size.ptrs,
            self.repr.start + self.repr.size.spec_total() <= u29_max(),
            self.repr.valid_in(old(arena).spec_arena()),
        ensures
            final(arena).inv(),
            value@.len() > u29_max() ==> r == Err::<BlobBuilder, Error>(Error { kind: ErrorKind::AllocTooLarge })
                && final(arena).spec_arena() == old(arena).spec_arena(),
            parts_null(parts_of(arena_words(old(arena).spec_arena(), self.repr.builder.segment)[self.repr.start + self.repr.size.data + self.slot])) && value@.len() <= u29_max() ==> (r matches Err(e) ==> list_alloc_failed(
                old(arena).spec_arena(),
                final(arena).spec_arena(),
                e,
                ElementSize::Byte,
                value@.len() as int,
            )),
            value@.len() <= u29_max() && list_alloc_owed(old(arena).spec_arena(), old(arena).spec_alloc_segment(), self.repr.builder.segment, ElementSize::Byte, value@.len() as int) ==> r is Ok,
            r matches Ok(b) ==> {
                &&& b.valid_in(final(arena).spec_arena())
                &&& b.spec_bytes_in(final(arena).spec_arena()) == value@
                &&& (value@.len() > 0 || self.repr.start + self.repr.size.data + self.slot + 1 < used_segments(
                    old(arena).spec_arena(),
                )[self.repr.builder.segment as int].len()) ==> reads_list(
                    final(arena).spec_arena(),
                    self.repr.builder.segment,
                    self.repr.start + self.repr.size.data + self.slot,
                    b.segment,
                    b.start as int,
                    ElementSize::Byte,
                    value@.len() as int,
                )
            },
    {
        if value.len() > u29::MAX_VALUE as usize {
            return Err(Error::from_kind(ErrorKind::AllocTooLarge));
        }
        let p = self.repr.ptr_field_mut(self.slot).unwrap();
        p.try_set_blob(arena, value)
    }

    /// Sets the field, clearing first what it referred to, to a blob holding a copy of `value`, which must fit a
    /// list.
    pub fn set_slice<B: BuildArena + ?Sized>(&self, arena: &mut B, value: &[u8]) -> (r: Result<BlobBuilder, Error>)
        requires
            old(arena).inv(),
            self.slot < self.repr.size.ptrs,
            self.repr.start + self.repr.size.spec_total() <= u29_max(),
            self.repr.valid_in(old(arena).spec_arena()),
            value@.len() <= u29_max(),
        ensures
            final(arena).inv(),
            parts_null(parts_of(arena_words(old(arena).spec_arena(), self.repr.builder.segment)[self.repr.start + self.repr.size.data + self.slot])) ==> (r matches Err(e) ==> list_alloc_failed(old(arena).spec_arena(), final(arena).spec_arena(), e, ElementSize::Byte, value@.len() as int)),
            list_alloc_owed(old(arena).spec_arena(), old(arena).spec_alloc_segment(), self.repr.builder.segment, ElementSize::Byte, value@.len() as int) ==> r is Ok,
            r matches Ok(b) ==> b.valid_in(final(arena).spec_arena()) && b.spec_bytes_in(final(arena).spec_arena()) == value@,
    {
        self.try_set_slice(arena, value)
    }

    /// Sets the field, clearing first what it referred to, to text holding a copy of `value` and the terminating
    /// zero byte; refused as too large, with the arena unchanged, where that is longer than a
    /// list can be.
    pub fn try_set_str<B: BuildArena + ?Sized>(&self, arena: &mut B, value: &str) -> (r: Result<BlobBuilder, Error>)
        requires
            old(arena).inv(),
            self.slot < self.repr.size.ptrs,
            self.repr.start + self.repr.size.spec_total() <= u29_max(),
            self.repr.valid_in(old(arena).spec_arena()),
        ensures
            final(arena).inv(),
            value.spec_bytes().len() + 1 > u29_max() ==> r == Err::<BlobBuilder, Error>(Error { kind: ErrorKind::AllocTooLarge })
                && final(arena).spec_arena() == old(arena).spec_arena(),
            parts_null(parts_of(arena_words(old(arena).spec_arena(), self.repr.builder.segment)[self.repr.start + self.repr.size.data + self.slot])) && value.spec_bytes().len() + 1 <= u29_max() ==> (r matches Err(e) ==> list_alloc_failed(
                old(arena).spec_arena(),
                final(arena).spec_arena(),
                e,
                ElementSize::Byte,
                value.spec_bytes().len() + 1int,
            )),
            value.spec_bytes().len() + 1 <= u29_max() && list_alloc_owed(old(arena).spec_arena(), old(arena).spec_alloc_segment(), self.repr.builder.segment, ElementSize::Byte, value.spec_bytes().len() + 1int) ==> r is Ok,
            r matches Ok(b) ==> {
                &&& b.valid_in(final(arena).spec_arena())
                &&& b.spec_bytes_in(final(arena).spec_arena()) == value.spec_bytes().push(0u8)
                &&& reads_list(
                    final(arena).spec_arena(),
                    self.repr.builder.segment,
                    self.repr.start + self.repr.size.data + self.slot,
                    b.segment,
                    b.start as int,
                    ElementSize::Byte,
                    value.spec_bytes().len() + 1int,
                )
            },
    {
        let bytes = value.as_bytes();
        if bytes.len() >= u29::MAX_VALUE as usize {
            return Err(Error::from_kind(ErrorKind::AllocTooLarge));
        }
        let mut v: Vec<u8> = Vec::new();
        let mut i: usize = 0;
        while i < bytes.len()
            invariant
                i <= bytes@.len(),
                v@ == bytes@.subrange(0, i as int),
            decreases bytes@.len() - i,
        {
            v.push(bytes[i]);
            i = i + 1;
        }
        v.push(0u8);
        assert(v@ =~= bytes@.push(0u8));
        let p = self.repr.ptr_field_mut(self.slot).unwrap();
        p.try_set_blob(arena, v.as_slice())
    }

    /// Sets the field, clearing first what it referred to, to text holding a copy of `value` and the terminating
    /// zero byte, which must fit a list.
    pub fn set_str<B: BuildArena + ?Sized>(&self, arena: &mut B, value: &str) -> (r: Result<BlobBuilder, Error>)
        requires
            old(arena).inv(),
            self.slot < self.repr.size.ptrs,
            self.repr.start + self.repr.size.spec_total() <= u29_max(),
            self.repr.valid_in(old(arena).spec_arena()),
            value.spec_bytes().len() + 1 <= u29_max(),
        ensures
            final(arena).inv(),
            parts_null(parts_of(arena_words(old(arena).spec_arena(), self.repr.builder.segment)[self.repr.start + self.repr.size.data + self.slot])) ==> (r matches Err(e) ==> list_alloc_failed(
                old(arena).spec_arena(),
                final(arena).spec_arena(),
                e,
                ElementSize::Byte,
                value.spec_bytes().len() + 1int,
            )),
            list_alloc_owed(old(arena).spec_arena(), old(arena).spec_alloc_segment(), self.repr.builder.segment, ElementSize::Byte, value.spec_bytes().len() + 1int) ==> r is Ok,
            r matches Ok(b) ==> b.valid_in(final(arena).spec_arena()) && b.spec_bytes_in(final(arena).spec_arena())
                == value.spec_bytes().push(0u8),
    {
        self.try_set_str(arena, value)
    }

    /// Allocates a zeroed struct of the given size for the field, clearing first what it referred to.
    pub fn init_with_size<B: BuildArena + ?Sized>(&self, arena: &mut B, size: StructSize) -> (r: Result<StructBuilder, Error>)
        requires
            old(arena).inv(),
            self.slot < self.repr.size.ptrs,
            self.repr.start + self.repr.size.spec_total() <= crate::num::u29_max(),
            self.repr.valid_in(old(arena).spec_arena()),
        ensures
            final(arena).inv(),
            parts_null(parts_of(arena_words(old(arena).spec_arena(), self.repr.builder.segment)[self.repr.start + self.repr.size.data + self.slot])) ==> (r is Err ==> final(arena).spec_arena() == old(arena).spec_arena()),
            r is Err ==> zeroed_from(old(arena).spec_arena(), final(arena).spec_arena()),
            r matches Err(e) ==> (e.kind matches ErrorKind::AllocFailed(n) && n@ == size.spec_total() + 1),
            size.spec_total() == 0 || has_room(old(arena).spec_arena(), self.repr.builder.segment, size.spec_total())
                || has_room(old(arena).spec_arena(), old(arena).spec_alloc_segment(), size.spec_total() + 1) ==> r is Ok,
            r matches Ok(s) ==> s.size == size,
    {
        self.try_init(arena, size)
    }
}

/// Whether the object that the pointer at `pos` of segment `seg` of `before` refers to is zero
/// in `after` where all its words could be written, but for the words `lo..hi` of segment `dseg`.
pub open spec fn object_zeroed_outside(
    before: Seq<crate::arena::ArenaSegment>,
    after: Seq<crate::arena::ArenaSegment>,
    seg: crate::arena::SegmentId,
    pos: int,
    dseg: crate::arena::SegmentId,
    lo: int,
    hi: int,
) -> bool {
    match object_of(used_segments(before), seg, pos) {
        Some((s, a, n)) => region_writable(before, s, a, n) ==> forall|k: int|
            a <= k < a + n && !(s == dseg && lo <= k < hi) ==> #[trigger] word_is_zero(after[s as int].spec_words()[k]),
        None => true,
    }
}

/// An accessor of a pointer field that is a variant of a union.
pub struct PtrVariant<Repr> {
    pub slot: u16,
    pub variant: VariantInfo,
    pub repr: Repr,
}

impl<'a, A: ReadArena + ?Sized> PtrVariant<StructReader<'a, A>> {
    /// Whether the union is set to this variant.
    pub fn is_set(&self) -> (r: bool)
        ensures
            r == (reader_case(self.repr, self.variant.slot) == self.variant.case),
    {
        self.repr.data_field::<u16>(self.variant.slot as usize) == self.variant.case
    }

    /// The field, if the union is set to this variant.
    pub fn field(&self) -> (r: Option<PtrField<StructReader<'a, A>>>)
        ensures
            r is Some <==> reader_case(self.repr, self.variant.slot) == self.variant.case,
            r matches Some(f) ==> f.slot == self.slot && f.repr == self.repr,
    {
        if self.is_set() {
            Some(PtrField { slot: self.slot, repr: self.repr })
        } else {
            None
        }
    }

    /// The struct the field points at, or an empty struct where the union is set to another
    /// variant, or the field is null or cannot be read.
    pub fn get(&self) -> (r: StructReader<'a, A>)
        ensures
            reader_case(self.repr, self.variant.slot) == self.variant.case ==> reads_field_struct(self.repr, self.slot, r),
            reader_case(self.repr, self.variant.slot) != self.variant.case ==> r.spec_data().len() == 0 && r.spec_ptrs_len() == 0,
    {
        match self.field() {
            Some(f) => f.get(),
            None => StructReader::empty(),
        }
    }
}

impl PtrVariant<StructBuilder> {
    /// Another accessor of the same variant.
    pub fn by_ref(&mut self) -> (r: PtrVariant<StructBuilder>)
        ensures
            r.slot == old(self).slot,
            r.variant == old(self).variant,
            r.repr == old(self).repr,
            final(self).slot == old(self).slot,
            final(self).variant == old(self).variant,
            final(self).repr == old(self).repr,
    {
        PtrVariant { slot: self.slot, variant: self.variant, repr: self.repr }
    }

    /// Whether the union is set to this variant.
    pub fn is_set<B: BuildArena + ?Sized>(&self, arena: &B) -> (r: bool)
        requires
            arena.inv(),
            self.repr.valid_in(arena.spec_arena()),
        ensures
            r == (builder_case(arena.spec_arena(), self.repr, self.variant.slot) == self.variant.case),
    {
        self.repr.data_field::<u16, B>(arena, self.variant.slot as usize) == self.variant.case
    }

    /// Sets the union to this variant, writing its discriminant.
    pub fn set_case<B: BuildArena + ?Sized>(&self, arena: &mut B)
        requires
            old(arena).inv(),
            self.repr.valid_in(old(arena).spec_arena()),
        ensures
            final(arena).spec_alloc_segment() == old(arena).spec_alloc_segment(),
            final(arena).inv(),
            self.repr.valid_in(final(arena).spec_arena()),
            same_but(
                old(arena).spec_arena(),
                final(arena).spec_arena(),
                self.repr.builder.segment,
                self.repr.start as int,
                self.repr.start + self.repr.size.data,
            ),
            <u16 as Data>::spec_range(self.variant.slot as int).1 <= self.repr.size.data * 8 ==> builder_case(
                final(arena).spec_arena(),
                self.repr,
                self.variant.slot,
            ) == self.variant.case,
    {
        self.repr.set_field::<u16, B>(arena, self.variant.slot as usize, self.variant.case);
    }

    /// Sets the union to this variant and gives the field. Where the union was set to another
    /// variant, the field is cleared first: its pointer is set to null and what it referred to
    /// is zeroed.
    pub fn init_case<B: BuildArena + ?Sized>(&self, arena: &mut B) -> (r: PtrField<StructBuilder>)
        requires
            old(arena).inv(),
            self.repr.valid_in(old(arena).spec_arena()),
        ensures
            final(arena).inv(),
            self.repr.valid_in(final(arena).spec_arena()),
            r.slot == self.slot,
            r.repr == self.repr,
            builder_case(old(arena).spec_arena(), self.repr, self.variant.slot) == self.variant.case ==> final(arena).spec_arena()
                == old(arena).spec_arena(),
            builder_case(old(arena).spec_arena(), self.repr, self.variant.slot) != self.variant.case && self.slot
                < self.repr.size.ptrs ==> parts_null(parts_of(arena_words(final(arena).spec_arena(), self.repr.builder.segment)[self.repr.start + self.repr.size.data + self.slot])),
            <u16 as Data>::spec_range(self.variant.slot as int).1 <= self.repr.size.data * 8 ==> builder_case(
                final(arena).spec_arena(),
                self.repr,
                self.variant.slot,
            ) == self.variant.case,
            builder_case(old(arena).spec_arena(), self.repr, self.variant.slot) != self.variant.case && self.slot
                < self.repr.size.ptrs ==> object_zeroed_outside(
                old(arena).spec_arena(),
                final(arena).spec_arena(),
                self.repr.builder.segment,
                self.repr.start + self.repr.size.data + self.slot,
                self.repr.builder.segment,
                self.repr.start as int,
                self.repr.start + self.repr.size.data,
            ),
    {
        if !self.is_set(arena) {
            proof {
                arena.lemma_used_fits();
            }
            PtrField { slot: self.slot, repr: self.repr }.clear(arena);
            let ghost mid = arena.spec_arena();
            proof {
                arena.lemma_used_fits();
                assert(self.repr.valid_in(mid));
            }
            self.set_case(arena);
            proof {
                let a = arena.spec_arena();
                let seg = self.repr.builder.segment as int;
                let k = self.repr.start + self.repr.size.data + self.slot;
                if self.slot < self.repr.size.ptrs {
                    assert(a[seg].spec_words()[k] == mid[seg].spec_words()[k]);
                    let lo = self.repr.start as int;
                    let hi = self.repr.start + self.repr.size.data;
                    if let Some((os, oa, on)) = object_of(used_segments(old(arena).spec_arena()), self.repr.builder.segment, k) {
                        if region_writable(old(arena).spec_arena(), os, oa, on) {
                            assert forall|j: int| oa <= j < oa + on && !(os == self.repr.builder.segment && lo <= j < hi)
                                implies #[trigger] word_is_zero(a[os as int].spec_words()[j]) by {
                                assert(mid[os as int].spec_words().subrange(oa, oa + on)[j - oa] == mid[os as int].spec_words()[j]);
                                assert(a[os as int].spec_words()[j] == mid[os as int].spec_words()[j]);
                            }
                        }
                    }
                }
            }
        }
        PtrField { slot: self.slot, repr: self.repr }
    }

    /// Where the union is set to this variant, sets the field to null and zeroes what it referred
    /// to, and in turn what that refers to; else leaves the message as it is.
    pub fn clear<B: BuildArena + ?Sized>(&self, arena: &mut B)
        requires
            old(arena).inv(),
            self.repr.start + self.repr.size.spec_total() <= u29_max(),
            self.repr.valid_in(old(arena).spec_arena()),
        ensures
            final(arena).inv(),
            zeroed_from(old(arena).spec_arena(), final(arena).spec_arena()),
            final(arena).spec_alloc_segment() == old(arena).spec_alloc_segment(),
            builder_case(old(arena).spec_arena(), self.repr, self.variant.slot) != self.variant.case ==> final(arena).spec_arena()
                == old(arena).spec_arena(),
            builder_case(old(arena).spec_arena(), self.repr, self.variant.slot) == self.variant.case && self.slot
                < self.repr.size.ptrs ==> crate::ptr::parts_null(crate::ptr::parts_of(crate::ptr::arena_words(final(arena).spec_arena(), self.repr.builder.segment)[self.repr.start + self.repr.size.data + self.slot])),
    {
        if self.is_set(arena) {
            PtrField { slot: self.slot, repr: self.repr }.clear(arena);
        } else {
            proof {
                assert(zeroed_from(arena.spec_arena(), arena.spec_arena()));
            }
        }
    }

    /// Sets the union to this variant and allocates a zeroed struct of the given size for the
    /// field, clearing first what the field referred to.
    pub fn try_init<B: BuildArena + ?Sized>(&self, arena: &mut B, size: StructSize) -> (r: Result<StructBuilder, Error>)
        requires
            old(arena).inv(),
            self.slot < self.repr.size.ptrs,
            self.repr.start + self.repr.size.spec_total() <= u29_max(),
            self.repr.valid_in(old(arena).spec_arena()),
        ensures
            final(arena).inv(),
            <u16 as Data>::spec_range(self.variant.slot as int).1 <= self.repr.size.data * 8 ==> builder_case(
                final(arena).spec_arena(),
                self.repr,
                self.variant.slot,
            ) == self.variant.case,
            r matches Err(e) ==> (e.kind matches ErrorKind::AllocFailed(n) && n@ == size.spec_total() + 1),
            size.spec_total() == 0 || has_room(old(arena).spec_arena(), self.repr.builder.segment, size.spec_total())
                || has_room(old(arena).spec_arena(), old(arena).spec_alloc_segment(), size.spec_total() + 1) ==> r is Ok,
            r matches Ok(s) ==> s.size == size && reads_struct(
                final(arena).spec_arena(),
                self.repr.builder.segment,
                self.repr.start + self.repr.size.data + self.slot,
                s.builder.segment,
                s.start as int,
                size,
            ),
    {
        let ghost a0 = arena.spec_arena();
        proof {
            arena.lemma_used_fits();
        }
        PtrField { slot: self.slot, repr: self.repr }.clear(arena);
        proof {
            arena.lemma_used_fits();
            let a1 = arena.spec_arena();
            assert(self.repr.valid_in(a1));
        }
        self.set_case(arena);
        let ghost mid = arena.spec_arena();
        proof {
            arena.lemma_used_fits();
        }
        let f = PtrField { slot: self.slot, repr: self.repr };
        let r = f.try_init(arena, size);
        proof {
            let a = arena.spec_arena();
            let seg = self.repr.builder.segment as int;
            let lo = self.repr.start as int;
            let hi = self.repr.start + self.repr.size.data;
            assert(struct_data(a, self.repr.builder.segment, lo, self.repr.size) =~= struct_data(mid, self.repr.builder.segment, lo, self.repr.size)) by {
                assert forall|k: int| lo <= k < hi implies #[trigger] a[seg].spec_words()[k] == mid[seg].spec_words()[k] by {}
            }
        }
        r
    }

    /// The field, if the union is set to this variant.
    pub fn field<B: BuildArena + ?Sized>(&self, arena: &B) -> (r: Option<PtrField<StructBuilder>>)
        requires
            arena.inv(),
            self.repr.valid_in(arena.spec_arena()),
        ensures
            r is Some <==> builder_case(arena.spec_arena(), self.repr, self.variant.slot) == self.variant.case,
            r matches Some(f) ==> f.slot == self.slot && f.repr == self.repr,
    {
        if self.is_set(arena) {
            Some(PtrField { slot: self.slot, repr: self.repr })
        } else {
            None
        }
    }
}

} // verus!
