//! Typed lists of data values: readers, builders, their elements and a lender over a builder's
//! elements.

use crate::allocator::words_bytes;
use crate::arena::{ArenaSegment, BuildArena, ReadArena};
use crate::num::u29;
use crate::any::{AnyPtr, AnyStruct};
use crate::ptr::{list_section, list_words, struct_data, Data, ElementSize, ListBuilder, ListReader, PtrBuilder, PtrReader, StructBuilder, StructReader};
use crate::Family;
use core::marker::PhantomData;
use vstd::prelude::*;

verus! {

/// The error of a list that would hold more elements than a list can.
#[derive(Clone, Copy, Debug, PartialEq, Eq)]
pub struct TooManyElementsError;

/// A list of values of type `V`, read or built through `T`.
pub struct List<V, T> {
    pub repr: T,
    pub marker: PhantomData<V>,
}

/// A reader of a list of values of type `V`.
pub type Reader<'a, V, A> = List<V, ListReader<'a, A>>;

/// A builder of a list of values of type `V`.
pub type Builder<V> = List<V, ListBuilder>;

impl<V, T> List<V, T> {
    /// A typed view of an untyped list.
    pub fn new(repr: T) -> (r: Self)
        ensures
            r.repr == repr,
    {
        List { repr, marker: PhantomData }
    }
}

/// The value of element `index` of a list being read: the element itself, or the first data
/// field of a struct element.
pub open spec fn read_element<'a, V: Data, A: ReadArena + ?Sized>(l: ListReader<'a, A>, index: int) -> V {
    match l.spec_element_size() {
        ElementSize::InlineComposite(size) => V::spec_read(
            words_bytes(l.spec_section().subrange(index * size.spec_total(), index * size.spec_total() + size.data)),
            0,
            V::spec_zero(),
        ),
        _ => V::spec_read(words_bytes(l.spec_section()), index, V::spec_zero()),
    }
}

/// The value of element `index` of a list being built, as the arena holds it.
pub open spec fn built_element<V: Data>(arena: Seq<ArenaSegment>, l: ListBuilder, index: int) -> V {
    match l.element_size {
        ElementSize::InlineComposite(size) => V::spec_read(
            words_bytes(struct_data(arena, l.builder.segment, l.start + index * size.spec_total(), size)),
            0,
            V::spec_zero(),
        ),
        _ => V::spec_read(
            words_bytes(list_section(arena, l.builder.segment, l.start as int, l.element_size, l.element_count@ as int)),
            index,
            V::spec_zero(),
        ),
    }
}

impl<'a, V: Data, A: ReadArena + ?Sized> List<V, ListReader<'a, A>> {
    /// An empty list.
    pub fn empty() -> (r: Self)
        ensures
            r.repr.spec_len() == 0,
            r.repr.spec_element_size() == V::spec_element_size(),
    {
        List::new(ListReader::empty(V::element_size()))
    }

    /// The number of elements.
    pub fn len(&self) -> (r: u32)
        ensures
            r == self.repr.spec_len(),
    {
        self.repr.len().get()
    }

    /// The element at `index`, or `None` if the index is out of range.
    pub fn try_at(&self, index: u32) -> (r: Option<V>)
        ensures
            r is Some <==> index < self.repr.spec_len(),
            r matches Some(v) ==> v == read_element::<V, A>(self.repr, index as int),
    {
        if index < self.len() {
            Some(self.repr.data_element(index))
        } else {
            None
        }
    }

    /// The element at `index`, which must be in range.
    pub fn at(&self, index: u32) -> (r: V)
        requires
            index < self.repr.spec_len(),
        ensures
            r == read_element::<V, A>(self.repr, index as int),
    {
        self.repr.data_element(index)
    }
}

/// An element of a list of data values being built.
pub struct DataElement<V> {
    list: ListBuilder,
    idx: u32,
    v: PhantomData<V>,
}

impl<V> DataElement<V> {
    /// The list the element belongs to.
    pub closed spec fn spec_list(&self) -> ListBuilder {
        self.list
    }

    /// The index of the element.
    pub closed spec fn spec_index(&self) -> u32 {
        self.idx
    }

    #[verifier::type_invariant]
    closed spec fn in_range(&self) -> bool {
        self.idx < self.list.element_count@
    }
}

impl<V: Data> DataElement<V> {
    /// The value of the element.
    pub fn get<B: BuildArena + ?Sized>(&self, arena: &B) -> (r: V)
        requires
            arena.inv(),
            self.spec_list().valid_in(arena.spec_arena()),
        ensures
            r == built_element::<V>(arena.spec_arena(), self.spec_list(), self.spec_index() as int),
    {
        proof {
            use_type_invariant(self);
        }
        self.list.data_unchecked(arena, self.idx)
    }

    /// Sets the value of the element. The other elements keep their values where the element
    /// fills whole bytes (or is a bit of a bit list).
    pub fn set<B: BuildArena + ?Sized>(&self, arena: &mut B, value: V)
        requires
            old(arena).inv(),
            self.spec_list().valid_in(old(arena).spec_arena()),
        ensures
            final(arena).inv(),
            self.spec_list().valid_in(final(arena).spec_arena()),
            self.spec_list().element_size matches ElementSize::InlineComposite(size) ==> (V::spec_range(0).1 <= size.data * 8
                ==> built_element::<V>(final(arena).spec_arena(), self.spec_list(), self.spec_index() as int) == value),
            !(self.spec_list().element_size is InlineComposite) ==> (V::spec_range(self.spec_index() as int).1
                <= list_words_of(self.spec_list()) * 8 ==> built_element::<V>(
                final(arena).spec_arena(),
                self.spec_list(),
                self.spec_index() as int,
            ) == value),
    {
        proof {
            use_type_invariant(self);
        }
        self.list.set_data_unchecked(arena, self.idx, value);
    }
}

/// The words the elements of a list being built take.
pub open spec fn list_words_of(l: ListBuilder) -> int {
    crate::ptr::list_words(l.element_size, l.element_count@ as int)
}

impl<V: Data> List<V, ListBuilder> {
    /// The number of elements.
    pub fn len(&self) -> (r: u29)
        ensures
            r == self.repr.element_count,
    {
        self.repr.len()
    }

    /// The element at `index`, or `None` if the index is out of range.
    pub fn try_at(&self, index: u32) -> (r: Option<DataElement<V>>)
        ensures
            r is Some <==> index < self.repr.element_count@,
            r matches Some(e) ==> e.spec_list() == self.repr && e.spec_index() == index,
    {
        if index < self.len().get() {
            Some(DataElement { list: self.repr, idx: index, v: PhantomData })
        } else {
            None
        }
    }

    /// The element at `index`, which must be in range.
    pub fn at(&self, index: u32) -> (r: DataElement<V>)
        requires
            index < self.repr.element_count@,
        ensures
            r.spec_list() == self.repr,
            r.spec_index() == index,
    {
        DataElement { list: self.repr, idx: index, v: PhantomData }
    }

    /// The element at `index`, which must be in range, taking the list.
    pub fn into_element(self, index: u32) -> (r: DataElement<V>)
        requires
            index < self.repr.element_count@,
        ensures
            r.spec_list() == self.repr,
            r.spec_index() == index,
    {
        DataElement { list: self.repr, idx: index, v: PhantomData }
    }

    /// A lender over all the elements.
    pub fn into_lender(self) -> (r: Lender<V>)
        ensures
            r.spec_list() == self.repr,
            r.spec_next() == 0,
            r.spec_end() == self.repr.element_count@,
    {
        let len = self.len().get();
        Lender { next: 0, end: len, list: self }
    }

    /// A lender over the elements from `start` up to, not including, `end`, both limited to the
    /// length of the list.
    pub fn into_lender_range(self, start: u32, end: u32) -> (r: Lender<V>)
        ensures
            r.spec_list() == self.repr,
            r.spec_next() == if start < self.repr.element_count@ {
                start as int
            } else {
                self.repr.element_count@ as int
            },
            r.spec_end() == if end < self.repr.element_count@ {
                end as int
            } else {
                self.repr.element_count@ as int
            },
    {
        let len = self.len().get();
        let s = if start < len {
            start
        } else {
            len
        };
        let e = if end < len {
            end
        } else {
            len
        };
        Lender { next: s, end: e, list: self }
    }
}

/// A lender of the elements of a list being built, one after the other.
pub struct Lender<V> {
    next: u32,
    end: u32,
    list: List<V, ListBuilder>,
}

impl<V> Lender<V> {
    /// The list lent.
    pub closed spec fn spec_list(&self) -> ListBuilder {
        self.list.repr
    }

    /// The index of the next element.
    pub closed spec fn spec_next(&self) -> int {
        self.next as int
    }

    /// The index the lender stops at.
    pub closed spec fn spec_end(&self) -> int {
        self.end as int
    }

    /// The indices of the elements still to be lent, in order.
    pub open spec fn spec_remaining(&self) -> Seq<int> {
        Seq::new(if self.spec_next() < self.spec_end() {
            (self.spec_end() - self.spec_next()) as nat
        } else {
            0nat
        }, |i: int| self.spec_next() + i)
    }

    #[verifier::type_invariant]
    closed spec fn in_range(&self) -> bool {
        self.end <= self.list.repr.element_count@
    }
}

impl<V: Data> Lender<V> {
    /// The next element, if the range is not used up.
    pub fn next(&mut self) -> (r: Option<DataElement<V>>)
        ensures
            final(self).spec_list() == old(self).spec_list(),
            final(self).spec_end() == old(self).spec_end(),
            old(self).spec_next() < old(self).spec_end() ==> {
                &&& r matches Some(e) && e.spec_list() == old(self).spec_list() && e.spec_index() == old(self).spec_next()
                &&& final(self).spec_next() == old(self).spec_next() + 1
            },
            old(self).spec_next() >= old(self).spec_end() ==> r is None && final(self).spec_next() == old(self).spec_next(),
            match r {
                Some(e) => old(self).spec_remaining().len() > 0 && e.spec_index() == old(self).spec_remaining()[0]
                    && final(self).spec_remaining() == old(self).spec_remaining().drop_first(),
                None => old(self).spec_remaining().len() == 0 && final(self).spec_remaining() == old(self).spec_remaining(),
            },
    {
        proof {
            use_type_invariant(&*self);
        }
        if self.next < self.end {
            let idx = self.next;
            self.next = idx + 1;
            proof {
                assert(self.spec_remaining() =~= old(self).spec_remaining().drop_first());
            }
            Some(self.list.at(idx))
        } else {
            None
        }
    }
}

impl<'a, A: ReadArena + ?Sized> List<AnyStruct<Family>, ListReader<'a, A>> {
    /// The number of structs.
    pub fn len(&self) -> (r: u32)
        ensures
            r == self.repr.spec_len(),
    {
        self.repr.len().get()
    }

    /// The reader of the struct at `index`, or `None` if the index is out of range.
    pub fn try_at(&self, index: u32) -> (r: Option<StructReader<'a, A>>)
        ensures
            r is Some <==> index < self.repr.spec_len(),
            r matches Some(s) ==> (self.repr.spec_element_size() matches ElementSize::InlineComposite(size) ==> {
                &&& s.spec_data() == self.repr.spec_section().subrange(index * size.spec_total(), index * size.spec_total() + size.data)
                &&& s.spec_ptrs_len() == size.ptrs
            }),
    {
        if index < self.len() {
            Some(self.repr.struct_element(index))
        } else {
            None
        }
    }

    /// The reader of the struct at `index`, which must be in range.
    pub fn at(&self, index: u32) -> (r: StructReader<'a, A>)
        requires
            index < self.repr.spec_len(),
        ensures
            self.repr.spec_element_size() matches ElementSize::InlineComposite(size) ==> {
                &&& r.spec_data() == self.repr.spec_section().subrange(index * size.spec_total(), index * size.spec_total() + size.data)
                &&& r.spec_ptrs_len() == size.ptrs
            },
    {
        self.repr.struct_element(index)
    }
}

impl List<AnyStruct<Family>, ListBuilder> {
    /// The number of structs.
    pub fn len(&self) -> (r: u29)
        ensures
            r == self.repr.element_count,
    {
        self.repr.len()
    }

    /// The builder of the struct at `index` of a struct list, which must be in range.
    pub fn at<B: BuildArena + ?Sized>(&self, arena: &B, index: u32) -> (r: StructBuilder)
        requires
            arena.inv(),
            self.repr.valid_in(arena.spec_arena()),
            self.repr.element_size is InlineComposite,
            index < self.repr.element_count@,
        ensures
            r.builder == self.repr.builder,
            r.size == self.repr.element_size->0,
            r.start == self.repr.start + index * r.size.spec_total(),
            r.valid_in(arena.spec_arena()),
    {
        self.repr.struct_mut_unchecked(arena, index)
    }
}

impl<'a, A: ReadArena + ?Sized> List<AnyPtr<Family>, ListReader<'a, A>> {
    /// The number of pointers.
    pub fn len(&self) -> (r: u32)
        ensures
            r == self.repr.spec_len(),
    {
        self.repr.len().get()
    }

    /// The reader of the pointer at `index`, which must be in range.
    pub fn at(&self, index: u32) -> (r: PtrReader<'a, A>)
        requires
            index < self.repr.spec_len(),
        ensures
            self.repr.spec_element_size() == ElementSize::Pointer ==> (r.spec_ptr() matches Some((pos, rd)) && pos@
                == self.repr.spec_start() + index && Some(rd) == self.repr.spec_reader()),
    {
        self.repr.ptr_element(index)
    }
}

impl List<AnyPtr<Family>, ListBuilder> {
    /// The number of pointers.
    pub fn len(&self) -> (r: u29)
        ensures
            r == self.repr.element_count,
    {
        self.repr.len()
    }

    /// The builder of the pointer at `index` of a pointer list, or of the first pointer of the
    /// struct at `index` of a struct list; the index must be in range.
    pub fn at<B: BuildArena + ?Sized>(&self, arena: &B, index: u32) -> (r: PtrBuilder)
        requires
            arena.inv(),
            self.repr.valid_in(arena.spec_arena()),
            self.repr.element_size is Pointer || (self.repr.element_size matches ElementSize::InlineComposite(s) && s.ptrs > 0),
            index < self.repr.element_count@,
        ensures
            r.builder == self.repr.builder,
            self.repr.element_size is Pointer ==> r.ptr@ == self.repr.start + index,
            self.repr.start <= r.ptr@ < self.repr.start + list_words(self.repr.element_size, self.repr.element_count@ as int),
    {
        self.repr.ptr_mut_unchecked(arena, index)
    }
}

} // verus!
