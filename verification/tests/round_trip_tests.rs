use recapn::allocator::{Fixed, Global};
use recapn::message::Message;
use recapn::num::u29;
use recapn::ptr::{ElementSize, PtrElementSize, StructSize};
use recapn::ErrorKind;
use recapn::field::PtrField;
use recapn::list::{Builder as ListBuilder, Reader as ListReader};

fn count(n: u32) -> u29 {
    u29::new(n).unwrap()
}

#[test]
fn struct_fields_read_back_what_was_written() {
    let mut message = Message::global();
    let builder = message.builder().unwrap();
    let size = StructSize { data: 2, ptrs: 1 };
    let s = builder.init_struct_root(&mut message.arena, size).unwrap();
    s.set_field::<u64, _>(&mut message.arena, 0, 0x0123_4567_89ab_cdef);
    s.set_field::<u16, _>(&mut message.arena, 5, 0xbeef);
    s.set_field::<bool, _>(&mut message.arena, 72, true);
    s.set_field_with_default::<u32, _>(&mut message.arena, 3, 7, 5);

    // the builder sees its own writes
    assert_eq!(s.data_field::<u64, _>(&message.arena, 0), 0x0123_4567_89ab_cdef);
    assert_eq!(s.data_field_with_default::<u32, _>(&message.arena, 3, 5), 7);

    let reader = message.reader();
    let root = reader.root().to_struct().unwrap().unwrap();
    assert_eq!(root.size(), size);
    assert_eq!(root.data_field::<u64>(0), 0x0123_4567_89ab_cdef);
    assert_eq!(root.data_field::<u16>(5), 0xbeef);
    assert_eq!(root.data_field::<bool>(72), true);
    assert_eq!(root.data_field::<bool>(73), false);
    assert_eq!(root.data_field_with_default::<u32>(3, 5), 7);
    // the stored bits are the value xor the default
    assert_eq!(root.data_field::<u32>(3), 7 ^ 5);
    // a field past the data section reads as its default
    assert_eq!(root.data_field::<u64>(2), 0);
    assert_eq!(root.data_field_with_default::<u64>(2, 99), 99);
    assert!(root.ptr_field(0).is_null());
}

#[test]
fn empty_struct_root_reads_back() {
    let mut message = Message::global();
    let builder = message.builder().unwrap();
    builder.init_struct_root(&mut message.arena, StructSize::empty()).unwrap();
    let reader = message.reader();
    let root = reader.root().to_struct().unwrap().unwrap();
    assert_eq!(root.size(), StructSize::empty());
    assert_eq!(root.data_field::<u64>(0), 0);
}

#[test]
fn struct_in_a_new_segment_reads_back_through_a_far_pointer() {
    // one-word segments: the root pointer fills the first, the struct lands in another
    let mut message = Message::new(Fixed::new(count_nz(1), Global));
    let builder = message.builder().unwrap();
    let size = StructSize { data: 1, ptrs: 0 };
    let s = builder.init_struct_root(&mut message.arena, size).unwrap();
    s.set_field::<u32, _>(&mut message.arena, 1, 34);
    assert!(message.segments().unwrap().len() > 1);

    let reader = message.reader();
    let root = reader.root().to_struct().unwrap().unwrap();
    assert_eq!(root.data_field::<u32>(1), 34);
    assert_eq!(root.data_field::<u32>(0), 0);
}

fn count_nz(n: u32) -> recapn::num::NonZeroU29 {
    recapn::num::NonZeroU29::new(n).unwrap()
}

#[test]
fn list_elements_read_back_what_was_written() {
    let mut message = Message::global();
    let builder = message.builder().unwrap();
    let list = builder
        .into_root()
        .try_init_list(&mut message.arena, ElementSize::TwoBytes, count(5))
        .unwrap();
    assert_eq!(list.len().get(), 5);
    for i in 0..5u32 {
        list.set_data_unchecked::<u16, _>(&mut message.arena, i, (i as u16 + 1) * 1000);
    }
    assert_eq!(list.data_unchecked::<u16, _>(&message.arena, 3), 4000);

    let reader = message.reader();
    let l = reader.root().to_list(Some(PtrElementSize::TwoBytes)).unwrap().unwrap();
    assert_eq!(l.len().get(), 5);
    assert_eq!(l.element_size(), ElementSize::TwoBytes);
    for i in 0..5u32 {
        assert_eq!(l.data_element::<u16>(i), (i as u16 + 1) * 1000);
    }
}

#[test]
fn bit_list_reads_back() {
    let mut message = Message::global();
    let builder = message.builder().unwrap();
    let list = builder.into_root().try_init_list(&mut message.arena, ElementSize::Bit, count(70)).unwrap();
    list.set_data_unchecked::<bool, _>(&mut message.arena, 0, true);
    list.set_data_unchecked::<bool, _>(&mut message.arena, 69, true);
    let reader = message.reader();
    let l = reader.root().to_list(None).unwrap().unwrap();
    assert_eq!(l.len().get(), 70);
    assert!(l.data_element::<bool>(0));
    assert!(!l.data_element::<bool>(1));
    assert!(l.data_element::<bool>(69));
}

#[test]
fn struct_list_reads_back() {
    let mut message = Message::global();
    let builder = message.builder().unwrap();
    let size = StructSize { data: 1, ptrs: 1 };
    let list = builder
        .into_root()
        .try_init_list(&mut message.arena, ElementSize::InlineComposite(size), count(3))
        .unwrap();
    for i in 0..3u32 {
        let s = list.struct_mut_unchecked(&message.arena, i);
        s.set_field::<u64, _>(&mut message.arena, 0, 10 + i as u64);
    }
    list.set_data_unchecked::<u8, _>(&mut message.arena, 1, 0xff);

    let reader = message.reader();
    let l = reader.root().to_list(None).unwrap().unwrap();
    assert_eq!(l.len().get(), 3);
    assert_eq!(l.element_size(), ElementSize::InlineComposite(size));
    assert_eq!(l.struct_element(0).data_field::<u64>(0), 10);
    // the first byte of the second struct was overwritten
    assert_eq!(l.struct_element(1).data_field::<u64>(0), 0xff);
    assert_eq!(l.struct_element(2).data_field::<u64>(0), 12);
    assert_eq!(l.data_element::<u8>(1), 0xff);
    assert!(l.ptr_element(2).is_null());
}

#[test]
fn empty_list_after_the_last_word_is_out_of_bounds() {
    let mut message = Message::global();
    let builder = message.builder().unwrap();
    let root = builder.into_root();
    let list = root.try_init_list(&mut message.arena, ElementSize::EightBytes, count(0)).unwrap();
    assert_eq!(list.len().get(), 0);
    let reader = message.reader();
    // the root pointer is the only used word, and a read of an empty list must start inside the
    // segment: the list right after the root pointer is out of bounds
    let err = reader.root().to_list(None).err().unwrap();
    assert_eq!(err.kind, ErrorKind::PointerOutOfBounds);
}

#[test]
fn reading_a_list_as_a_struct_fails() {
    let mut message = Message::global();
    let builder = message.builder().unwrap();
    builder.into_root().try_init_list(&mut message.arena, ElementSize::Byte, count(3)).unwrap();
    let reader = message.reader();
    assert!(reader.root().to_struct().is_err());
    assert!(reader.root().to_list(Some(PtrElementSize::EightBytes)).is_err());
}

#[test]
fn typed_list_builder_and_reader() {
    let mut message = Message::global();
    let builder = message.builder().unwrap();
    let raw = builder.into_root().try_init_list(&mut message.arena, ElementSize::FourBytes, count(4)).unwrap();
    let list: ListBuilder<i32> = ListBuilder::new(raw);
    assert_eq!(list.len().get(), 4);
    assert!(list.try_at(4).is_none());
    let mut lender = list.into_lender_range(1, 10);
    let mut next = -1;
    while let Some(element) = lender.next() {
        element.set(&mut message.arena, next);
        next -= 1;
    }
    let list: ListBuilder<i32> = ListBuilder::new(raw);
    assert_eq!(list.at(0).get(&message.arena), 0);
    assert_eq!(list.at(3).get(&message.arena), -3);
    list.into_element(0).set(&mut message.arena, 7);

    let reader = message.reader();
    let l: ListReader<'_, i32, _> = ListReader::new(reader.root().to_list(None).unwrap().unwrap());
    assert_eq!(l.len(), 4);
    assert_eq!(l.at(0), 7);
    assert_eq!(l.at(1), -1);
    assert_eq!(l.try_at(2), Some(-2));
    assert_eq!(l.at(3), -3);
    assert_eq!(l.try_at(4), None);
}

#[test]
fn empty_typed_list_reader() {
    let l: ListReader<'_, u64, recapn::message::SingleSegmentArena> = ListReader::empty();
    assert_eq!(l.len(), 0);
    assert_eq!(l.try_at(0), None);
    assert_eq!(l.repr.element_size(), ElementSize::EightBytes);
}

#[test]
fn text_and_data_fields_read_back() {
    let mut message = Message::global();
    let builder = message.builder().unwrap();
    let s = builder.init_struct_root(&mut message.arena, StructSize { data: 0, ptrs: 2 }).unwrap();
    let text_field = PtrField { slot: 0, repr: s };
    let blob = text_field.set_str(&mut message.arena, "hello, world").unwrap();
    assert_eq!(blob.len().get(), 13);
    let data_field = PtrField { slot: 1, repr: s };
    data_field.set_slice(&mut message.arena, &[1, 2, 3, 255]).unwrap();

    let reader = message.reader();
    let root = reader.root().to_struct().unwrap().unwrap();
    let text_blob = root.ptr_field(0).to_blob().unwrap().unwrap();
    let text = recapn::text::Reader::new(text_blob).unwrap();
    // the length counts the terminating zero byte
    assert_eq!(text.len(), 13);
    assert_eq!(text.as_bytes(), b"hello, world");
    assert_eq!(text.as_str().unwrap(), "hello, world");
    let data = recapn::data::Reader::from_blob(root.ptr_field(1).to_blob().unwrap().unwrap());
    assert_eq!(data.as_slice(), &[1, 2, 3, 255]);
}

#[test]
fn empty_slice_field_reads_back() {
    let mut message = Message::global();
    let builder = message.builder().unwrap();
    // a second pointer after the field, so that the empty blob's position is inside the segment
    let s = builder.init_struct_root(&mut message.arena, StructSize { data: 0, ptrs: 2 }).unwrap();
    PtrField { slot: 0, repr: s }.set_slice(&mut message.arena, &[]).unwrap();
    let reader = message.reader();
    let root = reader.root().to_struct().unwrap().unwrap();
    let data = recapn::data::Reader::from_blob(root.ptr_field(0).to_blob().unwrap().unwrap());
    assert!(data.is_empty());
}

#[test]
fn sizes_of_what_pointers_refer_to() {
    let mut message = Message::global();
    let builder = message.builder().unwrap();
    let s = builder.init_struct_root(&mut message.arena, StructSize { data: 2, ptrs: 2 }).unwrap();
    PtrField { slot: 0, repr: s }.set_str(&mut message.arena, "hello").unwrap();
    let list = s.ptr_field_mut(1).unwrap();
    let l = list
        .try_init_list(&mut message.arena, ElementSize::InlineComposite(StructSize { data: 1, ptrs: 1 }), count(3))
        .unwrap();
    let first = l.struct_mut_unchecked(&message.arena, 0);
    PtrField { slot: 0, repr: first }.set_slice(&mut message.arena, &[7; 9]).unwrap();

    let reader = message.reader();
    let root = reader.root();
    // the struct (4 words), the text (1 word), the list (6 words and its tag) and the data of
    // its first element (2 words)
    let size = root.target_size().unwrap();
    assert_eq!(size.words, 4 + 1 + 7 + 2);
    assert_eq!(size.caps, 0);
    let r = root.to_struct().unwrap().unwrap();
    assert_eq!(r.total_size().unwrap().words, 14);
    let lr = r.ptr_field(1).to_list(None).unwrap().unwrap();
    assert_eq!(lr.total_size().unwrap().words, 7 + 2);
    assert_eq!(r.ptr_field(0).target_size().unwrap().words, 1);
    assert_eq!(PtrField { slot: 1, repr: r }.get().size(), StructSize::empty());
}

#[test]
fn sizes_respect_the_nesting_limit() {
    let mut message = Message::global();
    let builder = message.builder().unwrap();
    builder.init_struct_root(&mut message.arena, StructSize { data: 1, ptrs: 0 }).unwrap();
    let options = recapn::message::ReaderOptions { traversal_limit: 1000, nesting_limit: 1 };
    let reader = recapn::message::Reader::new(&message.arena, options);
    assert_eq!(reader.root().target_size().err().map(|e| e.kind), Some(ErrorKind::NestingLimitExceeded));
    let options = recapn::message::ReaderOptions { traversal_limit: 1000, nesting_limit: 2 };
    let reader = recapn::message::Reader::new(&message.arena, options);
    assert_eq!(reader.root().target_size().unwrap().words, 1);
    // a traversal limit smaller than the struct
    let options = recapn::message::ReaderOptions { traversal_limit: 0, nesting_limit: 64 };
    let reader = recapn::message::Reader::new(&message.arena, options);
    assert_eq!(reader.root().target_size().err().map(|e| e.kind), Some(ErrorKind::ReadLimitExceeded));
}

#[test]
fn text_that_is_not_utf8_does_not_decode() {
    let blob = recapn::ptr::BlobReader::from_vec(vec![0x68, 0xff, 0x69, 0]);
    let text = recapn::text::Reader::new(blob).unwrap();
    assert_eq!(text.as_bytes(), &[0x68, 0xff, 0x69]);
    assert!(text.as_str().is_err());
    let unterminated = recapn::ptr::BlobReader::from_vec(vec![0x68, 0x69]);
    assert!(recapn::text::Reader::new(unterminated).is_none());
    let ok = recapn::ptr::BlobReader::from_vec("héllo\0".as_bytes().to_vec());
    assert_eq!(recapn::text::Reader::new(ok).unwrap().as_str().unwrap(), "héllo");
}

#[test]
fn new_objects_read_as_defaults() {
    let mut message = Message::global();
    let builder = message.builder().unwrap();
    let s = builder.init_struct_root(&mut message.arena, StructSize { data: 2, ptrs: 1 }).unwrap();
    assert_eq!(s.data_field::<u64, _>(&message.arena, 1), 0);
    assert_eq!(s.data_field_with_default::<i32, _>(&message.arena, 1, -7), -7);
    assert_eq!(s.data_field_with_default::<bool, _>(&message.arena, 3, true), true);
    let l = s.ptr_field_mut(0).unwrap().try_init_list(&mut message.arena, ElementSize::FourBytes, count(4)).unwrap();
    for i in 0..4 {
        assert_eq!(l.data_unchecked::<u32, _>(&message.arena, i), 0);
    }
}

#[test]
fn union_variants_set_and_read() {
    use_variants();
}

fn use_variants() {
    let mut message = Message::global();
    let builder = message.builder().unwrap();
    let s = builder.init_struct_root(&mut message.arena, StructSize { data: 1, ptrs: 1 }).unwrap();
    // a union with its discriminant at u16 slot 0: a u32 variant (case 0, slot 1) and a struct
    // variant (case 1, pointer 0)
    let variant_u32 = recapn::field::DataVariant {
        descriptor: recapn::field::FieldInfo { slot: 1, default: 5u32 },
        variant: recapn::field::VariantInfo { slot: 0, case: 0 },
        repr: s,
    };
    let variant_struct = recapn::field::PtrVariant { slot: 0, variant: recapn::field::VariantInfo { slot: 0, case: 1 }, repr: s };
    variant_u32.set(&mut message.arena, 77);
    assert_eq!(variant_u32.get(&message.arena), Some(77));
    assert!(!variant_struct.is_set(&message.arena));
    let inner = variant_struct.try_init(&mut message.arena, StructSize { data: 1, ptrs: 0 }).unwrap();
    inner.set_field::<u64, _>(&mut message.arena, 0, 9);
    assert!(variant_struct.is_set(&message.arena));
    assert_eq!(variant_u32.get(&message.arena), None);
    assert_eq!(variant_u32.get_or_default(&message.arena), 5);

    let reader = message.reader();
    let root = reader.root().to_struct().unwrap().unwrap();
    let read_struct = recapn::field::PtrVariant { slot: 0, variant: recapn::field::VariantInfo { slot: 0, case: 1 }, repr: root };
    assert!(read_struct.is_set());
    assert_eq!(read_struct.get().data_field::<u64>(0), 9);
    let read_u32 = recapn::field::DataVariant {
        descriptor: recapn::field::FieldInfo { slot: 1, default: 5u32 },
        variant: recapn::field::VariantInfo { slot: 0, case: 0 },
        repr: root,
    };
    assert_eq!(read_u32.get(), None);
    assert_eq!(read_u32.get_or_default(), 5);
}

#[test]
fn builders_read_as_they_are() {
    let mut message = Message::global();
    let builder = message.builder().unwrap();
    let root = builder.into_root();
    let s = root.try_init_struct(&mut message.arena, StructSize { data: 1, ptrs: 1 }).unwrap();
    s.set_field::<u16, _>(&mut message.arena, 3, 0xabcd);
    let l = s.ptr_field_mut(0).unwrap().try_init_list(&mut message.arena, ElementSize::Byte, count(3)).unwrap();
    l.set_data_unchecked::<u8, _>(&mut message.arena, 2, 9);
    assert_eq!(s.as_reader(&message.arena).data_field::<u16>(3), 0xabcd);
    assert_eq!(l.as_reader(&message.arena).data_element::<u8>(2), 9);
    assert_eq!(root.as_reader(&message.arena).to_struct().unwrap().unwrap().data_field::<u16>(3), 0xabcd);
}

#[test]
fn struct_fields_are_followed_or_refused() {
    let mut message = Message::global();
    let builder = message.builder().unwrap();
    let s = builder.init_struct_root(&mut message.arena, StructSize { data: 0, ptrs: 3 }).unwrap();
    PtrField { slot: 0, repr: s }.set_str(&mut message.arena, "hi").unwrap();
    let inner = s
        .ptr_field_mut(1)
        .unwrap()
        .try_init_struct(&mut message.arena, StructSize { data: 1, ptrs: 0 })
        .unwrap();
    inner.set_field::<u16, _>(&mut message.arena, 0, 513);

    let reader = message.reader();
    let r = reader.root().to_struct().unwrap().unwrap();
    // a text pointer is no struct
    let err = PtrField { slot: 0, repr: r }.try_get().err().unwrap();
    assert!(matches!(
        err.kind,
        ErrorKind::UnexpectedRead(recapn::ptr::FailedRead {
            expected: Some(recapn::ptr::ExpectedRead::Struct),
            actual: recapn::ptr::ActualRead::List,
        })
    ));
    assert!(PtrField { slot: 0, repr: r }.try_get_option().is_err());
    // the struct behind the second pointer
    let got = PtrField { slot: 1, repr: r }.try_get().unwrap();
    assert_eq!(got.size(), StructSize { data: 1, ptrs: 0 });
    assert_eq!(got.data_field::<u16>(0), 513);
    assert!(PtrField { slot: 1, repr: r }.try_get_option().unwrap().is_some());
    // a null pointer and one past the pointer section
    assert!(PtrField { slot: 2, repr: r }.try_get_option().unwrap().is_none());
    assert_eq!(PtrField { slot: 2, repr: r }.try_get().unwrap().size(), StructSize::empty());
    assert!(PtrField { slot: 5, repr: r }.try_get_option().unwrap().is_none());
}

#[test]
fn cleared_fields_read_as_null_and_their_objects_are_zeroed() {
    let mut message = Message::global();
    let builder = message.builder().unwrap();
    let s = builder.init_struct_root(&mut message.arena, StructSize { data: 1, ptrs: 2 }).unwrap();
    s.set_field::<u64, _>(&mut message.arena, 0, 7);
    PtrField { slot: 0, repr: s }.set_str(&mut message.arena, "hello").unwrap();
    let inner = s
        .ptr_field_mut(1)
        .unwrap()
        .try_init_struct(&mut message.arena, StructSize { data: 1, ptrs: 1 })
        .unwrap();
    inner.set_field::<u64, _>(&mut message.arena, 0, 0xdead_beef);
    PtrField { slot: 0, repr: inner }.set_str(&mut message.arena, "nested").unwrap();
    // root pointer, root struct (3 words), "hello" (1), inner struct (2), "nested" (1)
    assert_eq!(message.segments().unwrap().first().len(), 8);

    PtrField { slot: 1, repr: s }.clear(&mut message.arena);
    {
        let segments = message.segments().unwrap();
        let bytes = segments.first().as_bytes();
        // the inner struct and its text are zero now
        assert!(bytes[5 * 8..8 * 8].iter().all(|b| *b == 0));
        // the rest of the root struct is kept
        assert_eq!(&bytes[8..16], &7u64.to_le_bytes());
    }
    let reader = message.reader();
    let root = reader.root().to_struct().unwrap().unwrap();
    assert!(root.ptr_field(1).is_null());
    assert_eq!(root.data_field::<u64>(0), 7);
    assert_eq!(
        recapn::text::Reader::new(root.ptr_field(0).to_blob().unwrap().unwrap()).unwrap().as_bytes(),
        b"hello"
    );

    // a cleared field can be set again
    let p = s.ptr_field_mut(0).unwrap();
    p.clear(&mut message.arena);
    let again = p.try_init_struct(&mut message.arena, StructSize { data: 1, ptrs: 0 }).unwrap();
    again.set_field::<u16, _>(&mut message.arena, 0, 9);
    let reader = message.reader();
    let root = reader.root().to_struct().unwrap().unwrap();
    assert_eq!(root.ptr_field(0).to_struct().unwrap().unwrap().data_field::<u16>(0), 9);
}

#[test]
fn capability_pointers_read_back_their_index() {
    let mut message = Message::global();
    let builder = message.builder().unwrap();
    let s = builder.init_struct_root(&mut message.arena, StructSize { data: 0, ptrs: 1 }).unwrap();
    s.ptr_field_mut(0).unwrap().set_capability_ptr(&mut message.arena, 5);
    let reader = message.reader();
    let root = reader.root().to_struct().unwrap().unwrap();
    assert_eq!(root.ptr_field(0).try_to_capability_index().unwrap(), Some(5));
    assert_eq!(root.ptr_field(0).ptr_type().unwrap(), recapn::ptr::PtrType::Capability);
}

#[test]
fn a_cleared_arena_has_no_segments() {
    let mut message = Message::global();
    let builder = message.builder().unwrap();
    builder.init_struct_root(&mut message.arena, StructSize { data: 1, ptrs: 0 }).unwrap();
    assert!(message.segments().is_some());
    message.arena.clear();
    assert!(message.segments().is_none());
    // the message can be built again
    let builder = message.builder().unwrap();
    builder.init_struct_root(&mut message.arena, StructSize { data: 2, ptrs: 0 }).unwrap();
    assert_eq!(message.segments().unwrap().first().len(), 3);
}

#[test]
fn builder_pointers_read_what_they_refer_to() {
    let mut message = Message::global();
    let builder = message.builder().unwrap();
    let s = builder.init_struct_root(&mut message.arena, StructSize { data: 0, ptrs: 4 }).unwrap();
    PtrField { slot: 0, repr: s }.set_str(&mut message.arena, "hey").unwrap();
    let inner = s
        .ptr_field_mut(1)
        .unwrap()
        .try_init_struct(&mut message.arena, StructSize { data: 1, ptrs: 0 })
        .unwrap();
    inner.set_field::<u32, _>(&mut message.arena, 1, 77);
    s.ptr_field_mut(2)
        .unwrap()
        .try_init_list(&mut message.arena, ElementSize::FourBytes, count(3))
        .unwrap();

    let text = s.ptr_field_mut(0).unwrap();
    assert_eq!(text.ptr_type(&message.arena).unwrap(), recapn::ptr::PtrType::List);
    assert_eq!(text.to_blob(&message.arena).unwrap().unwrap().as_slice(), b"hey\0");
    assert!(text.to_struct(&message.arena).is_err());

    let st = s.ptr_field_mut(1).unwrap();
    assert_eq!(st.ptr_type(&message.arena).unwrap(), recapn::ptr::PtrType::Struct);
    assert_eq!(st.to_struct(&message.arena).unwrap().unwrap().data_field::<u32>(1), 77);

    let list = s.ptr_field_mut(2).unwrap().to_list(&message.arena, None).unwrap().unwrap();
    assert_eq!(list.len().get(), 3);
    assert_eq!(list.element_size(), ElementSize::FourBytes);

    let null = s.ptr_field_mut(3).unwrap();
    assert_eq!(null.ptr_type(&message.arena).unwrap(), recapn::ptr::PtrType::Null);
    assert!(null.to_struct(&message.arena).unwrap().is_none());
    assert!(null.to_list(&message.arena, None).unwrap().is_none());
    assert!(null.to_blob(&message.arena).unwrap().is_none());
}

#[test]
fn builder_pointers_measure_what_they_refer_to() {
    let mut message = Message::global();
    let builder = message.builder().unwrap();
    let s = builder.init_struct_root(&mut message.arena, StructSize { data: 1, ptrs: 2 }).unwrap();
    PtrField { slot: 0, repr: s }.set_str(&mut message.arena, "twelve bytes").unwrap();
    s.ptr_field_mut(1).unwrap().set_capability_ptr(&mut message.arena, 0);
    let root = message.builder().unwrap().into_root();
    // the struct (3 words) and its text (13 bytes: 2 words); one capability
    let size = root.target_size(&message.arena).unwrap();
    assert_eq!(size.words, 5);
    assert_eq!(size.caps, 1);
    assert_eq!(s.ptr_field_mut(0).unwrap().target_size(&message.arena).unwrap().words, 2);
}

#[test]
fn setting_a_set_field_clears_the_old_value() {
    let mut message = Message::global();
    let builder = message.builder().unwrap();
    let s = builder.init_struct_root(&mut message.arena, StructSize { data: 0, ptrs: 1 }).unwrap();
    PtrField { slot: 0, repr: s }.set_str(&mut message.arena, "first").unwrap();
    // root pointer, the struct (1 word), "first" (1 word)
    assert_eq!(message.segments().unwrap().first().len(), 3);
    PtrField { slot: 0, repr: s }.set_str(&mut message.arena, "second").unwrap();
    {
        let segments = message.segments().unwrap();
        let bytes = segments.first().as_bytes();
        // the old text is zero, the new one follows it
        assert!(bytes[2 * 8..3 * 8].iter().all(|b| *b == 0));
        assert_eq!(segments.first().len(), 4);
    }
    let reader = message.reader();
    let root = reader.root().to_struct().unwrap().unwrap();
    let text = recapn::text::Reader::new(root.ptr_field(0).to_blob().unwrap().unwrap()).unwrap();
    assert_eq!(text.as_bytes(), b"second");
    // the root itself can be set again
    let again = message.builder().unwrap().init_struct_root(&mut message.arena, StructSize { data: 1, ptrs: 0 }).unwrap();
    again.set_field::<u8, _>(&mut message.arena, 0, 3);
    let reader = message.reader();
    assert_eq!(reader.root().to_struct().unwrap().unwrap().data_field::<u8>(0), 3);
}
