use recapn::allocator::{Fixed, Global, Growing};
use recapn::message::Message;
use recapn::num::{u29, NonZeroU29};
use recapn::orphan::OrphanObject;
use recapn::ptr::{ElementSize, PtrEquality, StructSize};
use recapn::field::PtrField;

fn count(n: u32) -> u29 {
    u29::new(n).unwrap()
}

fn count_nz(n: u32) -> NonZeroU29 {
    NonZeroU29::new(n).unwrap()
}

#[test]
fn disowned_struct_is_adopted_elsewhere() {
    let mut message = Message::global();
    let builder = message.builder().unwrap();
    let s = builder.init_struct_root(&mut message.arena, StructSize { data: 0, ptrs: 2 }).unwrap();
    let inner = s
        .ptr_field_mut(0)
        .unwrap()
        .try_init_struct(&mut message.arena, StructSize { data: 1, ptrs: 0 })
        .unwrap();
    inner.set_field::<u32, _>(&mut message.arena, 1, 77);

    let orphan = s.ptr_field_mut(0).unwrap().disown_into(&mut message.arena);
    assert!(matches!(orphan.object, Some(OrphanObject::Struct { size: StructSize { data: 1, ptrs: 0 }, .. })));
    assert!(s.ptr_field_mut(0).unwrap().is_null(&message.arena));

    assert!(s.ptr_field_mut(1).unwrap().try_adopt(&mut message.arena, orphan).is_ok());
    let reader = message.reader();
    let root = reader.root().to_struct().unwrap().unwrap();
    assert!(root.ptr_field(0).is_null());
    let got = root.ptr_field(1).to_struct().unwrap().unwrap();
    assert_eq!(got.data_field::<u32>(1), 77);
}

#[test]
fn disowned_list_is_adopted_elsewhere() {
    let mut message = Message::global();
    let builder = message.builder().unwrap();
    let s = builder.init_struct_root(&mut message.arena, StructSize { data: 0, ptrs: 2 }).unwrap();
    let l = s
        .ptr_field_mut(1)
        .unwrap()
        .try_init_list(&mut message.arena, ElementSize::TwoBytes, count(3))
        .unwrap();
    l.set_data_unchecked::<u16, _>(&mut message.arena, 2, 0x1234);

    let orphan = s.ptr_field_mut(1).unwrap().disown_into(&mut message.arena);
    assert!(matches!(orphan.object, Some(OrphanObject::List { .. })));
    assert!(s.ptr_field_mut(0).unwrap().try_adopt(&mut message.arena, orphan).is_ok());

    let reader = message.reader();
    let root = reader.root().to_struct().unwrap().unwrap();
    assert!(root.ptr_field(1).is_null());
    let got = root.ptr_field(0).to_list(None).unwrap().unwrap();
    assert_eq!(got.len().get(), 3);
    assert_eq!(got.data_element::<u16>(2), 0x1234);
    assert_eq!(got.data_element::<u16>(0), 0);
}

#[test]
fn null_pointer_disowns_nothing_and_adopting_nothing_clears() {
    let mut message = Message::global();
    let builder = message.builder().unwrap();
    let s = builder.init_struct_root(&mut message.arena, StructSize { data: 0, ptrs: 2 }).unwrap();
    PtrField { slot: 1, repr: s }.set_str(&mut message.arena, "hi").unwrap();

    let orphan = s.ptr_field_mut(0).unwrap().disown_into(&mut message.arena);
    assert!(orphan.object.is_none());
    assert!(s.ptr_field_mut(1).unwrap().try_adopt(&mut message.arena, orphan).is_ok());
    assert!(s.ptr_field_mut(1).unwrap().is_null(&message.arena));
}

#[test]
fn capability_pointer_is_disowned_and_adopted() {
    let mut message = Message::global();
    let builder = message.builder().unwrap();
    let s = builder.init_struct_root(&mut message.arena, StructSize { data: 0, ptrs: 2 }).unwrap();
    s.ptr_field_mut(0).unwrap().set_capability_ptr(&mut message.arena, 5);

    let orphan = s.ptr_field_mut(0).unwrap().disown_into(&mut message.arena);
    assert!(matches!(orphan.object, Some(OrphanObject::Capability(5))));
    assert!(s.ptr_field_mut(1).unwrap().try_adopt(&mut message.arena, orphan).is_ok());

    let reader = message.reader();
    let root = reader.root().to_struct().unwrap().unwrap();
    assert_eq!(root.ptr_field(1).try_to_capability_index().unwrap(), Some(5));
    assert!(root.ptr_field(0).is_null());
}

#[test]
fn far_pointer_is_disowned_as_its_landing_pad() {
    // three-word segments: the root pointer and a two-pointer struct fill the first, so the
    // inner struct lands after a landing pad in the second
    let mut message = Message::new(Fixed::new(count_nz(3), Global));
    let builder = message.builder().unwrap();
    let s = builder.init_struct_root(&mut message.arena, StructSize { data: 0, ptrs: 2 }).unwrap();
    let inner = s
        .ptr_field_mut(0)
        .unwrap()
        .try_init_struct(&mut message.arena, StructSize { data: 1, ptrs: 0 })
        .unwrap();
    inner.set_field::<u64, _>(&mut message.arena, 0, 9);

    let orphan = s.ptr_field_mut(0).unwrap().disown_into(&mut message.arena);
    assert!(matches!(orphan.object, Some(OrphanObject::Far { double_far: false, .. })));
    assert_eq!(orphan.builder.segment, 1);
    assert!(s.ptr_field_mut(1).unwrap().try_adopt(&mut message.arena, orphan).is_ok());

    let reader = message.reader();
    let root = reader.root().to_struct().unwrap().unwrap();
    assert_eq!(root.ptr_field(1).to_struct().unwrap().unwrap().data_field::<u64>(0), 9);
}

#[test]
fn orphan_in_another_segment_is_reached_through_a_landing_pad() {
    // four-word segments: the root pointer and a three-word struct fill the first; the inner
    // struct and what its pointer refers to go to the second
    let mut message = Message::new(Fixed::new(count_nz(4), Global));
    let builder = message.builder().unwrap();
    let s = builder.init_struct_root(&mut message.arena, StructSize { data: 1, ptrs: 2 }).unwrap();
    let inner = s
        .ptr_field_mut(0)
        .unwrap()
        .try_init_struct(&mut message.arena, StructSize { data: 0, ptrs: 1 })
        .unwrap();
    let leaf = inner
        .ptr_field_mut(0)
        .unwrap()
        .try_init_struct(&mut message.arena, StructSize { data: 1, ptrs: 0 })
        .unwrap();
    leaf.set_field::<u16, _>(&mut message.arena, 0, 4242);
    assert_eq!(leaf.builder.segment, 1);

    let orphan = inner.ptr_field_mut(0).unwrap().disown_into(&mut message.arena);
    assert!(matches!(orphan.object, Some(OrphanObject::Struct { .. })));
    assert_eq!(orphan.builder.segment, 1);
    assert!(s.ptr_field_mut(1).unwrap().try_adopt(&mut message.arena, orphan).is_ok());

    let reader = message.reader();
    let root = reader.root().to_struct().unwrap().unwrap();
    assert_eq!(root.ptr_field(1).to_struct().unwrap().unwrap().data_field::<u16>(0), 4242);
    let inner_reader = root.ptr_field(0).to_struct().unwrap().unwrap();
    assert!(inner_reader.ptr_field(0).is_null());
}

fn message_with_struct(value: u64, text: &str) -> Message<Growing<Global>> {
    let mut message = Message::global();
    let builder = message.builder().unwrap();
    let s = builder.init_struct_root(&mut message.arena, StructSize { data: 1, ptrs: 1 }).unwrap();
    s.set_field::<u64, _>(&mut message.arena, 0, value);
    PtrField { slot: 0, repr: s }.set_str(&mut message.arena, text).unwrap();
    message
}

#[test]
fn equal_structs_compare_equal() {
    let a = message_with_struct(5, "same");
    let b = message_with_struct(5, "same");
    let c = message_with_struct(6, "same");
    let d = message_with_struct(5, "diff");
    let (ra, rb, rc, rd) = (a.reader(), b.reader(), c.reader(), d.reader());
    assert_eq!(ra.root().equality(&rb.root()).unwrap(), PtrEquality::Equal);
    assert_eq!(ra.root().equality(&rc.root()).unwrap(), PtrEquality::NotEqual);
    assert_eq!(ra.root().equality(&rd.root()).unwrap(), PtrEquality::NotEqual);
    let sa = ra.root().to_struct().unwrap().unwrap();
    let sb = rb.root().to_struct().unwrap().unwrap();
    let sc = rc.root().to_struct().unwrap().unwrap();
    assert_eq!(sa.equality(&sb).unwrap(), PtrEquality::Equal);
    assert_eq!(sa.equality(&sc).unwrap(), PtrEquality::NotEqual);
}

#[test]
fn struct_equality_ignores_trailing_zeros() {
    let mut a = Message::global();
    let s = a.builder().unwrap().init_struct_root(&mut a.arena, StructSize { data: 2, ptrs: 2 }).unwrap();
    s.set_field::<u32, _>(&mut a.arena, 0, 3);
    let mut b = Message::global();
    let t = b.builder().unwrap().init_struct_root(&mut b.arena, StructSize { data: 1, ptrs: 0 }).unwrap();
    t.set_field::<u32, _>(&mut b.arena, 0, 3);
    let (ra, rb) = (a.reader(), b.reader());
    let sa = ra.root().to_struct().unwrap().unwrap();
    let sb = rb.root().to_struct().unwrap().unwrap();
    assert_eq!(sa.equality(&sb).unwrap(), PtrEquality::Equal);
    // through pointers, data sections of different sizes differ
    assert_eq!(ra.root().equality(&rb.root()).unwrap(), PtrEquality::NotEqual);
}

fn bit_list(bits: &[bool]) -> Message<Growing<Global>> {
    let mut message = Message::global();
    let l = message
        .builder()
        .unwrap()
        .into_root()
        .try_init_list(&mut message.arena, ElementSize::Bit, count(bits.len() as u32))
        .unwrap();
    for (i, b) in bits.iter().enumerate() {
        l.set_data_unchecked::<bool, _>(&mut message.arena, i as u32, *b);
    }
    message
}

#[test]
fn bit_lists_compare_their_bits() {
    let a = bit_list(&[true, false, true]);
    let b = bit_list(&[true, false, true]);
    let c = bit_list(&[true, false, false]);
    let d = bit_list(&[true, false, true, false]);
    let (ra, rb, rc, rd) = (a.reader(), b.reader(), c.reader(), d.reader());
    assert_eq!(ra.root().equality(&rb.root()).unwrap(), PtrEquality::Equal);
    assert_eq!(ra.root().equality(&rc.root()).unwrap(), PtrEquality::NotEqual);
    assert_eq!(ra.root().equality(&rd.root()).unwrap(), PtrEquality::NotEqual);
    let la = ra.root().to_list(None).unwrap().unwrap();
    let lc = rc.root().to_list(None).unwrap().unwrap();
    assert_eq!(la.equality(&la).unwrap(), PtrEquality::Equal);
    assert_eq!(la.equality(&lc).unwrap(), PtrEquality::NotEqual);
}

#[test]
fn pointers_of_different_kinds_are_not_equal() {
    let a = message_with_struct(1, "x");
    let b = bit_list(&[true]);
    let (ra, rb) = (a.reader(), b.reader());
    assert_eq!(ra.root().equality(&rb.root()).unwrap(), PtrEquality::NotEqual);
    let mut c = Message::global();
    let s = c.builder().unwrap().init_struct_root(&mut c.arena, StructSize { data: 0, ptrs: 2 }).unwrap();
    s.ptr_field_mut(0).unwrap().set_capability_ptr(&mut c.arena, 1);
    s.ptr_field_mut(1).unwrap().set_capability_ptr(&mut c.arena, 2);
    let rc = c.reader();
    let sc = rc.root().to_struct().unwrap().unwrap();
    assert_eq!(sc.ptr_field(0).equality(&sc.ptr_field(1)).unwrap(), PtrEquality::ContainsCaps);
    assert_eq!(sc.equality(&sc).unwrap(), PtrEquality::ContainsCaps);
    assert_eq!(rc.root().equality(&rc.root()).unwrap(), PtrEquality::ContainsCaps);
}

#[test]
fn null_pointers_are_equal() {
    let mut a = Message::global();
    a.builder().unwrap();
    let mut b = Message::global();
    b.builder().unwrap();
    let (ra, rb) = (a.reader(), b.reader());
    assert_eq!(ra.root().equality(&rb.root()).unwrap(), PtrEquality::Equal);
}

fn struct_list(values: &[u32], texts: &[&str]) -> Message<Growing<Global>> {
    let mut message = Message::global();
    let l = message
        .builder()
        .unwrap()
        .into_root()
        .try_init_list(&mut message.arena, ElementSize::InlineComposite(StructSize { data: 1, ptrs: 1 }), count(values.len() as u32))
        .unwrap();
    for (i, v) in values.iter().enumerate() {
        let e = l.struct_mut_unchecked(&message.arena, i as u32);
        e.set_field::<u32, _>(&mut message.arena, 0, *v);
        PtrField { slot: 0, repr: e }.set_str(&mut message.arena, texts[i]).unwrap();
    }
    message
}

#[test]
fn struct_lists_compare_their_structs_and_what_they_point_to() {
    let a = struct_list(&[1, 2], &["a", "b"]);
    let b = struct_list(&[1, 2], &["a", "b"]);
    let c = struct_list(&[1, 2], &["a", "c"]);
    let d = struct_list(&[1, 3], &["a", "b"]);
    let (ra, rb, rc, rd) = (a.reader(), b.reader(), c.reader(), d.reader());
    assert_eq!(ra.root().equality(&rb.root()).unwrap(), PtrEquality::Equal);
    assert_eq!(ra.root().equality(&rc.root()).unwrap(), PtrEquality::NotEqual);
    assert_eq!(ra.root().equality(&rd.root()).unwrap(), PtrEquality::NotEqual);
    let la = ra.root().to_list(None).unwrap().unwrap();
    let lb = rb.root().to_list(None).unwrap().unwrap();
    assert_eq!(la.equality(&lb).unwrap(), PtrEquality::Equal);
}

#[test]
fn comparing_deep_pointers_respects_the_nesting_limit() {
    let a = struct_list(&[1], &["a"]);
    let options = recapn::message::ReaderOptions { traversal_limit: 1000, nesting_limit: 1 };
    let r1 = recapn::message::Reader::new(&a.arena, options);
    let r2 = recapn::message::Reader::new(&a.arena, options);
    assert_eq!(
        r1.root().equality(&r2.root()).err().map(|e| e.kind),
        Some(recapn::ErrorKind::NestingLimitExceeded)
    );
    let reader = a.reader();
    assert_eq!(reader.root().equality(&reader.root()).unwrap(), PtrEquality::Equal);
}
