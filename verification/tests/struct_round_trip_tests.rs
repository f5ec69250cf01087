use recapn::allocator::{Alloc, AllocLen, Fixed, Global, Scratch, Space};
use recapn::arena::{Arena, BuildArena, ReadArena};
use recapn::message::{Message, ReaderOptions};
use recapn::num::u29;
use recapn::ptr::{ElementSize, PtrElementSize, StructBuilder, StructReader, StructSize};

fn count(n: u32) -> u29 {
    u29::new(n).unwrap()
}

fn setup_struct<B: BuildArena + ?Sized>(arena: &mut B, builder: &StructBuilder) {
    builder.set_field::<u64, _>(arena, 0, 0x1011121314151617);
    builder.set_field::<u32, _>(arena, 2, 0x20212223);
    builder.set_field::<u16, _>(arena, 6, 0x3031);
    builder.set_field::<u8, _>(arena, 14, 0x40);
    builder.set_field::<bool, _>(arena, 120, false);
    builder.set_field::<bool, _>(arena, 121, false);
    builder.set_field::<bool, _>(arena, 122, true);
    builder.set_field::<bool, _>(arena, 123, false);
    builder.set_field::<bool, _>(arena, 124, true);
    builder.set_field::<bool, _>(arena, 125, true);
    builder.set_field::<bool, _>(arena, 126, true);
    builder.set_field::<bool, _>(arena, 127, false);

    {
        let sub_struct = builder
            .ptr_field_mut(0)
            .unwrap()
            .try_init_struct(arena, StructSize { data: 1, ptrs: 0 })
            .unwrap();
        sub_struct.set_field::<u32, _>(arena, 0, 123);
    }

    {
        let list = builder.ptr_field_mut(1).unwrap().try_init_list(arena, ElementSize::FourBytes, count(3)).unwrap();
        assert_eq!(list.len().get(), 3);
        list.set_data_unchecked::<i32, _>(arena, 0, 200);
        list.set_data_unchecked::<i32, _>(arena, 1, 201);
        list.set_data_unchecked::<i32, _>(arena, 2, 202);
    }

    {
        let list = builder
            .ptr_field_mut(2)
            .unwrap()
            .try_init_list(arena, ElementSize::InlineComposite(StructSize { data: 1, ptrs: 1 }), count(4))
            .unwrap();
        assert_eq!(list.len().get(), 4);
        for i in 0..4u32 {
            let builder = list.struct_mut_unchecked(arena, i);
            builder.set_field::<u32, _>(arena, 0, 300 + i);
            builder
                .ptr_field_mut(0)
                .unwrap()
                .try_init_struct(arena, StructSize { data: 1, ptrs: 0 })
                .unwrap()
                .set_field::<u32, _>(arena, 0, 400 + i);
        }
    }

    {
        let list = builder.ptr_field_mut(3).unwrap().try_init_list(arena, ElementSize::Pointer, count(5)).unwrap();
        assert_eq!(list.len().get(), 5);
        for i in 0..5u32 {
            let element = list
                .ptr_mut_unchecked(arena, i)
                .try_init_list(arena, ElementSize::TwoBytes, count(i + 1))
                .unwrap();
            for j in 0..=i {
                element.set_data_unchecked::<u16, _>(arena, j, 500 + j as u16);
            }
        }
    }
}

fn check_struct_builder<B: BuildArena + ReadArena + ?Sized>(arena: &B, builder: &StructBuilder) {
    assert_eq!(0x1011121314151617, builder.data_field::<u64, _>(arena, 0));
    assert_eq!(0x20212223, builder.data_field::<u32, _>(arena, 2));
    assert_eq!(0x3031, builder.data_field::<u16, _>(arena, 6));
    assert_eq!(0x40, builder.data_field::<u8, _>(arena, 14));
    assert_eq!(false, builder.data_field::<bool, _>(arena, 120));
    assert_eq!(false, builder.data_field::<bool, _>(arena, 121));
    assert_eq!(true, builder.data_field::<bool, _>(arena, 122));
    assert_eq!(false, builder.data_field::<bool, _>(arena, 123));
    assert_eq!(true, builder.data_field::<bool, _>(arena, 124));
    assert_eq!(true, builder.data_field::<bool, _>(arena, 125));
    assert_eq!(true, builder.data_field::<bool, _>(arena, 126));
    assert_eq!(false, builder.data_field::<bool, _>(arena, 127));

    // the objects the struct's pointers refer to, as they are now
    check_struct_reader(&builder.as_reader(arena));
}

fn check_struct_reader<A: ReadArena + ?Sized>(reader: &StructReader<'_, A>) {
    assert_eq!(0x1011121314151617, reader.data_field::<u64>(0));
    assert_eq!(0x20212223, reader.data_field::<u32>(2));
    assert_eq!(0x3031, reader.data_field::<u16>(6));
    assert_eq!(0x40, reader.data_field::<u8>(14));
    assert_eq!(false, reader.data_field::<bool>(120));
    assert_eq!(false, reader.data_field::<bool>(121));
    assert_eq!(true, reader.data_field::<bool>(122));
    assert_eq!(false, reader.data_field::<bool>(123));
    assert_eq!(true, reader.data_field::<bool>(124));
    assert_eq!(true, reader.data_field::<bool>(125));
    assert_eq!(true, reader.data_field::<bool>(126));
    assert_eq!(false, reader.data_field::<bool>(127));

    {
        let substruct = reader.ptr_field(0).to_struct().unwrap().unwrap();
        assert_eq!(123, substruct.data_field::<u32>(0));
    }

    {
        let list = reader.ptr_field(1).to_list(Some(PtrElementSize::FourBytes)).unwrap().unwrap();
        assert_eq!(3, list.len().get());
        assert_eq!(200, list.data_element::<i32>(0));
        assert_eq!(201, list.data_element::<i32>(1));
        assert_eq!(202, list.data_element::<i32>(2));
    }

    {
        let list = reader.ptr_field(2).to_list(Some(PtrElementSize::InlineComposite)).unwrap().unwrap();
        assert_eq!(4, list.len().get());
        for i in 0..4u32 {
            let element = list.struct_element(i);
            assert_eq!(300 + (i as i32), element.data_field::<i32>(0));
            let element_struct = element.ptr_field(0).to_struct().unwrap().unwrap();
            assert_eq!(400 + (i as i32), element_struct.data_field::<i32>(0));
        }
    }

    {
        let list = reader.ptr_field(3).to_list(Some(PtrElementSize::Pointer)).unwrap().unwrap();
        assert_eq!(5, list.len().get());
        for i in 0..5u32 {
            let element = list.ptr_element(i).to_list(Some(PtrElementSize::TwoBytes)).unwrap().unwrap();
            assert_eq!(i + 1, element.len().get());
            for j in 0..=i {
                assert_eq!(500 + (j as u16), element.data_element::<u16>(j));
            }
        }
    }
}

fn struct_round_trip<A: Alloc>(message: &mut Message<A>) {
    {
        let root = message.builder().unwrap().into_root();
        let builder = root.try_init_struct(&mut message.arena, StructSize { data: 2, ptrs: 4 }).unwrap();
        setup_struct(&mut message.arena, &builder);

        check_struct_builder(&message.arena, &builder);
        check_struct_reader(&builder.as_reader(&message.arena));
    }

    let reader = message.reader();
    let root_reader = reader.read_as().unwrap().unwrap();

    check_struct_reader(&root_reader);

    let limited_reader = message.reader_with_options(ReaderOptions { nesting_limit: 4, traversal_limit: u64::MAX });
    let root_reader = limited_reader.read_as().unwrap().unwrap();

    check_struct_reader(&root_reader);
}

fn segment_lens<A: Alloc>(message: &Message<A>) -> Vec<u32> {
    let segments = message.segments().unwrap();
    (0..segments.len()).map(|i| segments.segment(i).unwrap().len()).collect()
}

#[test]
fn struct_round_trip_one_segment() {
    // word count:
    //    1  root pointer
    //    6  root struct
    //    1  sub message
    //    2  3-element int32 list
    //   13  struct list
    //         1 tag
    //        12 4x struct
    //           1 data section
    //           1 pointer section
    //           1 sub-struct
    //   11  list list
    //         5 pointers to sub-lists
    //         6 sub-lists (4x 1 word, 1x 2 words)
    // -----
    //   34
    let mut space = Space::<34>::new();
    let alloc = Scratch::with_space(&mut space, Global);
    let mut message = Message::new(alloc);
    struct_round_trip(&mut message);

    let segments = message.segments().unwrap();
    assert_eq!(1, segments.len());
    assert_eq!(34, segments.first().len());
}

#[test]
fn struct_round_trip_one_segment_per_allocation() {
    let alloc = Global;
    let mut message = Message::new(alloc);
    struct_round_trip(&mut message);

    let segments = segment_lens(&message);
    assert_eq!(15, segments.len());

    // Check each segment size
    assert_eq!(1, segments[0]);
    assert_eq!(7, segments[1]);
    assert_eq!(2, segments[2]);
    assert_eq!(3, segments[3]);
    assert_eq!(10, segments[4]);
    assert_eq!(2, segments[5]);
    assert_eq!(2, segments[6]);
    assert_eq!(2, segments[7]);
    assert_eq!(2, segments[8]);
    assert_eq!(6, segments[9]);
    assert_eq!(2, segments[10]);
    assert_eq!(2, segments[11]);
    assert_eq!(2, segments[12]);
    assert_eq!(2, segments[13]);
    assert_eq!(3, segments[14]);
}

#[test]
fn struct_round_trip_multiple_segments_with_multiple_allocations() {
    let alloc = Fixed::new(AllocLen::new(8).unwrap(), Global);
    let mut message = Message::new(alloc);
    struct_round_trip(&mut message);

    let segments = segment_lens(&message);
    assert_eq!(6, segments.len());

    // Check each segment size
    assert_eq!(8, segments[0]);
    assert_eq!(3, segments[1]);
    assert_eq!(10, segments[2]);
    assert_eq!(8, segments[3]);
    assert_eq!(8, segments[4]);
    assert_eq!(7, segments[5]);
}

#[test]
fn round_trip_message_sizes() {
    let mut message = Message::new(Fixed::new(AllocLen::new(8).unwrap(), Global));
    struct_round_trip(&mut message);
    let reader = message.reader();
    // every word of the message but the root pointer and the landing pads is counted
    let size = reader.root().target_size().unwrap();
    assert_eq!(size.caps, 0);
    assert_eq!(size.words, 33);
    let _: &Arena<Fixed<Global>> = &message.arena;
}
