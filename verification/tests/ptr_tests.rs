use recapn::allocator::Word;
use recapn::io::SegmentSet;
use recapn::message::Reader;
use recapn::num::u29;
use recapn::ptr::{ElementSize, PtrElementSize, StructSize};
use recapn::ptr::ElementSize::{Bit, Byte, EightBytes, FourBytes, InlineComposite, Pointer, TwoBytes, Void};

#[test]
fn word_rounding() {
    // bit rounding
    assert_eq!(Word::round_up_bit_count(1), 1);
    assert_eq!(Word::round_up_bit_count(63), 1);
    assert_eq!(Word::round_up_bit_count(64), 1);
    assert_eq!(Word::round_up_bit_count(65), 2);
    assert_eq!(Word::round_up_bit_count(64 * 2), 2);
    assert_eq!(Word::round_up_bit_count(64 * 2 + 1), 3);
    assert_eq!(
        Word::round_up_bit_count((u29::MAX_VALUE as u64) * (Word::BITS as u64)),
        536870911
    );

    // byte rounding
    assert_eq!(Word::round_up_byte_count(1), 1);
    assert_eq!(Word::round_up_byte_count(7), 1);
    assert_eq!(Word::round_up_byte_count(8), 1);
    assert_eq!(Word::round_up_byte_count(9), 2);
    assert_eq!(Word::round_up_byte_count(8 * 2), 2);
    assert_eq!(Word::round_up_byte_count(8 * 2 + 1), 3);
}

#[test]
fn valid_upgrades() {
    let size5 = InlineComposite(StructSize { data: 3, ptrs: 2 });
    for size in [Void, Bit, Byte, TwoBytes, FourBytes, EightBytes, size5] {
        assert_eq!(size.upgrade_to(size), Some(size));
    }

    let empty = InlineComposite(StructSize::empty());
    assert_eq!(Void.upgrade_to(empty), Some(empty));
    assert_eq!(Void.upgrade_to(size5), Some(size5));

    let one_data = InlineComposite(StructSize { data: 1, ptrs: 0 });
    for size in [Byte, TwoBytes, FourBytes, EightBytes] {
        assert_eq!(size.upgrade_to(one_data), Some(one_data));
        assert_eq!(size.upgrade_to(size5), Some(size5));
    }

    let one_ptr = InlineComposite(StructSize { data: 0, ptrs: 1 });
    assert_eq!(Pointer.upgrade_to(one_ptr), Some(one_ptr));

    assert_eq!(one_data.upgrade_to(size5), Some(size5));
    assert_eq!(one_ptr.upgrade_to(size5), Some(size5));
}

#[test]
fn upgrades_commute() {
    let all = [
        ElementSize::Void,
        ElementSize::Bit,
        ElementSize::Byte,
        ElementSize::Pointer,
        ElementSize::InlineComposite(StructSize { data: 0, ptrs: 2 }),
        ElementSize::InlineComposite(StructSize { data: 1, ptrs: 0 }),
    ];
    for a in all {
        for b in all {
            assert_eq!(a.upgrade_to(b), b.upgrade_to(a));
        }
    }
    assert_eq!(ElementSize::Bit.upgrade_to(ElementSize::InlineComposite(StructSize { data: 1, ptrs: 0 })), None);
    assert!(!ElementSize::Bit.upgradable_to(PtrElementSize::Byte));
}

#[test]
fn simple_struct() {
    let data = [
        Word([0x00, 0x00, 0x00, 0x00, 0x01, 0x00, 0x00, 0x00]),
        Word([0x01, 0x23, 0x45, 0x67, 0x89, 0xab, 0xcd, 0xef]),
    ];

    let set = SegmentSet::single(&data);
    let message = Reader::limitless(&set);
    let ptr = message.root();
    let reader = ptr.to_struct().unwrap().unwrap();

    assert_eq!(0xefcdab8967452301, reader.data_field::<u64>(0));
    assert_eq!(0, reader.data_field::<u64>(1));
    assert_eq!(0x67452301, reader.data_field::<u32>(0));
    assert_eq!(0xefcdab89, reader.data_field::<u32>(1));
    assert_eq!(0, reader.data_field::<u32>(2));
    assert_eq!(0x2301, reader.data_field::<u16>(0));
    assert_eq!(0x6745, reader.data_field::<u16>(1));
    assert_eq!(0xab89, reader.data_field::<u16>(2));
    assert_eq!(0xefcd, reader.data_field::<u16>(3));
    assert_eq!(0, reader.data_field::<u16>(4));

    assert_eq!(
        321 ^ 0xefcdab8967452301,
        reader.data_field_with_default::<u64>(0, 321)
    );
    assert_eq!(
        321 ^ 0x67452301,
        reader.data_field_with_default::<u32>(0, 321)
    );
    assert_eq!(321 ^ 0x2301, reader.data_field_with_default::<u16>(0, 321));
    assert_eq!(321, reader.data_field_with_default::<u64>(1, 321));
    assert_eq!(321, reader.data_field_with_default::<u32>(2, 321));
    assert_eq!(321, reader.data_field_with_default::<u16>(4, 321));

    // Bits
    assert_eq!(true, reader.data_field(0));
    assert_eq!(false, reader.data_field(1));
    assert_eq!(false, reader.data_field(2));
    assert_eq!(false, reader.data_field(3));
    assert_eq!(false, reader.data_field(4));
    assert_eq!(false, reader.data_field(5));
    assert_eq!(false, reader.data_field(6));
    assert_eq!(false, reader.data_field(7));

    assert_eq!(true, reader.data_field(8));
    assert_eq!(true, reader.data_field(9));
    assert_eq!(false, reader.data_field(10));
    assert_eq!(false, reader.data_field(11));
    assert_eq!(false, reader.data_field(12));
    assert_eq!(true, reader.data_field(13));
    assert_eq!(false, reader.data_field(14));
    assert_eq!(false, reader.data_field(15));

    assert_eq!(true, reader.data_field(63));
    assert_eq!(false, reader.data_field(64));

    assert_eq!(true, reader.data_field_with_default(0, false));
    assert_eq!(false, reader.data_field_with_default(1, false));
    assert_eq!(true, reader.data_field_with_default(63, false));
    assert_eq!(false, reader.data_field_with_default(64, false));
    assert_eq!(false, reader.data_field_with_default(0, true));
    assert_eq!(true, reader.data_field_with_default(1, true));
    assert_eq!(false, reader.data_field_with_default(63, true));
    assert_eq!(true, reader.data_field_with_default(64, true));
}
