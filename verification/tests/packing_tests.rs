use recapn::allocator::Word;
use recapn::io::packing::{Packer, StopReason, Unpacker};

/// Reads words out of packed bytes the way a buffered packed stream does: the input comes in
/// chunks of at most `chunk` bytes, and the unpacker is finished at the end.
fn unpack_in_chunks(packed: &[u8], out: &mut [Word], chunk: usize) {
    let mut unpacker = Unpacker::new();
    let mut pos = 0;
    let mut filled = 0;
    while filled < out.len() {
        let end = usize::min(pos + chunk, packed.len());
        let buf = &packed[pos..end];
        if buf.is_empty() {
            break;
        }
        let result = unpacker.unpack(buf, &mut out[filled..]);
        pos += result.bytes_read;
        filled += result.words_written;
        if result.reason == StopReason::NeedOutput && filled == out.len() {
            break;
        }
    }
    assert_eq!(filled, out.len(), "expected to read packed data");
    loop {
        let end = usize::min(pos + chunk, packed.len());
        let buf = &packed[pos..end];
        if buf.is_empty() {
            unpacker.finish().expect("expected end of stream");
            break;
        }
        let result = unpacker.unpack(buf, &mut []);
        pos += result.bytes_read;
        match result.reason {
            StopReason::NeedInput => continue,
            StopReason::NeedOutput => {
                unpacker.finish().expect("expected end of stream");
                break;
            }
        }
    }
}

fn expect_packs_to(unpacked: &[Word], packed: &[u8]) {
    // Use a buffer of 0xDE to make sure we're properly writting 0x00 bytes.
    let mut buf = [0xde; 512];
    let mut packer = Packer::new(unpacked);
    let mut out = Vec::new();

    loop {
        let r = packer.pack(&mut buf);
        out.extend_from_slice(&buf[0..r.bytes_written]);
        if r.completed {
            break;
        }
    }

    assert_eq!(packed, out.as_slice(), "expected != result");

    {
        let mut words = vec![Word::null(); unpacked.len()].into_boxed_slice();
        unpack_in_chunks(packed, &mut words, packed.len().max(1));
        assert_eq!(unpacked, &*words);
    }

    // Test some silly buffers
    for size in [1, 2, 3, 5, 7, 10] {
        let mut words = vec![Word::null(); unpacked.len()].into_boxed_slice();
        unpack_in_chunks(packed, &mut words, size);
        assert_eq!(unpacked, &*words);
    }
}

#[test]
fn simple_packing() {
    expect_packs_to(&[], &[]);
    expect_packs_to(&[Word([0, 0, 0, 0, 0, 0, 0, 0])], &[0, 0]);
    expect_packs_to(&[
        Word([0, 0, 12, 0, 0, 34, 0, 0]),
    ], &[
        0b00100100, 12, 34,
    ]);
    expect_packs_to(&[
        Word([1, 3, 2, 4, 5, 7, 6, 8]),
    ], &[
        0b11111111, 1, 3, 2, 4, 5, 7, 6, 8, 0,
    ]);
    expect_packs_to(&[
        Word([0, 0, 0, 0, 0, 0, 0, 0]),
        Word([1, 3, 2, 4, 5, 7, 6, 8]),
    ], &[
        0, 0,
        0b11111111, 1, 3, 2, 4, 5, 7, 6, 8, 0,
    ]);
    expect_packs_to(&[
        Word([0, 0, 12, 0, 0, 34, 0, 0]),
        Word([1, 3, 2, 4, 5, 7, 6, 8]),
    ], &[
        0b00100100, 12, 34,
        0b11111111, 1, 3, 2, 4, 5, 7, 6, 8, 0,
    ]);
    expect_packs_to(&[
        Word([1, 3, 2, 4, 5, 7, 6, 8]),
        Word([8, 6, 7, 5, 4, 2, 3, 1]),
    ], &[
        0b11111111, 1, 3, 2, 4, 5, 7, 6, 8, 1,
        8, 6, 7, 5, 4, 2, 3, 1,
    ]);
    expect_packs_to(&[
        Word([1, 2, 3, 4, 5, 6, 7, 8]),
        Word([1, 2, 3, 4, 5, 6, 7, 8]),
        Word([1, 2, 3, 4, 5, 6, 7, 8]),
        Word([1, 2, 3, 4, 5, 6, 7, 8]),
        Word([0, 2, 4, 0, 9, 0, 5, 1]),
    ], &[
        0b11111111, 1, 2, 3, 4, 5, 6, 7, 8, 3,
        1, 2, 3, 4, 5, 6, 7, 8,
        1, 2, 3, 4, 5, 6, 7, 8,
        1, 2, 3, 4, 5, 6, 7, 8,
        0b11010110, 2, 4, 9, 5, 1,
    ]);
    expect_packs_to(&[
        Word([1, 2, 3, 4, 5, 6, 7, 8]),
        Word([1, 2, 3, 4, 5, 6, 7, 8]),
        Word([6, 2, 4, 3, 9, 0, 5, 1]),
        Word([1, 2, 3, 4, 5, 6, 7, 8]),
        Word([0, 2, 4, 0, 9, 0, 5, 1]),
    ], &[
        0b11111111, 1, 2, 3, 4, 5, 6, 7, 8, 3,
        1, 2, 3, 4, 5, 6, 7, 8,
        6, 2, 4, 3, 9, 0, 5, 1,
        1, 2, 3, 4, 5, 6, 7, 8,
        0b11010110, 2, 4, 9, 5, 1,
    ]);
    expect_packs_to(&[
        Word([8, 0, 100, 6, 0, 1, 1, 2]),
        Word([0, 0, 0, 0, 0, 0, 0, 0]),
        Word([0, 0, 0, 0, 0, 0, 0, 0]),
        Word([0, 0, 0, 0, 0, 0, 0, 0]),
        Word([0, 0, 1, 0, 2, 0, 3, 1]),
    ], &[
        0b11101101, 8, 100, 6, 1, 1, 2,
        0, 2,
        0b11010100, 1, 2, 3, 1,
    ]);
}

#[test]
fn small_buffers_get_nothing() {
    let words = [Word([1, 2, 3, 4, 5, 6, 7, 8]); 3];
    let mut packer = Packer::new(&words);
    let mut small = [0xde_u8; 9];
    let r = packer.pack(&mut small);
    assert_eq!(r.bytes_written, 0);
    assert!(!r.completed);
    assert_eq!(small, [0xde_u8; 9]);
    // an uncompressed run interrupted by a full buffer is not resumed into a small one
    let mut buf = [0u8; 12];
    let first = packer.pack(&mut buf);
    assert_eq!(first.bytes_written, 12);
    assert!(!first.completed);
    let r = packer.pack(&mut small);
    assert_eq!(r.bytes_written, 0);
    assert!(!r.completed);
    let mut rest = [0u8; 64];
    let last = packer.pack(&mut rest);
    assert!(last.completed);
    assert_eq!(12 + last.bytes_written, 1 + 8 + 1 + 16);
    // nothing left to pack completes with any buffer
    let mut empty = Packer::new(&[]);
    assert!(empty.pack(&mut small).completed);
}

#[test]
fn unpacker_left_mid_word_needs_six_bytes() {
    let mut unpacker = Unpacker::new();
    let mut out = [Word::null(); 1];
    let r = unpacker.unpack(&[0xff, 1, 2, 3], &mut out);
    assert_eq!(r.bytes_read, 4);
    assert_eq!(r.words_written, 0);
    assert_eq!(r.reason, StopReason::NeedInput);
    assert_eq!(unpacker.finish().err().map(|e| e.bytes_needed), Some(6));
    assert!(Unpacker::new().finish().is_ok());
}
