use recapn::allocator::{Fixed, Global, Word};
use recapn::arena::ReadArena;
use recapn::io::packing::{Packer, Unpacker};
use recapn::io::stream::{message_words, StreamTable, StreamTableRef, TableReadError};
use recapn::io::{read_from_slice, stream_message_len, stream_table_rest, ReadError, StreamError, StreamOptions, TableSegmentSet};
use recapn::message::Message;
use recapn::num::NonZeroU29;
use recapn::ptr::StructSize;

fn table_word(lower: u32, upper: u32) -> Word {
    let mut b = [0u8; 8];
    b[0..4].copy_from_slice(&lower.to_le_bytes());
    b[4..8].copy_from_slice(&upper.to_le_bytes());
    Word(b)
}

#[test]
fn message_with_zero_size_final_segment() {
    let msg = [
        Word([
            1, 0, 0, 0, // A message with 2 segments
            2, 0, 0, 0, // where the first segment is 2 words
        ]),
        Word::null(), // The last segment is 0 words.
        Word::null(),
        Word::null(),
    ];
    // read as a stream would be: the first word, the rest of the table, then the segments
    let options = StreamOptions::default_options();
    let rest = stream_table_rest(msg[0], options).unwrap();
    assert_eq!(rest, 1);
    let len = stream_message_len(&msg[..1 + rest], options).unwrap();
    assert_eq!(len, 2);
    let (set, remainder) = read_from_slice(&msg).unwrap();
    assert!(remainder.is_empty());
    assert_eq!(set.segment(0).unwrap().len(), 2);
    assert_eq!(set.segment(1).unwrap().len(), 0);
    assert!(set.segment(2).is_none());
}

#[test]
fn table_errors() {
    assert_eq!(StreamTableRef::try_read(&[]).err(), Some(TableReadError::Empty));
    assert_eq!(
        StreamTableRef::try_read(&[table_word(u32::MAX, 0)]).err(),
        Some(TableReadError::TooManySegments)
    );
    assert_eq!(
        StreamTableRef::try_read(&[table_word(4, 1)]).err(),
        Some(TableReadError::Incomplete { count: 5, required: 2 })
    );
    let options = StreamOptions::default_options();
    // the limit is the most segments allowed: 512 are read, 513 are refused before the rest
    // of the table is read
    assert_eq!(
        stream_table_rest(table_word(512, 0), options),
        Err(StreamError::Table(TableReadError::TooManySegments))
    );
    assert_eq!(stream_table_rest(table_word(511, 0), options), Ok(256));
    assert_eq!(stream_table_rest(table_word(510, 0), options), Ok(255));
    // a message of two segments with a limit of two
    let two = StreamOptions { segment_limit: 2, read_limit: 1024 };
    assert_eq!(stream_table_rest(table_word(1, 0), two), Ok(1));
    let one = StreamOptions { segment_limit: 1, read_limit: 1024 };
    assert_eq!(
        stream_table_rest(table_word(1, 0), one),
        Err(StreamError::Table(TableReadError::TooManySegments))
    );
}

#[test]
fn read_errors() {
    // a segment longer than a segment can be
    let words = [table_word(0, 1 << 29)];
    assert_eq!(read_from_slice(&words).err(), Some(ReadError::SegmentTooLarge { segment: 0 }));
    // a segment that is not all there
    let words = [table_word(0, 2), Word::null()];
    assert_eq!(read_from_slice(&words).err(), Some(ReadError::MessageTooLarge));
    let options = StreamOptions { segment_limit: 512, read_limit: 1 };
    assert_eq!(stream_message_len(&words[..1], options), Err(StreamError::MessageTooLarge));
    let options = StreamOptions::default_options();
    assert_eq!(stream_message_len(&[table_word(1, 1), table_word(1 << 29, 0)], options), Err(StreamError::SegmentTooLarge { segment: 1 }));
}

#[test]
fn written_message_reads_back() {
    // small segments, so that the message takes several
    let mut message = Message::new(Fixed::new(NonZeroU29::new(2).unwrap(), Global));
    let builder = message.builder().unwrap();
    let s = builder.init_struct_root(&mut message.arena, StructSize { data: 3, ptrs: 0 }).unwrap();
    s.set_field::<u64, _>(&mut message.arena, 2, 77);
    let segments = message.segments().unwrap();
    let n = segments.len();
    assert!(n >= 2);
    let words = message_words(&segments);
    let table = StreamTable::from_segments(&segments);
    assert_eq!(&words[..table.as_slice().len()], table.as_slice());

    let mut with_rest = words.clone();
    with_rest.push(table_word(9, 9));
    let (set, rest) = read_from_slice(&with_rest).unwrap();
    assert_eq!(rest, &[table_word(9, 9)]);
    for id in 0..n {
        assert_eq!(set.segment(id).unwrap(), segments.segment(id).unwrap().as_words());
    }
    assert!(set.segment(n).is_none());
}

#[test]
fn packed_message_unpacks_to_the_message() {
    let mut message = Message::global();
    let builder = message.builder().unwrap();
    let s = builder.init_struct_root(&mut message.arena, StructSize { data: 2, ptrs: 1 }).unwrap();
    s.set_field::<u32, _>(&mut message.arena, 1, 0xdead_beef);
    let words = message_words(&message.segments().unwrap());

    let mut packed = Vec::new();
    let mut packer = Packer::new(&words);
    let mut buf = [0u8; 16];
    loop {
        let r = packer.pack(&mut buf);
        packed.extend_from_slice(&buf[..r.bytes_written]);
        if r.completed {
            break;
        }
    }
    let mut unpacker = Unpacker::new();
    let mut out = vec![Word::null(); words.len()];
    let r = unpacker.unpack(&packed, &mut out);
    assert_eq!(r.bytes_read, packed.len());
    assert_eq!(r.words_written, words.len());
    assert!(unpacker.finish().is_ok());
    assert_eq!(out, words);
}

#[test]
fn table_segment_set_reads_in_place() {
    let words = [table_word(1, 2), table_word(1, 0), table_word(7, 7), table_word(8, 8), table_word(9, 9), table_word(10, 10)];
    let (set, rest) = TableSegmentSet::new(&words).unwrap();
    assert_eq!(set.segment(0).unwrap(), &words[2..4]);
    assert_eq!(set.segment(1).unwrap(), &words[4..5]);
    assert!(set.segment(2).is_none());
    assert_eq!(set.size_in_words(), 3);
    assert_eq!(rest, &words[5..]);
    // a segment too large, and a message longer than the words
    assert_eq!(TableSegmentSet::new(&[table_word(0, 1 << 29)]).err(), Some(ReadError::SegmentTooLarge { segment: 0 }));
    assert_eq!(TableSegmentSet::new(&[table_word(0, 2), Word::null()]).err(), Some(ReadError::Incomplete));
    assert_eq!(TableSegmentSet::new(&[]).err(), Some(ReadError::Table(TableReadError::Empty)));
}
