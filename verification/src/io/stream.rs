//! The segment table that frames a message in the standard stream format.
//!
//! The table is a sequence of little endian 32-bit values packed two to a word: the number of
//! segments minus one, then the length in words of each segment, then, if that leaves half a
//! word, a zero.

use crate::allocator::{words_bytes, Word};
use crate::arena::{BuildArena, SegmentId};
use crate::io::{concat, lens_of};
use crate::message::MessageSegments;
use crate::num::{u29, u29_max};
use crate::ptr::{parts_of, Parts};
use vstd::prelude::*;

verus! {

/// The 32-bit value at half-word `i` of a sequence of words.
pub open spec fn half(words: Seq<Word>, i: int) -> u32 {
    let p = parts_of(words[i / 2]);
    if i % 2 == 0 {
        p.lower
    } else {
        p.upper
    }
}

/// Whether the words hold exactly the given 32-bit values, two to a word.
pub open spec fn holds_values(words: Seq<Word>, values: Seq<u32>) -> bool {
    &&& values.len() == 2 * words.len()
    &&& forall|i: int| 0 <= i < values.len() ==> #[trigger] half(words, i) == values[i]
}

/// The values of the table of a message whose segments have the given lengths.
pub open spec fn table_values(lens: Seq<u32>) -> Seq<u32> {
    seq![(lens.len() - 1) as u32] + lens + (if lens.len() % 2 == 0 {
        seq![0u32]
    } else {
        Seq::empty()
    })
}

/// The size in words of the table of a message of `count` segments.
pub open spec fn spec_table_size(count: int) -> int {
    count / 2 + 1
}

/// What reading a table from the start of the words gives: the segment lengths and the number
/// of words the table takes, or the error.
pub open spec fn spec_try_read(words: Seq<Word>) -> Result<(Seq<u32>, int), TableReadError> {
    if words.len() == 0 {
        Err(TableReadError::Empty)
    } else if half(words, 0) == u32::MAX {
        Err(TableReadError::TooManySegments)
    } else {
        let count = half(words, 0) + 1;
        let end = spec_table_size(count);
        if words.len() < end {
            Err(TableReadError::Incomplete { count: count as u32, required: (end - words.len()) as usize })
        } else {
            Ok((Seq::new(count as nat, |i: int| half(words, i + 1)), end))
        }
    }
}

/// The used lengths of the segments of a message being built.
pub open spec fn segment_lens<B: BuildArena + ?Sized>(segments: &MessageSegments<B>) -> Seq<u32> {
    let arena = segments.spec_arena_ref().spec_arena();
    Seq::new(arena.len(), |i: int| arena[i].spec_used_len() as u32)
}

/// The size of the stream table in words for a message of `count` segments.
pub fn table_size_from_count(count: u32) -> (r: u32)
    ensures
        r == spec_table_size(count as int),
{
    (count / 2) + 1
}

/// The size of the stream table in words for the given segments.
pub fn table_size_of<B: BuildArena + ?Sized>(segments: &MessageSegments<B>) -> (r: u32)
    requires
        segments.spec_arena_ref().inv(),
    ensures
        r == spec_table_size(segments.spec_arena_ref().spec_arena().len() as int),
{
    table_size_from_count(segments.len())
}

/// The table value at half-word `j`.
fn table_value<B: BuildArena + ?Sized>(segments: &MessageSegments<B>, n: u32, j: usize) -> (r: u32)
    requires
        segments.spec_arena_ref().inv(),
        n == segments.spec_arena_ref().spec_arena().len(),
        n >= 1,
        j < table_values(segment_lens(segments)).len(),
    ensures
        r == table_values(segment_lens(segments))[j as int],
{
    if j == 0 {
        n - 1
    } else if j <= n as usize {
        match segments.segment((j - 1) as u32) {
            Some(s) => s.len(),
            None => 0,
        }
    } else {
        0
    }
}

/// Writes the stream framing table of the segments to the slice, which must be as long as the
/// table.
pub fn write_table<B: BuildArena + ?Sized>(segments: &MessageSegments<B>, slice: &mut [Word])
    requires
        segments.spec_arena_ref().inv(),
        segments.spec_arena_ref().spec_arena().len() >= 1,
        old(slice)@.len() == spec_table_size(segments.spec_arena_ref().spec_arena().len() as int),
    ensures
        final(slice)@.len() == old(slice)@.len(),
        holds_values(final(slice)@, table_values(segment_lens(segments))),
{
    let n = segments.len();
    let ghost values = table_values(segment_lens(segments));
    let len = slice.len();
    let mut k: usize = 0;
    while k < len
        invariant
            k <= len,
            len == slice@.len(),
            len == spec_table_size(n as int),
            n == segments.spec_arena_ref().spec_arena().len(),
            n >= 1,
            segments.spec_arena_ref().inv(),
            values == table_values(segment_lens(segments)),
            values.len() == 2 * len,
            forall|i: int| 0 <= i < 2 * k ==> #[trigger] half(slice@, i) == values[i],
        decreases len - k,
    {
        let lower = table_value(segments, n, 2 * k);
        let upper = table_value(segments, n, 2 * k + 1);
        let w = Parts { lower, upper }.to_word();
        let ghost prev = slice@;
        slice[k] = w;
        proof {
            assert forall|i: int| 0 <= i < 2 * (k + 1) implies #[trigger] half(slice@, i) == values[i] by {
                if i < 2 * k {
                    assert(i / 2 < k);
                    assert(slice@[i / 2] == prev[i / 2]);
                    assert(half(prev, i) == values[i]);
                } else {
                    assert(i / 2 == k);
                    assert(slice@[i / 2] == w);
                    if i % 2 == 0 {
                        assert(i == 2 * k);
                    } else {
                        assert(i == 2 * k + 1);
                    }
                }
            }
        }
        k = k + 1;
    }
}

/// Reading a table written for segments of the given lengths, followed by anything, gives back
/// the lengths and ends where the table ends.
pub proof fn lemma_table_round_trip(words: Seq<Word>, lens: Seq<u32>, rest: Seq<Word>)
    requires
        1 <= lens.len() <= u32::MAX,
        holds_values(words, table_values(lens)),
    ensures
        spec_try_read(words + rest) == Ok::<(Seq<u32>, int), TableReadError>((lens, words.len() as int)),
{
    let all = words + rest;
    let values = table_values(lens);
    assert(values[0] == lens.len() - 1);
    assert(half(all, 0) == half(words, 0));
    assert(half(words, 0) == values[0]);
    let count = lens.len();
    assert(words.len() == spec_table_size(count as int)) by {
        assert(values.len() == 1 + count + (if count % 2 == 0 { 1int } else { 0 }));
    }
    assert forall|i: int| 0 <= i < count implies #[trigger] half(all, i + 1) == lens[i] by {
        assert(half(all, i + 1) == half(words, i + 1));
        assert(half(words, i + 1) == values[i + 1]);
    }
    assert(Seq::new(count as nat, |i: int| half(all, i + 1)) =~= lens);
}

/// An error reading a stream table.
#[derive(Debug, Clone, Copy, PartialEq, Eq, Structural)]
pub enum TableReadError {
    /// The table says there are more segments than a message can have.
    TooManySegments,
    /// The input was empty. At least one word is required.
    Empty,
    /// The table was incomplete.
    Incomplete {
        /// The number of segments in the table
        count: u32,
        /// The number of words required to read the rest of the table
        required: usize,
    },
}

impl TableReadError {
    /// The description of the error.
    pub open spec fn spec_message(&self) -> Seq<char> {
        match self {
            TableReadError::TooManySegments => "too many segments"@,
            TableReadError::Empty => "empty input"@,
            TableReadError::Incomplete { .. } => "incomplete table"@,
        }
    }

    /// A short description of the error.
    pub fn message(&self) -> (r: &'static str)
        ensures
            r@ == self.spec_message(),
    {
        match self {
            TableReadError::TooManySegments => "too many segments",
            TableReadError::Empty => "empty input",
            TableReadError::Incomplete { .. } => "incomplete table",
        }
    }
}

/// The length of one segment as read from a table.
#[derive(Debug, Clone, Copy, PartialEq, Eq, Structural)]
pub struct SegmentLenReader(u32);

impl SegmentLenReader {
    /// The length as read.
    pub closed spec fn spec_raw(&self) -> u32 {
        self.0
    }

    /// The length as read.
    pub fn raw(&self) -> (r: u32)
        ensures
            r == self.spec_raw(),
    {
        self.0
    }

    /// The length, if it is a valid segment length.
    pub fn try_get(&self) -> (r: Option<u29>)
        ensures
            r is Some <==> self.spec_raw() <= u29_max(),
            r matches Some(v) ==> v@ == self.spec_raw(),
    {
        u29::new(self.0)
    }
}

/// The segment lengths read from a stream table. There is at least one.
#[derive(Debug)]
pub struct StreamTableRef {
    table: Vec<SegmentLenReader>,
}

impl StreamTableRef {
    /// The segment lengths.
    pub closed spec fn spec_lens(&self) -> Seq<u32> {
        Seq::new(self.table@.len(), |i: int| self.table@[i].spec_raw())
    }

    #[verifier::type_invariant]
    closed spec fn non_empty(&self) -> bool {
        1 <= self.table@.len() <= u32::MAX
    }

    /// Reads a table from the start of the slice, returning it and the rest of the slice.
    ///
    /// If the table is not all there, the error says how many more words are needed.
    pub fn try_read(slice: &[Word]) -> (r: Result<(StreamTableRef, &[Word]), TableReadError>)
        ensures
            match spec_try_read(slice@) {
                Ok((lens, end)) => r matches Ok((t, rest)) && t.spec_lens() == lens && rest@
                    == slice@.subrange(end, slice@.len() as int),
                Err(e) => r == Err::<(StreamTableRef, &[Word]), TableReadError>(e),
            },
    {
        if slice.len() == 0 {
            return Err(TableReadError::Empty);
        }
        let first = Parts::from_word(slice[0]);
        let c = first.lower;
        if c == u32::MAX {
            return Err(TableReadError::TooManySegments);
        }
        let count = c + 1;
        let end = table_size_from_count(count) as usize;
        if slice.len() < end {
            return Err(TableReadError::Incomplete { count, required: end - slice.len() });
        }
        let mut table: Vec<SegmentLenReader> = Vec::new();
        let mut i: u32 = 0;
        while i < count
            invariant
                i <= count,
                count == half(slice@, 0) + 1,
                end == spec_table_size(count as int),
                end <= slice@.len(),
                table@.len() == i,
                forall|j: int| 0 <= j < i ==> #[trigger] table@[j].spec_raw() == half(slice@, j + 1),
            decreases count - i,
        {
            let j = i as usize + 1;
            let p = Parts::from_word(slice[j / 2]);
            let v = if j % 2 == 0 {
                p.lower
            } else {
                p.upper
            };
            table.push(SegmentLenReader(v));
            i = i + 1;
        }
        let t = StreamTableRef { table };
        assert(t.spec_lens() =~= Seq::new(count as nat, |k: int| half(slice@, k + 1)));
        Ok((t, &slice[end..slice.len()]))
    }

    /// The number of segments.
    pub fn count(&self) -> (r: u32)
        ensures
            r == self.spec_lens().len(),
            r >= 1,
    {
        proof {
            use_type_invariant(self);
        }
        self.table.len() as u32
    }

    /// The segment lengths.
    pub fn segments(&self) -> (r: &[SegmentLenReader])
        ensures
            r@.len() == self.spec_lens().len(),
            forall|i: int| 0 <= i < r@.len() ==> #[trigger] r@[i].spec_raw() == self.spec_lens()[i],
    {
        self.table.as_slice()
    }

    /// The first segment length and the rest.
    pub fn split_first(&self) -> (r: (&SegmentLenReader, &[SegmentLenReader]))
        ensures
            r.0.spec_raw() == self.spec_lens()[0],
            r.1@.len() == self.spec_lens().len() - 1,
            forall|i: int| 0 <= i < r.1@.len() ==> #[trigger] r.1@[i].spec_raw() == self.spec_lens()[i + 1],
    {
        proof {
            use_type_invariant(self);
        }
        let s = self.table.as_slice();
        (&s[0], &s[1..s.len()])
    }
}

/// A buffer holding a stream table.
#[derive(Debug, Clone, PartialEq, Eq)]
pub struct StreamTable {
    table: Vec<Word>,
}

impl StreamTable {
    /// The words of the table.
    pub closed spec fn spec_words(&self) -> Seq<Word> {
        self.table@
    }

    /// The table of a message of one empty segment.
    pub fn new() -> (r: Self)
        ensures
            holds_values(r.spec_words(), table_values(seq![0u32])),
    {
        let w = Parts { lower: 0, upper: 0 }.to_word();
        let mut table = Vec::new();
        table.push(w);
        let r = StreamTable { table };
        assert forall|i: int| 0 <= i < 2 implies #[trigger] half(r.spec_words(), i) == table_values(seq![0u32])[i] by {
            assert(i / 2 == 0);
        }
        r
    }

    /// The table of the given segments.
    pub fn from_segments<B: BuildArena + ?Sized>(segments: &MessageSegments<B>) -> (r: Self)
        requires
            segments.spec_arena_ref().inv(),
            segments.spec_arena_ref().spec_arena().len() >= 1,
        ensures
            holds_values(r.spec_words(), table_values(segment_lens(segments))),
    {
        let mut table = Self::new();
        table.write_segments(segments);
        table
    }

    /// Writes the table of the given segments in place of this one.
    pub fn write_segments<B: BuildArena + ?Sized>(&mut self, segments: &MessageSegments<B>)
        requires
            segments.spec_arena_ref().inv(),
            segments.spec_arena_ref().spec_arena().len() >= 1,
        ensures
            holds_values(final(self).spec_words(), table_values(segment_lens(segments))),
    {
        let size = table_size_of(segments) as usize;
        let mut v: Vec<Word> = Vec::new();
        let mut i: usize = 0;
        while i < size
            invariant
                i <= size,
                v@.len() == i,
            decreases size - i,
        {
            v.push(Word::null());
            i = i + 1;
        }
        write_table(segments, v.as_mut_slice());
        self.table = v;
    }

    /// The words of the table.
    pub fn as_slice(&self) -> (r: &[Word])
        ensures
            r@ == self.spec_words(),
    {
        self.table.as_slice()
    }

    /// The bytes of the table.
    pub fn as_bytes(&self) -> (r: Vec<u8>)
        requires
            self.spec_words().len() * 8 <= usize::MAX,
        ensures
            r@ == words_bytes(self.spec_words()),
    {
        Word::slice_to_bytes(self.table.as_slice())
    }
}

/// The words of a message in the stream format: its table, then the used words of its segments
/// one after the other.
pub fn message_words<B: BuildArena + ?Sized>(segments: &MessageSegments<B>) -> (r: Vec<Word>)
    requires
        segments.spec_arena_ref().inv(),
        segments.spec_arena_ref().spec_arena().len() >= 1,
    ensures
        r@.len() >= spec_table_size(segments.spec_used().len() as int),
        holds_values(r@.subrange(0, spec_table_size(segments.spec_used().len() as int)), table_values(lens_of(segments.spec_used()))),
        r@.subrange(spec_table_size(segments.spec_used().len() as int), r@.len() as int) == concat(
            segments.spec_used(),
            segments.spec_used().len() as int,
        ),
        spec_try_read(r@) == Ok::<(Seq<u32>, int), TableReadError>(
            (lens_of(segments.spec_used()), spec_table_size(segments.spec_used().len() as int)),
        ),
{
    let ghost used = segments.spec_used();
    proof {
        segments.spec_arena_ref().lemma_used_fits();
        assert(segment_lens(segments) =~= lens_of(used));
    }
    let table = StreamTable::from_segments(segments);
    let t = table.as_slice();
    let mut out: Vec<Word> = Vec::new();
    let mut k: usize = 0;
    while k < t.len()
        invariant
            k <= t@.len(),
            out@ == t@.subrange(0, k as int),
        decreases t@.len() - k,
    {
        out.push(t[k]);
        k = k + 1;
    }
    assert(out@ =~= t@);
    let n = segments.len();
    let mut id: u32 = 0;
    while id < n
        invariant
            id <= n,
            n == used.len(),
            used == segments.spec_used(),
            segments.spec_arena_ref().inv(),
            out@ == t@ + concat(used, id as int),
        decreases n - id,
    {
        let words = segments.segment(id).unwrap().as_words();
        let ghost prefix = out@;
        let mut j: usize = 0;
        while j < words.len()
            invariant
                j <= words@.len(),
                out@ == prefix + words@.subrange(0, j as int),
            decreases words@.len() - j,
        {
            out.push(words[j]);
            j = j + 1;
            assert(out@ =~= prefix + words@.subrange(0, j as int));
        }
        assert(words@ == used[id as int]);
        assert(out@ =~= t@ + concat(used, id + 1));
        id = id + 1;
    }
    assert(out@.subrange(0, t@.len() as int) =~= t@);
    assert(out@.subrange(t@.len() as int, out@.len() as int) =~= concat(used, n as int));
    proof {
        let tl = t@.len() as int;
        assert(out@ =~= out@.subrange(0, tl) + out@.subrange(tl, out@.len() as int));
        lemma_table_round_trip(out@.subrange(0, tl), lens_of(used), out@.subrange(tl, out@.len() as int));
    }
    out
}

} // verus!
