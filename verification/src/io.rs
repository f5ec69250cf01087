//! Helpers for reading and writing Cap'n Proto messages in standard formats.
//!
//! A message in the stream format is a segment table ([`stream`]) followed by the words of each
//! segment, one after the other.

pub mod packing;
pub mod stream;

use crate::allocator::{Segment, Word};
use crate::arena::{segments_fit, total_len, ReadArena, SegmentId};
use crate::message::ReaderOptions;
use crate::num::{u29, u29_max};
use self::stream::{half, holds_values, lemma_table_round_trip, spec_try_read, table_values, SegmentLenReader, StreamTableRef, TableReadError};
use vstd::prelude::*;

verus! {

/// An error reading a message from words.
#[derive(Debug, Clone, Copy, PartialEq, Eq, Structural)]
pub enum ReadError {
    /// An error occured while reading the stream table
    Table(TableReadError),
    /// A segment in the table is larger than a segment can be
    SegmentTooLarge {
        /// The ID of the segment
        segment: SegmentId,
    },
    /// The message was too large
    MessageTooLarge,
    /// The message was incomplete
    Incomplete,
}

impl ReadError {
    /// The description of the error.
    pub open spec fn spec_message(&self) -> Seq<char> {
        match self {
            ReadError::Table(e) => e.spec_message(),
            ReadError::SegmentTooLarge { .. } => "segment too large"@,
            ReadError::MessageTooLarge => "message too large"@,
            ReadError::Incomplete => "incomplete message"@,
        }
    }

    /// A short description of the error.
    pub fn message(&self) -> (r: &'static str)
        ensures
            r@ == self.spec_message(),
    {
        match self {
            ReadError::Table(e) => e.message(),
            ReadError::SegmentTooLarge { .. } => "segment too large",
            ReadError::MessageTooLarge => "message too large",
            ReadError::Incomplete => "incomplete message",
        }
    }
}

impl From<TableReadError> for ReadError {
    fn from(value: TableReadError) -> (r: Self)
        ensures
            r == ReadError::Table(value),
    {
        ReadError::Table(value)
    }
}

impl vstd::std_specs::convert::FromSpecImpl<TableReadError> for ReadError {
    open spec fn obeys_from_spec() -> bool {
        true
    }

    open spec fn from_spec(v: TableReadError) -> Self {
        ReadError::Table(v)
    }
}

/// The sum of the first `n` lengths.
pub open spec fn prefix_sum(lens: Seq<u32>, n: int) -> int
    decreases n,
{
    if n <= 0 {
        0
    } else {
        prefix_sum(lens, n - 1) + lens[n - 1]
    }
}

/// Checks the first `n` segment lengths of a table, in order: each must be a valid segment
/// length, and the segments up to it must fit the limit.
pub open spec fn check_lens(lens: Seq<u32>, limit: int, n: int) -> Result<(), ReadError>
    decreases n,
{
    if n <= 0 {
        Ok(())
    } else {
        match check_lens(lens, limit, n - 1) {
            Err(e) => Err(e),
            Ok(()) => if lens[n - 1] > u29_max() {
                Err(ReadError::SegmentTooLarge { segment: (n - 1) as u32 })
            } else if prefix_sum(lens, n) > limit {
                Err(ReadError::MessageTooLarge)
            } else {
                Ok(())
            },
        }
    }
}

/// Lengths that passed the check fit the limit and the segment length, up to any point.
proof fn lemma_check_lens(lens: Seq<u32>, limit: int, n: int, k: int)
    requires
        check_lens(lens, limit, n) is Ok,
        0 <= k <= n <= lens.len(),
    ensures
        check_lens(lens, limit, k) is Ok,
        prefix_sum(lens, k) <= limit || k == 0,
        k > 0 ==> lens[k - 1] <= u29_max(),
    decreases n - k,
{
    if k < n {
        lemma_check_lens(lens, limit, n - 1, k);
    }
}

/// Prefix sums grow.
proof fn lemma_prefix_sum_mono(lens: Seq<u32>, a: int, b: int)
    requires
        0 <= a <= b,
    ensures
        prefix_sum(lens, a) <= prefix_sum(lens, b),
    decreases b - a,
{
    if a < b {
        lemma_prefix_sum_mono(lens, a, b - 1);
    }
}

/// Where each segment but the first starts in the flat words of a message.
#[derive(Debug, Clone, PartialEq, Eq)]
pub struct SegmentSetTable {
    table: Vec<usize>,
}

/// The segments of a message laid out one after the other in `words`, the segment after the
/// last start being the end of `words`.
pub open spec fn split_segments(words: Seq<Word>, starts: Seq<usize>) -> Seq<Seq<Word>> {
    Seq::new(
        starts.len() + 1,
        |i: int|
            words.subrange(
                if i == 0 {
                    0
                } else {
                    starts[i - 1] as int
                },
                if i < starts.len() {
                    starts[i] as int
                } else {
                    words.len() as int
                },
            ),
    )
}

impl SegmentSetTable {
    /// The start of each segment but the first.
    pub closed spec fn spec_starts(&self) -> Seq<usize> {
        self.table@
    }

    /// Reads the start of each segment from a stream table, checking that each length is a
    /// valid segment length and that the whole message fits in `limit` words. Returns the table
    /// and the length of the whole message.
    pub fn from_stream(table: &StreamTableRef, limit: usize) -> (r: Result<(Self, usize), ReadError>)
        ensures
            match check_lens(table.spec_lens(), limit as int, table.spec_lens().len() as int) {
                Ok(()) => r matches Ok((t, len)) && len == prefix_sum(table.spec_lens(), table.spec_lens().len() as int)
                    && t.spec_starts().len() == table.spec_lens().len() - 1
                    && forall|i: int| 0 <= i < t.spec_starts().len() ==> #[trigger] t.spec_starts()[i] == prefix_sum(table.spec_lens(), i + 1),
                Err(e) => r == Err::<(Self, usize), ReadError>(e),
            },
    {
        let ghost lens = table.spec_lens();
        let count = table.count();
        let (first, remainder) = table.split_first();
        assert(prefix_sum(lens, 0) == 0);
        assert(prefix_sum(lens, 1) == lens[0]);
        assert(check_lens(lens, limit as int, 0) is Ok);
        let mut current_pos: usize = match segment_len_to_usize(first, 0) {
            Ok(l) => l,
            Err(e) => {
                proof {
                    lemma_check_errs_stay(lens, limit as int, 1, lens.len() as int);
                }
                return Err(e);
            },
        };
        if current_pos > limit {
            proof {
                lemma_check_errs_stay(lens, limit as int, 1, lens.len() as int);
            }
            return Err(ReadError::MessageTooLarge);
        }
        let mut start_idxs: Vec<usize> = Vec::new();
        let n = remainder.len();
        let mut i: usize = 0;
        assert(check_lens(lens, limit as int, 1) is Ok);
        while i < n
            invariant
                i <= n,
                n == remainder@.len(),
                n == lens.len() - 1,
                lens == table.spec_lens(),
                forall|j: int| 0 <= j < n ==> #[trigger] remainder@[j].spec_raw() == lens[j + 1],
                lens.len() <= u32::MAX,
                check_lens(lens, limit as int, i + 1) is Ok,
                current_pos == prefix_sum(lens, i + 1),
                start_idxs@.len() == i,
                forall|j: int| 0 <= j < i ==> #[trigger] start_idxs@[j] == prefix_sum(lens, j + 1),
            decreases n - i,
        {
            let id = (i + 1) as u32;
            let len = match segment_len_to_usize(&remainder[i], id) {
                Ok(l) => l,
                Err(e) => {
                    assert(check_lens(lens, limit as int, i + 2) == Err::<(), ReadError>(e));
                    proof {
                        lemma_check_errs_stay(lens, limit as int, i as int + 2, lens.len() as int);
                    }
                    return Err(e);
                },
            };
            if len > usize::MAX - current_pos || current_pos + len > limit {
                assert(check_lens(lens, limit as int, i + 2) == Err::<(), ReadError>(ReadError::MessageTooLarge));
                proof {
                    lemma_check_errs_stay(lens, limit as int, i as int + 2, lens.len() as int);
                }
                return Err(ReadError::MessageTooLarge);
            }
            start_idxs.push(current_pos);
            current_pos = current_pos + len;
            i = i + 1;
        }
        Ok((SegmentSetTable { table: start_idxs }, current_pos))
    }

    /// The bounds of a segment in the flat words: its start, and its end unless it is the last
    /// segment, which ends where the words end.
    pub fn segment_bounds(&self, id: SegmentId) -> (r: Option<(usize, Option<usize>)>)
        ensures
            r is Some <==> id <= self.spec_starts().len(),
            r matches Some((start, end)) ==> start == (if id == 0 {
                0
            } else {
                self.spec_starts()[id - 1] as int
            }) && end == (if id < self.spec_starts().len() {
                Some(self.spec_starts()[id as int])
            } else {
                None
            }),
    {
        let idx = id as usize;
        if idx > self.table.len() {
            return None;
        }
        let start = if idx == 0 {
            0
        } else {
            self.table[idx - 1]
        };
        let end = if idx < self.table.len() {
            Some(self.table[idx])
        } else {
            None
        };
        Some((start, end))
    }

}

/// Once a check fails, checking more lengths gives the same error.
proof fn lemma_check_errs_stay(lens: Seq<u32>, limit: int, n: int, m: int)
    requires
        check_lens(lens, limit, n) is Err,
        n <= m,
    ensures
        check_lens(lens, limit, m) == check_lens(lens, limit, n),
    decreases m - n,
{
    if n < m {
        lemma_check_errs_stay(lens, limit, n, m - 1);
    }
}

/// The length of a segment from a table, or the error saying it is too large.
pub fn segment_len_to_usize(len: &SegmentLenReader, id: SegmentId) -> (r: Result<usize, ReadError>)
    ensures
        len.spec_raw() <= u29_max() ==> r == Ok::<usize, ReadError>(len.spec_raw() as usize),
        len.spec_raw() > u29_max() ==> r == Err::<usize, ReadError>(ReadError::SegmentTooLarge { segment: id }),
{
    match len.try_get() {
        Some(l) => Ok(l.get() as usize),
        None => Err(ReadError::SegmentTooLarge { segment: id }),
    }
}

/// A set of read-only segments laid out one after the other in a slice of words.
pub struct SegmentSet<'a> {
    slice: &'a [Word],
    table: SegmentSetTable,
}

impl<'a> SegmentSet<'a> {
    /// The flat words.
    pub closed spec fn spec_slice(&self) -> Seq<Word> {
        self.slice@
    }

    /// The start of each segment but the first.
    pub closed spec fn spec_starts(&self) -> Seq<usize> {
        self.table.spec_starts()
    }

    /// Whether the starts of the segments lie in order within the words, every segment fitting
    /// the largest segment length.
    pub open spec fn layout_ok(words: Seq<Word>, starts: Seq<usize>) -> bool {
        &&& starts.len() + 1 <= u32::MAX
        &&& words.len() <= usize::MAX
        &&& forall|i: int, j: int| 0 <= i <= j < starts.len() ==> starts[i] <= starts[j]
        &&& starts.len() > 0 ==> starts.last() <= words.len()
        &&& segments_fit(split_segments(words, starts))
    }

    #[verifier::type_invariant]
    closed spec fn wf(&self) -> bool {
        Self::layout_ok(self.slice@, self.table.spec_starts())
    }

    /// A set of the segments laid out in `data` as the table says.
    pub fn new(table: SegmentSetTable, data: &'a [Word]) -> (r: Self)
        requires
            Self::layout_ok(data@, table.spec_starts()),
        ensures
            r.spec_slice() == data@,
            r.spec_starts() == table.spec_starts(),
    {
        SegmentSet { slice: data, table }
    }

    /// A set of one segment holding all the words.
    pub fn single(data: &'a [Word]) -> (r: Self)
        requires
            data@.len() <= u29_max(),
        ensures
            r.spec_slice() == data@,
            r.spec_starts().len() == 0,
    {
        let r = SegmentSet { slice: data, table: SegmentSetTable { table: Vec::new() } };
        assert(split_segments(data@, Seq::empty())[0] =~= data@);
        r
    }
}

impl<'a> ReadArena for SegmentSet<'a> {
    open spec fn spec_segments(&self) -> Seq<Seq<Word>> {
        split_segments(self.spec_slice(), self.spec_starts())
    }

    open spec fn read_inv(&self) -> bool {
        Self::layout_ok(self.spec_slice(), self.spec_starts())
    }

    proof fn lemma_segments_fit(&self) {
        lemma_split_total(self.spec_slice(), self.spec_starts());
    }

    fn segment(&self, id: SegmentId) -> (r: Option<&[Word]>) {
        proof {
            use_type_invariant(self);
        }
        match self.table.segment_bounds(id) {
            None => None,
            Some((start, end)) => {
                let e = match end {
                    Some(e) => e,
                    None => self.slice.len(),
                };
                Some(&self.slice[start..e])
            },
        }
    }

    fn size_in_words(&self) -> (r: usize) {
        proof {
            lemma_split_total(self.spec_slice(), self.spec_starts());
        }
        self.slice.len()
    }
}

/// Segments laid out one after the other hold all the words.
proof fn lemma_split_total(words: Seq<Word>, starts: Seq<usize>)
    requires
        SegmentSet::layout_ok(words, starts),
    ensures
        total_len(split_segments(words, starts)) == words.len(),
        total_len(split_segments(words, starts)) <= usize::MAX,
        split_segments(words, starts).len() <= u32::MAX,
        segments_fit(split_segments(words, starts)),
{
    lemma_split_prefix_total(words, starts, starts.len() as int + 1);
    let segs = split_segments(words, starts);
    assert(segs.subrange(0, segs.len() as int) =~= segs);
}

/// The first `k` segments hold the words up to the start of segment `k`.
proof fn lemma_split_prefix_total(words: Seq<Word>, starts: Seq<usize>, k: int)
    requires
        SegmentSet::layout_ok(words, starts),
        0 <= k <= starts.len() + 1,
    ensures
        total_len(split_segments(words, starts).subrange(0, k)) == (if k == 0 {
            0
        } else if k <= starts.len() {
            starts[k - 1] as int
        } else {
            words.len() as int
        }),
    decreases k,
{
    let segs = split_segments(words, starts);
    if k > 0 {
        lemma_split_prefix_total(words, starts, k - 1);
        assert(segs.subrange(0, k).drop_last() =~= segs.subrange(0, k - 1));
    }
    if k == starts.len() + 1 {
        assert(segs.subrange(0, k) =~= segs);
    }
}

/// Options for reading a message from a stream.
#[derive(Debug, Clone, Copy, PartialEq, Eq, Structural)]
pub struct StreamOptions {
    /// The largest number of segments the message may hold.
    pub segment_limit: u32,
    /// The largest number of words that may be read from the stream.
    pub read_limit: usize,
}

impl StreamOptions {
    /// The default options: at most 512 segments and the default traversal limit of words.
    pub fn default_options() -> (r: Self)
        ensures
            r.segment_limit == 512,
            r.read_limit == 8 * 1024 * 1024,
    {
        let options = ReaderOptions::default_options();
        StreamOptions { segment_limit: 512, read_limit: options.traversal_limit as usize }
    }
}

impl Default for StreamOptions {
    fn default() -> (r: Self)
        ensures
            r.segment_limit == 512,
            r.read_limit == 8 * 1024 * 1024,
    {
        Self::default_options()
    }
}

/// An error reading a message from a stream, but for the stream's own errors.
#[derive(Debug, Clone, Copy, PartialEq, Eq, Structural)]
pub enum StreamError {
    /// An error occured while reading the stream table
    Table(TableReadError),
    /// A segment in the table is larger than a segment can be
    SegmentTooLarge {
        /// The ID of the segment
        segment: SegmentId,
    },
    /// The message is larger than the read limit.
    MessageTooLarge,
}

/// The stream error of a read error; a stream is read in full, so it is never incomplete.
pub fn map_read_err(err: ReadError) -> (r: StreamError)
    requires
        err != ReadError::Incomplete,
    ensures
        err matches ReadError::Table(e) ==> r == StreamError::Table(e),
        err matches ReadError::SegmentTooLarge { segment } ==> r == (StreamError::SegmentTooLarge { segment }),
        err == ReadError::MessageTooLarge ==> r == StreamError::MessageTooLarge,
{
    match err {
        ReadError::Table(e) => StreamError::Table(e),
        ReadError::SegmentTooLarge { segment } => StreamError::SegmentTooLarge { segment },
        _ => StreamError::MessageTooLarge,
    }
}

/// What reading a message from the start of `words` gives: its segments and the number of words
/// it takes, or the error.
pub open spec fn spec_read_message(words: Seq<Word>) -> Result<(Seq<u32>, int, int), ReadError> {
    match spec_try_read(words) {
        Err(e) => Err(ReadError::Table(e)),
        Ok((lens, end)) => {
            let content_len = words.len() - end;
            match check_lens(lens, content_len, lens.len() as int) {
                Err(e) => Err(e),
                Ok(()) => Ok((lens, end, prefix_sum(lens, lens.len() as int))),
            }
        },
    }
}

/// Reads a message from the start of a slice of words: a stream table then the segments. Returns
/// the segments and the rest of the slice.
pub fn read_from_slice<'a>(slice: &'a [Word]) -> (r: Result<(SegmentSet<'a>, &'a [Word]), ReadError>)
    ensures
        match spec_read_message(slice@) {
            Err(e) => r matches Err(e2) && e2 == e,
            Ok((lens, end, len)) => r matches Ok((set, rest)) && rest@ == slice@.subrange(end + len, slice@.len() as int)
                && set.spec_slice() == slice@.subrange(end, end + len)
                && set.spec_starts().len() == lens.len() - 1
                && forall|i: int| 0 <= i < set.spec_starts().len() ==> #[trigger] set.spec_starts()[i] == prefix_sum(lens, i + 1),
        },
{
    let (table, content) = match StreamTableRef::try_read(slice) {
        Ok(t) => t,
        Err(e) => {
            return Err(ReadError::Table(e));
        },
    };
    let ghost lens = table.spec_lens();
    let (set_table, message_len) = match SegmentSetTable::from_stream(&table, content.len()) {
        Ok(t) => t,
        Err(e) => {
            return Err(e);
        },
    };
    if content.len() < message_len {
        return Err(ReadError::Incomplete);
    }
    let data = &content[0..message_len];
    let remainder = &content[message_len..content.len()];
    proof {
        let starts = set_table.spec_starts();
        let n = lens.len() as int;
        lemma_check_lens(lens, content@.len() as int, n, n);
        assert forall|i: int, j: int| 0 <= i <= j < starts.len() implies starts[i] <= starts[j] by {
            lemma_prefix_sum_mono(lens, i + 1, j + 1);
        }
        if starts.len() > 0 {
            lemma_prefix_sum_mono(lens, n - 1, n);
        }
        let segs = split_segments(data@, starts);
        assert forall|i: int| 0 <= i < segs.len() implies #[trigger] segs[i].len() <= u29_max() by {
            lemma_check_lens(lens, content@.len() as int, n, i + 1);
            assert(prefix_sum(lens, i + 1) == prefix_sum(lens, i) + lens[i]);
            if i > 0 {
                lemma_prefix_sum_mono(lens, i, i + 1);
            }
            lemma_prefix_sum_mono(lens, i + 1, n);
        }
    }
    Ok((SegmentSet::new(set_table, data), remainder))
}

/// The lengths of the segments.
pub open spec fn lens_of(segs: Seq<Seq<Word>>) -> Seq<u32> {
    Seq::new(segs.len(), |i: int| segs[i].len() as u32)
}

/// The first `n` segments laid out one after the other.
pub open spec fn concat(segs: Seq<Seq<Word>>, n: int) -> Seq<Word>
    decreases n,
{
    if n <= 0 {
        Seq::empty()
    } else {
        concat(segs, n - 1) + segs[n - 1]
    }
}

/// The first `n` segments laid out take the sum of their lengths, and segment `i` lies between
/// the sums of the lengths before it and up to it.
proof fn lemma_concat(segs: Seq<Seq<Word>>, n: int)
    requires
        0 <= n <= segs.len(),
        forall|i: int| 0 <= i < segs.len() ==> #[trigger] segs[i].len() <= u29_max(),
    ensures
        concat(segs, n).len() == prefix_sum(lens_of(segs), n),
        forall|i: int| 0 <= i < n ==> #[trigger] concat(segs, n).subrange(prefix_sum(lens_of(segs), i), prefix_sum(lens_of(segs), i + 1)) == segs[i],
    decreases n,
{
    let lens = lens_of(segs);
    if n > 0 {
        lemma_concat(segs, n - 1);
        let c = concat(segs, n - 1);
        assert(lens[n - 1] == segs[n - 1].len());
        assert forall|i: int| 0 <= i < n implies #[trigger] concat(segs, n).subrange(prefix_sum(lens, i), prefix_sum(lens, i + 1)) == segs[i] by {
            if i == n - 1 {
                assert(concat(segs, n).subrange(prefix_sum(lens, i), prefix_sum(lens, i + 1)) =~= segs[i]);
            } else {
                lemma_prefix_sum_mono(lens, i + 1, n - 1);
                lemma_prefix_sum_mono(lens, i, i + 1);
                lemma_prefix_sum_mono(lens, 0, i);
                assert(concat(segs, n) == c + segs[n - 1]);
                assert(prefix_sum(lens, i + 1) <= c.len());
                assert(c.subrange(prefix_sum(lens, i), prefix_sum(lens, i + 1)) == segs[i]);
                assert(concat(segs, n).subrange(prefix_sum(lens, i), prefix_sum(lens, i + 1)) =~= c.subrange(
                    prefix_sum(lens, i),
                    prefix_sum(lens, i + 1),
                ));
            }
        }
    }
}

/// Lengths that are each a valid segment length, and whose sum fits the limit, pass the check.
proof fn lemma_check_lens_ok(lens: Seq<u32>, limit: int, n: int)
    requires
        0 <= n <= lens.len(),
        forall|i: int| 0 <= i < lens.len() ==> #[trigger] lens[i] <= u29_max(),
        prefix_sum(lens, lens.len() as int) <= limit,
    ensures
        check_lens(lens, limit, n) is Ok,
    decreases n,
{
    if n > 0 {
        lemma_check_lens_ok(lens, limit, n - 1);
        lemma_prefix_sum_mono(lens, n, lens.len() as int);
    }
}

/// A message written as a stream table for its segments followed by the segments one after the
/// other reads back: the table gives the segments' lengths, the message takes the table and the
/// segments, and the segments split at the sums of the lengths are the segments written.
pub proof fn lemma_read_written_message(table: Seq<Word>, segs: Seq<Seq<Word>>, rest: Seq<Word>)
    requires
        1 <= segs.len() <= u32::MAX,
        forall|i: int| 0 <= i < segs.len() ==> #[trigger] segs[i].len() <= u29_max(),
        holds_values(table, table_values(lens_of(segs))),
    ensures
        spec_read_message(table + concat(segs, segs.len() as int) + rest) == Ok::<(Seq<u32>, int, int), ReadError>(
            (lens_of(segs), table.len() as int, concat(segs, segs.len() as int).len() as int),
        ),
        forall|starts: Seq<usize>|
            starts.len() == segs.len() - 1 && (forall|i: int| 0 <= i < starts.len() ==> #[trigger] starts[i] == prefix_sum(lens_of(segs), i + 1))
                ==> #[trigger] split_segments(concat(segs, segs.len() as int), starts) == segs,
{
    let n = segs.len() as int;
    let lens = lens_of(segs);
    let flat = concat(segs, n);
    let all = table + flat + rest;
    assert(all =~= table + (flat + rest));
    lemma_table_round_trip(table, lens, flat + rest);
    lemma_concat(segs, n);
    lemma_check_lens_ok(lens, (flat + rest).len() as int, n);
    assert(all.len() - table.len() == (flat + rest).len());
    assert forall|starts: Seq<usize>|
        starts.len() == segs.len() - 1 && (forall|i: int| 0 <= i < starts.len() ==> #[trigger] starts[i] == prefix_sum(lens, i + 1))
            implies #[trigger] split_segments(flat, starts) == segs by {
        let split = split_segments(flat, starts);
        assert forall|i: int| 0 <= i < n implies #[trigger] split[i] == segs[i] by {
            assert(flat.subrange(prefix_sum(lens, i), prefix_sum(lens, i + 1)) == segs[i]);
            if i > 0 {
                assert(starts[i - 1] == prefix_sum(lens, i));
            }
            if i < n - 1 {
                assert(starts[i] == prefix_sum(lens, i + 1));
            }
        }
        assert(split =~= segs);
    }
}

/// How many words of a stream's table follow its first word, given the first word: the table
/// is read from a stream one word, then the rest of it. A table of more than `segment_limit`
/// segments is refused.
pub fn stream_table_rest(first: Word, options: StreamOptions) -> (r: Result<usize, StreamError>)
    ensures
        match spec_try_read(seq![first]) {
            Ok(_) => r == Ok::<usize, StreamError>(0),
            Err(TableReadError::Incomplete { count, required }) => if count > options.segment_limit {
                r == Err::<usize, StreamError>(StreamError::Table(TableReadError::TooManySegments))
            } else {
                r == Ok::<usize, StreamError>(required)
            },
            Err(e) => r == Err::<usize, StreamError>(StreamError::Table(e)),
        },
        r matches Ok(k) ==> forall|w: Seq<Word>| w.len() == 1 + k && w[0] == first ==> #[trigger] spec_try_read(w) is Ok,
{
    let mut v: Vec<Word> = Vec::new();
    v.push(first);
    assert(v@ =~= seq![first]);
    match StreamTableRef::try_read(v.as_slice()) {
        Ok(_) => Ok(0),
        Err(TableReadError::Incomplete { count, required }) => {
            proof {
                assert forall|w: Seq<Word>| w.len() == 1 + required && w[0] == first implies #[trigger] spec_try_read(w) is Ok by {
                    assert(half(w, 0) == half(seq![first], 0));
                }
            }
            if count > options.segment_limit {
                Err(StreamError::Table(TableReadError::TooManySegments))
            } else {
                Ok(required)
            }
        },
        Err(e) => Err(StreamError::Table(e)),
    }
}

/// The number of words of the segments of a message whose whole table is `table_words`,
/// checking each segment's length and the read limit.
pub fn stream_message_len(table_words: &[Word], options: StreamOptions) -> (r: Result<usize, StreamError>)
    ensures
        match spec_try_read(table_words@) {
            Err(e) => r == Err::<usize, StreamError>(StreamError::Table(e)),
            Ok((lens, _)) => match check_lens(lens, options.read_limit as int, lens.len() as int) {
                Ok(()) => r == Ok::<usize, StreamError>(prefix_sum(lens, lens.len() as int) as usize)
                    && prefix_sum(lens, lens.len() as int) <= options.read_limit,
                Err(e) => r == Err::<usize, StreamError>(stream_error_of(e)),
            },
        },
{
    let (table, _) = match StreamTableRef::try_read(table_words) {
        Ok(t) => t,
        Err(e) => {
            return Err(StreamError::Table(e));
        },
    };
    let ghost lens = table.spec_lens();
    match SegmentSetTable::from_stream(&table, options.read_limit) {
        Ok((_, len)) => {
            proof {
                let n = lens.len() as int;
                lemma_check_lens(lens, options.read_limit as int, n, n);
            }
            Ok(len)
        },
        Err(e) => {
            proof {
                lemma_check_lens_not_incomplete(lens, options.read_limit as int, lens.len() as int);
            }
            Err(map_read_err(e))
        },
    }
}

/// The stream error of a read error other than an incomplete input.
pub open spec fn stream_error_of(e: ReadError) -> StreamError {
    match e {
        ReadError::Table(t) => StreamError::Table(t),
        ReadError::SegmentTooLarge { segment } => StreamError::SegmentTooLarge { segment },
        _ => StreamError::MessageTooLarge,
    }
}

/// Checking lengths never finds the input incomplete.
proof fn lemma_check_lens_not_incomplete(lens: Seq<u32>, limit: int, n: int)
    ensures
        check_lens(lens, limit, n) != Err::<(), ReadError>(ReadError::Incomplete),
        check_lens(lens, limit, n) matches Err(e) ==> !(e is Table),
    decreases n,
{
    if n > 0 {
        lemma_check_lens_not_incomplete(lens, limit, n - 1);
    }
}

/// Checks the segment lengths of a table in order, summing them: each must be a valid segment
/// length, and the sum must fit in memory (else the input could never hold the message). The
/// first `n` lengths checked give their sum or the error.
pub open spec fn check_table_lens(lens: Seq<u32>, n: int) -> Result<int, ReadError>
    decreases n,
{
    if n <= 0 {
        Ok(0)
    } else {
        match check_table_lens(lens, n - 1) {
            Err(e) => Err(e),
            Ok(total) => if lens[n - 1] > u29_max() {
                Err(ReadError::SegmentTooLarge { segment: (n - 1) as u32 })
            } else if total + lens[n - 1] > usize::MAX {
                Err(ReadError::Incomplete)
            } else {
                Ok(total + lens[n - 1])
            },
        }
    }
}

/// What reading a message whose segments stay in place under their table gives: the segment
/// lengths, where the segments start and the words they take, or the error.
pub open spec fn spec_table_segment_set(words: Seq<Word>) -> Result<(Seq<u32>, int, int), ReadError> {
    match spec_try_read(words) {
        Err(e) => Err(ReadError::Table(e)),
        Ok((lens, end)) => match check_table_lens(lens, lens.len() as int) {
            Err(e) => Err(e),
            Ok(total) => if total > words.len() - end {
                Err(ReadError::Incomplete)
            } else {
                Ok((lens, end, total))
            },
        },
    }
}

/// Lengths that passed the check are valid segment lengths and sum to the prefix sum.
proof fn lemma_check_table_lens(lens: Seq<u32>, n: int, k: int)
    requires
        check_table_lens(lens, n) is Ok,
        0 <= k <= n <= lens.len(),
    ensures
        check_table_lens(lens, k) == Ok::<int, ReadError>(prefix_sum(lens, k)),
        k > 0 ==> lens[k - 1] <= u29_max(),
        prefix_sum(lens, k) <= usize::MAX,
    decreases n,
{
    if n > 0 {
        lemma_check_table_lens(lens, n - 1, if k < n {
            k
        } else {
            n - 1
        });
    }
}

/// A message read in place: its stream table, and the words of its segments one after the
/// other.
pub struct TableSegmentSet<'a> {
    table: StreamTableRef,
    data: &'a [Word],
}

impl<'a> TableSegmentSet<'a> {
    /// The segment lengths.
    pub closed spec fn spec_lens(&self) -> Seq<u32> {
        self.table.spec_lens()
    }

    /// The words of the segments.
    pub closed spec fn spec_data(&self) -> Seq<Word> {
        self.data@
    }

    #[verifier::type_invariant]
    closed spec fn wf(&self) -> bool {
        &&& check_table_lens(self.table.spec_lens(), self.table.spec_lens().len() as int) == Ok::<int, ReadError>(self.data@.len() as int)
        &&& self.table.spec_lens().len() <= u32::MAX
    }

    /// Reads a message from the start of a slice of words, leaving its segments in place:
    /// a stream table, then the segments. Returns the set and the rest of the slice.
    pub fn new(words: &'a [Word]) -> (r: Result<(Self, &'a [Word]), ReadError>)
        ensures
            match spec_table_segment_set(words@) {
                Err(e) => r == Err::<(Self, &'a [Word]), ReadError>(e),
                Ok((lens, end, total)) => r matches Ok((set, rest)) && set.spec_lens() == lens
                    && set.spec_data() == words@.subrange(end, end + total)
                    && rest@ == words@.subrange(end + total, words@.len() as int),
            },
            r matches Ok((set, _)) ==> set.read_inv(),
    {
        let (table, data) = match StreamTableRef::try_read(words) {
            Ok(t) => t,
            Err(e) => {
                return Err(ReadError::Table(e));
            },
        };
        let ghost lens = table.spec_lens();
        let lengths = table.segments();
        let n = lengths.len();
        let count = table.count();
        let mut total_len: usize = 0;
        let mut i: usize = 0;
        while i < n
            invariant
                i <= n,
                n == lens.len(),
                n == count,
                lengths@.len() == n,
                lens == table.spec_lens(),
                spec_try_read(words@) matches Ok((l, _)) && l == lens,
                forall|j: int| 0 <= j < n ==> #[trigger] lengths@[j].spec_raw() == lens[j],
                check_table_lens(lens, i as int) == Ok::<int, ReadError>(total_len as int),
            decreases n - i,
        {
            let len = match lengths[i].try_get() {
                Some(l) => l,
                None => {
                    proof {
                        assert(check_table_lens(lens, i as int + 1) == Err::<int, ReadError>(ReadError::SegmentTooLarge { segment: i as u32 }));
                        lemma_check_table_errs_stay(lens, i as int + 1, n as int);
                    }
                    return Err(ReadError::SegmentTooLarge { segment: i as u32 });
                },
            };
            let l = len.get() as usize;
            if l > usize::MAX - total_len {
                proof {
                    assert(check_table_lens(lens, i as int + 1) == Err::<int, ReadError>(ReadError::Incomplete));
                    lemma_check_table_errs_stay(lens, i as int + 1, n as int);
                }
                return Err(ReadError::Incomplete);
            }
            total_len = total_len + l;
            i = i + 1;
        }
        if total_len > data.len() {
            return Err(ReadError::Incomplete);
        }
        let segments = &data[0..total_len];
        let remainder = &data[total_len..data.len()];
        proof {
            lemma_check_table_lens(lens, n as int, n as int);
        }
        Ok((TableSegmentSet { table, data: segments }, remainder))
    }
}

/// Once the check of table lengths fails, checking more of them gives the same error.
proof fn lemma_check_table_errs_stay(lens: Seq<u32>, n: int, m: int)
    requires
        check_table_lens(lens, n) is Err,
        n <= m,
    ensures
        check_table_lens(lens, m) == check_table_lens(lens, n),
    decreases m - n,
{
    if n < m {
        lemma_check_table_errs_stay(lens, n, m - 1);
    }
}

/// The segments laid out one after the other in `data`, with the given lengths.
pub open spec fn segments_by_lens(data: Seq<Word>, lens: Seq<u32>) -> Seq<Seq<Word>> {
    Seq::new(lens.len(), |i: int| data.subrange(prefix_sum(lens, i), prefix_sum(lens, i + 1)))
}

/// The first `k` segments laid out by their lengths hold the sum of the first `k` lengths.
proof fn lemma_segments_by_lens_total(data: Seq<Word>, lens: Seq<u32>, k: int)
    requires
        0 <= k <= lens.len(),
        prefix_sum(lens, lens.len() as int) == data.len(),
    ensures
        total_len(segments_by_lens(data, lens).subrange(0, k)) == prefix_sum(lens, k),
    decreases k,
{
    let segs = segments_by_lens(data, lens);
    if k > 0 {
        lemma_segments_by_lens_total(data, lens, k - 1);
        assert(segs.subrange(0, k).drop_last() =~= segs.subrange(0, k - 1));
        lemma_prefix_sum_mono(lens, k, lens.len() as int);
        lemma_prefix_sum_mono(lens, 0, k - 1);
        assert(prefix_sum(lens, k) == prefix_sum(lens, k - 1) + lens[k - 1]);
        lemma_prefix_sum_mono(lens, k - 1, k);
    }
}

impl<'a> ReadArena for TableSegmentSet<'a> {
    open spec fn spec_segments(&self) -> Seq<Seq<Word>> {
        segments_by_lens(self.spec_data(), self.spec_lens())
    }

    open spec fn read_inv(&self) -> bool {
        &&& check_table_lens(self.spec_lens(), self.spec_lens().len() as int) == Ok::<int, ReadError>(self.spec_data().len() as int)
        &&& self.spec_lens().len() <= u32::MAX
    }

    proof fn lemma_segments_fit(&self) {
        let lens = self.spec_lens();
        let n = lens.len() as int;
        let segs = self.spec_segments();
        lemma_check_table_lens(lens, n, n);
        lemma_segments_by_lens_total(self.spec_data(), lens, n);
        assert(segs.subrange(0, n) =~= segs);
        assert forall|i: int| 0 <= i < segs.len() implies #[trigger] segs[i].len() <= u29_max() by {
            lemma_check_table_lens(lens, n, i + 1);
            lemma_prefix_sum_mono(lens, i + 1, n);
            lemma_prefix_sum_mono(lens, 0, i);
        }
    }

    fn segment(&self, id: SegmentId) -> (r: Option<&[Word]>) {
        proof {
            use_type_invariant(self);
        }
        let lengths = self.table.segments();
        if id as usize >= lengths.len() {
            return None;
        }
        let ghost lens = self.table.spec_lens();
        let ghost n = lens.len() as int;
        let mut start: usize = 0;
        let mut i: usize = 0;
        while i < id as usize
            invariant
                i <= id < n,
                n == lens.len(),
                n == lengths@.len(),
                forall|j: int| 0 <= j < n ==> #[trigger] lengths@[j].spec_raw() == lens[j],
                check_table_lens(lens, n) == Ok::<int, ReadError>(self.data@.len() as int),
                start == prefix_sum(lens, i as int),
            decreases id - i,
        {
            proof {
                lemma_check_table_lens(lens, n, i + 1);
                lemma_prefix_sum_mono(lens, i + 1, n);
            }
            start = start + lengths[i].raw() as usize;
            i = i + 1;
        }
        proof {
            lemma_check_table_lens(lens, n, id + 1);
            lemma_check_table_lens(lens, n, n);
            lemma_prefix_sum_mono(lens, id + 1, n);
            lemma_prefix_sum_mono(lens, 0, id as int);
            assert(prefix_sum(lens, id + 1) == prefix_sum(lens, id as int) + lens[id as int]);
        }
        let end = start + lengths[id as usize].raw() as usize;
        Some(&self.data[start..end])
    }

    fn size_in_words(&self) -> (r: usize) {
        proof {
            use_type_invariant(self);
            let lens = self.spec_lens();
            let n = lens.len() as int;
            lemma_check_table_lens(lens, n, n);
            lemma_segments_by_lens_total(self.spec_data(), lens, n);
            assert(self.spec_segments().subrange(0, n) =~= self.spec_segments());
        }
        self.data.len()
    }
}

} // verus!
