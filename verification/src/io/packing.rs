//! Types implementing the Cap'n Proto packing compression algorithm.
//!
//! The packed form of a sequence of words is stated by [`pack_spec`], and what a packed
//! stream unpacks to by [`unpack_spec`]; [`lemma_unpack_pack`] proves that unpacking the
//! packed form of words gives back their bytes.

use crate::allocator::{word_is_zero, words_bytes, Word};
use vstd::prelude::*;

verus! {

// ---------------------------------------------------------------------------------------------
// The packed format
// ---------------------------------------------------------------------------------------------

/// The byte as it appears in the packed form of a word: nothing when it is zero.
pub open spec fn opt_byte(b: u8) -> Seq<u8> {
    if b != 0 {
        seq![b]
    } else {
        Seq::empty()
    }
}

/// The nonzero bytes of a word from position `i` on, in order.
pub open spec fn nonzero_bytes_from(w: Word, i: int) -> Seq<u8>
    decreases 8 - i,
{
    if i >= 8 || i < 0 {
        Seq::empty()
    } else {
        opt_byte(w.0@[i]) + nonzero_bytes_from(w, i + 1)
    }
}

/// A bit of a tag: set when byte `i` of the word is nonzero.
pub open spec fn tag_bit(w: Word, i: int, bit: u8) -> u8 {
    if w.0@[i] != 0 {
        bit
    } else {
        0u8
    }
}

/// The tag of a word: bit `i` is set when byte `i` is nonzero.
pub open spec fn tag_of(w: Word) -> u8 {
    tag_bit(w, 0, 1u8) | tag_bit(w, 1, 2u8) | tag_bit(w, 2, 4u8) | tag_bit(w, 3, 8u8) | tag_bit(
        w,
        4,
        16u8,
    ) | tag_bit(w, 5, 32u8) | tag_bit(w, 6, 64u8) | tag_bit(w, 7, 128u8)
}

/// The number of zero bytes in a word.
pub open spec fn zero_byte_count(w: Word) -> int {
    (if w.0@[0] == 0 { 1int } else { 0int }) + (if w.0@[1] == 0 { 1int } else { 0int }) + (if w.0@[2]
        == 0 { 1int } else { 0int }) + (if w.0@[3] == 0 { 1int } else { 0int }) + (if w.0@[4] == 0 {
        1int
    } else {
        0int
    }) + (if w.0@[5] == 0 { 1int } else { 0int }) + (if w.0@[6] == 0 { 1int } else { 0int }) + (
    if w.0@[7] == 0 { 1int } else { 0int })
}

/// Whether a word following an all-nonzero word is copied uncompressed: it has at most one
/// zero byte.
pub open spec fn is_dense(w: Word) -> bool {
    zero_byte_count(w) < 2
}

/// Whether a word belongs to a run: zero words when `zero`, dense words otherwise.
pub open spec fn in_run(w: Word, zero: bool) -> bool {
    if zero {
        word_is_zero(w)
    } else {
        is_dense(w)
    }
}

/// The number of leading words of `s` that belong to a run, at most `max`.
pub open spec fn run_len(s: Seq<Word>, zero: bool, max: nat) -> nat
    decreases s.len(),
{
    if s.len() == 0 || max == 0 {
        0
    } else if in_run(s[0], zero) {
        1 + run_len(s.drop_first(), zero, (max - 1) as nat)
    } else {
        0
    }
}

/// A run is no longer than its sequence or its limit, and all its words belong to it.
pub proof fn lemma_run_len(s: Seq<Word>, zero: bool, max: nat)
    ensures
        run_len(s, zero, max) <= s.len(),
        run_len(s, zero, max) <= max,
        forall|i: int| 0 <= i < run_len(s, zero, max) ==> in_run(#[trigger] s[i], zero),
        run_len(s, zero, max) < s.len() && run_len(s, zero, max) < max ==> !in_run(
            s[run_len(s, zero, max) as int],
            zero,
        ),
    decreases s.len(),
{
    if s.len() == 0 || max == 0 {
    } else if in_run(s[0], zero) {
        lemma_run_len(s.drop_first(), zero, (max - 1) as nat);
        assert forall|i: int| 0 <= i < run_len(s, zero, max) implies in_run(#[trigger] s[i], zero) by {
            if i > 0 {
                assert(s[i] == s.drop_first()[i - 1]);
            }
        }
    }
}

/// A run that stops at a word outside it, at the end of the sequence, or at the limit.
pub proof fn lemma_run_len_stop(s: Seq<Word>, zero: bool, max: nat, n: nat)
    requires
        n <= s.len(),
        n <= max,
        forall|i: int| 0 <= i < n ==> in_run(#[trigger] s[i], zero),
        n == s.len() || n == max || !in_run(s[n as int], zero),
    ensures
        run_len(s, zero, max) == n,
    decreases s.len(),
{
    if s.len() == 0 || max == 0 {
    } else if n == 0 {
    } else {
        assert(in_run(s[0], zero));
        assert forall|i: int| 0 <= i < n - 1 implies in_run(#[trigger] s.drop_first()[i], zero) by {
            assert(s.drop_first()[i] == s[i + 1]);
        }
        if n < s.len() {
            assert(s.drop_first()[n - 1] == s[n as int]);
        }
        lemma_run_len_stop(s.drop_first(), zero, (max - 1) as nat, (n - 1) as nat);
    }
}

/// The packed form of a sequence of words.
///
/// A zero word is written as a zero tag followed by the count of zero words that follow it
/// (at most 255). Any other word is written as its tag followed by its nonzero bytes; when
/// all its bytes are nonzero, the tag is followed by the count of following words with at most
/// one zero byte (at most 255), which are then copied as they are.
pub open spec fn pack_spec(ws: Seq<Word>) -> Seq<u8>
    decreases ws.len(),
{
    if ws.len() == 0 {
        Seq::empty()
    } else {
        let w = ws[0];
        let rest = ws.drop_first();
        if word_is_zero(w) {
            let n = run_len(rest, true, 255);
            proof {
                lemma_run_len(rest, true, 255);
            }
            seq![0u8, n as u8] + pack_spec(rest.skip(n as int))
        } else if tag_of(w) == 0xff {
            let n = run_len(rest, false, 255);
            proof {
                lemma_run_len(rest, false, 255);
            }
            seq![0xffu8] + w.0@ + seq![n as u8] + words_bytes(rest.take(n as int)) + pack_spec(
                rest.skip(n as int),
            )
        } else {
            seq![tag_of(w)] + nonzero_bytes_from(w, 0) + pack_spec(rest)
        }
    }
}

/// Bit `i` of a byte.
pub open spec fn bit_at(t: u8, i: int) -> bool {
    ((t >> (i as u8)) & 1u8) == 1u8
}

/// The number of set bits of a tag in positions `i..8`.
pub open spec fn tag_count(t: u8, i: int) -> nat
    decreases 8 - i,
{
    if i >= 8 || i < 0 {
        0
    } else {
        (if bit_at(t, i) { 1nat } else { 0nat }) + tag_count(t, i + 1)
    }
}

/// The bytes in positions `i..8` of a word decoded from a tag and its packed bytes: a set bit
/// takes the next packed byte, a clear bit gives zero.
pub open spec fn decode_tagged(t: u8, i: int, src: Seq<u8>) -> Seq<u8>
    decreases 8 - i,
{
    if i >= 8 || i < 0 {
        Seq::empty()
    } else if bit_at(t, i) {
        seq![src[0]] + decode_tagged(t, i + 1, src.drop_first())
    } else {
        seq![0u8] + decode_tagged(t, i + 1, src)
    }
}

/// `n` zero bytes.
pub open spec fn zero_bytes(n: nat) -> Seq<u8> {
    Seq::new(n, |i: int| 0u8)
}

/// The bytes a packed stream unpacks to, or `None` when it ends in the middle of an item.
pub open spec fn unpack_spec(b: Seq<u8>) -> Option<Seq<u8>>
    decreases b.len(),
{
    if b.len() == 0 {
        Some(Seq::empty())
    } else if b[0] == 0 {
        if b.len() < 2 {
            None
        } else {
            match unpack_spec(b.skip(2)) {
                Some(o) => Some(zero_bytes((8 * (1 + b[1])) as nat) + o),
                None => None,
            }
        }
    } else if b[0] == 0xff {
        if b.len() < 10 {
            None
        } else {
            let n = b[9] as int;
            if b.len() < 10 + 8 * n {
                None
            } else {
                match unpack_spec(b.skip(10 + 8 * n)) {
                    Some(o) => Some(b.subrange(1, 9) + b.subrange(10, 10 + 8 * n) + o),
                    None => None,
                }
            }
        }
    } else {
        let k = tag_count(b[0], 0) as int;
        if b.len() < 1 + k {
            None
        } else {
            match unpack_spec(b.skip(1 + k)) {
                Some(o) => Some(decode_tagged(b[0], 0, b.subrange(1, 1 + k)) + o),
                None => None,
            }
        }
    }
}

// ---------------------------------------------------------------------------------------------
// Lemmas
// ---------------------------------------------------------------------------------------------

/// Bit `i` of the tag of a word is set exactly when byte `i` is nonzero.
pub proof fn lemma_tag_bit(w: Word, i: int)
    requires
        0 <= i < 8,
    ensures
        bit_at(tag_of(w), i) <==> w.0@[i] != 0,
{
    let b0 = w.0@[0] != 0;
    let b1 = w.0@[1] != 0;
    let b2 = w.0@[2] != 0;
    let b3 = w.0@[3] != 0;
    let b4 = w.0@[4] != 0;
    let b5 = w.0@[5] != 0;
    let b6 = w.0@[6] != 0;
    let b7 = w.0@[7] != 0;
    let t = tag_of(w);
    assert(t == (if b0 { 1u8 } else { 0u8 }) | (if b1 { 2u8 } else { 0u8 }) | (if b2 {
        4u8
    } else {
        0u8
    }) | (if b3 { 8u8 } else { 0u8 }) | (if b4 { 16u8 } else { 0u8 }) | (if b5 { 32u8 } else {
        0u8
    }) | (if b6 { 64u8 } else { 0u8 }) | (if b7 { 128u8 } else { 0u8 }));
    let iu = i as u8;
    assert(((t >> iu) & 1u8 == 1u8) <==> (if iu == 0 { b0 } else if iu == 1 { b1 } else if iu
        == 2 { b2 } else if iu == 3 { b3 } else if iu == 4 { b4 } else if iu == 5 { b5 } else if iu
        == 6 { b6 } else { b7 })) by (bit_vector)
        requires
            iu < 8,
            t == (if b0 { 1u8 } else { 0u8 }) | (if b1 { 2u8 } else { 0u8 }) | (if b2 {
                4u8
            } else {
                0u8
            }) | (if b3 { 8u8 } else { 0u8 }) | (if b4 { 16u8 } else { 0u8 }) | (if b5 {
                32u8
            } else {
                0u8
            }) | (if b6 { 64u8 } else { 0u8 }) | (if b7 { 128u8 } else { 0u8 }),
    ;
}

/// The tag of a word is zero exactly when the word is zero, and all ones exactly when all of
/// its bytes are nonzero.
pub proof fn lemma_tag_extremes(w: Word)
    ensures
        tag_of(w) == 0 <==> word_is_zero(w),
        tag_of(w) == 0xff <==> (forall|i: int| 0 <= i < 8 ==> #[trigger] w.0@[i] != 0),
{
    let b0 = w.0@[0] != 0;
    let b1 = w.0@[1] != 0;
    let b2 = w.0@[2] != 0;
    let b3 = w.0@[3] != 0;
    let b4 = w.0@[4] != 0;
    let b5 = w.0@[5] != 0;
    let b6 = w.0@[6] != 0;
    let b7 = w.0@[7] != 0;
    let t = tag_of(w);
    assert((t == 0 <==> !b0 && !b1 && !b2 && !b3 && !b4 && !b5 && !b6 && !b7) && (t == 0xff <==> b0
        && b1 && b2 && b3 && b4 && b5 && b6 && b7)) by (bit_vector)
        requires
            t == (if b0 { 1u8 } else { 0u8 }) | (if b1 { 2u8 } else { 0u8 }) | (if b2 {
                4u8
            } else {
                0u8
            }) | (if b3 { 8u8 } else { 0u8 }) | (if b4 { 16u8 } else { 0u8 }) | (if b5 {
                32u8
            } else {
                0u8
            }) | (if b6 { 64u8 } else { 0u8 }) | (if b7 { 128u8 } else { 0u8 }),
    ;
    if word_is_zero(w) {
        assert(!b0 && !b1 && !b2 && !b3 && !b4 && !b5 && !b6 && !b7);
    }
    if t == 0 {
        assert forall|i: int| 0 <= i < 8 implies #[trigger] w.0@[i] == 0 by {
            assert(i == 0 || i == 1 || i == 2 || i == 3 || i == 4 || i == 5 || i == 6 || i == 7);
        }
    }
    if t == 0xff {
        assert forall|i: int| 0 <= i < 8 implies #[trigger] w.0@[i] != 0 by {
            assert(i == 0 || i == 1 || i == 2 || i == 3 || i == 4 || i == 5 || i == 6 || i == 7);
        }
    }
    if forall|i: int| 0 <= i < 8 ==> #[trigger] w.0@[i] != 0 {
        assert(w.0@[0] != 0 && w.0@[1] != 0 && w.0@[2] != 0 && w.0@[3] != 0);
        assert(w.0@[4] != 0 && w.0@[5] != 0 && w.0@[6] != 0 && w.0@[7] != 0);
    }
}

/// Decoding the tag of a word with its nonzero bytes gives back the bytes of the word from
/// position `i` on, and the count of the tag's bits is the number of those bytes.
pub proof fn lemma_decode_tagged_word(w: Word, i: int, rest: Seq<u8>)
    requires
        0 <= i <= 8,
    ensures
        decode_tagged(tag_of(w), i, nonzero_bytes_from(w, i) + rest) == w.0@.subrange(i, 8),
        tag_count(tag_of(w), i) == nonzero_bytes_from(w, i).len(),
    decreases 8 - i,
{
    if i == 8 {
        assert(w.0@.subrange(8, 8) =~= Seq::<u8>::empty());
    } else {
        lemma_tag_bit(w, i);
        lemma_decode_tagged_word(w, i + 1, rest);
        let t = tag_of(w);
        let src = nonzero_bytes_from(w, i) + rest;
        if w.0@[i] != 0 {
            assert(src.drop_first() =~= nonzero_bytes_from(w, i + 1) + rest);
        } else {
            assert(src =~= nonzero_bytes_from(w, i + 1) + rest);
        }
        assert(w.0@.subrange(i, 8) =~= seq![w.0@[i]] + w.0@.subrange(i + 1, 8));
    }
}

/// The nonzero bytes of an all-nonzero word are all its bytes.
pub proof fn lemma_nonzero_bytes_full(w: Word, i: int)
    requires
        0 <= i <= 8,
        forall|j: int| 0 <= j < 8 ==> #[trigger] w.0@[j] != 0,
    ensures
        nonzero_bytes_from(w, i) == w.0@.subrange(i, 8),
    decreases 8 - i,
{
    if i < 8 {
        lemma_nonzero_bytes_full(w, i + 1);
        assert(w.0@.subrange(i, 8) =~= seq![w.0@[i]] + w.0@.subrange(i + 1, 8));
    } else {
        assert(w.0@.subrange(8, 8) =~= Seq::<u8>::empty());
    }
}

/// The bytes of concatenated words are the concatenated bytes.
pub proof fn lemma_words_bytes_add(a: Seq<Word>, b: Seq<Word>)
    ensures
        words_bytes(a + b) == words_bytes(a) + words_bytes(b),
{
    let l = words_bytes(a + b);
    let r = words_bytes(a) + words_bytes(b);
    assert(l.len() == r.len()) by (nonlinear_arith)
        requires
            l.len() == (a.len() + b.len()) * 8,
            r.len() == a.len() * 8 + b.len() * 8,
    ;
    assert forall|i: int| 0 <= i < l.len() implies l[i] == r[i] by {
        if i < a.len() * 8 {
            assert(i / 8 < a.len()) by (nonlinear_arith)
                requires
                    0 <= i < a.len() * 8,
            ;
            assert(0 <= i / 8);
        } else {
            let j = i - a.len() * 8;
            assert(i / 8 == a.len() + j / 8 && i % 8 == j % 8) by (nonlinear_arith)
                requires
                    j == i - a.len() * 8,
                    0 <= j,
            ;
            assert(0 <= j / 8 < b.len()) by (nonlinear_arith)
                requires
                    0 <= j < b.len() * 8,
            ;
        }
    }
    assert(l =~= r);
}

/// The bytes of a single word.
pub proof fn lemma_words_bytes_one(w: Word)
    ensures
        words_bytes(seq![w]) == w.0@,
{
    assert(words_bytes(seq![w]) =~= w.0@);
}

/// The bytes of a run of zero words are zero bytes.
pub proof fn lemma_words_bytes_zero(ws: Seq<Word>)
    requires
        forall|i: int| 0 <= i < ws.len() ==> word_is_zero(#[trigger] ws[i]),
    ensures
        words_bytes(ws) == zero_bytes((ws.len() * 8) as nat),
{
    let l = words_bytes(ws);
    assert forall|i: int| 0 <= i < l.len() implies l[i] == 0u8 by {
        assert(0 <= i / 8 < ws.len()) by (nonlinear_arith)
            requires
                0 <= i < ws.len() * 8,
        ;
        assert(0 <= i % 8 < 8);
        assert(word_is_zero(ws[i / 8]));
    }
    assert(l =~= zero_bytes((ws.len() * 8) as nat));
}

/// A sequence is its first element followed by the rest.
proof fn lemma_split_first(ws: Seq<Word>, n: int)
    requires
        0 <= n,
        1 + n <= ws.len(),
    ensures
        ws == seq![ws[0]] + ws.drop_first().take(n) + ws.drop_first().skip(n),
        ws.take(1 + n) == seq![ws[0]] + ws.drop_first().take(n),
        ws.skip(1 + n) == ws.drop_first().skip(n),
{
    assert(ws =~= seq![ws[0]] + ws.drop_first().take(n) + ws.drop_first().skip(n));
    assert(ws.take(1 + n) =~= seq![ws[0]] + ws.drop_first().take(n));
    assert(ws.skip(1 + n) =~= ws.drop_first().skip(n));
}

/// Unpacking the packed form of words gives back the bytes of the words.
pub proof fn lemma_unpack_pack(ws: Seq<Word>)
    ensures
        unpack_spec(pack_spec(ws)) == Some(words_bytes(ws)),
    decreases ws.len(),
{
    if ws.len() == 0 {
        assert(words_bytes(ws) =~= Seq::<u8>::empty());
    } else {
        let w = ws[0];
        let rest = ws.drop_first();
        let p = pack_spec(ws);
        lemma_tag_extremes(w);
        if word_is_zero(w) {
            let n = run_len(rest, true, 255) as int;
            lemma_run_len(rest, true, 255);
            lemma_unpack_pack(rest.skip(n as int));
            let tail = pack_spec(rest.skip(n as int));
            assert(p == seq![0u8, n as u8] + tail);
            assert(p.skip(2) =~= tail);
            lemma_split_first(ws, n as int);
            let head = ws.take(1 + n);
            assert forall|i: int| 0 <= i < head.len() implies word_is_zero(#[trigger] head[i]) by {
                if i > 0 {
                    assert(head[i] == rest[i - 1]);
                    assert(in_run(rest[i - 1], true));
                }
            }
            lemma_words_bytes_zero(head);
            lemma_words_bytes_add(head, ws.skip(1 + n));
            assert(ws =~= head + ws.skip(1 + n));
        } else if tag_of(w) == 0xff {
            let n = run_len(rest, false, 255) as int;
            lemma_run_len(rest, false, 255);
            lemma_unpack_pack(rest.skip(n as int));
            let tail = pack_spec(rest.skip(n as int));
            let copied = words_bytes(rest.take(n as int));
            assert(copied.len() == 8 * n) by (nonlinear_arith)
                requires
                    copied.len() == n * 8,
            ;
            assert(p == seq![0xffu8] + w.0@ + seq![n as u8] + copied + tail);
            assert(p[0] == 0xffu8);
            assert(p[9] == n as u8);
            assert(p.skip(10 + 8 * n) =~= tail);
            assert(p.subrange(1, 9) =~= w.0@);
            assert(p.subrange(10, 10 + 8 * n) =~= copied);
            lemma_split_first(ws, n as int);
            lemma_words_bytes_one(w);
            lemma_words_bytes_add(seq![w], rest.take(n as int));
            lemma_words_bytes_add(seq![w] + rest.take(n as int), rest.skip(n as int));
            assert(ws =~= seq![w] + rest.take(n as int) + rest.skip(n as int));
        } else {
            let t = tag_of(w);
            lemma_decode_tagged_word(w, 0, pack_spec(rest));
            lemma_unpack_pack(rest);
            let nz = nonzero_bytes_from(w, 0);
            let k = tag_count(t, 0) as int;
            assert(p == seq![t] + nz + pack_spec(rest));
            assert(p[0] == t);
            assert(p.skip(1 + k) =~= pack_spec(rest));
            assert(p.subrange(1, 1 + k) =~= nz);
            assert(nz + Seq::<u8>::empty() =~= nz);
            lemma_decode_tagged_word(w, 0, Seq::empty());
            assert(w.0@.subrange(0, 8) =~= w.0@);
            lemma_words_bytes_one(w);
            lemma_words_bytes_add(seq![w], rest);
            assert(ws =~= seq![w] + rest);
        }
    }
}

} // verus!

verus! {

// ---------------------------------------------------------------------------------------------
// Packing
// ---------------------------------------------------------------------------------------------

/// The bytes of the words `a..b` are the bytes `8a..8b`.
pub proof fn lemma_words_bytes_subrange(ws: Seq<Word>, a: int, b: int)
    requires
        0 <= a <= b <= ws.len(),
    ensures
        words_bytes(ws.subrange(a, b)) == words_bytes(ws).subrange(8 * a, 8 * b),
{
    let l = words_bytes(ws.subrange(a, b));
    let r = words_bytes(ws).subrange(8 * a, 8 * b);
    assert(l.len() == r.len()) by (nonlinear_arith)
        requires
            l.len() == (b - a) * 8,
            r.len() == 8 * b - 8 * a,
    ;
    assert forall|i: int| 0 <= i < l.len() implies l[i] == r[i] by {
        assert((8 * a + i) / 8 == a + i / 8 && (8 * a + i) % 8 == i % 8) by (nonlinear_arith)
            requires
                0 <= i,
                0 <= a,
        ;
        assert(0 <= i / 8 < b - a) by (nonlinear_arith)
            requires
                0 <= i < (b - a) * 8,
        ;
        assert(8 * a + i < 8 * ws.len()) by (nonlinear_arith)
            requires
                0 <= i < (b - a) * 8,
                b <= ws.len(),
        ;
    }
    assert(l =~= r);
}

/// Whether a word has at most one zero byte.
fn word_is_dense(w: Word) -> (r: bool)
    ensures
        r == is_dense(w),
{
    let b = w.0;
    let z: u32 = (if b[0] == 0 { 1u32 } else { 0u32 }) + (if b[1] == 0 { 1u32 } else { 0u32 }) + (
    if b[2] == 0 { 1u32 } else { 0u32 }) + (if b[3] == 0 { 1u32 } else { 0u32 }) + (if b[4] == 0 {
        1u32
    } else {
        0u32
    }) + (if b[5] == 0 { 1u32 } else { 0u32 }) + (if b[6] == 0 { 1u32 } else { 0u32 }) + (if b[7]
        == 0 { 1u32 } else { 0u32 });
    z < 2
}

/// Counts the words from `start` on that belong to a run, at most 255 of them.
fn count_run(input: &[Word], start: usize, zero: bool) -> (n: usize)
    requires
        start <= input@.len(),
    ensures
        n == run_len(input@.skip(start as int), zero, 255),
        n <= 255,
        start + n <= input@.len(),
{
    let ghost s = input@.skip(start as int);
    let mut j: usize = 0;
    while j < 255 && j < input.len() - start
        invariant
            j <= 255,
            start + j <= input@.len(),
            s == input@.skip(start as int),
            forall|i: int| 0 <= i < j ==> in_run(#[trigger] s[i], zero),
        decreases 255 - j,
    {
        let w = input[start + j];
        let belongs = if zero {
            w.is_null()
        } else {
            word_is_dense(w)
        };
        if !belongs {
            assert(s[j as int] == w);
            proof {
                lemma_run_len_stop(s, zero, 255, j as nat);
            }
            return j;
        }
        assert(s[j as int] == w);
        j = j + 1;
    }
    proof {
        lemma_run_len_stop(s, zero, 255, j as nat);
    }
    j
}

/// Copies the bytes `from..to` of the words of `input` to `out` at `at`.
fn copy_word_bytes(input: &[Word], from: usize, to: usize, out: &mut [u8], at: usize)
    requires
        from <= to <= input@.len() * 8,
        at + (to - from) <= old(out)@.len(),
    ensures
        final(out)@.len() == old(out)@.len(),
        final(out)@.subrange(0, at as int) == old(out)@.subrange(0, at as int),
        final(out)@.subrange(at as int, at + (to - from)) == words_bytes(input@).subrange(
            from as int,
            to as int,
        ),
{
    let out_len = out.len();
    let mut k: usize = 0;
    while k < to - from
        invariant
            out_len == out@.len(),
            from <= to <= input@.len() * 8,
            at + (to - from) <= out@.len(),
            out@.len() == old(out)@.len(),
            k <= to - from,
            out@.subrange(0, at as int) == old(out)@.subrange(0, at as int),
            out@.subrange(at as int, at + k) == words_bytes(input@).subrange(
                from as int,
                from + k,
            ),
        decreases to - from - k,
    {
        let p = from + k;
        assert(at + k < out@.len());
        assert(p / 8 < input@.len()) by (nonlinear_arith)
            requires
                p < input@.len() * 8,
        ;
        let b = input[p / 8].0[p % 8];
        out[at + k] = b;
        k = k + 1;
        assert(out@.subrange(0, at as int) =~= old(out)@.subrange(0, at as int));
        assert(out@.subrange(at as int, at + k) =~= words_bytes(input@).subrange(
            from as int,
            from + k,
        ));
    }
}

/// Writes the tag of a word and its nonzero bytes to `out` at `at`, returning the tag and the
/// position after the last byte written.
fn write_tagged(w: Word, out: &mut [u8], at: usize) -> (r: (u8, usize))
    requires
        at + 9 <= old(out)@.len(),
    ensures
        r.0 == tag_of(w),
        r.1 == at + 1 + nonzero_bytes_from(w, 0).len(),
        r.1 <= at + 9,
        final(out)@.len() == old(out)@.len(),
        final(out)@.subrange(0, at as int) == old(out)@.subrange(0, at as int),
        final(out)@.subrange(at as int, r.1 as int) == seq![tag_of(w)] + nonzero_bytes_from(
            w,
            0,
        ),
{
    let b = w.0;
    let t: u8 = (if b[0] != 0 { 1u8 } else { 0u8 }) | (if b[1] != 0 { 2u8 } else { 0u8 }) | (
    if b[2] != 0 { 4u8 } else { 0u8 }) | (if b[3] != 0 { 8u8 } else { 0u8 }) | (if b[4] != 0 {
        16u8
    } else {
        0u8
    }) | (if b[5] != 0 { 32u8 } else { 0u8 }) | (if b[6] != 0 { 64u8 } else { 0u8 }) | (if b[7]
        != 0 { 128u8 } else { 0u8 });
    out[at] = t;
    let mut k: usize = at + 1;
    let mut i: usize = 0;
    while i < 8
        invariant
            at + 9 <= out@.len(),
            out@.len() == old(out)@.len(),
            i <= 8,
            at + 1 <= k <= at + 1 + i,
            out@.subrange(0, at as int) == old(out)@.subrange(0, at as int),
            out@[at as int] == t,
            out@.subrange(at + 1, k as int) + nonzero_bytes_from(w, i as int)
                == nonzero_bytes_from(w, 0),
            b == w.0,
        decreases 8 - i,
    {
        let ghost before = out@;
        if b[i] != 0 {
            out[k] = b[i];
            k = k + 1;
            assert(out@.subrange(at + 1, k as int) =~= before.subrange(at + 1, k - 1) + seq![
                b[i as int],
            ]);
        }
        assert(nonzero_bytes_from(w, i as int) == opt_byte(w.0@[i as int]) + nonzero_bytes_from(
            w,
            i + 1,
        ));
        i = i + 1;
        assert(out@.subrange(0, at as int) =~= old(out)@.subrange(0, at as int));
        assert(out@.subrange(at + 1, k as int) + nonzero_bytes_from(w, i as int)
            =~= nonzero_bytes_from(w, 0));
    }
    assert(nonzero_bytes_from(w, 8) =~= Seq::<u8>::empty());
    assert(out@.subrange(at + 1, k as int) =~= nonzero_bytes_from(w, 0));
    assert(out@.subrange(at as int, k as int) =~= seq![t] + out@.subrange(at + 1, k as int));
    (t, k)
}

/// The result of a call of [`Packer::pack`].
#[derive(Debug)]
pub struct PackResult {
    pub completed: bool,
    pub bytes_written: usize,
}

/// A packing primitive that implements the Cap'n Proto packing algorithm.
#[derive(Debug)]
pub struct Packer<'b> {
    input: &'b [Word],
    pos: usize,
    active_copy: Option<(usize, usize)>,
}

impl<'b> Packer<'b> {
    /// The packed bytes still to be written.
    pub closed spec fn spec_remaining(&self) -> Seq<u8> {
        let copy = match self.active_copy {
            Some((s, e)) => words_bytes(self.input@).subrange(s as int, e as int),
            None => Seq::empty(),
        };
        copy + pack_spec(self.input@.skip(self.pos as int))
    }

    /// The packer's state is consistent.
    pub closed spec fn wf(&self) -> bool {
        &&& self.pos <= self.input@.len()
        &&& self.input@.len() * 8 <= usize::MAX
        &&& self.active_copy matches Some((s, e)) ==> s < e <= 8 * self.pos
    }

    /// Makes a packer of the given words; all of their packed form remains to be written.
    pub fn new(input: &'b [Word]) -> (r: Self)
        requires
            input@.len() * 8 <= usize::MAX,
        ensures
            r.wf(),
            r.spec_remaining() == pack_spec(input@),
    {
        let r = Self { input, pos: 0, active_copy: None };
        assert(input@.skip(0) =~= input@);
        assert(r.spec_remaining() =~= pack_spec(input@));
        r
    }

    /// Copies the uncompressed words `from..to` after an all-nonzero word, as far as `out`
    /// has room, keeping the rest as an interrupted copy.
    fn copy_uncompressed(&mut self, from: usize, to: usize, out: &mut [u8], at: usize) -> (r: Option<
        usize,
    >)
        requires
            old(self).wf(),
            old(self).active_copy is None,
            from <= to <= 8 * old(self).pos,
            at <= old(out)@.len(),
        ensures
            final(self).wf(),
            final(out)@.len() == old(out)@.len(),
            final(out)@.subrange(0, at as int) == old(out)@.subrange(0, at as int),
            final(self).input == old(self).input,
            final(self).pos == old(self).pos,
            ({
                let copied = words_bytes(old(self).input@).subrange(from as int, to as int);
                let tail = pack_spec(old(self).input@.skip(old(self).pos as int));
                match r {
                    Some(end) => {
                        &&& end == at + (to - from)
                        &&& end <= old(out)@.len()
                        &&& final(out)@.subrange(at as int, end as int) == copied
                        &&& final(self).active_copy is None
                        &&& final(self).spec_remaining() == tail
                    },
                    None => {
                        &&& at + (to - from) > old(out)@.len()
                        &&& final(out)@.subrange(at as int, old(out)@.len() as int)
                            == copied.subrange(0, old(out)@.len() - at)
                        &&& final(self).spec_remaining() == copied.skip(old(out)@.len() - at)
                            + tail
                        &&& final(self).spec_remaining().len() > 0
                    },
                }
            }),
    {
        let avail = out.len() - at;
        let len = to - from;
        let ghost wb = words_bytes(self.input@);
        if len <= avail {
            copy_word_bytes(self.input, from, to, out, at);
            Some(at + len)
        } else {
            copy_word_bytes(self.input, from, from + avail, out, at);
            self.active_copy = Some((from + avail, to));
            assert(wb.subrange(from as int, to as int).skip(avail as int) =~= wb.subrange(
                from + avail,
                to as int,
            ));
            assert(wb.subrange(from as int, to as int).subrange(0, avail as int) =~= wb.subrange(
                from as int,
                from + avail,
            ));
            None
        }
    }

    /// Packs the next word (and the run that follows it, if any) into `out` at `at`. Returns
    /// the position after the bytes written, or `None` when `out` was filled in the middle of
    /// copying uncompressed words.
    #[verifier::rlimit(40)]
    fn pack_word(&mut self, out: &mut [u8], at: usize) -> (r: Option<usize>)
        requires
            old(self).wf(),
            old(self).active_copy is None,
            old(self).pos < old(self).input@.len(),
            at + 10 <= old(out)@.len(),
        ensures
            final(self).wf(),
            final(out)@.len() == old(out)@.len(),
            final(out)@.subrange(0, at as int) == old(out)@.subrange(0, at as int),
            final(self).input == old(self).input,
            final(self).pos > old(self).pos,
            match r {
                Some(end) => {
                    &&& at < end <= old(out)@.len()
                    &&& end - at <= old(self).spec_remaining().len()
                    &&& final(out)@.subrange(at as int, end as int)
                        == old(self).spec_remaining().subrange(0, end - at)
                    &&& final(self).active_copy is None
                    &&& final(self).spec_remaining() == old(self).spec_remaining().skip(end - at)
                },
                None => {
                    &&& old(out)@.len() - at <= old(self).spec_remaining().len()
                    &&& final(out)@.subrange(at as int, old(out)@.len() as int)
                        == old(self).spec_remaining().subrange(0, old(out)@.len() - at)
                    &&& final(self).spec_remaining() == old(self).spec_remaining().skip(
                        old(out)@.len() - at,
                    )
                    &&& final(self).spec_remaining().len() > 0
                },
            },
    {
        let ghost rem = self.spec_remaining();
        let ghost pos0 = self.pos;
        let ghost ws = self.input@.skip(self.pos as int);
        let ghost out0 = out@;
        let word = self.input[self.pos];
        let ghost rest = ws.drop_first();
        assert(ws[0] == word);
        assert(rest =~= self.input@.skip(self.pos + 1));
        assert(rem =~= pack_spec(ws));
        self.pos = self.pos + 1;
        if word.is_null() {
            let n = count_run(self.input, self.pos, true);
            self.pos = self.pos + n;
            out[at] = 0;
            out[at + 1] = n as u8;
            assert(rest.skip(n as int) =~= self.input@.skip(self.pos as int));
            assert(rem == seq![0u8, n as u8] + pack_spec(rest.skip(n as int)));
            assert(rem.subrange(0, 2) =~= seq![0u8, n as u8]);
            assert(rem.skip(2) =~= pack_spec(rest.skip(n as int)));
            assert(out@.subrange(at as int, at + 2) =~= seq![0u8, n as u8]);
            assert(out@.subrange(0, at as int) =~= out0.subrange(0, at as int));
            assert(self.spec_remaining() =~= rem.skip(2));
            Some(at + 2)
        } else {
            let (tag, c1) = write_tagged(word, out, at);
            proof {
                lemma_tag_extremes(word);
            }
            let ghost head = seq![tag_of(word)] + nonzero_bytes_from(word, 0);
            if tag == 0xff {
                proof {
                    lemma_nonzero_bytes_full(word, 0);
                    assert(word.0@.subrange(0, 8) =~= word.0@);
                }
                let n = count_run(self.input, self.pos, false);
                let start = self.pos * 8;
                self.pos = self.pos + n;
                out[c1] = n as u8;
                let c2 = c1 + 1;
                let ghost copied = words_bytes(rest.take(n as int));
                proof {
                    lemma_words_bytes_subrange(self.input@, (pos0 + 1) as int, self.pos as int);
                    assert(rest.take(n as int) =~= self.input@.subrange(
                        (pos0 + 1) as int,
                        self.pos as int,
                    ));
                    assert(rest.skip(n as int) =~= self.input@.skip(self.pos as int));
                }
                let ghost tail = pack_spec(self.input@.skip(self.pos as int));
                let ghost head2 = head + seq![n as u8];
                assert(rem == head2 + copied + tail);
                assert(rem.subrange(0, head2.len() as int) =~= head2);
                assert(rem.skip(head2.len() as int) =~= copied + tail);
                assert(out@.subrange(at as int, c2 as int) =~= head2);
                let ghost out1 = out@;
                let r = self.copy_uncompressed(start, start + n * 8, out, c2);
                assert(out@.subrange(0, at as int) =~= out0.subrange(0, at as int));
                match r {
                    Some(end) => {
                        assert(out@.subrange(0, c2 as int).subrange(at as int, c2 as int)
                            =~= out@.subrange(at as int, c2 as int));
                        assert(out1.subrange(0, c2 as int).subrange(at as int, c2 as int)
                            =~= out1.subrange(at as int, c2 as int));
                        assert(out@.subrange(at as int, c2 as int) =~= out1.subrange(
                            at as int,
                            c2 as int,
                        ));
                        assert(out@.subrange(at as int, end as int) =~= out@.subrange(
                            at as int,
                            c2 as int,
                        ) + out@.subrange(c2 as int, end as int));
                        assert(out@.subrange(at as int, end as int) =~= head2 + copied);
                        assert(rem.subrange(0, end - at) =~= head2 + copied);
                        assert(rem.skip(end - at) =~= tail);
                        Some(end)
                    },
                    None => {
                        let len = out.len();
                        assert(out@.subrange(0, c2 as int).subrange(at as int, c2 as int)
                            =~= out@.subrange(at as int, c2 as int));
                        assert(out1.subrange(0, c2 as int).subrange(at as int, c2 as int)
                            =~= out1.subrange(at as int, c2 as int));
                        assert(out@.subrange(at as int, c2 as int) =~= out1.subrange(
                            at as int,
                            c2 as int,
                        ));
                        assert(out@.subrange(at as int, len as int) =~= out@.subrange(
                            at as int,
                            c2 as int,
                        ) + out@.subrange(c2 as int, len as int));
                        assert(out@.subrange(at as int, len as int) =~= head2 + copied.subrange(
                            0,
                            len - c2,
                        ));
                        assert(rem.subrange(0, len - at) =~= head2 + copied.subrange(
                            0,
                            len - c2,
                        ));
                        assert(rem.skip(len - at) =~= copied.skip(len - c2) + tail);
                        None
                    },
                }
            } else {
                assert(rest =~= self.input@.skip(self.pos as int));
                assert(rem == head + pack_spec(rest));
                assert(rem.subrange(0, head.len() as int) =~= head);
                assert(rem.skip(head.len() as int) =~= pack_spec(rest));
                assert(self.spec_remaining() =~= rem.skip(head.len() as int));
                Some(c1)
            }
        }
    }

    /// Packs words into the specified buffer. This may not use the whole buffer.
    ///
    /// The bytes written are the next packed bytes, as many as fit: it stops short of the end
    /// only with fewer than 10 bytes of the buffer left. At least 10 bytes are needed to write a
    /// word to the output buffer; if a smaller buffer is provided, no bytes are written.
    pub fn pack(&mut self, output_buf: &mut [u8]) -> (r: PackResult)
        requires
            old(self).wf(),
        ensures
            final(self).wf(),
            r.bytes_written <= old(output_buf)@.len(),
            r.bytes_written <= old(self).spec_remaining().len(),
            final(output_buf)@.len() == old(output_buf)@.len(),
            final(output_buf)@.subrange(0, r.bytes_written as int)
                == old(self).spec_remaining().subrange(0, r.bytes_written as int),
            final(self).spec_remaining() == old(self).spec_remaining().skip(
                r.bytes_written as int,
            ),
            r.completed <==> final(self).spec_remaining().len() == 0,
            old(output_buf)@.len() >= 10 && old(self).spec_remaining().len() > 0
                ==> r.bytes_written > 0,
            !r.completed ==> old(output_buf)@.len() - r.bytes_written < 10,
            old(output_buf)@.len() < 10 ==> r.bytes_written == 0 && final(output_buf)@ == old(output_buf)@,
    {
        let in_len = output_buf.len();
        let ghost orig = self.spec_remaining();
        let mut c: usize = 0;
        if in_len < 10 {
            let done = self.active_copy.is_none() && self.pos >= self.input.len();
            proof {
                if self.pos >= self.input.len() {
                    assert(self.input@.skip(self.pos as int) =~= Seq::<Word>::empty());
                } else {
                    assert(self.input@.skip(self.pos as int).len() > 0);
                }
                assert(orig.skip(0) =~= orig);
            }
            return PackResult { completed: done, bytes_written: 0 };
        }

        if let Some((s, e)) = self.active_copy {
            let ghost wb = words_bytes(self.input@);
            let n = e - s;
            let ghost tail = pack_spec(self.input@.skip(self.pos as int));
            assert(orig =~= wb.subrange(s as int, e as int) + tail);
            if n <= in_len {
                copy_word_bytes(self.input, s, e, output_buf, 0);
                c = n;
                self.active_copy = None;
                assert(orig.subrange(0, c as int) =~= wb.subrange(s as int, e as int));
                assert(orig.skip(c as int) =~= tail);
                assert(self.spec_remaining() =~= orig.skip(c as int));
            } else {
                copy_word_bytes(self.input, s, s + in_len, output_buf, 0);
                self.active_copy = Some((s + in_len, e));
                assert(orig.subrange(0, in_len as int) =~= wb.subrange(s as int, s + in_len));
                assert(self.spec_remaining() =~= orig.skip(in_len as int));
                return PackResult { completed: false, bytes_written: in_len };
            }
        }
        assert(output_buf@.subrange(0, c as int) =~= orig.subrange(0, c as int));
        assert(self.spec_remaining() =~= orig.skip(c as int));

        let completed: bool;
        loop
            invariant_except_break
                self.wf(),
                self.active_copy is None,
                in_len == old(output_buf)@.len(),
                orig == old(self).spec_remaining(),
                c <= in_len,
                in_len == output_buf@.len(),
                c <= orig.len(),
                output_buf@.subrange(0, c as int) == orig.subrange(0, c as int),
                self.spec_remaining() == orig.skip(c as int),
            ensures
                self.wf(),
                c <= in_len,
                in_len == old(output_buf)@.len(),
                orig == old(self).spec_remaining(),
                in_len == output_buf@.len(),
                c <= orig.len(),
                output_buf@.subrange(0, c as int) == orig.subrange(0, c as int),
                self.spec_remaining() == orig.skip(c as int),
                completed <==> self.spec_remaining().len() == 0,
                in_len >= 10 && orig.len() > 0 ==> c > 0,
                !completed ==> in_len - c < 10,
            decreases self.input@.len() - self.pos,
        {
            if self.pos >= self.input.len() {
                assert(self.input@.skip(self.pos as int) =~= Seq::<Word>::empty());
                assert(self.spec_remaining() =~= Seq::<u8>::empty());
                completed = true;
                break ;
            }
            if in_len - c < 10 {
                assert(self.input@.skip(self.pos as int).len() > 0);
                assert(self.spec_remaining().len() > 0);
                completed = false;
                break ;
            }
            let ghost c0 = c;
            let ghost out0 = output_buf@;
            let ghost rem0 = self.spec_remaining();
            match self.pack_word(output_buf, c) {
                Some(end) => {
                    c = end;
                    assert(orig.subrange(0, c as int) =~= orig.subrange(0, c0 as int)
                        + rem0.subrange(0, c - c0));
                    assert(output_buf@.subrange(0, c as int) =~= output_buf@.subrange(
                        0,
                        c0 as int,
                    ) + output_buf@.subrange(c0 as int, c as int));
                    assert(rem0.skip(c - c0) =~= orig.skip(c as int));
                },
                None => {
                    assert(orig.subrange(0, in_len as int) =~= orig.subrange(0, c0 as int)
                        + rem0.subrange(0, in_len - c0));
                    assert(output_buf@.subrange(0, in_len as int) =~= output_buf@.subrange(
                        0,
                        c0 as int,
                    ) + output_buf@.subrange(c0 as int, in_len as int));
                    assert(rem0.skip(in_len - c0) =~= orig.skip(in_len as int));
                    return PackResult { completed: false, bytes_written: in_len };
                },
            }
        }
        PackResult { completed, bytes_written: c }
    }
}

} // verus!

verus! {

// ---------------------------------------------------------------------------------------------
// Unpacking: what remains to be unpacked in each state of an unpacker
// ---------------------------------------------------------------------------------------------

/// `p` put in front of an unpacking result.
pub open spec fn prepend(p: Seq<u8>, o: Option<Seq<u8>>) -> Option<Seq<u8>> {
    match o {
        Some(x) => Some(p + x),
        None => None,
    }
}

/// What `f` unpacks to when it starts with `count` uncompressed words.
pub open spec fn raw_rest(count: nat, f: Seq<u8>) -> Option<Seq<u8>> {
    if f.len() < 8 * count {
        None
    } else {
        prepend(f.take(8 * count as int), unpack_spec(f.skip(8 * count as int)))
    }
}

/// What `f` unpacks to when it starts with the count of uncompressed words after an
/// all-nonzero word.
pub open spec fn count_rest(f: Seq<u8>) -> Option<Seq<u8>> {
    if f.len() == 0 {
        None
    } else {
        raw_rest(f[0] as nat, f.skip(1))
    }
}

/// What `f` unpacks to when it follows an all-ones tag.
pub open spec fn ff_rest(f: Seq<u8>) -> Option<Seq<u8>> {
    if f.len() < 8 {
        None
    } else {
        prepend(f.take(8), count_rest(f.skip(8)))
    }
}

/// What `f` unpacks to when it holds the packed bytes of positions `i..8` of a tagged word
/// whose positions before `i` are `buf`.
pub open spec fn tagged_rest(buf: Seq<u8>, t: u8, i: int, f: Seq<u8>) -> Option<Seq<u8>> {
    let k = tag_count(t, i) as int;
    if f.len() < k {
        None
    } else {
        prepend(buf.take(i) + decode_tagged(t, i, f.take(k)), unpack_spec(f.skip(k)))
    }
}

/// What `f` unpacks to after `n` zero words still to be written.
pub open spec fn nulls_rest(n: nat, f: Seq<u8>) -> Option<Seq<u8>> {
    prepend(zero_bytes(8 * n), unpack_spec(f))
}

/// What `f` unpacks to when it starts with the count of zero words after a zero word.
pub open spec fn null_count_rest(f: Seq<u8>) -> Option<Seq<u8>> {
    if f.len() == 0 {
        None
    } else {
        nulls_rest(f[0] as nat, f.skip(1))
    }
}

/// What `f` unpacks to when it completes the uncompressed word that starts with `p`, which is
/// followed by `r` more uncompressed words.
pub open spec fn partial_raw_rest(p: Seq<u8>, r: nat, f: Seq<u8>) -> Option<Seq<u8>> {
    let need = 8 - p.len();
    if f.len() < need {
        None
    } else {
        prepend(p + f.take(need), raw_rest(r, f.skip(need)))
    }
}

/// Unpacking a packed stream that starts with a tag.
pub proof fn lemma_unpack_unfold(b: Seq<u8>)
    requires
        b.len() > 0,
    ensures
        b[0] == 0 ==> unpack_spec(b) == prepend(zero_bytes(8), null_count_rest(b.skip(1))),
        b[0] == 0xff ==> unpack_spec(b) == ff_rest(b.skip(1)),
        b[0] != 0 && b[0] != 0xff ==> unpack_spec(b) == tagged_rest(
            Seq::empty(),
            b[0],
            0,
            b.skip(1),
        ),
{
    let r = b.skip(1);
    if b[0] == 0 {
        if b.len() >= 2 {
            assert(r.skip(1) =~= b.skip(2));
            assert(r[0] == b[1]);
            let n = b[1] as nat;
            assert(zero_bytes((8 * (1 + b[1])) as nat) =~= zero_bytes(8) + zero_bytes(8 * n));
            match unpack_spec(b.skip(2)) {
                Some(o) => {
                    assert(zero_bytes((8 * (1 + b[1])) as nat) + o =~= zero_bytes(8) + (
                    zero_bytes(8 * n) + o));
                },
                None => {},
            }
        }
    } else if b[0] == 0xff {
        if b.len() >= 10 {
            let n = b[9] as int;
            assert(r.skip(8)[0] == b[9]);
            assert(r.skip(8).skip(1) =~= b.skip(10));
            assert(r.take(8) =~= b.subrange(1, 9));
            if b.len() >= 10 + 8 * n {
                assert(b.skip(10).skip(8 * n) =~= b.skip(10 + 8 * n));
                assert(b.skip(10).take(8 * n) =~= b.subrange(10, 10 + 8 * n));
                match unpack_spec(b.skip(10 + 8 * n)) {
                    Some(o) => {
                        assert(b.subrange(1, 9) + b.subrange(10, 10 + 8 * n) + o =~= b.subrange(
                            1,
                            9,
                        ) + (b.subrange(10, 10 + 8 * n) + o));
                    },
                    None => {},
                }
            }
        }
    } else {
        let k = tag_count(b[0], 0) as int;
        if b.len() >= 1 + k {
            assert(r.take(k) =~= b.subrange(1, 1 + k));
            assert(r.skip(k) =~= b.skip(1 + k));
            assert(Seq::<u8>::empty().take(0) =~= Seq::<u8>::empty());
            assert(Seq::<u8>::empty().take(0) + decode_tagged(b[0], 0, r.take(k)) =~= decode_tagged(
                b[0],
                0,
                r.take(k),
            ));
        }
    }
}

/// A set bit before position `i` of a tag is counted at position `i` or later only when
/// the bit is at `i`.
pub proof fn lemma_tag_count_step(t: u8, i: int)
    requires
        0 <= i < 8,
    ensures
        tag_count(t, i) == (if bit_at(t, i) { 1nat } else { 0nat }) + tag_count(t, i + 1),
{
}

/// Decoding one more position of a tagged word.
pub proof fn lemma_tagged_step(buf: Seq<u8>, t: u8, i: int, h: Seq<u8>)
    requires
        0 <= i < 8,
        buf.len() == 8,
        bit_at(t, i) ==> h.len() > 0,
        !bit_at(t, i) ==> buf[i] == 0,
    ensures
        bit_at(t, i) ==> tagged_rest(buf, t, i, h) == tagged_rest(
            buf.update(i, h[0]),
            t,
            i + 1,
            h.skip(1),
        ),
        !bit_at(t, i) ==> tagged_rest(buf, t, i, h) == tagged_rest(buf, t, i + 1, h),
{
    let k = tag_count(t, i) as int;
    lemma_tag_count_step(t, i);
    if bit_at(t, i) {
        let b2 = buf.update(i, h[0]);
        assert(b2.take(i + 1) =~= buf.take(i) + seq![h[0]]);
        if h.len() >= k {
            assert(h.take(k).drop_first() =~= h.skip(1).take(k - 1));
            assert(h.take(k)[0] == h[0]);
            assert(h.skip(1).skip(k - 1) =~= h.skip(k));
            let d = decode_tagged(t, i + 1, h.skip(1).take(k - 1));
            assert(decode_tagged(t, i, h.take(k)) == seq![h[0]] + d);
            assert(buf.take(i) + (seq![h[0]] + d) =~= b2.take(i + 1) + d);
        }
    } else {
        assert(buf.take(i + 1) =~= buf.take(i) + seq![0u8]);
        if h.len() >= k {
            let d = decode_tagged(t, i + 1, h.take(k));
            assert(decode_tagged(t, i, h.take(k)) == seq![0u8] + d);
            assert(buf.take(i) + (seq![0u8] + d) =~= buf.take(i + 1) + d);
        }
    }
}

/// A tagged word decoded up to its end is the word.
pub proof fn lemma_tagged_done(buf: Seq<u8>, t: u8, f: Seq<u8>)
    requires
        buf.len() == 8,
    ensures
        tagged_rest(buf, t, 8, f) == prepend(buf, unpack_spec(f)),
{
    assert(f.take(0) =~= Seq::<u8>::empty());
    assert(f.skip(0) =~= f);
    assert(buf.take(8) + decode_tagged(t, 8, f.take(0)) =~= buf);
}

/// A set bit of a tag counts.
proof fn lemma_tag_count_set(t: u8, i: int)
    requires
        0 <= i < 8,
        bit_at(t, i),
    ensures
        tag_count(t, i) >= 1,
{
}

/// A tagged word read whole from a fresh buffer: what follows it unpacks after its bytes.
proof fn lemma_tag_word_done(tag: u8, x: Seq<u8>, buf: Seq<u8>)
    requires
        buf.len() == 8,
        forall|f: Seq<u8>|
            #![trigger tagged_rest(buf, tag, 8, f)]
            tagged_rest([0u8; 8]@, tag, 0, x + f) == tagged_rest(buf, tag, 8, f),
    ensures
        forall|f: Seq<u8>| #![trigger unpack_spec(f)]
            tagged_rest(Seq::empty(), tag, 0, x + f) == prepend(buf, unpack_spec(f)),
{
    assert forall|f: Seq<u8>| #![trigger unpack_spec(f)]
        tagged_rest(Seq::empty(), tag, 0, x + f) == prepend(buf, unpack_spec(f)) by {
        lemma_tagged_done(buf, tag, f);
        assert(tagged_rest([0u8; 8]@, tag, 0, x + f) == tagged_rest(buf, tag, 8, f));
        assert(Seq::<u8>::empty().take(0) =~= [0u8; 8]@.take(0));
    }
}

/// Raw words taken a few at a time.
pub proof fn lemma_raw_split(count: nat, m: nat, x: Seq<u8>, f: Seq<u8>)
    requires
        m <= count,
        x.len() == 8 * m,
    ensures
        raw_rest(count, x + f) == prepend(x, raw_rest((count - m) as nat, f)),
{
    let g = x + f;
    let r = (count - m) as nat;
    if g.len() >= 8 * count {
        assert(g.take(8 * count as int) =~= x + f.take(8 * r as int));
        assert(g.skip(8 * count as int) =~= f.skip(8 * r as int));
        match unpack_spec(f.skip(8 * r as int)) {
            Some(o) => {
                assert(x + f.take(8 * r as int) + o =~= x + (f.take(8 * r as int) + o));
            },
            None => {},
        }
    }
}

/// Raw words when the input ends in the middle of one.
pub proof fn lemma_raw_partial(count: nat, m: nat, x: Seq<u8>, p: Seq<u8>, f: Seq<u8>)
    requires
        m < count,
        x.len() == 8 * m,
        0 < p.len() < 8,
    ensures
        raw_rest(count, x + p + f) == prepend(x, partial_raw_rest(p, (count - m - 1) as nat, f)),
{
    lemma_raw_split(count, m, x, p + f);
    assert(x + p + f =~= x + (p + f));
    let r = (count - m) as nat;
    let g = p + f;
    let need = 8 - p.len();
    if g.len() >= 8 * r {
        lemma_raw_split(r, 1, p + f.take(need), f.skip(need));
        assert(p + f.take(need) + f.skip(need) =~= g);
        match raw_rest((r - 1) as nat, f.skip(need)) {
            Some(o) => {
                assert(p + f.take(need) + o =~= p + (f.take(need) + o));
            },
            None => {},
        }
    } else {
        if f.len() >= need {
            assert(f.skip(need).len() < 8 * (r - 1));
        }
    }
}

/// Zero words written a few at a time.
pub proof fn lemma_nulls_split(n: nat, k: nat, f: Seq<u8>)
    requires
        k <= n,
    ensures
        nulls_rest(n, f) == prepend(zero_bytes(8 * k), nulls_rest((n - k) as nat, f)),
{
    assert(zero_bytes(8 * n) =~= zero_bytes(8 * k) + zero_bytes(8 * (n - k) as nat));
    match unpack_spec(f) {
        Some(o) => {
            assert(zero_bytes(8 * n) + o =~= zero_bytes(8 * k) + (zero_bytes(8 * (n - k) as nat)
                + o));
        },
        None => {},
    }
}

} // verus!

verus! {

/// Makes a word of the eight bytes of `src` at `at`.
fn word_at(src: &[u8], at: usize) -> (w: Word)
    requires
        at + 8 <= src@.len(),
    ensures
        w.0@ == src@.subrange(at as int, at + 8),
{
    let w = Word([src[at], src[at + 1], src[at + 2], src[at + 3], src[at + 4], src[at + 5], src[at + 6], src[at + 7]]);
    assert(w.0@ =~= src@.subrange(at as int, at + 8));
    w
}

} // verus!

verus! {

/// The result of calling [`Unpacker::unpack`].
#[derive(Debug)]
pub struct UnpackResult {
    /// The number of bytes read from the input. This may be less than the
    /// length of the input slice.
    pub bytes_read: usize,
    /// The number of words written to the output. This may be less than the
    /// length of the output slice.
    pub words_written: usize,
    /// The reason we stopped unpacking.
    pub reason: StopReason,
}

/// The reason the unpacker stopped unpacking.
#[derive(Clone, Copy, Debug, PartialEq, Eq)]
pub enum StopReason {
    /// The unpacker needs more input.
    NeedInput,
    /// The unpacker needs more output to write to.
    NeedOutput,
}

/// The error returned when an unpacker is finished while in the middle of an item.
#[derive(Debug)]
pub struct IncompleteError {
    /// The number of bytes needed to finish unpacking.
    ///
    /// This value can be 0 in the case that the unpacker had remaining null words to write.
    pub bytes_needed: usize,
}

impl IncompleteError {
    /// The description of the error: more bytes are needed, or null words remain unwritten.
    pub open spec fn spec_message(&self) -> Seq<char> {
        if self.bytes_needed != 0 {
            "incomplete packed input, more bytes are required to unpack"@
        } else {
            "unfinished packed input, more data remaining in unpacker"@
        }
    }

    /// The message describing this error.
    pub fn message(&self) -> (s: &'static str)
        ensures
            s@ == self.spec_message(),
    {
        if self.bytes_needed != 0 {
            "incomplete packed input, more bytes are required to unpack"
        } else {
            "unfinished packed input, more data remaining in unpacker"
        }
    }
}

/// An uncompressed word of which only the first bytes were read.
#[derive(Clone, Copy, Debug)]
pub struct PartialWord {
    buf: [u8; 8],
    written: usize,
}

impl PartialWord {
    /// The bytes read so far.
    pub closed spec fn spec_bytes(&self) -> Seq<u8> {
        self.buf@.take(self.written as int)
    }

    /// At most seven bytes were read.
    pub closed spec fn wf(&self) -> bool {
        self.written < 8
    }

    /// The number of bytes still needed to complete the word.
    pub fn needed_bytes(&self) -> (r: usize)
        requires
            self.wf(),
        ensures
            r == 8 - self.spec_bytes().len(),
    {
        8 - self.written
    }

    /// Starts a word with the bytes of `src` from `si` on, which are fewer than eight.
    pub fn start(src: &[u8], si: usize) -> (r: Self)
        requires
            si <= src@.len() < si + 8,
        ensures
            r.wf(),
            r.spec_bytes() == src@.skip(si as int),
    {
        let mut buf = [0u8; 8];
        let src_len = src.len();
        let n = src_len - si;
        let mut k: usize = 0;
        while k < n
            invariant
                src_len == src@.len(),
                n == src@.len() - si,
                n < 8,
                k <= n,
                buf@.len() == 8,
                buf@.take(k as int) == src@.subrange(si as int, si + k),
            decreases n - k,
        {
            buf[k] = src[si + k];
            k = k + 1;
            assert(buf@.take(k as int) =~= src@.subrange(si as int, si + k));
        }
        assert(src@.skip(si as int) =~= src@.subrange(si as int, si + n));
        PartialWord { buf, written: n }
    }

    /// Completes the word with the bytes of `src` from `si` on and writes it to `dst` at `di`,
    /// returning the new positions in `src` and `dst`; or, when `src` holds too few bytes,
    /// takes them all and returns the still partial word.
    pub fn finish(self, src: &[u8], si: usize, dst: &mut [Word], di: usize) -> (r: Result<
        (usize, usize),
        PartialWord,
    >)
        requires
            self.wf(),
            si <= src@.len(),
            di <= old(dst)@.len(),
            src@.len() - si >= 8 - self.spec_bytes().len() ==> di < old(dst)@.len(),
        ensures
            final(dst)@.len() == old(dst)@.len(),
            match r {
                Ok((si2, di2)) => {
                    &&& si2 == si + (8 - self.spec_bytes().len())
                    &&& si2 <= src@.len()
                    &&& di2 == di + 1
                    &&& final(dst)@ == old(dst)@.update(di as int, final(dst)@[di as int])
                    &&& final(dst)@[di as int].0@ == self.spec_bytes() + src@.subrange(
                        si as int,
                        si2 as int,
                    )
                },
                Err(p) => {
                    &&& src@.len() - si < 8 - self.spec_bytes().len()
                    &&& p.wf()
                    &&& p.spec_bytes() == self.spec_bytes() + src@.skip(si as int)
                    &&& final(dst)@ == old(dst)@
                },
            },
    {
        let mut buf = self.buf;
        let needed = 8 - self.written;
        let avail = src.len() - si;
        let n = if needed <= avail {
            needed
        } else {
            avail
        };
        let src_len = src.len();
        let mut k: usize = 0;
        while k < n
            invariant
                src_len == src@.len(),
                n <= needed,
                needed == 8 - self.written,
                self.written < 8,
                si + n <= src@.len(),
                k <= n,
                buf@.len() == 8,
                buf@.take(self.written + k) == self.buf@.take(self.written as int)
                    + src@.subrange(si as int, si + k),
            decreases n - k,
        {
            let ghost b0 = buf@;
            buf[self.written + k] = src[si + k];
            assert(buf@.take(self.written + k) =~= b0.take(self.written + k));
            k = k + 1;
            assert(buf@.take(self.written + k) =~= self.buf@.take(self.written as int)
                + src@.subrange(si as int, si + k));
        }
        if needed <= avail {
            dst[di] = Word(buf);
            assert(buf@ =~= buf@.take(8));
            assert(dst@ =~= old(dst)@.update(di as int, dst@[di as int]));
            Ok((si + needed, di + 1))
        } else {
            assert(src@.skip(si as int) =~= src@.subrange(si as int, si + n));
            Err(PartialWord { buf, written: self.written + n })
        }
    }
}

/// A tagged word of which only the bytes before position `pos` were read.
#[derive(Clone, Copy, Debug)]
pub struct PartialTaggedWord {
    buf: [u8; 8],
    tag: u8,
    pos: usize,
}

/// Decodes the positions from `pos` on of a tagged word with the bytes of `src` from `si` on,
/// stopping at the end of the word or at a set bit when `src` has no more bytes.
fn decode_tagged_into(buf0: [u8; 8], tag: u8, pos: usize, src: &[u8], si: usize) -> (r: (
    [u8; 8],
    usize,
    usize,
))
    requires
        pos <= 8,
        si <= src@.len(),
        forall|j: int| pos <= j < 8 ==> #[trigger] buf0@[j] == 0,
    ensures
        pos <= r.1 <= 8,
        si <= r.2 <= src@.len(),
        forall|j: int| r.1 <= j < 8 ==> #[trigger] r.0@[j] == 0,
        r.1 < 8 ==> bit_at(tag, r.1 as int) && r.2 == src@.len(),
        forall|f: Seq<u8>|
            #![trigger tagged_rest(r.0@, tag, r.1 as int, f)]
            tagged_rest(buf0@, tag, pos as int, src@.subrange(si as int, r.2 as int) + f)
                == tagged_rest(r.0@, tag, r.1 as int, f),
        tag_count(tag, pos as int) == (r.2 - si) + tag_count(tag, r.1 as int),
{
    let mut buf = buf0;
    assert(src@.subrange(si as int, si as int) =~= Seq::<u8>::empty());
    assert forall|f: Seq<u8>| #![trigger tagged_rest(buf@, tag, pos as int, f)] tagged_rest(buf0@, tag, pos as int, src@.subrange(si as int, si as int) + f) == tagged_rest(buf@, tag, pos as int, f) by {
        assert(src@.subrange(si as int, si as int) + f =~= f);
    }
    let mut p = pos;
    let mut s = si;
    while p < 8
        invariant_except_break
            pos <= p <= 8,
            si <= s <= src@.len(),
            buf@.len() == 8,
            forall|j: int| p <= j < 8 ==> #[trigger] buf@[j] == 0,
            forall|f: Seq<u8>|
                #![trigger tagged_rest(buf@, tag, p as int, f)]
                tagged_rest(buf0@, tag, pos as int, src@.subrange(si as int, s as int) + f)
                    == tagged_rest(buf@, tag, p as int, f),
            tag_count(tag, pos as int) == (s - si) + tag_count(tag, p as int),
        ensures
            pos <= p <= 8,
            si <= s <= src@.len(),
            forall|j: int| p <= j < 8 ==> #[trigger] buf@[j] == 0,
            p < 8 ==> bit_at(tag, p as int) && s == src@.len(),
            forall|f: Seq<u8>|
                #![trigger tagged_rest(buf@, tag, p as int, f)]
                tagged_rest(buf0@, tag, pos as int, src@.subrange(si as int, s as int) + f)
                    == tagged_rest(buf@, tag, p as int, f),
            tag_count(tag, pos as int) == (s - si) + tag_count(tag, p as int),
        decreases 8 - p,
    {
        let ghost b0 = buf@;
        let ghost s0 = s;
        proof {
            lemma_tag_count_step(tag, p as int);
        }
        if (tag >> (p as u8)) & 1u8 == 1u8 {
            if s == src.len() {
                break ;
            }
            buf[p] = src[s];
            s = s + 1;
            assert forall|f: Seq<u8>|
                #![trigger tagged_rest(buf@, tag, (p + 1) as int, f)]
                tagged_rest(buf0@, tag, pos as int, src@.subrange(si as int, s as int) + f)
                    == tagged_rest(buf@, tag, (p + 1) as int, f) by {
                let h = src@.subrange(s0 as int, s as int) + f;
                assert(src@.subrange(si as int, s as int) + f =~= src@.subrange(
                    si as int,
                    s0 as int,
                ) + h);
                lemma_tagged_step(b0, tag, p as int, h);
                assert(h[0] == src@[s0 as int]);
                assert(h.skip(1) =~= f);
                assert(b0.update(p as int, h[0]) =~= buf@);
            }
        } else {
            assert forall|f: Seq<u8>|
                #![trigger tagged_rest(buf@, tag, (p + 1) as int, f)]
                tagged_rest(buf0@, tag, pos as int, src@.subrange(si as int, s as int) + f)
                    == tagged_rest(buf@, tag, (p + 1) as int, f) by {
                lemma_tagged_step(b0, tag, p as int, f);
            }
        }
        p = p + 1;
    }
    (buf, p, s)
}

} // verus!

verus! {

/// Counts the set bits of a tag in positions `pos..8`.
fn count_tag_bits(tag: u8, pos: usize) -> (r: usize)
    requires
        pos <= 8,
    ensures
        r == tag_count(tag, pos as int),
        r <= 8,
{
    let mut count: usize = 0;
    let mut p: usize = pos;
    while p < 8
        invariant
            pos <= p <= 8,
            count <= p - pos,
            tag_count(tag, pos as int) == count + tag_count(tag, p as int),
        decreases 8 - p,
    {
        proof {
            lemma_tag_count_step(tag, p as int);
        }
        if (tag >> (p as u8)) & 1u8 == 1u8 {
            count = count + 1;
        }
        p = p + 1;
    }
    count
}

impl PartialTaggedWord {
    /// The bytes decoded so far, with zeros from the position of the next byte on.
    pub closed spec fn spec_buf(&self) -> Seq<u8> {
        self.buf@
    }

    /// The tag of the word.
    pub closed spec fn spec_tag(&self) -> u8 {
        self.tag
    }

    /// The position of the next byte to decode.
    pub closed spec fn spec_pos(&self) -> int {
        self.pos as int
    }

    /// The word is not complete, and its bytes from the next position on are zero.
    pub closed spec fn wf(&self) -> bool {
        &&& self.pos < 8
        &&& forall|j: int| self.pos <= j < 8 ==> #[trigger] self.buf@[j] == 0
    }

    /// The number of packed bytes still needed to complete the word.
    pub fn needed_bytes(&self) -> (r: usize)
        requires
            self.wf(),
        ensures
            r == tag_count(self.spec_tag(), self.spec_pos()),
    {
        count_tag_bits(self.tag, self.pos)
    }

    /// Starts a word of the given tag with the bytes of `src` from `si` on, which are fewer
    /// than the tag needs. All of them are taken.
    pub fn start(tag: u8, src: &[u8], si: usize) -> (r: Self)
        requires
            si <= src@.len(),
            src@.len() - si < tag_count(tag, 0),
        ensures
            r.wf(),
            r.spec_tag() == tag,
            forall|f: Seq<u8>|
                #![trigger tagged_rest(r.spec_buf(), tag, r.spec_pos(), f)]
                tagged_rest(Seq::empty(), tag, 0, src@.skip(si as int) + f) == tagged_rest(
                    r.spec_buf(),
                    tag,
                    r.spec_pos(),
                    f,
                ),
    {
        let buf = [0u8; 8];
        let (buf, pos, s) = decode_tagged_into(buf, tag, 0, src, si);
        assert(src@.subrange(si as int, s as int) =~= src@.skip(si as int));
        assert forall|f: Seq<u8>|
            #![trigger tagged_rest(buf@, tag, pos as int, f)]
            tagged_rest(Seq::empty(), tag, 0, src@.skip(si as int) + f) == tagged_rest(
                buf@,
                tag,
                pos as int,
                f,
            ) by {
            assert(Seq::<u8>::empty().take(0) =~= [0u8; 8]@.take(0));
        }
        PartialTaggedWord { buf, tag, pos }
    }

    /// Completes the word with the bytes of `src` from `si` on and writes it to `dst` at `di`,
    /// returning the new positions; or, when `src` holds too few bytes, takes them all and
    /// returns the still partial word.
    pub fn finish(self, src: &[u8], si: usize, dst: &mut [Word], di: usize) -> (r: Result<
        (usize, usize),
        PartialTaggedWord,
    >)
        requires
            self.wf(),
            si <= src@.len(),
            di <= old(dst)@.len(),
            src@.len() - si >= tag_count(self.spec_tag(), self.spec_pos()) ==> di < old(
                dst,
            )@.len(),
        ensures
            final(dst)@.len() == old(dst)@.len(),
            r is Ok <==> src@.len() - si >= tag_count(self.spec_tag(), self.spec_pos()),
            match r {
                Ok((si2, di2)) => {
                    &&& si <= si2 <= src@.len()
                    &&& si2 == si + tag_count(self.spec_tag(), self.spec_pos())
                    &&& di2 == di + 1
                    &&& final(dst)@ == old(dst)@.update(di as int, final(dst)@[di as int])
                    &&& forall|f: Seq<u8>|
                        #![trigger unpack_spec(f)]
                        tagged_rest(
                            self.spec_buf(),
                            self.spec_tag(),
                            self.spec_pos(),
                            src@.subrange(si as int, si2 as int) + f,
                        ) == prepend(final(dst)@[di as int].0@, unpack_spec(f))
                },
                Err(p) => {
                    &&& p.wf()
                    &&& p.spec_tag() == self.spec_tag()
                    &&& tag_count(p.spec_tag(), p.spec_pos()) + (src@.len() - si) == tag_count(self.spec_tag(), self.spec_pos())
                    &&& final(dst)@ == old(dst)@
                    &&& forall|f: Seq<u8>|
                        #![trigger tagged_rest(p.spec_buf(), p.spec_tag(), p.spec_pos(), f)]
                        tagged_rest(
                            self.spec_buf(),
                            self.spec_tag(),
                            self.spec_pos(),
                            src@.skip(si as int) + f,
                        ) == tagged_rest(p.spec_buf(), p.spec_tag(), p.spec_pos(), f)
                },
            },
    {
        let (buf, pos, s) = decode_tagged_into(self.buf, self.tag, self.pos, src, si);
        if pos == 8 {
            dst[di] = Word(buf);
            assert(dst@ =~= old(dst)@.update(di as int, dst@[di as int]));
            assert forall|f: Seq<u8>| #![trigger unpack_spec(f)]
                tagged_rest(self.buf@, self.tag, self.pos as int, src@.subrange(si as int, s as int) + f)
                    == prepend(dst@[di as int].0@, unpack_spec(f)) by {
                lemma_tagged_done(buf@, self.tag, f);
            }
            Ok((s, di + 1))
        } else {
            assert(src@.subrange(si as int, s as int) =~= src@.skip(si as int));
            assert(tag_count(self.tag, pos as int) >= 1);
            Err(PartialTaggedWord { buf, tag: self.tag, pos })
        }
    }
}

/// Where an unpacker stopped in the middle of an item.
#[derive(Clone, Copy, Debug)]
enum IncompleteState {
    /// The unpacker is reading a tagged word.
    PartialWord(PartialTaggedWord),
    /// The unpacker is reading an all-nonzero word. This transitions into a
    /// `NeedUncompressedCount` after finishing the word.
    PartialUncompressed(PartialWord),
    /// The unpacker is expecting one byte for a null word count
    NeedNullCount,
    /// The unpacker is expecting one byte for an uncompressed word count
    NeedUncompressedCount,
    /// The unpacker is writing null words to the output
    WritingNulls(usize),
    /// The unpacker is writing uncompressed words to the output
    WritingUncompressed { remaining: usize, partial: Option<PartialWord> },
}

/// What the bytes `f` unpack to from a state of an unpacker.
spec fn state_pending(s: Option<IncompleteState>, f: Seq<u8>) -> Option<Seq<u8>> {
    match s {
        None => unpack_spec(f),
        Some(IncompleteState::PartialWord(p)) => tagged_rest(
            p.spec_buf(),
            p.spec_tag(),
            p.spec_pos(),
            f,
        ),
        Some(IncompleteState::PartialUncompressed(p)) => ff_rest(p.spec_bytes() + f),
        Some(IncompleteState::NeedNullCount) => null_count_rest(f),
        Some(IncompleteState::NeedUncompressedCount) => count_rest(f),
        Some(IncompleteState::WritingNulls(n)) => nulls_rest(n as nat, f),
        Some(IncompleteState::WritingUncompressed { remaining, partial: None }) => raw_rest(
            remaining as nat,
            f,
        ),
        Some(IncompleteState::WritingUncompressed { remaining, partial: Some(p) }) => {
            partial_raw_rest(p.spec_bytes(), remaining as nat, f)
        },
    }
}

/// An unpacker in this state cannot give words without more input: it is idle, or in the
/// middle of an item whose bytes have not all come.
#[verifier::opaque]
spec fn state_starved(s: Option<IncompleteState>) -> bool {
    s is None || state_pending(s, Seq::empty()) is None
}

/// An idle unpacker, or one whose pending item needs more bytes, is starved.
proof fn lemma_starved(s: Option<IncompleteState>)
    requires
        s is None || state_pending(s, Seq::empty()) is None,
    ensures
        state_starved(s),
{
    reveal(state_starved);
}

/// What a starved state is.
proof fn lemma_starved_means(s: Option<IncompleteState>)
    requires
        state_starved(s),
    ensures
        s is None || state_pending(s, Seq::empty()) is None,
{
    reveal(state_starved);
}

/// Whether an unpacker in this state has words to give before it needs more input.
spec fn owes_output(s: Option<IncompleteState>) -> bool {
    match s {
        Some(IncompleteState::WritingNulls(n)) => n > 0,
        Some(IncompleteState::WritingUncompressed { remaining, partial }) => remaining > 0 || partial is Some,
        _ => false,
    }
}

/// A state that owes words gives some, whatever input follows.
proof fn lemma_owes_output(s: Option<IncompleteState>, f: Seq<u8>)
    requires
        owes_output(s),
    ensures
        state_pending(s, f) matches Some(o) ==> o.len() > 0,
{
    match s {
        Some(IncompleteState::WritingNulls(n)) => {
            assert(zero_bytes((8 * n) as nat).len() > 0);
        },
        Some(IncompleteState::WritingUncompressed { remaining, partial }) => {
            match partial {
                Some(p) => {},
                None => {
                    assert(f.take(8 * remaining as int).len() > 0 || f.len() < 8 * remaining);
                },
            }
        },
        _ => {},
    }
}

/// An idle unpacker given some input gives some words, if any.
proof fn lemma_idle_gives(b: Seq<u8>)
    requires
        b.len() > 0,
    ensures
        unpack_spec(b) matches Some(o) ==> o.len() > 0,
{
    if b[0] == 0 {
        assert(zero_bytes((8 * (1 + b[1])) as nat).len() > 0);
    } else if b[0] == 0xff {
    } else {
        let k = tag_count(b[0], 0) as int;
        assert(decode_tagged(b[0], 0, b.subrange(1, 1 + k)).len() > 0);
    }
}

/// A state that owes words gives some after the input `rest`, whatever follows it.
proof fn lemma_owes_rest(s: Option<IncompleteState>, rest: Seq<u8>)
    requires
        owes_output(s),
    ensures
        forall|f: Seq<u8>| (#[trigger] state_pending(s, rest + f) matches Some(o) ==> o.len() > 0),
{
    assert forall|f: Seq<u8>| (#[trigger] state_pending(s, rest + f) matches Some(o) ==> o.len() > 0) by {
        lemma_owes_output(s, rest + f);
    }
}

/// An idle unpacker given the input `rest`, which is not empty, gives some words whatever
/// follows it.
proof fn lemma_idle_rest(rest: Seq<u8>)
    requires
        rest.len() > 0,
    ensures
        forall|f: Seq<u8>| (#[trigger] state_pending(None, rest + f) matches Some(o) ==> o.len() > 0),
{
    assert forall|f: Seq<u8>| (#[trigger] state_pending(None, rest + f) matches Some(o) ==> o.len() > 0) by {
        lemma_idle_gives(rest + f);
    }
}

/// A state of an unpacker is consistent.
spec fn state_wf(s: Option<IncompleteState>) -> bool {
    match s {
        None => true,
        Some(IncompleteState::PartialWord(p)) => p.wf(),
        Some(IncompleteState::PartialUncompressed(p)) => p.wf(),
        Some(IncompleteState::WritingNulls(n)) => n <= 255,
        Some(IncompleteState::WritingUncompressed { remaining, partial }) => {
            &&& remaining <= 255
            &&& partial matches Some(p) ==> p.wf() && p.spec_bytes().len() > 0
        },
        _ => true,
    }
}

/// A state that holds a partially read word, which needs an output word to complete.
spec fn state_has_partial(s: Option<IncompleteState>) -> bool {
    match s {
        Some(IncompleteState::PartialWord(_)) => true,
        Some(IncompleteState::PartialUncompressed(_)) => true,
        Some(IncompleteState::WritingUncompressed { partial: Some(_), .. }) => true,
        _ => false,
    }
}

/// From state `a`, the bytes `x` unpack to `y` and leave state `b`.
spec fn step(a: Option<IncompleteState>, b: Option<IncompleteState>, x: Seq<u8>, y: Seq<u8>) -> bool {
    forall|f: Seq<u8>|
        #![trigger state_pending(b, f)]
        state_pending(a, x + f) == prepend(y, state_pending(b, f))
}

proof fn lemma_step_refl(a: Option<IncompleteState>)
    ensures
        step(a, a, Seq::empty(), Seq::empty()),
{
    assert forall|f: Seq<u8>| #![trigger state_pending(a, f)]
        state_pending(a, Seq::<u8>::empty() + f) == prepend(Seq::empty(), state_pending(a, f)) by {
        assert(Seq::<u8>::empty() + f =~= f);
        match state_pending(a, f) {
            Some(o) => {
                assert(Seq::<u8>::empty() + o =~= o);
            },
            None => {},
        }
    }
}

#[verifier::rlimit(40)]
proof fn lemma_step_trans(
    a: Option<IncompleteState>,
    b: Option<IncompleteState>,
    c: Option<IncompleteState>,
    x1: Seq<u8>,
    y1: Seq<u8>,
    x2: Seq<u8>,
    y2: Seq<u8>,
)
    requires
        step(a, b, x1, y1),
        step(b, c, x2, y2),
    ensures
        step(a, c, x1 + x2, y1 + y2),
{
    assert forall|f: Seq<u8>| #![trigger state_pending(c, f)]
        state_pending(a, (x1 + x2) + f) == prepend(y1 + y2, state_pending(c, f)) by {
        assert((x1 + x2) + f =~= x1 + (x2 + f));
        assert(state_pending(a, x1 + (x2 + f)) == prepend(y1, state_pending(b, x2 + f)));
        match state_pending(c, f) {
            Some(o) => {
                assert(y1 + (y2 + o) =~= (y1 + y2) + o);
            },
            None => {},
        }
    }
}

} // verus!

verus! {

proof fn lemma_prepend_empty(o: Option<Seq<u8>>)
    ensures
        prepend(Seq::empty(), o) == o,
{
    match o {
        Some(x) => {
            assert(Seq::<u8>::empty() + x =~= x);
        },
        None => {},
    }
}

proof fn lemma_step_null_tag()
    ensures
        step(None, Some(IncompleteState::NeedNullCount), seq![0u8], zero_bytes(8)),
{
    assert forall|f: Seq<u8>|
        #![trigger state_pending(Some(IncompleteState::NeedNullCount), f)]
        state_pending(None, seq![0u8] + f) == prepend(
            zero_bytes(8),
            state_pending(Some(IncompleteState::NeedNullCount), f),
        ) by {
        lemma_unpack_unfold(seq![0u8] + f);
        assert((seq![0u8] + f).skip(1) =~= f);
    }
}

proof fn lemma_step_null_count(n: u8)
    ensures
        step(
            Some(IncompleteState::NeedNullCount),
            Some(IncompleteState::WritingNulls(n as usize)),
            seq![n],
            Seq::empty(),
        ),
{
    assert forall|f: Seq<u8>|
        #![trigger state_pending(Some(IncompleteState::WritingNulls(n as usize)), f)]
        state_pending(Some(IncompleteState::NeedNullCount), seq![n] + f) == prepend(
            Seq::empty(),
            state_pending(Some(IncompleteState::WritingNulls(n as usize)), f),
        ) by {
        assert((seq![n] + f).skip(1) =~= f);
        lemma_prepend_empty(state_pending(Some(IncompleteState::WritingNulls(n as usize)), f));
    }
}

proof fn lemma_step_nulls(n: usize, k: usize)
    requires
        k <= n,
    ensures
        k == n ==> step(Some(IncompleteState::WritingNulls(n)), None, Seq::empty(), zero_bytes(8 * k as nat)),
        k < n ==> step(
            Some(IncompleteState::WritingNulls(n)),
            Some(IncompleteState::WritingNulls((n - k) as usize)),
            Seq::empty(),
            zero_bytes(8 * k as nat),
        ),
{
    let a = Some(IncompleteState::WritingNulls(n));
    let b = if k == n {
        None
    } else {
        Some(IncompleteState::WritingNulls((n - k) as usize))
    };
    assert forall|f: Seq<u8>| #![trigger state_pending(b, f)]
        state_pending(a, Seq::empty() + f) == prepend(zero_bytes(8 * k as nat), state_pending(b, f)) by {
        assert(Seq::<u8>::empty() + f =~= f);
        lemma_nulls_split(n as nat, k as nat, f);
        if k == n {
            assert(zero_bytes(0) =~= Seq::<u8>::empty());
            lemma_prepend_empty(unpack_spec(f));
        }
    }
}

proof fn lemma_step_ff_short(x: Seq<u8>, p: PartialWord)
    requires
        p.spec_bytes() == x,
    ensures
        step(None, Some(IncompleteState::PartialUncompressed(p)), seq![0xffu8] + x, Seq::empty()),
{
    let b = Some(IncompleteState::PartialUncompressed(p));
    assert forall|f: Seq<u8>| #![trigger state_pending(b, f)]
        state_pending(None, (seq![0xffu8] + x) + f) == prepend(Seq::empty(), state_pending(b, f)) by {
        lemma_unpack_unfold((seq![0xffu8] + x) + f);
        assert(((seq![0xffu8] + x) + f).skip(1) =~= x + f);
        lemma_prepend_empty(state_pending(b, f));
    }
}

proof fn lemma_step_ff_word(w: Seq<u8>)
    requires
        w.len() == 8,
    ensures
        step(None, Some(IncompleteState::NeedUncompressedCount), seq![0xffu8] + w, w),
{
    let b = Some(IncompleteState::NeedUncompressedCount);
    assert forall|f: Seq<u8>| #![trigger state_pending(b, f)]
        state_pending(None, (seq![0xffu8] + w) + f) == prepend(w, state_pending(b, f)) by {
        lemma_unpack_unfold((seq![0xffu8] + w) + f);
        let g = ((seq![0xffu8] + w) + f).skip(1);
        assert(g =~= w + f);
        assert(g.take(8) =~= w);
        assert(g.skip(8) =~= f);
    }
}

proof fn lemma_step_pu_word(p: PartialWord, y: Seq<u8>)
    requires
        p.spec_bytes().len() + y.len() == 8,
    ensures
        step(
            Some(IncompleteState::PartialUncompressed(p)),
            Some(IncompleteState::NeedUncompressedCount),
            y,
            p.spec_bytes() + y,
        ),
{
    let a = Some(IncompleteState::PartialUncompressed(p));
    let b = Some(IncompleteState::NeedUncompressedCount);
    assert forall|f: Seq<u8>| #![trigger state_pending(b, f)]
        state_pending(a, y + f) == prepend(p.spec_bytes() + y, state_pending(b, f)) by {
        let g = p.spec_bytes() + (y + f);
        assert(g.take(8) =~= p.spec_bytes() + y);
        assert(g.skip(8) =~= f);
    }
}

proof fn lemma_step_pu_more(p: PartialWord, q: PartialWord, y: Seq<u8>)
    requires
        q.spec_bytes() == p.spec_bytes() + y,
    ensures
        step(
            Some(IncompleteState::PartialUncompressed(p)),
            Some(IncompleteState::PartialUncompressed(q)),
            y,
            Seq::empty(),
        ),
{
    let a = Some(IncompleteState::PartialUncompressed(p));
    let b = Some(IncompleteState::PartialUncompressed(q));
    assert forall|f: Seq<u8>| #![trigger state_pending(b, f)]
        state_pending(a, y + f) == prepend(Seq::empty(), state_pending(b, f)) by {
        assert(p.spec_bytes() + (y + f) =~= q.spec_bytes() + f);
        lemma_prepend_empty(state_pending(b, f));
    }
}

proof fn lemma_step_uc_count(n: u8)
    ensures
        step(
            Some(IncompleteState::NeedUncompressedCount),
            Some(IncompleteState::WritingUncompressed { remaining: n as usize, partial: None }),
            seq![n],
            Seq::empty(),
        ),
{
    let a = Some(IncompleteState::NeedUncompressedCount);
    let b = Some(IncompleteState::WritingUncompressed { remaining: n as usize, partial: None });
    assert forall|f: Seq<u8>| #![trigger state_pending(b, f)]
        state_pending(a, seq![n] + f) == prepend(Seq::empty(), state_pending(b, f)) by {
        assert((seq![n] + f).skip(1) =~= f);
        lemma_prepend_empty(state_pending(b, f));
    }
}

proof fn lemma_step_raw(c: usize, m: usize, x: Seq<u8>)
    requires
        m <= c,
        x.len() == 8 * m,
    ensures
        m == c ==> step(
            Some(IncompleteState::WritingUncompressed { remaining: c, partial: None }),
            None,
            x,
            x,
        ),
        m < c ==> step(
            Some(IncompleteState::WritingUncompressed { remaining: c, partial: None }),
            Some(IncompleteState::WritingUncompressed { remaining: (c - m) as usize, partial: None }),
            x,
            x,
        ),
{
    let a = Some(IncompleteState::WritingUncompressed { remaining: c, partial: None });
    let b = if m == c {
        None
    } else {
        Some(IncompleteState::WritingUncompressed { remaining: (c - m) as usize, partial: None })
    };
    assert forall|f: Seq<u8>| #![trigger state_pending(b, f)]
        state_pending(a, x + f) == prepend(x, state_pending(b, f)) by {
        lemma_raw_split(c as nat, m as nat, x, f);
        if m == c {
            assert(f.take(0) =~= Seq::<u8>::empty());
            assert(f.skip(0) =~= f);
            lemma_prepend_empty(unpack_spec(f));
        }
    }
}

proof fn lemma_step_raw_partial(c: usize, m: usize, x: Seq<u8>, p: PartialWord)
    requires
        m < c,
        x.len() == 8 * m,
        0 < p.spec_bytes().len() < 8,
    ensures
        step(
            Some(IncompleteState::WritingUncompressed { remaining: c, partial: None }),
            Some(
                IncompleteState::WritingUncompressed {
                    remaining: (c - m - 1) as usize,
                    partial: Some(p),
                },
            ),
            x + p.spec_bytes(),
            x,
        ),
{
    let a = Some(IncompleteState::WritingUncompressed { remaining: c, partial: None });
    let b = Some(
        IncompleteState::WritingUncompressed { remaining: (c - m - 1) as usize, partial: Some(p) },
    );
    assert forall|f: Seq<u8>| #![trigger state_pending(b, f)]
        state_pending(a, (x + p.spec_bytes()) + f) == prepend(x, state_pending(b, f)) by {
        lemma_raw_partial(c as nat, m as nat, x, p.spec_bytes(), f);
    }
}

proof fn lemma_step_wu_word(r: usize, p: PartialWord, y: Seq<u8>)
    requires
        p.spec_bytes().len() + y.len() == 8,
    ensures
        step(
            Some(IncompleteState::WritingUncompressed { remaining: r, partial: Some(p) }),
            Some(IncompleteState::WritingUncompressed { remaining: r, partial: None }),
            y,
            p.spec_bytes() + y,
        ),
{
    let a = Some(IncompleteState::WritingUncompressed { remaining: r, partial: Some(p) });
    let b = Some(IncompleteState::WritingUncompressed { remaining: r, partial: None });
    assert forall|f: Seq<u8>| #![trigger state_pending(b, f)]
        state_pending(a, y + f) == prepend(p.spec_bytes() + y, state_pending(b, f)) by {
        let g = y + f;
        assert(g.take(y.len() as int) =~= y);
        assert(g.skip(y.len() as int) =~= f);
    }
}

proof fn lemma_step_wu_more(r: usize, p: PartialWord, q: PartialWord, y: Seq<u8>)
    requires
        q.spec_bytes() == p.spec_bytes() + y,
        q.spec_bytes().len() < 8,
    ensures
        step(
            Some(IncompleteState::WritingUncompressed { remaining: r, partial: Some(p) }),
            Some(IncompleteState::WritingUncompressed { remaining: r, partial: Some(q) }),
            y,
            Seq::empty(),
        ),
{
    let a = Some(IncompleteState::WritingUncompressed { remaining: r, partial: Some(p) });
    let b = Some(IncompleteState::WritingUncompressed { remaining: r, partial: Some(q) });
    assert forall|f: Seq<u8>| #![trigger state_pending(b, f)]
        state_pending(a, y + f) == prepend(Seq::empty(), state_pending(b, f)) by {
        let need_p = 8 - p.spec_bytes().len();
        let need_q = 8 - q.spec_bytes().len();
        let g = y + f;
        if g.len() >= need_p {
            assert(g.take(need_p) =~= y + f.take(need_q));
            assert(g.skip(need_p) =~= f.skip(need_q));
            assert(p.spec_bytes() + (y + f.take(need_q)) =~= q.spec_bytes() + f.take(need_q));
        }
        lemma_prepend_empty(state_pending(b, f));
    }
}

proof fn lemma_step_tag_start(t: u8, x: Seq<u8>, p: PartialTaggedWord)
    requires
        t != 0,
        t != 0xff,
        forall|f: Seq<u8>|
            #![trigger tagged_rest(p.spec_buf(), t, p.spec_pos(), f)]
            tagged_rest(Seq::empty(), t, 0, x + f) == tagged_rest(p.spec_buf(), t, p.spec_pos(), f),
        p.spec_tag() == t,
    ensures
        step(None, Some(IncompleteState::PartialWord(p)), seq![t] + x, Seq::empty()),
{
    let b = Some(IncompleteState::PartialWord(p));
    assert forall|f: Seq<u8>| #![trigger state_pending(b, f)]
        state_pending(None, (seq![t] + x) + f) == prepend(Seq::empty(), state_pending(b, f)) by {
        lemma_unpack_unfold((seq![t] + x) + f);
        assert(((seq![t] + x) + f).skip(1) =~= x + f);
        lemma_prepend_empty(state_pending(b, f));
    }
}

proof fn lemma_step_tag_word(t: u8, x: Seq<u8>, w: Seq<u8>)
    requires
        t != 0,
        t != 0xff,
        forall|f: Seq<u8>|
            #![trigger unpack_spec(f)]
            tagged_rest(Seq::empty(), t, 0, x + f) == prepend(w, unpack_spec(f)),
    ensures
        step(None, None, seq![t] + x, w),
{
    assert forall|f: Seq<u8>| #![trigger state_pending(None, f)]
        state_pending(None, (seq![t] + x) + f) == prepend(w, state_pending(None, f)) by {
        lemma_unpack_unfold((seq![t] + x) + f);
        assert(((seq![t] + x) + f).skip(1) =~= x + f);
    }
}

proof fn lemma_step_pw_word(p: PartialTaggedWord, y: Seq<u8>, w: Seq<u8>)
    requires
        forall|f: Seq<u8>|
            #![trigger unpack_spec(f)]
            tagged_rest(p.spec_buf(), p.spec_tag(), p.spec_pos(), y + f) == prepend(
                w,
                unpack_spec(f),
            ),
    ensures
        step(Some(IncompleteState::PartialWord(p)), None, y, w),
{
    assert forall|f: Seq<u8>| #![trigger state_pending(None, f)]
        state_pending(Some(IncompleteState::PartialWord(p)), y + f) == prepend(
            w,
            state_pending(None, f),
        ) by {}
}

proof fn lemma_step_pw_more(p: PartialTaggedWord, q: PartialTaggedWord, y: Seq<u8>)
    requires
        forall|f: Seq<u8>|
            #![trigger tagged_rest(q.spec_buf(), q.spec_tag(), q.spec_pos(), f)]
            tagged_rest(p.spec_buf(), p.spec_tag(), p.spec_pos(), y + f) == tagged_rest(
                q.spec_buf(),
                q.spec_tag(),
                q.spec_pos(),
                f,
            ),
    ensures
        step(Some(IncompleteState::PartialWord(p)), Some(IncompleteState::PartialWord(q)), y, Seq::empty()),
{
    let b = Some(IncompleteState::PartialWord(q));
    assert forall|f: Seq<u8>| #![trigger state_pending(b, f)]
        state_pending(Some(IncompleteState::PartialWord(p)), y + f) == prepend(
            Seq::empty(),
            state_pending(b, f),
        ) by {
        lemma_prepend_empty(state_pending(b, f));
    }
}

} // verus!

verus! {

use crate::allocator::all_zero;

/// From state `a` at `si0` in `src` and `di0` in `dst0`, the unpacker reached state `b` at
/// `si1` and `di1` in `dst1`: it consumed the bytes between, wrote the words between, left
/// the words before `di0` alone and the words from `di1` on zero.
spec fn advanced(
    a: Option<IncompleteState>,
    b: Option<IncompleteState>,
    src: Seq<u8>,
    si0: int,
    si1: int,
    dst0: Seq<Word>,
    dst1: Seq<Word>,
    di0: int,
    di1: int,
) -> bool {
    &&& 0 <= si0 <= si1 <= src.len()
    &&& 0 <= di0 <= di1 <= dst1.len()
    &&& dst1.len() == dst0.len()
    &&& dst1.subrange(0, di0) == dst0.subrange(0, di0)
    &&& all_zero(dst1.skip(di1))
    &&& step(a, b, src.subrange(si0, si1), words_bytes(dst1.subrange(di0, di1)))
}

proof fn lemma_advanced_refl(a: Option<IncompleteState>, src: Seq<u8>, si: int, dst: Seq<Word>, di: int)
    requires
        0 <= si <= src.len(),
        0 <= di <= dst.len(),
        all_zero(dst.skip(di)),
    ensures
        advanced(a, a, src, si, si, dst, dst, di, di),
{
    lemma_step_refl(a);
    assert(src.subrange(si, si) =~= Seq::<u8>::empty());
    assert(words_bytes(dst.subrange(di, di)) =~= Seq::<u8>::empty());
}

proof fn lemma_advanced_trans(
    a: Option<IncompleteState>,
    b: Option<IncompleteState>,
    c: Option<IncompleteState>,
    src: Seq<u8>,
    si0: int,
    si1: int,
    si2: int,
    d0: Seq<Word>,
    d1: Seq<Word>,
    d2: Seq<Word>,
    di0: int,
    di1: int,
    di2: int,
)
    requires
        advanced(a, b, src, si0, si1, d0, d1, di0, di1),
        advanced(b, c, src, si1, si2, d1, d2, di1, di2),
    ensures
        advanced(a, c, src, si0, si2, d0, d2, di0, di2),
{
    lemma_step_trans(
        a,
        b,
        c,
        src.subrange(si0, si1),
        words_bytes(d1.subrange(di0, di1)),
        src.subrange(si1, si2),
        words_bytes(d2.subrange(di1, di2)),
    );
    assert(src.subrange(si0, si1) + src.subrange(si1, si2) =~= src.subrange(si0, si2));
    assert(d2.subrange(0, di1).subrange(di0, di1) =~= d2.subrange(di0, di1));
    assert(d1.subrange(0, di1).subrange(di0, di1) =~= d1.subrange(di0, di1));
    assert(d2.subrange(di0, di1) =~= d1.subrange(di0, di1));
    lemma_words_bytes_add(d2.subrange(di0, di1), d2.subrange(di1, di2));
    assert(d2.subrange(di0, di1) + d2.subrange(di1, di2) =~= d2.subrange(di0, di2));
    assert(d2.subrange(0, di0) =~= d2.subrange(0, di1).subrange(0, di0));
    assert(d1.subrange(0, di0) =~= d1.subrange(0, di1).subrange(0, di0));
}

/// Skips `count` zero words of `dst` at `di`, as far as it has room.
fn write_nulls(src: &[u8], si: usize, dst: &[Word], di: usize, count: usize) -> (r: (
    usize,
    Option<IncompleteState>,
))
    requires
        si <= src@.len(),
        di <= dst@.len(),
        count <= 255,
        all_zero(dst@.skip(di as int)),
    ensures
        advanced(
            Some(IncompleteState::WritingNulls(count)),
            r.1,
            src@,
            si as int,
            si as int,
            dst@,
            dst@,
            di as int,
            r.0 as int,
        ),
        state_wf(r.1),
        r.1 is None ==> r.0 == di + count,
        r.1 is Some ==> r.0 == dst@.len(),
        r.1 is Some ==> owes_output(r.1),
{
    let dlen = dst.len();
    let k = if dlen - di >= count {
        count
    } else {
        dlen - di
    };
    proof {
        lemma_step_nulls(count, k);
        let region = dst@.subrange(di as int, di + k);
        assert forall|i: int| 0 <= i < region.len() implies crate::allocator::word_is_zero(
            #[trigger] region[i],
        ) by {
            assert(region[i] == dst@.skip(di as int)[i]);
        }
        lemma_words_bytes_zero(region);
        assert(src@.subrange(si as int, si as int) =~= Seq::<u8>::empty());
        assert forall|i: int| 0 <= i < dst@.skip(di + k).len() implies crate::allocator::word_is_zero(
            #[trigger] dst@.skip(di + k)[i],
        ) by {
            assert(dst@.skip(di + k)[i] == dst@.skip(di as int)[i + k]);
        }
    }
    if k == count {
        (di + k, None)
    } else {
        (dlen, Some(IncompleteState::WritingNulls(count - k)))
    }
}

/// Copies `m` words from the bytes of `src` at `si` to `dst` at `di`.
fn copy_words(src: &[u8], si: usize, dst: &mut [Word], di: usize, m: usize)
    requires
        si + 8 * m <= src@.len(),
        di + m <= old(dst)@.len(),
    ensures
        final(dst)@.len() == old(dst)@.len(),
        final(dst)@.subrange(0, di as int) == old(dst)@.subrange(0, di as int),
        final(dst)@.skip(di + m) == old(dst)@.skip(di + m),
        words_bytes(final(dst)@.subrange(di as int, di + m)) == src@.subrange(
            si as int,
            si + 8 * m,
        ),
{
    let src_len = src.len();
    let dst_len = dst.len();
    let mut j: usize = 0;
    while j < m
        invariant
            src_len == src@.len(),
            dst_len == dst@.len(),
            si + 8 * m <= src@.len(),
            di + m <= dst@.len(),
            dst@.len() == old(dst)@.len(),
            j <= m,
            dst@.subrange(0, di as int) == old(dst)@.subrange(0, di as int),
            dst@.skip(di + m) == old(dst)@.skip(di + m),
            words_bytes(dst@.subrange(di as int, di + j)) == src@.subrange(
                si as int,
                si + 8 * j,
            ),
        decreases m - j,
    {
        let ghost before = dst@;
        let w = word_at(src, si + 8 * j);
        dst[di + j] = w;
        proof {
            assert(dst@.subrange(di as int, di + j + 1) =~= before.subrange(di as int, di + j)
                + seq![w]);
            lemma_words_bytes_add(before.subrange(di as int, di + j), seq![w]);
            lemma_words_bytes_one(w);
            assert(src@.subrange(si as int, si + 8 * (j + 1)) =~= src@.subrange(
                si as int,
                si + 8 * j,
            ) + src@.subrange(si + 8 * j, si + 8 * j + 8));
            assert(dst@.subrange(0, di as int) =~= before.subrange(0, di as int));
            assert(dst@.skip(di + m) =~= before.skip(di + m));
        }
        j = j + 1;
    }
}

} // verus!

verus! {

/// Moves the words copied into `dst` at `di` into the record of what was written.
proof fn lemma_copied(src: Seq<u8>, si: int, m: int, d0: Seq<Word>, d1: Seq<Word>, di: int)
    requires
        0 <= si,
        si + 8 * m <= src.len(),
        0 <= di,
        0 <= m,
        di + m <= d0.len(),
        d1.len() == d0.len(),
        d1.subrange(0, di) == d0.subrange(0, di),
        d1.skip(di + m) == d0.skip(di + m),
        all_zero(d0.skip(di)),
    ensures
        all_zero(d1.skip(di + m)),
{
    assert forall|i: int| 0 <= i < d1.skip(di + m).len() implies crate::allocator::word_is_zero(
        #[trigger] d1.skip(di + m)[i],
    ) by {
        assert(d1.skip(di + m)[i] == d0.skip(di)[i + m]);
    }
}

/// Copies `count` uncompressed words from `src` at `si` to `dst` at `di`, as far as both have
/// room, keeping what is left as the state.
fn write_uncompressed(src: &[u8], si: usize, dst: &mut [Word], di: usize, count: usize) -> (r: (
    usize,
    usize,
    Option<IncompleteState>,
    Option<StopReason>,
))
    requires
        si <= src@.len(),
        di <= old(dst)@.len(),
        count <= 255,
        all_zero(old(dst)@.skip(di as int)),
    ensures
        advanced(
            Some(IncompleteState::WritingUncompressed { remaining: count, partial: None }),
            r.2,
            src@,
            si as int,
            r.0 as int,
            old(dst)@,
            final(dst)@,
            di as int,
            r.1 as int,
        ),
        state_wf(r.2),
        r.3 is None ==> r.2 is None,
        r.3 == Some(StopReason::NeedOutput) ==> r.1 == final(dst)@.len(),
        r.3 == Some(StopReason::NeedOutput) ==> owes_output(r.2),
        r.3 == Some(StopReason::NeedInput) ==> r.0 == src@.len(),
        r.3 == Some(StopReason::NeedInput) ==> state_starved(r.2),
{
    let src_len = src.len();
    let dst_len = dst.len();
    let avail = src_len - si;
    let full_words = avail / 8;
    let partial_bytes = avail % 8;
    let enough_input = full_words >= count;
    let words_to_read = if enough_input {
        count
    } else {
        full_words
    };
    let enough_output = words_to_read <= dst_len - di;
    let ghost d0 = dst@;
    let ghost a = Some(IncompleteState::WritingUncompressed { remaining: count, partial: None });
    if !enough_output {
        let m = dst_len - di;
        copy_words(src, si, dst, di, m);
        proof {
            lemma_copied(src@, si as int, m as int, d0, dst@, di as int);
            lemma_step_raw(count, m, src@.subrange(si as int, si + 8 * m));
            assert(dst@.subrange(0, di as int) =~= d0.subrange(0, di as int));
        }
        return (
            si + 8 * m,
            dst_len,
            Some(IncompleteState::WritingUncompressed { remaining: count - m, partial: None }),
            Some(StopReason::NeedOutput),
        );
    }
    copy_words(src, si, dst, di, words_to_read);
    proof {
        lemma_copied(src@, si as int, words_to_read as int, d0, dst@, di as int);
    }
    let s1 = si + 8 * words_to_read;
    let d1 = di + words_to_read;
    if !enough_input {
        if partial_bytes != 0 {
            let p = PartialWord::start(src, s1);
            proof {
                let x = src@.subrange(si as int, s1 as int);
                lemma_step_raw_partial(count, words_to_read, x, p);
                assert(x + p.spec_bytes() =~= src@.subrange(si as int, src_len as int));
                lemma_starved(Some(IncompleteState::WritingUncompressed { remaining: (count - words_to_read - 1) as usize, partial: Some(p) }));
            }
            return (
                src_len,
                d1,
                Some(
                    IncompleteState::WritingUncompressed {
                        remaining: count - words_to_read - 1,
                        partial: Some(p),
                    },
                ),
                Some(StopReason::NeedInput),
            );
        } else {
            proof {
                lemma_step_raw(count, words_to_read, src@.subrange(si as int, s1 as int));
                lemma_starved(Some(IncompleteState::WritingUncompressed { remaining: (count - words_to_read) as usize, partial: None }));
            }
            return (
                src_len,
                d1,
                Some(
                    IncompleteState::WritingUncompressed {
                        remaining: count - words_to_read,
                        partial: None,
                    },
                ),
                Some(StopReason::NeedInput),
            );
        }
    }
    proof {
        lemma_step_raw(count, words_to_read, src@.subrange(si as int, s1 as int));
    }
    (s1, d1, None, None)
}

} // verus!

verus! {

/// Unpacks a zero word and the run of zero words after it.
#[verifier::rlimit(40)]
fn unpack_null_item(src: &[u8], si: usize, dst: &mut [Word], di: usize) -> (r: (
    usize,
    usize,
    Option<IncompleteState>,
    Option<StopReason>,
))
    requires
        si < src@.len(),
        di < old(dst)@.len(),
        all_zero(old(dst)@.skip(di as int)),
        src@[si as int] == 0,
    ensures
        advanced(None, r.2, src@, si as int, r.0 as int, old(dst)@, final(dst)@, di as int, r.1 as int),
        state_wf(r.2),
        r.3 is None ==> r.2 is None && r.0 > si,
        r.3 == Some(StopReason::NeedOutput) ==> r.1 == final(dst)@.len(),
        r.3 == Some(StopReason::NeedOutput) ==> owes_output(r.2),
        r.3 == Some(StopReason::NeedInput) ==> r.0 == src@.len(),
        r.3 == Some(StopReason::NeedInput) ==> state_starved(r.2),
{
    let src_len = src.len();
    let dst_len = dst.len();
    let ghost d0 = dst@;
    let tag = src[si];
    let ghost nnc = Some(IncompleteState::NeedNullCount);
    proof {
        lemma_step_null_tag();
        assert(src@.subrange(si as int, si + 1) =~= seq![0u8]);
        let region = d0.subrange(di as int, di + 1);
        assert(region[0] == d0.skip(di as int)[0]);
        lemma_words_bytes_zero(region);
        assert(zero_bytes(8) =~= zero_bytes((region.len() * 8) as nat));
        assert(d0.skip(di + 1) =~= d0.skip(di as int).skip(1));
        assert forall|i: int| 0 <= i < d0.skip(di + 1).len() implies crate::allocator::word_is_zero(
            #[trigger] d0.skip(di + 1)[i],
        ) by {
            assert(d0.skip(di + 1)[i] == d0.skip(di as int)[i + 1]);
        }
        assert(advanced(None, nnc, src@, si as int, si + 1, d0, d0, di as int, di + 1));
    }
    if si + 1 == src_len {
        proof {
            lemma_starved(Some(IncompleteState::NeedNullCount));
        }
        return (src_len, di + 1, Some(IncompleteState::NeedNullCount), Some(StopReason::NeedInput));
    }
    let count = src[si + 1];
    let ghost wn = Some(IncompleteState::WritingNulls(count as usize));
    proof {
        lemma_step_null_count(count);
        assert(src@.subrange(si + 1, si + 2) =~= seq![count]);
        assert(words_bytes(d0.subrange(di + 1, di + 1)) =~= Seq::<u8>::empty());
        assert(advanced(nnc, wn, src@, si + 1, si + 2, d0, d0, di + 1, di + 1));
        lemma_advanced_trans(None, nnc, wn, src@, si as int, si + 1, si + 2, d0, d0, d0, di as int, di + 1, di + 1);
    }
    let (d2, st) = write_nulls(src, si + 2, dst, di + 1, count as usize);
    proof {
        lemma_advanced_trans(None, wn, st, src@, si as int, si + 2, si + 2, d0, d0, d0, di as int, di + 1, d2 as int);
    }
    match st {
        Some(st) => (si + 2, d2, Some(st), Some(StopReason::NeedOutput)),
        None => (si + 2, d2, None, None),
    }
}

/// Unpacks an all-nonzero word and the uncompressed words after it.
#[verifier::rlimit(40)]
fn unpack_full_item(src: &[u8], si: usize, dst: &mut [Word], di: usize) -> (r: (
    usize,
    usize,
    Option<IncompleteState>,
    Option<StopReason>,
))
    requires
        si < src@.len(),
        di < old(dst)@.len(),
        all_zero(old(dst)@.skip(di as int)),
        src@[si as int] == 0xff,
    ensures
        advanced(None, r.2, src@, si as int, r.0 as int, old(dst)@, final(dst)@, di as int, r.1 as int),
        state_wf(r.2),
        r.3 is None ==> r.2 is None && r.0 > si,
        r.3 == Some(StopReason::NeedOutput) ==> r.1 == final(dst)@.len(),
        r.3 == Some(StopReason::NeedOutput) ==> owes_output(r.2),
        r.3 == Some(StopReason::NeedInput) ==> r.0 == src@.len(),
        r.3 == Some(StopReason::NeedInput) ==> state_starved(r.2),
{
    let src_len = src.len();
    let dst_len = dst.len();
    let ghost d0 = dst@;
    let tag = src[si];
    if src_len - (si + 1) < 8 {
        let p = PartialWord::start(src, si + 1);
        proof {
            lemma_step_ff_short(src@.skip(si + 1), p);
            assert(src@.subrange(si as int, src_len as int) =~= seq![0xffu8] + src@.skip(si + 1));
            assert(words_bytes(d0.subrange(di as int, di as int)) =~= Seq::<u8>::empty());
            assert(p.spec_bytes() + Seq::<u8>::empty() =~= p.spec_bytes());
            lemma_starved(Some(IncompleteState::PartialUncompressed(p)));
        }
        return (src_len, di, Some(IncompleteState::PartialUncompressed(p)), Some(StopReason::NeedInput));
    }
    let w = word_at(src, si + 1);
    dst[di] = w;
    let ghost d1 = dst@;
    let ghost nuc = Some(IncompleteState::NeedUncompressedCount);
    proof {
        lemma_step_ff_word(w.0@);
        assert(src@.subrange(si as int, si + 9) =~= seq![0xffu8] + w.0@);
        assert(d1.subrange(di as int, di + 1) =~= seq![w]);
        lemma_words_bytes_one(w);
        assert(d1.subrange(0, di as int) =~= d0.subrange(0, di as int));
        assert forall|i: int| 0 <= i < d1.skip(di + 1).len() implies crate::allocator::word_is_zero(
            #[trigger] d1.skip(di + 1)[i],
        ) by {
            assert(d1.skip(di + 1)[i] == d0.skip(di as int)[i + 1]);
        }
        assert(advanced(None, nuc, src@, si as int, si + 9, d0, d1, di as int, di + 1));
    }
    if si + 9 == src_len {
        proof {
            lemma_starved(Some(IncompleteState::NeedUncompressedCount));
        }
        return (src_len, di + 1, Some(IncompleteState::NeedUncompressedCount), Some(StopReason::NeedInput));
    }
    let count = src[si + 9];
    let ghost wu = Some(IncompleteState::WritingUncompressed { remaining: count as usize, partial: None });
    proof {
        lemma_step_uc_count(count);
        assert(src@.subrange(si + 9, si + 10) =~= seq![count]);
        assert(words_bytes(d1.subrange(di + 1, di + 1)) =~= Seq::<u8>::empty());
        assert(advanced(nuc, wu, src@, si + 9, si + 10, d1, d1, di + 1, di + 1));
        lemma_advanced_trans(None, nuc, wu, src@, si as int, si + 9, si + 10, d0, d1, d1, di as int, di + 1, di + 1);
    }
    let (s3, d3, st, stop) = write_uncompressed(src, si + 10, dst, di + 1, count as usize);
    proof {
        lemma_advanced_trans(None, wu, st, src@, si as int, si + 10, s3 as int, d0, d1, dst@, di as int, di + 1, d3 as int);
    }
    (s3, d3, st, stop)
}

/// Starts a tagged word whose bytes have not all come: what is left of the input.
fn start_tagged_item(tag: u8, src: &[u8], si: usize) -> (p: PartialTaggedWord)
    requires
        si <= src@.len(),
        src@.len() - si < tag_count(tag, 0),
        tag != 0,
        tag != 0xff,
    ensures
        state_wf(Some(IncompleteState::PartialWord(p))),
        state_starved(Some(IncompleteState::PartialWord(p))),
        step(None, Some(IncompleteState::PartialWord(p)), seq![tag] + src@.skip(si as int), Seq::empty()),
{
    let p = PartialTaggedWord::start(tag, src, si);
    proof {
        let e = Seq::<u8>::empty();
        assert(src@.skip(si as int) + e =~= src@.skip(si as int));
        assert(tagged_rest(Seq::empty(), tag, 0, src@.skip(si as int) + e) == tagged_rest(p.spec_buf(), tag, p.spec_pos(), e));
        lemma_starved(Some(IncompleteState::PartialWord(p)));
        lemma_step_tag_start(tag, src@.skip(si as int), p);
    }
    p
}

/// Unpacks a tagged word.
#[verifier::rlimit(100)]
#[verifier::spinoff_prover]
fn unpack_tagged_item(src: &[u8], si: usize, dst: &mut [Word], di: usize) -> (r: (
    usize,
    usize,
    Option<IncompleteState>,
    Option<StopReason>,
))
    requires
        si < src@.len(),
        di < old(dst)@.len(),
        all_zero(old(dst)@.skip(di as int)),
        src@[si as int] != 0,
        src@[si as int] != 0xff,
    ensures
        advanced(None, r.2, src@, si as int, r.0 as int, old(dst)@, final(dst)@, di as int, r.1 as int),
        state_wf(r.2),
        r.3 is None ==> r.2 is None && r.0 > si,
        r.3 == Some(StopReason::NeedOutput) ==> r.1 == final(dst)@.len(),
        r.3 == Some(StopReason::NeedOutput) ==> owes_output(r.2),
        r.3 == Some(StopReason::NeedInput) ==> r.0 == src@.len(),
        r.3 == Some(StopReason::NeedInput) ==> state_starved(r.2),
{
    let src_len = src.len();
    let dst_len = dst.len();
    let ghost d0 = dst@;
    let tag = src[si];
    let needed = count_tag_bits(tag, 0);
    if src_len - (si + 1) < needed {
        let p = start_tagged_item(tag, src, si + 1);
        proof {
            assert(src@.subrange(si as int, src_len as int) =~= seq![tag] + src@.skip(si + 1));
            assert(words_bytes(d0.subrange(di as int, di as int)) =~= Seq::<u8>::empty());
        }
        return (src_len, di, Some(IncompleteState::PartialWord(p)), Some(StopReason::NeedInput));
    }
    let (buf, pos, s) = decode_tagged_into([0u8; 8], tag, 0, src, si + 1);
    proof {
        if pos < 8 {
            lemma_tag_count_set(tag, pos as int);
        }
    }
    dst[di] = Word(buf);
    proof {
        let x = src@.subrange(si + 1, s as int);
        assert(pos == 8);
        lemma_tag_word_done(tag, x, buf@);
        lemma_step_tag_word(tag, x, buf@);
        assert(src@.subrange(si as int, s as int) =~= seq![tag] + x);
        assert(dst@.subrange(di as int, di + 1) =~= seq![Word(buf)]);
        lemma_words_bytes_one(Word(buf));
        assert(dst@.subrange(0, di as int) =~= d0.subrange(0, di as int));
        assert forall|i: int| 0 <= i < dst@.skip(di + 1).len() implies crate::allocator::word_is_zero(
            #[trigger] dst@.skip(di + 1)[i],
        ) by {
            assert(dst@.skip(di + 1)[i] == d0.skip(di as int)[i + 1]);
        }
    }
    (s, di + 1, None, None)
}

/// Unpacks the item that starts at `si` in `src` into `dst` at `di`, from an idle state.
fn unpack_item(src: &[u8], si: usize, dst: &mut [Word], di: usize) -> (r: (
    usize,
    usize,
    Option<IncompleteState>,
    Option<StopReason>,
))
    requires
        si < src@.len(),
        di < old(dst)@.len(),
        all_zero(old(dst)@.skip(di as int)),
    ensures
        advanced(None, r.2, src@, si as int, r.0 as int, old(dst)@, final(dst)@, di as int, r.1 as int),
        state_wf(r.2),
        r.3 is None ==> r.2 is None && r.0 > si,
        r.3 == Some(StopReason::NeedOutput) ==> r.1 == final(dst)@.len(),
        r.3 == Some(StopReason::NeedOutput) ==> owes_output(r.2),
        r.3 == Some(StopReason::NeedInput) ==> r.0 == src@.len(),
        r.3 == Some(StopReason::NeedInput) ==> state_starved(r.2),
{
    let tag = src[si];
    if tag == 0 {
        unpack_null_item(src, si, dst, di)
    } else if tag == 0xff {
        unpack_full_item(src, si, dst, di)
    } else {
        unpack_tagged_item(src, si, dst, di)
    }
}

} // verus!

verus! {

/// Continues from the state an unpacker stopped in, with the bytes of `src` written to `dst`
/// from their starts.
#[verifier::rlimit(60)]
fn resume(state: IncompleteState, src: &[u8], dst: &mut [Word]) -> (r: (
    usize,
    usize,
    Option<IncompleteState>,
    Option<StopReason>,
))
    requires
        src@.len() > 0,
        state_wf(Some(state)),
        state_has_partial(Some(state)) ==> old(dst)@.len() > 0,
        all_zero(old(dst)@),
    ensures
        advanced(Some(state), r.2, src@, 0, r.0 as int, old(dst)@, final(dst)@, 0, r.1 as int),
        state_wf(r.2),
        r.3 is None ==> r.2 is None,
        r.3 == Some(StopReason::NeedOutput) ==> r.1 == final(dst)@.len(),
        r.3 == Some(StopReason::NeedOutput) ==> owes_output(r.2),
        r.3 == Some(StopReason::NeedInput) ==> r.0 == src@.len(),
        r.3 == Some(StopReason::NeedInput) ==> state_starved(r.2),
{
    let src_len = src.len();
    let ghost d0 = dst@;
    let ghost a = Some(state);
    assert(d0.skip(0) =~= d0);
    match state {
        IncompleteState::PartialWord(p) => {
            match p.finish(src, 0, dst, 0) {
                Ok((s, d)) => {
                    proof {
                        let y = src@.subrange(0, s as int);
                        lemma_step_pw_word(p, y, dst@[0].0@);
                        assert(dst@.subrange(0, 1) =~= seq![dst@[0]]);
                        lemma_words_bytes_one(dst@[0]);
                        assert forall|i: int| 0 <= i < dst@.skip(1).len() implies crate::allocator::word_is_zero(
                            #[trigger] dst@.skip(1)[i],
                        ) by {
                            assert(dst@.skip(1)[i] == d0[i + 1]);
                        }
                        assert(dst@.subrange(0, 0) =~= d0.subrange(0, 0));
                    }
                    (s, d, None, None)
                },
                Err(q) => {
                    proof {
                        lemma_step_pw_more(p, q, src@.skip(0));
                        assert(src@.skip(0) =~= src@);
                        assert(src@.subrange(0, src_len as int) =~= src@);
                        assert(words_bytes(dst@.subrange(0, 0)) =~= Seq::<u8>::empty());
                        lemma_starved(Some(IncompleteState::PartialWord(q)));
                    }
                    (src_len, 0, Some(IncompleteState::PartialWord(q)), Some(StopReason::NeedInput))
                },
            }
        },
        IncompleteState::PartialUncompressed(p) => {
            match p.finish(src, 0, dst, 0) {
                Ok((s, d)) => {
                    let ghost d1 = dst@;
                    let ghost nuc = Some(IncompleteState::NeedUncompressedCount);
                    proof {
                        let y = src@.subrange(0, s as int);
                        lemma_step_pu_word(p, y);
                        assert(dst@.subrange(0, 1) =~= seq![dst@[0]]);
                        lemma_words_bytes_one(dst@[0]);
                        assert forall|i: int| 0 <= i < dst@.skip(1).len() implies crate::allocator::word_is_zero(
                            #[trigger] dst@.skip(1)[i],
                        ) by {
                            assert(dst@.skip(1)[i] == d0[i + 1]);
                        }
                        assert(dst@.subrange(0, 0) =~= d0.subrange(0, 0));
                        assert(advanced(a, nuc, src@, 0, s as int, d0, d1, 0, 1));
                    }
                    if s == src_len {
                        proof {
                            lemma_starved(Some(IncompleteState::NeedUncompressedCount));
                        }
                        return (s, d, Some(IncompleteState::NeedUncompressedCount), Some(StopReason::NeedInput));
                    }
                    let count = src[s];
                    let ghost wu = Some(IncompleteState::WritingUncompressed { remaining: count as usize, partial: None });
                    proof {
                        lemma_step_uc_count(count);
                        assert(src@.subrange(s as int, s + 1) =~= seq![count]);
                        assert(words_bytes(d1.subrange(1, 1)) =~= Seq::<u8>::empty());
                        assert(advanced(nuc, wu, src@, s as int, s + 1, d1, d1, 1, 1));
                        lemma_advanced_trans(a, nuc, wu, src@, 0, s as int, s + 1, d0, d1, d1, 0, 1, 1);
                    }
                    let (s3, d3, st, stop) = write_uncompressed(src, s + 1, dst, 1, count as usize);
                    proof {
                        lemma_advanced_trans(a, wu, st, src@, 0, s + 1, s3 as int, d0, d1, dst@, 0, 1, d3 as int);
                    }
                    (s3, d3, st, stop)
                },
                Err(q) => {
                    proof {
                        lemma_step_pu_more(p, q, src@.skip(0));
                        assert(src@.skip(0) =~= src@);
                        assert(src@.subrange(0, src_len as int) =~= src@);
                        assert(words_bytes(dst@.subrange(0, 0)) =~= Seq::<u8>::empty());
                        assert(q.spec_bytes() + Seq::<u8>::empty() =~= q.spec_bytes());
                        lemma_starved(Some(IncompleteState::PartialUncompressed(q)));
                    }
                    (src_len, 0, Some(IncompleteState::PartialUncompressed(q)), Some(StopReason::NeedInput))
                },
            }
        },
        IncompleteState::NeedNullCount => {
            let count = src[0];
            let ghost wn = Some(IncompleteState::WritingNulls(count as usize));
            proof {
                lemma_step_null_count(count);
                assert(src@.subrange(0, 1) =~= seq![count]);
                assert(words_bytes(d0.subrange(0, 0)) =~= Seq::<u8>::empty());
                assert(advanced(a, wn, src@, 0, 1, d0, d0, 0, 0));
            }
            let (d, st) = write_nulls(src, 1, dst, 0, count as usize);
            proof {
                lemma_advanced_trans(a, wn, st, src@, 0, 1, 1, d0, d0, d0, 0, 0, d as int);
            }
            match st {
                Some(st) => (1, d, Some(st), Some(StopReason::NeedOutput)),
                None => (1, d, None, None),
            }
        },
        IncompleteState::NeedUncompressedCount => {
            let count = src[0];
            let ghost wu = Some(IncompleteState::WritingUncompressed { remaining: count as usize, partial: None });
            proof {
                lemma_step_uc_count(count);
                assert(src@.subrange(0, 1) =~= seq![count]);
                assert(words_bytes(d0.subrange(0, 0)) =~= Seq::<u8>::empty());
                assert(advanced(a, wu, src@, 0, 1, d0, d0, 0, 0));
            }
            let (s3, d3, st, stop) = write_uncompressed(src, 1, dst, 0, count as usize);
            proof {
                lemma_advanced_trans(a, wu, st, src@, 0, 1, s3 as int, d0, d0, dst@, 0, 0, d3 as int);
            }
            (s3, d3, st, stop)
        },
        IncompleteState::WritingNulls(count) => {
            let (d, st) = write_nulls(src, 0, dst, 0, count);
            match st {
                Some(st) => (0, d, Some(st), Some(StopReason::NeedOutput)),
                None => (0, d, None, None),
            }
        },
        IncompleteState::WritingUncompressed { remaining, partial } => {
            let ghost wu = Some(IncompleteState::WritingUncompressed { remaining, partial: None });
            let (s, d) = match partial {
                Some(p) => {
                    match p.finish(src, 0, dst, 0) {
                        Ok((s, d)) => {
                            proof {
                                let y = src@.subrange(0, s as int);
                                lemma_step_wu_word(remaining, p, y);
                                assert(dst@.subrange(0, 1) =~= seq![dst@[0]]);
                                lemma_words_bytes_one(dst@[0]);
                                assert forall|i: int| 0 <= i < dst@.skip(1).len() implies crate::allocator::word_is_zero(
                                    #[trigger] dst@.skip(1)[i],
                                ) by {
                                    assert(dst@.skip(1)[i] == d0[i + 1]);
                                }
                                assert(dst@.subrange(0, 0) =~= d0.subrange(0, 0));
                                assert(advanced(a, wu, src@, 0, s as int, d0, dst@, 0, 1));
                            }
                            (s, d)
                        },
                        Err(q) => {
                            proof {
                                lemma_step_wu_more(remaining, p, q, src@.skip(0));
                                assert(src@.skip(0) =~= src@);
                                assert(src@.subrange(0, src_len as int) =~= src@);
                                assert(words_bytes(dst@.subrange(0, 0)) =~= Seq::<u8>::empty());
                                lemma_starved(Some(IncompleteState::WritingUncompressed { remaining, partial: Some(q) }));
                            }
                            return (
                                src_len,
                                0,
                                Some(IncompleteState::WritingUncompressed { remaining, partial: Some(q) }),
                                Some(StopReason::NeedInput),
                            );
                        },
                    }
                },
                None => {
                    proof {
                        lemma_advanced_refl(a, src@, 0, d0, 0);
                    }
                    (0, 0)
                },
            };
            let ghost d1 = dst@;
            let (s3, d3, st, stop) = write_uncompressed(src, s, dst, d, remaining);
            proof {
                lemma_advanced_trans(a, wu, st, src@, 0, s as int, s3 as int, d0, d1, dst@, 0, d as int, d3 as int);
            }
            (s3, d3, st, stop)
        },
    }
}

/// A streaming unpacker of packed words.
///
/// What the bytes it is given unpack to is stated by [`Unpacker::spec_pending`]: a new
/// unpacker unpacks as [`unpack_spec`] does, and each call of [`Unpacker::unpack`] writes
/// what the bytes it reads unpack to and leaves the unpacker in a state that unpacks the rest.
#[derive(Debug)]
pub struct Unpacker {
    state: Option<IncompleteState>,
}

impl Unpacker {
    /// What the bytes `f` unpack to from the current state.
    pub closed spec fn spec_pending(&self, f: Seq<u8>) -> Option<Seq<u8>> {
        state_pending(self.state, f)
    }

    /// The unpacker is not in the middle of an item.
    pub closed spec fn spec_idle(&self) -> bool {
        self.state is None
    }

    /// The unpacker holds a partially read word, which needs room for one word of output
    /// before more input can be given to it.
    pub closed spec fn spec_needs_word(&self) -> bool {
        state_has_partial(self.state)
    }

    /// The state of the unpacker is consistent.
    pub closed spec fn wf(&self) -> bool {
        state_wf(self.state)
    }

    /// An idle unpacker unpacks what follows as a packed stream.
    pub proof fn lemma_idle(&self, f: Seq<u8>)
        requires
            self.spec_idle(),
        ensures
            self.spec_pending(f) == unpack_spec(f),
    {
    }

    /// Makes an idle unpacker.
    pub fn new() -> (r: Self)
        ensures
            r.wf(),
            r.spec_idle(),
    {
        Self { state: None }
    }

    /// Unpack words from the input into the specified buffer. The output buffer must be
    /// made up entirely of null words.
    ///
    /// The words written are what the bytes read unpack to, given what was read before; the
    /// unpacker stops when it needs more input (having read all of it) or more output (having
    /// filled all of it).
    #[verifier::rlimit(100)]
    #[verifier::spinoff_prover]
    pub fn unpack(&mut self, src: &[u8], dst: &mut [Word]) -> (r: UnpackResult)
        requires
            old(self).wf(),
            all_zero(old(dst)@),
            old(self).spec_needs_word() && src@.len() > 0 ==> old(dst)@.len() > 0,
        ensures
            final(self).wf(),
            r.bytes_read <= src@.len(),
            r.words_written <= old(dst)@.len(),
            final(dst)@.len() == old(dst)@.len(),
            all_zero(final(dst)@.skip(r.words_written as int)),
            forall|f: Seq<u8>|
                #![trigger final(self).spec_pending(f)]
                old(self).spec_pending(src@.subrange(0, r.bytes_read as int) + f) == prepend(
                    words_bytes(final(dst)@.subrange(0, r.words_written as int)),
                    final(self).spec_pending(f),
                ),
            r.reason == StopReason::NeedInput ==> r.bytes_read == src@.len(),
            r.reason == StopReason::NeedInput && src@.len() > 0 ==> final(self).spec_idle() || final(self).spec_pending(
                Seq::empty(),
            ) is None,
            r.reason == StopReason::NeedOutput ==> r.words_written == old(dst)@.len(),
            r.reason == StopReason::NeedOutput ==> forall|f: Seq<u8>|
                #![trigger final(self).spec_pending(src@.skip(r.bytes_read as int) + f)]
                final(self).spec_pending(src@.skip(r.bytes_read as int) + f) matches Some(o) ==> o.len() > 0,
            src@.len() == 0 ==> *final(self) == *old(self),
    {
        let ghost s0 = self.state;
        let ghost d0 = dst@;
        let src_len = src.len();
        let dst_len = dst.len();
        assert(d0.skip(0) =~= d0);
        if src_len == 0 {
            proof {
                lemma_advanced_refl(s0, src@, 0, d0, 0);
            }
            return UnpackResult { bytes_read: 0, words_written: 0, reason: StopReason::NeedInput };
        }
        let (mut si, mut di) = match self.state {
            Some(st) => {
                let (s, d, st2, stop) = resume(st, src, dst);
                self.state = st2;
                match stop {
                    Some(reason) => {
                        proof {
                            if reason == StopReason::NeedInput {
                                lemma_starved_means(st2);
                            } else {
                                lemma_owes_rest(st2, src@.skip(s as int));
                            }
                        }
                        return UnpackResult { bytes_read: s, words_written: d, reason };
                    },
                    None => (s, d),
                }
            },
            None => {
                proof {
                    lemma_advanced_refl(s0, src@, 0, d0, 0);
                }
                (0, 0)
            },
        };
        loop
            invariant
                src_len == src@.len(),
                src_len > 0,
                dst_len == dst@.len(),
                d0 == old(dst)@,
                s0 == old(self).state,
                self.state is None,
                advanced(s0, None, src@, 0, si as int, d0, dst@, 0, di as int),
            decreases src@.len() - si,
        {
            if si == src_len {
                return UnpackResult { bytes_read: si, words_written: di, reason: StopReason::NeedInput };
            }
            if di == dst_len {
                proof {
                    lemma_idle_rest(src@.skip(si as int));
                }
                return UnpackResult { bytes_read: si, words_written: di, reason: StopReason::NeedOutput };
            }
            let ghost d1 = dst@;
            let (s2, d2, st, stop) = unpack_item(src, si, dst, di);
            proof {
                lemma_advanced_trans(s0, None, st, src@, 0, si as int, s2 as int, d0, d1, dst@, 0, di as int, d2 as int);
            }
            si = s2;
            di = d2;
            match stop {
                Some(reason) => {
                    self.state = st;
                    proof {
                        if reason == StopReason::NeedInput {
                            lemma_starved_means(st);
                        } else {
                            lemma_owes_rest(st, src@.skip(si as int));
                        }
                    }
                    return UnpackResult { bytes_read: si, words_written: di, reason };
                },
                None => {},
            }
        }
    }
}

impl Unpacker {
    /// The number of bytes needed to finish the item the unpacker is in the middle of.
    pub closed spec fn spec_bytes_needed(&self) -> int {
        match self.state {
            None => 0,
            Some(IncompleteState::PartialWord(p)) => tag_count(p.spec_tag(), p.spec_pos()) as int,
            Some(IncompleteState::PartialUncompressed(p)) => 8 - p.spec_bytes().len() + 1,
            Some(IncompleteState::NeedNullCount) => 1,
            Some(IncompleteState::NeedUncompressedCount) => 1,
            Some(IncompleteState::WritingNulls(_)) => 0,
            Some(IncompleteState::WritingUncompressed { remaining, partial }) => 8 * remaining + (
            match partial {
                Some(p) => 8 - p.spec_bytes().len(),
                None => 0,
            }),
        }
    }

    /// Whether the unpacker holds a partially read word, and so needs room for a word of output
    /// before it can take more input.
    pub fn needs_word(&self) -> (r: bool)
        ensures
            r == self.spec_needs_word(),
    {
        match self.state {
            Some(IncompleteState::PartialWord(_)) => true,
            Some(IncompleteState::PartialUncompressed(_)) => true,
            Some(IncompleteState::WritingUncompressed { partial: Some(_), .. }) => true,
            _ => false,
        }
    }

    /// Finish unpacking. This returns an error if the unpacker was in the middle of an item,
    /// with the number of bytes needed to finish it.
    pub fn finish(&self) -> (r: Result<(), IncompleteError>)
        requires
            self.wf(),
        ensures
            r is Ok <==> self.spec_idle(),
            r matches Err(e) ==> e.bytes_needed == self.spec_bytes_needed(),
            r matches Err(e) ==> forall|f: Seq<u8>| f.len() < e.bytes_needed ==> #[trigger] self.spec_pending(f) is None,
            r matches Err(e) ==> self.spec_pending(zero_bytes(e.bytes_needed as nat)) is Some,
    {
        proof {
            if !self.spec_idle() {
                lemma_bytes_needed(*self);
            }
        }
        let bytes_needed = match self.state {
            Some(IncompleteState::PartialWord(partial)) => partial.needed_bytes(),
            Some(IncompleteState::PartialUncompressed(partial)) => partial.needed_bytes() + 1,
            Some(IncompleteState::NeedNullCount) => 1,
            Some(IncompleteState::NeedUncompressedCount) => 1,
            Some(IncompleteState::WritingNulls(_)) => 0,
            Some(IncompleteState::WritingUncompressed { remaining, partial }) => {
                let remaining_word_bytes = remaining * 8;
                let partial = match partial {
                    Some(p) => p.needed_bytes(),
                    None => 0,
                };
                remaining_word_bytes + partial
            },
            None => return Ok(()),
        };
        Err(IncompleteError { bytes_needed })
    }
}

/// An unpacker in the middle of an item needs as many more bytes as it reports to give
/// anything, and that many zero bytes are enough.
proof fn lemma_bytes_needed(u: Unpacker)
    requires
        u.wf(),
        !u.spec_idle(),
    ensures
        forall|f: Seq<u8>| f.len() < u.spec_bytes_needed() ==> #[trigger] u.spec_pending(f) is None,
        u.spec_pending(zero_bytes(u.spec_bytes_needed() as nat)) is Some,
{
    let n = u.spec_bytes_needed();
    let z = zero_bytes(n as nat);
    assert(unpack_spec(Seq::<u8>::empty()) == Some(Seq::<u8>::empty()));
    match u.state {
        Some(IncompleteState::PartialWord(p)) => {
            assert(z.skip(n) =~= Seq::<u8>::empty());
        },
        Some(IncompleteState::PartialUncompressed(p)) => {
            let b = p.spec_bytes() + z;
            assert(b.len() == 9);
            assert(b.skip(8) =~= seq![0u8]);
            assert(seq![0u8].skip(1) =~= Seq::<u8>::empty());
            assert forall|f: Seq<u8>| f.len() < n implies #[trigger] u.spec_pending(f) is None by {
                let c = p.spec_bytes() + f;
                if c.len() >= 8 {
                    assert(c.skip(8).len() == 0);
                }
            }
        },
        Some(IncompleteState::NeedNullCount) => {
            assert(z =~= seq![0u8]);
            assert(z.skip(1) =~= Seq::<u8>::empty());
        },
        Some(IncompleteState::NeedUncompressedCount) => {
            assert(z =~= seq![0u8]);
            assert(z.skip(1) =~= Seq::<u8>::empty());
        },
        Some(IncompleteState::WritingNulls(_)) => {
            assert(z =~= Seq::<u8>::empty());
        },
        Some(IncompleteState::WritingUncompressed { remaining, partial }) => {
            match partial {
                Some(p) => {
                    let need = 8 - p.spec_bytes().len();
                    assert(z.skip(need).len() == 8 * remaining);
                    assert(z.skip(need).skip(8 * remaining as int) =~= Seq::<u8>::empty());
                    assert forall|f: Seq<u8>| f.len() < n implies #[trigger] u.spec_pending(f) is None by {
                        if f.len() >= need {
                            assert(f.skip(need).len() < 8 * remaining);
                        }
                    }
                },
                None => {
                    assert(z.skip(8 * remaining as int) =~= Seq::<u8>::empty());
                },
            }
        },
        None => {},
    }
}

/// Unpacking with an idle unpacker all of a packed stream of the words `ws`, with room for
/// exactly `ws.len()` words, reads all of the stream, stops for want of input, writes the bytes
/// of `ws` and leaves the unpacker idle, so that finishing succeeds. The requirements on `r`,
/// `u1` and `out` are what `Unpacker::unpack` ensures of its result, the unpacker and the output
/// when called on `u0` with `src` and room for `ws.len()` words.
pub proof fn lemma_unpack_exactly(u0: Unpacker, src: Seq<u8>, ws: Seq<Word>, r: UnpackResult, u1: Unpacker, out: Seq<Word>)
    requires
        u0.spec_idle(),
        unpack_spec(src) == Some(words_bytes(ws)),
        out.len() == ws.len(),
        r.bytes_read <= src.len(),
        r.words_written <= ws.len(),
        forall|f: Seq<u8>|
            #![trigger u1.spec_pending(f)]
            u0.spec_pending(src.subrange(0, r.bytes_read as int) + f) == prepend(
                words_bytes(out.subrange(0, r.words_written as int)),
                u1.spec_pending(f),
            ),
        r.reason == StopReason::NeedInput ==> r.bytes_read == src.len(),
        r.reason == StopReason::NeedInput && src.len() > 0 ==> u1.spec_idle() || u1.spec_pending(Seq::empty()) is None,
        r.reason == StopReason::NeedOutput ==> r.words_written == ws.len(),
        r.reason == StopReason::NeedOutput ==> forall|f: Seq<u8>|
            #![trigger u1.spec_pending(src.skip(r.bytes_read as int) + f)]
            u1.spec_pending(src.skip(r.bytes_read as int) + f) matches Some(o) ==> o.len() > 0,
        src.len() == 0 ==> u1 == u0,
    ensures
        r.reason == StopReason::NeedInput,
        r.bytes_read == src.len(),
        u1.spec_idle(),
        r.words_written == ws.len(),
        words_bytes(out.subrange(0, r.words_written as int)) == words_bytes(ws),
{
    let read = r.bytes_read as int;
    let rest = src.skip(read);
    assert(src.subrange(0, read) + rest =~= src);
    let b = words_bytes(out.subrange(0, r.words_written as int));
    assert(u0.spec_pending(src.subrange(0, read) + rest) == prepend(b, u1.spec_pending(rest)));
    let x = u1.spec_pending(rest)->0;
    assert(b + x == words_bytes(ws));
    if r.reason == StopReason::NeedOutput {
        assert(rest + Seq::<u8>::empty() =~= rest);
        assert(u1.spec_pending(rest + Seq::<u8>::empty()) == u1.spec_pending(rest));
        assert(false);
    }
    assert(rest =~= Seq::<u8>::empty());
    if src.len() > 0 {
        assert(u1.spec_idle());
    }
    assert(u1.spec_pending(Seq::empty()) == unpack_spec(Seq::empty()));
    assert(x =~= Seq::<u8>::empty());
    assert(b + x =~= b);
}

/// Unpacking with a new unpacker all of the packed form of some words gives back the bytes of
/// the words.
pub proof fn lemma_unpacker_round_trip(u: Unpacker, ws: Seq<Word>)
    requires
        u.spec_idle(),
    ensures
        u.spec_pending(pack_spec(ws)) == Some(words_bytes(ws)),
{
    lemma_unpack_pack(ws);
}

} // verus!
