//! Laws of comparing what pointers refer to, run by run: a run of pointers, or of structs,
//! compares as its pairs do.

use vstd::prelude::*;
use crate::allocator::Word;
use crate::ptr::{
    lemma_compare_composites_unlimited, lemma_compare_ptr_unlimited, lemma_compare_ptrs_unlimited,
    lemma_compare_struct_unlimited, spec_compare_composites, spec_compare_list, spec_compare_ptr, spec_compare_ptrs,
    spec_compare_struct, list_byte, ElementSize, EqRead, PtrEquality, ReadState, StructSize,
};

verus! {

/// With no limits, a run of pointers compares equal exactly when each pair of pointers does,
/// and not equal exactly when some pair does.
#[verifier::rlimit(40)]
#[verifier::spinoff_prover]
pub proof fn lemma_compare_ptrs_pairwise(sa: Seq<Seq<Word>>, sta: ReadState, a: int, sb: Seq<Seq<Word>>, stb: ReadState, b: int, n: int, nesting: int)
    requires
        sta.limit is None,
        stb.limit is None,
        n >= 0,
    ensures
        spec_compare_ptrs(sa, sta, a, sb, stb, b, n, nesting) matches EqRead::Done(_, _, e) ==> (e == PtrEquality::Equal <==> forall|k: int|
            0 <= k < n ==> #[trigger] spec_compare_ptr(sa, sta, a + k, sb, stb, b + k, nesting) == EqRead::Done(
                None,
                None,
                PtrEquality::Equal,
            )) && (e == PtrEquality::NotEqual <==> exists|k: int|
            0 <= k < n && #[trigger] spec_compare_ptr(sa, sta, a + k, sb, stb, b + k, nesting) == EqRead::Done(
                None,
                None,
                PtrEquality::NotEqual,
            )),
    decreases n,
{
    if n > 0 {
        lemma_compare_ptrs_pairwise(sa, sta, a, sb, stb, b, n - 1, nesting);
        lemma_compare_ptrs_unlimited(sa, sta, a, sb, stb, b, n - 1, nesting);
        assert(ReadState { segment: sta.segment, limit: None } == sta);
        assert(ReadState { segment: stb.segment, limit: None } == stb);
        lemma_compare_ptr_unlimited(sa, sta, a + (n - 1), sb, stb, b + (n - 1), nesting);
        assert(a + n - 1 == a + (n - 1) && b + n - 1 == b + (n - 1));
        if let EqRead::Done(la, lb, e0) = spec_compare_ptrs(sa, sta, a, sb, stb, b, n - 1, nesting) {
            let last = spec_compare_ptr(sa, sta, a + (n - 1), sb, stb, b + (n - 1), nesting);
            if e0 == PtrEquality::NotEqual {
                let k = choose|k: int| 0 <= k < n - 1 && #[trigger] spec_compare_ptr(sa, sta, a + k, sb, stb, b + k, nesting)
                    == EqRead::Done(None, None, PtrEquality::NotEqual);
                assert(spec_compare_ptr(sa, sta, a + k, sb, stb, b + k, nesting) != EqRead::Done(None, None, PtrEquality::Equal));
            } else {
                if let EqRead::Done(l2, m2, e2) = last {
                    if e2 == PtrEquality::NotEqual {
                        assert(spec_compare_ptr(sa, sta, a + (n - 1), sb, stb, b + (n - 1), nesting) != EqRead::Done(
                            None,
                            None,
                            PtrEquality::Equal,
                        ));
                    }
                    if forall|k: int| 0 <= k < n - 1 ==> #[trigger] spec_compare_ptr(sa, sta, a + k, sb, stb, b + k, nesting)
                        == EqRead::Done(None, None, PtrEquality::Equal) {
                        if e2 == PtrEquality::Equal {
                            assert forall|k: int| 0 <= k < n implies #[trigger] spec_compare_ptr(sa, sta, a + k, sb, stb, b + k, nesting)
                                == EqRead::Done(None, None, PtrEquality::Equal) by {
                                if k == n - 1 {
                                }
                            }
                        }
                    } else {
                        let k = choose|k: int| 0 <= k < n - 1 && !(#[trigger] spec_compare_ptr(sa, sta, a + k, sb, stb, b + k, nesting)
                            == EqRead::Done(None, None, PtrEquality::Equal));
                        assert(0 <= k < n);
                    }
                    if exists|k: int| 0 <= k < n && #[trigger] spec_compare_ptr(sa, sta, a + k, sb, stb, b + k, nesting)
                        == EqRead::Done(None, None, PtrEquality::NotEqual) {
                        let k = choose|k: int| 0 <= k < n && #[trigger] spec_compare_ptr(sa, sta, a + k, sb, stb, b + k, nesting)
                            == EqRead::Done(None, None, PtrEquality::NotEqual);
                        if k < n - 1 {
                            assert(false);
                        }
                    }
                }
            }
        }
    }
}

/// With no limits, a run of structs of a struct list compares equal exactly when each pair of
/// structs does, and not equal exactly when some pair does.
#[verifier::rlimit(40)]
#[verifier::spinoff_prover]
pub proof fn lemma_compare_composites_pairwise(sa: Seq<Seq<Word>>, sta: ReadState, a: int, x: StructSize, sb: Seq<Seq<Word>>, stb: ReadState, b: int, y: StructSize, n: int, nesting: int)
    requires
        sta.limit is None,
        stb.limit is None,
        n >= 0,
    ensures
        spec_compare_composites(sa, sta, a, x, sb, stb, b, y, n, nesting) matches EqRead::Done(_, _, e) ==> (e == PtrEquality::Equal <==> forall|k: int|
            0 <= k < n ==> #[trigger] spec_compare_struct(sa, sta, a + k * x.spec_total(), x, sb, stb, b + k * y.spec_total(), y, nesting) == EqRead::Done(
                None,
                None,
                PtrEquality::Equal,
            )) && (e == PtrEquality::NotEqual <==> exists|k: int|
            0 <= k < n && #[trigger] spec_compare_struct(sa, sta, a + k * x.spec_total(), x, sb, stb, b + k * y.spec_total(), y, nesting) == EqRead::Done(
                None,
                None,
                PtrEquality::NotEqual,
            )),
    decreases n,
{
    if n > 0 {
        lemma_compare_composites_pairwise(sa, sta, a, x, sb, stb, b, y, n - 1, nesting);
        lemma_compare_composites_unlimited(sa, sta, a, x, sb, stb, b, y, n - 1, nesting);
        assert(ReadState { segment: sta.segment, limit: None } == sta);
        assert(ReadState { segment: stb.segment, limit: None } == stb);
        lemma_compare_struct_unlimited(sa, sta, a + (n - 1) * x.spec_total(), x, sb, stb, b + (n - 1) * y.spec_total(), y, nesting);
        
        if let EqRead::Done(la, lb, e0) = spec_compare_composites(sa, sta, a, x, sb, stb, b, y, n - 1, nesting) {
            let last = spec_compare_struct(sa, sta, a + (n - 1) * x.spec_total(), x, sb, stb, b + (n - 1) * y.spec_total(), y, nesting);
            if e0 == PtrEquality::NotEqual {
                let k = choose|k: int| 0 <= k < n - 1 && #[trigger] spec_compare_struct(sa, sta, a + k * x.spec_total(), x, sb, stb, b + k * y.spec_total(), y, nesting)
                    == EqRead::Done(None, None, PtrEquality::NotEqual);
                assert(spec_compare_struct(sa, sta, a + k * x.spec_total(), x, sb, stb, b + k * y.spec_total(), y, nesting) != EqRead::Done(None, None, PtrEquality::Equal));
            } else {
                if let EqRead::Done(l2, m2, e2) = last {
                    if e2 == PtrEquality::NotEqual {
                        assert(spec_compare_struct(sa, sta, a + (n - 1) * x.spec_total(), x, sb, stb, b + (n - 1) * y.spec_total(), y, nesting) != EqRead::Done(
                            None,
                            None,
                            PtrEquality::Equal,
                        ));
                    }
                    if forall|k: int| 0 <= k < n - 1 ==> #[trigger] spec_compare_struct(sa, sta, a + k * x.spec_total(), x, sb, stb, b + k * y.spec_total(), y, nesting)
                        == EqRead::Done(None, None, PtrEquality::Equal) {
                        if e2 == PtrEquality::Equal {
                            assert forall|k: int| 0 <= k < n implies #[trigger] spec_compare_struct(sa, sta, a + k * x.spec_total(), x, sb, stb, b + k * y.spec_total(), y, nesting)
                                == EqRead::Done(None, None, PtrEquality::Equal) by {
                                if k == n - 1 {
                                }
                            }
                        }
                    } else {
                        let k = choose|k: int| 0 <= k < n - 1 && !(#[trigger] spec_compare_struct(sa, sta, a + k * x.spec_total(), x, sb, stb, b + k * y.spec_total(), y, nesting)
                            == EqRead::Done(None, None, PtrEquality::Equal));
                        assert(0 <= k < n);
                    }
                    if exists|k: int| 0 <= k < n && #[trigger] spec_compare_struct(sa, sta, a + k * x.spec_total(), x, sb, stb, b + k * y.spec_total(), y, nesting)
                        == EqRead::Done(None, None, PtrEquality::NotEqual) {
                        let k = choose|k: int| 0 <= k < n && #[trigger] spec_compare_struct(sa, sta, a + k * x.spec_total(), x, sb, stb, b + k * y.spec_total(), y, nesting)
                            == EqRead::Done(None, None, PtrEquality::NotEqual);
                        if k < n - 1 {
                            assert(false);
                        }
                    }
                }
            }
        }
    }
}

/// Two lists of `n` pointers compare as their runs of pointers do, pair by pair; two struct
/// lists of `n` structs as their runs of structs do.
pub proof fn lemma_lists_compare_elementwise(
    sa: Seq<Seq<Word>>,
    sta: ReadState,
    a: int,
    sb: Seq<Seq<Word>>,
    stb: ReadState,
    b: int,
    x: StructSize,
    y: StructSize,
    n: int,
    nesting: int,
)
    requires
        n > 0,
    ensures
        spec_compare_list(sa, sta, a, ElementSize::Pointer, n, sb, stb, b, ElementSize::Pointer, n, nesting) == spec_compare_ptrs(
            sa,
            sta,
            a,
            sb,
            stb,
            b,
            n,
            nesting,
        ),
        spec_compare_list(
            sa,
            sta,
            a,
            ElementSize::InlineComposite(x),
            n,
            sb,
            stb,
            b,
            ElementSize::InlineComposite(y),
            n,
            nesting,
        ) == spec_compare_composites(sa, sta, a, x, sb, stb, b, y, n, nesting),
{
}

/// Two structs with the same data section compare as the pointers both have do, pair by pair.
pub proof fn lemma_struct_compares_pointers(
    sa: Seq<Seq<Word>>,
    sta: ReadState,
    a: int,
    x: StructSize,
    sb: Seq<Seq<Word>>,
    stb: ReadState,
    b: int,
    y: StructSize,
    nesting: int,
)
    requires
        x.data == y.data,
        0 <= a,
        0 <= b,
        a + x.data <= sa[sta.segment as int].len(),
        b + y.data <= sb[stb.segment as int].len(),
        forall|k: int| 0 <= k < 8 * x.data ==> #[trigger] list_byte(sa[sta.segment as int], a, k) == list_byte(sb[stb.segment as int], b, k),
    ensures
        spec_compare_struct(sa, sta, a, x, sb, stb, b, y, nesting) == spec_compare_ptrs(
            sa,
            sta,
            a + x.data,
            sb,
            stb,
            b + y.data,
            if x.ptrs <= y.ptrs {
                x.ptrs as int
            } else {
                y.ptrs as int
            },
            nesting,
        ),
{
    let da = crate::allocator::words_bytes(sa[sta.segment as int].subrange(a, a + x.data));
    let db = crate::allocator::words_bytes(sb[stb.segment as int].subrange(b, b + y.data));
    assert forall|k: int| 0 <= k < da.len() implies da[k] == db[k] by {
        assert(da[k] == list_byte(sa[sta.segment as int], a, k));
        assert(db[k] == list_byte(sb[stb.segment as int], b, k));
    }
    assert(da =~= db);
}

} // verus!
