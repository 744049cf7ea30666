//! What a reduced pair list is, and the laws that every reduction obeys.
//!
//! A reduction of a list of `(i, j)` rows keeps the rows that are not
//! self pairs, each once, in ascending lexicographic order. That pins
//! the result down: two reductions of the same rows are one list.

use vstd::prelude::*;

verus! {

/// Lexicographic order on `(i, j)` rows: the order of `[i32; 2]`.
pub open spec fn pair_lt(x: [i32; 2], y: [i32; 2]) -> bool {
    x[0] < y[0] || (x[0] == y[0] && x[1] < y[1])
}

/// Every row is strictly below the next: sorted, and no row twice.
pub open spec fn strictly_sorted(s: Seq<[i32; 2]>) -> bool {
    forall|i: int, j: int| 0 <= i < j < s.len() ==> pair_lt(#[trigger] s[i], #[trigger] s[j])
}

/// A self image: a particle paired with itself.
pub open spec fn is_self_pair(x: [i32; 2]) -> bool {
    x[0] == x[1]
}

/// The row `x` survives the reduction of `pairs`: it occurs and is not a self pair.
pub open spec fn kept(pairs: Seq<[i32; 2]>, x: [i32; 2]) -> bool {
    pairs.contains(x) && !is_self_pair(x)
}

/// `out` is the reduction of `pairs`: the rows of `pairs` that are not
/// self pairs, each once, in ascending order.
pub open spec fn is_reduction(out: Seq<[i32; 2]>, pairs: Seq<[i32; 2]>) -> bool {
    &&& strictly_sorted(out)
    &&& forall|x: [i32; 2]| #[trigger] out.contains(x) <==> kept(pairs, x)
}

/// The rows of a packed `n * 2` buffer: row `k` is `[flat[2k], flat[2k + 1]]`.
pub open spec fn rows_of(flat: Seq<i32>) -> Seq<[i32; 2]> {
    Seq::new(flat.len() / 2, |k: int| [flat[2 * k], flat[2 * k + 1]])
}

/// A strictly sorted list has its first row below every later one.
proof fn first_is_least(s: Seq<[i32; 2]>, k: int)
    requires
        strictly_sorted(s),
        0 < k < s.len(),
    ensures
        pair_lt(s[0], s[k]),
{
}

/// Two strictly sorted lists that hold the same rows are the same list.
pub proof fn sorted_rows_are_determined_by_their_set(a: Seq<[i32; 2]>, b: Seq<[i32; 2]>)
    requires
        strictly_sorted(a),
        strictly_sorted(b),
        forall|x: [i32; 2]| a.contains(x) <==> b.contains(x),
    ensures
        a == b,
    decreases a.len(),
{
    if a.len() == 0 {
        if b.len() > 0 {
            assert(b.contains(b[0]));
        }
        assert(a =~= b);
    } else {
        assert(a.contains(a[0]));
        assert(b.contains(a[0]));
        let k = choose|k: int| 0 <= k < b.len() && b[k] == a[0];
        assert(b.contains(b[0]));
        assert(a.contains(b[0]));
        let p = choose|p: int| 0 <= p < a.len() && a[p] == b[0];
        if k > 0 {
            first_is_least(b, k);
            if p > 0 {
                first_is_least(a, p);
            }
            assert(false);
        }
        assert(b[0] == a[0]);
        let ta = a.drop_first();
        let tb = b.drop_first();
        assert forall|x: [i32; 2]| ta.contains(x) <==> tb.contains(x) by {
            if ta.contains(x) {
                let i = choose|i: int| 0 <= i < ta.len() && ta[i] == x;
                assert(a[i + 1] == x);
                assert(a.contains(x));
                let j = choose|j: int| 0 <= j < b.len() && b[j] == x;
                first_is_least(a, i + 1);
                if j == 0 {
                    assert(false);
                }
                assert(tb[j - 1] == x);
            }
            if tb.contains(x) {
                let j = choose|j: int| 0 <= j < tb.len() && tb[j] == x;
                assert(b[j + 1] == x);
                assert(b.contains(x));
                let i = choose|i: int| 0 <= i < a.len() && a[i] == x;
                first_is_least(b, j + 1);
                if i == 0 {
                    assert(false);
                }
                assert(ta[i - 1] == x);
            }
        }
        assert(strictly_sorted(ta));
        assert(strictly_sorted(tb));
        sorted_rows_are_determined_by_their_set(ta, tb);
        assert(a =~= seq![a[0]] + ta);
        assert(b =~= seq![b[0]] + tb);
    }
}

/// A list of rows has exactly one reduction.
pub proof fn reduction_is_unique(a: Seq<[i32; 2]>, b: Seq<[i32; 2]>, pairs: Seq<[i32; 2]>)
    requires
        is_reduction(a, pairs),
        is_reduction(b, pairs),
    ensures
        a == b,
{
    assert forall|x: [i32; 2]| a.contains(x) <==> b.contains(x) by {
        assert(a.contains(x) <==> kept(pairs, x));
        assert(b.contains(x) <==> kept(pairs, x));
    }
    sorted_rows_are_determined_by_their_set(a, b);
}

/// A reduced list admits each ordered pair once and never a self pair.
pub proof fn reduction_has_each_pair_once_and_no_self_pair(out: Seq<[i32; 2]>, pairs: Seq<[i32; 2]>)
    requires
        is_reduction(out, pairs),
    ensures
        out.no_duplicates(),
        forall|k: int| 0 <= k < out.len() ==> !is_self_pair(#[trigger] out[k]),
{
    assert forall|i: int, j: int| 0 <= i < out.len() && 0 <= j < out.len() && i != j implies out[i]
        != out[j] by {
        if i < j {
            assert(pair_lt(out[i], out[j]));
        } else {
            assert(pair_lt(out[j], out[i]));
        }
    }
    assert forall|k: int| 0 <= k < out.len() implies !is_self_pair(#[trigger] out[k]) by {
        assert(out.contains(out[k]));
        assert(kept(pairs, out[k]));
    }
}

/// Reducing a reduced list gives it back unchanged.
pub proof fn reduction_is_idempotent(out: Seq<[i32; 2]>, pairs: Seq<[i32; 2]>, again: Seq<[i32; 2]>)
    requires
        is_reduction(out, pairs),
        is_reduction(again, out),
    ensures
        again == out,
{
    assert forall|x: [i32; 2]| #[trigger] out.contains(x) <==> kept(out, x) by {
        if out.contains(x) {
            assert(kept(pairs, x));
        }
    }
    assert(is_reduction(out, out));
    reduction_is_unique(again, out, out);
}

/// The reduction depends only on which non-self rows occur: the order
/// of the rows, how many images repeat a row, and self images do not
/// change it.
pub proof fn reduction_depends_only_on_kept_rows(
    p1: Seq<[i32; 2]>,
    p2: Seq<[i32; 2]>,
    a: Seq<[i32; 2]>,
    b: Seq<[i32; 2]>,
)
    requires
        forall|x: [i32; 2]| kept(p1, x) <==> kept(p2, x),
        is_reduction(a, p1),
        is_reduction(b, p2),
    ensures
        a == b,
{
    assert(is_reduction(b, p1));
    reduction_is_unique(a, b, p1);
}

/// The packed reduction of a buffer holds the same rows as the row
/// reduction of the pairs that the buffer packs.
pub proof fn packed_reduction_matches_rows(
    rows: Seq<[i32; 2]>,
    flat: Seq<i32>,
    from_rows: Seq<[i32; 2]>,
    from_flat: Seq<[i32; 2]>,
)
    requires
        flat.len() == 2 * rows.len(),
        forall|k: int|
            0 <= k < rows.len() ==> flat[2 * k] == (#[trigger] rows[k])[0] && flat[2 * k + 1]
                == rows[k][1],
        is_reduction(from_rows, rows),
        is_reduction(from_flat, rows_of(flat)),
    ensures
        from_rows == from_flat,
{
    assert forall|k: int| 0 <= k < rows.len() implies rows_of(flat)[k] == rows[k] by {
        assert(rows_of(flat)[k] =~= rows[k]);
    }
    assert(rows_of(flat) =~= rows);
    reduction_is_unique(from_rows, from_flat, rows);
}

/// What a reduction is, on the integers of its rows: the rows ascend
/// strictly in the order of `(i, j)` (first by `i`, then by `j`), no row
/// pairs a particle with itself, every row comes from the input, and
/// every input row `[i, j]` with `i != j` is among them.
pub proof fn reduction_on_integers(out: Seq<[i32; 2]>, pairs: Seq<[i32; 2]>)
    requires
        is_reduction(out, pairs),
    ensures
        forall|a: int, b: int|
            0 <= a < b < out.len() ==> (#[trigger] out[a])[0] < (#[trigger] out[b])[0] || (out[a][0]
                == out[b][0] && out[a][1] < out[b][1]),
        forall|k: int| 0 <= k < out.len() ==> (#[trigger] out[k])[0] != out[k][1],
        forall|k: int| 0 <= k < out.len() ==> pairs.contains(#[trigger] out[k]),
        forall|k: int|
            0 <= k < pairs.len() && (#[trigger] pairs[k])[0] != pairs[k][1] ==> out.contains(pairs[k]),
{
    assert forall|a: int, b: int| 0 <= a < b < out.len() implies (#[trigger] out[a])[0] < (
    #[trigger] out[b])[0] || (out[a][0] == out[b][0] && out[a][1] < out[b][1]) by {
        assert(pair_lt(out[a], out[b]));
    }
    assert forall|k: int| 0 <= k < out.len() implies (#[trigger] out[k])[0] != out[k][1]
        && pairs.contains(out[k]) by {
        assert(out.contains(out[k]));
        assert(kept(pairs, out[k]));
    }
    assert forall|k: int| 0 <= k < pairs.len() && (#[trigger] pairs[k])[0] != pairs[k][1] implies out.contains(
        pairs[k]) by {
        assert(pairs.contains(pairs[k]));
        assert(kept(pairs, pairs[k]));
    }
}

/// Row `k` of a packed buffer is `[flat[2k], flat[2k + 1]]`, and the
/// buffer has `len / 2` rows.
pub proof fn packed_rows_read_consecutive_ints(flat: Seq<i32>)
    ensures
        rows_of(flat).len() == flat.len() / 2,
        forall|k: int|
            0 <= k < flat.len() / 2 ==> (#[trigger] rows_of(flat)[k])[0] == flat[2 * k]
                && rows_of(flat)[k][1] == flat[2 * k + 1],
{
}

} // verus!
