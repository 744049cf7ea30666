//! Reduction of a periodic pair list to one minimum-image pair.
//!
//! vesin enumerates periodic images, so a particle can appear as its
//! own neighbour through an image, and one neighbour can arrive through
//! several images at once. The minimum-image convention admits each
//! ordered pair once and never the self pair.

use vstd::prelude::*;

use crate::reduction::{
    is_reduction, is_self_pair, kept, pair_lt, reduction_on_integers, rows_of, strictly_sorted,
};
use crate::Error;

verus! {

fn pair_less(x: [i32; 2], y: [i32; 2]) -> (r: bool)
    ensures
        r == pair_lt(x, y),
{
    x[0] < y[0] || (x[0] == y[0] && x[1] < y[1])
}

/// Pushing `e` adds exactly `e` to the rows a list holds.
proof fn push_contains(s: Seq<[i32; 2]>, e: [i32; 2])
    ensures
        forall|x: [i32; 2]| #[trigger] s.push(e).contains(x) <==> (s.contains(x) || x == e),
{
    assert forall|x: [i32; 2]| #[trigger] s.push(e).contains(x) <==> (s.contains(x) || x == e) by {
        if s.contains(x) {
            let w = choose|w: int| 0 <= w < s.len() && s[w] == x;
            assert(s.push(e)[w] == x);
        }
        if x == e {
            assert(s.push(e)[s.len() as int] == e);
        }
        if s.push(e).contains(x) {
            let w = choose|w: int| 0 <= w < s.len() + 1 && s.push(e)[w] == x;
            if w < s.len() {
                assert(s[w] == x);
            }
        }
    }
}

/// Union of two strictly sorted row lists, strictly sorted.
fn merge_unique(a: &Vec<[i32; 2]>, b: &Vec<[i32; 2]>) -> (m: Vec<[i32; 2]>)
    requires
        strictly_sorted(a@),
        strictly_sorted(b@),
    ensures
        strictly_sorted(m@),
        forall|x: [i32; 2]| #[trigger] m@.contains(x) <==> (a@.contains(x) || b@.contains(x)),
        m.len() <= a.len() + b.len(),
{
    let mut m: Vec<[i32; 2]> = Vec::new();
    let mut i: usize = 0;
    let mut j: usize = 0;
    while i < a.len() || j < b.len()
        invariant
            strictly_sorted(a@),
            strictly_sorted(b@),
            i <= a.len(),
            j <= b.len(),
            m.len() <= i + j,
            strictly_sorted(m@),
            forall|k: int|
                0 <= k < m.len() ==> (exists|p: int| 0 <= p < i && a@[p] == #[trigger] m@[k]) || (
                exists|q: int| 0 <= q < j && b@[q] == m@[k]),
            forall|p: int| 0 <= p < i ==> m@.contains(#[trigger] a@[p]),
            forall|q: int| 0 <= q < j ==> m@.contains(#[trigger] b@[q]),
            forall|k: int|
                0 <= k < m.len() ==> (i < a.len() ==> pair_lt(#[trigger] m@[k], a@[i as int])),
            forall|k: int|
                0 <= k < m.len() ==> (j < b.len() ==> pair_lt(#[trigger] m@[k], b@[j as int])),
        decreases a.len() + b.len() - i - j,
    {
        let ghost old_m = m@;
        if j >= b.len() || (i < a.len() && pair_less(a[i], b[j])) {
            let e = a[i];
            m.push(e);
            proof {
                push_contains(old_m, e);
                assert(m@[old_m.len() as int] == a@[i as int]);
            }
            i = i + 1;
        } else if i >= a.len() || pair_less(b[j], a[i]) {
            let e = b[j];
            m.push(e);
            proof {
                push_contains(old_m, e);
                assert(m@[old_m.len() as int] == b@[j as int]);
            }
            j = j + 1;
        } else {
            let e = a[i];
            m.push(e);
            proof {
                assert(a@[i as int] =~= b@[j as int]);
                push_contains(old_m, e);
                assert(m@[old_m.len() as int] == a@[i as int]);
            }
            i = i + 1;
            j = j + 1;
        }
    }
    proof {
        assert forall|x: [i32; 2]| #[trigger] m@.contains(x) <==> (a@.contains(x) || b@.contains(x)) by {
            if m@.contains(x) {
                let k = choose|k: int| 0 <= k < m.len() && m@[k] == x;
                assert(m@[k] == x);
            }
            if a@.contains(x) {
                let p = choose|p: int| 0 <= p < a.len() && a@[p] == x;
                assert(m@.contains(a@[p]));
            }
            if b@.contains(x) {
                let q = choose|q: int| 0 <= q < b.len() && b@[q] == x;
                assert(m@.contains(b@[q]));
            }
        }
    }
    m
}

/// The kept rows of `v[lo..hi]`, each once, in ascending order.
fn sorted_unique(v: &[[i32; 2]], lo: usize, hi: usize) -> (r: Vec<[i32; 2]>)
    requires
        lo <= hi <= v@.len(),
    ensures
        strictly_sorted(r@),
        forall|x: [i32; 2]|
            #[trigger] r@.contains(x) <==> (!is_self_pair(x) && exists|k: int|
                lo <= k < hi && v@[k] == x),
        r.len() <= hi - lo,
    decreases hi - lo,
{
    if hi - lo == 0 {
        let r: Vec<[i32; 2]> = Vec::new();
        proof {
            assert forall|x: [i32; 2]| #[trigger] r@.contains(x) <==> (!is_self_pair(x) && exists|k: int|
                lo <= k < hi && v@[k] == x) by {}
        }
        r
    } else if hi - lo == 1 {
        let e = v[lo];
        let mut r: Vec<[i32; 2]> = Vec::new();
        if e[0] != e[1] {
            r.push(e);
        }
        proof {
            assert forall|x: [i32; 2]| #[trigger] r@.contains(x) <==> (!is_self_pair(x) && exists|k: int|
                lo <= k < hi && v@[k] == x) by {
                if r@.contains(x) {
                    assert(r@[0] == x);
                    assert(v@[lo as int] == x);
                }
                if !is_self_pair(x) && exists|k: int| lo <= k < hi && v@[k] == x {
                    assert(v@[lo as int] == x);
                    assert(r@[0] == x);
                }
            }
        }
        r
    } else {
        let mid = lo + (hi - lo) / 2;
        let left = sorted_unique(v, lo, mid);
        let right = sorted_unique(v, mid, hi);
        let r = merge_unique(&left, &right);
        proof {
            assert forall|x: [i32; 2]| #[trigger] r@.contains(x) <==> (!is_self_pair(x) && exists|k: int|
                lo <= k < hi && v@[k] == x) by {
                if !is_self_pair(x) && exists|k: int| lo <= k < hi && v@[k] == x {
                    let k = choose|k: int| lo <= k < hi && v@[k] == x;
                    if k < mid {
                        assert(left@.contains(x));
                    } else {
                        assert(right@.contains(x));
                    }
                }
            }
        }
        r
    }
}

/// Drop self images and collapse duplicate `(i, j)` rows.
///
/// Input is a list of signed index pairs. The kept rows, each once and
/// in ascending order, replace the contents of `out`. Returns the
/// number of kept pairs.
pub fn reduce_pairs(pairs: &[[i32; 2]], out: &mut Vec<[i32; 2]>) -> (r: Result<usize, Error>)
    ensures
        is_reduction(final(out)@, pairs@),
        r == Ok::<usize, Error>(final(out)@.len() as usize),
        final(out)@.len() <= pairs@.len(),
        forall|a: int, b: int|
            0 <= a < b < final(out)@.len() ==> (#[trigger] final(out)@[a])[0] < (
            #[trigger] final(out)@[b])[0] || (final(out)@[a][0] == final(out)@[b][0]
                && final(out)@[a][1] < final(out)@[b][1]),
        forall|k: int|
            0 <= k < final(out)@.len() ==> (#[trigger] final(out)@[k])[0] != final(out)@[k][1]
                && pairs@.contains(final(out)@[k]),
        forall|k: int|
            0 <= k < pairs@.len() && (#[trigger] pairs@[k])[0] != pairs@[k][1]
                ==> final(out)@.contains(pairs@[k]),
{
    out.clear();
    if pairs.is_empty() {
        proof {
            assert forall|x: [i32; 2]| #[trigger] out@.contains(x) <==> kept(pairs@, x) by {}
            reduction_on_integers(out@, pairs@);
        }
        return Ok(0);
    }
    let kept_rows = sorted_unique(pairs, 0, pairs.len());
    *out = kept_rows;
    proof {
        assert forall|x: [i32; 2]| #[trigger] out@.contains(x) <==> kept(pairs@, x) by {
            if pairs@.contains(x) {
                let k = choose|k: int| 0 <= k < pairs@.len() && pairs@[k] == x;
                assert(pairs@[k] == x);
            }
        }
        reduction_on_integers(out@, pairs@);
    }
    Ok(out.len())
}

/// Same reduction over a packed `n * 2` buffer.
///
/// `out` must have room for `n` pairs (`2 * n` ints): the kept rows are
/// written packed at its front and the rest of `out` is left as it was.
/// Writes the kept count into `out_n`. An odd `pairs` length or a short
/// `out` is [`Error::BufferSize`], and then nothing is written.
pub fn reduce_pairs_packed(pairs: &[i32], out: &mut [i32], out_n: &mut usize) -> (r: Result<(), Error>)
    ensures
        r is Err <==> (pairs@.len() % 2 != 0 || old(out)@.len() < pairs@.len()),
        r is Err ==> r == Err::<(), Error>(Error::BufferSize) && final(out)@ == old(out)@
            && *final(out_n) == *old(out_n),
        r is Ok ==> {
            &&& 2 * *final(out_n) <= pairs@.len()
            &&& final(out)@.len() == old(out)@.len()
            &&& is_reduction(rows_of(final(out)@.take(2 * *final(out_n))), rows_of(pairs@))
            &&& final(out)@.skip(2 * *final(out_n)) == old(out)@.skip(2 * *final(out_n))
        },
        r is Ok ==> forall|a: int, b: int|
            0 <= a < b < *final(out_n) ==> (#[trigger] rows_of(final(out)@)[a])[0] < (
            #[trigger] rows_of(final(out)@)[b])[0] || (rows_of(final(out)@)[a][0]
                == rows_of(final(out)@)[b][0] && rows_of(final(out)@)[a][1] < rows_of(final(out)@)[b][1]),
        r is Ok ==> forall|k: int|
            0 <= k < *final(out_n) ==> (#[trigger] rows_of(final(out)@)[k])[0]
                != rows_of(final(out)@)[k][1] && rows_of(pairs@).contains(rows_of(final(out)@)[k]),
        r is Ok ==> forall|k: int|
            0 <= k < pairs@.len() / 2 && (#[trigger] rows_of(pairs@)[k])[0] != rows_of(pairs@)[k][1]
                ==> rows_of(final(out)@.take(2 * *final(out_n))).contains(rows_of(pairs@)[k]),
{
    if pairs.len() % 2 != 0 {
        return Err(Error::BufferSize);
    }
    let n = pairs.len() / 2;
    if out.len() < pairs.len() {
        return Err(Error::BufferSize);
    }
    let ghost rows = rows_of(pairs@);
    let mut tmp: Vec<[i32; 2]> = Vec::with_capacity(n);
    let mut k: usize = 0;
    while k < n
        invariant
            2 * n == pairs@.len(),
            pairs@.len() <= usize::MAX,
            k <= n,
            tmp.len() <= k,
            rows == rows_of(pairs@),
            forall|t: int|
                0 <= t < tmp.len() ==> !is_self_pair(#[trigger] tmp@[t]) && exists|q: int|
                    0 <= q < k && rows[q] == tmp@[t],
            forall|q: int| 0 <= q < k && !is_self_pair(#[trigger] rows[q]) ==> tmp@.contains(rows[q]),
        decreases n - k,
    {
        let i = pairs[2 * k];
        let j = pairs[2 * k + 1];
        let ghost old_tmp = tmp@;
        if i != j {
            tmp.push([i, j]);
            proof {
                push_contains(old_tmp, [i, j]);
                assert(rows[k as int] == [i, j]);
                assert(tmp@[old_tmp.len() as int] == rows[k as int]);
            }
        } else {
            proof {
                assert(rows[k as int] == [i, j]);
            }
        }
        k = k + 1;
    }
    let kept_rows = sorted_unique(tmp.as_slice(), 0, tmp.len());
    proof {
        assert forall|x: [i32; 2]| #[trigger] kept_rows@.contains(x) <==> kept(rows, x) by {
            if kept_rows@.contains(x) {
                let t = choose|t: int| 0 <= t < tmp.len() && tmp@[t] == x;
                assert(!is_self_pair(tmp@[t]));
                let q = choose|q: int| 0 <= q < n && rows[q] == tmp@[t];
                assert(rows[q] == x);
            }
            if kept(rows, x) {
                let q = choose|q: int| 0 <= q < rows.len() && rows[q] == x;
                assert(tmp@.contains(rows[q]));
                let t = choose|t: int| 0 <= t < tmp.len() && tmp@[t] == rows[q];
                assert(tmp@[t] == x);
            }
        }
    }
    let m = kept_rows.len();
    *out_n = m;
    let ghost before = out@;
    let mut k: usize = 0;
    while k < m
        invariant
            k <= m,
            m == kept_rows@.len(),
            2 * m <= pairs@.len(),
            pairs@.len() <= before.len(),
            out@.len() == before.len(),
            before.len() <= usize::MAX,
            forall|q: int|
                0 <= q < k ==> out@[2 * q] == (#[trigger] kept_rows@[q])[0] && out@[2 * q + 1]
                    == kept_rows@[q][1],
            forall|t: int| 2 * k <= t < out@.len() ==> out@[t] == before[t],
        decreases m - k,
    {
        let row = kept_rows[k];
        out[2 * k] = row[0];
        out[2 * k + 1] = row[1];
        k = k + 1;
    }
    proof {
        let written = out@.take(2 * m);
        assert(rows_of(written).len() == kept_rows@.len());
        assert forall|q: int| 0 <= q < m implies rows_of(written)[q] == kept_rows@[q] by {
            assert(rows_of(written)[q] =~= kept_rows@[q]);
        }
        assert(rows_of(written) =~= kept_rows@);
        assert(out@.skip(2 * m) =~= before.skip(2 * m));
        reduction_on_integers(kept_rows@, rows);
        assert forall|q: int| 0 <= q < m implies rows_of(out@)[q] == kept_rows@[q] by {
            assert(rows_of(out@)[q] =~= kept_rows@[q]);
        }
        let packed = rows_of(out@);
        assert forall|a: int, b: int| 0 <= a < b < m implies (#[trigger] packed[a])[0] < (
        #[trigger] packed[b])[0] || (packed[a][0] == packed[b][0] && packed[a][1] < packed[b][1]) by {
            assert(packed[a] == kept_rows@[a]);
            assert(packed[b] == kept_rows@[b]);
        }
        assert forall|q: int| 0 <= q < m implies (#[trigger] packed[q])[0] != packed[q][1]
            && rows.contains(packed[q]) by {
            assert(packed[q] == kept_rows@[q]);
        }
    }
    Ok(())
}

} // verus!
