//! Coordinate enumeration: walking every cell of a box in row-major order
//! with a mixed-radix odometer, and enumerating the Chebyshev-distance-one
//! neighborhood of a coordinate, clipped to the board's bounds.

use vstd::prelude::*;
use vstd::slice::slice_to_vec;

use crate::codec::{flat, in_box, inc_at, total, lemma_flat_bound, lemma_flat_injective,
    lemma_flat_step, lemma_flat_all_max, lemma_flat_zero, lemma_total_zero_axis};

verus! {

/// Absolute difference of two axis components.
pub open spec fn dist(a: usize, b: usize) -> nat {
    if a >= b {
        (a - b) as nat
    } else {
        (b - a) as nat
    }
}

/// Chebyshev adjacency: within distance one on every axis simultaneously.
/// A coordinate is its own neighbor under this relation.
pub open spec fn is_nbr(a: Seq<usize>, b: Seq<usize>) -> bool {
    a.len() == b.len() && forall|i: int| 0 <= i < a.len() ==> dist(a[i], b[i]) <= 1
}

/// Componentwise difference (meaningful when `a[i] >= b[i]` on every axis).
pub open spec fn seq_sub(a: Seq<usize>, b: Seq<usize>) -> Seq<usize> {
    Seq::new(a.len(), |i: int| (a[i] - b[i]) as usize)
}

/// Greatest componentwise distance over paired axes.
pub open spec fn cheb(a: Seq<usize>, b: Seq<usize>) -> nat
    decreases a.len(),
{
    if a.len() == 0 {
        0
    } else {
        let d = dist(a.last(), b.last());
        let m = cheb(a.drop_last(), b.drop_last());
        if d >= m {
            d
        } else {
            m
        }
    }
}

/// Lower bound, per axis, of the neighborhood box of `at`: one below the
/// coordinate, clamped at zero.
pub open spec fn nbr_lo(at: Seq<usize>) -> Seq<usize> {
    Seq::new(at.len(), |i: int| if at[i] > 0 { (at[i] - 1) as usize } else { 0 })
}

/// Exclusive upper bound, per axis, of the neighborhood box of `at`: two
/// above the coordinate, clamped at the axis size.
pub open spec fn nbr_hi(at: Seq<usize>, dims: Seq<usize>) -> Seq<usize> {
    Seq::new(at.len(), |i: int| if at[i] + 2 <= dims[i] { (at[i] + 2) as usize } else { dims[i] })
}

/// Per-axis candidate counts of the neighborhood box: 3 on an interior axis,
/// 2 at a boundary (1 on an axis of size 1).
pub open spec fn nbr_dims(at: Seq<usize>, dims: Seq<usize>) -> Seq<usize> {
    seq_sub(nbr_hi(at, dims), nbr_lo(at))
}

/// The `k`-th entry a box walk must produce: inside `[lo, hi)` on every
/// axis, with row-major rank `k` relative to the box.
pub open spec fn box_entry_ok(e: Seq<usize>, lo: Seq<usize>, hi: Seq<usize>, k: int) -> bool {
    e.len() == lo.len()
    && (forall|j: int| 0 <= j < lo.len() ==> lo[j] <= #[trigger] e[j] && e[j] < hi[j])
    && flat(seq_sub(e, lo), seq_sub(hi, lo)) == k
}

/// A full list of rank-indexed box entries lists every coordinate of the box
/// exactly once.
proof fn lemma_box_entries(entries: Seq<Seq<usize>>, lo: Seq<usize>, hi: Seq<usize>)
    requires
        lo.len() == hi.len(),
        entries.len() == total(seq_sub(hi, lo)),
        forall|k: int| 0 <= k < entries.len() ==> box_entry_ok(#[trigger] entries[k], lo, hi, k),
    ensures
        forall|c: Seq<usize>|
            c.len() == lo.len() && (forall|j: int| 0 <= j < lo.len() ==> lo[j] <= #[trigger] c[j] && c[j] < hi[j])
                ==> exists|k: int| 0 <= k < entries.len() && entries[k] == c,
        forall|k1: int, k2: int|
            0 <= k1 < entries.len() && 0 <= k2 < entries.len() && k1 != k2 ==> entries[k1]
                != entries[k2],
{
    let dims = seq_sub(hi, lo);
    assert forall|c: Seq<usize>|
        c.len() == lo.len() && (forall|j: int| 0 <= j < lo.len() ==> lo[j] <= #[trigger] c[j] && c[j] < hi[j])
        implies exists|k: int| 0 <= k < entries.len() && entries[k] == c by {
        let rel = seq_sub(c, lo);
        assert(in_box(rel, dims));
        lemma_flat_bound(rel, dims);
        let k = flat(rel, dims) as int;
        let e = entries[k];
        assert(box_entry_ok(e, lo, hi, k));
        assert(in_box(seq_sub(e, lo), dims));
        lemma_flat_injective(seq_sub(e, lo), rel, dims);
        assert forall|j: int| 0 <= j < c.len() implies e[j] == c[j] by {
            assert(seq_sub(e, lo)[j] == seq_sub(c, lo)[j]);
        }
        assert(e =~= c);
        assert(0 <= k < entries.len() && entries[k] == c);
    }
    assert forall|k1: int, k2: int|
        0 <= k1 < entries.len() && 0 <= k2 < entries.len() && k1 != k2 implies entries[k1]
        != entries[k2] by {
        assert(box_entry_ok(entries[k1], lo, hi, k1));
        assert(box_entry_ok(entries[k2], lo, hi, k2));
    }
}

/// One odometer step: increment the last axis that has room, resetting every
/// axis after it; reports whether a further coordinate exists.
fn advance(cur: &mut Vec<usize>, lo: &[usize], hi: &[usize]) -> (more: bool)
    requires
        lo@.len() == hi@.len(),
        old(cur)@.len() == lo@.len(),
        forall|j: int| 0 <= j < lo@.len() ==> lo@[j] <= #[trigger] old(cur)@[j] && old(cur)@[j] < hi@[j],
    ensures
        final(cur)@.len() == lo@.len(),
        more ==> (forall|j: int|
            0 <= j < lo@.len() ==> lo@[j] <= #[trigger] final(cur)@[j] && final(cur)@[j] < hi@[j])
            && flat(seq_sub(final(cur)@, lo@), seq_sub(hi@, lo@)) == flat(
            seq_sub(old(cur)@, lo@),
            seq_sub(hi@, lo@),
        ) + 1,
        !more ==> forall|j: int| 0 <= j < lo@.len() ==> old(cur)@[j] == hi@[j] - 1,
{
    let n = lo.len();
    let ghost orig: Seq<usize> = cur@;
    let mut i: usize = n;
    while i > 0
        invariant
            n == lo@.len(),
            hi@.len() == n,
            cur@.len() == n,
            orig == old(cur)@,
            orig.len() == n,
            i <= n,
            forall|j: int| 0 <= j < n ==> lo@[j] <= #[trigger] orig[j] && orig[j] < hi@[j],
            forall|j: int| 0 <= j < i ==> cur@[j] == #[trigger] orig[j],
            forall|j: int| i <= j < n ==> cur@[j] == #[trigger] lo@[j],
            forall|j: int| i <= j < n ==> #[trigger] orig[j] == hi@[j] - 1,
        decreases i,
    {
        i -= 1;
        let v = cur[i];
        assert(v == orig[i as int]);
        assert(v < hi@[i as int]);
        if v + 1 < hi[i] {
            cur[i] = v + 1;
            proof {
                let dims = seq_sub(hi@, lo@);
                let rel_old = seq_sub(orig, lo@);
                assert forall|j: int| 0 <= j < n implies #[trigger] rel_old[j] < dims[j] by {
                    assert(lo@[j] <= orig[j] && orig[j] < hi@[j]);
                }
                assert(in_box(rel_old, dims));
                assert forall|j: int| i < j < n implies #[trigger] rel_old[j] == dims[j] - 1 by {
                    assert(orig[j] == hi@[j] - 1 && lo@[j] <= orig[j]);
                }
                assert(rel_old[i as int] + 1 < dims[i as int]);
                lemma_flat_step(rel_old, dims, i as int);
                assert(seq_sub(cur@, lo@) =~= inc_at(rel_old, i as int));
                assert forall|j: int| 0 <= j < n implies lo@[j] <= #[trigger] cur@[j] && cur@[j]
                    < hi@[j] by {
                    assert(lo@[j] <= orig[j] && orig[j] < hi@[j]);
                }
            }
            return true;
        }
        cur[i] = lo[i];
        assert forall|j: int| i <= j < n implies cur@[j] == lo@[j] && orig[j] == hi@[j] - 1 by {
            if j > i {
                assert(orig[j] == hi@[j] - 1);
                assert(cur@[j] == lo@[j]);
            } else {
                assert(cur@[i as int] == lo@[i as int]);
                assert(orig[i as int] == hi@[i as int] - 1);
            }
        }
    }
    false
}

/// Every coordinate of the box `[lo, hi)`, in row-major order.
fn enum_box(lo: &[usize], hi: &[usize]) -> (r: Vec<Vec<usize>>)
    requires
        lo@.len() == hi@.len(),
        forall|j: int| 0 <= j < lo@.len() ==> #[trigger] lo@[j] <= hi@[j],
    ensures
        r@.len() == total(seq_sub(hi@, lo@)),
        forall|k: int| 0 <= k < r@.len() ==> box_entry_ok(#[trigger] r@[k]@, lo@, hi@, k),
{
    let n = lo.len();
    let ghost dims = seq_sub(hi@, lo@);
    let mut chk: usize = 0;
    while chk < n
        invariant
            n == lo@.len(),
            hi@.len() == n,
            chk <= n,
            forall|j: int| 0 <= j < chk ==> #[trigger] lo@[j] < hi@[j],
            forall|j: int| 0 <= j < n ==> #[trigger] lo@[j] <= hi@[j],
        decreases n - chk,
    {
        if hi[chk] == lo[chk] {
            proof {
                assert(seq_sub(hi@, lo@)[chk as int] == 0);
                lemma_total_zero_axis(seq_sub(hi@, lo@), chk as int);
            }
            return Vec::new();
        }
        chk += 1;
    }
    let mut cur: Vec<usize> = slice_to_vec(lo);
    let mut out: Vec<Vec<usize>> = Vec::new();
    let mut more = true;
    proof {
        assert(seq_sub(cur@, lo@) =~= Seq::new(n as nat, |j: int| 0usize));
        lemma_flat_zero(seq_sub(cur@, lo@), dims);
    }
    while more
        invariant
            n == lo@.len(),
            hi@.len() == n,
            dims == seq_sub(hi@, lo@),
            forall|j: int| 0 <= j < n ==> #[trigger] lo@[j] < hi@[j],
            cur@.len() == n,
            more ==> (forall|j: int| 0 <= j < n ==> lo@[j] <= #[trigger] cur@[j] && cur@[j] < hi@[j]),
            more ==> out@.len() == flat(seq_sub(cur@, lo@), dims),
            !more ==> out@.len() == total(dims),
            forall|k: int| 0 <= k < out@.len() ==> box_entry_ok(#[trigger] out@[k]@, lo@, hi@, k),
        decreases total(dims) - out@.len(),
    {
        proof {
            assert(in_box(seq_sub(cur@, lo@), dims));
            lemma_flat_bound(seq_sub(cur@, lo@), dims);
        }
        let c = slice_to_vec(cur.as_slice());
        out.push(c);
        let ghost prev: Seq<usize> = cur@;
        more = advance(&mut cur, lo, hi);
        proof {
            if !more {
                assert(forall|j: int| 0 <= j < n ==> #[trigger] seq_sub(prev, lo@)[j] == dims[j] - 1);
                lemma_flat_all_max(seq_sub(prev, lo@), dims);
            }
        }
    }
    out
}

/// Every coordinate of a board with axis sizes `dim`, in row-major order:
/// the entry of index `k` is the coordinate of flat rank `k`.
pub fn cells(dim: &[usize]) -> (r: Vec<Vec<usize>>)
    ensures
        r@.len() == total(dim@),
        forall|k: int|
            0 <= k < r@.len() ==> in_box(#[trigger] r@[k]@, dim@) && flat(r@[k]@, dim@) == k,
        forall|c: Seq<usize>|
            in_box(c, dim@) ==> exists|k: int| 0 <= k < r@.len() && r@[k]@ == c,
        forall|k1: int, k2: int|
            0 <= k1 < r@.len() && 0 <= k2 < r@.len() && k1 != k2 ==> r@[k1]@ != r@[k2]@,
{
    let n = dim.len();
    let mut lo: Vec<usize> = Vec::new();
    let mut i: usize = 0;
    while i < n
        invariant
            i <= n,
            lo@.len() == i,
            forall|j: int| 0 <= j < i ==> #[trigger] lo@[j] == 0,
        decreases n - i,
    {
        lo.push(0);
        i += 1;
    }
    let r = enum_box(lo.as_slice(), dim);
    proof {
        assert(seq_sub(dim@, lo@) =~= dim@);
        assert forall|k: int| 0 <= k < r@.len() implies in_box(#[trigger] r@[k]@, dim@) && flat(
            r@[k]@,
            dim@,
        ) == k by {
            assert(box_entry_ok(r@[k]@, lo@, dim@, k));
            assert(seq_sub(r@[k]@, lo@) =~= r@[k]@);
        }
        let entries = Seq::new(r@.len(), |k: int| r@[k]@);
        lemma_box_entries(entries, lo@, dim@);
        assert forall|c: Seq<usize>| in_box(c, dim@) implies exists|k: int|
            0 <= k < r@.len() && r@[k]@ == c by {
            assert(c.len() == lo@.len() && (forall|j: int|
                0 <= j < lo@.len() ==> lo@[j] <= #[trigger] c[j] && c[j] < dim@[j]));
            let k = choose|k: int| 0 <= k < entries.len() && entries[k] == c;
            assert(r@[k]@ == c);
        }
        assert forall|k1: int, k2: int|
            0 <= k1 < r@.len() && 0 <= k2 < r@.len() && k1 != k2 implies r@[k1]@ != r@[k2]@ by {
            assert(entries[k1] == r@[k1]@ && entries[k2] == r@[k2]@);
        }
    }
    r
}

/// Every coordinate within Chebyshev distance one of `at` that lies on the
/// board, `at` itself among them, each exactly once.
pub fn neighbours(at: &[usize], dim: &[usize]) -> (r: Vec<Vec<usize>>)
    requires
        in_box(at@, dim@),
    ensures
        r@.len() == total(nbr_dims(at@, dim@)),
        forall|k: int|
            0 <= k < r@.len() ==> in_box(#[trigger] r@[k]@, dim@) && is_nbr(r@[k]@, at@),
        forall|c: Seq<usize>|
            in_box(c, dim@) && is_nbr(c, at@) ==> exists|k: int| 0 <= k < r@.len() && r@[k]@ == c,
        forall|k1: int, k2: int|
            0 <= k1 < r@.len() && 0 <= k2 < r@.len() && k1 != k2 ==> r@[k1]@ != r@[k2]@,
{
    let n = at.len();
    let mut lo: Vec<usize> = Vec::new();
    let mut hi: Vec<usize> = Vec::new();
    let mut i: usize = 0;
    while i < n
        invariant
            in_box(at@, dim@),
            n == at@.len(),
            i <= n,
            lo@.len() == i,
            hi@.len() == i,
            forall|j: int| 0 <= j < i ==> #[trigger] lo@[j] == nbr_lo(at@)[j],
            forall|j: int| 0 <= j < i ==> #[trigger] hi@[j] == nbr_hi(at@, dim@)[j],
        decreases n - i,
    {
        let a = at[i];
        let d = dim[i];
        let l: usize = if a > 0 {
            a - 1
        } else {
            0
        };
        let h: usize = if d - a <= 2 {
            d
        } else {
            a + 2
        };
        lo.push(l);
        hi.push(h);
        assert(lo@[i as int] == nbr_lo(at@)[i as int]);
        assert(hi@[i as int] == nbr_hi(at@, dim@)[i as int]);
        i += 1;
    }
    proof {
        assert forall|j: int| 0 <= j < n implies #[trigger] hi@[j] == nbr_hi(at@, dim@)[j] by {
            assert(lo@[j] == nbr_lo(at@)[j]);
        }
        assert forall|j: int| 0 <= j < n implies #[trigger] lo@[j] == nbr_lo(at@)[j] by {}
        assert(lo@ =~= nbr_lo(at@));
        assert(hi@ =~= nbr_hi(at@, dim@));
    }
    let r = enum_box(lo.as_slice(), hi.as_slice());
    proof {
        assert forall|k: int| 0 <= k < r@.len() implies in_box(#[trigger] r@[k]@, dim@) && is_nbr(
            r@[k]@,
            at@,
        ) by {
            assert(box_entry_ok(r@[k]@, lo@, hi@, k));
            assert forall|j: int| 0 <= j < n implies r@[k]@[j] < dim@[j] && dist(r@[k]@[j], at@[j])
                <= 1 by {
                assert(lo@[j] <= r@[k]@[j] && r@[k]@[j] < hi@[j]);
            }
        }
        let entries = Seq::new(r@.len(), |k: int| r@[k]@);
        lemma_box_entries(entries, lo@, hi@);
        assert forall|c: Seq<usize>| in_box(c, dim@) && is_nbr(c, at@) implies exists|k: int|
            0 <= k < r@.len() && r@[k]@ == c by {
            assert forall|j: int| 0 <= j < n implies lo@[j] <= #[trigger] c[j] && c[j] < hi@[j] by {
                assert(dist(c[j], at@[j]) <= 1 && c[j] < dim@[j]);
            }
            let k = choose|k: int| 0 <= k < entries.len() && entries[k] == c;
            assert(r@[k]@ == c);
        }
        assert forall|k1: int, k2: int|
            0 <= k1 < r@.len() && 0 <= k2 < r@.len() && k1 != k2 implies r@[k1]@ != r@[k2]@ by {
            assert(entries[k1] == r@[k1]@ && entries[k2] == r@[k2]@);
        }
    }
    r
}

/// Whether two coordinates lie within Chebyshev distance one over their
/// paired axes (the shorter length decides, as when zipping).
pub fn is_neighbour_of(a: &[usize], b: &[usize]) -> (r: bool)
    ensures
        ({
            let n = if a@.len() <= b@.len() { a@.len() as int } else { b@.len() as int };
            r == is_nbr(a@.take(n), b@.take(n))
        }),
{
    let n: usize = if a.len() <= b.len() {
        a.len()
    } else {
        b.len()
    };
    let mut i: usize = 0;
    while i < n
        invariant
            i <= n,
            n <= a@.len(),
            n <= b@.len(),
            forall|j: int| 0 <= j < i ==> dist(a@[j], b@[j]) <= 1,
        decreases n - i,
    {
        let x = a[i];
        let y = b[i];
        let d: usize = if x >= y {
            x - y
        } else {
            y - x
        };
        if d >= 2 {
            assert(dist(a@.take(n as int)[i as int], b@.take(n as int)[i as int]) > 1);
            return false;
        }
        i += 1;
    }
    assert forall|j: int| 0 <= j < n implies dist(a@.take(n as int)[j], b@.take(n as int)[j])
        <= 1 by {
        assert(dist(a@[j], b@[j]) <= 1);
    }
    true
}

/// The greatest componentwise distance between two coordinates over their
/// paired axes (the shorter length decides, as when zipping).
pub fn max_dist(a: &[usize], b: &[usize]) -> (r: usize)
    requires
        a@.len() >= 1,
        b@.len() >= 1,
    ensures
        ({
            let n = if a@.len() <= b@.len() { a@.len() as int } else { b@.len() as int };
            r == cheb(a@.take(n), b@.take(n))
        }),
{
    let n: usize = if a.len() <= b.len() {
        a.len()
    } else {
        b.len()
    };
    let mut r: usize = 0;
    let mut i: usize = 0;
    while i < n
        invariant
            i <= n,
            n <= a@.len(),
            n <= b@.len(),
            r == cheb(a@.take(i as int), b@.take(i as int)),
        decreases n - i,
    {
        let x = a[i];
        let y = b[i];
        let d: usize = if x >= y {
            x - y
        } else {
            y - x
        };
        proof {
            assert(a@.take(i + 1).drop_last() =~= a@.take(i as int));
            assert(b@.take(i + 1).drop_last() =~= b@.take(i as int));
        }
        if d > r {
            r = d;
        }
        i += 1;
    }
    r
}

/// `b` to the `e`-th power.
pub open spec fn pow(b: nat, e: nat) -> nat
    decreases e,
{
    if e == 0 {
        1
    } else {
        b * pow(b, (e - 1) as nat)
    }
}

/// A box whose axes all count `c` candidates holds `c^D` cells.
proof fn lemma_total_const(dims: Seq<usize>, c: usize)
    requires
        forall|j: int| 0 <= j < dims.len() ==> #[trigger] dims[j] == c,
    ensures
        total(dims) == pow(c as nat, dims.len()),
    decreases dims.len(),
{
    if dims.len() > 0 {
        lemma_total_const(dims.drop_last(), c);
        assert(pow(c as nat, dims.len()) == (c as nat) * pow(c as nat, (dims.len() - 1) as nat));
        assert(total(dims.drop_last()) * (c as nat) == (c as nat) * total(dims.drop_last()))
            by (nonlinear_arith);
    }
}

/// An interior coordinate — no axis at zero or at its maximum — has a
/// neighborhood of exactly `3^D` members, itself included.
pub proof fn lemma_interior_neighbourhood(at: Seq<usize>, dims: Seq<usize>)
    requires
        in_box(at, dims),
        forall|j: int| 0 <= j < at.len() ==> 1 <= #[trigger] at[j] && at[j] + 1 < dims[j],
    ensures
        total(nbr_dims(at, dims)) == pow(3, at.len()),
{
    assert(forall|j: int| 0 <= j < at.len() ==> #[trigger] nbr_dims(at, dims)[j] == 3);
    lemma_total_const(nbr_dims(at, dims), 3);
}

/// A corner coordinate — every axis at zero or at its maximum, each axis at
/// least two wide — has a neighborhood of exactly `2^D` members.
pub proof fn lemma_corner_neighbourhood(at: Seq<usize>, dims: Seq<usize>)
    requires
        in_box(at, dims),
        forall|j: int| 0 <= j < at.len() ==> #[trigger] dims[j] >= 2,
        forall|j: int| 0 <= j < at.len() ==> #[trigger] at[j] == 0 || at[j] == dims[j] - 1,
    ensures
        total(nbr_dims(at, dims)) == pow(2, at.len()),
{
    assert(forall|j: int| 0 <= j < at.len() ==> #[trigger] nbr_dims(at, dims)[j] == 2);
    lemma_total_const(nbr_dims(at, dims), 2);
}

} // verus!
