//! Coordinate codec: the row-major (C-order) mapping from an N-dimensional
//! coordinate to a flat index, for a fixed vector of axis sizes, together
//! with its inverse and the lemmas that make it a bijection onto
//! `[0, total)`.

use vstd::prelude::*;

use crate::error::GameError;

verus! {

/// The number of cells of a box with axis sizes `dims`: the product of all
/// of them (1 for a box with no axes).
pub open spec fn total(dims: Seq<usize>) -> nat
    decreases dims.len(),
{
    if dims.len() == 0 {
        1
    } else {
        total(dims.drop_last()) * (dims.last() as nat)
    }
}

/// `c` is a well-formed coordinate of the box `dims`: one component per axis,
/// each strictly below that axis' size.
pub open spec fn in_box(c: Seq<usize>, dims: Seq<usize>) -> bool {
    c.len() == dims.len() && forall|i: int| 0 <= i < c.len() ==> c[i] < dims[i]
}

/// Every axis size is positive and the cell count fits a `usize`.
pub open spec fn shape_ok(dims: Seq<usize>) -> bool {
    (forall|i: int| 0 <= i < dims.len() ==> dims[i] >= 1) && total(dims) <= usize::MAX
}

/// Row-major rank of `c` in the box `dims`: the first axis is the most
/// significant digit.
pub open spec fn flat(c: Seq<usize>, dims: Seq<usize>) -> nat
    decreases c.len(),
{
    if c.len() == 0 {
        0
    } else {
        flat(c.drop_last(), dims.drop_last()) * (dims.last() as nat) + (c.last() as nat)
    }
}

/// The coordinate of rank `k` in the box `dims` (meaningful when every axis
/// size is positive and `k < total(dims)`).
pub open spec fn unflat(k: int, dims: Seq<usize>) -> Seq<usize>
    decreases dims.len(),
{
    if dims.len() == 0 {
        Seq::empty()
    } else {
        unflat(k / (dims.last() as int), dims.drop_last()).push((k % (dims.last() as int)) as usize)
    }
}

pub proof fn lemma_total_push(dims: Seq<usize>, x: usize)
    ensures
        total(dims.push(x)) == total(dims) * x,
{
    assert(dims.push(x).drop_last() =~= dims);
    assert(dims.push(x).last() == x);
}

pub proof fn lemma_total_zero_axis(dims: Seq<usize>, i: int)
    requires
        0 <= i < dims.len(),
        dims[i] == 0,
    ensures
        total(dims) == 0,
    decreases dims.len(),
{
    if i == dims.len() - 1 {
        assert(total(dims.drop_last()) * (dims.last() as nat) == 0) by (nonlinear_arith)
            requires
                dims.last() == 0,
        ;
    } else {
        lemma_total_zero_axis(dims.drop_last(), i);
        assert(total(dims.drop_last()) * (dims.last() as nat) == 0) by (nonlinear_arith)
            requires
                total(dims.drop_last()) == 0,
        ;
    }
}

/// The prefix products never exceed the whole product when every axis size
/// is positive.
pub proof fn lemma_total_take_le(dims: Seq<usize>, i: int)
    requires
        forall|j: int| 0 <= j < dims.len() ==> dims[j] >= 1,
        0 <= i <= dims.len(),
    ensures
        total(dims.take(i)) <= total(dims),
    decreases dims.len() - i,
{
    if i == dims.len() {
        assert(dims.take(i) =~= dims);
    } else {
        lemma_total_take_le(dims, i + 1);
        assert(dims.take(i + 1) =~= dims.take(i).push(dims[i]));
        lemma_total_push(dims.take(i), dims[i]);
        assert(total(dims.take(i)) * (dims[i] as nat) >= total(dims.take(i))) by (nonlinear_arith)
            requires
                dims[i] >= 1,
        ;
    }
}

/// A well-formed coordinate's rank lies below the cell count.
pub proof fn lemma_flat_bound(c: Seq<usize>, dims: Seq<usize>)
    requires
        in_box(c, dims),
    ensures
        flat(c, dims) < total(dims),
    decreases c.len(),
{
    if c.len() == 0 {
    } else {
        let cp = c.drop_last();
        let dp = dims.drop_last();
        assert(in_box(cp, dp));
        lemma_flat_bound(cp, dp);
        let d = dims.last() as nat;
        assert(flat(cp, dp) * d + (c.last() as nat) < total(dp) * d) by (nonlinear_arith)
            requires
                flat(cp, dp) < total(dp),
                (c.last() as nat) < d,
        ;
    }
}

/// Two distinct well-formed coordinates never share a rank.
pub proof fn lemma_flat_injective(a: Seq<usize>, b: Seq<usize>, dims: Seq<usize>)
    requires
        in_box(a, dims),
        in_box(b, dims),
        flat(a, dims) == flat(b, dims),
    ensures
        a == b,
    decreases a.len(),
{
    if a.len() == 0 {
        assert(a =~= b);
    } else {
        let ap = a.drop_last();
        let bp = b.drop_last();
        let dp = dims.drop_last();
        let d = dims.last() as nat;
        assert(flat(ap, dp) == flat(bp, dp) && (a.last() as nat) == (b.last() as nat))
            by (nonlinear_arith)
            requires
                flat(ap, dp) * d + (a.last() as nat) == flat(bp, dp) * d + (b.last() as nat),
                (a.last() as nat) < d,
                (b.last() as nat) < d,
        ;
        lemma_flat_injective(ap, bp, dp);
        assert(a =~= ap.push(a.last()));
        assert(b =~= bp.push(b.last()));
    }
}

/// Every rank below the cell count belongs to some well-formed coordinate:
/// the one `unflat` names.
pub proof fn lemma_unflat(k: int, dims: Seq<usize>)
    requires
        forall|i: int| 0 <= i < dims.len() ==> dims[i] >= 1,
        0 <= k < total(dims),
    ensures
        in_box(unflat(k, dims), dims),
        flat(unflat(k, dims), dims) == k,
    decreases dims.len(),
{
    if dims.len() == 0 {
        assert(unflat(k, dims) =~= Seq::<usize>::empty());
    } else {
        let d = dims.last() as int;
        let dp = dims.drop_last();
        assert(0 <= k / d && 0 <= k % d < d) by (nonlinear_arith)
            requires
                d >= 1,
                k >= 0,
        ;
        assert(k / d < total(dp)) by (nonlinear_arith)
            requires
                d >= 1,
                k >= 0,
                k < total(dp) * d,
        ;
        lemma_unflat(k / d, dp);
        let u = unflat(k, dims);
        assert(u.drop_last() =~= unflat(k / d, dp));
        assert(u.last() == (k % d) as usize);
        assert(in_box(u, dims));
        assert(flat(u, dims) == flat(unflat(k / d, dp), dp) * d + k % d);
        assert((k / d) * d + k % d == k) by (nonlinear_arith)
            requires
                d >= 1,
        ;
    }
}

/// `unflat` inverts `flat` on well-formed coordinates.
pub proof fn lemma_unflat_flat(c: Seq<usize>, dims: Seq<usize>)
    requires
        in_box(c, dims),
    ensures
        unflat(flat(c, dims) as int, dims) == c,
{
    lemma_flat_bound(c, dims);
    assert(forall|i: int| 0 <= i < dims.len() ==> dims[i] >= 1) by {
        assert(forall|i: int| 0 <= i < dims.len() ==> #[trigger] dims[i] > c[i] - 1);
    }
    lemma_unflat(flat(c, dims) as int, dims);
    lemma_flat_injective(unflat(flat(c, dims) as int, dims), c, dims);
}

/// The all-zero coordinate has rank zero.
pub proof fn lemma_flat_zero(c: Seq<usize>, dims: Seq<usize>)
    requires
        forall|j: int| 0 <= j < c.len() ==> #[trigger] c[j] == 0,
    ensures
        flat(c, dims) == 0,
    decreases c.len(),
{
    if c.len() > 0 {
        lemma_flat_zero(c.drop_last(), dims.drop_last());
        assert(flat(c.drop_last(), dims.drop_last()) * (dims.last() as nat) == 0)
            by (nonlinear_arith)
            requires
                flat(c.drop_last(), dims.drop_last()) == 0,
        ;
    }
}

/// The coordinate that increments `c` at axis `i` and resets every later
/// axis to zero: the odometer step.
pub open spec fn inc_at(c: Seq<usize>, i: int) -> Seq<usize> {
    Seq::new(c.len(), |j: int| if j < i { c[j] } else if j == i { (c[i] + 1) as usize } else { 0 })
}

/// When every axis after `i` is at its maximum and axis `i` has room, the
/// odometer step raises the rank by exactly one.
pub proof fn lemma_flat_step(c: Seq<usize>, dims: Seq<usize>, i: int)
    requires
        in_box(c, dims),
        0 <= i < c.len(),
        c[i] + 1 < dims[i],
        forall|j: int| i < j < c.len() ==> c[j] == dims[j] - 1,
    ensures
        in_box(inc_at(c, i), dims),
        flat(inc_at(c, i), dims) == flat(c, dims) + 1,
    decreases c.len(),
{
    let u = inc_at(c, i);
    assert(in_box(u, dims));
    if i == c.len() - 1 {
        assert(u.drop_last() =~= c.drop_last());
        assert(u.last() == (c[i] + 1) as usize);
    } else {
        let cp = c.drop_last();
        let dp = dims.drop_last();
        let d = dims.last() as nat;
        lemma_flat_step(cp, dp, i);
        assert(u.drop_last() =~= inc_at(cp, i));
        assert(u.last() == 0);
        assert(c.last() == d - 1);
        assert((flat(cp, dp) + 1) * d == flat(cp, dp) * d + d) by (nonlinear_arith);
    }
}

/// The coordinate with every axis at its maximum has the last rank.
pub proof fn lemma_flat_all_max(c: Seq<usize>, dims: Seq<usize>)
    requires
        in_box(c, dims),
        forall|j: int| 0 <= j < c.len() ==> c[j] == dims[j] - 1,
    ensures
        flat(c, dims) + 1 == total(dims),
    decreases c.len(),
{
    if c.len() == 0 {
    } else {
        let cp = c.drop_last();
        let dp = dims.drop_last();
        let d = dims.last() as nat;
        lemma_flat_all_max(cp, dp);
        assert(c.last() == d - 1);
        assert((total(dp) - 1) * d + d == total(dp) * d) by (nonlinear_arith);
    }
}

/// Row-major encoding of a coordinate already known to be well-formed.
pub(crate) fn flat_index(at: &[usize], dims: &[usize]) -> (k: usize)
    requires
        shape_ok(dims@),
        in_box(at@, dims@),
    ensures
        k == flat(at@, dims@),
{
    let n = dims.len();
    let mut idx: usize = 0;
    let mut i: usize = 0;
    while i < n
        invariant
            n == dims@.len(),
            at@.len() == n,
            shape_ok(dims@),
            in_box(at@, dims@),
            i <= n,
            idx == flat(at@.take(i as int), dims@.take(i as int)),
        decreases n - i,
    {
        proof {
            let t1 = at@.take(i + 1);
            let d1 = dims@.take(i + 1);
            assert(t1.drop_last() =~= at@.take(i as int));
            assert(d1.drop_last() =~= dims@.take(i as int));
            assert(in_box(t1, d1));
            lemma_flat_bound(t1, d1);
            lemma_total_take_le(dims@, i + 1);
        }
        idx = idx * dims[i] + at[i];
        i += 1;
    }
    proof {
        assert(at@.take(n as int) =~= at@);
        assert(dims@.take(n as int) =~= dims@);
    }
    idx
}

/// Bounds-checked row-major encoding of a coordinate, walking the axes from
/// first (most significant) to last.
pub fn flatten(at: &[usize], dims: &[usize]) -> (r: Result<usize, GameError>)
    requires
        shape_ok(dims@),
    ensures
        match r {
            Ok(k) => in_box(at@, dims@) && k == flat(at@, dims@),
            Err(GameError::DimensionMismatch) => at@.len() != dims@.len(),
            Err(GameError::OutOfRange) => at@.len() == dims@.len() && !in_box(at@, dims@),
            Err(GameError::InvalidConfiguration) => false,
        },
{
    let n = dims.len();
    if at.len() != n {
        return Err(GameError::DimensionMismatch);
    }
    let mut idx: usize = 0;
    let mut i: usize = 0;
    while i < n
        invariant
            n == dims@.len(),
            at@.len() == n,
            shape_ok(dims@),
            i <= n,
            forall|j: int| 0 <= j < i ==> at@[j] < dims@[j],
            idx == flat(at@.take(i as int), dims@.take(i as int)),
        decreases n - i,
    {
        if at[i] >= dims[i] {
            return Err(GameError::OutOfRange);
        }
        proof {
            let t1 = at@.take(i + 1);
            let d1 = dims@.take(i + 1);
            assert(t1.drop_last() =~= at@.take(i as int));
            assert(d1.drop_last() =~= dims@.take(i as int));
            assert(in_box(t1, d1));
            lemma_flat_bound(t1, d1);
            lemma_total_take_le(dims@, i + 1);
        }
        idx = idx * dims[i] + at[i];
        i += 1;
    }
    proof {
        assert(at@.take(n as int) =~= at@);
        assert(dims@.take(n as int) =~= dims@);
    }
    Ok(idx)
}

} // verus!
