//! Shapes, strides and the row-major correspondence between multi-indices
//! and flat positions.

use vstd::prelude::*;

verus! {

/// Number of elements of a tensor of shape `s`: the product of its dimensions.
pub open spec fn numel(s: Seq<usize>) -> nat
    decreases s.len(),
{
    if s.len() == 0 {
        1
    } else {
        (s[0] as nat) * numel(s.drop_first())
    }
}

/// Every suffix product of `s` fits in a `usize`, so the row-major strides
/// of `s` and its element count are machine integers.
pub open spec fn shape_fits(s: Seq<usize>) -> bool {
    forall|i: int| 0 <= i <= s.len() ==> #[trigger] numel(s.skip(i)) <= usize::MAX
}

/// Number of elements of `shape`.
pub fn numel_of(shape: &[usize]) -> (n: usize)
    requires
        shape_fits(shape@),
    ensures
        n == numel(shape@),
{
    let mut p: usize = 1;
    let mut i: usize = shape.len();
    assert(shape@.skip(i as int) =~= Seq::<usize>::empty());
    while i > 0
        invariant
            i <= shape@.len(),
            shape_fits(shape@),
            p == numel(shape@.skip(i as int)),
        decreases i,
    {
        assert(shape@.skip(i - 1).drop_first() =~= shape@.skip(i as int));
        assert(numel(shape@.skip(i - 1)) <= usize::MAX);
        p = shape[i - 1] * p;
        i = i - 1;
    }
    assert(shape@.skip(0) =~= shape@);
    p
}


/// The number of elements of `shape`, or `None` when that count or the
/// row-major stride of an axis does not fit in a `usize`.
pub fn checked_numel(shape: &[usize]) -> (n: Option<usize>)
    ensures
        n is Some <==> shape_fits(shape@),
        n matches Some(v) ==> v == numel(shape@),
{
    let mut p: usize = 1;
    let mut i: usize = shape.len();
    assert(shape@.skip(i as int) =~= Seq::<usize>::empty());
    while i > 0
        invariant
            i <= shape@.len(),
            p == numel(shape@.skip(i as int)),
            forall|j: int| i <= j <= shape@.len() ==> #[trigger] numel(shape@.skip(j)) <= usize::MAX,
        decreases i,
    {
        proof {
            lemma_numel_step(shape@, i - 1);
        }
        match shape[i - 1].checked_mul(p) {
            Some(q) => {
                p = q;
                i = i - 1;
            },
            None => {
                assert(numel(shape@.skip(i - 1)) > usize::MAX);
                return None;
            },
        }
    }
    assert(shape@.skip(0) =~= shape@);
    assert(shape_fits(shape@));
    Some(p)
}

/// `idx` addresses an element of a tensor of shape `s`.
pub open spec fn in_bounds(idx: Seq<usize>, s: Seq<usize>) -> bool {
    &&& idx.len() == s.len()
    &&& forall|i: int| 0 <= i < s.len() ==> #[trigger] idx[i] < s[i]
}

/// Row-major position of the multi-index `idx` in a tensor of shape `s`.
pub open spec fn flat_index(idx: Seq<usize>, s: Seq<usize>) -> nat
    decreases s.len(),
{
    if s.len() == 0 || idx.len() == 0 {
        0
    } else {
        (idx[0] as nat) * numel(s.drop_first()) + flat_index(idx.drop_first(), s.drop_first())
    }
}

/// The multi-index at row-major position `k` of a tensor of shape `s`.
pub open spec fn unflat_index(k: nat, s: Seq<usize>) -> Seq<usize>
    decreases s.len(),
{
    if s.len() == 0 {
        Seq::empty()
    } else {
        let n = numel(s.drop_first());
        seq![(k / n) as usize] + unflat_index(k % n, s.drop_first())
    }
}

/// Buffer offset of the multi-index `idx` under `strides`.
pub open spec fn offset(idx: Seq<usize>, strides: Seq<usize>) -> nat
    decreases strides.len(),
{
    if strides.len() == 0 || idx.len() == 0 {
        0
    } else {
        (idx[0] as nat) * (strides[0] as nat) + offset(idx.drop_first(), strides.drop_first())
    }
}

/// The strides of a contiguous row-major tensor of shape `s`.
pub open spec fn row_major_strides(s: Seq<usize>) -> Seq<usize> {
    Seq::new(s.len(), |i: int| numel(s.skip(i + 1)) as usize)
}

pub proof fn lemma_numel_step(s: Seq<usize>, i: int)
    requires
        0 <= i < s.len(),
    ensures
        numel(s.skip(i)) == (s[i] as nat) * numel(s.skip(i + 1)),
{
    assert(s.skip(i).drop_first() =~= s.skip(i + 1));
}

pub proof fn lemma_shape_fits_tail(s: Seq<usize>)
    requires
        s.len() > 0,
        shape_fits(s),
    ensures
        shape_fits(s.drop_first()),
{
    assert forall|i: int| 0 <= i <= s.drop_first().len() implies #[trigger] numel(
        s.drop_first().skip(i),
    ) <= usize::MAX by {
        assert(s.drop_first().skip(i) =~= s.skip(i + 1));
    }
}

pub proof fn lemma_flat_index_bound(idx: Seq<usize>, s: Seq<usize>)
    requires
        in_bounds(idx, s),
    ensures
        flat_index(idx, s) < numel(s),
    decreases s.len(),
{
    if s.len() > 0 {
        let t = s.drop_first();
        assert(in_bounds(idx.drop_first(), t)) by {
            assert forall|i: int| 0 <= i < t.len() implies #[trigger] idx.drop_first()[i] < t[i] by {
                assert(idx[i + 1] < s[i + 1]);
            }
        }
        lemma_flat_index_bound(idx.drop_first(), t);
        let a = idx[0] as nat;
        let r = flat_index(idx.drop_first(), t);
        let n = numel(t);
        assert(idx[0] < s[0]);
        assert(a * n + r < (s[0] as nat) * n) by (nonlinear_arith)
            requires a < s[0], r < n;
    }
}

pub proof fn lemma_unflat_index(k: nat, s: Seq<usize>)
    requires
        k < numel(s),
    ensures
        in_bounds(unflat_index(k, s), s),
        flat_index(unflat_index(k, s), s) == k,
    decreases s.len(),
{
    if s.len() == 0 {
        assert(k == 0);
    } else {
        let t = s.drop_first();
        let n = numel(t);
        assert(n > 0) by {
            if n == 0 {
                assert((s[0] as nat) * n == 0) by (nonlinear_arith)
                    requires n == 0;
            }
        }
        let q = k / n;
        let r = k % n;
        assert(k == n * q + r && r < n) by {
            vstd::arithmetic::div_mod::lemma_fundamental_div_mod(k as int, n as int);
        }
        assert(q < s[0]) by (nonlinear_arith)
            requires k == n * q + r, k < (s[0] as nat) * n, r >= 0, n > 0;
        lemma_unflat_index(r, t);
        let u = unflat_index(k, s);
        assert(u =~= seq![q as usize] + unflat_index(r, t));
        assert(u.drop_first() =~= unflat_index(r, t));
        assert forall|i: int| 0 <= i < s.len() implies #[trigger] u[i] < s[i] by {
            if i > 0 {
                assert(u[i] == unflat_index(r, t)[i - 1]);
            }
        }
        assert(flat_index(u, s) == q * n + r);
        assert(q * n == n * q) by (nonlinear_arith);
    }
}

pub proof fn lemma_flat_unflat(idx: Seq<usize>, s: Seq<usize>)
    requires
        in_bounds(idx, s),
    ensures
        unflat_index(flat_index(idx, s), s) == idx,
    decreases s.len(),
{
    if s.len() > 0 {
        let t = s.drop_first();
        let n = numel(t);
        let tail = idx.drop_first();
        assert(in_bounds(tail, t)) by {
            assert forall|i: int| 0 <= i < t.len() implies #[trigger] tail[i] < t[i] by {
                assert(idx[i + 1] < s[i + 1]);
            }
        }
        lemma_flat_index_bound(tail, t);
        lemma_flat_unflat(tail, t);
        let r = flat_index(tail, t);
        let k = flat_index(idx, s);
        assert(k == (idx[0] as nat) * n + r);
        vstd::arithmetic::div_mod::lemma_fundamental_div_mod_converse(
            k as int,
            n as int,
            idx[0] as int,
            r as int,
        );
        assert(unflat_index(k, s) =~= idx);
    } else {
        assert(idx =~= Seq::<usize>::empty());
    }
}

pub proof fn lemma_offset_row_major(idx: Seq<usize>, s: Seq<usize>)
    requires
        idx.len() == s.len(),
        shape_fits(s),
    ensures
        offset(idx, row_major_strides(s)) == flat_index(idx, s),
    decreases s.len(),
{
    if s.len() > 0 {
        let t = s.drop_first();
        lemma_shape_fits_tail(s);
        assert(row_major_strides(s).drop_first() =~= row_major_strides(t)) by {
            assert forall|i: int| 0 <= i < t.len() implies #[trigger] row_major_strides(
                s,
            ).drop_first()[i] == row_major_strides(t)[i] by {
                assert(s.skip(i + 2) =~= t.skip(i + 1));
            }
        }
        lemma_offset_row_major(idx.drop_first(), t);
        assert(s.skip(1) =~= t);
        assert(numel(s.skip(1)) <= usize::MAX);
    }
}


/// The row-major (contiguous) strides of `shape`.
pub fn row_major_strides_of(shape: &[usize]) -> (strides: Vec<usize>)
    requires
        shape_fits(shape@),
    ensures
        strides@ == row_major_strides(shape@),
{
    let n = shape.len();
    let mut strides: Vec<usize> = vec![0usize; n];
    let mut p: usize = 1;
    let mut i: usize = n;
    assert(shape@.skip(n as int) =~= Seq::<usize>::empty());
    while i > 0
        invariant
            i <= n == shape@.len(),
            strides@.len() == n,
            shape_fits(shape@),
            p == numel(shape@.skip(i as int)),
            forall|j: int| i <= j < n ==> #[trigger] strides@[j] == numel(shape@.skip(j + 1)) as usize,
        decreases i,
    {
        strides.set(i - 1, p);
        proof {
            lemma_numel_step(shape@, i - 1);
        }
        assert(numel(shape@.skip(i - 1)) <= usize::MAX);
        p = shape[i - 1] * p;
        i = i - 1;
    }
    assert(strides@ =~= row_major_strides(shape@));
    strides
}

proof fn lemma_offset_suffix_step(idx: Seq<usize>, strides: Seq<usize>, i: int)
    requires
        idx.len() == strides.len(),
        0 <= i < strides.len(),
    ensures
        offset(idx.skip(i), strides.skip(i)) == (idx[i] as nat) * (strides[i] as nat) + offset(
            idx.skip(i + 1),
            strides.skip(i + 1),
        ),
{
    assert(idx.skip(i).drop_first() =~= idx.skip(i + 1));
    assert(strides.skip(i).drop_first() =~= strides.skip(i + 1));
}

proof fn lemma_offset_suffix_monotone(idx: Seq<usize>, strides: Seq<usize>, i: int)
    requires
        idx.len() == strides.len(),
        0 <= i <= strides.len(),
    ensures
        offset(idx.skip(i), strides.skip(i)) <= offset(idx, strides),
    decreases i,
{
    if i > 0 {
        lemma_offset_suffix_monotone(idx, strides, i - 1);
        lemma_offset_suffix_step(idx, strides, i - 1);
    } else {
        assert(idx.skip(0) =~= idx);
        assert(strides.skip(0) =~= strides);
    }
}

pub proof fn lemma_numel_suffix_positive(s: Seq<usize>, i: int)
    requires
        numel(s) > 0,
        0 <= i <= s.len(),
    ensures
        numel(s.skip(i)) > 0,
    decreases i,
{
    if i == 0 {
        assert(s.skip(0) =~= s);
    } else {
        lemma_numel_suffix_positive(s, i - 1);
        lemma_numel_step(s, i - 1);
        let a = s[i - 1] as nat;
        let b = numel(s.skip(i));
        assert(b > 0) by (nonlinear_arith)
            requires a * b > 0;
    }
}

/// Buffer offset of `idx` under `strides`.
pub fn offset_of(idx: &[usize], strides: &[usize]) -> (off: usize)
    requires
        idx@.len() == strides@.len(),
        offset(idx@, strides@) <= usize::MAX,
    ensures
        off == offset(idx@, strides@),
{
    let n = idx.len();
    let mut acc: usize = 0;
    let mut i: usize = n;
    assert(idx@.skip(n as int) =~= Seq::<usize>::empty());
    while i > 0
        invariant
            i <= n == idx@.len() == strides@.len(),
            offset(idx@, strides@) <= usize::MAX,
            acc == offset(idx@.skip(i as int), strides@.skip(i as int)),
        decreases i,
    {
        proof {
            lemma_offset_suffix_step(idx@, strides@, i - 1);
            lemma_offset_suffix_monotone(idx@, strides@, i - 1);
        }
        acc = idx[i - 1] * strides[i - 1] + acc;
        i = i - 1;
    }
    assert(idx@.skip(0) =~= idx@);
    assert(strides@.skip(0) =~= strides@);
    acc
}

/// The multi-index at row-major position `k` of a tensor of shape `shape`,
/// given that shape's row-major strides.
pub fn unflat_index_of(k: usize, shape: &[usize], strides: &[usize]) -> (idx: Vec<usize>)
    requires
        k < numel(shape@),
        shape_fits(shape@),
        strides@ == row_major_strides(shape@),
    ensures
        idx@ == unflat_index(k as nat, shape@),
{
    let n = shape.len();
    let mut idx: Vec<usize> = Vec::new();
    let mut rem: usize = k;
    let mut i: usize = 0;
    assert(shape@.skip(0) =~= shape@);
    while i < n
        invariant
            i <= n == shape@.len() == strides@.len(),
            strides@ == row_major_strides(shape@),
            k < numel(shape@),
            shape_fits(shape@),
            idx@.len() == i,
            idx@ + unflat_index(rem as nat, shape@.skip(i as int)) == unflat_index(k as nat, shape@),
        decreases n - i,
    {
        let ghost t = shape@.skip(i as int);
        assert(t.drop_first() =~= shape@.skip(i + 1));
        let st = strides[i];
        assert(st == numel(shape@.skip(i + 1)) as usize);
        assert(numel(shape@.skip(i + 1)) <= usize::MAX);
        proof {
            lemma_numel_suffix_positive(shape@, i + 1);
        }
        let q = rem / st;
        let r = rem % st;
        proof {
            assert(unflat_index(rem as nat, t) =~= seq![q] + unflat_index(r as nat, shape@.skip(i + 1)));
            assert(idx@.push(q) + unflat_index(r as nat, shape@.skip(i + 1)) =~= idx@ + unflat_index(
                rem as nat,
                t,
            ));
        }
        idx.push(q);
        rem = r;
        i = i + 1;
    }
    assert(unflat_index(rem as nat, shape@.skip(n as int)) =~= Seq::<usize>::empty());
    assert(idx@ + Seq::<usize>::empty() =~= idx@);
    idx
}


/// The index read from an operand of shape `s` that is broadcast along its
/// axes of length one: those coordinates are pinned to zero.
pub open spec fn broadcast_index(idx: Seq<usize>, s: Seq<usize>) -> Seq<usize> {
    Seq::new(idx.len(), |i: int| if s[i] == 1 { 0usize } else { idx[i] })
}

/// A shape `s` broadcasts to `target`: same rank, and each axis either
/// matches or has length one.
pub open spec fn broadcasts_to(s: Seq<usize>, target: Seq<usize>) -> bool {
    &&& s.len() == target.len()
    &&& forall|i: int| 0 <= i < s.len() ==> #[trigger] s[i] == 1 || s[i] == target[i]
}

pub proof fn lemma_broadcast_in_bounds(idx: Seq<usize>, s: Seq<usize>, target: Seq<usize>)
    requires
        in_bounds(idx, target),
        broadcasts_to(s, target),
    ensures
        in_bounds(broadcast_index(idx, s), s),
{
    assert forall|i: int| 0 <= i < s.len() implies #[trigger] broadcast_index(idx, s)[i] < s[i] by {
        assert(s[i] == 1 || s[i] == target[i]);
        assert(idx[i] < target[i]);
    }
}

/// `broadcast_index(idx, shape)`.
pub fn broadcast_index_of(idx: &[usize], shape: &[usize]) -> (b: Vec<usize>)
    requires
        idx@.len() == shape@.len(),
    ensures
        b@ == broadcast_index(idx@, shape@),
{
    let n = idx.len();
    let mut b: Vec<usize> = Vec::with_capacity(n);
    let mut i: usize = 0;
    while i < n
        invariant
            i <= n == idx@.len() == shape@.len(),
            b@ == broadcast_index(idx@.take(i as int), shape@),
        decreases n - i,
    {
        if shape[i] == 1 {
            b.push(0);
        } else {
            b.push(idx[i]);
        }
        i = i + 1;
        assert(b@ =~= broadcast_index(idx@.take(i as int), shape@));
    }
    assert(idx@.take(n as int) =~= idx@);
    b
}

/// The element count of a one-axis shape is its length.
pub proof fn lemma_numel_vector(a: usize)
    ensures
        numel(seq![a]) == a as nat,
{
    assert(seq![a].drop_first() =~= Seq::<usize>::empty());
    assert(numel(Seq::<usize>::empty()) == 1);
    assert(numel(seq![a]) == (a as nat) * numel(seq![a].drop_first()));
}

/// The element count of a matrix shape, and when it fits.
pub proof fn lemma_matrix_shape(a: usize, b: usize)
    requires
        (a as nat) * (b as nat) <= usize::MAX,
    ensures
        numel(seq![a, b]) == (a as nat) * (b as nat),
        shape_fits(seq![a, b]),
{
    let s = seq![a, b];
    assert(s.drop_first() =~= seq![b]);
    lemma_numel_vector(b);
    assert forall|i: int| 0 <= i <= s.len() implies #[trigger] numel(s.skip(i)) <= usize::MAX by {
        if i == 0 {
            assert(s.skip(0) =~= s);
        } else if i == 1 {
            assert(s.skip(1) =~= seq![b]);
        } else {
            assert(s.skip(2) =~= Seq::<usize>::empty());
        }
    }
}

/// Row-major position of `[r, c]` in a matrix with `cols` columns.
pub proof fn lemma_flat_index_2d(r: usize, c: usize, rows: usize, cols: usize)
    ensures
        flat_index(seq![r, c], seq![rows, cols]) == (r as nat) * (cols as nat) + (c as nat),
{
    let s = seq![rows, cols];
    let i = seq![r, c];
    assert(s.drop_first() =~= seq![cols]);
    assert(i.drop_first() =~= seq![c]);
    lemma_numel_vector(cols);
    assert(seq![cols].drop_first() =~= Seq::<usize>::empty());
    assert(seq![c].drop_first() =~= Seq::<usize>::empty());
    assert(flat_index(seq![c], seq![cols]) == (c as nat) * numel(Seq::<usize>::empty()) + flat_index(
        Seq::<usize>::empty(),
        Seq::<usize>::empty(),
    ));
}

/// Quotient and remainder of `x` by a positive `d`.
pub proof fn lemma_div_mod(x: int, d: int)
    requires
        x >= 0,
        d > 0,
    ensures
        x == d * (x / d) + x % d,
        0 <= x % d < d,
        0 <= x / d,
{
    vstd::arithmetic::div_mod::lemma_fundamental_div_mod(x, d);
    vstd::arithmetic::div_mod::lemma_mod_pos_bound(x, d);
    vstd::arithmetic::div_mod::lemma_div_pos_is_pos(x, d);
}

/// Mixed-radix decoding: `x = q * d + r` with `r < d` fixes `q` and `r`.
pub proof fn lemma_div_mod_unique(x: int, d: int, q: int, r: int)
    requires
        d > 0,
        0 <= r < d,
        x == q * d + r,
    ensures
        x / d == q,
        x % d == r,
{
    vstd::arithmetic::div_mod::lemma_fundamental_div_mod_converse(x, d, q, r);
}

/// A quotient below `a` when the dividend is below `a * d`.
pub proof fn lemma_quotient_bound(x: int, d: int, a: int)
    requires
        0 <= x < a * d,
        d > 0,
    ensures
        x / d < a,
{
    lemma_div_mod(x, d);
    let q = x / d;
    let r = x % d;
    assert(q < a) by (nonlinear_arith)
        requires x == d * q + r, r >= 0, x < a * d, d > 0;
}

} // verus!
