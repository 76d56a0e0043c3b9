//! A seeded xorshift64 generator and the reproducible Fisher-Yates
//! shuffle built on it.

use vstd::prelude::*;

use crate::layout::{lemma_div_mod, lemma_div_mod_unique, lemma_quotient_bound};

verus! {

/// One step of xorshift64: `x ^= x << 13; x ^= x >> 7; x ^= x << 17`.
pub open spec fn xorshift64(x: u64) -> u64 {
    let a = x ^ (x << 13u64);
    let b = a ^ (a >> 7u64);
    b ^ (b << 17u64)
}

/// A xorshift step never maps a non-zero state to zero, so a generator
/// seeded with a non-zero state never gets stuck.
pub proof fn lemma_xorshift_nonzero(x: u64)
    requires
        x != 0,
    ensures
        xorshift64(x) != 0,
{
    assert(x != 0 ==> ((x ^ (x << 13u64)) ^ ((x ^ (x << 13u64)) >> 7u64)) ^ (((x ^ (x << 13u64)) ^ ((x
        ^ (x << 13u64)) >> 7u64)) << 17u64) != 0) by (bit_vector);
}

/// xorshift64: a deterministic pseudo-random generator, so that runs
/// repeat exactly.
pub struct Xorshift(u64);

impl Xorshift {
    #[verifier::type_invariant]
    spec fn nonzero(self) -> bool {
        self.0 != 0
    }

    /// The generator's current state.
    pub closed spec fn state(self) -> u64 {
        self.0
    }

    /// A generator seeded with `seed`, its lowest bit forced on so that
    /// the state is never zero.
    pub fn new(seed: u64) -> (r: Self)
        ensures
            r.state() == seed | 1,
            r.state() != 0,
    {
        assert(seed | 1 != 0) by (bit_vector);
        Xorshift(seed | 1)
    }

    /// Advances the state by one xorshift step and returns it.
    pub fn next_u64(&mut self) -> (x: u64)
        ensures
            x == xorshift64(old(self).state()),
            final(self).state() == x,
            x != 0,
    {
        proof {
            use_type_invariant(&*self);
            lemma_xorshift_nonzero(self.0);
        }
        let mut x = self.0;
        x ^= x << 13;
        x ^= x >> 7;
        x ^= x << 17;
        self.0 = x;
        x
    }
}

/// `0, 1, ..., n - 1`.
pub open spec fn identity_order(n: nat) -> Seq<usize> {
    Seq::new(n, |k: int| k as usize)
}

/// `order` lists each of `0..n` exactly once.
pub open spec fn is_permutation(order: Seq<usize>, n: nat) -> bool {
    &&& order.len() == n
    &&& forall|k: int| 0 <= k < n ==> #[trigger] order[k] < n
    &&& forall|a: int, b: int| 0 <= a < n && 0 <= b < n && a != b ==> #[trigger] order[a] != #[trigger] order[b]
}

/// Swaps positions `a` and `b`.
pub open spec fn swap_at(s: Seq<usize>, a: int, b: int) -> Seq<usize> {
    s.update(a, s[b]).update(b, s[a])
}

/// The Fisher-Yates steps `i, i - 1, ..., 1` from generator state `state`:
/// step `i` draws the next value `x` and swaps positions `i` and
/// `x % (i + 1)`.
pub open spec fn shuffle_steps(order: Seq<usize>, i: nat, state: u64) -> Seq<usize>
    decreases i,
{
    if i == 0 {
        order
    } else {
        let x = xorshift64(state);
        let j = ((x as nat) % (i + 1)) as int;
        shuffle_steps(swap_at(order, i as int, j), (i - 1) as nat, x)
    }
}

/// The order in which the reproducible shuffle of `n` rows with seed
/// `seed` lists them.
pub open spec fn shuffle_order(n: nat, seed: u64) -> Seq<usize> {
    if n == 0 {
        Seq::empty()
    } else {
        shuffle_steps(identity_order(n), (n - 1) as nat, seed | 1)
    }
}

pub proof fn lemma_swap_permutation(s: Seq<usize>, n: nat, a: int, b: int)
    requires
        is_permutation(s, n),
        0 <= a < n,
        0 <= b < n,
    ensures
        is_permutation(swap_at(s, a, b), n),
{
    let t = swap_at(s, a, b);
    assert forall|x: int, y: int| 0 <= x < n && 0 <= y < n && x != y implies #[trigger] t[x]
        != #[trigger] t[y] by {
        let sx = if x == b { a } else if x == a { b } else { x };
        let sy = if y == b { a } else if y == a { b } else { y };
        assert(t[x] == s[sx]);
        assert(t[y] == s[sy]);
    }
}

pub proof fn lemma_shuffle_steps_permutation(order: Seq<usize>, n: nat, i: nat, state: u64)
    requires
        is_permutation(order, n),
        i < n,
    ensures
        is_permutation(shuffle_steps(order, i, state), n),
    decreases i,
{
    if i > 0 {
        let x = xorshift64(state);
        let j = ((x as nat) % (i + 1)) as int;
        lemma_swap_permutation(order, n, i as int, j);
        lemma_shuffle_steps_permutation(swap_at(order, i as int, j), n, (i - 1) as nat, x);
    }
}

/// The reproducible shuffle lists every row exactly once.
pub proof fn lemma_shuffle_order_permutation(n: nat, seed: u64)
    requires
        n <= usize::MAX,
    ensures
        is_permutation(shuffle_order(n, seed), n),
{
    if n > 0 {
        let id = identity_order(n);
        assert forall|a: int, b: int| 0 <= a < n && 0 <= b < n && a != b implies #[trigger] id[a]
            != #[trigger] id[b] by {
            assert(id[a] == a as usize && id[b] == b as usize);
        }
        assert(is_permutation(id, n));
        lemma_shuffle_steps_permutation(identity_order(n), n, (n - 1) as nat, seed | 1);
    }
}

/// `state` advanced by `k` xorshift steps.
pub open spec fn xorshift_iter(state: u64, k: nat) -> u64
    decreases k,
{
    if k == 0 {
        state
    } else {
        xorshift64(xorshift_iter(state, (k - 1) as nat))
    }
}

/// The `k`-th value (`k >= 1`) that `Xorshift::new(seed).next_u64()`
/// returns.
pub open spec fn nth_draw(seed: u64, k: nat) -> u64 {
    xorshift_iter(seed | 1, k)
}

/// `order` after the transpositions `swaps`, applied first to last.
pub open spec fn apply_swaps(order: Seq<usize>, swaps: Seq<(int, int)>) -> Seq<usize>
    decreases swaps.len(),
{
    if swaps.len() == 0 {
        order
    } else {
        apply_swaps(swap_at(order, swaps[0].0, swaps[0].1), swaps.drop_first())
    }
}

/// The transpositions of a Fisher-Yates pass over `n` positions with the
/// generator seeded by `seed`: the `t`-th (from 0) is at position
/// `i = n - 1 - t`, for `i` from `n - 1` down to 1 inclusive, and swaps
/// positions `i` and `x % (i + 1)` where `x` is the `(t + 1)`-th draw.
pub open spec fn fisher_yates_swaps(n: nat, seed: u64) -> Seq<(int, int)> {
    Seq::new(
        if n == 0 { 0 } else { (n - 1) as nat },
        |t: int| (n - 1 - t, (nth_draw(seed, (t + 1) as nat) as int) % (n - t)),
    )
}

proof fn lemma_xorshift_iter_shift(state: u64, k: nat)
    ensures
        xorshift_iter(state, k + 1) == xorshift_iter(xorshift64(state), k),
    decreases k,
{
    assert(xorshift_iter(state, k + 1) == xorshift64(xorshift_iter(state, k)));
    if k > 0 {
        lemma_xorshift_iter_shift(state, (k - 1) as nat);
        assert(xorshift_iter(xorshift64(state), k) == xorshift64(
            xorshift_iter(xorshift64(state), (k - 1) as nat),
        ));
    } else {
        assert(xorshift_iter(state, 0) == state);
        assert(xorshift_iter(xorshift64(state), 0) == xorshift64(state));
    }
}

proof fn lemma_apply_swaps_last(order: Seq<usize>, swaps: Seq<(int, int)>)
    requires
        swaps.len() > 0,
    ensures
        apply_swaps(order, swaps) == swap_at(
            apply_swaps(order, swaps.drop_last()),
            swaps.last().0,
            swaps.last().1,
        ),
    decreases swaps.len(),
{
    let o2 = swap_at(order, swaps[0].0, swaps[0].1);
    assert(apply_swaps(order, swaps) == apply_swaps(o2, swaps.drop_first()));
    if swaps.len() > 1 {
        lemma_apply_swaps_last(o2, swaps.drop_first());
        assert(swaps.drop_first().drop_last() =~= swaps.drop_last().drop_first());
        assert(swaps.drop_first().last() == swaps.last());
        assert(swaps.drop_last()[0] == swaps[0]);
        assert(apply_swaps(order, swaps.drop_last()) == apply_swaps(o2, swaps.drop_last().drop_first()));
    } else {
        assert(swaps.drop_first() =~= Seq::<(int, int)>::empty());
        assert(swaps.drop_last() =~= Seq::<(int, int)>::empty());
        assert(apply_swaps(o2, Seq::<(int, int)>::empty()) == o2);
        assert(apply_swaps(order, Seq::<(int, int)>::empty()) == order);
        assert(swaps.last() == swaps[0]);
    }
}

proof fn lemma_shuffle_steps_swaps(order: Seq<usize>, i: nat, state: u64)
    ensures
        shuffle_steps(order, i, state) == apply_swaps(
            order,
            Seq::new(i, |t: int| (i - t, (xorshift_iter(state, (t + 1) as nat) as int) % (i - t + 1))),
        ),
    decreases i,
{
    let l = Seq::new(i, |t: int| (i - t, (xorshift_iter(state, (t + 1) as nat) as int) % (i - t + 1)));
    if i > 0 {
        let x = xorshift64(state);
        let j = ((x as nat) % (i + 1)) as int;
        assert(xorshift_iter(state, 1) == xorshift64(xorshift_iter(state, 0)));
        assert(l[0] == (i as int, j));
        let i1 = (i - 1) as nat;
        lemma_shuffle_steps_swaps(swap_at(order, i as int, j), i1, x);
        let l1 = Seq::new(i1, |t: int| (i1 - t, (xorshift_iter(x, (t + 1) as nat) as int) % (i1 - t + 1)));
        assert forall|t: int| 0 <= t < i1 implies #[trigger] l.drop_first()[t] == l1[t] by {
            lemma_xorshift_iter_shift(state, (t + 1) as nat);
        }
        assert(l.drop_first() =~= l1);
    } else {
        assert(l =~= Seq::<(int, int)>::empty());
    }
}

/// The reproducible shuffle is the Fisher-Yates pass: starting from
/// `0, 1, ..., n - 1`, for each `i` from `n - 1` down to 1 inclusive, the
/// `(n - i)`-th draw of `Xorshift::new(seed)` picks `j = x % (i + 1)` and
/// positions `i` and `j` are swapped. In particular, for `n >= 2` the last
/// step swaps positions 0 and 1 exactly when the `(n - 1)`-th draw is odd.
pub proof fn lemma_shuffle_is_fisher_yates(n: nat, seed: u64)
    ensures
        shuffle_order(n, seed) == apply_swaps(identity_order(n), fisher_yates_swaps(n, seed)),
        n >= 2 ==> fisher_yates_swaps(n, seed).last() == (1int, (nth_draw(seed, (n - 1) as nat) as int) % 2),
        n >= 2 ==> shuffle_order(n, seed) == swap_at(
            apply_swaps(identity_order(n), fisher_yates_swaps(n, seed).drop_last()),
            1,
            (nth_draw(seed, (n - 1) as nat) as int) % 2,
        ),
{
    if n > 0 {
        let i = (n - 1) as nat;
        lemma_shuffle_steps_swaps(identity_order(n), i, seed | 1);
        let l = Seq::new(i, |t: int| (i - t, (xorshift_iter(seed | 1, (t + 1) as nat) as int) % (i - t + 1)));
        assert(l =~= fisher_yates_swaps(n, seed));
        if n >= 2 {
            lemma_apply_swaps_last(identity_order(n), fisher_yates_swaps(n, seed));
        }
    } else {
        assert(fisher_yates_swaps(n, seed) =~= Seq::<(int, int)>::empty());
    }
}

/// The order in which the shuffle with seed `seed` lists `n` rows: a
/// Fisher-Yates pass from the last position down, drawing from a fresh
/// `Xorshift::new(seed)`.
pub fn shuffle_order_of(n: usize, seed: u64) -> (order: Vec<usize>)
    ensures
        order@ == shuffle_order(n as nat, seed),
        order@ == apply_swaps(identity_order(n as nat), fisher_yates_swaps(n as nat, seed)),
        is_permutation(order@, n as nat),
{
    proof {
        lemma_shuffle_order_permutation(n as nat, seed);
        lemma_shuffle_is_fisher_yates(n as nat, seed);
    }
    let mut order: Vec<usize> = Vec::with_capacity(n);
    let mut k: usize = 0;
    while k < n
        invariant
            k <= n,
            order@ == identity_order(k as nat),
        decreases n - k,
    {
        order.push(k);
        k = k + 1;
        assert(order@ =~= identity_order(k as nat));
    }
    if n == 0 {
        return order;
    }
    let mut rng = Xorshift::new(seed);
    let mut i: usize = n - 1;
    while i > 0
        invariant
            i < n,
            order@.len() == n,
            shuffle_steps(order@, i as nat, rng.state()) == shuffle_order(n as nat, seed),
        decreases i,
    {
        let ghost before = rng.state();
        let x = rng.next_u64();
        let j = (x % (i as u64 + 1)) as usize;
        let ghost prev = order@;
        let oi = order[i];
        let oj = order[j];
        order.set(i, oj);
        order.set(j, oi);
        assert(order@ =~= swap_at(prev, i as int, j as int));
        i = i - 1;
    }
    order
}

/// Position of element `d` of row `r` in a flat buffer of rows of length
/// `dim`.
pub open spec fn row_pos(r: nat, d: nat, dim: nat) -> nat {
    r * dim + d
}

proof fn lemma_row_pos_bound(r: nat, d: nat, dim: nat, n: nat)
    requires
        r < n,
        d < dim,
    ensures
        row_pos(r, d, dim) < n * dim,
{
    assert(r * dim + d < n * dim) by (nonlinear_arith)
        requires r < n, d < dim;
}

/// Permutes the rows of a flat `[n, dim]` feature buffer and the `n`
/// matching targets together, in the reproducible order
/// `shuffle_order(n, seed)`: row `r` of the result is row `order[r]` of the
/// input.
pub fn deterministic_shuffle<T: Copy>(features: &[T], targets: &[T], dim: usize, seed: u64) -> (r: (
    Vec<T>,
    Vec<T>,
))
    requires
        (targets@.len() as nat) * (dim as nat) <= features@.len(),
    ensures
        r.0@.len() == (targets@.len() as nat) * (dim as nat),
        r.1@.len() == targets@.len(),
        forall|row: nat, d: nat|
            row < targets@.len() && d < dim ==> #[trigger] r.0@[row_pos(row, d, dim as nat) as int]
                == features@[row_pos(shuffle_order(targets@.len() as nat, seed)[row as int] as nat, d, dim as nat) as int],
        forall|row: int|
            0 <= row < targets@.len() ==> #[trigger] r.1@[row] == targets@[shuffle_order(
                targets@.len() as nat,
                seed,
            )[row] as int],
{
    let n = targets.len();
    let order = shuffle_order_of(n, seed);
    let flen = features.len();
    assert((n as nat) * (dim as nat) <= flen);
    let total = n * dim;
    let mut shuffled_features: Vec<T> = Vec::with_capacity(total);
    let mut p: usize = 0;
    while p < total
        invariant
            total == (n as nat) * (dim as nat),
            total <= features@.len(),
            is_permutation(order@, n as nat),
            p <= total,
            shuffled_features@.len() == p,
            forall|q: int|
                0 <= q < p ==> #[trigger] shuffled_features@[q] == features@[row_pos(
                    order@[q / (dim as int)] as nat,
                    (q % (dim as int)) as nat,
                    dim as nat,
                ) as int],
        decreases total - p,
    {
        proof {
            assert(dim > 0) by (nonlinear_arith)
                requires p < total, total == (n as nat) * (dim as nat);
            lemma_div_mod(p as int, dim as int);
            lemma_quotient_bound(p as int, dim as int, n as int);
        }
        let row = p / dim;
        let d = p % dim;
        proof {
            lemma_row_pos_bound(order@[row as int] as nat, d as nat, dim as nat, n as nat);
        }
        let x = features[order[row] * dim + d];
        shuffled_features.push(x);
        p = p + 1;
    }
    let mut shuffled_targets: Vec<T> = Vec::with_capacity(n);
    let mut k: usize = 0;
    while k < n
        invariant
            n == targets@.len(),
            is_permutation(order@, n as nat),
            k <= n,
            shuffled_targets@.len() == k,
            forall|q: int| 0 <= q < k ==> #[trigger] shuffled_targets@[q] == targets@[order@[q] as int],
        decreases n - k,
    {
        shuffled_targets.push(targets[order[k]]);
        k = k + 1;
    }
    proof {
        assert forall|row: nat, d: nat|
            row < n && d < dim implies #[trigger] shuffled_features@[row_pos(row, d, dim as nat) as int]
                == features@[row_pos(order@[row as int] as nat, d, dim as nat) as int] by {
            lemma_row_pos_bound(row, d, dim as nat, n as nat);
            lemma_div_mod_unique(row_pos(row, d, dim as nat) as int, dim as int, row as int, d as int);
        }
    }
    (shuffled_features, shuffled_targets)
}

} // verus!
