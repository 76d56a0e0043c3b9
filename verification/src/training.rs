//! The mini-batch schedule of the training loops.

use vstd::prelude::*;

use crate::layout::lemma_div_mod_unique;

verus! {

/// End of the mini-batch that starts at `start`: `min(start + batch_size, n)`.
pub open spec fn batch_end(start: nat, batch_size: nat, n: nat) -> nat {
    if start + batch_size < n {
        start + batch_size
    } else {
        n
    }
}

/// Number of mini-batches of `batch_size` examples needed to cover `n`
/// examples: `ceil(n / batch_size)`, the optimizer steps per epoch.
pub open spec fn batch_count(n: nat, batch_size: nat) -> nat {
    ((n + batch_size - 1) as nat) / batch_size
}

/// The consecutive mini-batches `[start, end)` over `n` examples, in order:
/// batch `i` is `[i * batch_size, min((i + 1) * batch_size, n))`, the last
/// one possibly shorter.
pub fn batch_ranges(n: usize, batch_size: usize) -> (r: Vec<(usize, usize)>)
    requires
        batch_size > 0,
    ensures
        r@.len() == batch_count(n as nat, batch_size as nat),
        forall|i: int|
            0 <= i < r@.len() ==> #[trigger] r@[i] == (
                (i * batch_size) as usize,
                batch_end((i * batch_size) as nat, batch_size as nat, n as nat) as usize,
            ),
{
    let mut ranges: Vec<(usize, usize)> = Vec::new();
    let mut cursor: usize = 0;
    assert(ranges@.len() * batch_size == 0) by (nonlinear_arith)
        requires ranges@.len() == 0;
    while cursor < n
        invariant
            batch_size > 0,
            cursor <= n,
            cursor < n ==> cursor == ranges@.len() * batch_size,
            cursor == n ==> n <= ranges@.len() * batch_size,
            ranges@.len() > 0 ==> (ranges@.len() - 1) * batch_size < n,
            forall|i: int|
                0 <= i < ranges@.len() ==> #[trigger] ranges@[i] == (
                    (i * batch_size) as usize,
                    batch_end((i * batch_size) as nat, batch_size as nat, n as nat) as usize,
                ),
        decreases n - cursor,
    {
        let end = if batch_size < n - cursor {
            cursor + batch_size
        } else {
            n
        };
        let ghost k = ranges@.len();
        assert(cursor == k * batch_size);
        ranges.push((cursor, end));
        proof {
            assert((k + 1) * batch_size == k * batch_size + batch_size) by (nonlinear_arith);
            assert(((k + 1) - 1) * batch_size == k * batch_size);
        }
        cursor = end;
    }
    proof {
        let k = ranges@.len();
        let b = batch_size as int;
        let m = n as int + b - 1;
        if k == 0 {
            assert(n == 0);
            lemma_div_mod_unique(m, b, 0, m);
        } else {
            assert(n as int > (k - 1) * b);
            assert(n as int <= k * b);
            assert((k - 1) * b == k * b - b) by (nonlinear_arith);
            lemma_div_mod_unique(m, b, k as int, m - k * b);
        }
    }
    ranges
}

/// The mini-batches tile the examples: the first starts at 0, each ends
/// where the next starts, none is empty, and the last ends at `n`.
pub proof fn lemma_batches_tile(n: nat, batch_size: nat)
    requires
        batch_size > 0,
    ensures
        n > 0 ==> batch_count(n, batch_size) > 0,
        forall|i: int|
            0 <= i < batch_count(n, batch_size) ==> #[trigger] (i * batch_size) < batch_end(
                (i * batch_size) as nat,
                batch_size,
                n,
            ),
        forall|i: int|
            0 <= i < batch_count(n, batch_size) - 1 ==> #[trigger] batch_end(
                (i * batch_size) as nat,
                batch_size,
                n,
            ) == (i + 1) * batch_size,
        n > 0 ==> batch_end(
            ((batch_count(n, batch_size) - 1) * batch_size) as nat,
            batch_size,
            n,
        ) == n,
{
    let b = batch_size as int;
    let m = n + b - 1;
    crate::layout::lemma_div_mod(m, b);
    let k = m / b;
    assert(k * b <= m < k * b + b) by (nonlinear_arith)
        requires m == b * k + m % b, 0 <= m % b < b;
    assert forall|i: int| 0 <= i < k implies #[trigger] (i * batch_size) < batch_end(
        (i * batch_size) as nat,
        batch_size,
        n,
    ) by {
        assert(i * b + b <= k * b) by (nonlinear_arith)
            requires i < k, b > 0;
        assert(i * b >= 0) by (nonlinear_arith)
            requires i >= 0, b > 0;
    }
    assert forall|i: int| 0 <= i < k - 1 implies #[trigger] batch_end(
        (i * batch_size) as nat,
        batch_size,
        n,
    ) == (i + 1) * batch_size by {
        assert(i * b + b + b <= k * b) by (nonlinear_arith)
            requires i < k - 1, b > 0;
        assert((i + 1) * b == i * b + b) by (nonlinear_arith);
        assert(i * b >= 0) by (nonlinear_arith)
            requires i >= 0, b > 0;
    }
    if n > 0 {
        assert(k > 0) by (nonlinear_arith)
            requires m >= b, k * b + b > m, b > 0;
        assert((k - 1) * b == k * b - b) by (nonlinear_arith);
    }
}

} // verus!
