//! Integer helpers shared by the kernel modules.

use vstd::prelude::*;

verus! {

/// The value `x` forced into the range of `u64` from above.
pub open spec fn cap_u64(x: int) -> u64 {
    if x > u64::MAX {
        u64::MAX
    } else {
        x as u64
    }
}

/// The smaller of two integers.
pub open spec fn min_int(x: int, y: int) -> int {
    if x <= y {
        x
    } else {
        y
    }
}

/// The larger of two integers.
pub open spec fn max_int(x: int, y: int) -> int {
    if x >= y {
        x
    } else {
        y
    }
}

/// `x - y`, or zero where that would be negative.
pub open spec fn minus_or_zero(x: int, y: int) -> int {
    if x >= y {
        x - y
    } else {
        0
    }
}

/// Multiplies and stays at `u64::MAX` on overflow.
pub fn mul_capped(x: u64, y: u64) -> (product: u64)
    ensures
        product == cap_u64(x * y),
{
    proof {
        assert(x * y >= 0) by (nonlinear_arith)
            requires
                x >= 0,
                y >= 0,
        ;
    }
    match x.checked_mul(y) {
        Some(value) => value,
        None => u64::MAX,
    }
}

/// Returns the smaller of two values.
pub fn min_u64(x: u64, y: u64) -> (least: u64)
    ensures
        least == min_int(x as int, y as int),
{
    if x <= y {
        x
    } else {
        y
    }
}

/// Returns the larger of two values.
pub fn max_u64(x: u64, y: u64) -> (greatest: u64)
    ensures
        greatest == max_int(x as int, y as int),
{
    if x >= y {
        x
    } else {
        y
    }
}

/// Returns the smaller of two sizes.
pub fn min_usize(x: usize, y: usize) -> (least: usize)
    ensures
        least == min_int(x as int, y as int),
{
    if x <= y {
        x
    } else {
        y
    }
}

/// Number of indices below `n` that satisfy `p`.
pub open spec fn count_where(n: nat, p: spec_fn(int) -> bool) -> nat
    decreases n,
{
    if n == 0 {
        0
    } else {
        count_where((n - 1) as nat, p) + if p(n - 1) {
            1nat
        } else {
            0nat
        }
    }
}

/// Predicates that agree below `n` count alike.
pub proof fn lemma_count_same(n: nat, p: spec_fn(int) -> bool, q: spec_fn(int) -> bool)
    requires
        forall|i: int| 0 <= i < n ==> #[trigger] p(i) == q(i),
    ensures
        count_where(n, p) == count_where(n, q),
    decreases n,
{
    if n > 0 {
        lemma_count_same((n - 1) as nat, p, q);
    }
}

/// Predicates that agree below `n` except at `at` differ in count by that one index.
pub proof fn lemma_count_flip(
    n: nat,
    p: spec_fn(int) -> bool,
    q: spec_fn(int) -> bool,
    at: int,
)
    requires
        0 <= at < n,
        p(at),
        !q(at),
        forall|i: int| 0 <= i < n && i != at ==> #[trigger] p(i) == q(i),
    ensures
        count_where(n, p) == count_where(n, q) + 1,
    decreases n,
{
    if at == n - 1 {
        lemma_count_same((n - 1) as nat, p, q);
    } else {
        lemma_count_flip((n - 1) as nat, p, q, at);
    }
}

/// A count never exceeds the number of indices.
pub proof fn lemma_count_bound(n: nat, p: spec_fn(int) -> bool)
    ensures
        count_where(n, p) <= n,
    decreases n,
{
    if n > 0 {
        lemma_count_bound((n - 1) as nat, p);
    }
}

/// A positive count has a witness.
pub proof fn lemma_count_positive(n: nat, p: spec_fn(int) -> bool)
    ensures
        count_where(n, p) > 0 <==> exists|i: int| 0 <= i < n && #[trigger] p(i),
    decreases n,
{
    if n > 0 {
        lemma_count_positive((n - 1) as nat, p);
        if p(n - 1) {
        } else {
            if count_where((n - 1) as nat, p) > 0 {
                let i = choose|i: int| 0 <= i < n - 1 && #[trigger] p(i);
                assert(0 <= i < n && p(i));
            }
        }
    }
}

/// Next value of the 64-bit xorshift generator with shifts 13, 7 and 17.
pub open spec fn xorshift(x: u64) -> u64 {
    let a = x ^ (x << 13);
    let b = a ^ (a >> 7);
    b ^ (b << 17)
}

/// Computes the next value of the 64-bit xorshift generator.
pub fn next_xorshift(x: u64) -> (next: u64)
    ensures
        next == xorshift(x),
{
    let a: u64 = x ^ (x << 13);
    let b: u64 = a ^ (a >> 7);
    b ^ (b << 17)
}

/// The xorshift generator never leaves the nonzero values.
pub proof fn law_xorshift_stays_nonzero(x: u64)
    by (bit_vector)
    requires
        x != 0,
    ensures
        xorshift(x) != 0,
{
}

} // verus!
