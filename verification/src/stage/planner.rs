//! Branch planning: the fan-out of every tree level, from the sink count.
//!
//! The plan is read top-down. Each factor is the smallest divisor of the
//! running count that does not exceed the configured maximum; a count without
//! such a divisor is raised by one first. The product of the factors is the
//! padded sink count.
use crate::error::PlanningError;
use vstd::arithmetic::div_mod::*;
use vstd::arithmetic::mul::*;
use vstd::prelude::*;

verus! {

/// `d` divides `n`.
pub open spec fn divides(d: nat, n: nat) -> bool {
    d != 0 && n % d == 0
}

/// The smallest divisor of `n` in `from..=max_branch`, if there is one.
pub open spec fn first_factor_from(n: nat, from: nat, max_branch: nat) -> Option<nat>
    decreases max_branch + 1 - from,
{
    if from > max_branch || from == 0 {
        None
    } else if n % from == 0 {
        Some(from)
    } else {
        first_factor_from(n, from + 1, max_branch)
    }
}

/// The smallest divisor of `n` in `2..=max_branch`, if there is one.
pub open spec fn first_factor(n: nat, max_branch: nat) -> Option<nat> {
    first_factor_from(n, 2, max_branch)
}

/// The factor planned for a running count of `n`.
///
/// It is the smallest divisor of `n` within the limit. Where `n` has none,
/// `n + 1` is searched instead, and that search ends at 2: see
/// [`lemma_retry_finds_two`].
pub open spec fn next_factor(n: nat, max_branch: nat) -> nat {
    match first_factor(n, max_branch) {
        Some(f) => f,
        None => 2,
    }
}

/// The running count that is left after [`next_factor`] has been taken.
pub open spec fn next_count(n: nat, max_branch: nat) -> nat {
    match first_factor(n, max_branch) {
        Some(f) => n / f,
        None => (n + 1) / 2,
    }
}

/// The branch factors for `n` sinks, top-down.
pub open spec fn plan(n: nat, max_branch: nat) -> Seq<u32>
    decreases n,
    via plan_decreases
{
    if n <= 1 || max_branch < 2 {
        Seq::empty()
    } else {
        seq![next_factor(n, max_branch) as u32] + plan(next_count(n, max_branch), max_branch)
    }
}

#[via_fn]
proof fn plan_decreases(n: nat, max_branch: nat) {
    if !(n <= 1 || max_branch < 2) {
        lemma_next_count_smaller(n, max_branch);
    }
}

/// The product of a sequence of factors.
pub open spec fn product(factors: Seq<u32>) -> nat
    decreases factors.len(),
{
    if factors.len() == 0 {
        1
    } else {
        (product(factors.drop_last()) * (factors.last() as nat)) as nat
    }
}

/// What [`first_factor_from`] finds divides `n`, lies in the range searched,
/// and nothing smaller in that range divides `n`.
pub proof fn lemma_first_factor_from(n: nat, from: nat, max_branch: nat)
    requires
        from >= 1,
    ensures
        match first_factor_from(n, from, max_branch) {
            Some(f) => from <= f <= max_branch && divides(f, n) && forall|j: nat|
                from <= j < f ==> !#[trigger] divides(j, n),
            None => forall|j: nat| from <= j <= max_branch ==> !#[trigger] divides(j, n),
        },
    decreases max_branch + 1 - from,
{
    if from > max_branch {
    } else if n % from == 0 {
    } else {
        lemma_first_factor_from(n, from + 1, max_branch);
    }
}

/// A count without a divisor in `2..=max_branch` is odd, so the search on the
/// count raised by one ends at the factor 2.
pub proof fn lemma_retry_finds_two(n: nat, max_branch: nat)
    requires
        max_branch >= 2,
        first_factor(n, max_branch) is None,
    ensures
        first_factor(n + 1, max_branch) == Some(2nat),
        next_factor(n, max_branch) == 2,
        next_count(n, max_branch) == (n + 1) / 2,
{
    lemma_first_factor_from(n, 2, max_branch);
    assert(!divides(2, n));
    assert((n + 1) % 2 == 0);
}

/// Taking a factor makes the running count smaller, and the factor times the
/// count that is left is the count, or the count raised by one.
pub proof fn lemma_next_count_smaller(n: nat, max_branch: nat)
    requires
        n >= 2,
        max_branch >= 2,
    ensures
        2 <= next_factor(n, max_branch) <= max_branch,
        1 <= next_count(n, max_branch) < n,
        next_factor(n, max_branch) * next_count(n, max_branch) == n || next_factor(n, max_branch)
            * next_count(n, max_branch) == n + 1,
        next_factor(n, max_branch) * next_count(n, max_branch) >= n,
{
    lemma_first_factor_from(n, 2, max_branch);
    match first_factor(n, max_branch) {
        Some(f) => {
            let q = n / f;
            lemma_fundamental_div_mod(n as int, f as int);
            assert(n == f * q);
            assert(1 <= q < n) by (nonlinear_arith)
                requires
                    n == f * q,
                    f >= 2,
                    n >= 2,
                    q >= 0,
            ;
        },
        None => {
            assert(!divides(2, n));
        },
    }
}

/// Every planned factor lies in `2..=max_branch`.
pub proof fn lemma_plan_factors_in_range(n: nat, max_branch: nat)
    requires
        max_branch <= u32::MAX,
    ensures
        forall|k: int|
            0 <= k < plan(n, max_branch).len() ==> 2 <= #[trigger] plan(n, max_branch)[k]
                <= max_branch,
    decreases n,
{
    if n <= 1 || max_branch < 2 {
    } else {
        lemma_next_count_smaller(n, max_branch);
        let tail = plan(next_count(n, max_branch), max_branch);
        lemma_plan_factors_in_range(next_count(n, max_branch), max_branch);
        assert forall|k: int| 0 <= k < plan(n, max_branch).len() implies 2 <= #[trigger] plan(
            n,
            max_branch,
        )[k] <= max_branch by {
            if k > 0 {
                assert(plan(n, max_branch)[k] == tail[k - 1]);
            }
        }
    }
}

/// The product of a concatenation is the product of the products.
pub proof fn lemma_product_concat(a: Seq<u32>, b: Seq<u32>)
    ensures
        product(a + b) == product(a) * product(b),
    decreases b.len(),
{
    if b.len() == 0 {
        assert(a + b =~= a);
        assert(product(b) == 1);
        assert(product(a) * 1 == product(a));
    } else {
        assert((a + b).drop_last() =~= a + b.drop_last());
        assert((a + b).last() == b.last());
        lemma_product_concat(a, b.drop_last());
        let x = product(a);
        let y = product(b.drop_last());
        let z = b.last() as nat;
        assert(product(a + b) == (x * y) * z);
        assert(product(b) == y * z);
        lemma_mul_is_associative(x as int, y as int, z as int);
    }
}

/// The product of one factor is that factor.
pub proof fn lemma_product_single(f: u32)
    ensures
        product(seq![f]) == f as nat,
{
    let s = seq![f];
    assert(s.drop_last() =~= Seq::<u32>::empty());
    assert(s.last() == f);
    assert(product(s.drop_last()) == 1);
    assert(product(s) == 1 * (f as nat));
}

/// The planned factors multiply to at least the sink count: padding never
/// removes a sink. The product is the padded sink count, so `product - n`
/// is the number of sinks to add.
pub proof fn lemma_plan_covers(n: nat, max_branch: nat)
    requires
        n >= 1,
        2 <= max_branch <= u32::MAX,
    ensures
        product(plan(n, max_branch)) >= n,
    decreases n,
{
    if n <= 1 {
    } else {
        let f = next_factor(n, max_branch);
        let r = next_count(n, max_branch);
        lemma_next_count_smaller(n, max_branch);
        lemma_plan_covers(r, max_branch);
        lemma_product_concat(seq![f as u32], plan(r, max_branch));
        lemma_product_single(f as u32);
        let p = product(plan(r, max_branch));
        assert(f * p >= n) by (nonlinear_arith)
            requires
                p >= r,
                f * r >= n,
                f >= 2,
        ;
    }
}

/// The scan that finds the factor of one position, and what is left.
fn take_factor(n: usize, max_branch: u32) -> (r: (u32, usize))
    requires
        n >= 2,
        max_branch >= 2,
    ensures
        r.0 == next_factor(n as nat, max_branch as nat),
        r.1 == next_count(n as nat, max_branch as nat),
{
    let mut i: u32 = 2;
    loop
        invariant
            2 <= i <= max_branch,
            n >= 2,
            first_factor(n as nat, max_branch as nat) == first_factor_from(
                n as nat,
                i as nat,
                max_branch as nat,
            ),
        decreases max_branch - i,
    {
        if n % (i as usize) == 0 {
            return (i, n / (i as usize));
        }
        if i == max_branch {
            proof {
                assert(first_factor_from(n as nat, (i + 1) as nat, max_branch as nat) is None);
                lemma_retry_finds_two(n as nat, max_branch as nat);
                lemma_first_factor_from(n as nat, 2, max_branch as nat);
                assert(!divides(2, n as nat));
            }
            return (2, n / 2 + 1);
        }
        i = i + 1;
    }
}

/// Plans the branch factors for `n` sinks, top-down.
///
/// The answer depends on `n` and `max_branch` alone. It fails where more than
/// one sink is to be merged and `max_branch` is below 2, and where the padded
/// sink count would not fit in `usize`.
pub fn plan_branches(n: usize, max_branch: u32) -> (r: Result<Vec<u32>, PlanningError>)
    ensures
        match r {
            Ok(factors) => {
                &&& factors@ == plan(n as nat, max_branch as nat)
                &&& product(factors@) <= usize::MAX
                &&& n > 1 ==> max_branch >= 2
            },
            Err(PlanningError::BranchLimitTooSmall { max_branch: m }) => {
                &&& n > 1
                &&& max_branch < 2
                &&& m == max_branch
            },
            Err(PlanningError::CapacityExceeded) => {
                &&& max_branch >= 2
                &&& product(plan(n as nat, max_branch as nat)) > usize::MAX
            },
        },
{
    let mut factors: Vec<u32> = Vec::new();
    if n <= 1 {
        return Ok(factors);
    }
    if max_branch < 2 {
        return Err(PlanningError::BranchLimitTooSmall { max_branch });
    }
    let mut rest: usize = n;
    let mut padded: usize = 1;
    while rest > 1
        invariant
            max_branch >= 2,
            rest >= 1,
            factors@ + plan(rest as nat, max_branch as nat) == plan(n as nat, max_branch as nat),
            padded == product(factors@),
        decreases rest,
    {
        let (f, next) = take_factor(rest, max_branch);
        proof {
            lemma_next_count_smaller(rest as nat, max_branch as nat);
            let tail = plan(next as nat, max_branch as nat);
            assert(plan(rest as nat, max_branch as nat) == seq![f] + tail);
            assert(factors@.push(f) + tail =~= factors@ + (seq![f] + tail));
            assert(factors@.push(f).drop_last() =~= factors@);
            assert(product(factors@.push(f)) == padded * f);
        }
        match padded.checked_mul(f as usize) {
            Some(p) => {
                padded = p;
            },
            None => {
                proof {
                    let done = factors@.push(f);
                    let tail = plan(next as nat, max_branch as nat);
                    lemma_product_concat(done, tail);
                    lemma_plan_factors_in_range(next as nat, max_branch as nat);
                    lemma_product_positive(tail);
                    let a = product(done);
                    let b = product(tail);
                    assert(a * b >= a) by (nonlinear_arith)
                        requires
                            b >= 1,
                            a >= 0,
                    ;
                }
                return Err(PlanningError::CapacityExceeded);
            },
        }
        factors.push(f);
        rest = next;
    }
    proof {
        assert(plan(rest as nat, max_branch as nat) =~= Seq::<u32>::empty());
        assert(factors@ + Seq::<u32>::empty() =~= factors@);
    }
    Ok(factors)
}

/// A product of factors is never zero unless a factor is.
pub proof fn lemma_product_positive(factors: Seq<u32>)
    requires
        forall|k: int| 0 <= k < factors.len() ==> factors[k] >= 1,
    ensures
        product(factors) >= 1,
    decreases factors.len(),
{
    if factors.len() > 0 {
        lemma_product_positive(factors.drop_last());
        let a = product(factors.drop_last());
        let b = factors.last() as nat;
        assert(a * b >= 1) by (nonlinear_arith)
            requires
                a >= 1,
                b >= 1,
        ;
    }
}

} // verus!
