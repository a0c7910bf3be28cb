//! Digit tallies for Benford's-law analysis of ledger amounts.
//!
//! The expected proportions, z-scores and mean absolute deviation of the
//! test are floating-point statistics and are computed outside this
//! library from the tallies made here.
use vstd::prelude::*;
use crate::schema::pow10;
use crate::models::{AuditFinding, AuditRule, DetailView, FindingDetail, FindingView, RiskSeverity};

verus! {

/// Whether the tallies may be used for the test.
#[derive(Debug, Clone, Copy, PartialEq, Eq, Structural)]
pub enum BenfordEligibility {
    /// At least 100 amounts spanning at least three orders of magnitude.
    Eligible,
    /// Fewer than 100 amounts of at least 1.00.
    TooFewAmounts,
    /// The largest amount is less than a thousand times the smallest: a
    /// constrained, fixed-rate population.
    NarrowRange,
}

/// Leading-digit counts of the amounts of at least 1.00.
#[derive(Debug)]
pub struct BenfordTally {
    pub eligibility: BenfordEligibility,
    /// Number of amounts of at least 1.00.
    pub population: usize,
    /// With fewer than 100 amounts, the first one counted (0 if none);
    /// otherwise the smallest.
    pub min_cents: i64,
    /// With fewer than 100 amounts, the last one counted (0 if none);
    /// otherwise the largest.
    pub max_cents: i64,
    /// `first_digit_counts[d]`: amounts whose first digit is `d`.
    pub first_digit_counts: Vec<usize>,
    /// `second_digit_counts[d]`: amounts whose second digit is `d`.
    pub second_digit_counts: Vec<usize>,
}

/// Amounts of at least 1.00 take part in the test.
pub open spec fn counted(c: i64) -> bool {
    c >= 100
}

/// The amounts that take part, in their order.
pub open spec fn counted_amounts(a: Seq<i64>) -> Seq<i64>
    decreases a.len(),
{
    if a.len() == 0 {
        Seq::empty()
    } else if counted(a.last()) {
        counted_amounts(a.drop_last()).push(a.last())
    } else {
        counted_amounts(a.drop_last())
    }
}

/// The first decimal digit of `n`.
pub open spec fn leading_digit(n: nat) -> nat
    decreases n,
{
    if n < 10 {
        n
    } else {
        leading_digit(n / 10)
    }
}

/// The second decimal digit of `n` (for `n` of at least two digits).
pub open spec fn second_digit(n: nat) -> nat
    decreases n,
{
    if n < 100 {
        n % 10
    } else {
        second_digit(n / 10)
    }
}

/// An amount written with a single significant digit (1.00 to 9.00 in
/// whole units) has no second digit; every other counted amount has one.
pub open spec fn has_second_digit(c: i64) -> bool {
    !(c % 100 == 0 && c < 1000)
}

/// How many counted amounts have first digit `d`.
pub open spec fn first_digit_count(a: Seq<i64>, d: nat) -> nat
    decreases a.len(),
{
    if a.len() == 0 {
        0
    } else {
        first_digit_count(a.drop_last(), d) + if counted(a.last()) && leading_digit(
            a.last() as nat,
        ) == d {
            1nat
        } else {
            0nat
        }
    }
}

/// How many counted amounts have second digit `d`.
pub open spec fn second_digit_count(a: Seq<i64>, d: nat) -> nat
    decreases a.len(),
{
    if a.len() == 0 {
        0
    } else {
        second_digit_count(a.drop_last(), d) + if counted(a.last()) && has_second_digit(a.last())
            && second_digit(a.last() as nat) == d {
            1nat
        } else {
            0nat
        }
    }
}

/// The smallest element of a non-empty sequence.
pub open spec fn min_of(s: Seq<i64>) -> i64
    decreases s.len(),
{
    if s.len() <= 1 {
        s[0]
    } else if s.last() < min_of(s.drop_last()) {
        s.last()
    } else {
        min_of(s.drop_last())
    }
}

/// The largest element of a non-empty sequence.
pub open spec fn max_of(s: Seq<i64>) -> i64
    decreases s.len(),
{
    if s.len() <= 1 {
        s[0]
    } else if s.last() > max_of(s.drop_last()) {
        s.last()
    } else {
        max_of(s.drop_last())
    }
}

proof fn lemma_leading_digit_range(n: nat)
    requires
        n >= 1,
    ensures
        1 <= leading_digit(n) <= 9,
    decreases n,
{
    if n >= 10 {
        lemma_leading_digit_range(n / 10);
    }
}

/// Every counted amount has exactly one first digit, from 1 to 9: no
/// amount is tallied under 0, and the nine tallies add up to the
/// population.
pub proof fn lemma_first_digit_counts_cover_population(a: Seq<i64>)
    ensures
        first_digit_count(a, 0) == 0,
        first_digit_count(a, 1) + first_digit_count(a, 2) + first_digit_count(a, 3)
            + first_digit_count(a, 4) + first_digit_count(a, 5) + first_digit_count(a, 6)
            + first_digit_count(a, 7) + first_digit_count(a, 8) + first_digit_count(a, 9)
            == counted_amounts(a).len(),
    decreases a.len(),
{
    if a.len() > 0 {
        lemma_first_digit_counts_cover_population(a.drop_last());
        if counted(a.last()) {
            lemma_leading_digit_range(a.last() as nat);
        }
    }
}

fn leading_digit_of(n: u64) -> (r: u64)
    ensures
        r == leading_digit(n as nat),
        r < 10,
{
    let mut m = n;
    while m >= 10
        invariant
            leading_digit(m as nat) == leading_digit(n as nat),
        decreases m,
    {
        m = m / 10;
    }
    m
}

fn second_digit_of(n: u64) -> (r: u64)
    requires
        n >= 10,
    ensures
        r == second_digit(n as nat),
        r < 10,
{
    let mut m = n;
    while m >= 100
        invariant
            m >= 10,
            second_digit(m as nat) == second_digit(n as nat),
        decreases m,
    {
        m = m / 10;
    }
    m % 10
}

/// Adds one to `counts[d]`.
fn bump(counts: &mut Vec<usize>, d: usize, bound: usize)
    requires
        d < old(counts)@.len(),
        old(counts)@[d as int] < bound,
    ensures
        final(counts)@ == old(counts)@.update(d as int, (old(counts)@[d as int] + 1) as usize),
{
    let v = counts[d];
    counts.set(d, v + 1);
}

/// Counts the first and second digits of the amounts of at least 1.00,
/// and decides whether the population qualifies for the test: it needs at
/// least 100 such amounts spanning at least three orders of magnitude (the
/// largest at least a thousand times the smallest).
pub fn tally_benford(amounts_cents: &[i64]) -> (r: BenfordTally)
    ensures
        r.population == counted_amounts(amounts_cents@).len(),
        r.first_digit_counts@.len() == 10,
        r.second_digit_counts@.len() == 10,
        forall|d: int|
            0 <= d < 10 ==> #[trigger] r.first_digit_counts@[d] == first_digit_count(
                amounts_cents@,
                d as nat,
            ),
        forall|d: int|
            0 <= d < 10 ==> #[trigger] r.second_digit_counts@[d] == second_digit_count(
                amounts_cents@,
                d as nat,
            ),
        r.population < 100 ==> r.eligibility == BenfordEligibility::TooFewAmounts,
        r.population < 100 && r.population > 0 ==> r.min_cents == counted_amounts(amounts_cents@)[0]
            && r.max_cents == counted_amounts(amounts_cents@).last(),
        r.population == 0 ==> r.min_cents == 0 && r.max_cents == 0,
        r.population >= 100 ==> r.min_cents == min_of(counted_amounts(amounts_cents@))
            && r.max_cents == max_of(counted_amounts(amounts_cents@)) && r.eligibility == if r.max_cents
            < 1000 * r.min_cents {
            BenfordEligibility::NarrowRange
        } else {
            BenfordEligibility::Eligible
        },
{
    let ghost a = amounts_cents@;
    let mut first: Vec<usize> = Vec::new();
    let mut second: Vec<usize> = Vec::new();
    let mut d: usize = 0;
    while d < 10
        invariant
            d <= 10,
            first@.len() == d,
            second@.len() == d,
            forall|k: int| 0 <= k < d ==> first@[k] == 0 && second@[k] == 0,
        decreases 10 - d,
    {
        first.push(0);
        second.push(0);
        d = d + 1;
    }
    let mut population: usize = 0;
    let mut first_seen: i64 = 0;
    let mut last_seen: i64 = 0;
    let mut lo: i64 = 0;
    let mut hi: i64 = 0;
    let mut i: usize = 0;
    while i < amounts_cents.len()
        invariant
            i <= a.len(),
            a == amounts_cents@,
            population == counted_amounts(a.take(i as int)).len(),
            population <= i,
            first@.len() == 10,
            second@.len() == 10,
            forall|k: int| 0 <= k < 10 ==> #[trigger] first@[k] == first_digit_count(a.take(i as int), k as nat)
                && first@[k] <= i,
            forall|k: int| 0 <= k < 10 ==> #[trigger] second@[k] == second_digit_count(a.take(i as int), k as nat)
                && second@[k] <= i,
            population > 0 ==> first_seen == counted_amounts(a.take(i as int))[0] && last_seen
                == counted_amounts(a.take(i as int)).last() && lo == min_of(counted_amounts(a.take(i as int)))
                && hi == max_of(counted_amounts(a.take(i as int))),
            population == 0 ==> first_seen == 0 && last_seen == 0,
        decreases a.len() - i,
    {
        let ghost pre = a.take(i as int);
        let ghost pre1 = a.take(i + 1);
        proof {
            assert(pre1.drop_last() =~= pre);
            assert(pre1.last() == a[i as int]);
        }
        let c = amounts_cents[i];
        let ghost old_first = first@;
        let ghost old_second = second@;
        if c >= 100 {
            let cu = c as u64;
            let ld = leading_digit_of(cu) as usize;
            bump(&mut first, ld, i + 1);
            let has_second = !(c % 100 == 0 && c < 1000);
            if has_second {
                let sd = second_digit_of(cu) as usize;
                bump(&mut second, sd, i + 1);
            }
            if population == 0 {
                first_seen = c;
                lo = c;
                hi = c;
            } else {
                if c < lo {
                    lo = c;
                }
                if c > hi {
                    hi = c;
                }
            }
            last_seen = c;
            population = population + 1;
            proof {
                let cs = counted_amounts(pre);
                assert(counted_amounts(pre1) == cs.push(c));
                assert(cs.push(c).drop_last() =~= cs);
                if population == 1 {
                    assert(cs.len() == 0);
                } else {
                    assert(cs.push(c)[0] == cs[0]);
                }
            }
        }
        assert forall|k: int| 0 <= k < 10 implies #[trigger] first@[k] == first_digit_count(pre1, k as nat)
            && first@[k] <= i + 1 by {}
        assert forall|k: int| 0 <= k < 10 implies #[trigger] second@[k] == second_digit_count(pre1, k as nat)
            && second@[k] <= i + 1 by {}
        i = i + 1;
    }
    proof {
        assert(a.take(a.len() as int) =~= a);
    }
    let (min_cents, max_cents, eligibility) = if population < 100 {
        (first_seen, last_seen, BenfordEligibility::TooFewAmounts)
    } else {
        let narrow = (hi as i128) < 1000 * (lo as i128);
        (lo, hi, if narrow { BenfordEligibility::NarrowRange } else { BenfordEligibility::Eligible })
    };
    BenfordTally {
        eligibility,
        population,
        min_cents,
        max_cents,
        first_digit_counts: first,
        second_digit_counts: second,
    }
}

/// How many elements of `a` satisfy `p`.
pub open spec fn count_where(a: Seq<i64>, p: spec_fn(i64) -> bool) -> nat
    decreases a.len(),
{
    if a.len() == 0 {
        0
    } else {
        count_where(a.drop_last(), p) + if p(a.last()) {
            1nat
        } else {
            0nat
        }
    }
}

proof fn lemma_count_where_remove(a: Seq<i64>, j: int, p: spec_fn(i64) -> bool)
    requires
        0 <= j < a.len(),
    ensures
        count_where(a, p) == count_where(a.remove(j), p) + if p(a[j]) {
            1nat
        } else {
            0nat
        },
    decreases a.len(),
{
    if j == a.len() - 1 {
        assert(a.remove(j) =~= a.drop_last());
    } else {
        lemma_count_where_remove(a.drop_last(), j, p);
        assert(a.remove(j).drop_last() =~= a.drop_last().remove(j));
        assert(a.remove(j).last() == a.last());
    }
}

proof fn lemma_count_where_reorder(a: Seq<i64>, b: Seq<i64>, p: spec_fn(i64) -> bool)
    requires
        a.to_multiset() == b.to_multiset(),
    ensures
        count_where(a, p) == count_where(b, p),
    decreases a.len(),
{
    broadcast use vstd::seq_lib::group_to_multiset_ensures, vstd::multiset::group_multiset_axioms;

    if a.len() == 0 {
        assert(b.len() == b.to_multiset().len());
    } else {
        let x = a.last();
        let a1 = a.drop_last();
        assert(a =~= a1.push(x));
        assert(a.to_multiset() =~= a1.to_multiset().insert(x));
        assert(b.to_multiset().count(x) > 0);
        assert(b.contains(x));
        let j = choose|j: int| 0 <= j < b.len() && b[j] == x;
        let b1 = b.remove(j);
        assert(b1.to_multiset() =~= b.to_multiset().remove(x));
        assert(b1.to_multiset() =~= a1.to_multiset());
        lemma_count_where_reorder(a1, b1, p);
        lemma_count_where_remove(b, j, p);
    }
}

proof fn lemma_tallies_are_counts(a: Seq<i64>, d: nat)
    ensures
        counted_amounts(a).len() == count_where(a, |c: i64| counted(c)),
        first_digit_count(a, d) == count_where(
            a,
            |c: i64| counted(c) && leading_digit(c as nat) == d,
        ),
        second_digit_count(a, d) == count_where(
            a,
            |c: i64| counted(c) && has_second_digit(c) && second_digit(c as nat) == d,
        ),
    decreases a.len(),
{
    if a.len() > 0 {
        lemma_tallies_are_counts(a.drop_last(), d);
    }
}

/// The amounts that take part in the test are exactly those of at least
/// 1.00 (100 cents), in their order; the population is their number.
pub proof fn lemma_population_is_amounts_of_at_least_one(a: Seq<i64>)
    ensures
        counted_amounts(a) == a.filter(|c: i64| c >= 100),
    decreases a.len(),
{
    reveal(Seq::filter);
    if a.len() > 0 {
        lemma_population_is_amounts_of_at_least_one(a.drop_last());
    }
}

/// The first digit of a positive `n` is the `d` with `d * 10^k <= n <
/// (d + 1) * 10^k` for some power of ten, and lies between 1 and 9.
pub proof fn lemma_leading_digit_is_first_digit(n: nat)
    requires
        n >= 1,
    ensures
        1 <= leading_digit(n) <= 9,
        exists|k: nat|
            leading_digit(n) * #[trigger] pow10(k) <= n < (leading_digit(n) + 1) * pow10(k),
    decreases n,
{
    if n < 10 {
        assert(pow10(0) == 1);
        assert(leading_digit(n) * pow10(0) <= n < (leading_digit(n) + 1) * pow10(0));
    } else {
        lemma_leading_digit_is_first_digit(n / 10);
        let d = leading_digit(n);
        let k = choose|k: nat| leading_digit(n / 10) * #[trigger] pow10(k) <= n / 10 < (leading_digit(n / 10) + 1) * pow10(k);
        let p = pow10(k);
        let q = n / 10;
        assert(pow10(k + 1) == 10 * p);
        assert(d * (10 * p) <= n < (d + 1) * (10 * p)) by (nonlinear_arith)
            requires
                d * p <= q < (d + 1) * p,
                10 * q <= n < 10 * q + 10,
        ;
        assert(d * pow10(k + 1) <= n < (d + 1) * pow10(k + 1));
    }
}

proof fn lemma_second_digit_range(n: nat)
    ensures
        second_digit(n) < 10,
    decreases n,
{
    if n >= 100 {
        lemma_second_digit_range(n / 10);
    }
}

/// Every counted amount is tallied under exactly one second digit, except
/// the whole amounts 1.00 to 9.00, written with a single digit, which have
/// none: the ten second-digit tallies add up to the population less those
/// amounts. In particular every amount of at least 10.00 has its second
/// digit tallied.
pub proof fn lemma_second_digit_counts_cover_population(a: Seq<i64>)
    ensures
        second_digit_count(a, 0) + second_digit_count(a, 1) + second_digit_count(a, 2)
            + second_digit_count(a, 3) + second_digit_count(a, 4) + second_digit_count(a, 5)
            + second_digit_count(a, 6) + second_digit_count(a, 7) + second_digit_count(a, 8)
            + second_digit_count(a, 9) + count_where(
            a,
            |c: i64| 100 <= c <= 900 && c % 100 == 0,
        ) == counted_amounts(a).len(),
    decreases a.len(),
{
    if a.len() > 0 {
        lemma_second_digit_counts_cover_population(a.drop_last());
        let c = a.last();
        if c >= 100 {
            lemma_second_digit_range(c as nat);
        }
    }
}

proof fn lemma_min_max_bounds(s: Seq<i64>)
    requires
        s.len() > 0,
    ensures
        s.contains(min_of(s)),
        s.contains(max_of(s)),
        forall|i: int| 0 <= i < s.len() ==> min_of(s) <= #[trigger] s[i] <= max_of(s),
    decreases s.len(),
{
    if s.len() > 1 {
        let p = s.drop_last();
        lemma_min_max_bounds(p);
        assert forall|i: int| 0 <= i < s.len() implies min_of(s) <= #[trigger] s[i] <= max_of(s) by {
            if i < s.len() - 1 {
                assert(s[i] == p[i]);
            }
        }
        let j = choose|j: int| 0 <= j < p.len() && p[j] == min_of(p);
        assert(s[j] == p[j]);
        let k = choose|k: int| 0 <= k < p.len() && p[k] == max_of(p);
        assert(s[k] == p[k]);
        assert(s[s.len() - 1] == s.last());
    } else {
        assert(s[0] == s[0]);
    }
}

proof fn lemma_counted_contains(a: Seq<i64>, x: i64)
    ensures
        counted_amounts(a).contains(x) <==> a.contains(x) && counted(x),
    decreases a.len(),
{
    if a.len() > 0 {
        let p = a.drop_last();
        lemma_counted_contains(p, x);
        if p.contains(x) {
            let i = choose|i: int| 0 <= i < p.len() && p[i] == x;
            assert(a[i] == x);
        }
        if a.contains(x) && x != a.last() {
            let i = choose|i: int| 0 <= i < a.len() && a[i] == x;
            assert(p[i] == x);
        }
        assert(a[a.len() - 1] == a.last());
        if counted(a.last()) {
            let c = counted_amounts(p);
            assert(counted_amounts(a) == c.push(a.last()));
            if c.contains(x) {
                let i = choose|i: int| 0 <= i < c.len() && c[i] == x;
                assert(c.push(a.last())[i] == x);
            }
            if c.push(a.last()).contains(x) && x != a.last() {
                let i = choose|i: int| 0 <= i < c.len() + 1 && c.push(a.last())[i] == x;
                assert(c[i] == x);
            }
            assert(c.push(a.last())[c.len() as int] == a.last());
        }
    }
}

proof fn lemma_extremes_ignore_order(a: Seq<i64>, b: Seq<i64>)
    requires
        forall|x: i64| a.contains(x) <==> b.contains(x),
        counted_amounts(a).len() > 0,
        counted_amounts(b).len() > 0,
    ensures
        min_of(counted_amounts(a)) == min_of(counted_amounts(b)),
        max_of(counted_amounts(a)) == max_of(counted_amounts(b)),
{
    let ca = counted_amounts(a);
    let cb = counted_amounts(b);
    lemma_min_max_bounds(ca);
    lemma_min_max_bounds(cb);
    lemma_counted_contains(a, min_of(ca));
    lemma_counted_contains(b, min_of(ca));
    lemma_counted_contains(a, min_of(cb));
    lemma_counted_contains(b, min_of(cb));
    lemma_counted_contains(a, max_of(ca));
    lemma_counted_contains(b, max_of(ca));
    lemma_counted_contains(a, max_of(cb));
    lemma_counted_contains(b, max_of(cb));
    let i = choose|i: int| 0 <= i < cb.len() && cb[i] == min_of(ca);
    let j = choose|j: int| 0 <= j < ca.len() && ca[j] == min_of(cb);
    let k = choose|k: int| 0 <= k < cb.len() && cb[k] == max_of(ca);
    let l = choose|l: int| 0 <= l < ca.len() && ca[l] == max_of(cb);
    assert(min_of(cb) <= cb[i]);
    assert(min_of(ca) <= ca[j]);
    assert(cb[k] <= max_of(cb));
    assert(ca[l] <= max_of(ca));
}

/// The population, the digit tallies and the smallest and largest
/// counted amounts (hence the eligibility of a population of at least
/// 100) do not depend on the order of the amounts.
pub proof fn lemma_tallies_ignore_order(a: Seq<i64>, b: Seq<i64>)
    requires
        a.to_multiset() == b.to_multiset(),
    ensures
        counted_amounts(a).len() == counted_amounts(b).len(),
        counted_amounts(a).len() > 0 ==> min_of(counted_amounts(a)) == min_of(counted_amounts(b))
            && max_of(counted_amounts(a)) == max_of(counted_amounts(b)),
        forall|d: nat| #[trigger] first_digit_count(a, d) == first_digit_count(b, d),
        forall|d: nat| #[trigger] second_digit_count(a, d) == second_digit_count(b, d),
{
    assert forall|d: nat| #[trigger] first_digit_count(a, d) == first_digit_count(b, d) by {
        lemma_tallies_are_counts(a, d);
        lemma_tallies_are_counts(b, d);
        lemma_count_where_reorder(a, b, |c: i64| counted(c) && leading_digit(c as nat) == d);
    }
    assert forall|d: nat| #[trigger] second_digit_count(a, d) == second_digit_count(b, d) by {
        lemma_tallies_are_counts(a, d);
        lemma_tallies_are_counts(b, d);
        lemma_count_where_reorder(
            a,
            b,
            |c: i64| counted(c) && has_second_digit(c) && second_digit(c as nat) == d,
        );
    }
    lemma_tallies_are_counts(a, 0);
    lemma_tallies_are_counts(b, 0);
    lemma_count_where_reorder(a, b, |c: i64| counted(c));
    if counted_amounts(a).len() > 0 {
        broadcast use vstd::seq_lib::group_to_multiset_ensures;

        assert forall|x: i64| a.contains(x) <==> b.contains(x) by {
            assert(a.contains(x) <==> a.to_multiset().count(x) > 0);
            assert(b.contains(x) <==> b.to_multiset().count(x) > 0);
        }
        lemma_extremes_ignore_order(a, b);
    }
}

/// `x / 4` rounded to the nearest integer, halves away from zero.
pub open spec fn quarter_rounded(x: int) -> int {
    if x >= 0 {
        (x + 2) / 4
    } else {
        -((-x + 2) / 4)
    }
}

/// The finding for first digit `digit`, seen `count` times, far more often
/// than Benford's law expects: High when the spike is extreme, Medium
/// otherwise. Its exposure is a quarter of `count` times the sum of the
/// smallest and the largest amount, to the nearest cent.
pub open spec fn digit_spike(
    digit: u32,
    count: usize,
    min_cents: i64,
    max_cents: i64,
    extreme: bool,
) -> FindingView {
    FindingView {
        rule: AuditRule::BenfordDigitSpike,
        severity: if extreme {
            RiskSeverity::High
        } else {
            RiskSeverity::Medium
        },
        transaction_id: None,
        exposure_cents: quarter_rounded(count * (min_cents + max_cents)) as i128,
        raw_line: None,
        detail: DetailView::BenfordDigit { digit, count },
    }
}

/// Builds the finding for a first-digit spike (see `digit_spike`); whether
/// the digit spikes, and how far, is decided by the caller's statistics.
pub fn digit_spike_finding(
    digit: u32,
    count: usize,
    min_cents: i64,
    max_cents: i64,
    extreme: bool,
) -> (r: AuditFinding)
    ensures
        r@ == digit_spike(digit, count, min_cents, max_cents, extreme),
{
    let sum: i128 = min_cents as i128 + max_cents as i128;
    let negative = sum < 0;
    let magnitude: u128 = if negative { (-sum) as u128 } else { sum as u128 };
    let n: u128 = count as u128;
    proof {
        assert(magnitude <= 0x1_0000_0000_0000_0000);
        assert(n <= 0xffff_ffff_ffff_ffff);
        assert(n * magnitude <= 0xffff_ffff_ffff_ffff * 0x1_0000_0000_0000_0000) by (nonlinear_arith)
            requires
                magnitude <= 0x1_0000_0000_0000_0000,
                n <= 0xffff_ffff_ffff_ffff,
        ;
    }
    let product: u128 = n * magnitude;
    let quarter: u128 = (product + 2) / 4;
    assert(quarter <= 0x4000_0000_0000_0000_0000_0000_0000_0000);
    let exposure: i128 = if negative { -(quarter as i128) } else { quarter as i128 };
    proof {
        if negative {
            assert(count * (min_cents + max_cents) == -(n * magnitude)) by (nonlinear_arith)
                requires
                    magnitude == -(min_cents + max_cents),
                    n == count,
            ;
        } else {
            assert(count * (min_cents + max_cents) == n * magnitude) by (nonlinear_arith)
                requires
                    magnitude == min_cents + max_cents,
                    n == count,
            ;
        }
    }
    AuditFinding {
        rule: AuditRule::BenfordDigitSpike,
        severity: if extreme {
            RiskSeverity::High
        } else {
            RiskSeverity::Medium
        },
        transaction_id: None,
        exposure_cents: exposure,
        raw_line: None,
        detail: FindingDetail::BenfordDigit { digit, count },
    }
}

/// The finding for a population of `population` amounts that as a whole
/// departs from Benford's law.
pub open spec fn population_nonconformity(population: usize) -> FindingView {
    FindingView {
        rule: AuditRule::BenfordPopulationNonconformity,
        severity: RiskSeverity::Medium,
        transaction_id: None,
        exposure_cents: 0,
        raw_line: None,
        detail: DetailView::BenfordPopulation { population },
    }
}

/// Builds the finding for a nonconforming population (see
/// `population_nonconformity`).
pub fn population_nonconformity_finding(population: usize) -> (r: AuditFinding)
    ensures
        r@ == population_nonconformity(population),
{
    AuditFinding {
        rule: AuditRule::BenfordPopulationNonconformity,
        severity: RiskSeverity::Medium,
        transaction_id: None,
        exposure_cents: 0,
        raw_line: None,
        detail: FindingDetail::BenfordPopulation { population },
    }
}

} // verus!
