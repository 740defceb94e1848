use vstd::prelude::*;
use vstd::arithmetic::div_mod::{lemma_fundamental_div_mod, lemma_fundamental_div_mod_converse};
use vstd::relations::{sorted_by, total_ordering};
use vstd::seq_lib::{group_to_multiset_ensures, lemma_sorted_unique};
use vstd::multiset::group_multiset_axioms;

verus! {

/// Divisor from nanoseconds to whole microseconds.
pub const NANOS_PER_MICRO: u128 = 1000;

/// Summary of a set of timing samples, all in one unit.
#[derive(Clone, Copy, Debug, PartialEq, Eq, Structural)]
pub struct TimingStats {
    pub median: u128,
    pub average: u128,
    pub min: u128,
    pub max: u128,
}

/// A duration given in whole nanoseconds, expressed in the reporting unit.
pub open spec fn in_unit(nanos: u128, use_nanos: bool) -> u128 {
    if use_nanos {
        nanos
    } else {
        (nanos / NANOS_PER_MICRO) as u128
    }
}

/// Converts a duration in whole nanoseconds to the reporting unit: unchanged
/// in nanosecond mode, else truncated to whole microseconds (which is what
/// `Duration::as_micros` gives for the same duration).
pub fn to_unit(nanos: u128, use_nanos: bool) -> (r: u128)
    ensures
        r == in_unit(nanos, use_nanos),
{
    if use_nanos {
        nanos
    } else {
        nanos / NANOS_PER_MICRO
    }
}

/// The ascending order on samples.
pub open spec fn ascending() -> spec_fn(u128, u128) -> bool {
    |x: u128, y: u128| x <= y
}

/// The samples in ascending order.
pub open spec fn sorted_of(s: Seq<u128>) -> Seq<u128> {
    s.sort_by(ascending())
}

/// The exact sum of the samples.
pub open spec fn sum_of(s: Seq<u128>) -> int
    decreases s.len(),
{
    if s.len() == 0 {
        0
    } else {
        sum_of(s.drop_last()) + s.last()
    }
}

/// Statistics of a sample set: order statistics of the ascending sequence
/// (the median is the element at index `len / 2`, the upper median for an
/// even count), and the truncated mean. An empty set has all four at zero.
pub open spec fn stats_of(s: Seq<u128>) -> TimingStats {
    if s.len() == 0 {
        TimingStats { median: 0, average: 0, min: 0, max: 0 }
    } else {
        let t = sorted_of(s);
        TimingStats {
            median: t[(s.len() / 2) as int],
            average: (sum_of(s) / (s.len() as int)) as u128,
            min: t[0],
            max: t[s.len() - 1],
        }
    }
}

pub proof fn lemma_ascending_total()
    ensures
        total_ordering(ascending()),
{
}

/// The ascending sequence is sorted and holds the same samples.
pub proof fn lemma_sorted_of(s: Seq<u128>)
    ensures
        sorted_by(sorted_of(s), ascending()),
        sorted_of(s).to_multiset() == s.to_multiset(),
        sorted_of(s).len() == s.len(),
{
    lemma_ascending_total();
    s.lemma_sort_by_ensures(ascending());
    s.to_multiset_ensures();
    sorted_of(s).to_multiset_ensures();
}

/// Each prefix sum is at most the prefix length times the largest `u128`.
pub proof fn lemma_sum_bounded(s: Seq<u128>, lo: int, hi: int)
    requires
        forall|i: int| 0 <= i < s.len() ==> lo <= #[trigger] s[i] <= hi,
    ensures
        s.len() * lo <= sum_of(s) <= s.len() * hi,
    decreases s.len(),
{
    if s.len() > 0 {
        let p = s.drop_last();
        lemma_sum_bounded(p, lo, hi);
        assert(s.len() * lo == p.len() * lo + lo) by (nonlinear_arith)
            requires s.len() == p.len() + 1;
        assert(s.len() * hi == p.len() * hi + hi) by (nonlinear_arith)
            requires s.len() == p.len() + 1;
    }
}

/// Relies on `slice::sort`: afterwards the vector is in ascending order and
/// holds the same elements as before.
#[verifier::external_body]
fn sort_ascending(v: &mut Vec<u128>)
    ensures
        final(v)@.to_multiset() == old(v)@.to_multiset(),
        sorted_by(final(v)@, ascending()),
{
    v.sort();
}

/// Truncated mean of a non-empty sample set, computed without overflow by
/// keeping the running sum as quotient and remainder of the count.
pub fn average_of(v: &Vec<u128>) -> (r: u128)
    requires
        v.len() > 0,
    ensures
        r == sum_of(v@) / (v.len() as int),
{
    let n: u128 = v.len() as u128;
    let mut q: u128 = 0;
    let mut rem: u128 = 0;
    let mut i: usize = 0;
    while i < v.len()
        invariant
            n == v.len(),
            n > 0,
            0 <= i <= v.len(),
            rem < n,
            q * n + rem == sum_of(v@.take(i as int)),
            q * n <= i * u128::MAX,
        decreases v.len() - i,
    {
        let x = v[i];
        let qx = x / n;
        let rx = x % n;
        assert(v@.take(i + 1).drop_last() == v@.take(i as int));
        assert(sum_of(v@.take(i + 1)) == sum_of(v@.take(i as int)) + x);
        assert(x == n * qx + rx) by {
            lemma_fundamental_div_mod(x as int, n as int);
        }
        assert(qx * n + rx == x) by (nonlinear_arith)
            requires x == n * qx + rx;
        assert(qx * n <= u128::MAX);
        assert((q + qx) * n <= (i + 1) * u128::MAX) by (nonlinear_arith)
            requires q * n <= i * u128::MAX, qx * n <= u128::MAX;
        assert(q + qx <= u128::MAX) by (nonlinear_arith)
            requires (q + qx) * n <= (i + 1) * u128::MAX, i + 1 <= n, n > 0;
        let mut q2: u128 = q + qx;
        let mut r2: u128 = rem + rx;
        assert(q2 * n + r2 == sum_of(v@.take(i + 1))) by (nonlinear_arith)
            requires
                q2 == q + qx,
                r2 == rem + rx,
                qx * n + rx == x,
                q * n + rem == sum_of(v@.take(i as int)),
                sum_of(v@.take(i + 1)) == sum_of(v@.take(i as int)) + x;
        proof {
            lemma_sum_bounded(v@.take(i + 1), 0, u128::MAX as int);
        }
        if r2 >= n {
            assert((q2 + 1) * n <= sum_of(v@.take(i + 1))) by (nonlinear_arith)
                requires q2 * n + r2 == sum_of(v@.take(i + 1)), r2 >= n;
            assert(q2 + 1 <= u128::MAX) by (nonlinear_arith)
                requires (q2 + 1) * n <= (i + 1) * u128::MAX, i + 1 <= n, n > 0;
            assert((q2 + 1) * n + (r2 - n) == q2 * n + r2) by (nonlinear_arith);
            q2 = q2 + 1;
            r2 = r2 - n;
        }
        assert(q2 * n <= (i + 1) * u128::MAX) by (nonlinear_arith)
            requires q2 * n + r2 == sum_of(v@.take(i + 1)), r2 >= 0,
                sum_of(v@.take(i + 1)) <= (i + 1) * u128::MAX;
        q = q2;
        rem = r2;
        i = i + 1;
    }
    assert(v@.take(v.len() as int) == v@);
    proof {
        lemma_fundamental_div_mod_converse(sum_of(v@), n as int, q as int, rem as int);
    }
    q
}

/// Statistics of a sample set, as `stats_of` defines them. The samples may
/// come in any order.
pub fn compute_stats(times: Vec<u128>) -> (r: TimingStats)
    ensures
        r == stats_of(times@),
{
    if times.len() == 0 {
        return TimingStats { median: 0, average: 0, min: 0, max: 0 };
    }
    let average = average_of(&times);
    let mut sorted = times;
    sort_ascending(&mut sorted);
    proof {
        lemma_sorted_of(times@);
        lemma_ascending_total();
        lemma_sorted_unique(sorted@, sorted_of(times@), ascending());
        times@.to_multiset_ensures();
        sorted@.to_multiset_ensures();
    }
    let n = sorted.len();
    TimingStats { median: sorted[n / 2], average, min: sorted[0], max: sorted[n - 1] }
}

/// The samples lie between the first and the last of the ascending sequence.
proof fn lemma_samples_within(s: Seq<u128>)
    requires
        s.len() > 0,
    ensures
        forall|i: int|
            0 <= i < s.len() ==> sorted_of(s)[0] <= #[trigger] s[i] <= sorted_of(s)[s.len() - 1],
{
    lemma_sorted_of(s);
    let t = sorted_of(s);
    assert forall|i: int| 0 <= i < s.len() implies t[0] <= #[trigger] s[i] <= t[s.len() - 1] by {
        s.to_multiset_ensures();
        t.to_multiset_ensures();
        assert(s.contains(s[i]));
        assert(s.to_multiset().count(s[i]) > 0);
        assert(t.to_multiset().count(s[i]) > 0);
        assert(t.contains(s[i]));
        let k = choose|k: int| 0 <= k < t.len() && t[k] == s[i];
        assert(k == 0 || ascending()(t[0], t[k]));
        assert(k == s.len() - 1 || ascending()(t[k], t[s.len() - 1]));
    }
}

/// Order of the statistics: the minimum is at most the median, which is at
/// most the maximum.
pub proof fn lemma_median_between(s: Seq<u128>)
    ensures
        stats_of(s).min <= stats_of(s).median <= stats_of(s).max,
{
    if s.len() > 0 {
        lemma_sorted_of(s);
        let t = sorted_of(s);
        let m = (s.len() / 2) as int;
        assert(m == 0 || ascending()(t[0], t[m]));
        assert(m == s.len() - 1 || ascending()(t[m], t[s.len() - 1]));
    }
}

/// The truncated mean of a non-empty sample set lies between its minimum and
/// its maximum.
pub proof fn lemma_average_between(s: Seq<u128>)
    requires
        s.len() > 0,
    ensures
        stats_of(s).min <= stats_of(s).average <= stats_of(s).max,
{
    lemma_samples_within(s);
    let lo = sorted_of(s)[0] as int;
    let hi = sorted_of(s)[s.len() - 1] as int;
    lemma_sum_bounded(s, lo, hi);
    let n = s.len() as int;
    let sum = sum_of(s);
    assert(lo <= sum / n <= hi) by (nonlinear_arith)
        requires n > 0, n * lo <= sum, sum <= n * hi;
}

/// When every trial took the same time `t`, all four statistics are `t`.
pub proof fn lemma_constant_samples(s: Seq<u128>, t: u128)
    requires
        s.len() > 0,
        forall|i: int| 0 <= i < s.len() ==> #[trigger] s[i] == t,
    ensures
        stats_of(s) == (TimingStats { median: t, average: t, min: t, max: t }),
{
    lemma_sorted_of(s);
    lemma_ascending_total();
    lemma_sorted_unique(s, sorted_of(s), ascending());
    lemma_sum_bounded(s, t as int, t as int);
    let n = s.len() as int;
    assert(n * t / n == t) by (nonlinear_arith)
        requires n > 0;
}

/// Reporting in nanoseconds gives the microsecond figure times a thousand,
/// up to the 999 nanoseconds that truncation drops.
pub proof fn lemma_unit_conversion(nanos: u128)
    ensures
        1000 * in_unit(nanos, false) <= in_unit(nanos, true),
        in_unit(nanos, true) <= 1000 * in_unit(nanos, false) + 999,
{
}

/// Truncation of a nanosecond figure to whole microseconds.
pub open spec fn to_micros() -> spec_fn(u128) -> u128 {
    |x: u128| in_unit(x, false)
}

/// Mapping two sequences with the same elements gives sequences with the
/// same elements.
proof fn lemma_map_same_multiset(s: Seq<u128>, t: Seq<u128>, g: spec_fn(u128) -> u128)
    requires
        s.to_multiset() == t.to_multiset(),
    ensures
        s.map_values(g).to_multiset() == t.map_values(g).to_multiset(),
    decreases s.len(),
{
    broadcast use group_to_multiset_ensures, group_multiset_axioms;

    if s.len() == 0 {
        assert(t.to_multiset().len() == 0);
        assert(t.len() == 0);
        assert(s.map_values(g) =~= t.map_values(g));
    } else {
        let x = s.last();
        let p = s.drop_last();
        assert(s == p.push(x));
        assert(s.to_multiset().count(x) > 0);
        assert(t.contains(x));
        let k = choose|k: int| 0 <= k < t.len() && t[k] == x;
        let t2 = t.remove(k);
        assert(t2.to_multiset() =~= p.to_multiset());
        lemma_map_same_multiset(p, t2, g);
        assert(s.map_values(g) =~= p.map_values(g).push(g(x)));
        assert(t2.map_values(g) =~= t.map_values(g).remove(k));
        assert(t.map_values(g)[k] == g(x));
        assert(t.map_values(g).to_multiset() =~= t2.map_values(g).to_multiset().insert(g(x)));
    }
}

/// Truncating every sample to microseconds and then sorting gives the
/// sorted nanosecond samples truncated one by one.
proof fn lemma_sorted_micros(s: Seq<u128>)
    ensures
        sorted_of(s.map_values(to_micros())) == sorted_of(s).map_values(to_micros()),
{
    let u = s.map_values(to_micros());
    let t = sorted_of(s);
    lemma_sorted_of(s);
    lemma_sorted_of(u);
    lemma_ascending_total();
    assert forall|i: int, j: int| 0 <= i < j < t.len() implies #[trigger] ascending()(
        t.map_values(to_micros())[i],
        t.map_values(to_micros())[j],
    ) by {
        assert(ascending()(t[i], t[j]));
    }
    lemma_map_same_multiset(t, s, to_micros());
    lemma_sorted_unique(sorted_of(u), t.map_values(to_micros()), ascending());
}

/// The sum of the truncated samples is within the truncation loss of the
/// sum of the nanosecond samples.
proof fn lemma_sum_micros(s: Seq<u128>)
    ensures
        1000 * sum_of(s.map_values(to_micros())) <= sum_of(s),
        sum_of(s) <= 1000 * sum_of(s.map_values(to_micros())) + 999 * s.len(),
    decreases s.len(),
{
    if s.len() > 0 {
        lemma_sum_micros(s.drop_last());
        assert(s.map_values(to_micros()).drop_last() =~= s.drop_last().map_values(to_micros()));
    }
}

/// The same durations summarised in nanoseconds and in microseconds: the
/// minimum, median and maximum in microseconds are those in nanoseconds
/// truncated to whole microseconds, and the averages agree up to the 999
/// nanoseconds lost per sample and the 999 lost when dividing.
pub proof fn lemma_stats_in_micros(s: Seq<u128>)
    ensures
        stats_of(s.map_values(to_micros())).min == stats_of(s).min / 1000,
        stats_of(s.map_values(to_micros())).median == stats_of(s).median / 1000,
        stats_of(s.map_values(to_micros())).max == stats_of(s).max / 1000,
        1000 * stats_of(s.map_values(to_micros())).average <= stats_of(s).average,
        stats_of(s).average <= 1000 * stats_of(s.map_values(to_micros())).average + 1998,
{
    if s.len() > 0 {
        lemma_sorted_micros(s);
        lemma_sorted_of(s);
        lemma_sum_micros(s);
        let u = s.map_values(to_micros());
        let n = s.len() as int;
        let su = sum_of(u);
        let sd = sum_of(s);
        lemma_sum_bounded(u, 0, u128::MAX as int);
        lemma_sum_bounded(s, 0, u128::MAX as int);
        assert(0 <= su / n <= u128::MAX && 0 <= sd / n <= u128::MAX) by (nonlinear_arith)
            requires n > 0, 0 <= su <= n * u128::MAX, 0 <= sd <= n * u128::MAX;
        assert(1000 * (su / n) <= sd / n && sd / n <= 1000 * (su / n) + 1998) by (nonlinear_arith)
            requires n > 0, 1000 * su <= sd, sd <= 1000 * su + 999 * n, su >= 0;
    }
}

} // verus!
