use vstd::prelude::*;

verus! {

/// Nanoseconds in the longest `std::time::Duration` (`u64::MAX` seconds and
/// 999 999 999 nanoseconds).
pub const MAX_DURATION_NANOS: u128 = 18446744073709551615999999999u128;

/// The result of benchmarking one nix version: the wall-clock time of each run
/// in nanoseconds, their mean (rounded down to the nanosecond) and their median.
#[derive(Debug, Clone)]
pub struct EvalResult {
    pub version: String,
    pub avg_time: u128,
    pub median_time: u128,
    pub run_times: Vec<u128>,
}

pub open spec fn sum(s: Seq<u128>) -> nat
    decreases s.len(),
{
    if s.len() == 0 {
        0
    } else {
        sum(s.drop_last()) + s.last() as nat
    }
}

/// Where `x` goes in the ascending `r`: after every time not greater than it.
pub open spec fn time_insertion_point(r: Seq<u128>, x: u128) -> nat
    decreases r.len(),
{
    if r.len() == 0 || x < r[0] {
        0
    } else {
        1 + time_insertion_point(r.drop_first(), x)
    }
}

/// `s` in ascending order.
pub open spec fn sort_times(s: Seq<u128>) -> Seq<u128>
    decreases s.len(),
{
    if s.len() == 0 {
        s
    } else {
        let r = sort_times(s.drop_last());
        r.insert(time_insertion_point(r, s.last()) as int, s.last())
    }
}

pub open spec fn ascending(r: Seq<u128>) -> bool {
    forall|i: int, j: int| 0 <= i < j < r.len() ==> #[trigger] r[i] <= #[trigger] r[j]
}

/// The mean of the run times as `Duration` division by `len as u32` gives it:
/// the total divided by the number of runs (taken modulo 2^32), rounded down;
/// 0 for no runs.
pub open spec fn spec_average(s: Seq<u128>) -> nat {
    if s.len() == 0 {
        0
    } else {
        sum(s) / ((s.len() as u32) as nat)
    }
}

/// The median of the run times: the middle one of the sorted times, or the
/// mean (rounded down) of the two middle ones; 0 for no runs.
pub open spec fn spec_median(s: Seq<u128>) -> nat {
    let t = sort_times(s);
    let mid = (t.len() / 2) as int;
    if t.len() == 0 {
        0
    } else if t.len() % 2 == 0 {
        ((t[mid - 1] + t[mid]) / 2) as nat
    } else {
        t[mid] as nat
    }
}

proof fn lemma_time_insertion_point(r: Seq<u128>, x: u128, j: int)
    requires
        0 <= j <= r.len(),
        forall|m: int| 0 <= m < j ==> !(x < #[trigger] r[m]),
        j == r.len() || x < r[j],
    ensures
        time_insertion_point(r, x) == j,
    decreases r.len(),
{
    if r.len() > 0 && j > 0 {
        assert(!(x < r[0]));
        assert forall|m: int| 0 <= m < j - 1 implies !(x < #[trigger] r.drop_first()[m]) by {
            assert(r.drop_first()[m] == r[m + 1]);
        }
        lemma_time_insertion_point(r.drop_first(), x, j - 1);
    }
}

proof fn lemma_time_insertion_point_facts(r: Seq<u128>, x: u128)
    ensures
        time_insertion_point(r, x) <= r.len(),
        forall|m: int| 0 <= m < time_insertion_point(r, x) ==> #[trigger] r[m] <= x,
        time_insertion_point(r, x) == r.len() || x < r[time_insertion_point(r, x) as int],
    decreases r.len(),
{
    if r.len() > 0 && !(x < r[0]) {
        lemma_time_insertion_point_facts(r.drop_first(), x);
        assert forall|m: int| 0 <= m < time_insertion_point(r, x) implies #[trigger] r[m] <= x by {
            if m > 0 {
                assert(r[m] == r.drop_first()[m - 1]);
            }
        }
        if time_insertion_point(r, x) < r.len() {
            assert(r[time_insertion_point(r, x) as int] == r.drop_first()[time_insertion_point(r.drop_first(), x) as int]);
        }
    }
}

/// `sort_times` sorts: its result is ascending and holds the same times, each
/// as often.
pub proof fn lemma_sort_times(s: Seq<u128>)
    ensures
        ascending(sort_times(s)),
        sort_times(s).to_multiset() == s.to_multiset(),
        sort_times(s).len() == s.len(),
    decreases s.len(),
{
    broadcast use vstd::seq_lib::group_to_multiset_ensures;

    if s.len() > 0 {
        lemma_sort_times(s.drop_last());
        let r = sort_times(s.drop_last());
        let x = s.last();
        let p = time_insertion_point(r, x) as int;
        lemma_time_insertion_point_facts(r, x);
        let r2 = r.insert(p, x);
        r.insert_ensures(p, x);
        assert forall|i: int, j: int| 0 <= i < j < r2.len() implies #[trigger] r2[i] <= #[trigger] r2[j] by {
            if j < p {
                assert(r2[i] == r[i] && r2[j] == r[j]);
            } else if j == p {
                assert(r2[i] == r[i]);
            } else if i < p {
                assert(r2[i] == r[i] && r2[j] == r[j - 1]);
            } else if i == p {
                assert(r2[j] == r[j - 1]);
                if j - 1 > p {
                    assert(r[p] <= r[j - 1]);
                }
            } else {
                assert(r2[i] == r[i - 1] && r2[j] == r[j - 1]);
            }
        }
        assert(s == s.drop_last().push(x));
    }
}

proof fn lemma_sum_permutation(a: Seq<u128>, b: Seq<u128>)
    requires
        a.to_multiset() == b.to_multiset(),
    ensures
        sum(a) == sum(b),
    decreases a.len(),
{
    broadcast use vstd::seq_lib::group_to_multiset_ensures;

    if a.len() == 0 {
        assert(a.to_multiset().len() == 0);
        assert(b.to_multiset().len() == b.len());
    } else {
        let x = a.last();
        assert(a == a.drop_last().push(x));
        assert(a.to_multiset().count(x) > 0);
        assert(b.contains(x));
        let k = choose|k: int| 0 <= k < b.len() && b[k] == x;
        lemma_sum_remove(b, k);
        assert(b.remove(k).to_multiset() == b.to_multiset().remove(x));
        assert(a.drop_last().to_multiset() =~= a.to_multiset().remove(x));
        lemma_sum_permutation(a.drop_last(), b.remove(k));
    }
}

proof fn lemma_sum_remove(s: Seq<u128>, k: int)
    requires
        0 <= k < s.len(),
    ensures
        sum(s) == sum(s.remove(k)) + s[k],
    decreases s.len(),
{
    if k < s.len() - 1 {
        lemma_sum_remove(s.drop_last(), k);
        assert(s.remove(k).drop_last() == s.drop_last().remove(k));
        assert(s.remove(k).last() == s.last());
    } else {
        assert(s.remove(k) == s.drop_last());
    }
}

proof fn lemma_two_le_sum(s: Seq<u128>, i: int, j: int)
    requires
        0 <= i < j < s.len(),
    ensures
        s[i] + s[j] <= sum(s),
    decreases s.len(),
{
    if j < s.len() - 1 {
        lemma_two_le_sum(s.drop_last(), i, j);
    } else {
        lemma_one_le_sum(s.drop_last(), i);
    }
}

proof fn lemma_one_le_sum(s: Seq<u128>, i: int)
    requires
        0 <= i < s.len(),
    ensures
        s[i] <= sum(s),
    decreases s.len(),
{
    if i < s.len() - 1 {
        lemma_one_le_sum(s.drop_last(), i);
    }
}

/// The times of `times`, sorted.
fn sorted_times(times: &Vec<u128>) -> (r: Vec<u128>)
    ensures
        r@ == sort_times(times@),
{
    let mut r: Vec<u128> = Vec::new();
    let mut i: usize = 0;
    while i < times.len()
        invariant
            i <= times.len(),
            r@ == sort_times(times@.take(i as int)),
        decreases times.len() - i,
    {
        let x = times[i];
        let mut j: usize = 0;
        while j < r.len() && !(x < r[j])
            invariant
                j <= r.len(),
                forall|m: int| 0 <= m < j ==> !(x < #[trigger] r@[m]),
            decreases r.len() - j,
        {
            j = j + 1;
        }
        proof {
            lemma_time_insertion_point(r@, x, j as int);
            assert(times@.take(i + 1).drop_last() == times@.take(i as int));
        }
        r.insert(j, x);
        i = i + 1;
    }
    assert(times@.take(times.len() as int) == times@);
    r
}

/// The total of the run times.
fn total_time(times: &Vec<u128>) -> (t: u128)
    requires
        sum(times@) <= MAX_DURATION_NANOS,
    ensures
        t == sum(times@),
{
    let mut t: u128 = 0;
    let mut i: usize = 0;
    while i < times.len()
        invariant
            i <= times.len(),
            t == sum(times@.take(i as int)),
            sum(times@) <= MAX_DURATION_NANOS,
        decreases times.len() - i,
    {
        assert(times@.take(i + 1).drop_last() == times@.take(i as int));
        proof {
            lemma_sum_prefix(times@, i + 1);
        }
        t = t + times[i];
        i = i + 1;
    }
    assert(times@.take(times.len() as int) == times@);
    t
}

proof fn lemma_sum_prefix(s: Seq<u128>, i: int)
    requires
        0 <= i <= s.len(),
    ensures
        sum(s.take(i)) <= sum(s),
    decreases s.len() - i,
{
    if i < s.len() {
        lemma_sum_prefix(s, i + 1);
        assert(s.take(i + 1).drop_last() == s.take(i));
    } else {
        assert(s.take(i) == s);
    }
}

/// The mean of the run times (see `spec_average`).
pub fn average_time(times: &Vec<u128>) -> (avg: u128)
    requires
        sum(times@) <= MAX_DURATION_NANOS,
        times.len() == 0 || times.len() as u32 != 0,
    ensures
        avg == spec_average(times@),
{
    if times.len() == 0 {
        return 0;
    }
    let total = total_time(times);
    #[verifier::truncate]
    let runs = times.len() as u32;
    total / (runs as u128)
}

/// The median of the run times (see `spec_median`).
pub fn median_time(times: &Vec<u128>) -> (median: u128)
    requires
        sum(times@) <= MAX_DURATION_NANOS,
    ensures
        median == spec_median(times@),
{
    if times.len() == 0 {
        return 0;
    }
    let sorted = sorted_times(times);
    proof {
        lemma_sort_times(times@);
        lemma_sum_permutation(sorted@, times@);
    }
    let mid = sorted.len() / 2;
    if sorted.len() % 2 == 0 {
        proof {
            lemma_two_le_sum(sorted@, mid - 1, mid as int);
        }
        (sorted[mid - 1] + sorted[mid]) / 2
    } else {
        sorted[mid]
    }
}

proof fn lemma_sum_bounds(s: Seq<u128>, lo: int, hi: int)
    requires
        forall|i: int| 0 <= i < s.len() ==> lo <= #[trigger] s[i] <= hi,
    ensures
        s.len() * lo <= sum(s) <= s.len() * hi,
    decreases s.len(),
{
    if s.len() > 0 {
        lemma_sum_bounds(s.drop_last(), lo, hi);
        assert(lo <= s.last() <= hi);
        assert(s.len() * lo == (s.len() - 1) * lo + lo) by (nonlinear_arith);
        assert(s.len() * hi == (s.len() - 1) * hi + hi) by (nonlinear_arith);
    }
}

/// The mean lies between the smallest and the largest run time: for bounds
/// `lo` and `hi` of every run time, `lo <= mean <= hi` (with fewer than 2^32
/// runs, so that the count is not reduced modulo 2^32).
pub proof fn lemma_average_bounds(s: Seq<u128>, lo: int, hi: int)
    requires
        1 <= s.len() <= u32::MAX,
        forall|i: int| 0 <= i < s.len() ==> lo <= #[trigger] s[i] <= hi,
    ensures
        lo <= spec_average(s) <= hi,
{
    lemma_sum_bounds(s, lo, hi);
    let n = s.len() as int;
    assert((s.len() as u32) as nat == s.len());
    let total = sum(s) as int;
    assert(lo <= total / n <= hi) by (nonlinear_arith)
        requires
            n >= 1,
            n * lo <= total <= n * hi,
    ;
}

/// The median lies between the smallest and the largest run time, and with an
/// odd number of runs it is one of them.
pub proof fn lemma_median_bounds(s: Seq<u128>, lo: int, hi: int)
    requires
        1 <= s.len(),
        forall|i: int| 0 <= i < s.len() ==> lo <= #[trigger] s[i] <= hi,
    ensures
        lo <= spec_median(s) <= hi,
        s.len() % 2 == 1 ==> s.contains(spec_median(s) as u128),
{
    broadcast use vstd::seq_lib::group_to_multiset_ensures;

    lemma_sort_times(s);
    let t = sort_times(s);
    assert forall|i: int| 0 <= i < t.len() implies s.contains(#[trigger] t[i]) by {
        assert(t.to_multiset().count(t[i]) > 0);
    }
    assert forall|i: int| 0 <= i < t.len() implies lo <= #[trigger] t[i] <= hi by {
        assert(s.contains(t[i]));
    }
    let mid = (t.len() / 2) as int;
    if t.len() % 2 == 0 {
        assert(lo <= t[mid - 1] && lo <= t[mid]);
        assert(t[mid - 1] <= hi && t[mid] <= hi);
    } else {
        assert(s.contains(t[mid]));
    }
}

/// Two ascending sequences that hold the same times, each as often, are equal.
pub proof fn lemma_ascending_unique(a: Seq<u128>, b: Seq<u128>)
    requires
        ascending(a),
        ascending(b),
        a.to_multiset() == b.to_multiset(),
    ensures
        a == b,
    decreases a.len(),
{
    broadcast use vstd::seq_lib::group_to_multiset_ensures;
    broadcast use vstd::multiset::group_multiset_axioms;

    assert(a.len() == a.to_multiset().len());
    assert(b.len() == b.to_multiset().len());
    if a.len() == 0 {
        assert(a =~= b);
    } else {
        let x = a.last();
        let y = b.last();
        assert(a.to_multiset().count(x) > 0);
        assert(b.contains(x));
        let k = choose|k: int| 0 <= k < b.len() && b[k] == x;
        assert(b[k] <= b[b.len() - 1]);
        assert(b.to_multiset().count(y) > 0);
        assert(a.contains(y));
        let j = choose|j: int| 0 <= j < a.len() && a[j] == y;
        assert(a[j] <= a[a.len() - 1]);
        assert(x == y);
        assert(a == a.drop_last().push(x));
        assert(b == b.drop_last().push(x));
        assert(a.drop_last().to_multiset() =~= b.drop_last().to_multiset()) by {
            assert forall|z: u128| #[trigger] a.drop_last().to_multiset().count(z)
                == b.drop_last().to_multiset().count(z) by {
                assert(a.to_multiset().count(z) == a.drop_last().to_multiset().insert(x).count(z));
                assert(b.to_multiset().count(z) == b.drop_last().to_multiset().insert(x).count(z));
            }
        }
        lemma_ascending_unique(a.drop_last(), b.drop_last());
    }
}

/// The median is read off the run times in ascending order: for any ascending
/// arrangement `t` of the times, it is the middle one of `t`, or, with an even
/// number of runs, the mean (rounded down) of the two middle ones.
pub proof fn lemma_median_of_ascending(s: Seq<u128>, t: Seq<u128>)
    requires
        ascending(t),
        t.to_multiset() == s.to_multiset(),
        s.len() >= 1,
    ensures
        t.len() == s.len(),
        t.len() % 2 == 1 ==> spec_median(s) == t[(t.len() / 2) as int] as nat,
        t.len() % 2 == 0 ==> spec_median(s) == ((t[t.len() / 2 - 1] + t[(t.len() / 2) as int]) / 2) as nat,
{
    lemma_sort_times(s);
    lemma_ascending_unique(sort_times(s), t);
}

/// The median and the mean do not depend on the order of the runs.
pub proof fn lemma_summary_order_free(s1: Seq<u128>, s2: Seq<u128>)
    requires
        s1.to_multiset() == s2.to_multiset(),
    ensures
        spec_median(s1) == spec_median(s2),
        spec_average(s1) == spec_average(s2),
{
    broadcast use vstd::seq_lib::group_to_multiset_ensures;

    lemma_sort_times(s1);
    lemma_sort_times(s2);
    lemma_ascending_unique(sort_times(s1), sort_times(s2));
    lemma_sum_permutation(s1, s2);
    assert(s1.len() == s1.to_multiset().len());
    assert(s2.len() == s2.to_multiset().len());
}

/// The mean is the total of the run times, added up one run after another,
/// divided by the number of runs (taken modulo 2^32), rounded down.
pub proof fn lemma_average_is_total_over_count(s: Seq<u128>)
    requires
        s.len() >= 1,
    ensures
        spec_average(s) == s.fold_left(0int, |acc: int, x: u128| acc + x) / ((s.len() as u32) as int),
{
    lemma_sum_fold(s);
}

proof fn lemma_sum_fold(s: Seq<u128>)
    ensures
        sum(s) as int == s.fold_left(0int, |acc: int, x: u128| acc + x),
    decreases s.len(),
{
    if s.len() > 0 {
        lemma_sum_fold(s.drop_last());
    }
}

impl EvalResult {
    /// The result of benchmarking `version` in runs that took `run_times`
    /// nanoseconds each.
    pub fn summarize(version: String, run_times: Vec<u128>) -> (r: EvalResult)
        requires
            sum(run_times@) <= MAX_DURATION_NANOS,
            run_times.len() == 0 || run_times.len() as u32 != 0,
        ensures
            r.version@ == version@,
            r.run_times@ == run_times@,
            r.avg_time == spec_average(run_times@),
            r.median_time == spec_median(run_times@),
    {
        let avg_time = average_time(&run_times);
        let median_time = median_time(&run_times);
        EvalResult { version, avg_time, median_time, run_times }
    }
}

} // verus!
