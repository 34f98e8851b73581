use vstd::prelude::*;
use crate::outcome::{
    RequestStatus, StatusView, all_success, delay_total, lemma_delay_total_prefix,
    lemma_reduced_all_success, lemma_reduced_first_failure, reduce_chain, reduced, statuses_view,
};

verus! {

/// The statistics of one named group of chains. Times are in nanoseconds;
/// the average and the deviation are `None` where no chain succeeded.
pub struct StatisticsClient {
    pub name: String,
    pub total: u64,
    pub average_total_load_time: Option<u64>,
    pub standard_deviation: Option<u64>,
    pub number_of_failed_requests: u64,
    pub common_errors: Vec<RequestStatus>,
}

/// The statistics of every group of a run.
pub struct Statistics {
    pub clients: Vec<StatisticsClient>,
}

/// The step outcomes of each chain of a group, as views.
pub open spec fn chains_view(cs: Seq<Vec<RequestStatus>>) -> Seq<Seq<StatusView>> {
    cs.map_values(|c: Vec<RequestStatus>| statuses_view(c@))
}

/// The reduced outcome of each chain.
pub open spec fn reduced_all(cs: Seq<Seq<StatusView>>) -> Seq<StatusView> {
    cs.map_values(|c: Seq<StatusView>| reduced(c))
}

/// The elapsed times of the successes, in order.
pub open spec fn success_delays(r: Seq<StatusView>) -> Seq<nat>
    decreases r.len(),
{
    if r.len() == 0 {
        Seq::empty()
    } else if r.last().is_success() {
        success_delays(r.drop_last()).push(r.last().delay())
    } else {
        success_delays(r.drop_last())
    }
}

/// How many outcomes are failures.
pub open spec fn failure_count(r: Seq<StatusView>) -> nat
    decreases r.len(),
{
    if r.len() == 0 {
        0
    } else {
        failure_count(r.drop_last()) + if r.last().is_success() {
            0nat
        } else {
            1nat
        }
    }
}

/// How many times `k` occurs in `r`.
pub open spec fn count_of(r: Seq<StatusView>, k: StatusView) -> nat
    decreases r.len(),
{
    if r.len() == 0 {
        0
    } else {
        count_of(r.drop_last(), k) + if r.last() == k {
            1nat
        } else {
            0nat
        }
    }
}

pub open spec fn nat_sum(d: Seq<nat>) -> nat
    decreases d.len(),
{
    if d.len() == 0 {
        0
    } else {
        nat_sum(d.drop_last()) + d.last()
    }
}

/// The mean, rounded down to a whole nanosecond.
pub open spec fn mean_of(d: Seq<nat>) -> nat {
    if d.len() == 0 {
        0
    } else {
        nat_sum(d) / d.len()
    }
}

/// The sum of squared distances of the values from `m`.
pub open spec fn sq_dev_sum(d: Seq<nat>, m: int) -> nat
    decreases d.len(),
{
    if d.len() == 0 {
        0
    } else {
        sq_dev_sum(d.drop_last(), m) + ((d.last() - m) * (d.last() - m)) as nat
    }
}

/// Population variance about the rounded-down mean, rounded down.
pub open spec fn variance_of(d: Seq<nat>) -> nat {
    if d.len() == 0 {
        0
    } else {
        sq_dev_sum(d, mean_of(d) as int) / d.len()
    }
}

/// `r` is the square root of `v` rounded down.
pub open spec fn is_floor_sqrt(r: nat, v: nat) -> bool {
    r * r <= v < (r + 1) * (r + 1)
}

/// `ce` ranks the failures of `r`: at most two distinct failure kinds seen in
/// `r`, each at least as frequent as every failure kind not ranked before it,
/// and every failure kind when fewer than two are given.
pub open spec fn ranks_errors(r: Seq<StatusView>, ce: Seq<StatusView>) -> bool {
    &&& ce.len() <= 2
    &&& forall|j: int| 0 <= j < ce.len() ==> !(#[trigger] ce[j]).is_success() && r.contains(ce[j])
    &&& ce.len() == 2 ==> ce[0] != ce[1]
    &&& forall|j: int, i: int|
        0 <= j < ce.len() && 0 <= i < r.len() && !r[i].is_success() && !ce.take(j).contains(r[i])
            ==> count_of(r, #[trigger] r[i]) <= count_of(r, #[trigger] ce[j])
    &&& ce.len() < 2 ==> forall|i: int| 0 <= i < r.len() && !(#[trigger] r[i]).is_success() ==> ce.contains(r[i])
}

/// `c` holds the statistics of the group named `name` whose chains are `cs`.
pub open spec fn describes(c: StatisticsClient, name: Seq<char>, cs: Seq<Seq<StatusView>>) -> bool {
    let r = reduced_all(cs);
    let d = success_delays(r);
    &&& c.name@ == name
    &&& c.total == cs.len()
    &&& c.number_of_failed_requests == failure_count(r)
    &&& (d.len() == 0 ==> c.average_total_load_time is None && c.standard_deviation is None)
    &&& (d.len() > 0 ==> c.average_total_load_time == Some(mean_of(d) as u64))
    &&& (d.len() > 0 ==> c.standard_deviation is Some && is_floor_sqrt(
        c.standard_deviation->0 as nat,
        variance_of(d),
    ))
    &&& ranks_errors(r, c.common_errors@.map_values(|e: RequestStatus| e@))
}


pub open spec fn nats(d: Seq<u64>) -> Seq<nat> {
    d.map_values(|x: u64| x as nat)
}

proof fn lemma_delay_within_sum(r: Seq<StatusView>, i: int)
    requires
        0 <= i < r.len(),
    ensures
        r[i].delay() <= nat_sum(success_delays(r)),
    decreases r.len(),
{
    let p = r.drop_last();
    lemma_success_delays_grow(r);
    if i < r.len() - 1 {
        assert(p[i] == r[i]);
        lemma_delay_within_sum(p, i);
    } else if r.last().is_success() {
        assert(success_delays(p).push(r.last().delay()).drop_last() =~= success_delays(p));
    }
}

proof fn lemma_success_delays_grow(r: Seq<StatusView>)
    requires
        r.len() > 0,
    ensures
        nat_sum(success_delays(r.drop_last())) <= nat_sum(success_delays(r)),
{
    let p = r.drop_last();
    if r.last().is_success() {
        assert(success_delays(p).push(r.last().delay()).drop_last() =~= success_delays(p));
    }
}

proof fn lemma_nat_sum_prefix(d: Seq<nat>, i: int)
    requires
        0 <= i <= d.len(),
    ensures
        nat_sum(d.take(i)) <= nat_sum(d),
    decreases d.len(),
{
    if i < d.len() {
        lemma_nat_sum_prefix(d.drop_last(), i);
        assert(d.drop_last().take(i) =~= d.take(i));
    } else {
        assert(d.take(i) =~= d);
    }
}

/// Reduces every chain of a group.
fn reduce_all(chains: &Vec<Vec<RequestStatus>>) -> (r: Vec<RequestStatus>)
    requires
        forall|i: int| 0 <= i < chains.len() ==> (#[trigger] reduced(statuses_view(chains@[i]@))).delay() <= u64::MAX,
    ensures
        statuses_view(r@) == reduced_all(chains_view(chains@)),
{
    let mut out: Vec<RequestStatus> = Vec::new();
    let mut i: usize = 0;
    while i < chains.len()
        invariant
            0 <= i <= chains.len(),
            forall|j: int| 0 <= j < chains.len() ==> (#[trigger] reduced(statuses_view(chains@[j]@))).delay() <= u64::MAX,
            statuses_view(out@) =~= reduced_all(chains_view(chains@)).take(i as int),
        decreases chains.len() - i,
    {
        let ghost j = i as int;
        assert(reduced(statuses_view(chains@[j]@)).delay() <= u64::MAX);
        let o = reduce_chain(&chains[i]);
        let ghost prev = out@;
        out.push(o);
        assert(reduced_all(chains_view(chains@))[j] == reduced(statuses_view(chains@[j]@)));
        assert(out@ == prev.push(o));
        assert(statuses_view(out@) =~= statuses_view(prev).push(o@));
        i = i + 1;
    }
    out
}

/// The elapsed times of the successful outcomes, in order.
fn success_delays_of(outcomes: &Vec<RequestStatus>) -> (d: Vec<u64>)
    ensures
        nats(d@) == success_delays(statuses_view(outcomes@)),
{
    let ghost v = statuses_view(outcomes@);
    let mut d: Vec<u64> = Vec::new();
    let mut i: usize = 0;
    while i < outcomes.len()
        invariant
            0 <= i <= outcomes.len(),
            v == statuses_view(outcomes@),
            nats(d@) =~= success_delays(v.take(i as int)),
        decreases outcomes.len() - i,
    {
        assert(v.take(i + 1).drop_last() =~= v.take(i as int));
        match &outcomes[i] {
            RequestStatus::Success { delay_nanos, .. } => {
                d.push(*delay_nanos);
            },
            _ => {},
        }
        i = i + 1;
    }
    assert(v.take(outcomes.len() as int) =~= v);
    d
}

fn sum_of(d: &Vec<u64>) -> (s: u64)
    requires
        nat_sum(nats(d@)) <= u64::MAX,
    ensures
        s == nat_sum(nats(d@)),
{
    let ghost n = nats(d@);
    let mut s: u64 = 0;
    let mut i: usize = 0;
    while i < d.len()
        invariant
            0 <= i <= d.len(),
            n == nats(d@),
            nat_sum(n) <= u64::MAX,
            s == nat_sum(n.take(i as int)),
        decreases d.len() - i,
    {
        assert(n.take(i + 1).drop_last() =~= n.take(i as int));
        proof {
            lemma_nat_sum_prefix(n, i + 1);
        }
        s = s + d[i];
        i = i + 1;
    }
    assert(n.take(d.len() as int) =~= n);
    s
}


spec fn sum_sq(d: Seq<nat>) -> nat
    decreases d.len(),
{
    if d.len() == 0 {
        0
    } else {
        sum_sq(d.drop_last()) + d.last() * d.last()
    }
}

proof fn lemma_sq_dev_expand(d: Seq<nat>, m: int)
    ensures
        sq_dev_sum(d, m) == sum_sq(d) - 2 * m * nat_sum(d) + d.len() * m * m,
    decreases d.len(),
{
    if d.len() > 0 {
        let p = d.drop_last();
        let x = d.last() as int;
        lemma_sq_dev_expand(p, m);
        let sp = nat_sum(p) as int;
        let n = p.len() as int;
        let qp = sum_sq(p) as int;
        let dp = sq_dev_sum(p, m) as int;
        assert((x - m) * (x - m) >= 0) by (nonlinear_arith);
        assert(sq_dev_sum(d, m) == dp + (x - m) * (x - m));
        assert(sum_sq(d) == qp + x * x);
        assert(nat_sum(d) == sp + x);
        assert(d.len() == n + 1);
        assert(dp + (x - m) * (x - m) == (qp + x * x) - 2 * m * (sp + x) + (n + 1) * m * m)
            by (nonlinear_arith)
            requires
                dp == qp - 2 * m * sp + n * m * m,
        ;
        let sd = nat_sum(d) as int;
        let nd = d.len() as int;
        assert(2 * m * sd == 2 * m * (sp + x));
        assert(nd * m * m == (n + 1) * m * m);
    } else {
        let z = nat_sum(d) as int;
        let l = d.len() as int;
        assert(2 * m * z + l * m * m == 0) by (nonlinear_arith)
            requires
                z == 0,
                l == 0,
        ;
    }
}

proof fn lemma_sum_sq_bound(d: Seq<nat>)
    ensures
        sum_sq(d) <= nat_sum(d) * nat_sum(d),
    decreases d.len(),
{
    if d.len() > 0 {
        let p = d.drop_last();
        lemma_sum_sq_bound(p);
        let a = nat_sum(p) as int;
        let x = d.last() as int;
        assert(a * a + x * x <= (a + x) * (a + x)) by (nonlinear_arith)
            requires
                a >= 0,
                x >= 0,
        ;
    }
}

proof fn lemma_sq_dev_prefix(d: Seq<nat>, m: int, i: int)
    requires
        0 <= i <= d.len(),
    ensures
        sq_dev_sum(d.take(i), m) <= sq_dev_sum(d, m),
    decreases d.len(),
{
    if i < d.len() {
        lemma_sq_dev_prefix(d.drop_last(), m, i);
        assert(d.drop_last().take(i) =~= d.take(i));
    } else {
        assert(d.take(i) =~= d);
    }
}

/// About the rounded-down mean, the squared distances sum to at most the
/// square of the values' sum.
proof fn lemma_sq_dev_bound(d: Seq<nat>)
    requires
        d.len() > 0,
    ensures
        sq_dev_sum(d, mean_of(d) as int) <= nat_sum(d) * nat_sum(d),
{
    let m = mean_of(d) as int;
    let s = nat_sum(d) as int;
    let n = d.len() as int;
    lemma_sq_dev_expand(d, m);
    lemma_sum_sq_bound(d);
    assert(n * m <= s) by (nonlinear_arith)
        requires
            m == s / n,
            n > 0,
    ;
    assert(n * m * m <= 2 * m * s) by (nonlinear_arith)
        requires
            n * m <= s,
            m >= 0,
            s >= 0,
    ;
}

/// The sum of squared distances of the values from `m`.
fn sq_dev_of(d: &Vec<u64>, m: u64) -> (r: u128)
    requires
        d.len() > 0,
        nat_sum(nats(d@)) <= u64::MAX,
        m == mean_of(nats(d@)),
    ensures
        r == sq_dev_sum(nats(d@), m as int),
{
    let ghost n = nats(d@);
    proof {
        lemma_sq_dev_bound(n);
        let s = nat_sum(n);
        assert(s * s <= u64::MAX * u64::MAX) by (nonlinear_arith)
            requires
                s <= u64::MAX,
        ;
    }
    let mut acc: u128 = 0;
    let mut i: usize = 0;
    while i < d.len()
        invariant
            0 <= i <= d.len(),
            n == nats(d@),
            sq_dev_sum(n, m as int) <= u128::MAX,
            acc == sq_dev_sum(n.take(i as int), m as int),
        decreases d.len() - i,
    {
        assert(n.take(i + 1).drop_last() =~= n.take(i as int));
        proof {
            lemma_sq_dev_prefix(n, m as int, i + 1);
        }
        let x = d[i];
        let diff: u128 = if x >= m {
            (x - m) as u128
        } else {
            (m - x) as u128
        };
        assert(diff * diff == (x - m) * (x - m)) by (nonlinear_arith)
            requires
                diff == x - m || diff == m - x,
        ;
        assert(diff * diff <= u128::MAX) by (nonlinear_arith)
            requires
                diff <= u64::MAX,
        ;
        acc = acc + diff * diff;
        i = i + 1;
    }
    assert(n.take(d.len() as int) =~= n);
    acc
}

/// The square root of `v`, rounded down.
fn floor_sqrt(v: u128) -> (r: u64)
    ensures
        is_floor_sqrt(r as nat, v as nat),
{
    let mut lo: u128 = 0;
    let mut hi: u128 = 0x1_0000_0000_0000_0000;
    assert(v < hi * hi) by (nonlinear_arith)
        requires
            hi == 0x1_0000_0000_0000_0000u128,
            v <= u128::MAX,
    ;
    while hi - lo > 1
        invariant
            lo < hi <= 0x1_0000_0000_0000_0000u128,
            lo * lo <= v,
            v < hi * hi,
        decreases hi - lo,
    {
        let mid = lo + (hi - lo) / 2;
        assert(mid * mid <= u128::MAX) by (nonlinear_arith)
            requires
                mid < 0x1_0000_0000_0000_0000u128,
        ;
        if mid * mid <= v {
            lo = mid;
        } else {
            hi = mid;
        }
    }
    assert(hi == lo + 1);
    lo as u64
}


/// How many of the outcomes equal `k`.
fn count_kind(outcomes: &Vec<RequestStatus>, k: &RequestStatus) -> (c: usize)
    ensures
        c == count_of(statuses_view(outcomes@), k@),
{
    let ghost v = statuses_view(outcomes@);
    let mut c: usize = 0;
    let mut i: usize = 0;
    while i < outcomes.len()
        invariant
            0 <= i <= outcomes.len(),
            v == statuses_view(outcomes@),
            c == count_of(v.take(i as int), k@),
            c <= i,
        decreases outcomes.len() - i,
    {
        assert(v.take(i + 1).drop_last() =~= v.take(i as int));
        if outcomes[i].same_as(k) {
            c = c + 1;
        }
        i = i + 1;
    }
    assert(v.take(outcomes.len() as int) =~= v);
    c
}

fn contains_status(list: &Vec<RequestStatus>, k: &RequestStatus) -> (r: bool)
    ensures
        r == statuses_view(list@).contains(k@),
{
    let ghost v = statuses_view(list@);
    let mut i: usize = 0;
    while i < list.len()
        invariant
            0 <= i <= list.len(),
            v == statuses_view(list@),
            forall|j: int| 0 <= j < i ==> v[j] != k@,
        decreases list.len() - i,
    {
        if list[i].same_as(k) {
            assert(v[i as int] == k@);
            return true;
        }
        i = i + 1;
    }
    false
}

/// The index of a most frequent failure among those not in `excluded`.
fn pick_most_common(outcomes: &Vec<RequestStatus>, excluded: &Vec<RequestStatus>) -> (r: Option<usize>)
    ensures
        ({
            let v = statuses_view(outcomes@);
            let x = statuses_view(excluded@);
            match r {
                None => forall|i: int| 0 <= i < v.len() ==> (#[trigger] v[i]).is_success() || x.contains(v[i]),
                Some(b) => {
                    &&& b < v.len()
                    &&& !v[b as int].is_success()
                    &&& !x.contains(v[b as int])
                    &&& forall|i: int|
                        0 <= i < v.len() && !(#[trigger] v[i]).is_success() && !x.contains(v[i])
                            ==> count_of(v, v[i]) <= count_of(v, v[b as int])
                },
            }
        }),
{
    let ghost v = statuses_view(outcomes@);
    let ghost x = statuses_view(excluded@);
    let mut best: Option<usize> = None;
    let mut best_count: usize = 0;
    let mut i: usize = 0;
    while i < outcomes.len()
        invariant
            0 <= i <= outcomes.len(),
            v == statuses_view(outcomes@),
            x == statuses_view(excluded@),
            match best {
                None => forall|j: int| 0 <= j < i ==> (#[trigger] v[j]).is_success() || x.contains(v[j]),
                Some(b) => {
                    &&& b < i
                    &&& !v[b as int].is_success()
                    &&& !x.contains(v[b as int])
                    &&& best_count == count_of(v, v[b as int])
                    &&& forall|j: int|
                        0 <= j < i && !(#[trigger] v[j]).is_success() && !x.contains(v[j])
                            ==> count_of(v, v[j]) <= best_count
                },
            },
        decreases outcomes.len() - i,
    {
        if !outcomes[i].is_success() && !contains_status(excluded, &outcomes[i]) {
            let c = count_kind(outcomes, &outcomes[i]);
            match best {
                None => {
                    best = Some(i);
                    best_count = c;
                },
                Some(_) => {
                    if c > best_count {
                        best = Some(i);
                        best_count = c;
                    }
                },
            }
        }
        i = i + 1;
    }
    best
}

/// The two most frequent failure kinds, most frequent first.
///
/// Frequencies are counted by scanning the outcomes rather than in a hash map
/// inverted into a map keyed by count: such an inversion keeps only one kind
/// per count, and the scan lets the ranking be stated and proved exactly.
fn common_errors_of(outcomes: &Vec<RequestStatus>) -> (ce: Vec<RequestStatus>)
    ensures
        ranks_errors(statuses_view(outcomes@), statuses_view(ce@)),
{
    let ghost v = statuses_view(outcomes@);
    let mut ce: Vec<RequestStatus> = Vec::new();
    assert(statuses_view(ce@) =~= Seq::<StatusView>::empty());
    match pick_most_common(outcomes, &ce) {
        None => {
            ce
        },
        Some(a) => {
            ce.push(outcomes[a].duplicate());
            let ghost c1 = statuses_view(ce@);
            assert(c1 =~= seq![v[a as int]]);
            assert(c1.take(0) =~= Seq::<StatusView>::empty());
            assert(v.contains(c1[0]));
            match pick_most_common(outcomes, &ce) {
                None => {
                    ce
                },
                Some(b) => {
                    ce.push(outcomes[b].duplicate());
                    let ghost c2 = statuses_view(ce@);
                    assert(c2 =~= seq![v[a as int], v[b as int]]);
                    assert(c2.take(0) =~= Seq::<StatusView>::empty());
                    assert(c2.take(1) =~= c1);
                    assert(v.contains(c2[0]));
                    assert(v.contains(c2[1]));
                    assert(c1.contains(v[b as int]) ==> v[b as int] == c1[0]);
                    ce
                },
            }
        },
    }
}


proof fn lemma_failure_success_split(r: Seq<StatusView>)
    ensures
        failure_count(r) + success_delays(r).len() == r.len(),
    decreases r.len(),
{
    if r.len() > 0 {
        lemma_failure_success_split(r.drop_last());
    }
}

/// In the statistics of any group, the failed chains and the successful
/// chains add up to the total.
pub proof fn lemma_failed_plus_succeeded(c: StatisticsClient, name: Seq<char>, cs: Seq<Seq<StatusView>>)
    requires
        describes(c, name, cs),
    ensures
        c.number_of_failed_requests + success_delays(reduced_all(cs)).len() == c.total,
{
    lemma_failure_success_split(reduced_all(cs));
}

/// A group with exactly one successful chain has no spread: its deviation is
/// zero and its mean is that chain's elapsed time.
pub proof fn lemma_single_success_no_deviation(c: StatisticsClient, name: Seq<char>, cs: Seq<Seq<StatusView>>)
    requires
        describes(c, name, cs),
        success_delays(reduced_all(cs)).len() == 1,
    ensures
        c.standard_deviation == Some(0u64),
        c.average_total_load_time == Some(success_delays(reduced_all(cs))[0] as u64),
{
    let d = success_delays(reduced_all(cs));
    let sd = c.standard_deviation->0 as nat;
    assert(d.drop_last() =~= Seq::<nat>::empty());
    assert(nat_sum(d.drop_last()) == 0);
    assert(sq_dev_sum(d.drop_last(), d[0] as int) == 0);
    assert(d.last() == d[0]);
    assert(nat_sum(d) == d[0]);
    let x = d.last() as int;
    assert((x - x) * (x - x) == 0) by (nonlinear_arith);
    assert(sq_dev_sum(d, d[0] as int) == 0);
    assert(variance_of(d) == 0);
    assert(sd * sd == 0 ==> sd == 0) by (nonlinear_arith);
}

/// The statistics of a group depend on its chains only through their reduced
/// outcomes: two groups whose chains reduce alike (steps of a successful chain
/// reordered, a chain replaced by its reduced outcome, steps after a first
/// failure changed) get the same statistics.
pub proof fn lemma_statistics_follow_reduced_outcomes(
    c: StatisticsClient,
    name: Seq<char>,
    cs1: Seq<Seq<StatusView>>,
    cs2: Seq<Seq<StatusView>>,
)
    requires
        describes(c, name, cs1),
        cs1.len() == cs2.len(),
        forall|i: int| 0 <= i < cs1.len() ==> reduced(#[trigger] cs1[i]) == reduced(cs2[i]),
    ensures
        describes(c, name, cs2),
{
    assert(reduced_all(cs1) =~= reduced_all(cs2));
}

/// The results of one named group: the step outcomes of each of its chains.
pub struct ResultGroup {
    pub name: String,
    pub chains: Vec<Vec<RequestStatus>>,
}

/// The summed elapsed time of a group's successful chains, the figure that
/// must fit in `u64` for its statistics to be computed.
pub open spec fn group_delay_total(chains: Seq<Vec<RequestStatus>>) -> nat {
    nat_sum(success_delays(reduced_all(chains_view(chains))))
}

/// Computes the statistics of one group.
pub fn group_stat(name: &String, chains: &Vec<Vec<RequestStatus>>) -> (c: StatisticsClient)
    requires
        group_delay_total(chains@) <= u64::MAX,
    ensures
        describes(c, name@, chains_view(chains@)),
{
    let ghost cv = chains_view(chains@);
    let ghost r = reduced_all(cv);
    assert forall|i: int| 0 <= i < chains.len() implies (#[trigger] reduced(statuses_view(chains@[i]@))).delay() <= u64::MAX by {
        assert(r[i] == reduced(statuses_view(chains@[i]@)));
        lemma_delay_within_sum(r, i);
    }
    let outcomes = reduce_all(chains);
    let d = success_delays_of(&outcomes);
    proof {
        lemma_failure_success_split(r);
    }
    let total = chains.len() as u64;
    let failed = (chains.len() - d.len()) as u64;
    let mut average: Option<u64> = None;
    let mut deviation: Option<u64> = None;
    if d.len() > 0 {
        let s = sum_of(&d);
        let m = s / (d.len() as u64);
        let sq = sq_dev_of(&d, m);
        let variance = sq / (d.len() as u128);
        average = Some(m);
        deviation = Some(floor_sqrt(variance));
    }
    let common_errors = common_errors_of(&outcomes);
    StatisticsClient {
        name: name.clone(),
        total,
        average_total_load_time: average,
        standard_deviation: deviation,
        number_of_failed_requests: failed,
        common_errors,
    }
}

/// Computes the statistics of every group, in the order of the groups.
pub fn get_stat(data: &Vec<ResultGroup>) -> (s: Statistics)
    requires
        forall|g: int| 0 <= g < data.len() ==> group_delay_total((#[trigger] data@[g]).chains@) <= u64::MAX,
    ensures
        s.clients.len() == data.len(),
        forall|g: int|
            0 <= g < data.len() ==> describes(
                #[trigger] s.clients@[g],
                data@[g].name@,
                chains_view(data@[g].chains@),
            ),
{
    let mut clients: Vec<StatisticsClient> = Vec::new();
    let mut g: usize = 0;
    while g < data.len()
        invariant
            0 <= g <= data.len(),
            forall|h: int| 0 <= h < data.len() ==> group_delay_total((#[trigger] data@[h]).chains@) <= u64::MAX,
            clients.len() == g,
            forall|h: int|
                0 <= h < g ==> describes(
                    #[trigger] clients@[h],
                    data@[h].name@,
                    chains_view(data@[h].chains@),
                ),
        decreases data.len() - g,
    {
        let c = group_stat(&data[g].name, &data[g].chains);
        clients.push(c);
        g = g + 1;
    }
    Statistics { clients }
}


proof fn lemma_success_sum_push(r: Seq<StatusView>, o: StatusView)
    ensures
        nat_sum(success_delays(r.push(o))) == nat_sum(success_delays(r)) + o.delay(),
{
    assert(r.push(o).drop_last() =~= r);
    if o.is_success() {
        assert(success_delays(r).push(o.delay()).drop_last() =~= success_delays(r));
    }
}

proof fn lemma_success_sum_prefix(r: Seq<StatusView>, i: int)
    requires
        0 <= i <= r.len(),
    ensures
        nat_sum(success_delays(r.take(i))) <= nat_sum(success_delays(r)),
    decreases r.len(),
{
    if i < r.len() {
        lemma_success_sum_prefix(r.drop_last(), i);
        assert(r.drop_last().take(i) =~= r.take(i));
        lemma_success_delays_grow(r);
    } else {
        assert(r.take(i) =~= r);
    }
}

/// `base` plus the elapsed time that a chain reduces to, where that fits in `u64`.
fn add_chain_delay(steps: &Vec<RequestStatus>, base: u64) -> (r: Option<u64>)
    ensures
        ({
            let t = base + reduced(statuses_view(steps@)).delay();
            match r {
                Some(x) => x == t,
                None => t > u64::MAX,
            }
        }),
{
    let ghost v = statuses_view(steps@);
    let mut k: usize = 0;
    while k < steps.len()
        invariant
            0 <= k <= steps.len(),
            v == statuses_view(steps@),
            forall|j: int| 0 <= j < k ==> (#[trigger] v[j]).is_success(),
        decreases steps.len() - k,
    {
        if !steps[k].is_success() {
            proof {
                lemma_reduced_first_failure(v, k as int);
            }
            return Some(base);
        }
        k = k + 1;
    }
    proof {
        lemma_reduced_all_success(v);
    }
    let mut acc: u64 = base;
    let mut i: usize = 0;
    while i < steps.len()
        invariant
            0 <= i <= steps.len(),
            v == statuses_view(steps@),
            all_success(v),
            reduced(v).delay() == delay_total(v),
            acc == base + delay_total(v.take(i as int)),
        decreases steps.len() - i,
    {
        assert(v.take(i + 1).drop_last() =~= v.take(i as int));
        proof {
            lemma_delay_total_prefix(v, i + 1);
        }
        match &steps[i] {
            RequestStatus::Success { delay_nanos, .. } => {
                match acc.checked_add(*delay_nanos) {
                    Some(x) => {
                        acc = x;
                    },
                    None => {
                        return None;
                    },
                }
            },
            _ => {
                assert(v[i as int].is_success());
            },
        }
        i = i + 1;
    }
    assert(v.take(steps.len() as int) =~= v);
    Some(acc)
}

/// Whether the summed elapsed time of a group's successful chains fits in
/// `u64`, as `group_stat` requires.
pub fn delays_fit(chains: &Vec<Vec<RequestStatus>>) -> (r: bool)
    ensures
        r == (group_delay_total(chains@) <= u64::MAX),
{
    let ghost cv = chains_view(chains@);
    let ghost r = reduced_all(cv);
    let mut total: u64 = 0;
    let mut i: usize = 0;
    assert(r.take(0) =~= Seq::<StatusView>::empty());
    while i < chains.len()
        invariant
            0 <= i <= chains.len(),
            cv == chains_view(chains@),
            r == reduced_all(cv),
            total == nat_sum(success_delays(r.take(i as int))),
        decreases chains.len() - i,
    {
        assert(r.take(i + 1) =~= r.take(i as int).push(reduced(statuses_view(chains@[i as int]@))));
        proof {
            lemma_success_sum_push(r.take(i as int), reduced(statuses_view(chains@[i as int]@)));
            lemma_success_sum_prefix(r, i + 1);
        }
        match add_chain_delay(&chains[i], total) {
            Some(t) => {
                total = t;
            },
            None => {
                return false;
            },
        }
        i = i + 1;
    }
    assert(r.take(chains.len() as int) =~= r);
    true
}

} // verus!
