use vstd::prelude::*;
use crate::outcome::{RequestStatus, StatusView, statuses_view};
use crate::plan::{ConfigError, RankedRequest, RequestGroup};
use crate::stats::{ResultGroup, chains_view};

verus! {

/// The weight of each chain, in order.
pub open spec fn proportions(cs: Seq<RankedRequest>) -> Seq<usize> {
    cs.map_values(|c: RankedRequest| c.proportion)
}

pub open spec fn total_weight(ws: Seq<usize>) -> nat
    decreases ws.len(),
{
    if ws.len() == 0 {
        0
    } else {
        total_weight(ws.drop_last()) + ws.last() as nat
    }
}

/// The population that draws are made from: the index of each chain, as many
/// times over as its weight, chains in order.
pub open spec fn expanded(ws: Seq<usize>) -> Seq<usize>
    decreases ws.len(),
{
    if ws.len() == 0 {
        Seq::empty()
    } else {
        expanded(ws.drop_last()) + Seq::new(ws.last() as nat, |j: int| (ws.len() - 1) as usize)
    }
}

/// How many times `x` occurs in `s`.
pub open spec fn occurrences(s: Seq<usize>, x: usize) -> nat
    decreases s.len(),
{
    if s.len() == 0 {
        0
    } else {
        occurrences(s.drop_last(), x) + if s.last() == x {
            1nat
        } else {
            0nat
        }
    }
}

proof fn lemma_occurrences_concat(a: Seq<usize>, b: Seq<usize>, x: usize)
    ensures
        occurrences(a + b, x) == occurrences(a, x) + occurrences(b, x),
    decreases b.len(),
{
    if b.len() == 0 {
        assert(a + b =~= a);
    } else {
        assert((a + b).drop_last() =~= a + b.drop_last());
        lemma_occurrences_concat(a, b.drop_last(), x);
    }
}

proof fn lemma_occurrences_repeat(w: nat, y: usize, x: usize)
    ensures
        occurrences(Seq::new(w, |j: int| y), x) == if x == y {
            w
        } else {
            0
        },
    decreases w,
{
    if w > 0 {
        assert(Seq::new(w, |j: int| y).drop_last() =~= Seq::new((w - 1) as nat, |j: int| y));
        lemma_occurrences_repeat((w - 1) as nat, y, x);
    }
}

/// The population holds every chain exactly as many times as its weight, and
/// nothing else: its size is the sum of the weights.
pub proof fn lemma_population_matches_weights(ws: Seq<usize>)
    requires
        ws.len() <= usize::MAX,
    ensures
        expanded(ws).len() == total_weight(ws),
        forall|i: int| 0 <= i < ws.len() ==> occurrences(expanded(ws), i as usize) == #[trigger] ws[i],
        forall|k: int| 0 <= k < expanded(ws).len() ==> (#[trigger] expanded(ws)[k]) < ws.len(),
    decreases ws.len(),
{
    if ws.len() > 0 {
        let p = ws.drop_last();
        let last = (ws.len() - 1) as usize;
        let rep = Seq::new(ws.last() as nat, |j: int| last);
        lemma_population_matches_weights(p);
        assert forall|i: int| 0 <= i < ws.len() implies occurrences(expanded(ws), i as usize) == #[trigger] ws[i] by {
            lemma_occurrences_concat(expanded(p), rep, i as usize);
            lemma_occurrences_repeat(ws.last() as nat, last, i as usize);
            if i < p.len() {
                assert(p[i] == ws[i]);
            } else {
                assert forall|k: int| 0 <= k < expanded(p).len() implies expanded(p)[k] != last by {
                    assert(expanded(p)[k] < p.len());
                }
                lemma_no_occurrence(expanded(p), last);
            }
        }
        assert forall|k: int| 0 <= k < expanded(ws).len() implies (#[trigger] expanded(ws)[k]) < ws.len() by {
            if k >= expanded(p).len() {
                assert(expanded(ws)[k] == rep[k - expanded(p).len()]);
            } else {
                assert(expanded(ws)[k] == expanded(p)[k]);
            }
        }
    }
}

proof fn lemma_no_occurrence(s: Seq<usize>, x: usize)
    requires
        forall|k: int| 0 <= k < s.len() ==> s[k] != x,
    ensures
        occurrences(s, x) == 0,
    decreases s.len(),
{
    if s.len() > 0 {
        lemma_no_occurrence(s.drop_last(), x);
    }
}

/// Chain `j` fills exactly the population slots from the sum of the weights
/// before it up to that sum plus its own weight, so a uniform slot picks it
/// with probability its weight over the total weight.
pub proof fn lemma_population_slots(ws: Seq<usize>, i: int, j: int)
    requires
        ws.len() <= usize::MAX,
        0 <= i < expanded(ws).len(),
        0 <= j < ws.len(),
    ensures
        (expanded(ws)[i] == j) <==> (total_weight(ws.take(j)) <= i < total_weight(ws.take(j + 1))),
    decreases ws.len(),
{
    let p = ws.drop_last();
    let last = ws.len() - 1;
    let e = expanded(p);
    lemma_population_matches_weights(p);
    lemma_population_matches_weights(ws);
    assert(ws.take(last) =~= p);
    assert(ws.take(last + 1) =~= ws);
    if i < e.len() {
        assert(expanded(ws)[i] == e[i]);
        if j < last {
            lemma_population_slots(p, i, j);
            assert(p.take(j) =~= ws.take(j));
            assert(p.take(j + 1) =~= ws.take(j + 1));
        } else {
            assert(e[i] < p.len());
        }
    } else {
        assert(expanded(ws)[i] == Seq::new(ws.last() as nat, |t: int| last as usize)[i - e.len()]);
        if j < last {
            lemma_total_weight_prefix(p, j + 1);
            assert(p.take(j + 1) =~= ws.take(j + 1));
        }
    }
}

/// The size of the population, where it fits in `usize`.
pub fn population_size(group: &RequestGroup) -> (r: Option<usize>)
    ensures
        r matches Some(n) ==> n == total_weight(proportions(group.requests@)),
        r is None ==> total_weight(proportions(group.requests@)) > usize::MAX,
{
    let ghost ws = proportions(group.requests@);
    let mut n: usize = 0;
    let mut i: usize = 0;
    while i < group.requests.len()
        invariant
            0 <= i <= group.requests.len(),
            ws == proportions(group.requests@),
            n == total_weight(ws.take(i as int)),
        decreases group.requests.len() - i,
    {
        assert(ws.take(i + 1).drop_last() =~= ws.take(i as int));
        match n.checked_add(group.requests[i].proportion) {
            Some(m) => {
                n = m;
            },
            None => {
                proof {
                    lemma_total_weight_prefix(ws, i + 1);
                }
                return None;
            },
        }
        i = i + 1;
    }
    assert(ws.take(group.requests.len() as int) =~= ws);
    Some(n)
}

proof fn lemma_total_weight_prefix(ws: Seq<usize>, i: int)
    requires
        0 <= i <= ws.len(),
    ensures
        total_weight(ws.take(i)) <= total_weight(ws),
    decreases ws.len(),
{
    if i < ws.len() {
        lemma_total_weight_prefix(ws.drop_last(), i);
        assert(ws.drop_last().take(i) =~= ws.take(i));
    } else {
        assert(ws.take(i) =~= ws);
    }
}

/// Expands the weighted chains into the population that draws are made from.
/// Fails where the weights add up to nothing.
pub fn expand_population(group: &RequestGroup) -> (r: Result<Vec<usize>, ConfigError>)
    requires
        total_weight(proportions(group.requests@)) <= usize::MAX,
    ensures
        r is Ok == (total_weight(proportions(group.requests@)) > 0),
        r matches Ok(p) ==> p@ == expanded(proportions(group.requests@)),
        r matches Err(e) ==> e is EmptyPopulation,
{
    let ghost ws = proportions(group.requests@);
    let mut population: Vec<usize> = Vec::new();
    let mut i: usize = 0;
    while i < group.requests.len()
        invariant
            0 <= i <= group.requests.len(),
            ws == proportions(group.requests@),
            population@ == expanded(ws.take(i as int)),
        decreases group.requests.len() - i,
    {
        let w = group.requests[i].proportion;
        let mut j: usize = 0;
        while j < w
            invariant
                0 <= i < group.requests.len(),
                0 <= j <= w,
                w == ws[i as int],
                ws == proportions(group.requests@),
                population@ == expanded(ws.take(i as int)) + Seq::new(j as nat, |t: int| i),
            decreases w - j,
        {
            population.push(i);
            assert(expanded(ws.take(i as int)) + Seq::new((j + 1) as nat, |t: int| i)
                =~= (expanded(ws.take(i as int)) + Seq::new(j as nat, |t: int| i)).push(i));
            j = j + 1;
        }
        assert(ws.take(i + 1).drop_last() =~= ws.take(i as int));
        assert(population@ =~= expanded(ws.take(i + 1)));
        i = i + 1;
    }
    assert(ws.take(group.requests.len() as int) =~= ws);
    proof {
        lemma_population_matches_weights(ws);
    }
    if population.len() == 0 {
        Err(ConfigError::EmptyPopulation)
    } else {
        Ok(population)
    }
}


/// Relies on rand's `Uniform::from(0..n)` sampled with `thread_rng`: a value
/// drawn from `[0, n)`. The range must not be empty.
#[verifier::external_body]
fn uniform_below(n: u64) -> (r: u64)
    requires
        n > 0,
    ensures
        r < n,
{
    rand::distributions::Distribution::sample(
        &rand::distributions::Uniform::from(0..n),
        &mut rand::thread_rng(),
    )
}

/// One drawn run: when it starts, which slot of the population was drawn, and
/// the chain in that slot.
pub struct ScheduledRun {
    pub start_delay_nanos: u64,
    pub slot: usize,
    pub chain: usize,
}

/// `run` is a draw from `population` with a start inside the window.
pub open spec fn valid_draw(run: ScheduledRun, population: Seq<usize>, duration_nanos: u64) -> bool {
    &&& run.slot < population.len()
    &&& run.chain == population[run.slot as int]
    &&& (duration_nanos == 0 ==> run.start_delay_nanos == 0)
    &&& (duration_nanos > 0 ==> run.start_delay_nanos < duration_nanos)
}

/// A drawn pair fits the population and the window: its slot lies in the
/// population and, where there is a window, its start delay lies inside it.
pub open spec fn draw_in_range(draw: (u64, u64), population_len: nat, duration_nanos: u64) -> bool {
    &&& draw.1 < population_len
    &&& (duration_nanos > 0 ==> draw.0 < duration_nanos)
}

/// Turns drawn pairs (start delay, slot) into runs, in order. Without a
/// window every run starts at once.
pub fn schedule_from_draws(population: &Vec<usize>, duration_nanos: u64, draws: &Vec<(u64, u64)>) -> (runs: Vec<ScheduledRun>)
    requires
        forall|k: int| 0 <= k < draws.len() ==> draw_in_range(#[trigger] draws@[k], population.len() as nat, duration_nanos),
    ensures
        runs.len() == draws.len(),
        forall|k: int| 0 <= k < runs.len() ==> valid_draw(#[trigger] runs@[k], population@, duration_nanos),
        forall|k: int| 0 <= k < runs.len() ==> (#[trigger] runs@[k]).slot == draws@[k].1,
        forall|k: int| 0 <= k < runs.len() ==> (#[trigger] runs@[k]).start_delay_nanos == if duration_nanos == 0 {
            0
        } else {
            draws@[k].0
        },
{
    let mut runs: Vec<ScheduledRun> = Vec::new();
    let mut k: usize = 0;
    while k < draws.len()
        invariant
            0 <= k <= draws.len(),
            runs.len() == k,
            forall|j: int| 0 <= j < draws.len() ==> draw_in_range(#[trigger] draws@[j], population.len() as nat, duration_nanos),
            forall|j: int| 0 <= j < k ==> valid_draw(#[trigger] runs@[j], population@, duration_nanos),
            forall|j: int| 0 <= j < k ==> (#[trigger] runs@[j]).slot == draws@[j].1,
            forall|j: int| 0 <= j < k ==> (#[trigger] runs@[j]).start_delay_nanos == if duration_nanos == 0 {
                0
            } else {
                draws@[j].0
            },
        decreases draws.len() - k,
    {
        let (delay, slot) = draws[k];
        assert(draw_in_range(draws@[k as int], population.len() as nat, duration_nanos));
        let slot = slot as usize;
        let start_delay_nanos = if duration_nanos == 0 {
            0
        } else {
            delay
        };
        runs.push(ScheduledRun { start_delay_nanos, slot, chain: population[slot] });
        k = k + 1;
    }
    runs
}

/// Draws the runs of a load: `number_of_requests` independent draws, each a
/// start delay uniform in the window and a uniform slot of the population.
pub fn draw_schedule(group: &RequestGroup, population: &Vec<usize>) -> (runs: Vec<ScheduledRun>)
    requires
        population.len() > 0,
        population@ == expanded(proportions(group.requests@)),
    ensures
        runs.len() == group.number_of_requests,
        forall|k: int| 0 <= k < runs.len() ==> valid_draw(#[trigger] runs@[k], population@, group.duration_nanos),
        forall|k: int| 0 <= k < runs.len() ==> (#[trigger] runs@[k]).chain < group.requests.len(),
{
    proof {
        assert(proportions(group.requests@).len() == group.requests.len());
        lemma_population_matches_weights(proportions(group.requests@));
    }
    let mut draws: Vec<(u64, u64)> = Vec::new();
    let mut k: u32 = 0;
    while k < group.number_of_requests
        invariant
            0 <= k <= group.number_of_requests,
            draws.len() == k,
            population.len() > 0,
            forall|j: int| 0 <= j < draws.len() ==> draw_in_range(#[trigger] draws@[j], population.len() as nat, group.duration_nanos),
        decreases group.number_of_requests - k,
    {
        let start_delay_nanos = if group.duration_nanos == 0 {
            0
        } else {
            uniform_below(group.duration_nanos)
        };
        let slot = uniform_below(population.len() as u64);
        draws.push((start_delay_nanos, slot));
        k = k + 1;
    }
    let runs = schedule_from_draws(population, group.duration_nanos, &draws);
    assert forall|j: int| 0 <= j < runs.len() implies (#[trigger] runs@[j]).chain < group.requests.len() by {
        assert(valid_draw(runs@[j], population@, group.duration_nanos));
        assert(population@[runs@[j].slot as int] < group.requests.len());
    }
    runs
}

/// Draws the runs of a load from its plan: fails where the weights add up to
/// nothing, else gives `number_of_requests` runs, each of a chain of the plan
/// and starting inside the window (at once where there is none).
pub fn schedule_group(group: &RequestGroup) -> (r: Result<Vec<ScheduledRun>, ConfigError>)
    requires
        total_weight(proportions(group.requests@)) <= usize::MAX,
    ensures
        r is Ok == (total_weight(proportions(group.requests@)) > 0),
        r matches Err(e) ==> e is EmptyPopulation,
        r matches Ok(runs) ==> {
            &&& runs.len() == group.number_of_requests
            &&& forall|k: int| 0 <= k < runs.len() ==> (#[trigger] runs@[k]).chain < group.requests.len()
            &&& forall|k: int| 0 <= k < runs.len() ==> valid_draw(
                #[trigger] runs@[k],
                expanded(proportions(group.requests@)),
                group.duration_nanos,
            )
            &&& forall|k: int| 0 <= k < runs.len() ==> group.duration_nanos == 0 ==> (#[trigger] runs@[k]).start_delay_nanos == 0
            &&& forall|k: int| 0 <= k < runs.len() ==> group.duration_nanos > 0 ==> (#[trigger] runs@[k]).start_delay_nanos < group.duration_nanos
        },
{
    let population = expand_population(group)?;
    proof {
        assert(proportions(group.requests@).len() == group.requests.len());
        lemma_population_matches_weights(proportions(group.requests@));
    }
    let runs = draw_schedule(group, &population);
    assert forall|k: int| 0 <= k < runs.len() implies group.duration_nanos == 0 ==> (#[trigger] runs@[k]).start_delay_nanos == 0 by {
        assert(valid_draw(runs@[k], population@, group.duration_nanos));
    }
    assert forall|k: int| 0 <= k < runs.len() implies group.duration_nanos > 0 ==> (#[trigger] runs@[k]).start_delay_nanos < group.duration_nanos by {
        assert(valid_draw(runs@[k], population@, group.duration_nanos));
    }
    Ok(runs)
}

/// The running of one drawn chain: which chain, and the outcomes of the steps
/// run so far. Steps run one after another, each to its end, failed or not.
pub struct ChainRun {
    pub chain: usize,
    pub outcomes: Vec<RequestStatus>,
}

/// The number of steps of chain `chain`.
pub open spec fn steps_of(group: RequestGroup, chain: usize) -> nat {
    group.requests@[chain as int].requests@.len()
}

impl ChainRun {
    /// A run of the drawn chain with no step done yet.
    pub fn start(run: &ScheduledRun) -> (r: ChainRun)
        ensures
            r.chain == run.chain,
            r.outcomes.len() == 0,
    {
        ChainRun { chain: run.chain, outcomes: Vec::new() }
    }

    /// All steps of the chain have an outcome.
    pub open spec fn is_finished(self, group: RequestGroup) -> bool {
        self.outcomes.len() == steps_of(group, self.chain)
    }

    /// The step to run next, if any is left.
    pub fn next_step(&self, group: &RequestGroup) -> (r: Option<usize>)
        requires
            self.chain < group.requests.len(),
            self.outcomes.len() <= steps_of(*group, self.chain),
        ensures
            r is None == self.is_finished(*group),
            r matches Some(i) ==> i == self.outcomes.len(),
    {
        if self.outcomes.len() < group.requests[self.chain].requests.len() {
            Some(self.outcomes.len())
        } else {
            None
        }
    }

    /// Records the outcome of the step that was run.
    pub fn record(&mut self, group: &RequestGroup, outcome: RequestStatus)
        requires
            old(self).chain < group.requests.len(),
            old(self).outcomes.len() < steps_of(*group, old(self).chain),
        ensures
            final(self).chain == old(self).chain,
            final(self).outcomes@ == old(self).outcomes@.push(outcome),
            final(self).outcomes.len() <= steps_of(*group, final(self).chain),
    {
        self.outcomes.push(outcome);
    }
}


/// The name of the chain that a run ran.
pub open spec fn run_name(group: RequestGroup, run: ChainRun) -> Seq<char> {
    group.requests@[run.chain as int].name@
}

/// The step outcomes of the runs whose chain is named `name`, in run order.
pub open spec fn results_named(group: RequestGroup, runs: Seq<ChainRun>, name: Seq<char>) -> Seq<Seq<StatusView>>
    decreases runs.len(),
{
    if runs.len() == 0 {
        Seq::empty()
    } else if run_name(group, runs.last()) == name {
        results_named(group, runs.drop_last(), name).push(statuses_view(runs.last().outcomes@))
    } else {
        results_named(group, runs.drop_last(), name)
    }
}

fn copy_statuses(v: &Vec<RequestStatus>) -> (r: Vec<RequestStatus>)
    ensures
        statuses_view(r@) == statuses_view(v@),
{
    let mut r: Vec<RequestStatus> = Vec::new();
    let mut i: usize = 0;
    while i < v.len()
        invariant
            0 <= i <= v.len(),
            statuses_view(r@) =~= statuses_view(v@).take(i as int),
        decreases v.len() - i,
    {
        let ghost prev = r@;
        r.push(v[i].duplicate());
        assert(statuses_view(r@) =~= statuses_view(prev).push(v@[i as int]@));
        i = i + 1;
    }
    r
}

pub open spec fn strings_view(v: Seq<String>) -> Seq<Seq<char>> {
    v.map_values(|s: String| s@)
}

/// The names of the groups, in order.
pub open spec fn group_names(out: Seq<ResultGroup>) -> Seq<Seq<char>> {
    out.map_values(|g: ResultGroup| g.name@)
}

/// The chain name of each run, in order.
pub open spec fn run_names(group: RequestGroup, runs: Seq<ChainRun>) -> Seq<Seq<char>> {
    runs.map_values(|r: ChainRun| run_name(group, r))
}

fn contains_name(names: &Vec<String>, name: &String) -> (r: bool)
    ensures
        r == strings_view(names@).contains(name@),
{
    let mut g: usize = 0;
    while g < names.len()
        invariant
            0 <= g <= names.len(),
            forall|h: int| 0 <= h < g ==> strings_view(names@)[h] != name@,
        decreases names.len() - g,
    {
        if names[g].eq(name) {
            assert(strings_view(names@)[g as int] == name@);
            return true;
        }
        g = g + 1;
    }
    false
}

/// The step outcomes of the runs of the chains named `name`.
fn collect_named(group: &RequestGroup, runs: &Vec<ChainRun>, name: &String) -> (r: Vec<Vec<RequestStatus>>)
    requires
        forall|k: int| 0 <= k < runs.len() ==> (#[trigger] runs@[k]).chain < group.requests.len(),
    ensures
        chains_view(r@) == results_named(*group, runs@, name@),
{
    let mut r: Vec<Vec<RequestStatus>> = Vec::new();
    let mut k: usize = 0;
    while k < runs.len()
        invariant
            0 <= k <= runs.len(),
            forall|j: int| 0 <= j < runs.len() ==> (#[trigger] runs@[j]).chain < group.requests.len(),
            chains_view(r@) =~= results_named(*group, runs@.take(k as int), name@),
        decreases runs.len() - k,
    {
        assert(runs@.take(k + 1).drop_last() =~= runs@.take(k as int));
        assert(runs@.take(k + 1).last() == runs@[k as int]);
        if group.requests[runs[k].chain].name.eq(name) {
            let ghost prev = r@;
            let c = copy_statuses(&runs[k].outcomes);
            r.push(c);
            assert(chains_view(r@) =~= chains_view(prev).push(statuses_view(c@)));
        }
        k = k + 1;
    }
    assert(runs@.take(runs.len() as int) =~= runs@);
    r
}

/// Groups the finished runs by the name of their chain. Every group is named
/// after some run's chain, names are not repeated, and each group holds, in
/// run order, the outcomes of exactly the runs of chains with its name.
///
/// The groups are a `Vec` kept free of repeated names rather than a map keyed
/// by `String`: a scan with `String` equality lets the contract state exactly
/// which results each group holds, which a map with a `String` key does not.
pub fn group_results(group: &RequestGroup, runs: &Vec<ChainRun>) -> (out: Vec<ResultGroup>)
    requires
        forall|k: int| 0 <= k < runs.len() ==> (#[trigger] runs@[k]).chain < group.requests.len(),
    ensures
        group_names(out@).no_duplicates(),
        forall|g: int| 0 <= g < out.len() ==> chains_view((#[trigger] out@[g]).chains@) == results_named(*group, runs@, out@[g].name@),
        forall|g: int| 0 <= g < out.len() ==> run_names(*group, runs@).contains((#[trigger] out@[g]).name@),
        forall|k: int| 0 <= k < runs.len() ==> group_names(out@).contains(run_name(*group, #[trigger] runs@[k])),
        chains_count(out@) == runs.len(),
{
    let ghost rn = run_names(*group, runs@);
    let mut names: Vec<String> = Vec::new();
    let mut k: usize = 0;
    while k < runs.len()
        invariant
            0 <= k <= runs.len(),
            rn == run_names(*group, runs@),
            forall|j: int| 0 <= j < runs.len() ==> (#[trigger] runs@[j]).chain < group.requests.len(),
            strings_view(names@).no_duplicates(),
            forall|g: int| 0 <= g < names.len() ==> rn.contains(#[trigger] strings_view(names@)[g]),
            forall|j: int| 0 <= j < k ==> strings_view(names@).contains(#[trigger] rn[j]),
        decreases runs.len() - k,
    {
        let name = &group.requests[runs[k].chain].name;
        assert(name@ == rn[k as int]);
        if !contains_name(&names, name) {
            let ghost prev = strings_view(names@);
            names.push(name.clone());
            assert(strings_view(names@) =~= prev.push(name@));
            assert forall|j: int| 0 <= j <= k implies strings_view(names@).contains(#[trigger] rn[j]) by {
                if j < k {
                    let w = choose|w: int| 0 <= w < prev.len() && prev[w] == rn[j];
                    assert(strings_view(names@)[w] == rn[j]);
                } else {
                    assert(strings_view(names@)[prev.len() as int] == rn[j]);
                }
            }
            assert forall|g: int| 0 <= g < names.len() implies rn.contains(#[trigger] strings_view(names@)[g]) by {
                if g < prev.len() {
                    assert(strings_view(names@)[g] == prev[g]);
                } else {
                    assert(rn[k as int] == name@);
                }
            }
        }
        k = k + 1;
    }
    let ghost nv = strings_view(names@);
    let mut out: Vec<ResultGroup> = Vec::new();
    let mut g: usize = 0;
    while g < names.len()
        invariant
            0 <= g <= names.len(),
            out.len() == g,
            nv == strings_view(names@),
            forall|j: int| 0 <= j < runs.len() ==> (#[trigger] runs@[j]).chain < group.requests.len(),
            group_names(out@) =~= nv.take(g as int),
            forall|a: int| 0 <= a < g ==> chains_view((#[trigger] out@[a]).chains@) == results_named(*group, runs@, out@[a].name@),
        decreases names.len() - g,
    {
        let chains = collect_named(group, runs, &names[g]);
        let ghost prev = group_names(out@);
        out.push(ResultGroup { name: names[g].clone(), chains });
        assert(group_names(out@) =~= prev.push(nv[g as int]));
        g = g + 1;
    }
    assert(group_names(out@) =~= nv);
    assert forall|a: int| 0 <= a < out.len() implies run_names(*group, runs@).contains((#[trigger] out@[a]).name@) by {
        assert(group_names(out@)[a] == out@[a].name@);
    }
    assert forall|j: int| 0 <= j < runs.len() implies group_names(out@).contains(run_name(*group, #[trigger] runs@[j])) by {
        assert(rn[j] == run_name(*group, runs@[j]));
    }
    proof {
        lemma_grouping_keeps_every_run(*group, runs@, group_names(out@));
        lemma_chains_count(*group, runs@, out@);
    }
    out
}

/// How many chains the groups hold together.
pub open spec fn chains_count(out: Seq<ResultGroup>) -> nat
    decreases out.len(),
{
    if out.len() == 0 {
        0
    } else {
        chains_count(out.drop_last()) + out.last().chains@.len()
    }
}

/// How many runs the groups named in `names` take in together.
pub open spec fn named_total(group: RequestGroup, runs: Seq<ChainRun>, names: Seq<Seq<char>>) -> nat
    decreases names.len(),
{
    if names.len() == 0 {
        0
    } else {
        named_total(group, runs, names.drop_last()) + results_named(group, runs, names.last()).len()
    }
}

/// How many entries of `names` equal `x`.
pub open spec fn name_count(names: Seq<Seq<char>>, x: Seq<char>) -> nat
    decreases names.len(),
{
    if names.len() == 0 {
        0
    } else {
        name_count(names.drop_last(), x) + if names.last() == x {
            1nat
        } else {
            0nat
        }
    }
}

proof fn lemma_named_total_no_runs(group: RequestGroup, runs: Seq<ChainRun>, names: Seq<Seq<char>>)
    requires
        runs.len() == 0,
    ensures
        named_total(group, runs, names) == 0,
    decreases names.len(),
{
    if names.len() > 0 {
        lemma_named_total_no_runs(group, runs, names.drop_last());
    }
}

proof fn lemma_named_total_push(
    group: RequestGroup,
    runs: Seq<ChainRun>,
    r: ChainRun,
    names: Seq<Seq<char>>,
)
    ensures
        named_total(group, runs.push(r), names) == named_total(group, runs, names) + name_count(
            names,
            run_name(group, r),
        ),
    decreases names.len(),
{
    assert(runs.push(r).drop_last() =~= runs);
    if names.len() > 0 {
        lemma_named_total_push(group, runs, r, names.drop_last());
    }
}

proof fn lemma_name_count_distinct(names: Seq<Seq<char>>, x: Seq<char>)
    requires
        names.no_duplicates(),
    ensures
        name_count(names, x) == if names.contains(x) {
            1nat
        } else {
            0nat
        },
    decreases names.len(),
{
    if names.len() > 0 {
        let p = names.drop_last();
        assert(p.no_duplicates()) by {
            assert forall|i: int, j: int| 0 <= i < p.len() && 0 <= j < p.len() && i != j implies p[i] != p[j] by {
                assert(p[i] == names[i] && p[j] == names[j]);
            }
        }
        lemma_name_count_distinct(p, x);
        if names.last() == x {
            assert(names[names.len() - 1] == x);
            if p.contains(x) {
                let i = choose|i: int| 0 <= i < p.len() && p[i] == x;
                assert(names[i] == x);
            }
        } else {
            if names.contains(x) {
                let i = choose|i: int| 0 <= i < names.len() && names[i] == x;
                assert(p[i] == x);
            }
            if p.contains(x) {
                let i = choose|i: int| 0 <= i < p.len() && p[i] == x;
                assert(names[i] == x);
            }
        }
    }
}

/// Grouping loses no run and counts none twice: over distinct names that
/// cover every run's chain name, the groups take in exactly as many results
/// as there are runs.
pub proof fn lemma_grouping_keeps_every_run(group: RequestGroup, runs: Seq<ChainRun>, names: Seq<Seq<char>>)
    requires
        names.no_duplicates(),
        forall|k: int| 0 <= k < runs.len() ==> names.contains(run_name(group, #[trigger] runs[k])),
    ensures
        named_total(group, runs, names) == runs.len(),
    decreases runs.len(),
{
    if runs.len() == 0 {
        lemma_named_total_no_runs(group, runs, names);
    } else {
        let p = runs.drop_last();
        assert(p.push(runs.last()) =~= runs);
        assert forall|k: int| 0 <= k < p.len() implies names.contains(run_name(group, #[trigger] p[k])) by {
            assert(p[k] == runs[k]);
        }
        lemma_grouping_keeps_every_run(group, p, names);
        lemma_named_total_push(group, p, runs.last(), names);
        assert(names.contains(run_name(group, runs[runs.len() - 1])));
        lemma_name_count_distinct(names, run_name(group, runs.last()));
    }
}

proof fn lemma_chains_count(group: RequestGroup, runs: Seq<ChainRun>, out: Seq<ResultGroup>)
    requires
        forall|g: int| 0 <= g < out.len() ==> chains_view((#[trigger] out[g]).chains@) == results_named(group, runs, out[g].name@),
    ensures
        chains_count(out) == named_total(group, runs, group_names(out)),
    decreases out.len(),
{
    if out.len() > 0 {
        let p = out.drop_last();
        assert forall|g: int| 0 <= g < p.len() implies chains_view((#[trigger] p[g]).chains@) == results_named(group, runs, p[g].name@) by {
            assert(p[g] == out[g]);
        }
        lemma_chains_count(group, runs, p);
        assert(group_names(out).drop_last() =~= group_names(p));
        assert(chains_view(out[out.len() - 1].chains@).len() == out.last().chains.len());
    }
}

/// When every run has finished, each result that a group takes in has one
/// outcome for every step of a chain of that name.
pub proof fn lemma_finished_results_have_every_step(
    group: RequestGroup,
    runs: Seq<ChainRun>,
    name: Seq<char>,
    j: int,
)
    requires
        forall|k: int| 0 <= k < runs.len() ==> (#[trigger] runs[k]).is_finished(group),
        0 <= j < results_named(group, runs, name).len(),
    ensures
        exists|k: int|
            0 <= k < runs.len() && run_name(group, #[trigger] runs[k]) == name
                && results_named(group, runs, name)[j].len() == steps_of(group, runs[k].chain),
    decreases runs.len(),
{
    let p = runs.drop_last();
    let last = runs.len() - 1;
    assert forall|k: int| 0 <= k < p.len() implies (#[trigger] p[k]).is_finished(group) by {
        assert(p[k] == runs[k]);
    }
    if run_name(group, runs.last()) == name && j == results_named(group, p, name).len() {
        assert(runs[last].is_finished(group));
        assert(run_name(group, runs[last]) == name);
    } else {
        lemma_finished_results_have_every_step(group, p, name, j);
        let k = choose|k: int|
            0 <= k < p.len() && run_name(group, #[trigger] p[k]) == name
                && results_named(group, p, name)[j].len() == steps_of(group, p[k].chain);
        assert(runs[k] == p[k]);
    }
}

} // verus!
