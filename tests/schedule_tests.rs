use amawk::outcome::RequestStatus;
use amawk::plan::{ConfigError, RawRankedRequest, RawRequest, RawRequestGroup, RequestGroup};
use amawk::schedule::{
    draw_schedule, expand_population, group_results, population_size, schedule_from_draws, schedule_group, ChainRun, ScheduledRun,
};

fn plan(chains: &[(&str, usize, usize)], n: u32, duration_nanos: u64) -> RequestGroup {
    let raw = RawRequestGroup {
        requests: chains
            .iter()
            .map(|(name, w, steps)| RawRankedRequest {
                proportion: *w,
                name: name.to_string(),
                requests: (0..*steps)
                    .map(|i| RawRequest { url: format!("http://{}.example/{}", name, i), delay_nanos: 0 })
                    .collect(),
            })
            .collect(),
        number_of_requests: n,
        duration_nanos,
    };
    RequestGroup::try_from_raw(&raw).unwrap()
}

fn ok(ns: u64) -> RequestStatus {
    RequestStatus::Success { delay_nanos: ns, url: "u".to_string() }
}

#[test]
fn population_repeats_each_chain_by_weight() {
    let g = plan(&[("A", 1, 1), ("B", 2, 1)], 9, 0);
    assert_eq!(population_size(&g), Some(3));
    assert_eq!(expand_population(&g).unwrap(), vec![0, 1, 1]);
}

#[test]
fn population_size_is_sum_of_weights() {
    let g = plan(&[("A", 4, 1), ("B", 0, 1), ("C", 3, 2)], 1, 0);
    let p = expand_population(&g).unwrap();
    assert_eq!(p.len(), 7);
    assert_eq!(p.iter().filter(|i| **i == 0).count(), 4);
    assert_eq!(p.iter().filter(|i| **i == 1).count(), 0);
    assert_eq!(p.iter().filter(|i| **i == 2).count(), 3);
}

#[test]
fn no_weight_is_a_configuration_error() {
    let g = plan(&[("A", 0, 1)], 1, 0);
    assert_eq!(expand_population(&g).err(), Some(ConfigError::EmptyPopulation));
    let empty = plan(&[], 1, 0);
    assert_eq!(expand_population(&empty).err(), Some(ConfigError::EmptyPopulation));
}

#[test]
fn population_size_reports_overflow() {
    let g = plan(&[("A", usize::MAX, 1), ("B", 1, 1)], 1, 0);
    assert_eq!(population_size(&g), None);
}

#[test]
fn nine_draws_without_window_start_at_once() {
    let g = plan(&[("A", 1, 1), ("B", 2, 1)], 9, 0);
    let p = expand_population(&g).unwrap();
    let runs = draw_schedule(&g, &p);
    assert_eq!(runs.len(), 9);
    for r in runs.iter() {
        assert_eq!(r.start_delay_nanos, 0);
        assert!(r.slot < 3);
        assert_eq!(r.chain, p[r.slot]);
    }
}

#[test]
fn draws_follow_the_weights_on_average() {
    let g = plan(&[("A", 1, 1), ("B", 2, 1)], 30000, 0);
    let p = expand_population(&g).unwrap();
    let runs = draw_schedule(&g, &p);
    let a = runs.iter().filter(|r| r.chain == 0).count();
    assert!(a > 9000 && a < 11000);
}

#[test]
fn start_delays_fall_in_the_window() {
    let g = plan(&[("A", 1, 1)], 500, 1000);
    let p = expand_population(&g).unwrap();
    let runs = draw_schedule(&g, &p);
    assert_eq!(runs.len(), 500);
    assert!(runs.iter().all(|r| r.start_delay_nanos < 1000));
    assert!(runs.iter().any(|r| r.start_delay_nanos > 0));
}

#[test]
fn zero_requests_draw_nothing() {
    let g = plan(&[("A", 1, 1)], 0, 1000);
    let p = expand_population(&g).unwrap();
    assert!(draw_schedule(&g, &p).is_empty());
}

#[test]
fn chain_run_steps_in_order_past_failures() {
    let g = plan(&[("A", 1, 3)], 1, 0);
    let mut run = ChainRun::start(&ScheduledRun { start_delay_nanos: 0, slot: 0, chain: 0 });
    assert_eq!(run.next_step(&g), Some(0));
    run.record(&g, RequestStatus::Timeout);
    assert_eq!(run.next_step(&g), Some(1));
    run.record(&g, ok(5));
    assert_eq!(run.next_step(&g), Some(2));
    run.record(&g, RequestStatus::HttpParseError);
    assert_eq!(run.next_step(&g), None);
    assert_eq!(run.outcomes, vec![RequestStatus::Timeout, ok(5), RequestStatus::HttpParseError]);
}

#[test]
fn grouping_by_name_keeps_every_run() {
    let g = plan(&[("A", 1, 1), ("B", 1, 2), ("A", 1, 1)], 4, 0);
    let runs = vec![
        ChainRun { chain: 1, outcomes: vec![ok(1), ok(2)] },
        ChainRun { chain: 0, outcomes: vec![ok(3)] },
        ChainRun { chain: 2, outcomes: vec![RequestStatus::Timeout] },
        ChainRun { chain: 1, outcomes: vec![ok(4), RequestStatus::Timeout] },
    ];
    let out = group_results(&g, &runs);
    assert_eq!(out.len(), 2);
    assert_eq!(out[0].name, "B");
    assert_eq!(out[0].chains, vec![vec![ok(1), ok(2)], vec![ok(4), RequestStatus::Timeout]]);
    assert_eq!(out[1].name, "A");
    assert_eq!(out[1].chains, vec![vec![ok(3)], vec![RequestStatus::Timeout]]);
}

#[test]
fn grouping_nothing_gives_no_groups() {
    let g = plan(&[("A", 1, 1)], 0, 0);
    assert!(group_results(&g, &vec![]).is_empty());
}

#[test]
fn fixed_draws_give_one_third_and_two_thirds() {
    let g = plan(&[("A", 1, 1), ("B", 2, 1)], 9, 0);
    let p = expand_population(&g).unwrap();
    let draws: Vec<(u64, u64)> = (0..9u64).map(|i| (i * 100, i % 3)).collect();
    let runs = schedule_from_draws(&p, g.duration_nanos, &draws);
    assert_eq!(runs.len(), 9);
    assert_eq!(runs.iter().filter(|r| r.chain == 0).count(), 3);
    assert_eq!(runs.iter().filter(|r| r.chain == 1).count(), 6);
    assert!(runs.iter().all(|r| r.start_delay_nanos == 0));
}

#[test]
fn fixed_draws_keep_their_start_inside_a_window() {
    let p = vec![0usize, 1, 1];
    let runs = schedule_from_draws(&p, 1000, &vec![(999, 2), (0, 0), (500, 1)]);
    let got: Vec<(u64, usize, usize)> = runs.iter().map(|r| (r.start_delay_nanos, r.slot, r.chain)).collect();
    assert_eq!(got, vec![(999, 2, 1), (0, 0, 0), (500, 1, 1)]);
}

#[test]
fn scheduling_a_plan_draws_every_run() {
    let g = plan(&[("A", 1, 1), ("B", 2, 3)], 9, 0);
    let runs = schedule_group(&g).unwrap();
    assert_eq!(runs.len(), 9);
    assert!(runs.iter().all(|r| r.start_delay_nanos == 0 && r.chain < 2));
    let none = plan(&[("A", 0, 1)], 9, 0);
    assert_eq!(schedule_group(&none).err(), Some(ConfigError::EmptyPopulation));
}
