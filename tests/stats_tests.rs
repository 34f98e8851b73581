use amawk::outcome::RequestStatus;
use amawk::stats::{delays_fit, get_stat, group_stat, ResultGroup};

fn ok(ns: u64) -> RequestStatus {
    RequestStatus::Success { delay_nanos: ns, url: "u".to_string() }
}

#[test]
fn timeout_only_group_has_no_timing() {
    let chains = vec![vec![RequestStatus::Timeout], vec![RequestStatus::Timeout]];
    let s = group_stat(&"A".to_string(), &chains);
    assert_eq!(s.name, "A");
    assert_eq!(s.total, 2);
    assert_eq!(s.average_total_load_time, None);
    assert_eq!(s.standard_deviation, None);
    assert_eq!(s.number_of_failed_requests, s.total);
    assert_eq!(s.common_errors, vec![RequestStatus::Timeout]);
}

#[test]
fn single_success_has_zero_deviation() {
    let s = group_stat(&"A".to_string(), &vec![vec![ok(7), ok(5)], vec![RequestStatus::Timeout]]);
    assert_eq!(s.average_total_load_time, Some(12));
    assert_eq!(s.standard_deviation, Some(0));
}

#[test]
fn mean_and_population_deviation() {
    let chains: Vec<Vec<RequestStatus>> = [2u64, 4, 4, 4, 5, 5, 7, 9].iter().map(|d| vec![ok(*d)]).collect();
    let s = group_stat(&"A".to_string(), &chains);
    assert_eq!(s.total, 8);
    assert_eq!(s.average_total_load_time, Some(5));
    assert_eq!(s.standard_deviation, Some(2));
    assert_eq!(s.number_of_failed_requests, 0);
    assert!(s.common_errors.is_empty());
}

#[test]
fn deviation_rounds_down() {
    // mean 2; squared distances 1 + 1 + 4 = 6; 6 / 3 = 2; floor(sqrt(2)) = 1
    let chains = vec![vec![ok(1)], vec![ok(3)], vec![ok(0), ok(4)], vec![RequestStatus::InvalidStatusCode]];
    let s = group_stat(&"A".to_string(), &chains);
    assert_eq!(s.average_total_load_time, Some(2));
    assert_eq!(s.standard_deviation, Some(1));
    assert_eq!(s.number_of_failed_requests, 1);
}

#[test]
fn failed_and_succeeded_add_up() {
    let chains = vec![
        vec![ok(1), RequestStatus::Timeout],
        vec![ok(2)],
        vec![RequestStatus::HttpParseError, ok(3)],
        vec![ok(4), ok(4)],
    ];
    let s = group_stat(&"A".to_string(), &chains);
    assert_eq!(s.number_of_failed_requests, 2);
    assert_eq!(s.total, 4);
    assert_eq!(s.average_total_load_time, Some(5));
}

#[test]
fn common_errors_by_descending_frequency() {
    let other = || RequestStatus::Other(Some("reset".to_string()));
    let chains = vec![
        vec![RequestStatus::HttpParseError],
        vec![RequestStatus::Timeout],
        vec![ok(1), other()],
        vec![RequestStatus::Timeout],
        vec![other()],
        vec![RequestStatus::Timeout],
        vec![RequestStatus::Other(Some("refused".to_string()))],
        vec![ok(3)],
    ];
    let s = group_stat(&"A".to_string(), &chains);
    assert_eq!(s.common_errors, vec![RequestStatus::Timeout, other()]);
    assert_eq!(s.number_of_failed_requests, 7);
}

#[test]
fn empty_group_has_no_data() {
    let s = group_stat(&"A".to_string(), &vec![]);
    assert_eq!(s.total, 0);
    assert_eq!(s.average_total_load_time, None);
    assert_eq!(s.standard_deviation, None);
    assert!(s.common_errors.is_empty());
}

#[test]
fn statistics_for_every_group() {
    let data = vec![
        ResultGroup { name: "A".to_string(), chains: vec![vec![ok(10)]] },
        ResultGroup { name: "B".to_string(), chains: vec![vec![RequestStatus::Timeout], vec![ok(4)], vec![ok(6)]] },
    ];
    let s = get_stat(&data);
    assert_eq!(s.clients.len(), 2);
    assert_eq!(s.clients[0].name, "A");
    assert_eq!(s.clients[0].average_total_load_time, Some(10));
    assert_eq!(s.clients[1].name, "B");
    assert_eq!(s.clients[1].average_total_load_time, Some(5));
    assert_eq!(s.clients[1].standard_deviation, Some(1));
    assert_eq!(s.clients[1].number_of_failed_requests, 1);
}

#[test]
fn overflowing_delays_are_detected() {
    assert!(delays_fit(&vec![vec![ok(u64::MAX)], vec![RequestStatus::Timeout]]));
    assert!(!delays_fit(&vec![vec![ok(u64::MAX)], vec![ok(1)]]));
    assert!(!delays_fit(&vec![vec![ok(u64::MAX), ok(1)]]));
    assert!(delays_fit(&vec![vec![ok(u64::MAX), RequestStatus::Timeout, ok(1)]]));
}
