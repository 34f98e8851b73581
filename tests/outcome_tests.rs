use amawk::outcome::{classify_failure, reduce_chain, RequestStatus};

fn ok(ns: u64) -> RequestStatus {
    RequestStatus::Success { delay_nanos: ns, url: "http://a.example/".to_string() }
}

#[test]
fn all_success_chain_sums_elapsed() {
    let r = reduce_chain(&vec![ok(5), ok(7), ok(30)]);
    assert_eq!(r, RequestStatus::Success { delay_nanos: 42, url: String::new() });
}

#[test]
fn all_success_chain_sum_ignores_order() {
    let a = reduce_chain(&vec![ok(1), ok(20), ok(300)]);
    let b = reduce_chain(&vec![ok(300), ok(1), ok(20)]);
    assert_eq!(a, b);
}

#[test]
fn reducing_a_reduced_outcome_changes_nothing() {
    let once = reduce_chain(&vec![ok(3), ok(4)]);
    let twice = reduce_chain(&vec![once.duplicate()]);
    assert_eq!(once, twice);
}

#[test]
fn empty_chain_reduces_to_zero_success() {
    let r = reduce_chain(&vec![]);
    assert_eq!(r, RequestStatus::Success { delay_nanos: 0, url: String::new() });
}

#[test]
fn first_failure_wins() {
    let r = reduce_chain(&vec![ok(1), RequestStatus::Timeout, RequestStatus::HttpParseError]);
    assert_eq!(r, RequestStatus::Timeout);
}

#[test]
fn single_timeout_step_reduces_to_timeout() {
    assert_eq!(reduce_chain(&vec![RequestStatus::Timeout]), RequestStatus::Timeout);
}

#[test]
fn failure_keeps_cause_text() {
    let r = reduce_chain(&vec![ok(1), RequestStatus::Other(Some("reset".to_string())), ok(2)]);
    assert_eq!(r, RequestStatus::Other(Some("reset".to_string())));
}

#[test]
fn classification_precedence() {
    assert_eq!(classify_failure(true, true, true, None), RequestStatus::HttpParseError);
    assert_eq!(classify_failure(false, true, true, None), RequestStatus::Timeout);
    assert_eq!(classify_failure(false, false, true, None), RequestStatus::InvalidStatusCode);
    assert_eq!(
        classify_failure(false, false, false, Some("refused".to_string())),
        RequestStatus::Other(Some("refused".to_string()))
    );
    assert_eq!(classify_failure(false, false, false, None), RequestStatus::Other(None));
}

#[test]
fn structural_equality_compares_cause_text() {
    let a = RequestStatus::Other(Some("x".to_string()));
    let b = RequestStatus::Other(Some("y".to_string()));
    assert!(!a.same_as(&b));
    assert!(a.same_as(&a.duplicate()));
    assert!(!RequestStatus::Other(None).same_as(&a));
    assert!(RequestStatus::Timeout.same_as(&RequestStatus::Timeout));
    assert!(!ok(1).same_as(&ok(2)));
    assert!(ok(1).is_success());
    assert!(!RequestStatus::InvalidStatusCode.is_success());
}
