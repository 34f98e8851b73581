use amawk::plan::{ConfigError, RawRankedRequest, RawRequest, RawRequestGroup, RankedRequest, Request, RequestGroup};

fn raw_step(url: &str, delay_nanos: u64) -> RawRequest {
    RawRequest { url: url.to_string(), delay_nanos }
}

#[test]
fn valid_step_keeps_delay_and_uri() {
    let q = Request::try_from_raw(&raw_step("http://a.example/x", 250)).unwrap();
    assert_eq!(q.delay_nanos, 250);
    assert_eq!(q.uri.to_string(), "http://a.example/x");
}

#[test]
fn empty_url_is_refused() {
    let e = Request::try_from_raw(&raw_step("", 0)).err().unwrap();
    assert_eq!(e, ConfigError::InvalidUrl(String::new()));
}

#[test]
fn chain_reports_first_bad_url() {
    let raw = RawRankedRequest {
        proportion: 2,
        name: "A".to_string(),
        requests: vec![raw_step("http://a.example/", 0), raw_step("http://bad url/", 0), raw_step("", 0)],
    };
    let e = RankedRequest::try_from_raw(&raw).err().unwrap();
    assert_eq!(e, ConfigError::InvalidUrl("http://bad url/".to_string()));
}

#[test]
fn group_keeps_its_shape() {
    let raw = RawRequestGroup {
        requests: vec![
            RawRankedRequest { proportion: 1, name: "A".to_string(), requests: vec![raw_step("http://a.example/", 10)] },
            RawRankedRequest {
                proportion: 3,
                name: "B".to_string(),
                requests: vec![raw_step("http://b.example/", 20), raw_step("http://b.example/2", 30)],
            },
        ],
        number_of_requests: 7,
        duration_nanos: 1000,
    };
    let g = RequestGroup::try_from_raw(&raw).unwrap();
    assert_eq!(g.number_of_requests, 7);
    assert_eq!(g.duration_nanos, 1000);
    assert_eq!(g.requests.len(), 2);
    assert_eq!(g.requests[1].name, "B");
    assert_eq!(g.requests[1].proportion, 3);
    assert_eq!(g.requests[1].requests.len(), 2);
    assert_eq!(g.requests[1].requests[1].delay_nanos, 30);
}

#[test]
fn group_reports_bad_url_of_earlier_chain() {
    let raw = RawRequestGroup {
        requests: vec![
            RawRankedRequest { proportion: 1, name: "A".to_string(), requests: vec![raw_step("", 10)] },
            RawRankedRequest { proportion: 1, name: "B".to_string(), requests: vec![raw_step("http://b c/", 0)] },
        ],
        number_of_requests: 1,
        duration_nanos: 0,
    };
    let e = RequestGroup::try_from_raw(&raw).err().unwrap();
    assert_eq!(e, ConfigError::InvalidUrl(String::new()));
}

#[test]
fn relative_url_is_refused() {
    let e = Request::try_from_raw(&raw_step("/x", 0)).err().unwrap();
    assert_eq!(e, ConfigError::InvalidUrl("/x".to_string()));
}

#[test]
fn authority_only_url_is_refused() {
    let e = Request::try_from_raw(&raw_step("a.example", 0)).err().unwrap();
    assert_eq!(e, ConfigError::InvalidUrl("a.example".to_string()));
}

#[test]
fn absolute_url_without_path_is_accepted() {
    let q = Request::try_from_raw(&raw_step("https://a.example:8443", 5)).unwrap();
    assert_eq!(q.delay_nanos, 5);
}
