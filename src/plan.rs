use vstd::prelude::*;

verus! {

#[verifier::external_type_specification]
#[verifier::external_body]
pub struct ExUri(hyper::Uri);

#[verifier::external_type_specification]
#[verifier::external_body]
pub struct ExInvalidUri(hyper::http::uri::InvalidUri);

#[verifier::external_type_specification]
#[verifier::external_body]
pub struct ExAuthority(hyper::http::uri::Authority);

/// Whether hyper accepts the text as a URI.
pub uninterp spec fn uri_parses(s: Seq<char>) -> bool;

/// The URI that hyper parses from the text, where it accepts the text.
pub uninterp spec fn parsed_uri(s: Seq<char>) -> hyper::Uri;

/// Whether a parsed URI has a scheme.
pub uninterp spec fn uri_has_scheme(u: hyper::Uri) -> bool;

/// Whether a parsed URI has an authority.
pub uninterp spec fn uri_has_authority(u: hyper::Uri) -> bool;

/// Relies on `FromStr` for hyper::Uri (http::Uri::from_str): whether the text
/// is accepted, and the URI it gives, depend on the text alone; an empty text
/// is refused.
#[verifier::external_body]
fn parse_uri(s: &String) -> (r: Result<hyper::Uri, hyper::http::uri::InvalidUri>)
    ensures
        r is Ok == uri_parses(s@),
        s@.len() == 0 ==> r is Err,
        r matches Ok(u) ==> u == parsed_uri(s@),
{
    s.parse::<hyper::Uri>()
}

/// Relies on hyper::Uri::scheme_str (http::Uri): `Some` exactly when the URI
/// has a scheme.
pub assume_specification<'a>[ hyper::Uri::scheme_str ](u: &'a hyper::Uri) -> (r: Option<&'a str>)
    ensures
        r is Some == uri_has_scheme(*u),
;

/// Relies on hyper::Uri::authority (http::Uri): `Some` exactly when the URI
/// has an authority.
pub assume_specification<'a>[ hyper::Uri::authority ](u: &'a hyper::Uri) -> (r: Option<
    &'a hyper::http::uri::Authority,
>)
    ensures
        r is Some == uri_has_authority(*u),
;

/// The text is an absolute URI: hyper parses it, with a scheme and an authority.
pub open spec fn url_valid(s: Seq<char>) -> bool {
    &&& uri_parses(s)
    &&& uri_has_scheme(parsed_uri(s))
    &&& uri_has_authority(parsed_uri(s))
}

/// A configuration error, found before any request is sent.
#[derive(Debug, PartialEq, Eq)]
pub enum ConfigError {
    /// The text of a step's URL that is not an absolute URI.
    InvalidUrl(String),
    /// The weighted chains give nothing to draw from.
    EmptyPopulation,
}

/// One step of a chain as configured: a URL and the pause after its fetch.
pub struct RawRequest {
    pub url: String,
    pub delay_nanos: u64,
}

/// A named chain as configured, drawn in proportion to `proportion`.
pub struct RawRankedRequest {
    pub proportion: usize,
    pub name: String,
    pub requests: Vec<RawRequest>,
}

/// A load run as configured: the chains, how many to run, and the window in
/// nanoseconds over which their starts are spread.
pub struct RawRequestGroup {
    pub requests: Vec<RawRankedRequest>,
    pub number_of_requests: u32,
    pub duration_nanos: u64,
}

/// One step of a chain: the URI to fetch and the pause after the fetch.
pub struct Request {
    pub uri: hyper::Uri,
    pub delay_nanos: u64,
}

/// A named, weighted chain of steps.
pub struct RankedRequest {
    pub proportion: usize,
    pub name: String,
    pub requests: Vec<Request>,
}

/// A load run: the chains, how many to run, and the window in nanoseconds
/// over which their starts are spread.
pub struct RequestGroup {
    pub requests: Vec<RankedRequest>,
    pub number_of_requests: u32,
    pub duration_nanos: u64,
}

/// Every step URL of the chain is an absolute URI.
pub open spec fn chain_valid(c: RawRankedRequest) -> bool {
    forall|k: int| 0 <= k < c.requests.len() ==> url_valid(#[trigger] c.requests@[k].url@)
}

/// `u` is the first step URL of the chain that is not an absolute URI.
pub open spec fn first_invalid_in_chain(c: RawRankedRequest, u: Seq<char>) -> bool {
    exists|k: int|
        0 <= k < c.requests.len() && !url_valid(#[trigger] c.requests@[k].url@) && c.requests@[k].url@
            == u && forall|j: int| 0 <= j < k ==> url_valid(#[trigger] c.requests@[j].url@)
}

/// `u` is the first step URL, in the order of chains and then of steps, that is
/// not an absolute URI.
pub open spec fn first_invalid_in_group(cs: Seq<RawRankedRequest>, u: Seq<char>) -> bool {
    exists|i: int|
        0 <= i < cs.len() && first_invalid_in_chain(#[trigger] cs[i], u) && forall|h: int|
            0 <= h < i ==> chain_valid(#[trigger] cs[h])
}

/// `c` is the chain that `raw` configures.
pub open spec fn mirrors_chain(c: RankedRequest, raw: RawRankedRequest) -> bool {
    &&& c.proportion == raw.proportion
    &&& c.name@ == raw.name@
    &&& c.requests.len() == raw.requests.len()
    &&& forall|k: int| 0 <= k < c.requests.len() ==> (#[trigger] c.requests@[k]).delay_nanos == raw.requests@[k].delay_nanos
    &&& forall|k: int| 0 <= k < c.requests.len() ==> (#[trigger] c.requests@[k]).uri == parsed_uri(raw.requests@[k].url@)
}

impl Request {
    /// Parses the URL of a configured step, which must be an absolute URI.
    pub fn try_from_raw(raw: &RawRequest) -> (r: Result<Request, ConfigError>)
        ensures
            r is Ok == url_valid(raw.url@),
            r matches Ok(q) ==> q.delay_nanos == raw.delay_nanos && q.uri == parsed_uri(raw.url@),
            r matches Err(e) ==> (e matches ConfigError::InvalidUrl(u) && u@ == raw.url@),
    {
        match parse_uri(&raw.url) {
            Ok(uri) => {
                if uri.scheme_str().is_some() && uri.authority().is_some() {
                    Ok(Request { uri, delay_nanos: raw.delay_nanos })
                } else {
                    Err(ConfigError::InvalidUrl(raw.url.clone()))
                }
            },
            Err(_) => Err(ConfigError::InvalidUrl(raw.url.clone())),
        }
    }
}

impl RankedRequest {
    /// Parses every step of a configured chain, stopping at the first URL that
    /// is not an absolute URI.
    pub fn try_from_raw(raw: &RawRankedRequest) -> (r: Result<RankedRequest, ConfigError>)
        ensures
            r is Ok == chain_valid(*raw),
            r matches Ok(c) ==> mirrors_chain(c, *raw),
            r matches Err(e) ==> (e matches ConfigError::InvalidUrl(u) && first_invalid_in_chain(*raw, u@)),
    {
        let mut requests: Vec<Request> = Vec::new();
        let mut k: usize = 0;
        while k < raw.requests.len()
            invariant
                0 <= k <= raw.requests.len(),
                requests.len() == k,
                forall|j: int| 0 <= j < k ==> url_valid(#[trigger] raw.requests@[j].url@),
                forall|j: int| 0 <= j < k ==> (#[trigger] requests@[j]).delay_nanos == raw.requests@[j].delay_nanos,
                forall|j: int| 0 <= j < k ==> (#[trigger] requests@[j]).uri == parsed_uri(raw.requests@[j].url@),
            decreases raw.requests.len() - k,
        {
            match Request::try_from_raw(&raw.requests[k]) {
                Ok(q) => {
                    requests.push(q);
                },
                Err(e) => {
                    assert(!url_valid(raw.requests@[k as int].url@));
                    return Err(e);
                },
            }
            k = k + 1;
        }
        Ok(RankedRequest { proportion: raw.proportion, name: raw.name.clone(), requests })
    }
}

impl RequestGroup {
    /// Parses every chain of a configured run, stopping at the first URL that
    /// is not an absolute URI.
    pub fn try_from_raw(raw: &RawRequestGroup) -> (r: Result<RequestGroup, ConfigError>)
        ensures
            r is Ok == forall|i: int| 0 <= i < raw.requests.len() ==> chain_valid(#[trigger] raw.requests@[i]),
            r matches Ok(g) ==> {
                &&& g.number_of_requests == raw.number_of_requests
                &&& g.duration_nanos == raw.duration_nanos
                &&& g.requests.len() == raw.requests.len()
                &&& forall|i: int| 0 <= i < g.requests.len() ==> mirrors_chain(#[trigger] g.requests@[i], raw.requests@[i])
            },
            r matches Err(e) ==> (e matches ConfigError::InvalidUrl(u) && first_invalid_in_group(raw.requests@, u@)),
    {
        let mut requests: Vec<RankedRequest> = Vec::new();
        let mut i: usize = 0;
        while i < raw.requests.len()
            invariant
                0 <= i <= raw.requests.len(),
                requests.len() == i,
                forall|h: int| 0 <= h < i ==> chain_valid(#[trigger] raw.requests@[h]),
                forall|h: int| 0 <= h < i ==> mirrors_chain(#[trigger] requests@[h], raw.requests@[h]),
            decreases raw.requests.len() - i,
        {
            match RankedRequest::try_from_raw(&raw.requests[i]) {
                Ok(c) => {
                    requests.push(c);
                },
                Err(e) => {
                    assert(first_invalid_in_chain(raw.requests@[i as int], e->InvalidUrl_0@));
                    assert(!chain_valid(raw.requests@[i as int]));
                    return Err(e);
                },
            }
            i = i + 1;
        }
        Ok(
            RequestGroup {
                requests,
                number_of_requests: raw.number_of_requests,
                duration_nanos: raw.duration_nanos,
            },
        )
    }
}

} // verus!
