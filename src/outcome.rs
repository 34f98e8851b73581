use vstd::prelude::*;

verus! {

/// What one fetch of a chain came to.
#[derive(Debug, PartialEq, Eq)]
pub enum RequestStatus {
    /// The response was read to its end after `delay_nanos` nanoseconds.
    Success { delay_nanos: u64, url: String },
    HttpParseError,
    InvalidStatusCode,
    Timeout,
    /// Any other failure, with the text of its cause where there is one.
    Other(Option<String>),
}

/// The mathematical value of a `RequestStatus`.
pub ghost enum StatusView {
    Success { delay: nat, url: Seq<char> },
    HttpParseError,
    InvalidStatusCode,
    Timeout,
    Other(Option<Seq<char>>),
}

impl StatusView {
    pub open spec fn is_success(self) -> bool {
        self is Success
    }

    /// The elapsed time of a success, zero for anything else.
    pub open spec fn delay(self) -> nat {
        match self {
            StatusView::Success { delay, .. } => delay,
            _ => 0,
        }
    }
}

pub open spec fn opt_str_view(o: Option<String>) -> Option<Seq<char>> {
    match o {
        Some(s) => Some(s@),
        None => None,
    }
}

impl View for RequestStatus {
    type V = StatusView;

    open spec fn view(&self) -> StatusView {
        match self {
            RequestStatus::Success { delay_nanos, url } => StatusView::Success {
                delay: *delay_nanos as nat,
                url: url@,
            },
            RequestStatus::HttpParseError => StatusView::HttpParseError,
            RequestStatus::InvalidStatusCode => StatusView::InvalidStatusCode,
            RequestStatus::Timeout => StatusView::Timeout,
            RequestStatus::Other(c) => StatusView::Other(opt_str_view(*c)),
        }
    }
}

/// The views of a sequence of statuses.
pub open spec fn statuses_view(s: Seq<RequestStatus>) -> Seq<StatusView> {
    s.map_values(|o: RequestStatus| o@)
}

fn copy_opt_string(o: &Option<String>) -> (r: Option<String>)
    ensures
        opt_str_view(r) == opt_str_view(*o),
{
    match o {
        Some(s) => Some(s.clone()),
        None => None,
    }
}

fn opt_string_eq(a: &Option<String>, b: &Option<String>) -> (r: bool)
    ensures
        r == (opt_str_view(*a) == opt_str_view(*b)),
{
    match (a, b) {
        (Some(x), Some(y)) => x.eq(y),
        (None, None) => true,
        _ => false,
    }
}

impl RequestStatus {
    pub fn is_success(&self) -> (r: bool)
        ensures
            r == self@.is_success(),
    {
        match self {
            RequestStatus::Success { .. } => true,
            _ => false,
        }
    }

    /// A copy with the same value.
    pub fn duplicate(&self) -> (r: RequestStatus)
        ensures
            r@ == self@,
    {
        match self {
            RequestStatus::Success { delay_nanos, url } => RequestStatus::Success {
                delay_nanos: *delay_nanos,
                url: url.clone(),
            },
            RequestStatus::HttpParseError => RequestStatus::HttpParseError,
            RequestStatus::InvalidStatusCode => RequestStatus::InvalidStatusCode,
            RequestStatus::Timeout => RequestStatus::Timeout,
            RequestStatus::Other(c) => RequestStatus::Other(copy_opt_string(c)),
        }
    }

    /// Structural equality: same variant, same fields, cause texts compared by content.
    pub fn same_as(&self, other: &RequestStatus) -> (r: bool)
        ensures
            r == (self@ == other@),
    {
        match (self, other) {
            (
                RequestStatus::Success { delay_nanos: d1, url: u1 },
                RequestStatus::Success { delay_nanos: d2, url: u2 },
            ) => *d1 == *d2 && u1.eq(u2),
            (RequestStatus::HttpParseError, RequestStatus::HttpParseError) => true,
            (RequestStatus::InvalidStatusCode, RequestStatus::InvalidStatusCode) => true,
            (RequestStatus::Timeout, RequestStatus::Timeout) => true,
            (RequestStatus::Other(a), RequestStatus::Other(b)) => opt_string_eq(a, b),
            _ => false,
        }
    }
}


/// The failure that a fetch error stands for, given what the error says of
/// itself. A parse failure wins over a timeout, a timeout over an invalid status.
pub open spec fn failure_status(
    is_parse: bool,
    is_timeout: bool,
    is_parse_status: bool,
    cause: Option<Seq<char>>,
) -> StatusView {
    if is_parse {
        StatusView::HttpParseError
    } else if is_timeout {
        StatusView::Timeout
    } else if is_parse_status {
        StatusView::InvalidStatusCode
    } else {
        StatusView::Other(cause)
    }
}

pub fn classify_failure(
    is_parse: bool,
    is_timeout: bool,
    is_parse_status: bool,
    cause: Option<String>,
) -> (r: RequestStatus)
    ensures
        r@ == failure_status(is_parse, is_timeout, is_parse_status, opt_str_view(cause)),
        !r@.is_success(),
{
    if is_parse {
        RequestStatus::HttpParseError
    } else if is_timeout {
        RequestStatus::Timeout
    } else if is_parse_status {
        RequestStatus::InvalidStatusCode
    } else {
        RequestStatus::Other(cause)
    }
}

#[verifier::external_type_specification]
#[verifier::external_body]
pub struct ExHyperError(hyper::Error);

/// Whether hyper's error is a parse error.
pub uninterp spec fn error_is_parse(e: hyper::Error) -> bool;

/// Whether hyper's error came from a timeout.
pub uninterp spec fn error_is_timeout(e: hyper::Error) -> bool;

/// Whether hyper's error is a rejected status line.
pub uninterp spec fn error_is_parse_status(e: hyper::Error) -> bool;

/// Relies on hyper::Error::is_parse: whether the error's kind is a parse
/// failure, a fact of the error value alone.
pub assume_specification[ hyper::Error::is_parse ](e: &hyper::Error) -> (r: bool)
    ensures
        r == error_is_parse(*e),
;

/// Relies on hyper::Error::is_timeout: whether a timeout stands in the error's
/// chain of sources, a fact of the error value alone.
pub assume_specification[ hyper::Error::is_timeout ](e: &hyper::Error) -> (r: bool)
    ensures
        r == error_is_timeout(*e),
;

/// Relies on hyper::Error::is_parse_status: whether the error's kind is a
/// rejected status line, a fact of the error value alone. Such a kind is one
/// of the parse kinds, so `is_parse` holds of it too.
pub assume_specification[ hyper::Error::is_parse_status ](e: &hyper::Error) -> (r: bool)
    ensures
        r == error_is_parse_status(*e),
        r ==> error_is_parse(*e),
;

/// Relies on hyper::Error::into_cause, and on the cause's `to_string`, for the
/// text of what caused the error, where hyper kept a cause.
#[verifier::external_body]
fn cause_text(e: hyper::Error) -> (r: Option<String>) {
    e.into_cause().map(|c| c.to_string())
}

/// Classifies a failed fetch by what hyper reports of the error: a parse
/// failure first, then a timeout, then a rejected status, else any other
/// failure with the text of its cause.
pub fn classify_error(e: hyper::Error) -> (r: RequestStatus)
    ensures
        error_is_parse(e) ==> r@ == StatusView::HttpParseError,
        !error_is_parse(e) && error_is_timeout(e) ==> r@ == StatusView::Timeout,
        !error_is_parse(e) && !error_is_timeout(e) && error_is_parse_status(e) ==> r@
            == StatusView::InvalidStatusCode,
        !error_is_parse(e) && !error_is_timeout(e) && !error_is_parse_status(e) ==> r@ is Other,
{
    let is_parse = e.is_parse();
    let is_timeout = e.is_timeout();
    let is_parse_status = e.is_parse_status();
    let cause = if is_parse || is_timeout || is_parse_status {
        None
    } else {
        cause_text(e)
    };
    classify_failure(is_parse, is_timeout, is_parse_status, cause)
}

/// Total elapsed time of the successful steps of a chain.
pub open spec fn delay_total(s: Seq<StatusView>) -> nat
    decreases s.len(),
{
    if s.len() == 0 {
        0
    } else {
        delay_total(s.drop_last()) + s.last().delay()
    }
}

pub open spec fn all_success(s: Seq<StatusView>) -> bool {
    forall|i: int| 0 <= i < s.len() ==> (#[trigger] s[i]).is_success()
}

/// The single outcome of a whole chain: a success carrying the summed elapsed
/// time when every step succeeded, else the first failure in step order.
pub open spec fn reduced(s: Seq<StatusView>) -> StatusView
    decreases s.len(),
{
    if s.len() == 0 {
        StatusView::Success { delay: 0, url: Seq::empty() }
    } else {
        match reduced(s.drop_last()) {
            StatusView::Success { delay, .. } => match s.last() {
                StatusView::Success { delay: d, .. } => StatusView::Success {
                    delay: delay + d,
                    url: Seq::empty(),
                },
                failure => failure,
            },
            failure => failure,
        }
    }
}

/// A chain whose steps all succeeded reduces to a success whose elapsed time
/// is the exact sum of the steps' elapsed times.
pub proof fn lemma_reduced_all_success(s: Seq<StatusView>)
    requires
        all_success(s),
    ensures
        reduced(s) == (StatusView::Success { delay: delay_total(s), url: Seq::empty() }),
    decreases s.len(),
{
    if s.len() > 0 {
        assert(s.drop_last().len() == s.len() - 1);
        assert forall|i: int| 0 <= i < s.drop_last().len() implies (#[trigger] s.drop_last()[i]).is_success() by {
            assert(s.drop_last()[i] == s[i]);
        }
        lemma_reduced_all_success(s.drop_last());
        assert(s.last().is_success());
    }
}

/// A chain with a failing step reduces to its first failing step; the steps
/// after it play no part.
pub proof fn lemma_reduced_first_failure(s: Seq<StatusView>, k: int)
    requires
        0 <= k < s.len(),
        !s[k].is_success(),
        forall|j: int| 0 <= j < k ==> (#[trigger] s[j]).is_success(),
    ensures
        reduced(s) == s[k],
    decreases s.len(),
{
    let p = s.drop_last();
    if k == s.len() - 1 {
        assert forall|i: int| 0 <= i < p.len() implies (#[trigger] p[i]).is_success() by {
            assert(p[i] == s[i]);
        }
        lemma_reduced_all_success(p);
    } else {
        assert forall|j: int| 0 <= j < k implies (#[trigger] p[j]).is_success() by {
            assert(p[j] == s[j]);
        }
        lemma_reduced_first_failure(p, k);
    }
}

proof fn lemma_delay_total_concat(a: Seq<StatusView>, b: Seq<StatusView>)
    ensures
        delay_total(a + b) == delay_total(a) + delay_total(b),
    decreases b.len(),
{
    if b.len() == 0 {
        assert(a + b =~= a);
    } else {
        assert((a + b).drop_last() =~= a + b.drop_last());
        lemma_delay_total_concat(a, b.drop_last());
    }
}

/// For a chain whose steps all succeeded, the order of the steps does not
/// matter: running two parts in either order reduces to the same outcome.
pub proof fn lemma_reduced_success_order_free(a: Seq<StatusView>, b: Seq<StatusView>)
    requires
        all_success(a),
        all_success(b),
    ensures
        reduced(a + b) == reduced(b + a),
        reduced(a + b).delay() == delay_total(a) + delay_total(b),
{
    assert(all_success(a + b)) by {
        assert forall|i: int| 0 <= i < (a + b).len() implies (#[trigger] (a + b)[i]).is_success() by {
            if i < a.len() {
                assert((a + b)[i] == a[i]);
            } else {
                assert((a + b)[i] == b[i - a.len()]);
            }
        }
    }
    assert(all_success(b + a)) by {
        assert forall|i: int| 0 <= i < (b + a).len() implies (#[trigger] (b + a)[i]).is_success() by {
            if i < b.len() {
                assert((b + a)[i] == b[i]);
            } else {
                assert((b + a)[i] == a[i - b.len()]);
            }
        }
    }
    lemma_reduced_all_success(a + b);
    lemma_reduced_all_success(b + a);
    lemma_delay_total_concat(a, b);
    lemma_delay_total_concat(b, a);
}

/// Reducing the one-step chain made of a reduced outcome gives that outcome back.
pub proof fn lemma_reduced_idempotent(s: Seq<StatusView>)
    ensures
        reduced(seq![reduced(s)]) == reduced(s),
{
    let t = seq![reduced(s)];
    assert(t.drop_last() =~= Seq::<StatusView>::empty());
    assert(reduced(t.drop_last()) == (StatusView::Success { delay: 0, url: Seq::empty() }));
    assert(t.last() == reduced(s));
    lemma_reduced_url_empty(s);
}

proof fn lemma_reduced_url_empty(s: Seq<StatusView>)
    ensures
        reduced(s).is_success() ==> reduced(s) == (StatusView::Success {
            delay: reduced(s).delay(),
            url: Seq::empty(),
        }),
    decreases s.len(),
{
    if s.len() > 0 {
        lemma_reduced_url_empty(s.drop_last());
    }
}

pub(crate) proof fn lemma_delay_total_prefix(s: Seq<StatusView>, i: int)
    requires
        0 <= i <= s.len(),
    ensures
        delay_total(s.take(i)) <= delay_total(s),
    decreases s.len(),
{
    if i < s.len() {
        lemma_delay_total_prefix(s.drop_last(), i);
        assert(s.drop_last().take(i) =~= s.take(i));
    } else {
        assert(s.take(i) =~= s);
    }
}

/// Reduces a chain's step outcomes to one outcome. The elapsed sum of an
/// all-successful chain must fit in `u64`.
pub fn reduce_chain(steps: &Vec<RequestStatus>) -> (r: RequestStatus)
    requires
        reduced(statuses_view(steps@)).delay() <= u64::MAX,
    ensures
        r@ == reduced(statuses_view(steps@)),
{
    let ghost v = statuses_view(steps@);
    let mut k: usize = 0;
    while k < steps.len()
        invariant
            0 <= k <= steps.len(),
            v == statuses_view(steps@),
            forall|j: int| 0 <= j < k ==> (#[trigger] v[j]).is_success(),
        decreases steps.len() - k,
    {
        if !steps[k].is_success() {
            proof {
                lemma_reduced_first_failure(v, k as int);
            }
            return steps[k].duplicate();
        }
        k = k + 1;
    }
    proof {
        lemma_reduced_all_success(v);
    }
    let mut total: u64 = 0;
    let mut i: usize = 0;
    while i < steps.len()
        invariant
            0 <= i <= steps.len(),
            v == statuses_view(steps@),
            all_success(v),
            delay_total(v) <= u64::MAX,
            total as nat == delay_total(v.take(i as int)),
        decreases steps.len() - i,
    {
        assert(v.take(i + 1).drop_last() =~= v.take(i as int));
        proof {
            lemma_delay_total_prefix(v, i + 1);
        }
        match &steps[i] {
            RequestStatus::Success { delay_nanos, .. } => {
                total = total + *delay_nanos;
            },
            _ => {
                assert(v[i as int].is_success());
            },
        }
        i = i + 1;
    }
    assert(v.take(steps.len() as int) =~= v);
    RequestStatus::Success { delay_nanos: total, url: String::new() }
}

} // verus!
