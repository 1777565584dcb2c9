//! The USPS tracking API as the service sees it: the records it reads, the
//! OAuth token it caches, and how each answer turns into a result or an error.

use vstd::prelude::*;
use vstd::string::*;

verus! {

// ── Token cache ─────────────────────────────────────────────────────────────

/// `std::time::Instant`.
#[verifier::external_type_specification]
#[verifier::external_body]
pub struct ExInstant(std::time::Instant);

/// An OAuth access token, the instant it was fetched, and for how many seconds
/// from then it is used.
pub struct CachedToken {
    pub token: String,
    pub fetched_at: std::time::Instant,
    pub lifetime_secs: u64,
}

/// `Instant::now`: a reading of the monotonic clock. Nothing is stated of it.
#[verifier::external_body]
fn instant_now() -> std::time::Instant {
    std::time::Instant::now()
}

/// `Instant::elapsed` of `t`, in whole nanoseconds (`Duration::as_nanos`):
/// how long ago `t` was on the monotonic clock (zero if the clock reads
/// earlier). It is a clock reading, so nothing is stated of it.
#[verifier::external_body]
fn nanos_since(t: &std::time::Instant) -> u128 {
    t.elapsed().as_nanos()
}

/// How long a token is used: its announced lifetime less a 30-second margin.
pub fn token_lifetime_secs(expires_in: u64) -> (secs: u64)
    ensures
        secs == (if expires_in >= 30 { expires_in - 30 } else { 0 }),
{
    if expires_in >= 30 {
        expires_in - 30
    } else {
        0
    }
}

/// A cache entry for `access_token`, announced to live `expires_in` seconds,
/// fetched now and used for `token_lifetime_secs(expires_in)` seconds.
pub fn new_cached_token(access_token: String, expires_in: u64) -> (c: CachedToken)
    ensures
        c.token@ == access_token@,
        c.lifetime_secs == (if expires_in >= 30 { expires_in - 30 } else { 0 }),
{
    let lifetime_secs = token_lifetime_secs(expires_in);
    CachedToken { token: access_token, fetched_at: instant_now(), lifetime_secs }
}

/// Whether a token used for `lifetime_secs` seconds is still used
/// `elapsed_nanos` nanoseconds after it was fetched.
pub open spec fn token_unexpired(lifetime_secs: u64, elapsed_nanos: u128) -> bool {
    elapsed_nanos < lifetime_secs * 1_000_000_000
}

/// Once a cached token has expired it stays expired: a later reading of the
/// clock never makes it usable again.
pub proof fn lemma_token_expiry_is_final(lifetime_secs: u64, earlier: u128, later: u128)
    requires
        earlier <= later,
        !token_unexpired(lifetime_secs, earlier),
    ensures
        !token_unexpired(lifetime_secs, later),
{
}

/// The cached token when there is one and, `elapsed_nanos` nanoseconds after
/// it was fetched, it has not yet expired.
pub fn usable_cached_token(cache: &Option<CachedToken>, elapsed_nanos: u128) -> (r: Option<String>)
    ensures
        match cache {
            Some(c) => if token_unexpired(c.lifetime_secs, elapsed_nanos) {
                r matches Some(t) && t@ == c.token@
            } else {
                r is None
            },
            None => r is None,
        },
{
    match cache {
        Some(c) => {
            let lifetime_nanos: u128 = (c.lifetime_secs as u128) * 1_000_000_000;
            if elapsed_nanos < lifetime_nanos {
                Some(c.token.clone())
            } else {
                None
            }
        },
        None => None,
    }
}

/// The cached token if it has not expired by now. How long ago it was fetched
/// is read from the monotonic clock, which Verus does not see; the answer is
/// `usable_cached_token` of that reading, so a token comes back only while
/// that reading is below its lifetime, and never when that lifetime is zero.
pub fn cached_token_now(cache: &Option<CachedToken>) -> (r: Option<String>)
    ensures
        cache is None ==> r is None,
        r matches Some(t) ==> cache matches Some(c) && t@ == c.token@ && c.lifetime_secs > 0,
{
    match cache {
        Some(c) => {
            let elapsed = nanos_since(&c.fetched_at);
            let r = usable_cached_token(cache, elapsed);
            proof {
                if r is Some {
                    assert(token_unexpired(c.lifetime_secs, elapsed));
                }
            }
            r
        },
        None => None,
    }
}

/// The form fields of the OAuth client-credentials token request.
pub fn token_request_form(client_id: &str, client_secret: &str) -> (form: Vec<(String, String)>)
    ensures
        form@.len() == 4,
        form@[0].0@ == "grant_type"@ && form@[0].1@ == "client_credentials"@,
        form@[1].0@ == "client_id"@ && form@[1].1@ == client_id@,
        form@[2].0@ == "client_secret"@ && form@[2].1@ == client_secret@,
        form@[3].0@ == "scope"@ && form@[3].1@ == "tracking"@,
{
    let mut form: Vec<(String, String)> = Vec::new();
    form.push((String::from_str("grant_type"), String::from_str("client_credentials")));
    form.push((String::from_str("client_id"), String::from_str(client_id)));
    form.push((String::from_str("client_secret"), String::from_str(client_secret)));
    form.push((String::from_str("scope"), String::from_str("tracking")));
    form
}

// ── Tracking records ────────────────────────────────────────────────────────

/// One package as the tracking API describes it.
#[derive(Debug)]
pub struct TrackingDetail {
    pub tracking_number: Option<String>,
    pub status: Option<String>,
    pub status_category: Option<String>,
    pub status_summary: Option<String>,
    pub mail_class: Option<String>,
    pub delivery_date_expectation: Option<DeliveryDateExpectation>,
    pub tracking_events: Vec<TrackingEvent>,
}

#[derive(Debug)]
pub struct DeliveryDateExpectation {
    pub expected_delivery_date: Option<String>,
}

/// One scan of a package.
#[derive(Debug)]
pub struct TrackingEvent {
    pub event_timestamp: Option<String>,
    pub event_type: Option<String>,
    pub event_city: Option<String>,
    pub event_state: Option<String>,
    pub event_zip_code: Option<String>,
    pub event_code: Option<String>,
}

/// One entry of a multi-status (207) answer.
#[derive(Debug)]
pub struct FailureResponse {
    pub status_code: String,
    pub error: Option<ErrorObject>,
}

#[derive(Debug)]
pub struct ErrorObject {
    pub message: Option<String>,
}

// ── Errors ──────────────────────────────────────────────────────────────────

#[derive(Debug)]
pub enum UspsError {
    NotFoundOrInvalid(String),
    BadRequest,
    Unauthorized,
    RateLimit,
    ServiceUnavailable,
    Timeout,
    Other(String),
}

/// The message shown to the user for each error.
pub open spec fn usps_error_text(e: UspsError) -> Seq<char> {
    match e {
        UspsError::NotFoundOrInvalid(m) => m@,
        UspsError::BadRequest => "Invalid request sent to USPS API. Check the tracking number format."@,
        UspsError::Unauthorized => "USPS credentials are invalid. Check USPS_CLIENT_ID and USPS_CLIENT_SECRET."@,
        UspsError::RateLimit => "USPS rate limit hit. Try again shortly."@,
        UspsError::ServiceUnavailable => "USPS service unavailable. Try again later."@,
        UspsError::Timeout => "USPS request timed out."@,
        UspsError::Other(m) => m@,
    }
}

impl UspsError {
    /// The message shown to the user.
    pub fn message(&self) -> (m: String)
        ensures
            m@ == usps_error_text(*self),
    {
        match self {
            UspsError::NotFoundOrInvalid(m) => m.clone(),
            UspsError::BadRequest => String::from_str(
                "Invalid request sent to USPS API. Check the tracking number format.",
            ),
            UspsError::Unauthorized => String::from_str(
                "USPS credentials are invalid. Check USPS_CLIENT_ID and USPS_CLIENT_SECRET.",
            ),
            UspsError::RateLimit => String::from_str("USPS rate limit hit. Try again shortly."),
            UspsError::ServiceUnavailable => String::from_str(
                "USPS service unavailable. Try again later.",
            ),
            UspsError::Timeout => String::from_str("USPS request timed out."),
            UspsError::Other(m) => m.clone(),
        }
    }
}

/// The error for a request that did not get an answer: `Timeout` when it timed
/// out, otherwise the transport's own description.
pub fn transport_error(is_timeout: bool, description: String) -> (e: UspsError)
    ensures
        is_timeout ==> e == UspsError::Timeout,
        !is_timeout ==> (e matches UspsError::Other(m) && m@ == description@),
{
    if is_timeout {
        UspsError::Timeout
    } else {
        UspsError::Other(description)
    }
}

// ── Answers ─────────────────────────────────────────────────────────────────

/// The error for an answer to the token request with HTTP status `status`
/// (`status_text` is the status as displayed, e.g. `404 Not Found`);
/// `None` for 200, whose body holds the token.
pub fn token_reply_error(status: u16, status_text: &str) -> (r: Option<UspsError>)
    ensures
        status == 200 <==> r is None,
        status == 401 ==> r == Some(UspsError::Unauthorized),
        status == 429 ==> r == Some(UspsError::RateLimit),
        status == 503 ==> r == Some(UspsError::ServiceUnavailable),
        status != 200 && status != 401 && status != 429 && status != 503 ==> (r matches Some(
            UspsError::Other(m),
        ) && m@ == "OAuth token request failed: "@ + status_text@),
{
    if status == 200 {
        None
    } else if status == 401 {
        Some(UspsError::Unauthorized)
    } else if status == 429 {
        Some(UspsError::RateLimit)
    } else if status == 503 {
        Some(UspsError::ServiceUnavailable)
    } else {
        let mut m = String::from_str("OAuth token request failed: ");
        m.append(status_text);
        Some(UspsError::Other(m))
    }
}

/// What to do with an answer to a tracking request.
pub enum TrackingReply {
    /// 200: the body is a list of tracking details.
    Details,
    /// 207: the body is a list of failures.
    Failures,
    /// Any other status.
    Failed(UspsError),
}

/// What an answer to a tracking request with HTTP status `status` calls for
/// (`status_text` is the status as displayed).
pub fn tracking_reply(status: u16, status_text: &str) -> (r: TrackingReply)
    ensures
        status == 200 <==> r is Details,
        status == 207 <==> r is Failures,
        status == 400 ==> r == TrackingReply::Failed(UspsError::BadRequest),
        status == 401 ==> r == TrackingReply::Failed(UspsError::Unauthorized),
        status == 429 ==> r == TrackingReply::Failed(UspsError::RateLimit),
        status == 503 ==> r == TrackingReply::Failed(UspsError::ServiceUnavailable),
        status != 200 && status != 207 && status != 400 && status != 401 && status != 429 && status
            != 503 ==> (r matches TrackingReply::Failed(UspsError::Other(m)) && m@
            == "USPS tracking returned: "@ + status_text@),
{
    if status == 200 {
        TrackingReply::Details
    } else if status == 207 {
        TrackingReply::Failures
    } else if status == 400 {
        TrackingReply::Failed(UspsError::BadRequest)
    } else if status == 401 {
        TrackingReply::Failed(UspsError::Unauthorized)
    } else if status == 429 {
        TrackingReply::Failed(UspsError::RateLimit)
    } else if status == 503 {
        TrackingReply::Failed(UspsError::ServiceUnavailable)
    } else {
        let mut m = String::from_str("USPS tracking returned: ");
        m.append(status_text);
        TrackingReply::Failed(UspsError::Other(m))
    }
}

/// The detail a 200 answer stands for: the last one of the list.
pub fn last_tracking_detail(details: Vec<TrackingDetail>) -> (r: Result<TrackingDetail, UspsError>)
    ensures
        details@.len() > 0 ==> r == Ok::<TrackingDetail, UspsError>(details@.last()),
        details@.len() == 0 ==> (r matches Err(UspsError::Other(m)) && m@
            == "Empty tracking response"@),
{
    let mut details = details;
    match details.pop() {
        Some(d) => Ok(d),
        None => Err(UspsError::Other(String::from_str("Empty tracking response"))),
    }
}

/// The message of a 207 answer: that of the first failure, when it has one.
pub open spec fn failure_message(failures: Seq<FailureResponse>) -> Seq<char> {
    if failures.len() > 0 && failures[0].error is Some && failures[0].error->0.message is Some {
        failures[0].error->0.message->0@
    } else {
        "Tracking number not found or invalid."@
    }
}

/// The error a 207 answer stands for.
pub fn not_found_error(failures: Vec<FailureResponse>) -> (e: UspsError)
    ensures
        e matches UspsError::NotFoundOrInvalid(m) && m@ == failure_message(failures@),
{
    if failures.len() > 0 {
        match &failures[0].error {
            Some(eo) => match &eo.message {
                Some(m) => {
                    return UspsError::NotFoundOrInvalid(m.clone());
                },
                None => {},
            },
            None => {},
        }
    }
    UspsError::NotFoundOrInvalid(String::from_str("Tracking number not found or invalid."))
}

} // verus!
