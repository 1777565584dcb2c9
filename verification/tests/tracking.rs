use parcels::usps::{
    last_tracking_detail, new_cached_token, not_found_error, token_lifetime_secs,
    token_reply_error, token_request_form, tracking_reply, transport_error, usable_cached_token,
    cached_token_now, DeliveryDateExpectation, ErrorObject, FailureResponse, TrackingDetail,
    TrackingReply, UspsError,
};

fn detail(number: &str) -> TrackingDetail {
    TrackingDetail {
        tracking_number: Some(number.to_string()),
        status: Some("Delivered".to_string()),
        status_category: None,
        status_summary: None,
        mail_class: None,
        delivery_date_expectation: Some(DeliveryDateExpectation { expected_delivery_date: None }),
        tracking_events: vec![],
    }
}

#[test]
fn token_lifetime_keeps_a_margin() {
    assert_eq!(token_lifetime_secs(3600), 3570);
    assert_eq!(token_lifetime_secs(30), 0);
    assert_eq!(token_lifetime_secs(10), 0);
}

#[test]
fn fresh_cache_entry_is_used() {
    let entry = new_cached_token("tok".to_string(), 3600);
    assert_eq!(entry.token, "tok");
    assert_eq!(entry.lifetime_secs, 3570);
    let cache = Some(entry);
    assert_eq!(cached_token_now(&cache), Some("tok".to_string()));
    assert_eq!(usable_cached_token(&cache, 0), Some("tok".to_string()));
    assert_eq!(usable_cached_token(&cache, 3_569_999_999_999), Some("tok".to_string()));
    assert_eq!(cached_token_now(&None), None);
}

#[test]
fn expired_cache_entry_is_not_used() {
    // an announced lifetime within the 30-second margin has already run out
    let cache = Some(new_cached_token("old".to_string(), 5));
    assert_eq!(cache.as_ref().unwrap().lifetime_secs, 0);
    assert_eq!(cached_token_now(&cache), None);
    assert_eq!(usable_cached_token(&cache, 0), None);
    let live = Some(new_cached_token("new".to_string(), 3600));
    assert_eq!(usable_cached_token(&live, 3_570_000_000_000), None);
    assert_eq!(usable_cached_token(&live, u128::MAX), None);
    assert_eq!(usable_cached_token(&None, 0), None);
}

#[test]
fn token_request_fields() {
    let form = token_request_form("id", "secret");
    let pairs: Vec<(&str, &str)> = form.iter().map(|(k, v)| (k.as_str(), v.as_str())).collect();
    assert_eq!(
        pairs,
        vec![
            ("grant_type", "client_credentials"),
            ("client_id", "id"),
            ("client_secret", "secret"),
            ("scope", "tracking"),
        ]
    );
}

#[test]
fn token_reply_statuses() {
    assert!(token_reply_error(200, "200 OK").is_none());
    assert!(matches!(token_reply_error(401, "401 Unauthorized"), Some(UspsError::Unauthorized)));
    assert!(matches!(token_reply_error(429, "429 Too Many Requests"), Some(UspsError::RateLimit)));
    assert!(matches!(
        token_reply_error(503, "503 Service Unavailable"),
        Some(UspsError::ServiceUnavailable)
    ));
    match token_reply_error(500, "500 Internal Server Error") {
        Some(UspsError::Other(m)) => {
            assert_eq!(m, "OAuth token request failed: 500 Internal Server Error")
        }
        _ => panic!("expected Other"),
    }
}

#[test]
fn tracking_reply_statuses() {
    assert!(matches!(tracking_reply(200, "200 OK"), TrackingReply::Details));
    assert!(matches!(tracking_reply(207, "207 Multi-Status"), TrackingReply::Failures));
    assert!(matches!(tracking_reply(400, "400 Bad Request"), TrackingReply::Failed(UspsError::BadRequest)));
    assert!(matches!(tracking_reply(401, "401 Unauthorized"), TrackingReply::Failed(UspsError::Unauthorized)));
    assert!(matches!(tracking_reply(429, "429 Too Many Requests"), TrackingReply::Failed(UspsError::RateLimit)));
    assert!(matches!(
        tracking_reply(503, "503 Service Unavailable"),
        TrackingReply::Failed(UspsError::ServiceUnavailable)
    ));
    match tracking_reply(404, "404 Not Found") {
        TrackingReply::Failed(UspsError::Other(m)) => assert_eq!(m, "USPS tracking returned: 404 Not Found"),
        _ => panic!("expected Other"),
    }
}

#[test]
fn transport_errors() {
    assert!(matches!(transport_error(true, "slow".to_string()), UspsError::Timeout));
    match transport_error(false, "connection refused".to_string()) {
        UspsError::Other(m) => assert_eq!(m, "connection refused"),
        _ => panic!("expected Other"),
    }
}

#[test]
fn the_last_detail_is_taken() {
    let r = last_tracking_detail(vec![detail("A"), detail("B")]).ok().unwrap();
    assert_eq!(r.tracking_number.as_deref(), Some("B"));
    match last_tracking_detail(vec![]) {
        Err(UspsError::Other(m)) => assert_eq!(m, "Empty tracking response"),
        _ => panic!("expected an error"),
    }
}

#[test]
fn multi_status_message() {
    let with_message = FailureResponse {
        status_code: "404".to_string(),
        error: Some(ErrorObject { message: Some("No record of that item".to_string()) }),
    };
    let without = FailureResponse { status_code: String::new(), error: None };
    match not_found_error(vec![with_message]) {
        UspsError::NotFoundOrInvalid(m) => assert_eq!(m, "No record of that item"),
        _ => panic!(),
    }
    match not_found_error(vec![without]) {
        UspsError::NotFoundOrInvalid(m) => assert_eq!(m, "Tracking number not found or invalid."),
        _ => panic!(),
    }
    match not_found_error(vec![]) {
        UspsError::NotFoundOrInvalid(m) => assert_eq!(m, "Tracking number not found or invalid."),
        _ => panic!(),
    }
}

#[test]
fn error_messages() {
    assert_eq!(UspsError::BadRequest.message(), "Invalid request sent to USPS API. Check the tracking number format.");
    assert_eq!(UspsError::Unauthorized.message(), "USPS credentials are invalid. Check USPS_CLIENT_ID and USPS_CLIENT_SECRET.");
    assert_eq!(UspsError::RateLimit.message(), "USPS rate limit hit. Try again shortly.");
    assert_eq!(UspsError::ServiceUnavailable.message(), "USPS service unavailable. Try again later.");
    assert_eq!(UspsError::Timeout.message(), "USPS request timed out.");
    assert_eq!(UspsError::Other("x".to_string()).message(), "x");
    assert_eq!(UspsError::NotFoundOrInvalid("y".to_string()).message(), "y");
}
