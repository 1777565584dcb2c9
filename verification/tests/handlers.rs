use parcels::db::{collect_ok_rows, database_path, optional_row, RowError};
use parcels::usps::{DeliveryDateExpectation, TrackingDetail};
use parcels::web::{
    bind_address, cookie_secure_enabled, is_unique_violation, normalize_label,
    normalize_tracking_number, package_error_path, package_path, status_update,
    urlencoding_encode, ErrorQuery,
};

#[test]
fn url_encoding() {
    assert_eq!(urlencoding_encode("Package not found."), "Package+not+found.");
    assert_eq!(urlencoding_encode("a-b_c.d~e"), "a-b_c.d~e");
    assert_eq!(urlencoding_encode("50% off & more"), "50%25+off+%26+more");
    assert_eq!(urlencoding_encode("é"), "%C3%A9");
    assert_eq!(urlencoding_encode(""), "");
}

#[test]
fn tracking_number_is_trimmed_and_upper_cased() {
    assert_eq!(normalize_tracking_number("  9400abc \n"), Some("9400ABC".to_string()));
    assert_eq!(normalize_tracking_number("   "), None);
    assert_eq!(normalize_tracking_number(""), None);
    assert_eq!(normalize_tracking_number("straße"), Some("STRASSE".to_string()));
}

#[test]
fn label_is_trimmed_and_dropped_when_empty() {
    assert_eq!(normalize_label(Some("  Birthday gift ")), Some("Birthday gift".to_string()));
    assert_eq!(normalize_label(Some("  ")), None);
    assert_eq!(normalize_label(None), None);
    assert_eq!(normalize_label(Some("\u{3000}x\u{a0}")), Some("x".to_string()));
}

#[test]
fn unique_violations() {
    assert!(is_unique_violation(
        "Database error: UNIQUE constraint failed: packages.tracking_number"
    ));
    assert!(!is_unique_violation("Database error: database is locked"));
    assert!(!is_unique_violation("unique"));
}

#[test]
fn redirect_targets() {
    assert_eq!(package_path(42), "/packages/42");
    assert_eq!(package_path(-7), "/packages/-7");
    assert_eq!(package_path(i64::MIN), "/packages/-9223372036854775808");
    assert_eq!(
        package_error_path(3, "USPS rate limit hit. Try again shortly."),
        "/packages/3?error=USPS+rate+limit+hit.+Try+again+shortly."
    );
}

#[test]
fn status_columns_after_refresh() {
    let detail = TrackingDetail {
        tracking_number: Some("9400".to_string()),
        status: None,
        status_category: Some("In Transit".to_string()),
        status_summary: Some("Moving".to_string()),
        mail_class: None,
        delivery_date_expectation: Some(DeliveryDateExpectation {
            expected_delivery_date: Some("2024-05-01".to_string()),
        }),
        tracking_events: vec![],
    };
    let u = status_update(&detail);
    assert_eq!(u.status, "");
    assert_eq!(u.status_category.as_deref(), Some("In Transit"));
    assert_eq!(u.status_summary.as_deref(), Some("Moving"));
    assert_eq!(u.mail_class, None);
    assert_eq!(u.expected_delivery.as_deref(), Some("2024-05-01"));
}

#[test]
fn configuration_values() {
    assert!(cookie_secure_enabled(Some("true")));
    assert!(cookie_secure_enabled(Some("TRUE")));
    assert!(cookie_secure_enabled(Some("True")));
    assert!(!cookie_secure_enabled(Some("yes")));
    assert!(!cookie_secure_enabled(Some("true ")));
    assert!(!cookie_secure_enabled(None));
    assert_eq!(bind_address(None), "0.0.0.0:3012");
    assert_eq!(bind_address(Some("127.0.0.1:8080")), "127.0.0.1:8080");
    assert!(ErrorQuery::default().error.is_none());
}

#[test]
fn database_locations() {
    assert_eq!(database_path(None), "parcels.db");
    assert_eq!(database_path(Some("sqlite:///app/data/parcels.db")), "app/data/parcels.db");
    assert_eq!(database_path(Some("sqlite://parcels.db")), "parcels.db");
    assert_eq!(database_path(Some("/tmp/x.db")), "/tmp/x.db");
}

#[test]
fn query_answers() {
    let found: Result<i32, RowError<String>> = Ok(5);
    assert_eq!(optional_row(found), Ok(Some(5)));
    let none: Result<i32, RowError<String>> = Err(RowError::NoRows);
    assert_eq!(optional_row(none), Ok(None));
    let failed: Result<i32, RowError<String>> = Err(RowError::Failed("boom".to_string()));
    assert_eq!(optional_row(failed), Err("boom".to_string()));
    let rows: Vec<Result<i32, String>> = vec![Ok(1), Err("bad".to_string()), Ok(3)];
    assert_eq!(collect_ok_rows(rows), vec![1, 3]);
}
