use parcels::auth::{
    build_session_cookie, clear_session_cookie, extract_session_token, generate_session_token,
    hex_lower_string, is_valid_session, session_expiry_at, session_expiry_from, verify_password,
    AuthSession, SESSION_SECS,
};

#[test]
fn password_accepts_the_same_password() {
    assert!(verify_password("hunter2", "hunter2"));
    assert!(verify_password("", ""));
    assert!(verify_password("pässwörd", "pässwörd"));
}

#[test]
fn password_rejects_other_passwords() {
    assert!(!verify_password("hunter2", "hunter3"));
    assert!(!verify_password("hunter2", "hunter22"));
    assert!(!verify_password("", "x"));
    assert!(!verify_password("Hunter2", "hunter2"));
}

#[test]
fn password_compares_only_the_first_256_bytes() {
    let a = format!("{}{}", "a".repeat(256), "x");
    let b = format!("{}{}", "a".repeat(256), "y");
    assert!(verify_password(&a, &b));
    let c = format!("{}{}", "a".repeat(255), "x");
    let d = format!("{}{}", "a".repeat(255), "y");
    assert!(!verify_password(&c, &d));
    // the lengths still have to agree
    assert!(!verify_password(&a, &"a".repeat(256)));
}

#[test]
fn hex_text_of_bytes() {
    assert_eq!(hex_lower_string(&[0x00, 0x0f, 0xa5, 0xff]), "000fa5ff");
    assert_eq!(hex_lower_string(&[]), "");
}

#[test]
fn session_tokens_are_64_hex_characters() {
    let t = generate_session_token().expect("random bytes");
    assert_eq!(t.len(), 64);
    assert!(t.chars().all(|c| c.is_ascii_digit() || ('a'..='f').contains(&c)));
    let u = generate_session_token().expect("random bytes");
    assert_ne!(t, u);
}

#[test]
fn session_expiry_is_seven_days_later() {
    assert_eq!(SESSION_SECS, 7 * 24 * 3600);
    assert_eq!(session_expiry_from(0).unwrap(), "1970-01-08 00:00:00");
    assert_eq!(session_expiry_from(1_700_000_000).unwrap(), "2023-11-21 22:13:20");
    assert_eq!(session_expiry_from(u64::MAX), None);
    assert_eq!(session_expiry_from(u64::MAX - SESSION_SECS).is_some(), true);
}

#[test]
fn session_expiry_now_is_in_the_future() {
    let e = session_expiry_at().expect("clock after 1970");
    assert_eq!(e.len(), 19);
    assert!(e.as_str() > "2024-01-01 00:00:00");
}

#[test]
fn cookie_texts() {
    assert_eq!(build_session_cookie("abc", false), "session=abc; HttpOnly; SameSite=Strict; Path=/");
    assert_eq!(
        build_session_cookie("abc", true),
        "session=abc; HttpOnly; SameSite=Strict; Path=/; Secure"
    );
    assert_eq!(clear_session_cookie(), "session=; HttpOnly; SameSite=Strict; Path=/; Max-Age=0");
}

#[test]
fn session_token_from_cookie_header() {
    assert_eq!(extract_session_token(None), None);
    assert_eq!(extract_session_token(Some("session=abc")), Some("abc".to_string()));
    assert_eq!(
        extract_session_token(Some("theme=dark;  session= abc ; other=1")),
        Some("abc".to_string())
    );
    assert_eq!(extract_session_token(Some("theme=dark")), None);
    assert_eq!(extract_session_token(Some("")), None);
    // an empty value is skipped and a later one is taken
    assert_eq!(
        extract_session_token(Some("session=; session=second")),
        Some("second".to_string())
    );
    // the name must match exactly
    assert_eq!(extract_session_token(Some("xsession=abc")), None);
    assert_eq!(extract_session_token(Some("Session=abc")), None);
}

#[test]
fn login_cookie_round_trip() {
    let token = generate_session_token().unwrap();
    let cookie = build_session_cookie(&token, true);
    assert_eq!(extract_session_token(Some(&cookie)), Some(token));
    assert_eq!(extract_session_token(Some(&clear_session_cookie())), None);
}

#[test]
fn session_validity_follows_the_stored_expiry() {
    let opened = 1_700_000_000u64;
    let expiry = session_expiry_from(opened).unwrap();
    assert!(is_valid_session(Some(&expiry), opened));
    assert!(is_valid_session(Some(&expiry), opened + SESSION_SECS - 1));
    assert!(!is_valid_session(Some(&expiry), opened + SESSION_SECS));
    assert!(!is_valid_session(Some(&expiry), opened + SESSION_SECS + 86400));
    assert!(!is_valid_session(None, opened));
}

#[test]
fn authorize_admits_live_sessions_only() {
    assert!(AuthSession::authorize(Some("2999-01-01 00:00:00"), 1_700_000_000).is_some());
    assert!(AuthSession::authorize(Some("2000-01-01 00:00:00"), 1_700_000_000).is_none());
    assert!(AuthSession::authorize(None, 0).is_none());
}

#[test]
fn expiry_in_year_ten_thousand_no_longer_sorts_after_now() {
    // one hour before 10000-01-01: the expiry text has a five-digit year and
    // sorts before the current time's text
    let opened = 253_402_300_800u64 - 3600;
    let expiry = session_expiry_from(opened).unwrap();
    assert_eq!(expiry, "10000-01-07 23:00:00");
    assert!(!is_valid_session(Some(&expiry), opened));
}
