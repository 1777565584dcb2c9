use parcels::auth::str_less;
use parcels::datetime::format_unix_to_datetime;
use parcels::web::{cookie_secure_enabled, normalize_label, urlencoding_encode};

/// Character-by-character form encoding, as a cross-check of the byte-wise encoder.
fn char_level_encode(s: &str) -> String {
    s.chars()
        .flat_map(|c| match c {
            ' ' => vec!['+'],
            c if c.is_ascii_alphanumeric() || c == '-' || c == '_' || c == '.' || c == '~' => vec![c],
            c => {
                let mut buf = [0u8; 4];
                let bytes = c.encode_utf8(&mut buf);
                bytes
                    .bytes()
                    .flat_map(|b| {
                        vec![
                            '%',
                            char::from_digit((b >> 4) as u32, 16).unwrap().to_ascii_uppercase(),
                            char::from_digit((b & 0xf) as u32, 16).unwrap().to_ascii_uppercase(),
                        ]
                    })
                    .collect()
            }
        })
        .collect()
}

/// Days-to-date conversion written with plain calendar arithmetic, one year at a time.
fn slow_date(days: i64) -> (i64, u32, u32) {
    fn leap(y: i64) -> bool {
        (y % 4 == 0 && y % 100 != 0) || y % 400 == 0
    }
    let mut y = 1970i64;
    let mut n = days;
    while n < 0 {
        y -= 1;
        n += if leap(y) { 366 } else { 365 };
    }
    loop {
        let len = if leap(y) { 366 } else { 365 };
        if n < len {
            break;
        }
        n -= len;
        y += 1;
    }
    let months = [31, if leap(y) { 29 } else { 28 }, 31, 30, 31, 30, 31, 31, 30, 31, 30, 31];
    let mut m = 0usize;
    while n >= months[m] {
        n -= months[m];
        m += 1;
    }
    (y, m as u32 + 1, n as u32 + 1)
}

#[test]
fn encoder_agrees_with_char_level_encoding() {
    let samples = [
        "", " ", "abc XYZ 019", "-_.~", "100% sure?", "a+b=c&d", "naïve café", "日本語", "emoji 😀!",
        "tab\tnewline\n", "/packages/1?error=x",
    ];
    for s in samples {
        assert_eq!(urlencoding_encode(s), char_level_encode(s), "{:?}", s);
    }
}

#[test]
fn trim_agrees_with_str_trim_on_every_character() {
    for u in 0u32..=0x10ffff {
        if let Some(c) = char::from_u32(u) {
            let s = c.to_string();
            let expected = if s.trim().is_empty() { None } else { Some(s.trim().to_string()) };
            assert_eq!(normalize_label(Some(&s)), expected, "U+{:04X}", u);
        }
    }
}

#[test]
fn secure_flag_agrees_with_eq_ignore_ascii_case() {
    let samples = ["true", "TRUE", "tRuE", "true ", " true", "tru", "truee", "false", "", "ｔｒｕｅ", "TRUE\u{0}"];
    for s in samples {
        assert_eq!(cookie_secure_enabled(Some(s)), s.eq_ignore_ascii_case("true"), "{:?}", s);
    }
}

#[test]
fn string_order_agrees_with_str_order() {
    let samples = ["", "a", "b", "ab", "aa", "é", "z", "2024-01-01 00:00:00", "2024-01-01 00:00:01", "10000-01-01 00:00:00", "日"];
    for a in samples {
        for b in samples {
            assert_eq!(str_less(a, b), a < b, "{:?} < {:?}", a, b);
        }
    }
}

#[test]
fn dates_agree_with_year_by_year_counting() {
    let mut days: i64 = -800_000;
    while days < 3_000_000 {
        let (y, m, d) = slow_date(days);
        let text = format_unix_to_datetime(days as u64, 0, 0, 0);
        let year = if y >= 0 { format!("{:04}", y) } else { format!("-{:03}", -y) };
        assert_eq!(text, format!("{}-{:02}-{:02} 00:00:00", year, m, d), "day {}", days);
        days += 997;
    }
}

fn form_decode(s: &str) -> Vec<u8> {
    let chars: Vec<char> = s.chars().collect();
    let hex = |c: char| c.to_digit(16).unwrap_or(0) as u8;
    let mut out = Vec::new();
    let mut i = 0;
    while i < chars.len() {
        if chars[i] == '+' {
            out.push(b' ');
            i += 1;
        } else if chars[i] == '%' && i + 3 <= chars.len() {
            out.push(hex(chars[i + 1]) * 16 + hex(chars[i + 2]));
            i += 3;
        } else {
            out.push(chars[i] as u32 as u8);
            i += 1;
        }
    }
    out
}

#[test]
fn decoding_the_encoding_gives_the_text_back() {
    let samples = [
        "", " ", "Package not found.", "50% off & more", "a+b=c&d", "naïve café", "日本語",
        "emoji 😀!", "%41", "+", "tab\tnewline\n",
    ];
    for s in samples {
        let encoded = urlencoding_encode(s);
        assert_eq!(String::from_utf8(form_decode(&encoded)).unwrap(), s, "{:?}", s);
    }
    assert_eq!(form_decode("a+b%2Fc%C3%A9"), "a b/cé".as_bytes());
}
