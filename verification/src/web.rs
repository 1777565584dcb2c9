//! What the web handlers decide: form input clean-up, redirect targets,
//! URL encoding, the status written after a refresh, and configuration values.

use vstd::prelude::*;
use vstd::string::*;
use vstd::utf8::{decode_utf8, encode_scalar, encode_utf8};
use crate::text::{chars_of, decimal, push_char, push_decimal, string_of_range, str_contains, contains_seq, trim, trim_range};
use crate::usps::TrackingDetail;

verus! {

/// The optional `error` query parameter of the pages.
pub struct ErrorQuery {
    pub error: Option<String>,
}

impl Default for ErrorQuery {
    fn default() -> (q: Self)
        ensures
            q.error is None,
    {
        ErrorQuery { error: None }
    }
}

// ── URL encoding ────────────────────────────────────────────────────────────

/// Bytes written as they are: ASCII letters and digits and `-_.~`.
pub open spec fn is_unreserved_byte(b: u8) -> bool {
    (48 <= b <= 57) || (65 <= b <= 90) || (97 <= b <= 122) || b == 45 || b == 95 || b == 46 || b
        == 126
}

/// Upper-case hexadecimal digit.
pub open spec fn hex_upper(d: int) -> char {
    if d < 10 { (48 + d) as char } else { (55 + d) as char }
}

/// One byte of a UTF-8 text, form-encoded: space as `+`, unreserved bytes as
/// themselves, any other byte as `%XX`.
pub open spec fn form_encode_byte(b: u8) -> Seq<char> {
    if b == 32 {
        seq!['+']
    } else if is_unreserved_byte(b) {
        seq![b as char]
    } else {
        seq!['%', hex_upper((b / 16) as int), hex_upper((b % 16) as int)]
    }
}

/// Form encoding (`application/x-www-form-urlencoded`) of UTF-8 bytes.
pub open spec fn form_encode(bytes: Seq<u8>) -> Seq<char>
    decreases bytes.len(),
{
    if bytes.len() == 0 {
        Seq::empty()
    } else {
        form_encode(bytes.drop_last()) + form_encode_byte(bytes.last())
    }
}

fn hex_upper_char(d: u8) -> (c: char)
    requires
        d < 16,
    ensures
        c == hex_upper(d as int),
{
    if d < 10 { (48 + d) as char } else { (55 + d) as char }
}

/// Encodes `s` for a query string: unreserved characters stay, a space
/// becomes `+`, and every byte of the UTF-8 encoding of any other character
/// becomes `%XX` with upper-case hexadecimal digits.
pub fn urlencoding_encode(s: &str) -> (r: String)
    ensures
        r@ == form_encode(s.spec_bytes()),
        r@ == form_encode_chars(s@),
{
    proof {
        lemma_form_encode_by_chars(s@);
    }
    let bytes = s.as_bytes();
    let mut r = String::new();
    let mut i: usize = 0;
    while i < bytes.len()
        invariant
            i <= bytes@.len(),
            r@ == form_encode(bytes@.take(i as int)),
        decreases bytes@.len() - i,
    {
        let b = bytes[i];
        let ghost before = r@;
        if b == 32 {
            push_char(&mut r, '+');
        } else if (48 <= b && b <= 57) || (65 <= b && b <= 90) || (97 <= b && b <= 122) || b == 45
            || b == 95 || b == 46 || b == 126 {
            push_char(&mut r, b as char);
        } else {
            push_char(&mut r, '%');
            push_char(&mut r, hex_upper_char(b / 16));
            push_char(&mut r, hex_upper_char(b % 16));
        }
        proof {
            assert(r@ =~= before + form_encode_byte(b));
            assert(bytes@.take(i + 1).drop_last() =~= bytes@.take(i as int));
        }
        i = i + 1;
    }
    proof {
        assert(bytes@.take(bytes@.len() as int) =~= bytes@);
    }
    r
}

// ── Form encoding, character by character ───────────────────────────────────

/// Characters written as they are: ASCII letters and digits and `-_.~`.
pub open spec fn is_unreserved_char(c: char) -> bool {
    let u = c as u32;
    (48 <= u <= 57) || (65 <= u <= 90) || (97 <= u <= 122) || u == 45 || u == 95 || u == 46 || u
        == 126
}

/// `%XX` for each byte.
pub open spec fn percent_all(bytes: Seq<u8>) -> Seq<char>
    decreases bytes.len(),
{
    if bytes.len() == 0 {
        Seq::empty()
    } else {
        percent_all(bytes.drop_last()) + seq![
            '%',
            hex_upper((bytes.last() / 16) as int),
            hex_upper((bytes.last() % 16) as int),
        ]
    }
}

/// One character, form-encoded: a space as `+`, an unreserved character as
/// itself, any other character as `%XX` for each byte of its UTF-8 encoding.
pub open spec fn form_encode_char(c: char) -> Seq<char> {
    if c == ' ' {
        seq!['+']
    } else if is_unreserved_char(c) {
        seq![c]
    } else {
        percent_all(encode_scalar(c as u32))
    }
}

/// Form encoding of a text, character by character.
pub open spec fn form_encode_chars(s: Seq<char>) -> Seq<char>
    decreases s.len(),
{
    if s.len() == 0 {
        Seq::empty()
    } else {
        form_encode_char(s[0]) + form_encode_chars(s.drop_first())
    }
}

proof fn lemma_form_encode_concat(a: Seq<u8>, b: Seq<u8>)
    ensures
        form_encode(a + b) == form_encode(a) + form_encode(b),
    decreases b.len(),
{
    if b.len() == 0 {
        assert(a + b =~= a);
        assert(form_encode(a) + form_encode(b) =~= form_encode(a));
    } else {
        assert((a + b).drop_last() =~= a + b.drop_last());
        lemma_form_encode_concat(a, b.drop_last());
        assert(form_encode(a + b) =~= form_encode(a) + form_encode(b));
    }
}

proof fn lemma_form_encode_high_bytes(bytes: Seq<u8>)
    requires
        forall|i: int| 0 <= i < bytes.len() ==> #[trigger] bytes[i] >= 0x80,
    ensures
        form_encode(bytes) == percent_all(bytes),
    decreases bytes.len(),
{
    if bytes.len() > 0 {
        lemma_form_encode_high_bytes(bytes.drop_last());
    }
}

proof fn lemma_high_bytes(c: char)
    requires
        (c as u32) >= 0x80,
    ensures
        forall|i: int|
            0 <= i < encode_scalar(c as u32).len() ==> #[trigger] encode_scalar(c as u32)[i] >= 0x80,
{
    let u = c as u32;
    vstd::utf8::char_is_scalar(c);
    assert(0xC0u8 | ((u >> 6) & 0x1F) as u8 >= 0x80) by (bit_vector);
    assert(0xE0u8 | ((u >> 12) & 0x0F) as u8 >= 0x80) by (bit_vector);
    assert(0xF0u8 | ((u >> 18) & 0x7) as u8 >= 0x80) by (bit_vector);
    assert(0x80u8 | (u & 0x3F) as u8 >= 0x80) by (bit_vector);
    assert(0x80u8 | ((u >> 6) & 0x3F) as u8 >= 0x80) by (bit_vector);
    assert(0x80u8 | ((u >> 12) & 0x3F) as u8 >= 0x80) by (bit_vector);
}

proof fn lemma_form_encode_char(c: char)
    ensures
        form_encode(encode_scalar(c as u32)) == form_encode_char(c),
{
    let u = c as u32;
    if u < 0x80 {
        let b = (u & 0x7F) as u8;
        assert(((u & 0x7F) as u8) as u32 == u) by (bit_vector)
            requires
                u < 0x80,
        ;
        assert(b as u32 == u);
        assert(encode_scalar(u) =~= seq![b]);
        assert(seq![b].drop_last() =~= Seq::<u8>::empty());
        assert(seq![b].last() == b);
        assert(form_encode(Seq::<u8>::empty()) =~= Seq::<char>::empty());
        assert((b as char) == c) by {
            vstd::utf8::char_u32_cast(c, u);
        }
        assert(form_encode(seq![b]) =~= form_encode_byte(b));
        assert((b == 32) == (c == ' '));
        assert(is_unreserved_byte(b) == is_unreserved_char(c));
        assert(percent_all(seq![b]) =~= seq!['%', hex_upper((b / 16) as int), hex_upper((b % 16) as int)]) by {
            assert(percent_all(Seq::<u8>::empty()) =~= Seq::<char>::empty());
        }
        assert(form_encode_byte(b) == form_encode_char(c));
    } else {
        lemma_high_bytes(c);
        lemma_form_encode_high_bytes(encode_scalar(u));
        assert(c != ' ');
        assert(!is_unreserved_char(c));
    }
}

/// Encoding the UTF-8 bytes of a text byte by byte gives the same result as
/// encoding it character by character.
pub proof fn lemma_form_encode_by_chars(s: Seq<char>)
    ensures
        form_encode(encode_utf8(s)) == form_encode_chars(s),
    decreases s.len(),
{
    if s.len() > 0 {
        lemma_form_encode_by_chars(s.drop_first());
        lemma_form_encode_char(s[0]);
        lemma_form_encode_concat(encode_scalar(s[0] as u32), encode_utf8(s.drop_first()));
    }
}

// ── Form decoding ───────────────────────────────────────────────────────────

/// Value of a hexadecimal digit of either case; zero for any other character.
pub open spec fn hex_value(c: char) -> int {
    let u = c as u32;
    if 48 <= u <= 57 {
        u - 48
    } else if 65 <= u <= 70 {
        u - 55
    } else if 97 <= u <= 102 {
        u - 87
    } else {
        0
    }
}

/// Form decoding into bytes: `+` is a space, `%XY` the byte with hexadecimal
/// value `XY`, and any other character its code taken as a byte.
pub open spec fn form_decode(s: Seq<char>) -> Seq<u8>
    decreases s.len(),
{
    if s.len() == 0 {
        Seq::empty()
    } else if s[0] == '+' {
        seq![32u8] + form_decode(s.drop_first())
    } else if s[0] == '%' && s.len() >= 3 {
        seq![(hex_value(s[1]) * 16 + hex_value(s[2])) as u8] + form_decode(
            s.subrange(3, s.len() as int),
        )
    } else {
        seq![s[0] as u8] + form_decode(s.drop_first())
    }
}

proof fn lemma_hex_round_trip(d: int)
    requires
        0 <= d < 16,
    ensures
        hex_value(hex_upper(d)) == d,
{
}

proof fn lemma_form_decode_byte(b: u8, rest: Seq<char>)
    ensures
        form_decode(form_encode_byte(b) + rest) == seq![b] + form_decode(rest),
{
    let s = form_encode_byte(b) + rest;
    if b == 32 {
        assert(s.drop_first() =~= rest);
    } else if is_unreserved_byte(b) {
        assert(s[0] == b as char);
        assert((b as char) as u8 == b);
        assert(s.drop_first() =~= rest);
    } else {
        let hi = (b / 16) as int;
        let lo = (b % 16) as int;
        lemma_hex_round_trip(hi);
        lemma_hex_round_trip(lo);
        assert(s[1] == hex_upper(hi));
        assert(s[2] == hex_upper(lo));
        assert(s.subrange(3, s.len() as int) =~= rest);
        assert((hi * 16 + lo) as u8 == b);
    }
}

/// Form decoding gives back the bytes that were form-encoded.
pub proof fn lemma_form_decode_encode(bytes: Seq<u8>)
    ensures
        form_decode(form_encode(bytes)) == bytes,
    decreases bytes.len(),
{
    if bytes.len() == 0 {
        assert(form_encode(bytes) =~= Seq::<char>::empty());
    } else {
        let first = seq![bytes[0]];
        let rest = bytes.drop_first();
        lemma_form_decode_encode(rest);
        assert(bytes =~= first + rest);
        lemma_form_encode_concat(first, rest);
        assert(first.drop_last() =~= Seq::<u8>::empty());
        assert(form_encode(Seq::<u8>::empty()) =~= Seq::<char>::empty());
        assert(first.last() == bytes[0]);
        assert(form_encode(first) =~= form_encode_byte(bytes[0]));
        lemma_form_decode_byte(bytes[0], form_encode(rest));
        assert(seq![bytes[0]] + rest =~= bytes);
    }
}

/// Decoding what `urlencoding_encode` writes for a text, and reading the bytes
/// as UTF-8, gives back the text.
pub proof fn lemma_form_encode_chars_decodes(s: Seq<char>)
    ensures
        decode_utf8(form_decode(form_encode_chars(s))) == s,
{
    lemma_form_encode_by_chars(s);
    lemma_form_decode_encode(encode_utf8(s));
    vstd::utf8::encode_utf8_decode_utf8(s);
}

/// Two texts with the same form encoding are the same text.
pub proof fn lemma_form_encode_chars_injective(s1: Seq<char>, s2: Seq<char>)
    requires
        form_encode_chars(s1) == form_encode_chars(s2),
    ensures
        s1 == s2,
{
    lemma_form_encode_chars_decodes(s1);
    lemma_form_encode_chars_decodes(s2);
}

// ── Form input ──────────────────────────────────────────────────────────────

/// What `str::to_uppercase` returns for a string: it maps each character to
/// its Unicode upper-case form, which depends on the characters alone.
pub uninterp spec fn upper_case(s: Seq<char>) -> Seq<char>;

/// `str::to_uppercase`.
#[verifier::external_body]
fn to_upper(s: &str) -> (r: String)
    ensures
        r@ == upper_case(s@),
{
    s.to_uppercase()
}

/// An upper-cased tracking number, kept only when it is not empty.
pub fn required_tracking_number(upper: String) -> (r: Option<String>)
    ensures
        r is Some <==> upper@.len() > 0,
        r matches Some(t) ==> t@ == upper@,
{
    if upper.as_str().is_empty() {
        None
    } else {
        Some(upper)
    }
}

/// The tracking number typed in the form: trimmed and upper-cased; `None`
/// when nothing is left.
pub fn normalize_tracking_number(raw: &str) -> (r: Option<String>)
    ensures
        r is Some <==> upper_case(trim(raw@)).len() > 0,
        r matches Some(t) ==> t@ == upper_case(trim(raw@)),
{
    let chars = chars_of(raw);
    let (lo, hi) = trim_range(&chars, 0, chars.len());
    proof {
        assert(chars@.subrange(0, chars@.len() as int) =~= chars@);
    }
    let trimmed = string_of_range(&chars, lo, hi);
    let upper = to_upper(trimmed.as_str());
    required_tracking_number(upper)
}

/// The optional label typed in the form: trimmed; `None` when absent or empty.
pub fn normalize_label(label: Option<&str>) -> (r: Option<String>)
    ensures
        match label {
            None => r is None,
            Some(l) => if trim(l@).len() > 0 {
                r matches Some(t) && t@ == trim(l@)
            } else {
                r is None
            },
        },
{
    match label {
        None => None,
        Some(l) => {
            let chars = chars_of(l);
            let (lo, hi) = trim_range(&chars, 0, chars.len());
            proof {
                assert(chars@.subrange(0, chars@.len() as int) =~= chars@);
            }
            if lo < hi {
                Some(string_of_range(&chars, lo, hi))
            } else {
                None
            }
        },
    }
}

/// Whether a database error message reports a `UNIQUE` constraint violation
/// (a tracking number that is already stored).
pub fn is_unique_violation(message: &str) -> (b: bool)
    ensures
        b == contains_seq(message@, "UNIQUE"@),
{
    str_contains(message, "UNIQUE")
}

// ── Redirect targets ────────────────────────────────────────────────────────

/// Decimal text of a signed integer.
pub open spec fn signed_decimal(n: int) -> Seq<char> {
    if n >= 0 {
        decimal(n as nat)
    } else {
        seq!['-'] + decimal((-n) as nat)
    }
}

fn push_signed(out: &mut String, n: i64)
    ensures
        final(out)@ == old(out)@ + signed_decimal(n as int),
{
    if n >= 0 {
        push_decimal(out, n as u64);
    } else {
        let ghost start = out@;
        push_char(out, '-');
        let magnitude: u64 = (-(n as i128)) as u64;
        push_decimal(out, magnitude);
        assert(out@ =~= start + signed_decimal(n as int));
    }
}

/// The page of package `id`.
pub fn package_path(id: i64) -> (p: String)
    ensures
        p@ == "/packages/"@ + signed_decimal(id as int),
{
    let mut p = String::from_str("/packages/");
    push_signed(&mut p, id);
    p
}

/// The page of package `id`, showing the error `message`.
pub fn package_error_path(id: i64, message: &str) -> (p: String)
    ensures
        p@ == "/packages/"@ + signed_decimal(id as int) + "?error="@ + form_encode(
            message.spec_bytes(),
        ),
{
    let mut p = package_path(id);
    p.append("?error=");
    let encoded = urlencoding_encode(message);
    p.append(encoded.as_str());
    p
}

// ── Refresh ─────────────────────────────────────────────────────────────────

pub open spec fn opt_view(o: Option<String>) -> Option<Seq<char>> {
    match o {
        Some(s) => Some(s@),
        None => None,
    }
}

fn clone_opt(o: &Option<String>) -> (r: Option<String>)
    ensures
        opt_view(r) == opt_view(*o),
{
    match o {
        Some(s) => Some(s.clone()),
        None => None,
    }
}

/// The status columns written for a package after a refresh.
pub struct StatusUpdate {
    pub status: String,
    pub status_category: Option<String>,
    pub status_summary: Option<String>,
    pub mail_class: Option<String>,
    pub expected_delivery: Option<String>,
}

/// The status columns for a tracking detail: a missing status is stored as
/// the empty string, the expected delivery date comes from the delivery
/// expectation when there is one.
pub fn status_update(detail: &TrackingDetail) -> (u: StatusUpdate)
    ensures
        u.status@ == match detail.status {
            Some(s) => s@,
            None => Seq::<char>::empty(),
        },
        opt_view(u.status_category) == opt_view(detail.status_category),
        opt_view(u.status_summary) == opt_view(detail.status_summary),
        opt_view(u.mail_class) == opt_view(detail.mail_class),
        opt_view(u.expected_delivery) == match detail.delivery_date_expectation {
            Some(d) => opt_view(d.expected_delivery_date),
            None => None,
        },
{
    let status = match &detail.status {
        Some(s) => s.clone(),
        None => String::new(),
    };
    let expected_delivery = match &detail.delivery_date_expectation {
        Some(d) => clone_opt(&d.expected_delivery_date),
        None => None,
    };
    StatusUpdate {
        status,
        status_category: clone_opt(&detail.status_category),
        status_summary: clone_opt(&detail.status_summary),
        mail_class: clone_opt(&detail.mail_class),
        expected_delivery,
    }
}

// ── Configuration ───────────────────────────────────────────────────────────

/// ASCII lower case of a character; other characters stay.
pub open spec fn ascii_lower(c: char) -> char {
    if 65 <= c as u32 <= 90 { ((c as u32) + 32) as char } else { c }
}

/// Equal up to ASCII case.
pub open spec fn eq_ignore_ascii_case(a: Seq<char>, b: Seq<char>) -> bool {
    a.len() == b.len() && forall|i: int| 0 <= i < a.len() ==> ascii_lower(#[trigger] a[i]) == ascii_lower(b[i])
}

fn ascii_lower_char(c: char) -> (r: char)
    ensures
        r == ascii_lower(c),
{
    let u = c as u32;
    if 65 <= u && u <= 90 {
        ((u + 32) as u8) as char
    } else {
        c
    }
}

/// Whether the configured `COOKIE_SECURE` value turns on HTTPS-only cookies:
/// `true` in any ASCII case.
pub fn cookie_secure_enabled(value: Option<&str>) -> (b: bool)
    ensures
        b == match value {
            Some(v) => eq_ignore_ascii_case(v@, "true"@),
            None => false,
        },
{
    match value {
        None => false,
        Some(v) => {
            let a = chars_of(v);
            let t = chars_of("true");
            if a.len() != t.len() {
                return false;
            }
            let mut i: usize = 0;
            while i < a.len()
                invariant
                    value == Some(v),
                    a@ == v@,
                    t@ == "true"@,
                    a@.len() == t@.len(),
                    i <= a@.len(),
                    forall|j: int| 0 <= j < i ==> ascii_lower(#[trigger] a@[j]) == ascii_lower(t@[j]),
                decreases a@.len() - i,
            {
                if ascii_lower_char(a[i]) != ascii_lower_char(t[i]) {
                    return false;
                }
                i = i + 1;
            }
            true
        },
    }
}

/// The address to listen on: the configured `BIND_ADDR`, else `0.0.0.0:3012`.
pub fn bind_address(value: Option<&str>) -> (a: String)
    ensures
        a@ == match value {
            Some(v) => v@,
            None => "0.0.0.0:3012"@,
        },
{
    match value {
        Some(v) => String::from_str(v),
        None => String::from_str("0.0.0.0:3012"),
    }
}


} // verus!
