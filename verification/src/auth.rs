//! Password check, session tokens, session expiry and the session cookie.

use vstd::prelude::*;
use vstd::string::*;
use vstd::utf8::{encode_utf8, encode_utf8_decode_utf8};
use rand::RngCore;
use subtle::ConstantTimeEq;
use crate::text::{bytes_lex_less, chars_of, lemma_ascii_byte_order, is_white_space, lemma_trim_unchanged, push_char, string_of_range, trim, trim_range};
use crate::datetime::{format_unix_secs, four_digit_years_end, lemma_unix_time_text_order, unix_time_text};

verus! {

// ── Password check ──────────────────────────────────────────────────────────

/// How many bytes of each password take part in the comparison.
pub const PASSWORD_WINDOW: usize = 256;

/// Number of leading bytes compared when both passwords are `n` bytes long.
pub open spec fn compared_len(n: nat) -> nat {
    if n < 256 { n } else { 256 }
}

/// The password check on UTF-8 bytes: same length, and the same bytes in the
/// first (at most) 256 positions.
pub open spec fn password_bytes_match(input: Seq<u8>, expected: Seq<u8>) -> bool {
    &&& input.len() == expected.len()
    &&& input.take(compared_len(input.len()) as int) == expected.take(
        compared_len(input.len()) as int,
    )
}

/// `subtle::ConstantTimeEq::ct_eq` on two byte slices, turned into a `bool`
/// with subtle's `From<Choice> for bool`. Subtle returns the choice 1 exactly
/// when both slices have the same length and the same bytes, and 0 otherwise.
#[verifier::external_body]
fn ct_eq_bytes(a: &[u8], b: &[u8]) -> (eq: bool)
    ensures
        eq == (a@ == b@),
{
    a.ct_eq(b).into()
}

/// The first 256 bytes of `bytes`, zero-filled to 256 bytes when shorter.
fn password_window(bytes: &[u8]) -> (w: Vec<u8>)
    ensures
        w@.len() == 256,
        forall|i: int|
            0 <= i < 256 ==> #[trigger] w@[i] == (if i < bytes@.len() { bytes@[i] } else { 0u8 }),
{
    let mut w: Vec<u8> = Vec::new();
    let mut i: usize = 0;
    while i < PASSWORD_WINDOW
        invariant
            i <= 256,
            w@.len() == i,
            forall|j: int|
                0 <= j < i ==> #[trigger] w@[j] == (if j < bytes@.len() { bytes@[j] } else { 0u8 }),
        decreases 256 - i,
    {
        if i < bytes.len() {
            w.push(bytes[i]);
        } else {
            w.push(0u8);
        }
        i = i + 1;
    }
    w
}

/// Compares two passwords without letting the time taken depend on where they
/// differ: both are cut or zero-filled to 256 bytes and compared with `subtle`,
/// and the length check is combined without short-circuit.
pub fn verify_password(input: &str, expected: &str) -> (ok: bool)
    ensures
        ok == password_bytes_match(input.spec_bytes(), expected.spec_bytes()),
{
    let input_bytes = input.as_bytes();
    let expected_bytes = expected.as_bytes();
    let a = password_window(input_bytes);
    let b = password_window(expected_bytes);
    let lengths_match = input_bytes.len() == expected_bytes.len();
    let bytes_match = ct_eq_bytes(a.as_slice(), b.as_slice());
    proof {
        let x = input_bytes@;
        let y = expected_bytes@;
        if x.len() == y.len() {
            let k = compared_len(x.len()) as int;
            if a@ == b@ {
                assert forall|i: int| 0 <= i < k implies x.take(k)[i] == y.take(k)[i] by {
                    assert(a@[i] == b@[i]);
                }
                assert(x.take(k) =~= y.take(k));
            }
            if x.take(k) == y.take(k) {
                assert forall|i: int| 0 <= i < 256 implies a@[i] == b@[i] by {
                    if i < x.len() {
                        assert(x[i] == x.take(k)[i]);
                        assert(y[i] == y.take(k)[i]);
                    }
                }
                assert(a@ =~= b@);
            }
        }
    }
    // combined without a branch, as subtle combines `Choice`s
    let both: u8 = (lengths_match as u8) * (bytes_match as u8);
    both == 1
}

// ── Session token ───────────────────────────────────────────────────────────

/// Lower-case hexadecimal digit.
pub open spec fn hex_digit(d: int) -> char {
    if d < 10 { (48 + d) as char } else { (87 + d) as char }
}

/// Two lower-case hexadecimal digits per byte, as `format!("{:02x}", b)` writes them.
pub open spec fn hex_lower(bytes: Seq<u8>) -> Seq<char> {
    Seq::new(
        2 * bytes.len(),
        |i: int|
            if i % 2 == 0 {
                hex_digit((bytes[i / 2] / 16) as int)
            } else {
                hex_digit((bytes[i / 2] % 16) as int)
            },
    )
}

fn hex_digit_char(d: u8) -> (c: char)
    requires
        d < 16,
    ensures
        c == hex_digit(d as int),
{
    if d < 10 { (48 + d) as char } else { (87 + d) as char }
}

/// The lower-case hexadecimal text of `bytes`.
pub fn hex_lower_string(bytes: &[u8]) -> (s: String)
    ensures
        s@ == hex_lower(bytes@),
{
    let mut s = String::new();
    let mut i: usize = 0;
    while i < bytes.len()
        invariant
            i <= bytes@.len(),
            s@ == hex_lower(bytes@.take(i as int)),
        decreases bytes@.len() - i,
    {
        let b = bytes[i];
        push_char(&mut s, hex_digit_char(b / 16));
        push_char(&mut s, hex_digit_char(b % 16));
        i = i + 1;
        proof {
            assert(s@ =~= hex_lower(bytes@.take(i as int)));
        }
    }
    proof {
        assert(bytes@.take(bytes@.len() as int) =~= bytes@);
    }
    s
}

/// 32 bytes from the operating system's random source: rand's `OsRng`
/// (`rand_core::OsRng::try_fill_bytes`, which calls `getrandom`). Nothing is
/// stated of the bytes; `None` when the source reports an error.
#[verifier::external_body]
fn os_random_bytes() -> (r: Option<[u8; 32]>) {
    let mut bytes = [0u8; 32];
    match rand::rngs::OsRng.try_fill_bytes(&mut bytes) {
        Ok(()) => Some(bytes),
        Err(_) => None,
    }
}

/// A fresh session token: 32 random bytes as 64 lower-case hexadecimal
/// characters. `None` when the operating system gives no random bytes.
pub fn generate_session_token() -> (t: Option<String>)
    ensures
        t matches Some(s) ==> exists|b: Seq<u8>| b.len() == 32 && s@ == hex_lower(b),
{
    match os_random_bytes() {
        Some(bytes) => {
            let s = hex_lower_string(&bytes);
            proof {
                assert(bytes@.len() == 32);
            }
            Some(s)
        },
        None => None,
    }
}

// ── Session expiry ──────────────────────────────────────────────────────────

/// How long a session lasts: seven days.
pub const SESSION_SECS: u64 = 604800;

/// The expiry text of a session opened at Unix time `now_secs`; `None` when
/// `now_secs + 7 days` does not fit in a `u64`.
pub fn session_expiry_from(now_secs: u64) -> (r: Option<String>)
    ensures
        r is None <==> now_secs + SESSION_SECS > u64::MAX,
        r matches Some(s) ==> s@ == unix_time_text((now_secs + SESSION_SECS) as nat),
{
    if now_secs > u64::MAX - SESSION_SECS {
        None
    } else {
        Some(format_unix_secs(now_secs + SESSION_SECS))
    }
}

/// `std::time::SystemTime`.
#[verifier::external_type_specification]
#[verifier::external_body]
pub struct ExSystemTime(std::time::SystemTime);

/// `SystemTime::now`: the system clock. Nothing is stated of the reading.
#[verifier::external_body]
fn system_now() -> std::time::SystemTime {
    std::time::SystemTime::now()
}

/// `SystemTime::duration_since(UNIX_EPOCH)` in whole seconds; `None` when the
/// time lies before the epoch. Nothing is stated of the value.
#[verifier::external_body]
fn secs_since_epoch(t: std::time::SystemTime) -> Option<u64> {
    match t.duration_since(std::time::UNIX_EPOCH) {
        Ok(d) => Some(d.as_secs()),
        Err(_) => None,
    }
}

/// The current Unix time in seconds; `None` when the clock reads before 1970.
/// The reading comes from the system clock, so nothing more is stated of it.
pub fn current_unix_secs() -> Option<u64> {
    secs_since_epoch(system_now())
}

/// The expiry text of a session opened now: the time seven days from now as
/// `YYYY-MM-DD HH:MM:SS` (UTC). `None` when the clock reads before 1970 or so
/// late that seven more days overflow.
pub fn session_expiry_at() -> (r: Option<String>)
    ensures
        r matches Some(s) ==> exists|now: nat|
            now + SESSION_SECS <= u64::MAX && #[trigger] unix_time_text((now + SESSION_SECS) as nat) == s@,
{
    match current_unix_secs() {
        Some(now) => {
            let r = session_expiry_from(now);
            proof {
                if r is Some {
                    assert(unix_time_text((now + SESSION_SECS) as nat) == r->0@);
                }
            }
            r
        },
        None => None,
    }
}

// ── Session cookie ──────────────────────────────────────────────────────────

/// The `Set-Cookie` value that stores the session token `token`.
pub fn build_session_cookie(token: &str, secure: bool) -> (cookie: String)
    ensures
        cookie@ == "session="@ + token@ + "; HttpOnly; SameSite=Strict; Path=/"@ + (if secure {
            "; Secure"@
        } else {
            Seq::<char>::empty()
        }),
{
    let mut cookie = String::from_str("session=");
    cookie.append(token);
    cookie.append("; HttpOnly; SameSite=Strict; Path=/");
    if secure {
        cookie.append("; Secure");
    }
    proof {
        if !secure {
            assert(cookie@ =~= cookie@ + Seq::<char>::empty());
        }
    }
    cookie
}

/// The `Set-Cookie` value that deletes the session cookie.
pub fn clear_session_cookie() -> (cookie: String)
    ensures
        cookie@ == "session=; HttpOnly; SameSite=Strict; Path=/; Max-Age=0"@,
{
    String::from_str("session=; HttpOnly; SameSite=Strict; Path=/; Max-Age=0")
}

pub open spec fn session_prefix() -> Seq<char> {
    seq!['s', 'e', 's', 's', 'i', 'o', 'n', '=']
}

/// The session token carried by one `;`-separated part of a `Cookie` header:
/// the trimmed text after `session=`, if that is not empty.
pub open spec fn session_cookie_value(part: Seq<char>) -> Option<Seq<char>> {
    let t = trim(part);
    if t.len() >= 8 && t.take(8) == session_prefix() {
        let v = trim(t.skip(8));
        if v.len() > 0 {
            Some(v)
        } else {
            None
        }
    } else {
        None
    }
}

/// Index of the first `c` in `s`, or `s.len()` when there is none.
pub open spec fn first_index_of(s: Seq<char>, c: char) -> nat
    decreases s.len(),
{
    if s.len() == 0 {
        0
    } else if s[0] == c {
        0
    } else {
        1 + first_index_of(s.drop_first(), c)
    }
}

/// A first occurrence, characterised by its position.
proof fn lemma_first_index_of_unique(s: Seq<char>, c: char, k: nat)
    requires
        k <= s.len(),
        k < s.len() ==> s[k as int] == c,
        forall|j: int| 0 <= j < k ==> #[trigger] s[j] != c,
    ensures
        first_index_of(s, c) == k,
    decreases s.len(),
{
    if k > 0 {
        assert(s[0] != c);
        assert forall|j: int| 0 <= j < k - 1 implies #[trigger] s.drop_first()[j] != c by {
            assert(s.drop_first()[j] == s[j + 1]);
        }
        if k - 1 < s.drop_first().len() {
            assert(s.drop_first()[k - 1] == s[k as int]);
        }
        lemma_first_index_of_unique(s.drop_first(), c, (k - 1) as nat);
    }
}

/// The session token of a `Cookie` header: the value of the first
/// `;`-separated part that holds a non-empty `session=` value.
pub open spec fn session_token_in(header: Seq<char>) -> Option<Seq<char>>
    decreases header.len(),
{
    let i = first_index_of(header, ';');
    match session_cookie_value(header.take(i as int)) {
        Some(v) => Some(v),
        None => if i < header.len() {
            session_token_in(header.skip(i + 1int))
        } else {
            None
        },
    }
}

proof fn lemma_first_index_after_part(p: Seq<char>, rest: Seq<char>)
    requires
        forall|k: int| 0 <= k < p.len() ==> #[trigger] p[k] != ';',
    ensures
        first_index_of(p + seq![';'] + rest, ';') == p.len(),
        (p + seq![';'] + rest).take(p.len() as int) == p,
        (p + seq![';'] + rest).skip(p.len() + 1int) == rest,
{
    let h = p + seq![';'] + rest;
    assert forall|k: int| 0 <= k < p.len() implies #[trigger] h[k] != ';' by {
        assert(h[k] == p[k]);
    }
    assert(h[p.len() as int] == ';');
    lemma_first_index_of_unique(h, ';', p.len());
    assert(h.take(p.len() as int) =~= p);
    assert(h.skip(p.len() + 1int) =~= rest);
}

/// A header of one part (no `;`) carries the session value of that part.
pub proof fn lemma_session_token_single_part(p: Seq<char>)
    requires
        forall|k: int| 0 <= k < p.len() ==> #[trigger] p[k] != ';',
    ensures
        session_token_in(p) == session_cookie_value(p),
{
    lemma_first_index_of_unique(p, ';', p.len());
    assert(p.take(p.len() as int) =~= p);
}

/// The first part that holds a session value decides: whatever follows it is
/// not read.
pub proof fn lemma_session_token_first_part_wins(p: Seq<char>, rest: Seq<char>)
    requires
        forall|k: int| 0 <= k < p.len() ==> #[trigger] p[k] != ';',
        session_cookie_value(p) is Some,
    ensures
        session_token_in(p + seq![';'] + rest) == session_cookie_value(p),
{
    lemma_first_index_after_part(p, rest);
}

/// A part without a session value does not hide a later one: the header reads
/// as what follows that part.
pub proof fn lemma_session_token_skips_part(p: Seq<char>, rest: Seq<char>)
    requires
        forall|k: int| 0 <= k < p.len() ==> #[trigger] p[k] != ';',
        session_cookie_value(p) is None,
    ensures
        session_token_in(p + seq![';'] + rest) == session_token_in(rest),
{
    lemma_first_index_after_part(p, rest);
}

/// First index `>= from` holding `c`, or `chars.len()`.
fn find_char(chars: &Vec<char>, from: usize, c: char) -> (j: usize)
    requires
        from <= chars.len(),
    ensures
        from <= j <= chars.len(),
        j - from == first_index_of(chars@.skip(from as int), c),
{
    let mut j = from;
    while j < chars.len() && chars[j] != c
        invariant
            from <= j <= chars.len(),
            forall|k: int| from <= k < j ==> #[trigger] chars@[k] != c,
        decreases chars.len() - j,
    {
        j = j + 1;
    }
    proof {
        let rest = chars@.skip(from as int);
        assert forall|k: int| 0 <= k < j - from implies #[trigger] rest[k] != c by {
            assert(rest[k] == chars@[from + k]);
        }
        if j < chars.len() {
            assert(rest[j - from] == chars@[j as int]);
        }
        lemma_first_index_of_unique(rest, c, (j - from) as nat);
    }
    j
}

/// Whether `chars[lo..hi]` starts with `session=`.
fn has_session_prefix(chars: &Vec<char>, lo: usize, hi: usize) -> (b: bool)
    requires
        lo <= hi <= chars.len(),
    ensures
        b == (hi - lo >= 8 && chars@.subrange(lo as int, lo + 8) == session_prefix()),
{
    if hi - lo < 8 {
        return false;
    }
    let b = chars[lo] == 's' && chars[lo + 1] == 'e' && chars[lo + 2] == 's' && chars[lo + 3] == 's'
        && chars[lo + 4] == 'i' && chars[lo + 5] == 'o' && chars[lo + 6] == 'n' && chars[lo + 7]
        == '=';
    proof {
        let p = chars@.subrange(lo as int, lo + 8);
        if b {
            assert(p =~= session_prefix());
        } else {
            if p == session_prefix() {
                assert(p[0] == 's' && p[1] == 'e' && p[2] == 's' && p[3] == 's' && p[4] == 'i' && p[5]
                    == 'o' && p[6] == 'n' && p[7] == '=');
            }
        }
    }
    b
}

/// The session token in a `Cookie` header (`None` when there is no header).
pub fn extract_session_token(cookie_header: Option<&str>) -> (r: Option<String>)
    ensures
        match cookie_header {
            None => r is None,
            Some(h) => match r {
                Some(t) => session_token_in(h@) == Some(t@),
                None => session_token_in(h@) is None,
            },
        },
{
    let h = match cookie_header {
        Some(h) => h,
        None => return None,
    };
    let chars = chars_of(h);
    let n = chars.len();
    let mut start: usize = 0;
    proof {
        assert(chars@.skip(0) =~= chars@);
    }
    loop
        invariant
            cookie_header == Some(h),
            start <= n == chars@.len(),
            chars@ == h@,
            session_token_in(chars@) == session_token_in(chars@.skip(start as int)),
        decreases n - start,
    {
        let j = find_char(&chars, start, ';');
        let (lo, hi) = trim_range(&chars, start, j);
        let ghost rest = chars@.skip(start as int);
        proof {
            assert(rest.take(j - start) =~= chars@.subrange(start as int, j as int));
        }
        if has_session_prefix(&chars, lo, hi) {
            let (vlo, vhi) = trim_range(&chars, lo + 8, hi);
            proof {
                let t = chars@.subrange(lo as int, hi as int);
                assert(t.take(8) =~= chars@.subrange(lo as int, lo + 8));
                assert(t.skip(8) =~= chars@.subrange(lo + 8, hi as int));
            }
            if vlo < vhi {
                let v = string_of_range(&chars, vlo, vhi);
                return Some(v);
            }
        } else {
            proof {
                let t = chars@.subrange(lo as int, hi as int);
                if t.len() >= 8 {
                    assert(t.take(8) =~= chars@.subrange(lo as int, lo + 8));
                }
            }
        }
        if j >= n {
            return None;
        }
        proof {
            assert(rest.skip(j - start + 1) =~= chars@.skip(j + 1));
        }
        start = j + 1;
    }
}

// ── Session validity ────────────────────────────────────────────────────────

/// `a < b` for strings, as `str`'s `Ord` compares them.
pub fn str_less(a: &str, b: &str) -> (r: bool)
    ensures
        r == bytes_lex_less(a.spec_bytes(), b.spec_bytes()),
{
    let x = a.as_bytes();
    let y = b.as_bytes();
    let mut i: usize = 0;
    proof {
        assert(x@.skip(0) =~= x@);
        assert(y@.skip(0) =~= y@);
    }
    while i < x.len() && i < y.len() && x[i] == y[i]
        invariant
            i <= x@.len(),
            i <= y@.len(),
            bytes_lex_less(x@, y@) == bytes_lex_less(x@.skip(i as int), y@.skip(i as int)),
        decreases x@.len() - i,
    {
        proof {
            assert(x@.skip(i as int).drop_first() =~= x@.skip(i + 1));
            assert(y@.skip(i as int).drop_first() =~= y@.skip(i + 1));
        }
        i = i + 1;
    }
    proof {
        assert(x@.skip(i as int).len() == x@.len() - i);
        assert(y@.skip(i as int).len() == y@.len() - i);
        if i < x.len() && i < y.len() {
            assert(x@.skip(i as int)[0] == x@[i as int]);
            assert(y@.skip(i as int)[0] == y@[i as int]);
        }
    }
    if i == x.len() {
        i < y.len()
    } else if i == y.len() {
        false
    } else {
        x[i] < y[i]
    }
}

/// A stored expiry is still ahead of the Unix time `now_secs`: the stored text
/// sorts after the text of `now_secs`, as strings compare.
pub open spec fn expiry_is_ahead(expiry: Seq<char>, now_secs: nat) -> bool {
    bytes_lex_less(encode_utf8(unix_time_text(now_secs)), encode_utf8(expiry))
}

/// Whether a session whose stored expiry is `stored_expiry` (`None`: no such
/// session, or the lookup failed) is still valid at Unix time `now_secs`.
pub fn is_valid_session(stored_expiry: Option<&str>, now_secs: u64) -> (ok: bool)
    ensures
        ok == match stored_expiry {
            Some(e) => expiry_is_ahead(e@, now_secs as nat),
            None => false,
        },
{
    match stored_expiry {
        Some(e) => {
            let now = format_unix_secs(now_secs);
            str_less(now.as_str(), e)
        },
        None => false,
    }
}

/// Proof that a request belongs to a logged-in session.
pub struct AuthSession;

impl AuthSession {
    /// Admits a request whose session has the stored expiry `stored_expiry`,
    /// at Unix time `now_secs`; `None` sends it to the login page.
    pub fn authorize(stored_expiry: Option<&str>, now_secs: u64) -> (r: Option<AuthSession>)
        ensures
            r is Some <==> match stored_expiry {
                Some(e) => expiry_is_ahead(e@, now_secs as nat),
                None => false,
            },
    {
        if is_valid_session(stored_expiry, now_secs) {
            Some(AuthSession)
        } else {
            None
        }
    }
}

// ── Laws ────────────────────────────────────────────────────────────────────

/// A password always matches itself.
pub proof fn lemma_password_matches_itself(p: Seq<u8>)
    ensures
        password_bytes_match(p, p),
{
}

/// The password check does not depend on which side is the typed password.
pub proof fn lemma_password_match_symmetric(a: Seq<u8>, b: Seq<u8>)
    ensures
        password_bytes_match(a, b) == password_bytes_match(b, a),
{
}

/// For passwords of at most 256 bytes, the check accepts exactly the
/// expected password.
pub proof fn lemma_short_password_exact(input: Seq<char>, expected: Seq<char>)
    requires
        encode_utf8(input).len() <= 256,
    ensures
        password_bytes_match(encode_utf8(input), encode_utf8(expected)) <==> input == expected,
{
    let a = encode_utf8(input);
    let b = encode_utf8(expected);
    if password_bytes_match(a, b) {
        assert(a.take(a.len() as int) =~= a);
        assert(b.take(b.len() as int) =~= b);
        encode_utf8_decode_utf8(input);
        encode_utf8_decode_utf8(expected);
    }
}

/// A session token that survives the cookie: not empty, without `;`, and
/// without white space at either end.
pub open spec fn is_cookie_token(t: Seq<char>) -> bool {
    &&& t.len() > 0
    &&& forall|i: int| 0 <= i < t.len() ==> #[trigger] t[i] != ';'
    &&& !is_white_space(t[0])
    &&& !is_white_space(t.last())
}

/// The text `build_session_cookie` writes.
pub open spec fn session_cookie_text(token: Seq<char>, secure: bool) -> Seq<char> {
    "session="@ + token + "; HttpOnly; SameSite=Strict; Path=/"@ + (if secure {
        "; Secure"@
    } else {
        Seq::<char>::empty()
    })
}

/// The session value of `session=<token>` followed by `rest`, where `rest`
/// is empty or starts a new part.
proof fn lemma_session_part(token: Seq<char>, rest: Seq<char>)
    requires
        is_cookie_token(token),
        rest.len() == 0 || rest[0] == ';',
    ensures
        session_token_in("session="@ + token + rest) == Some(token),
{
    reveal_strlit("session=");
    let p = "session="@;
    assert(p =~= session_prefix());
    let h = p + token + rest;
    let k = (8 + token.len()) as nat;
    assert forall|j: int| 0 <= j < k implies #[trigger] h[j] != ';' by {
        if j >= 8 {
            assert(h[j] == token[j - 8]);
        }
    }
    if k < h.len() {
        assert(h[k as int] == rest[0]);
    }
    lemma_first_index_of_unique(h, ';', k);
    let part = h.take(k as int);
    assert(part =~= p + token);
    assert(part[0] == 's');
    assert(part.last() == token.last());
    lemma_trim_unchanged(part);
    assert(part.take(8) =~= session_prefix());
    assert(part.skip(8) =~= token);
    lemma_trim_unchanged(token);
}

/// The token a login cookie stores is the token read back from it, and from
/// the `session=<token>` a browser sends back.
pub proof fn lemma_session_cookie_round_trip(token: Seq<char>, secure: bool)
    requires
        is_cookie_token(token),
    ensures
        session_token_in(session_cookie_text(token, secure)) == Some(token),
        session_token_in("session="@ + token) == Some(token),
{
    reveal_strlit("; HttpOnly; SameSite=Strict; Path=/");
    let rest = "; HttpOnly; SameSite=Strict; Path=/"@ + (if secure {
        "; Secure"@
    } else {
        Seq::<char>::empty()
    });
    assert(rest[0] == ';');
    lemma_session_part(token, rest);
    assert(session_cookie_text(token, secure) =~= "session="@ + token + rest);
    lemma_session_part(token, Seq::<char>::empty());
    assert("session="@ + token + Seq::<char>::empty() =~= "session="@ + token);
}

/// Generated session tokens survive the cookie.
pub proof fn lemma_generated_token_fits_cookie(bytes: Seq<u8>)
    requires
        bytes.len() == 32,
    ensures
        is_cookie_token(hex_lower(bytes)),
{
    let t = hex_lower(bytes);
    assert forall|i: int| 0 <= i < t.len() implies #[trigger] t[i] != ';' && !is_white_space(t[i]) by {
        let b = bytes[i / 2];
        assert(b / 16 < 16 && b % 16 < 16);
    }
}

/// A session opened at Unix time `opened` (stored with the expiry
/// `session_expiry_from(opened)`) is valid at Unix time `now` exactly when
/// `now` falls within the seven days after `opened`, for times before year 10000.
pub proof fn lemma_session_lifetime(opened: nat, now: nat)
    requires
        opened + SESSION_SECS < four_digit_years_end(),
        now < four_digit_years_end(),
    ensures
        expiry_is_ahead(unix_time_text((opened + SESSION_SECS) as nat), now) == (now < opened
            + SESSION_SECS),
{
    let expiry = (opened + SESSION_SECS) as nat;
    lemma_unix_time_text_order(now, expiry);
    lemma_unix_time_text_order(expiry, now);
    lemma_ascii_byte_order(unix_time_text(now), unix_time_text(expiry));
}

} // verus!
