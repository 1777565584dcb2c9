//! Character-level helpers: decimal and hexadecimal digits, zero padding,
//! Unicode white space, and building `String`s one character at a time.

use vstd::prelude::*;
use vstd::utf8::{encode_utf8, is_ascii_chars, is_ascii_chars_encode_utf8};

verus! {

/// The ASCII character of a decimal digit.
pub open spec fn digit_char(d: int) -> char {
    (d + 48) as char
}

/// Decimal representation of a natural number, without sign or padding.
pub open spec fn decimal(n: nat) -> Seq<char>
    decreases n,
{
    if n < 10 {
        seq![digit_char(n as int)]
    } else {
        decimal(n / 10).push(digit_char((n % 10) as int))
    }
}

/// `s` preceded by as many `'0'` as it takes to reach `width` characters.
pub open spec fn zero_pad(s: Seq<char>, width: nat) -> Seq<char> {
    if s.len() >= width {
        s
    } else {
        Seq::new((width - s.len()) as nat, |i: int| '0') + s
    }
}

/// Decimal representation of `n` zero-padded to at least `width` characters
/// (what `format!("{:0w$}", n)` writes for an unsigned `n`).
pub open spec fn padded_decimal(n: nat, width: nat) -> Seq<char> {
    zero_pad(decimal(n), width)
}

/// `String::push`: appends one character.
#[verifier::external_body]
pub(crate) fn push_char(s: &mut String, c: char)
    ensures
        final(s)@ == old(s)@.push(c),
{
    s.push(c);
}

/// Number of decimal digits of `n`.
pub fn decimal_len(n: u64) -> (len: usize)
    ensures
        len == decimal(n as nat).len(),
        1 <= len <= 20,
    decreases n,
{
    if n < 10 {
        1
    } else {
        let l = decimal_len(n / 10);
        proof {
            reveal_with_fuel(pow10, 20);
            assert(pow10(19) == 10_000_000_000_000_000_000nat);
            lemma_decimal_len_bound((n / 10) as nat, 19);
        }
        l + 1
    }
}

/// A number below `10^k` has at most `k` digits.
proof fn lemma_decimal_len_bound(n: nat, k: nat)
    requires
        k >= 1,
        n < pow10(k),
    ensures
        decimal(n).len() <= k,
    decreases k,
{
    if n >= 10 {
        assert(k >= 2) by {
            if k == 1 {
                assert(pow10(1) == 10 * pow10(0));
            }
        }
        assert(pow10(k) == 10 * pow10((k - 1) as nat));
        assert(n / 10 < pow10((k - 1) as nat));
        lemma_decimal_len_bound(n / 10, (k - 1) as nat);
    }
}

pub open spec fn pow10(k: nat) -> nat
    decreases k,
{
    if k == 0 {
        1
    } else {
        10 * pow10((k - 1) as nat)
    }
}

/// Appends the decimal digits of `n`.
pub fn push_decimal(out: &mut String, n: u64)
    ensures
        final(out)@ == old(out)@ + decimal(n as nat),
    decreases n,
{
    if n >= 10 {
        push_decimal(out, n / 10);
    }
    let d = (n % 10) as u8;
    let c = (d + 48) as char;
    push_char(out, c);
    proof {
        assert(c == digit_char((n % 10) as int));
        assert(out@ =~= old(out)@ + decimal(n as nat));
    }
}

/// Appends the decimal digits of `n`, zero-padded to `width` characters.
pub fn push_padded(out: &mut String, n: u64, width: usize)
    ensures
        final(out)@ == old(out)@ + padded_decimal(n as nat, width as nat),
{
    let len = decimal_len(n);
    let ghost start = out@;
    if len < width {
        let mut i: usize = len;
        while i < width
            invariant
                len <= i <= width,
                out@ == start + Seq::new((i - len) as nat, |j: int| '0'),
            decreases width - i,
        {
            push_char(out, '0');
            i = i + 1;
            proof {
                assert(out@ =~= start + Seq::new((i - len) as nat, |j: int| '0'));
            }
        }
    }
    push_decimal(out, n);
    proof {
        assert(out@ =~= start + padded_decimal(n as nat, width as nat));
    }
}

/// The characters of `s`, in order.
pub fn chars_of(s: &str) -> (v: Vec<char>)
    ensures
        v@ == s@,
{
    let mut v: Vec<char> = Vec::new();
    for c in it: s.chars()
        invariant
            v@ == it.seq().take(it.index() as int),
            it.seq() == s@,
    {
        v.push(c);
    }
    v
}

/// The `String` made of `chars[lo..hi]`.
pub fn string_of_range(chars: &Vec<char>, lo: usize, hi: usize) -> (r: String)
    requires
        lo <= hi <= chars.len(),
    ensures
        r@ == chars@.subrange(lo as int, hi as int),
{
    let mut r = String::new();
    let mut i = lo;
    while i < hi
        invariant
            lo <= i <= hi <= chars.len(),
            r@ == chars@.subrange(lo as int, i as int),
        decreases hi - i,
    {
        push_char(&mut r, chars[i]);
        i = i + 1;
        proof {
            assert(r@ =~= chars@.subrange(lo as int, i as int));
        }
    }
    r
}

/// Unicode `White_Space`, the property `char::is_whitespace` tests and `str::trim` strips.
pub open spec fn is_white_space(c: char) -> bool {
    let u = c as u32;
    (0x09 <= u <= 0x0d) || u == 0x20 || u == 0x85 || u == 0xa0 || u == 0x1680 || (0x2000 <= u
        <= 0x200a) || u == 0x2028 || u == 0x2029 || u == 0x202f || u == 0x205f || u == 0x3000
}

pub fn is_white_space_char(c: char) -> (b: bool)
    ensures
        b == is_white_space(c),
{
    let u = c as u32;
    (0x09 <= u && u <= 0x0d) || u == 0x20 || u == 0x85 || u == 0xa0 || u == 0x1680 || (0x2000 <= u
        && u <= 0x200a) || u == 0x2028 || u == 0x2029 || u == 0x202f || u == 0x205f || u == 0x3000
}

/// Number of white-space characters at the start of `s`.
pub open spec fn leading_ws(s: Seq<char>) -> nat
    decreases s.len(),
{
    if s.len() > 0 && is_white_space(s[0]) {
        1 + leading_ws(s.drop_first())
    } else {
        0
    }
}

/// Number of white-space characters at the end of `s`.
pub open spec fn trailing_ws(s: Seq<char>) -> nat
    decreases s.len(),
{
    if s.len() > 0 && is_white_space(s.last()) {
        1 + trailing_ws(s.drop_last())
    } else {
        0
    }
}

/// `s` without its leading white space.
pub open spec fn trim_start(s: Seq<char>) -> Seq<char> {
    s.skip(leading_ws(s) as int)
}

/// `s` without its trailing white space.
pub open spec fn trim_end(s: Seq<char>) -> Seq<char> {
    s.take(s.len() - trailing_ws(s))
}

/// `s` without leading and trailing white space: what `str::trim` returns.
pub open spec fn trim(s: Seq<char>) -> Seq<char> {
    trim_end(trim_start(s))
}

/// A count of leading white space, characterised by its position.
proof fn lemma_leading_ws_unique(s: Seq<char>, k: nat)
    requires
        k <= s.len(),
        forall|i: int| 0 <= i < k ==> is_white_space(#[trigger] s[i]),
        k < s.len() ==> !is_white_space(s[k as int]),
    ensures
        leading_ws(s) == k,
    decreases s.len(),
{
    if k > 0 {
        assert(is_white_space(s[0]));
        assert forall|i: int| 0 <= i < k - 1 implies is_white_space(#[trigger] s.drop_first()[i]) by {
            assert(s.drop_first()[i] == s[i + 1]);
        }
        if k - 1 < s.drop_first().len() {
            assert(s.drop_first()[k - 1] == s[k as int]);
        }
        lemma_leading_ws_unique(s.drop_first(), (k - 1) as nat);
    } else if s.len() > 0 {
        assert(!is_white_space(s[0]));
    }
}

/// A count of trailing white space, characterised by its position.
proof fn lemma_trailing_ws_unique(s: Seq<char>, k: nat)
    requires
        k <= s.len(),
        forall|i: int| s.len() - k <= i < s.len() ==> is_white_space(#[trigger] s[i]),
        k < s.len() ==> !is_white_space(s[s.len() - k - 1]),
    ensures
        trailing_ws(s) == k,
    decreases s.len(),
{
    if k > 0 {
        assert(is_white_space(s.last()));
        assert forall|i: int| s.drop_last().len() - (k - 1) <= i < s.drop_last().len() implies is_white_space(
            #[trigger] s.drop_last()[i],
        ) by {
            assert(s.drop_last()[i] == s[i]);
        }
        if k - 1 < s.drop_last().len() {
            assert(s.drop_last()[s.drop_last().len() - (k - 1) - 1] == s[s.len() - k - 1]);
        }
        lemma_trailing_ws_unique(s.drop_last(), (k - 1) as nat);
    } else if s.len() > 0 {
        assert(!is_white_space(s.last()));
    }
}

/// The bounds `[lo, hi)` of `trim(chars[from..to])` within `chars`.
pub fn trim_range(chars: &Vec<char>, from: usize, to: usize) -> (r: (usize, usize))
    requires
        from <= to <= chars.len(),
    ensures
        from <= r.0 <= r.1 <= to,
        chars@.subrange(r.0 as int, r.1 as int) == trim(chars@.subrange(from as int, to as int)),
{
    let ghost s = chars@.subrange(from as int, to as int);
    let mut lo = from;
    while lo < to && is_white_space_char(chars[lo])
        invariant
            from <= lo <= to <= chars.len(),
            forall|i: int| from <= i < lo ==> is_white_space(#[trigger] chars@[i]),
        decreases to - lo,
    {
        lo = lo + 1;
    }
    proof {
        assert forall|i: int| 0 <= i < lo - from implies is_white_space(#[trigger] s[i]) by {
            assert(s[i] == chars@[from + i]);
        }
        if lo < to {
            assert(s[lo - from] == chars@[lo as int]);
        }
        lemma_leading_ws_unique(s, (lo - from) as nat);
    }
    let mut hi = to;
    while hi > lo && is_white_space_char(chars[hi - 1])
        invariant
            from <= lo <= hi <= to <= chars.len(),
            forall|i: int| hi <= i < to ==> is_white_space(#[trigger] chars@[i]),
        decreases hi - lo,
    {
        hi = hi - 1;
    }
    proof {
        let t = trim_start(s);
        assert(t =~= chars@.subrange(lo as int, to as int));
        assert forall|i: int| t.len() - (to - hi) <= i < t.len() implies is_white_space(#[trigger] t[i]) by {
            assert(t[i] == chars@[lo + i]);
        }
        if hi > lo {
            assert(t[t.len() - (to - hi) - 1] == chars@[hi - 1]);
        }
        lemma_trailing_ws_unique(t, (to - hi) as nat);
        assert(trim(s) =~= chars@.subrange(lo as int, hi as int));
    }
    (lo, hi)
}

/// Whether `chars[at..]` starts with `pat`.
pub fn matches_at(chars: &Vec<char>, at: usize, pat: &Vec<char>) -> (b: bool)
    requires
        at <= chars.len(),
    ensures
        b == (at + pat@.len() <= chars@.len() && chars@.subrange(at as int, at + pat@.len())
            == pat@),
{
    if pat.len() > chars.len() - at {
        return false;
    }
    let mut k: usize = 0;
    while k < pat.len()
        invariant
            at + pat.len() <= chars.len(),
            k <= pat@.len(),
            forall|j: int| 0 <= j < k ==> chars@[at + j] == #[trigger] pat@[j],
        decreases pat@.len() - k,
    {
        if chars[at + k] != pat[k] {
            proof {
                let sub = chars@.subrange(at as int, at + pat@.len());
                assert(sub[k as int] == chars@[at + k]);
            }
            return false;
        }
        k = k + 1;
    }
    proof {
        assert(chars@.subrange(at as int, at + pat@.len()) =~= pat@);
    }
    true
}

/// `s` occurs somewhere in `text`.
pub open spec fn contains_seq(text: Seq<char>, s: Seq<char>) -> bool {
    exists|i: int| 0 <= i && i + s.len() <= text.len() && #[trigger] text.subrange(i, i + s.len()) == s
}

/// `str::contains` for a pattern string: whether `pattern` occurs in `text`.
pub fn str_contains(text: &str, pattern: &str) -> (b: bool)
    ensures
        b == contains_seq(text@, pattern@),
{
    let t = chars_of(text);
    let p = chars_of(pattern);
    if p.len() > t.len() {
        return false;
    }
    if p.len() == 0 {
        proof {
            assert(t@.subrange(0, 0int + p@.len()) =~= p@);
        }
        return true;
    }
    let last = t.len() - p.len();
    let mut i: usize = 0;
    while i <= last
        invariant
            t@ == text@,
            p@ == pattern@,
            last == t@.len() - p@.len(),
            last < usize::MAX,
            i <= last + 1,
            forall|j: int|
                0 <= j < i && j + p@.len() <= t@.len() ==> #[trigger] t@.subrange(j, j + p@.len())
                    != p@,
        decreases last + 1 - i,
    {
        if matches_at(&t, i, &p) {
            return true;
        }
        i = i + 1;
    }
    false
}

/// A string that neither starts nor ends with white space is left as it is by `trim`.
pub proof fn lemma_trim_unchanged(s: Seq<char>)
    requires
        s.len() > 0,
        !is_white_space(s[0]),
        !is_white_space(s.last()),
    ensures
        trim(s) == s,
{
    lemma_leading_ws_unique(s, 0);
    assert(trim_start(s) =~= s);
    lemma_trailing_ws_unique(s, 0);
    assert(trim_end(s) =~= s);
}

// ── Lexicographic order ─────────────────────────────────────────────────────

/// `a < b` in the byte-wise order of `str` and `String`.
pub open spec fn bytes_lex_less(a: Seq<u8>, b: Seq<u8>) -> bool
    decreases a.len(),
{
    if a.len() == 0 {
        b.len() > 0
    } else if b.len() == 0 {
        false
    } else if a[0] != b[0] {
        a[0] < b[0]
    } else {
        bytes_lex_less(a.drop_first(), b.drop_first())
    }
}


/// `a < b` in lexicographic order of code points.
pub open spec fn char_lex_less(a: Seq<char>, b: Seq<char>) -> bool
    decreases a.len(),
{
    if a.len() == 0 {
        b.len() > 0
    } else if b.len() == 0 {
        false
    } else if a[0] != b[0] {
        (a[0] as u32) < (b[0] as u32)
    } else {
        char_lex_less(a.drop_first(), b.drop_first())
    }
}

/// Comparing two concatenations whose first parts have the same length.
pub proof fn lemma_char_lex_concat(a1: Seq<char>, a2: Seq<char>, b1: Seq<char>, b2: Seq<char>)
    requires
        a1.len() == b1.len(),
    ensures
        char_lex_less(a1 + a2, b1 + b2) == if a1 == b1 {
            char_lex_less(a2, b2)
        } else {
            char_lex_less(a1, b1)
        },
    decreases a1.len(),
{
    if a1.len() > 0 {
        let a = a1 + a2;
        let b = b1 + b2;
        assert(a[0] == a1[0] && b[0] == b1[0]);
        assert(a.drop_first() =~= a1.drop_first() + a2);
        assert(b.drop_first() =~= b1.drop_first() + b2);
        lemma_char_lex_concat(a1.drop_first(), a2, b1.drop_first(), b2);
        if a1[0] == b1[0] {
            if a1.drop_first() == b1.drop_first() {
                assert(a1 =~= b1) by {
                    assert forall|i: int| 0 <= i < a1.len() implies a1[i] == b1[i] by {
                        if i > 0 {
                            assert(a1[i] == a1.drop_first()[i - 1]);
                            assert(b1[i] == b1.drop_first()[i - 1]);
                        }
                    }
                }
            } else {
                assert(a1 != b1);
            }
        }
    } else {
        assert(a1 =~= b1);
        assert(a1 + a2 =~= a2);
        assert(b1 + b2 =~= b2);
    }
}

/// On ASCII text, the byte-wise order of the UTF-8 encodings is the order of the characters.
pub proof fn lemma_ascii_byte_order(a: Seq<char>, b: Seq<char>)
    requires
        is_ascii_chars(a),
        is_ascii_chars(b),
    ensures
        bytes_lex_less(encode_utf8(a), encode_utf8(b)) == char_lex_less(a, b),
    decreases a.len(),
{
    is_ascii_chars_encode_utf8(a);
    is_ascii_chars_encode_utf8(b);
    let ea = encode_utf8(a);
    let eb = encode_utf8(b);
    if a.len() > 0 && b.len() > 0 {
        assert(ea[0] == a[0] as u8 && eb[0] == b[0] as u8);
        assert((a[0] as u32) < 128 && (b[0] as u32) < 128);
        if a[0] == b[0] {
            assert(ea.drop_first() =~= encode_utf8(a.drop_first()));
            assert(eb.drop_first() =~= encode_utf8(b.drop_first()));
            lemma_ascii_byte_order(a.drop_first(), b.drop_first());
        } else {
            assert(ea[0] != eb[0]) by {
                vstd::utf8::char_u32_cast(a[0], a[0] as u32);
                vstd::utf8::char_u32_cast(b[0], b[0] as u32);
            }
        }
    }
}

// ── Fixed-width digits ──────────────────────────────────────────────────────

/// The last `w` decimal digits of `n`, with leading zeros.
pub open spec fn fixed_digits(n: nat, w: nat) -> Seq<char>
    decreases w,
{
    if w == 0 {
        Seq::empty()
    } else {
        fixed_digits(n / 10, (w - 1) as nat).push(digit_char((n % 10) as int))
    }
}

proof fn lemma_digit_char(d: int)
    requires
        0 <= d < 10,
    ensures
        digit_char(d) as u32 == 48 + d,
        '\0' <= digit_char(d) <= '\u{7f}',
{
    assert(((d + 48) as char) as u32 == d + 48);
}

proof fn lemma_fixed_digits_zero(k: nat)
    ensures
        fixed_digits(0, k) == Seq::new(k, |i: int| '0'),
    decreases k,
{
    if k > 0 {
        lemma_fixed_digits_zero((k - 1) as nat);
        assert(digit_char(0) == '0');
        assert(fixed_digits(0, k) =~= Seq::new(k, |i: int| '0'));
    }
}

/// A number below `10^w` zero-padded to `w` digits is its last `w` digits.
pub proof fn lemma_padded_is_fixed(n: nat, w: nat)
    requires
        w >= 1,
        n < pow10(w),
    ensures
        padded_decimal(n, w) == fixed_digits(n, w),
    decreases w,
{
    lemma_decimal_len_bound(n, w);
    if n < 10 {
        lemma_fixed_digits_zero((w - 1) as nat);
        assert(padded_decimal(n, w) =~= fixed_digits(n, w));
    } else {
        assert(w >= 2) by {
            if w == 1 {
                assert(pow10(1) == 10 * pow10(0));
            }
        }
        assert(pow10(w) == 10 * pow10((w - 1) as nat));
        lemma_padded_is_fixed(n / 10, (w - 1) as nat);
        lemma_decimal_len_bound(n / 10, (w - 1) as nat);
        let p = decimal(n / 10);
        assert(decimal(n) == p.push(digit_char((n % 10) as int)));
        assert(padded_decimal(n, w) =~= padded_decimal(n / 10, (w - 1) as nat).push(
            digit_char((n % 10) as int),
        ));
    }
}

/// Fixed-width digit strings are ASCII, have `w` characters, and compare as
/// the numbers they write.
pub proof fn lemma_fixed_digits_order(n1: nat, n2: nat, w: nat)
    requires
        n1 < pow10(w),
        n2 < pow10(w),
    ensures
        fixed_digits(n1, w).len() == w,
        fixed_digits(n2, w).len() == w,
        is_ascii_chars(fixed_digits(n1, w)),
        (fixed_digits(n1, w) == fixed_digits(n2, w)) == (n1 == n2),
        char_lex_less(fixed_digits(n1, w), fixed_digits(n2, w)) == (n1 < n2),
    decreases w,
{
    if w == 0 {
        assert(pow10(0) == 1);
    } else {
        assert(pow10(w) == 10 * pow10((w - 1) as nat));
        lemma_fixed_digits_order(n1 / 10, n2 / 10, (w - 1) as nat);
        let p1 = fixed_digits(n1 / 10, (w - 1) as nat);
        let p2 = fixed_digits(n2 / 10, (w - 1) as nat);
        let d1 = digit_char((n1 % 10) as int);
        let d2 = digit_char((n2 % 10) as int);
        lemma_digit_char((n1 % 10) as int);
        lemma_digit_char((n2 % 10) as int);
        lemma_char_lex_concat(p1, seq![d1], p2, seq![d2]);
        assert(fixed_digits(n1, w) =~= p1 + seq![d1]);
        assert(fixed_digits(n2, w) =~= p2 + seq![d2]);
        assert(seq![d1].drop_first() =~= Seq::<char>::empty());
        assert(seq![d2].drop_first() =~= Seq::<char>::empty());
        assert(seq![d1][0] == d1 && seq![d2][0] == d2);
        assert((d1 == d2) == (n1 % 10 == n2 % 10));
        assert(char_lex_less(seq![d1], seq![d2]) == (n1 % 10 < n2 % 10)) by {
            reveal_with_fuel(char_lex_less, 2);
        }
        if fixed_digits(n1, w) == fixed_digits(n2, w) {
            assert(p1 =~= fixed_digits(n1, w).drop_last());
            assert(p2 =~= fixed_digits(n2, w).drop_last());
            assert(d1 == fixed_digits(n1, w).last());
        }
        assert forall|i: int| 0 <= i < fixed_digits(n1, w).len() implies '\0' <= #[trigger] fixed_digits(
            n1,
            w,
        )[i] <= '\u{7f}' by {
            if i < p1.len() {
                assert(fixed_digits(n1, w)[i] == p1[i]);
            }
        }
    }
}

} // verus!
