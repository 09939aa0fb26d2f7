//! Byte-string helpers: searching, decimal numbers, UTF-8 text.
use vstd::prelude::*;
use vstd::string::StrSliceExecFns;
use vstd::utf8::{decode_utf8, encode_utf8, valid_utf8};

verus! {

/// The text that `String::from_utf8_lossy` makes of `bytes`.
pub uninterp spec fn utf8_lossy(bytes: Seq<u8>) -> Seq<char>;

/// Calls `String::from_utf8_lossy`. Trusted: the text is `utf8_lossy` of the
/// bytes, and, as std documents, the bytes decoded unchanged when they are
/// valid UTF-8.
#[verifier::external_body]
pub(crate) fn lossy_string(bytes: &[u8]) -> (s: String)
    ensures
        s@ == utf8_lossy(bytes@),
        valid_utf8(bytes@) ==> s@ == decode_utf8(bytes@),
{
    String::from_utf8_lossy(bytes).into_owned()
}

/// Calls `std::str::from_utf8`. Trusted: it succeeds exactly on valid UTF-8,
/// as std documents.
#[verifier::external_body]
pub(crate) fn is_valid_utf8(bytes: &[u8]) -> (ok: bool)
    ensures
        ok == valid_utf8(bytes@),
{
    std::str::from_utf8(bytes).is_ok()
}

/// The texts held by a sequence of strings.
pub open spec fn texts_view(v: Seq<String>) -> Seq<Seq<char>> {
    Seq::new(v.len(), |i: int| v[i]@)
}

/// `pat` occurs in `s` at position `i`.
pub open spec fn occurs_at(s: Seq<u8>, pat: Seq<u8>, i: int) -> bool {
    0 <= i && i + pat.len() <= s.len() && s.subrange(i, i + pat.len()) == pat
}

/// `i` is the first position where `pat` occurs in `s`.
pub open spec fn first_occurrence(s: Seq<u8>, pat: Seq<u8>, i: int) -> bool {
    occurs_at(s, pat, i) && forall|j: int| 0 <= j < i ==> !#[trigger] occurs_at(s, pat, j)
}

/// The first position at or after `i` where `pat` occurs in `s`.
pub open spec fn find_from(s: Seq<u8>, pat: Seq<u8>, i: int) -> Option<int>
    decreases s.len() + 1 - i,
{
    if i < 0 || i + pat.len() > s.len() {
        None
    } else if occurs_at(s, pat, i) {
        Some(i)
    } else {
        find_from(s, pat, i + 1)
    }
}

/// The first position where `pat` occurs in `s`, as `str::find` reports it.
pub open spec fn find_index(s: Seq<u8>, pat: Seq<u8>) -> Option<int> {
    find_from(s, pat, 0)
}

/// `pat` occurs somewhere in `s`.
pub open spec fn contains(s: Seq<u8>, pat: Seq<u8>) -> bool {
    exists|i: int| #[trigger] occurs_at(s, pat, i)
}

/// Whether `pat` occurs in `s` at `i`.
fn matches_at(s: &[u8], pat: &[u8], i: usize) -> (res: bool)
    requires
        i + pat@.len() <= s@.len(),
    ensures
        res == occurs_at(s@, pat@, i as int),
{
    let n = s.len();
    let mut j: usize = 0;
    while j < pat.len()
        invariant
            j <= pat@.len(),
            n == s@.len(),
            i + pat@.len() <= s@.len(),
            forall|k: int| 0 <= k < j ==> s@[i + k] == pat@[k],
        decreases pat@.len() - j,
    {
        assert(i + j < s@.len());
        if s[i + j] != pat[j] {
            assert(s@.subrange(i as int, i + pat@.len())[j as int] != pat@[j as int]);
            return false;
        }
        j = j + 1;
    }
    assert(s@.subrange(i as int, i + pat@.len()) =~= pat@);
    true
}

/// The first position of `pat` in `s`, like `str::find`.
pub fn find_bytes(s: &[u8], pat: &[u8]) -> (res: Option<usize>)
    ensures
        match res {
            Some(i) => first_occurrence(s@, pat@, i as int) && find_index(s@, pat@) == Some(
                i as int,
            ),
            None => !contains(s@, pat@) && find_index(s@, pat@) is None,
        },
{
    if pat.len() > s.len() {
        assert(find_from(s@, pat@, 0) is None);
        assert forall|i: int| !#[trigger] occurs_at(s@, pat@, i) by {}
        return None;
    }
    let last = s.len() - pat.len();
    let mut i: usize = 0;
    loop
        invariant
            last == s@.len() - pat@.len(),
            i <= last,
            forall|j: int| 0 <= j < i ==> !#[trigger] occurs_at(s@, pat@, j),
            find_from(s@, pat@, 0) == find_from(s@, pat@, i as int),
        ensures
            forall|j: int| 0 <= j <= last ==> !#[trigger] occurs_at(s@, pat@, j),
            find_from(s@, pat@, 0) is None,
        decreases last - i,
    {
        if matches_at(s, pat, i) {
            return Some(i);
        }
        if i == last {
            assert(find_from(s@, pat@, i + 1) is None);
            break;
        }
        i = i + 1;
    }
    assert forall|j: int| !#[trigger] occurs_at(s@, pat@, j) by {
        if 0 <= j && j <= last {
        }
    }
    None
}

/// Whether `pat` occurs in `s`.
pub fn contains_bytes(s: &[u8], pat: &[u8]) -> (res: bool)
    ensures
        res == contains(s@, pat@),
{
    match find_bytes(s, pat) {
        Some(_) => true,
        None => false,
    }
}

/// ASCII decimal digits.
pub open spec fn is_digit(b: u8) -> bool {
    0x30 <= b <= 0x39
}

/// The value of a string of decimal digits.
pub open spec fn digits_value(s: Seq<u8>) -> nat
    decreases s.len(),
{
    if s.len() == 0 {
        0
    } else {
        digits_value(s.drop_last()) * 10 + (s.last() - 0x30) as nat
    }
}

/// The decimal representation of `n`, without leading zeros.
pub open spec fn decimal(n: nat) -> Seq<u8>
    decreases n,
{
    if n < 10 {
        seq![(0x30 + n) as u8]
    } else {
        decimal(n / 10).push((0x30 + n % 10) as u8)
    }
}

/// `s` without a leading `+`.
pub open spec fn sign_stripped(s: Seq<u8>) -> Seq<u8> {
    if s.len() > 0 && s[0] == 0x2B {
        s.skip(1)
    } else {
        s
    }
}

/// What `u16::from_str` accepts: an optional `+`, then one or more decimal
/// digits whose value fits in 16 bits.
pub open spec fn parsed_u16(s: Seq<u8>) -> Option<u16> {
    let body = sign_stripped(s);
    if body.len() > 0 && (forall|i: int| 0 <= i < body.len() ==> #[trigger] is_digit(body[i]))
        && digits_value(body) <= 0xFFFF {
        Some(digits_value(body) as u16)
    } else {
        None
    }
}

/// The decimal digits of `n`.
pub fn decimal_bytes(n: u64) -> (d: Vec<u8>)
    ensures
        d@ == decimal(n as nat),
    decreases n,
{
    if n < 10 {
        let mut d: Vec<u8> = Vec::new();
        d.push((0x30 + n) as u8);
        assert(d@ =~= decimal(n as nat));
        d
    } else {
        let mut d = decimal_bytes(n / 10);
        d.push((0x30 + n % 10) as u8);
        d
    }
}

proof fn lemma_digits_value_take_mono(s: Seq<u8>, i: int)
    requires
        0 <= i < s.len(),
        forall|k: int| 0 <= k < s.len() ==> #[trigger] is_digit(s[k]),
    ensures
        digits_value(s.take(i + 1)) == digits_value(s.take(i)) * 10 + (s[i] - 0x30),
{
    assert(s.take(i + 1).drop_last() =~= s.take(i));
    assert(s.take(i + 1).last() == s[i]);
    assert(is_digit(s[i]));
}

/// Parses a decimal `u16` as `u16::from_str` does.
pub fn parse_u16(s: &[u8]) -> (res: Option<u16>)
    ensures
        res == parsed_u16(s@),
{
    let start: usize = if s.len() > 0 && s[0] == 0x2B {
        1
    } else {
        0
    };
    let ghost body = sign_stripped(s@);
    assert(body =~= s@.skip(start as int));
    if start >= s.len() {
        assert(body.len() == 0);
        assert(parsed_u16(s@) is None);
        return None;
    }
    let mut i: usize = start;
    while i < s.len()
        invariant
            start <= i <= s@.len(),
            body == s@.skip(start as int),
            sign_stripped(s@) == body,
            forall|k: int| 0 <= k < i - start ==> #[trigger] is_digit(body[k]),
        decreases s@.len() - i,
    {
        if s[i] < 0x30 || s[i] > 0x39 {
            assert(!is_digit(body[i - start]));
            assert(!(forall|k: int| 0 <= k < body.len() ==> #[trigger] is_digit(body[k])));
            return None;
        }
        i = i + 1;
    }
    let mut v: u64 = 0;
    let mut j: usize = start;
    while j < s.len()
        invariant
            start <= j <= s@.len(),
            body == s@.skip(start as int),
            sign_stripped(s@) == body,
            forall|k: int| 0 <= k < body.len() ==> #[trigger] is_digit(body[k]),
            v == (if digits_value(body.take(j - start)) < 0x10000 {
                digits_value(body.take(j - start))
            } else {
                0x10000
            }),
        decreases s@.len() - j,
    {
        proof {
            lemma_digits_value_take_mono(body, j - start);
        }
        assert(is_digit(body[j - start]));
        let d = (s[j] - 0x30) as u64;
        if v < 0x10000 {
            let nv = v * 10 + d;
            v = if nv < 0x10000 {
                nv
            } else {
                0x10000
            };
        }
        j = j + 1;
    }
    assert(body.take(body.len() as int) =~= body);
    if v < 0x10000 {
        Some(v as u16)
    } else {
        None
    }
}

/// The decimal form of `n` is a non-empty string of digits worth `n`.
pub proof fn lemma_decimal_digits(n: nat)
    ensures
        decimal(n).len() > 0,
        forall|i: int| 0 <= i < decimal(n).len() ==> #[trigger] is_digit(decimal(n)[i]),
        digits_value(decimal(n)) == n,
    decreases n,
{
    if n >= 10 {
        lemma_decimal_digits(n / 10);
        let d = decimal(n);
        assert(d.drop_last() =~= decimal(n / 10));
        assert((n / 10) * 10 + n % 10 == n) by (nonlinear_arith);
        assert forall|i: int| 0 <= i < d.len() implies #[trigger] is_digit(d[i]) by {
            if i < d.len() - 1 {
                assert(d[i] == decimal(n / 10)[i]);
            }
        }
    } else {
        assert(decimal(n).drop_last() =~= Seq::<u8>::empty());
        assert(digits_value(Seq::<u8>::empty()) == 0);
    }
}

/// A `u16` written in decimal parses back to itself.
pub proof fn lemma_u16_decimal_roundtrip(n: u16)
    ensures
        parsed_u16(decimal(n as nat)) == Some(n),
{
    lemma_decimal_digits(n as nat);
    let d = decimal(n as nat);
    assert(!(d[0] == 0x2B)) by {
        assert(is_digit(d[0]));
    }
}

/// `i` is the position of the last `:` in `s`.
pub open spec fn is_last_colon(s: Seq<char>, i: int) -> bool {
    0 <= i < s.len() && s[i] == ':' && forall|j: int| i < j < s.len() ==> s[j] != ':'
}

/// The host and port of an address written `host:port`: the text before the
/// last `:` and the decimal `u16` after it (taken apart as `rsplitn(2, ':')`
/// and `u16::from_str` do); `None` without a `:` or with a bad port.
pub open spec fn host_and_port(s: Seq<char>) -> Option<(Seq<char>, u16)> {
    if exists|i: int| is_last_colon(s, i) {
        let i = choose|i: int| is_last_colon(s, i);
        match parsed_u16(encode_utf8(s.skip(i + 1))) {
            Some(p) => Some((s.take(i), p)),
            None => None,
        }
    } else {
        None
    }
}

/// Splits `host:port` at its last `:` and parses the port.
pub fn split_host_port(addr: &str) -> (res: Option<(String, u16)>)
    ensures
        match res {
            Some((h, p)) => host_and_port(addr@) == Some((h@, p)),
            None => host_and_port(addr@) is None,
        },
{
    let n = addr.unicode_len();
    let mut i: usize = n;
    while i > 0
        invariant
            n == addr@.len(),
            i <= n,
            forall|j: int| i <= j < n ==> addr@[j] != ':',
        decreases i,
    {
        if addr.get_char(i - 1) == ':' {
            let at = i - 1;
            assert(is_last_colon(addr@, at as int));
            proof {
                let c = choose|c: int| is_last_colon(addr@, c);
                if c < at {
                    assert(addr@[at as int] != ':');
                } else if c > at {
                    assert(addr@[c] != ':');
                }
            }
            let port_text = addr.substring_char(at + 1, n);
            assert(port_text@ =~= addr@.skip(at + 1));
            return match parse_u16(port_text.as_bytes()) {
                Some(p) => {
                    let host = addr.substring_char(0, at).to_owned();
                    assert(host@ =~= addr@.take(at as int));
                    Some((host, p))
                },
                None => None,
            };
        }
        i = i - 1;
    }
    assert(!exists|c: int| is_last_colon(addr@, c)) by {
        if exists|c: int| is_last_colon(addr@, c) {
            let c = choose|c: int| is_last_colon(addr@, c);
            assert(addr@[c] != ':');
        }
    }
    None
}

/// `pat` starts with `[` and holds no other `[`.
pub open spec fn bracket_tag(pat: Seq<u8>) -> bool {
    pat.len() > 0 && pat[0] == 0x5B && forall|t: int| 1 <= t < pat.len() ==> pat[t] != 0x5B
}

proof fn lemma_find_from_first(s: Seq<u8>, pat: Seq<u8>, i: int, k: int)
    requires
        0 <= i <= k,
        occurs_at(s, pat, k),
        forall|j: int| i <= j < k ==> !#[trigger] occurs_at(s, pat, j),
    ensures
        find_from(s, pat, i) == Some(k),
    decreases k - i,
{
    if i < k {
        lemma_find_from_first(s, pat, i + 1, k);
    }
}

/// A bracket tag right after `pre` is found there first, when `pre` does not
/// hold it.
pub proof fn lemma_tag_found_after(pre: Seq<u8>, pat: Seq<u8>, post: Seq<u8>)
    requires
        bracket_tag(pat),
        !contains(pre, pat),
    ensures
        find_index(pre + pat + post, pat) == Some(pre.len() as int),
{
    let s = pre + pat + post;
    let k = pre.len() as int;
    assert(s.subrange(k, k + pat.len()) =~= pat);
    assert forall|j: int| 0 <= j < k implies !#[trigger] occurs_at(s, pat, j) by {
        if occurs_at(s, pat, j) {
            if j + pat.len() <= k {
                assert(pre.subrange(j, j + pat.len()) =~= s.subrange(j, j + pat.len()));
                assert(occurs_at(pre, pat, j));
            } else {
                assert(s[k] == 0x5B);
                assert(s.subrange(j, j + pat.len())[k - j] == s[k]);
            }
        }
    }
    lemma_find_from_first(s, pat, 0, k);
}

/// A bracket tag `pat` does not occur in `a + b` when it does not occur in
/// `b` and the bracket tag `a` differs from it at position `t`.
pub proof fn lemma_tag_not_in_tagged(a: Seq<u8>, b: Seq<u8>, pat: Seq<u8>, t: int)
    requires
        bracket_tag(a),
        bracket_tag(pat),
        1 <= t < a.len(),
        t < pat.len(),
        a[t] != pat[t],
        !contains(b, pat),
    ensures
        !contains(a + b, pat),
{
    let s = a + b;
    assert forall|j: int| !#[trigger] occurs_at(s, pat, j) by {
        if occurs_at(s, pat, j) {
            assert(s.subrange(j, j + pat.len())[0] == s[j]);
            if j == 0 {
                assert(s.subrange(j, j + pat.len())[t] == s[t]);
            } else if j < a.len() {
                assert(s[j] == a[j]);
            } else {
                assert(b.subrange(j - a.len(), j - a.len() + pat.len()) =~= s.subrange(j, j + pat.len()));
                assert(occurs_at(b, pat, j - a.len()));
            }
        }
    }
}

/// A bracket tag does not occur in `m + t` when it occurs in neither and `t`
/// starts with `[`.
pub proof fn lemma_tag_not_in_join(m: Seq<u8>, t: Seq<u8>, pat: Seq<u8>)
    requires
        bracket_tag(pat),
        t.len() > 0,
        t[0] == 0x5B,
        !contains(m, pat),
        !contains(t, pat),
    ensures
        !contains(m + t, pat),
{
    let s = m + t;
    let k = m.len() as int;
    assert forall|j: int| !#[trigger] occurs_at(s, pat, j) by {
        if occurs_at(s, pat, j) {
            if j + pat.len() <= k {
                assert(m.subrange(j, j + pat.len()) =~= s.subrange(j, j + pat.len()));
                assert(occurs_at(m, pat, j));
            } else if j < k {
                assert(s[k] == 0x5B);
                assert(s.subrange(j, j + pat.len())[k - j] == s[k]);
            } else {
                assert(t.subrange(j - k, j - k + pat.len()) =~= s.subrange(j, j + pat.len()));
                assert(occurs_at(t, pat, j - k));
            }
        }
    }
}

/// A bracket tag does not occur in bytes that hold no `[`.
pub proof fn lemma_tag_not_in_plain(s: Seq<u8>, pat: Seq<u8>)
    requires
        bracket_tag(pat),
        forall|i: int| 0 <= i < s.len() ==> s[i] != 0x5B,
    ensures
        !contains(s, pat),
{
    assert forall|j: int| !#[trigger] occurs_at(s, pat, j) by {
        if occurs_at(s, pat, j) {
            assert(s.subrange(j, j + pat.len())[0] == s[j]);
        }
    }
}

/// Bytes below `0x80` are valid UTF-8.
pub proof fn lemma_ascii_valid_utf8(b: Seq<u8>)
    requires
        forall|i: int| 0 <= i < b.len() ==> b[i] < 0x80,
    ensures
        valid_utf8(b),
{
    let chars = Seq::new(b.len(), |i: int| b[i] as char);
    assert(vstd::utf8::is_ascii_chars(chars));
    vstd::utf8::is_ascii_chars_encode_utf8(chars);
    assert(encode_utf8(chars) =~= b);
    vstd::utf8::encode_utf8_valid_utf8(chars);
}

} // verus!
