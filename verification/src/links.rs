//! Link detection in one line of text: `http(s)://` URLs (found anywhere in
//! a white-space delimited token, cut at the first non-ASCII character and
//! stripped of trailing punctuation), `file://` URIs, and file paths with an
//! optional `:line` suffix. Whether a path exists is decided by the caller's
//! resolver; this module does no I/O.

use vstd::prelude::*;
use crate::strs::{chars_of, string_of};
use crate::tabs::{is_whitespace, spec_is_whitespace};

verus! {

/// Where a link click leads.
#[derive(Debug, PartialEq, Eq)]
pub enum LinkTarget {
    /// Opened by the system (browser, file manager).
    Url(String),
    /// Opened in the editor; `line` is 1-based (`file.c:42`).
    File { path: String, line: Option<u32> },
}

/// First index `>= from` where `pat` occurs in `s`.
pub open spec fn find_from(s: Seq<char>, pat: Seq<char>, from: int) -> Option<int>
    decreases s.len() - from,
{
    if from < 0 || from >= s.len() || from + pat.len() > s.len() {
        None
    } else if s.subrange(from, from + pat.len()) == pat {
        Some(from)
    } else {
        find_from(s, pat, from + 1)
    }
}

/// First occurrence of `pat` in `s`.
pub open spec fn find_first(s: Seq<char>, pat: Seq<char>) -> Option<int> {
    find_from(s, pat, 0)
}

proof fn lemma_find_from_range(s: Seq<char>, pat: Seq<char>, from: int)
    ensures
        find_from(s, pat, from) matches Some(p) ==> from <= p && p + pat.len() <= s.len()
            && s.subrange(p, p + pat.len()) == pat,
    decreases s.len() - from,
{
    if !(from < 0 || from >= s.len() || from + pat.len() > s.len()) && s.subrange(from, from + pat.len()) != pat {
        lemma_find_from_range(s, pat, from + 1);
    }
}

/// Index of the first occurrence of `pat` in `s`, if any.
fn find_chars(s: &Vec<char>, pat: &Vec<char>) -> (r: Option<usize>)
    ensures
        r matches Some(p) ==> find_first(s@, pat@) == Some(p as int),
        r is None ==> find_first(s@, pat@) is None,
{
    if pat.len() > s.len() || s.len() == 0 {
        return None;
    }
    let mut i: usize = 0;
    while i <= s.len() - pat.len() && i < s.len()
        invariant
            pat@.len() <= s@.len(),
            i <= s@.len(),
            find_first(s@, pat@) == find_from(s@, pat@, i as int),
        decreases s@.len() - i,
    {
        assert(i + pat@.len() <= s@.len());
        let mut k: usize = 0;
        let mut same = true;
        while k < pat.len()
            invariant
                k <= pat@.len(),
                i + pat@.len() <= s.len(),
                same == (forall|j: int| 0 <= j < k ==> s@[i + j] == pat@[j]),
            decreases pat@.len() - k,
        {
            let idx: usize = i + k;
            if s[idx] != pat[k] {
                same = false;
            }
            k = k + 1;
        }
        proof {
            if same {
                assert(s@.subrange(i as int, i + pat@.len()) =~= pat@);
            } else {
                let j = choose|j: int| 0 <= j < pat@.len() && s@[i + j] != pat@[j];
                assert(s@.subrange(i as int, i + pat@.len())[j] == s@[i + j]);
            }
        }
        if same {
            return Some(i);
        }
        i = i + 1;
    }
    None
}

/// Trailing characters stripped from a URL.
pub open spec fn is_url_trail(c: char) -> bool {
    c == '.' || c == ',' || c == ';' || c == ':' || c == '!' || c == '?' || c == ')' || c == '"'
        || c == '\''
}

/// Trailing characters stripped from a path candidate (ASCII and full-width
/// sentence punctuation).
pub open spec fn is_path_trail(c: char) -> bool {
    c == '.' || c == ',' || c == ';' || c == ':' || c == '。' || c == '，' || c == '；' || c == '：'
}

/// `s` without its trailing URL punctuation.
pub open spec fn trim_url_trail(s: Seq<char>) -> Seq<char>
    decreases s.len(),
{
    if s.len() > 0 && is_url_trail(s.last()) {
        trim_url_trail(s.drop_last())
    } else {
        s
    }
}

/// `s` without its trailing path punctuation.
pub open spec fn trim_path_trail(s: Seq<char>) -> Seq<char>
    decreases s.len(),
{
    if s.len() > 0 && is_path_trail(s.last()) {
        trim_path_trail(s.drop_last())
    } else {
        s
    }
}

proof fn lemma_trim_url_prefix(s: Seq<char>)
    ensures
        trim_url_trail(s).len() <= s.len(),
        trim_url_trail(s) == s.take(trim_url_trail(s).len() as int),
    decreases s.len(),
{
    if s.len() > 0 && is_url_trail(s.last()) {
        lemma_trim_url_prefix(s.drop_last());
        assert(s.drop_last().take(trim_url_trail(s).len() as int) =~= s.take(trim_url_trail(s).len() as int));
    } else {
        assert(s.take(s.len() as int) =~= s);
    }
}

proof fn lemma_trim_path_prefix(s: Seq<char>)
    ensures
        trim_path_trail(s).len() <= s.len(),
        trim_path_trail(s) == s.take(trim_path_trail(s).len() as int),
    decreases s.len(),
{
    if s.len() > 0 && is_path_trail(s.last()) {
        lemma_trim_path_prefix(s.drop_last());
        assert(s.drop_last().take(trim_path_trail(s).len() as int) =~= s.take(trim_path_trail(s).len() as int));
    } else {
        assert(s.take(s.len() as int) =~= s);
    }
}

/// Length of the ASCII prefix of `s`.
pub open spec fn ascii_prefix_len(s: Seq<char>) -> nat
    decreases s.len(),
{
    if s.len() == 0 || (s[0] as u32) >= 128 {
        0
    } else {
        1 + ascii_prefix_len(s.drop_first())
    }
}

proof fn lemma_ascii_prefix(s: Seq<char>, i: int)
    requires
        0 <= i <= s.len(),
        forall|j: int| 0 <= j < i ==> (s[j] as u32) < 128,
        i == s.len() || (s[i] as u32) >= 128,
    ensures
        ascii_prefix_len(s) == i,
    decreases i,
{
    if i > 0 {
        lemma_ascii_prefix(s.drop_first(), i - 1);
    }
}

/// UTF-8 length of one character.
pub open spec fn utf8_len(c: char) -> nat {
    let u = c as u32;
    if u < 0x80 { 1 } else if u < 0x800 { 2 } else if u < 0x10000 { 3 } else { 4 }
}

/// UTF-8 length of a character sequence.
pub open spec fn utf8_bytes(s: Seq<char>) -> nat
    decreases s.len(),
{
    if s.len() == 0 { 0 } else { utf8_bytes(s.drop_last()) + utf8_len(s.last()) }
}

/// Last index of `c` in `s`.
pub open spec fn rfind_char(s: Seq<char>, c: char) -> Option<int>
    decreases s.len(),
{
    if s.len() == 0 {
        None
    } else if s.last() == c {
        Some(s.len() - 1)
    } else {
        rfind_char(s.drop_last(), c)
    }
}

/// Decimal value of a digit string.
pub open spec fn digits_value(s: Seq<char>) -> nat
    decreases s.len(),
{
    if s.len() == 0 { 0 } else { digits_value(s.drop_last()) * 10 + ((s.last() as u32) - 48) as nat }
}

/// All characters are ASCII digits.
pub open spec fn all_digits(s: Seq<char>) -> bool {
    forall|j: int| 0 <= j < s.len() ==> '0' <= #[trigger] s[j] <= '9'
}

/// The `:line` split of a path candidate: the text after the last `:` is
/// taken as a 1-based line number when it is a non-empty run of digits that
/// fits in `u32`, and the colon is not at byte 0 or 1 (a drive letter's
/// colon).
pub open spec fn split_line_suffix(t: Seq<char>) -> (Seq<char>, Option<u32>) {
    match rfind_char(t, ':') {
        Some(pos) => {
            let digits = t.skip(pos + 1);
            if utf8_bytes(t.take(pos)) > 1 && digits.len() > 0 && all_digits(digits)
                && digits_value(digits) <= u32::MAX {
                (t.take(pos), Some(digits_value(digits) as u32))
            } else {
                (t, None)
            }
        },
        None => (t, None),
    }
}

/// Contains a path separator.
pub open spec fn has_sep(s: Seq<char>) -> bool {
    s.contains('\\') || s.contains('/')
}

/// How a token classifies, before any path resolution.
pub enum LinkClass {
    /// Not a link.
    NoLink,
    /// A URL `[off, off + len)` within the token with this text.
    Url(int, int, Seq<char>),
    /// A path candidate (the whole prefix `[0, len)` of the token), to be
    /// confirmed by the resolver.
    Path(Seq<char>, Option<u32>),
}

/// The classification of a token.
pub open spec fn spec_classify(token: Seq<char>) -> LinkClass {
    let https = find_first(token, seq!['h', 't', 't', 'p', 's', ':', '/', '/']);
    let http = find_first(token, seq!['h', 't', 't', 'p', ':', '/', '/']);
    let found = if https is Some { https } else { http };
    if found is Some {
        let p = found->0;
        let rest = token.skip(p);
        let t = trim_url_trail(rest.take(ascii_prefix_len(rest) as int));
        if t.len() >= 3 && t.subrange(t.len() - 3, t.len() as int) == seq![':', '/', '/'] {
            LinkClass::NoLink
        } else {
            LinkClass::Url(p, t.len() as int, t)
        }
    } else if token.len() >= 7 && token.take(7) == seq!['f', 'i', 'l', 'e', ':', '/', '/'] {
        LinkClass::Url(0, token.len() as int, token)
    } else if !has_sep(token) {
        LinkClass::NoLink
    } else {
        let t0 = trim_path_trail(token);
        if t0.len() == 0 {
            LinkClass::NoLink
        } else {
            let (t, line) = split_line_suffix(t0);
            if t.len() == 0 || !has_sep(t) {
                LinkClass::NoLink
            } else {
                LinkClass::Path(t, line)
            }
        }
    }
}

/// Start of the run of non-white-space characters that ends at `i`.
pub open spec fn token_start(chars: Seq<char>, i: int) -> int
    decreases i,
{
    if i <= 0 || i > chars.len() || spec_is_whitespace(chars[i - 1]) {
        i
    } else {
        token_start(chars, i - 1)
    }
}

/// End of the run of non-white-space characters that starts at `i`.
pub open spec fn token_end(chars: Seq<char>, i: int) -> int
    decreases chars.len() - i,
{
    if i < 0 || i >= chars.len() || spec_is_whitespace(chars[i]) {
        i
    } else {
        token_end(chars, i + 1)
    }
}

/// Bounds `[c0, c1)` of the white-space delimited token under column `col`
/// (a column past the end hits the last character), or none when the line
/// is empty or that character is white space.
pub open spec fn token_bounds(chars: Seq<char>, col: int) -> Option<(int, int)> {
    if chars.len() == 0 {
        None
    } else {
        let at = if col < chars.len() { col } else { chars.len() - 1 };
        if spec_is_whitespace(chars[at]) {
            None
        } else {
            let c0 = token_start(chars, at);
            let c1 = token_end(chars, at + 1);
            Some((c0, c1))
        }
    }
}

fn is_url_trail_char(c: char) -> (r: bool)
    ensures
        r == is_url_trail(c),
{
    c == '.' || c == ',' || c == ';' || c == ':' || c == '!' || c == '?' || c == ')' || c == '"'
        || c == '\''
}

fn is_path_trail_char(c: char) -> (r: bool)
    ensures
        r == is_path_trail(c),
{
    c == '.' || c == ',' || c == ';' || c == ':' || c == '。' || c == '，' || c == '；' || c == '：'
}

fn utf8_len_of(c: char) -> (r: usize)
    ensures
        r == utf8_len(c),
{
    let u = c as u32;
    if u < 0x80 { 1 } else if u < 0x800 { 2 } else if u < 0x10000 { 3 } else { 4 }
}

fn contains_char(s: &Vec<char>, c: char) -> (r: bool)
    ensures
        r == s@.contains(c),
{
    let mut i: usize = 0;
    while i < s.len()
        invariant
            i <= s@.len(),
            forall|j: int| 0 <= j < i ==> s@[j] != c,
        decreases s@.len() - i,
    {
        if s[i] == c {
            return true;
        }
        i = i + 1;
    }
    false
}

fn has_sep_chars(s: &Vec<char>) -> (r: bool)
    ensures
        r == has_sep(s@),
{
    contains_char(s, '\\') || contains_char(s, '/')
}

fn sub_vec(s: &Vec<char>, a: usize, b: usize) -> (r: Vec<char>)
    requires
        a <= b <= s@.len(),
    ensures
        r@ == s@.subrange(a as int, b as int),
{
    let mut r: Vec<char> = Vec::new();
    let mut i = a;
    while i < b
        invariant
            a <= i <= b <= s@.len(),
            r@ == s@.subrange(a as int, i as int),
        decreases b - i,
    {
        r.push(s[i]);
        i = i + 1;
        proof {
            assert(r@ =~= s@.subrange(a as int, i as int));
        }
    }
    r
}

/// The `:line` split of a path candidate (see [`split_line_suffix`]).
fn split_line_suffix_exec(t: &Vec<char>) -> (r: (Vec<char>, Option<u32>))
    ensures
        (r.0@, r.1) == split_line_suffix(t@),
        r.0@.len() <= t@.len(),
{
    // last ':'
    let mut i: usize = t.len();
    assert(t@.take(i as int) =~= t@);
    while i > 0 && t[i - 1] != ':'
        invariant
            i <= t@.len(),
            rfind_char(t@, ':') == rfind_char(t@.take(i as int), ':'),
        decreases i,
    {
        proof {
            assert(t@.take(i as int).drop_last() =~= t@.take(i - 1));
        }
        i = i - 1;
    }
    let pos: usize = if i == 0 { t.len() } else { i - 1 };
    if pos == t.len() {
        proof {
            assert(t@.take(0) =~= Seq::<char>::empty());
        }
        return (t.clone(), None);
    }
    assert(rfind_char(t@, ':') == Some(pos as int));
    // byte length of the part before the colon, capped at 2
    let mut bytes: usize = 0;
    let mut k: usize = 0;
    while k < pos && bytes <= 1
        invariant
            k <= pos < t@.len(),
            bytes <= 1 ==> bytes == utf8_bytes(t@.take(k as int)),
            bytes > 1 ==> utf8_bytes(t@.take(pos as int)) > 1,
            bytes <= 5,
        decreases pos - k,
    {
        proof {
            assert(t@.take(k + 1).drop_last() =~= t@.take(k as int));
            lemma_utf8_bytes_mono(t@.take(pos as int), k + 1);
            assert(t@.take(pos as int).take(k + 1) =~= t@.take(k + 1));
        }
        bytes = bytes + utf8_len_of(t[k]);
        k = k + 1;
    }
    let digits = sub_vec(t, pos + 1, t.len());
    assert(digits@ =~= t@.skip(pos + 1));
    if bytes <= 1 {
        assert(k == pos);
        return (t.clone(), None);
    }
    if digits.len() == 0 {
        return (t.clone(), None);
    }
    // parse
    let mut value: u64 = 0;
    let mut j: usize = 0;
    let mut ok = true;
    while j < digits.len()
        invariant
            j <= digits@.len(),
            ok ==> all_digits(digits@.take(j as int)) && value == digits_value(digits@.take(j as int))
                && value <= u32::MAX,
            !ok ==> !(all_digits(digits@) && digits_value(digits@) <= u32::MAX),
        decreases digits@.len() - j,
    {
        let c = digits[j];
        proof {
            assert(digits@.take(j + 1).drop_last() =~= digits@.take(j as int));
        }
        if ok {
            if '0' <= c && c <= '9' {
                let d = (c as u32 - 48) as u64;
                let nv = value * 10 + d;
                proof {
                    assert(all_digits(digits@.take(j + 1)));
                }
                if nv > 0xffff_ffff {
                    ok = false;
                    proof {
                        lemma_digits_value_prefix_big(digits@, j + 1);
                    }
                } else {
                    value = nv;
                }
            } else {
                ok = false;
                proof {
                    assert(!all_digits(digits@)) by {
                        assert(digits@[j as int] == c);
                    }
                }
            }
        }
        j = j + 1;
    }
    proof {
        assert(digits@.take(j as int) =~= digits@);
    }
    if ok {
        let head = sub_vec(t, 0, pos);
        assert(head@ =~= t@.take(pos as int));
        (head, Some(value as u32))
    } else {
        (t.clone(), None)
    }
}

proof fn lemma_utf8_bytes_mono(s: Seq<char>, k: int)
    requires
        0 <= k <= s.len(),
    ensures
        utf8_bytes(s.take(k)) <= utf8_bytes(s),
    decreases s.len() - k,
{
    if k < s.len() {
        lemma_utf8_bytes_mono(s, k + 1);
        assert(s.take(k + 1).drop_last() =~= s.take(k));
    } else {
        assert(s.take(k) =~= s);
    }
}

proof fn lemma_digits_value_mono(s: Seq<char>, k: int)
    requires
        0 <= k <= s.len(),
        all_digits(s),
    ensures
        digits_value(s.take(k)) <= digits_value(s),
    decreases s.len() - k,
{
    if k < s.len() {
        lemma_digits_value_mono(s, k + 1);
        assert(s.take(k + 1).drop_last() =~= s.take(k));
        assert(all_digits(s.take(k + 1)));
    } else {
        assert(s.take(k) =~= s);
    }
}

proof fn lemma_digits_value_prefix_big(s: Seq<char>, k: int)
    requires
        0 <= k <= s.len(),
        all_digits(s.take(k)),
        digits_value(s.take(k)) > u32::MAX,
    ensures
        !(all_digits(s) && digits_value(s) <= u32::MAX),
{
    if all_digits(s) {
        lemma_digits_value_mono(s, k);
    }
}

/// Classifies a token (see [`spec_classify`]).
fn classify_chars(token: &Vec<char>) -> (r: (usize, usize, u8, Vec<char>, Option<u32>))
    ensures
        r.2 == 0 ==> spec_classify(token@) is NoLink,
        r.2 == 1 ==> spec_classify(token@) == LinkClass::Url(r.0 as int, r.1 as int, r.3@),
        r.2 == 2 ==> spec_classify(token@) == LinkClass::Path(r.3@, r.4) && r.0 == 0 && r.1 == r.3@.len(),
        r.2 <= 2,
        r.0 + r.1 <= token@.len(),
{
    let https = vec!['h', 't', 't', 'p', 's', ':', '/', '/'];
    let http = vec!['h', 't', 't', 'p', ':', '/', '/'];
    proof {
        assert(https@ =~= seq!['h', 't', 't', 'p', 's', ':', '/', '/']);
        assert(http@ =~= seq!['h', 't', 't', 'p', ':', '/', '/']);
    }
    let found = match find_chars(token, &https) {
        Some(p) => Some(p),
        None => find_chars(token, &http),
    };
    if let Some(p) = found {
        proof {
            lemma_find_from_range(token@, https@, 0);
            lemma_find_from_range(token@, http@, 0);
        }
        let rest = sub_vec(token, p, token.len());
        assert(rest@ =~= token@.skip(p as int));
        let mut a: usize = 0;
        while a < rest.len() && (rest[a] as u32) < 128
            invariant
                a <= rest@.len(),
                forall|j: int| 0 <= j < a ==> (rest@[j] as u32) < 128,
            decreases rest@.len() - a,
        {
            a = a + 1;
        }
        proof {
            lemma_ascii_prefix(rest@, a as int);
        }
        let mut e = a;
        while e > 0 && is_url_trail_char(rest[e - 1])
            invariant
                e <= a <= rest@.len(),
                trim_url_trail(rest@.take(a as int)) == trim_url_trail(rest@.take(e as int)),
            decreases e,
        {
            proof {
                assert(rest@.take(e as int).drop_last() =~= rest@.take(e - 1));
            }
            e = e - 1;
        }
        let t = sub_vec(&rest, 0, e);
        proof {
            assert(t@ =~= rest@.take(e as int));
            assert(trim_url_trail(rest@.take(e as int)) == rest@.take(e as int));
        }
        if t.len() >= 3 && t[t.len() - 3] == ':' && t[t.len() - 2] == '/' && t[t.len() - 1] == '/' {
            proof {
                assert(t@.subrange(t@.len() - 3, t@.len() as int) =~= seq![':', '/', '/']);
            }
            return (0, 0, 0, Vec::new(), None);
        }
        proof {
            if t@.len() >= 3 {
                assert(t@.subrange(t@.len() - 3, t@.len() as int) != seq![':', '/', '/']) by {
                    let w = t@.subrange(t@.len() - 3, t@.len() as int);
                    assert(w[0] == t@[t@.len() - 3]);
                    assert(w[1] == t@[t@.len() - 2]);
                    assert(w[2] == t@[t@.len() - 1]);
                }
            }
        }
        let n = t.len();
        return (p, n, 1, t, None);
    }
    if token.len() >= 7 && token[0] == 'f' && token[1] == 'i' && token[2] == 'l' && token[3] == 'e'
        && token[4] == ':' && token[5] == '/' && token[6] == '/' {
        proof {
            assert(token@.take(7) =~= seq!['f', 'i', 'l', 'e', ':', '/', '/']);
        }
        return (0, token.len(), 1, token.clone(), None);
    }
    proof {
        if token@.len() >= 7 {
            assert(token@.take(7) != seq!['f', 'i', 'l', 'e', ':', '/', '/']) by {
                let w = token@.take(7);
                assert(w[0] == token@[0] && w[1] == token@[1] && w[2] == token@[2] && w[3] == token@[3]
                    && w[4] == token@[4] && w[5] == token@[5] && w[6] == token@[6]);
            }
        }
    }
    if !has_sep_chars(token) {
        return (0, 0, 0, Vec::new(), None);
    }
    let mut e = token.len();
    assert(token@.take(e as int) =~= token@);
    while e > 0 && is_path_trail_char(token[e - 1])
        invariant
            e <= token@.len(),
            trim_path_trail(token@) == trim_path_trail(token@.take(e as int)),
        decreases e,
    {
        proof {
            assert(token@.take(e as int).drop_last() =~= token@.take(e - 1));
            if e == token@.len() {
                assert(token@.take(e as int) =~= token@);
            }
        }
        e = e - 1;
    }
    proof {
        if e == token@.len() {
            assert(token@.take(e as int) =~= token@);
        }
    }
    if e == 0 {
        return (0, 0, 0, Vec::new(), None);
    }
    let t0 = sub_vec(token, 0, e);
    assert(t0@ =~= token@.take(e as int));
    let (t, line) = split_line_suffix_exec(&t0);
    if t.len() == 0 || !has_sep_chars(&t) {
        return (0, 0, 0, Vec::new(), None);
    }
    proof {
        lemma_trim_path_prefix(token@);
        assert(t@.len() <= t0@.len());
    }
    let n = t.len();
    (0, n, 2, t, line)
}

/// What classifying a token gives: a URL at `[off, off + len)` of the
/// token, or a path candidate of the token's first `t.len()` characters
/// that becomes a link only when `resolve_path` accepts it.
pub open spec fn classified<F: Fn(&str) -> Option<String>>(token: Seq<char>, resolve_path: &F, r: Option<(usize, usize, LinkTarget)>) -> bool {
    match spec_classify(token) {
        LinkClass::NoLink => r is None,
        LinkClass::Url(off, len, u) => r matches Some((a, b, LinkTarget::Url(s)))
            && a == off && b == len && s@ == u,
        LinkClass::Path(t, line) => match r {
            None => exists|p: &str| p@ == t && #[trigger] resolve_path.ensures((p,), None),
            Some((a, b, target)) => a == 0 && b == t.len()
                && (target matches LinkTarget::File { path, line: l } && l == line
                    && exists|p: &str| p@ == t && #[trigger] resolve_path.ensures((p,), Some(path))),
        },
    }
}

/// Trimming trailing punctuation keeps a first character that is not such
/// punctuation.
proof fn lemma_trim_url_keeps_head(s: Seq<char>)
    requires
        s.len() > 0,
        !is_url_trail(s[0]),
    ensures
        trim_url_trail(s).len() > 0,
    decreases s.len(),
{
    if s.len() > 1 && is_url_trail(s.last()) {
        assert(s.drop_last()[0] == s[0]);
        lemma_trim_url_keeps_head(s.drop_last());
    }
}

/// The ASCII prefix lies in the text.
proof fn lemma_ascii_prefix_le(s: Seq<char>)
    ensures
        ascii_prefix_len(s) <= s.len(),
    decreases s.len(),
{
    if s.len() > 0 && (s[0] as u32) < 128 {
        lemma_ascii_prefix_le(s.drop_first());
    }
}

/// A link found in a token is never empty.
proof fn lemma_classify_nonempty(token: Seq<char>)
    ensures
        spec_classify(token) matches LinkClass::Url(off, len, _u) ==> len > 0,
        spec_classify(token) matches LinkClass::Path(t, _l) ==> t.len() > 0,
{
    let https = seq!['h', 't', 't', 'p', 's', ':', '/', '/'];
    let http = seq!['h', 't', 't', 'p', ':', '/', '/'];
    lemma_find_from_range(token, https, 0);
    lemma_find_from_range(token, http, 0);
    let found = if find_first(token, https) is Some { find_first(token, https) } else { find_first(token, http) };
    if found is Some {
        let p = found->0;
        let pat = if find_first(token, https) is Some { https } else { http };
        assert(token.subrange(p, p + pat.len()) == pat);
        assert(token.subrange(p, p + pat.len())[0] == token[p]);
        let rest = token.skip(p);
        assert(rest[0] == 'h');
        assert(ascii_prefix_len(rest) >= 1);
        lemma_ascii_prefix_le(rest);
        let x = rest.take(ascii_prefix_len(rest) as int);
        assert(x[0] == 'h');
        lemma_trim_url_keeps_head(x);
    }
}

/// Classifies a token: a URL found anywhere in it (`https://`, `http://`;
/// cut at the first non-ASCII character, closing punctuation trimmed), a
/// `file://` URI, or a path with a separator and an optional `:line`
/// suffix that `resolve_path` accepts. Returns the link's character offset
/// and length in the token and its target.
pub fn classify<F: Fn(&str) -> Option<String>>(token: &str, resolve_path: &F) -> (r: Option<(usize, usize, LinkTarget)>)
    requires
        forall|p: &str| #[trigger] resolve_path.requires((p,)),
    ensures
        classified(token@, resolve_path, r),
        r matches Some((a, b, _t)) ==> a + b <= token@.len() && b > 0,
{
    proof {
        lemma_classify_nonempty(token@);
    }
    let tv = chars_of(token);
    let (off, len, kind, t, line) = classify_chars(&tv);
    if kind == 0 {
        return None;
    }
    if kind == 1 {
        let s = string_of(t.as_slice());
        return Some((off, len, LinkTarget::Url(s)));
    }
    let cand = string_of(t.as_slice());
    let cs = cand.as_str();
    let res = resolve_path(cs);
    proof {
        assert(cs@ == t@);
    }
    match res {
        Some(path) => {
            proof {
                assert(resolve_path.ensures((cs,), Some(path)));
                assert(exists|p: &str| p@ == t@ && #[trigger] resolve_path.ensures((p,), Some(path)));
                assert(spec_classify(tv@) == LinkClass::Path(t@, line));
                assert(len == t@.len());
            }
            let ghost gp = path;
            let out = Some((0, len, LinkTarget::File { path, line }));
            proof {
                assert(out matches Some((a, b, target)) && a == 0 && b == t@.len());
                assert(out matches Some((a, b, target)) && (target matches LinkTarget::File { path, line: l } && l == line));
                assert(out matches Some((a, b, target)) && (target matches LinkTarget::File { path, line: l } && path == gp));
            }
            out
        },
        None => {
            proof {
                assert(exists|p: &str| p@ == t@ && #[trigger] resolve_path.ensures((p,), None));
            }
            None
        },
    }
}

/// The run of non-white-space characters that ends at `i`.
proof fn lemma_token_start(chars: Seq<char>, i: int)
    requires
        0 <= i <= chars.len(),
    ensures
        0 <= token_start(chars, i) <= i,
        forall|j: int| token_start(chars, i) <= j < i ==> !spec_is_whitespace(#[trigger] chars[j]),
        token_start(chars, i) == 0 || spec_is_whitespace(chars[token_start(chars, i) - 1]),
    decreases i,
{
    if !(i <= 0 || i > chars.len() || spec_is_whitespace(chars[i - 1])) {
        lemma_token_start(chars, i - 1);
    }
}

/// The run of non-white-space characters that starts at `i`.
proof fn lemma_token_end(chars: Seq<char>, i: int)
    requires
        0 <= i <= chars.len(),
    ensures
        i <= token_end(chars, i) <= chars.len(),
        forall|j: int| i <= j < token_end(chars, i) ==> !spec_is_whitespace(#[trigger] chars[j]),
        token_end(chars, i) == chars.len() || spec_is_whitespace(chars[token_end(chars, i)]),
    decreases chars.len() - i,
{
    if !(i < 0 || i >= chars.len() || spec_is_whitespace(chars[i])) {
        lemma_token_end(chars, i + 1);
    }
}

/// The token under a column is the whole white-space delimited run that
/// holds the column's character (a column past the end stands for the last
/// character); there is none on an empty line or on white space.
pub proof fn law_token_bounds(chars: Seq<char>, col: int)
    requires
        0 <= col,
    ensures
        token_bounds(chars, col) is None <==> (chars.len() == 0
            || spec_is_whitespace(chars[if col < chars.len() { col } else { chars.len() - 1 }])),
        token_bounds(chars, col) matches Some((c0, c1)) ==> {
            let at = if col < chars.len() { col } else { chars.len() - 1 };
            &&& 0 <= c0 <= at < c1 <= chars.len()
            &&& forall|j: int| c0 <= j < c1 ==> !spec_is_whitespace(#[trigger] chars[j])
            &&& (c0 == 0 || spec_is_whitespace(chars[c0 - 1]))
            &&& (c1 == chars.len() || spec_is_whitespace(chars[c1]))
        },
{
    if chars.len() > 0 {
        let at = if col < chars.len() { col } else { chars.len() - 1 };
        if !spec_is_whitespace(chars[at]) {
            lemma_token_start(chars, at);
            lemma_token_end(chars, at + 1);
        }
    }
}

/// Detects the link under character column `col` of `text`. Returns the
/// character range `[c0, c1)` of the link itself and its target. A path
/// candidate becomes a link only when `resolve_path` accepts it (its result
/// is the path that is opened).
pub fn link_at<F: Fn(&str) -> Option<String>>(text: &str, col: usize, resolve_path: &F) -> (r: Option<(usize, usize, LinkTarget)>)
    requires
        forall|p: &str| #[trigger] resolve_path.requires((p,)),
    ensures
        match token_bounds(text@, col as int) {
            None => r is None,
            Some((c0, c1)) => exists|cr: Option<(usize, usize, LinkTarget)>| classified(text@.subrange(c0, c1), resolve_path, cr)
                && #[trigger] shifted(cr, c0) == r,
        },
        r matches Some((a, b, _t)) ==> (token_bounds(text@, col as int) matches Some((c0, c1)) && c0 <= a < b <= c1),
        r matches Some((a, b, _t)) ==> forall|j: int| a <= j < b ==> !spec_is_whitespace(#[trigger] text@[j]),
{
    proof {
        law_token_bounds(text@, col as int);
    }
    let chars = chars_of(text);
    if chars.len() == 0 {
        return None;
    }
    let at = if col < chars.len() { col } else { chars.len() - 1 };
    if is_whitespace(chars[at]) {
        return None;
    }
    let mut c0 = at;
    while c0 > 0 && !is_whitespace(chars[c0 - 1])
        invariant
            c0 <= at < chars@.len(),
            token_start(chars@, at as int) == token_start(chars@, c0 as int),
        decreases c0,
    {
        c0 = c0 - 1;
    }
    let mut c1 = at + 1;
    while c1 < chars.len() && !is_whitespace(chars[c1])
        invariant
            at < c1 <= chars@.len(),
            token_end(chars@, at + 1) == token_end(chars@, c1 as int),
        decreases chars@.len() - c1,
    {
        c1 = c1 + 1;
    }
    let token = sub_vec(&chars, c0, c1);
    proof {
        assert(token_start(chars@, c0 as int) == c0);
        assert(token_end(chars@, c1 as int) == c1);
        assert(token_bounds(text@, col as int) == Some((c0 as int, c1 as int)));
    }
    let ts = string_of(token.as_slice());
    let cr = classify(ts.as_str(), resolve_path);
    let r = match cr {
        Some((off, len, target)) => Some((c0 + off, c0 + off + len, target)),
        None => None,
    };
    proof {
        assert(ts@ == text@.subrange(c0 as int, c1 as int));
        assert(classified(text@.subrange(c0 as int, c1 as int), resolve_path, cr));
        assert(shifted(cr, c0 as int) == r);
        assert(exists|x: Option<(usize, usize, LinkTarget)>| classified(text@.subrange(c0 as int, c1 as int), resolve_path, x)
            && #[trigger] shifted(x, c0 as int) == r);
        assert(match token_bounds(text@, col as int) {
            None => r is None,
            Some((a, b)) => exists|x: Option<(usize, usize, LinkTarget)>| classified(text@.subrange(a, b), resolve_path, x)
                && #[trigger] shifted(x, a) == r,
        });
    }
    r
}

/// A classification moved by `c0` characters: offset and length become
/// the range `[c0 + off, c0 + off + len)`.
pub open spec fn shifted(cr: Option<(usize, usize, LinkTarget)>, c0: int) -> Option<(usize, usize, LinkTarget)> {
    match cr {
        Some((off, len, t)) => Some(((c0 + off) as usize, (c0 + off + len) as usize, t)),
        None => None,
    }
}

/// Trimming trailing URL punctuation leaves a prefix that does not end in
/// such punctuation, and everything cut off is such punctuation.
proof fn lemma_trim_url_rest(s: Seq<char>)
    ensures
        trim_url_trail(s).len() <= s.len(),
        trim_url_trail(s) == s.take(trim_url_trail(s).len() as int),
        trim_url_trail(s).len() > 0 ==> !is_url_trail(trim_url_trail(s).last()),
        forall|j: int| trim_url_trail(s).len() <= j < s.len() ==> is_url_trail(#[trigger] s[j]),
    decreases s.len(),
{
    lemma_trim_url_prefix(s);
    if s.len() > 0 && is_url_trail(s.last()) {
        lemma_trim_url_rest(s.drop_last());
        assert forall|j: int| trim_url_trail(s).len() <= j < s.len() implies is_url_trail(#[trigger] s[j]) by {
            if j < s.len() - 1 {
                assert(s[j] == s.drop_last()[j]);
            }
        }
    } else if s.len() > 0 {
        assert(trim_url_trail(s).last() == s.last());
    }
}

/// A web URL found in a token never ends in `.` `,` `;` `:` `!` `?` `)`
/// `"` or `'`: it is the token's text from `http://` or `https://` up to
/// the first non-ASCII character, with every such closing character at its
/// end stripped (`"https://a.b/x",` gives `https://a.b/x`).
pub proof fn law_url_drops_closing_punctuation(token: Seq<char>)
    requires
        find_first(token, seq!['h', 't', 't', 'p', 's', ':', '/', '/']) is Some
            || find_first(token, seq!['h', 't', 't', 'p', ':', '/', '/']) is Some,
    ensures
        spec_classify(token) matches LinkClass::Url(off, len, u) ==> {
            &&& 0 <= off && len > 0 && off + len <= token.len()
            &&& u == token.subrange(off, off + len)
            &&& !(u.last() == '.' || u.last() == ',' || u.last() == ';' || u.last() == ':' || u.last() == '!'
                || u.last() == '?' || u.last() == ')' || u.last() == '"' || u.last() == '\'')
            &&& forall|j: int| off + len <= j < off + ascii_prefix_len(token.skip(off)) ==> {
                let c = #[trigger] token[j];
                c == '.' || c == ',' || c == ';' || c == ':' || c == '!' || c == '?' || c == ')' || c == '"' || c == '\''
            }
        },
{
    let https = seq!['h', 't', 't', 'p', 's', ':', '/', '/'];
    let http = seq!['h', 't', 't', 'p', ':', '/', '/'];
    lemma_find_from_range(token, https, 0);
    lemma_find_from_range(token, http, 0);
    lemma_classify_nonempty(token);
    let found = if find_first(token, https) is Some { find_first(token, https) } else { find_first(token, http) };
    let p = found->0;
    let rest = token.skip(p);
    lemma_ascii_prefix_le(rest);
    let x = rest.take(ascii_prefix_len(rest) as int);
    let t = trim_url_trail(x);
    lemma_trim_url_rest(x);
    match spec_classify(token) {
        LinkClass::Url(off, len, u) => {
            assert(off == p && len == t.len() && u == t);
            assert(t =~= token.subrange(p, p + t.len()));
            assert forall|j: int| off + len <= j < off + ascii_prefix_len(token.skip(off)) implies
                is_url_trail(#[trigger] token[j]) by {
                assert(token[j] == x[j - p]);
            }
        },
        _ => {},
    }
}

} // verus!
