//! Character-level text handling shared by the parser and the pipeline:
//! whitespace trimming, prefix and substring search, decimal numbers,
//! substitution, and conversion between strings and character vectors.

use vstd::prelude::*;

verus! {

// ---------------------------------------------------------------------
// Characters
// ---------------------------------------------------------------------

/// The Unicode `White_Space` property, which `char::is_whitespace` and
/// `str::trim` go by.
pub open spec fn is_ws(c: char) -> bool {
    ||| ('\u{9}' <= c && c <= '\u{d}')
    ||| c == ' '
    ||| c == '\u{85}'
    ||| c == '\u{a0}'
    ||| c == '\u{1680}'
    ||| ('\u{2000}' <= c && c <= '\u{200a}')
    ||| c == '\u{2028}'
    ||| c == '\u{2029}'
    ||| c == '\u{202f}'
    ||| c == '\u{205f}'
    ||| c == '\u{3000}'
}

pub fn is_whitespace(c: char) -> (r: bool)
    ensures
        r == is_ws(c),
{
    ('\u{9}' <= c && c <= '\u{d}') || c == ' ' || c == '\u{85}' || c == '\u{a0}' || c
        == '\u{1680}' || ('\u{2000}' <= c && c <= '\u{200a}') || c == '\u{2028}' || c
        == '\u{2029}' || c == '\u{202f}' || c == '\u{205f}' || c == '\u{3000}'
}

pub open spec fn is_ascii_digit(c: char) -> bool {
    '0' <= c && c <= '9'
}

pub open spec fn is_ascii_lower_alnum(c: char) -> bool {
    ('a' <= c && c <= 'z') || is_ascii_digit(c)
}

/// `char::to_ascii_lowercase`.
pub open spec fn ascii_lower(c: char) -> char {
    if 'A' <= c && c <= 'Z' {
        ((c as u32) + 32) as char
    } else {
        c
    }
}

pub fn lower_ascii(c: char) -> (r: char)
    ensures
        r == ascii_lower(c),
{
    if 'A' <= c && c <= 'Z' {
        ((c as u8) + 32) as char
    } else {
        c
    }
}

/// Whether `c` is alphabetic or numeric in Unicode, as `char::is_alphanumeric`
/// tells.
pub uninterp spec fn char_alphanumeric(c: char) -> bool;

/// An ASCII letter, in either case, or an ASCII digit.
pub open spec fn is_ascii_alnum(c: char) -> bool {
    ('a' <= c && c <= 'z') || ('A' <= c && c <= 'Z') || is_ascii_digit(c)
}

/// `char::is_alphanumeric`. Its result is named `char_alphanumeric`; the
/// contract states it for ASCII, where the alphanumeric characters are the
/// letters and the digits, and states that no whitespace character is
/// alphanumeric (Unicode's `White_Space` characters are separators and
/// controls, neither alphabetic nor numeric). For other characters it rests
/// on Unicode's tables, which are not stated here.
#[verifier::external_body]
pub(crate) fn is_alphanumeric(c: char) -> (r: bool)
    ensures
        r == char_alphanumeric(c),
        (c as u32) < 128 ==> (r <==> is_ascii_alnum(c)),
        is_ws(c) ==> !r,
{
    c.is_alphanumeric()
}

/// Every character of `s` is ASCII.
pub open spec fn is_ascii_text(s: Seq<char>) -> bool {
    forall|i: int| 0 <= i < s.len() ==> (#[trigger] s[i] as u32) < 128
}

/// The lower case of `s` by Unicode's case mapping, as `str::to_lowercase`
/// gives it.
pub uninterp spec fn unicode_lowercase(s: Seq<char>) -> Seq<char>;

/// `str::to_lowercase`. Its result is named `unicode_lowercase`; the
/// contract states it for ASCII text, whose lower case is its ASCII lower
/// case. For other text it rests on Unicode's case tables, which are not
/// stated here.
#[verifier::external_body]
pub(crate) fn to_lowercase(s: &str) -> (r: String)
    ensures
        r@ == unicode_lowercase(s@),
        is_ascii_text(s@) ==> r@ == s@.map_values(|c: char| ascii_lower(c)),
{
    s.to_lowercase()
}

// ---------------------------------------------------------------------
// Strings and character vectors
// ---------------------------------------------------------------------

/// The characters of `s`, in order.
pub fn chars_of(s: &str) -> (r: Vec<char>)
    ensures
        r@ == s@,
{
    let mut out: Vec<char> = Vec::new();
    for c in it: s.chars()
        invariant
            out@ == it.seq().take(it.index() as int),
            it.seq() == s@,
    {
        out.push(c);
    }
    out
}

/// `String::push`.
#[verifier::external_body]
fn push_char(s: &mut String, c: char)
    ensures
        final(s)@ == old(s)@.push(c),
{
    s.push(c);
}

/// The string made of the characters of `v`, in order.
pub fn string_of(v: &Vec<char>) -> (r: String)
    ensures
        r@ == v@,
{
    let mut out = String::new();
    let mut i: usize = 0;
    while i < v.len()
        invariant
            i <= v.len(),
            out@ == v@.take(i as int),
        decreases v.len() - i,
    {
        push_char(&mut out, v[i]);
        i = i + 1;
        assert(v@.take(i as int) == v@.take((i - 1) as int).push(v@[i - 1]));
    }
    assert(v@.take(v.len() as int) == v@);
    out
}

pub open spec fn str_views(v: Seq<String>) -> Seq<Seq<char>> {
    v.map_values(|s: String| s@)
}

pub open spec fn char_views(v: Seq<Vec<char>>) -> Seq<Seq<char>> {
    v.map_values(|s: Vec<char>| s@)
}

pub fn strings_of(v: &Vec<Vec<char>>) -> (r: Vec<String>)
    ensures
        str_views(r@) == char_views(v@),
{
    let mut out: Vec<String> = Vec::new();
    let mut i: usize = 0;
    while i < v.len()
        invariant
            i <= v.len(),
            out@.len() == i,
            str_views(out@) == char_views(v@).take(i as int),
        decreases v.len() - i,
    {
        let s = string_of(&v[i]);
        let ghost prev = out@;
        out.push(s);
        i = i + 1;
        assert forall|k: int| 0 <= k < i implies #[trigger] str_views(out@)[k] == char_views(
            v@,
        ).take(i as int)[k] by {
            if k < i - 1 {
                assert(out@[k] == prev[k]);
                assert(str_views(prev)[k] == char_views(v@).take(i - 1)[k]);
            }
        }
        assert(str_views(out@) =~= char_views(v@).take(i as int));
    }
    assert(char_views(v@).take(v.len() as int) == char_views(v@));
    out
}

/// `v@.subrange(lo, hi)` as a new vector.
pub fn sub_chars(v: &Vec<char>, lo: usize, hi: usize) -> (r: Vec<char>)
    requires
        lo <= hi <= v.len(),
    ensures
        r@ == v@.subrange(lo as int, hi as int),
{
    let mut out: Vec<char> = Vec::new();
    let mut i: usize = lo;
    while i < hi
        invariant
            lo <= i <= hi <= v.len(),
            out@ == v@.subrange(lo as int, i as int),
        decreases hi - i,
    {
        out.push(v[i]);
        i = i + 1;
        assert(out@ == v@.subrange(lo as int, i as int));
    }
    out
}

/// Appends the characters of `src` to `dst`.
pub fn append_chars(dst: &mut Vec<char>, src: &Vec<char>)
    ensures
        final(dst)@ == old(dst)@ + src@,
{
    let mut i: usize = 0;
    while i < src.len()
        invariant
            i <= src.len(),
            dst@ == old(dst)@ + src@.take(i as int),
        decreases src.len() - i,
    {
        dst.push(src[i]);
        i = i + 1;
        assert(dst@ == old(dst)@ + src@.take(i as int));
    }
    assert(src@.take(src.len() as int) == src@);
}

// ---------------------------------------------------------------------
// Trimming
// ---------------------------------------------------------------------

/// `s` without its leading whitespace.
pub open spec fn trim_start(s: Seq<char>) -> Seq<char>
    decreases s.len(),
{
    if s.len() > 0 && is_ws(s[0]) {
        trim_start(s.drop_first())
    } else {
        s
    }
}

/// `s` without its trailing whitespace.
pub open spec fn trim_end(s: Seq<char>) -> Seq<char>
    decreases s.len(),
{
    if s.len() > 0 && is_ws(s.last()) {
        trim_end(s.drop_last())
    } else {
        s
    }
}

/// `str::trim`: `s` without leading and trailing whitespace.
pub open spec fn trim(s: Seq<char>) -> Seq<char> {
    trim_end(trim_start(s))
}

/// The bounds of `trim(v@[lo..hi])` inside `v`.
pub fn trim_bounds(v: &Vec<char>, lo: usize, hi: usize) -> (r: (usize, usize))
    requires
        lo <= hi <= v.len(),
    ensures
        lo <= r.0 <= r.1 <= hi,
        v@.subrange(r.0 as int, r.1 as int) == trim(v@.subrange(lo as int, hi as int)),
{
    let mut a = lo;
    while a < hi && is_whitespace(v[a])
        invariant
            lo <= a <= hi <= v.len(),
            trim_start(v@.subrange(lo as int, hi as int)) == trim_start(
                v@.subrange(a as int, hi as int),
            ),
        decreases hi - a,
    {
        assert(v@.subrange(a as int, hi as int).drop_first() == v@.subrange(a + 1, hi as int));
        a = a + 1;
    }
    assert(trim_start(v@.subrange(lo as int, hi as int)) == v@.subrange(a as int, hi as int));
    let mut b = hi;
    while b > a && is_whitespace(v[b - 1])
        invariant
            lo <= a <= b <= hi <= v.len(),
            trim_end(v@.subrange(a as int, hi as int)) == trim_end(v@.subrange(a as int, b as int)),
        decreases b - a,
    {
        assert(v@.subrange(a as int, b as int).drop_last() == v@.subrange(a as int, b - 1));
        b = b - 1;
    }
    (a, b)
}

pub fn trim_chars(v: &Vec<char>) -> (r: Vec<char>)
    ensures
        r@ == trim(v@),
{
    let (a, b) = trim_bounds(v, 0, v.len());
    assert(v@.subrange(0, v.len() as int) == v@);
    sub_chars(v, a, b)
}

/// `s` without leading underscores.
pub open spec fn strip_us_start(s: Seq<char>) -> Seq<char>
    decreases s.len(),
{
    if s.len() > 0 && s[0] == '_' {
        strip_us_start(s.drop_first())
    } else {
        s
    }
}

/// `s` without trailing underscores.
pub open spec fn strip_us_end(s: Seq<char>) -> Seq<char>
    decreases s.len(),
{
    if s.len() > 0 && s.last() == '_' {
        strip_us_end(s.drop_last())
    } else {
        s
    }
}

/// `str::trim_matches('_')`.
pub open spec fn strip_us(s: Seq<char>) -> Seq<char> {
    strip_us_end(strip_us_start(s))
}

/// `s` with every run of underscores cut to one underscore.
pub open spec fn collapse_us(s: Seq<char>) -> Seq<char>
    decreases s.len(),
{
    if s.len() == 0 {
        seq![]
    } else {
        let p = collapse_us(s.drop_last());
        if s.last() == '_' && p.len() > 0 && p.last() == '_' {
            p
        } else {
            p.push(s.last())
        }
    }
}

/// Collapsing underscores keeps every character in a class that holds
/// the underscore and every character of the text.
pub proof fn lemma_collapse_keeps_class(s: Seq<char>, class: spec_fn(char) -> bool)
    requires
        class('_'),
        forall|i: int| 0 <= i < s.len() ==> class(#[trigger] s[i]),
    ensures
        forall|i: int| 0 <= i < collapse_us(s).len() ==> class(#[trigger] collapse_us(s)[i]),
    decreases s.len(),
{
    if s.len() > 0 {
        let t = s.drop_last();
        assert forall|i: int| 0 <= i < t.len() implies class(#[trigger] t[i]) by {
            assert(t[i] == s[i]);
        }
        lemma_collapse_keeps_class(t, class);
        let p = collapse_us(t);
        let r = collapse_us(s);
        assert forall|i: int| 0 <= i < r.len() implies class(#[trigger] r[i]) by {
            if i < p.len() {
                assert(r[i] == p[i]);
            } else {
                assert(r[i] == s.last());
            }
        }
    }
}

pub fn strip_underscores(v: &Vec<char>) -> (r: Vec<char>)
    ensures
        r@ == strip_us(v@),
{
    let hi = v.len();
    let mut a: usize = 0;
    assert(v@.subrange(0, hi as int) == v@);
    while a < hi && v[a] == '_'
        invariant
            a <= hi == v.len(),
            strip_us_start(v@) == strip_us_start(v@.subrange(a as int, hi as int)),
        decreases hi - a,
    {
        assert(v@.subrange(a as int, hi as int).drop_first() == v@.subrange(a + 1, hi as int));
        a = a + 1;
    }
    let mut b = hi;
    while b > a && v[b - 1] == '_'
        invariant
            a <= b <= hi == v.len(),
            strip_us_end(v@.subrange(a as int, hi as int)) == strip_us_end(
                v@.subrange(a as int, b as int),
            ),
        decreases b - a,
    {
        assert(v@.subrange(a as int, b as int).drop_last() == v@.subrange(a as int, b - 1));
        b = b - 1;
    }
    sub_chars(v, a, b)
}


// ---------------------------------------------------------------------
// Prefixes and substring search
// ---------------------------------------------------------------------

/// `str::starts_with`.
pub open spec fn starts_with(s: Seq<char>, p: Seq<char>) -> bool {
    p.len() <= s.len() && s.take(p.len() as int) == p
}

/// `p` stands in `s` at position `i`.
pub open spec fn occurs_at(s: Seq<char>, p: Seq<char>, i: int) -> bool {
    0 <= i && i + p.len() <= s.len() && s.subrange(i, i + p.len()) == p
}

pub fn matches_at(s: &Vec<char>, p: &Vec<char>, i: usize) -> (r: bool)
    ensures
        r == occurs_at(s@, p@, i as int),
{
    if i > s.len() || p.len() > s.len() - i {
        return false;
    }
    let mut k: usize = 0;
    while k < p.len()
        invariant
            i + p.len() <= s.len(),
            k <= p.len(),
            forall|j: int| 0 <= j < k ==> s@[i + j] == p@[j],
        decreases p.len() - k,
    {
        if s[i + k] != p[k] {
            assert(s@.subrange(i as int, i + p.len())[k as int] != p@[k as int]);
            return false;
        }
        k = k + 1;
    }
    assert(s@.subrange(i as int, i + p.len()) == p@);
    true
}

pub fn has_prefix(s: &Vec<char>, p: &Vec<char>) -> (r: bool)
    ensures
        r == starts_with(s@, p@),
{
    let r = matches_at(s, p, 0);
    assert(s@.subrange(0, p@.len() as int) == s@.take(p@.len() as int));
    r
}

/// The first position at or after `i` where `p` stands in `s`.
pub open spec fn find_from(s: Seq<char>, p: Seq<char>, i: nat) -> Option<nat>
    decreases s.len() - i,
{
    if i >= s.len() || i + p.len() > s.len() {
        None
    } else if occurs_at(s, p, i as int) {
        Some(i)
    } else {
        find_from(s, p, i + 1)
    }
}

/// The first position where `p` stands in `s` (`str::find`, for a
/// non-empty `p`).
pub open spec fn find(s: Seq<char>, p: Seq<char>) -> Option<nat> {
    find_from(s, p, 0)
}

pub fn find_chars(s: &Vec<char>, p: &Vec<char>) -> (r: Option<usize>)
    ensures
        match r {
            Some(i) => find(s@, p@) == Some(i as nat) && occurs_at(s@, p@, i as int),
            None => find(s@, p@) is None,
        },
{
    let mut i: usize = 0;
    while i < s.len()
        invariant
            i <= s.len(),
            find(s@, p@) == find_from(s@, p@, i as nat),
        decreases s.len() - i,
    {
        if p.len() > s.len() - i {
            return None;
        }
        if matches_at(s, p, i) {
            return Some(i);
        }
        i = i + 1;
    }
    None
}

// ---------------------------------------------------------------------
// Decimal numbers
// ---------------------------------------------------------------------

/// The decimal digit character for `d < 10`.
pub open spec fn digit_char(d: nat) -> char {
    (d + 48) as char
}

/// The value of an ASCII digit character.
pub open spec fn digit_value(c: char) -> nat {
    ((c as u32) - 48) as nat
}

pub open spec fn all_digits(s: Seq<char>) -> bool {
    forall|i: int| 0 <= i < s.len() ==> is_ascii_digit(#[trigger] s[i])
}

/// The number that the decimal digits `s` spell.
pub open spec fn digits_value(s: Seq<char>) -> nat
    decreases s.len(),
{
    if s.len() == 0 {
        0
    } else {
        digits_value(s.drop_last()) * 10 + digit_value(s.last())
    }
}

/// `usize::from_str`: an optional `+`, then one or more ASCII digits whose
/// value fits in a `usize`.
pub open spec fn parse_usize(s: Seq<char>) -> Option<nat> {
    let d = if s.len() > 0 && s[0] == '+' {
        s.drop_first()
    } else {
        s
    };
    if d.len() > 0 && all_digits(d) && digits_value(d) <= usize::MAX {
        Some(digits_value(d))
    } else {
        None
    }
}

proof fn lemma_digits_value_prefix(s: Seq<char>, k: int)
    requires
        all_digits(s),
        0 <= k <= s.len(),
    ensures
        digits_value(s.take(k)) <= digits_value(s),
    decreases s.len(),
{
    if k < s.len() {
        assert(all_digits(s.drop_last()));
        lemma_digits_value_prefix(s.drop_last(), k);
        assert(s.drop_last().take(k) == s.take(k));
    } else {
        assert(s.take(k) == s);
    }
}

pub fn parse_usize_chars(s: &Vec<char>) -> (r: Option<usize>)
    ensures
        match r {
            Some(v) => parse_usize(s@) == Some(v as nat),
            None => parse_usize(s@) is None,
        },
{
    let start: usize = if s.len() > 0 && s[0] == '+' {
        1
    } else {
        0
    };
    let ghost d = if s@.len() > 0 && s@[0] == '+' {
        s@.drop_first()
    } else {
        s@
    };
    assert(d == s@.skip(start as int));
    if start >= s.len() {
        return None;
    }
    let mut k = start;
    while k < s.len()
        invariant
            start <= k <= s.len(),
            d == s@.skip(start as int),
            d == (if s@.len() > 0 && s@[0] == '+' {
                s@.drop_first()
            } else {
                s@
            }),
            forall|j: int| start <= j < k ==> is_ascii_digit(#[trigger] s@[j]),
        decreases s.len() - k,
    {
        if !('0' <= s[k] && s[k] <= '9') {
            assert(d[k - start] == s@[k as int]);
            assert(!is_ascii_digit(d[k - start]));
            return None;
        }
        k = k + 1;
    }
    assert forall|j: int| 0 <= j < d.len() implies is_ascii_digit(#[trigger] d[j]) by {
        assert(d[j] == s@[j + start]);
    }
    assert(all_digits(d));
    let mut value: usize = 0;
    let mut k = start;
    while k < s.len()
        invariant
            start <= k <= s.len(),
            d == s@.skip(start as int),
            d == (if s@.len() > 0 && s@[0] == '+' {
                s@.drop_first()
            } else {
                s@
            }),
            all_digits(d),
            value as nat == digits_value(d.take(k - start)),
        decreases s.len() - k,
    {
        let c = s[k];
        assert(d[k - start] == c);
        assert(is_ascii_digit(c));
        let dv = (c as u32 - 48) as usize;
        assert(d.take(k - start + 1).drop_last() == d.take(k - start));
        assert(d.take(k - start + 1).last() == c);
        assert(digits_value(d.take(k - start + 1)) == value * 10 + dv);
        match value.checked_mul(10) {
            Some(m) => match m.checked_add(dv) {
                Some(n) => {
                    value = n;
                },
                None => {
                    proof {
                        lemma_digits_value_prefix(d, k - start + 1);
                    }
                    return None;
                },
            },
            None => {
                proof {
                    lemma_digits_value_prefix(d, k - start + 1);
                }
                return None;
            },
        }
        k = k + 1;
    }
    assert(d.take(s.len() - start) == d);
    Some(value)
}

/// `n` in decimal, without leading zeros (`u64::to_string`).
pub open spec fn dec(n: nat) -> Seq<char>
    decreases n,
{
    if n < 10 {
        seq![digit_char(n)]
    } else {
        dec(n / 10).push(digit_char(n % 10))
    }
}

/// `n` in decimal, padded with zeros to at least two digits (`{:02}`).
pub open spec fn dec2(n: nat) -> Seq<char> {
    if n < 10 {
        seq!['0', digit_char(n)]
    } else {
        dec(n)
    }
}

pub fn decimal(n: u64) -> (r: Vec<char>)
    ensures
        r@ == dec(n as nat),
    decreases n,
{
    let d = ((n % 10) as u8 + 48) as char;
    if n < 10 {
        vec![d]
    } else {
        let mut v = decimal(n / 10);
        v.push(d);
        v
    }
}

pub fn decimal2(n: u64) -> (r: Vec<char>)
    ensures
        r@ == dec2(n as nat),
{
    if n < 10 {
        let d = (n as u8 + 48) as char;
        vec!['0', d]
    } else {
        decimal(n)
    }
}


// ---------------------------------------------------------------------
// Substitution and paths
// ---------------------------------------------------------------------

/// `str::replace` for a non-empty pattern: every occurrence of `pat`,
/// found from left to right without overlap, replaced by `rep`.
pub open spec fn replace_all(s: Seq<char>, pat: Seq<char>, rep: Seq<char>) -> Seq<char>
    decreases s.len(),
{
    if s.len() == 0 {
        seq![]
    } else if pat.len() > 0 && starts_with(s, pat) {
        rep + replace_all(s.skip(pat.len() as int), pat, rep)
    } else {
        seq![s[0]] + replace_all(s.drop_first(), pat, rep)
    }
}

pub fn replace_chars(s: &Vec<char>, pat: &Vec<char>, rep: &Vec<char>) -> (r: Vec<char>)
    requires
        pat.len() > 0,
    ensures
        r@ == replace_all(s@, pat@, rep@),
{
    let mut out: Vec<char> = Vec::new();
    let mut i: usize = 0;
    assert(s@.skip(0) == s@);
    while i < s.len()
        invariant
            i <= s.len(),
            pat.len() > 0,
            replace_all(s@, pat@, rep@) == out@ + replace_all(s@.skip(i as int), pat@, rep@),
        decreases s.len() - i,
    {
        let ghost t = s@.skip(i as int);
        assert(t.len() > 0);
        assert(t[0] == s@[i as int]);
        if matches_at(s, pat, i) {
            assert(t.take(pat@.len() as int) == s@.subrange(i as int, i + pat@.len()));
            assert(t.skip(pat@.len() as int) == s@.skip(i + pat@.len()));
            let ghost before = out@;
            append_chars(&mut out, rep);
            assert(before + (rep@ + replace_all(t.skip(pat@.len() as int), pat@, rep@)) == out@
                + replace_all(s@.skip(i + pat@.len()), pat@, rep@));
            i = i + pat.len();
        } else {
            assert(pat@.len() <= t.len() ==> t.take(pat@.len() as int) == s@.subrange(
                i as int,
                i + pat@.len(),
            ));
            assert(t.drop_first() == s@.skip(i + 1));
            let ghost before = out@;
            out.push(s[i]);
            assert(before + (seq![s@[i as int]] + replace_all(t.drop_first(), pat@, rep@))
                == out@ + replace_all(s@.skip(i + 1), pat@, rep@));
            i = i + 1;
        }
    }
    assert(s@.skip(s.len() as int) == Seq::<char>::empty());
    assert(out@ + Seq::<char>::empty() == out@);
    out
}

/// `Path::join` of a relative file name onto a directory, with `/` as
/// the separator: the name itself under an empty directory, else the
/// directory and the name with one separator between them.
pub open spec fn join_path(dir: Seq<char>, name: Seq<char>) -> Seq<char> {
    if dir.len() == 0 || dir.last() == '/' {
        dir + name
    } else {
        dir + seq!['/'] + name
    }
}

pub fn join_path_chars(dir: &Vec<char>, name: &Vec<char>) -> (r: Vec<char>)
    ensures
        r@ == join_path(dir@, name@),
{
    let mut out: Vec<char> = Vec::new();
    append_chars(&mut out, dir);
    if dir.len() > 0 && dir[dir.len() - 1] != '/' {
        out.push('/');
    }
    append_chars(&mut out, name);
    out
}


// ---------------------------------------------------------------------
// Facts about decimal numbers
// ---------------------------------------------------------------------

/// The decimal digits of `n` are digits and spell `n`.
pub proof fn lemma_dec_value(n: nat)
    ensures
        dec(n).len() > 0,
        all_digits(dec(n)),
        digits_value(dec(n)) == n,
    decreases n,
{
    if n < 10 {
        assert(dec(n) == seq![digit_char(n)]);
        assert(dec(n).drop_last() == Seq::<char>::empty());
        assert(digits_value(Seq::<char>::empty()) == 0);
        assert(dec(n).last() == digit_char(n));
        assert(digit_value(digit_char(n)) == n);
    } else {
        lemma_dec_value(n / 10);
        let d = dec(n);
        assert(d.drop_last() == dec(n / 10));
        assert(d.last() == digit_char(n % 10));
        assert forall|i: int| 0 <= i < d.len() implies is_ascii_digit(#[trigger] d[i]) by {
            if i < d.len() - 1 {
                assert(d[i] == dec(n / 10)[i]);
            }
        }
    }
}

/// The two-digit form of `n` is digits and spells `n`.
pub proof fn lemma_dec2_value(n: nat)
    ensures
        all_digits(dec2(n)),
        digits_value(dec2(n)) == n,
{
    if n < 10 {
        let d = dec2(n);
        assert(d.drop_last() == seq!['0']);
        assert(seq!['0'].drop_last() == Seq::<char>::empty());
        assert(digits_value(Seq::<char>::empty()) == 0);
        assert(seq!['0'].last() == '0');
        assert(digit_value('0') == 0);
        assert(digits_value(seq!['0']) == 0);
        assert(d.last() == digit_char(n));
        assert(digit_value(digit_char(n)) == n);
    } else {
        lemma_dec_value(n);
    }
}

/// Text without whitespace is its own trim.
pub proof fn lemma_trim_no_ws(s: Seq<char>)
    requires
        forall|i: int| 0 <= i < s.len() ==> !is_ws(#[trigger] s[i]),
    ensures
        trim(s) == s,
{
    assert(trim_start(s) == s);
}

/// `usize::from_str` reads back the decimal form of a `usize`.
pub proof fn lemma_parse_dec(n: nat)
    requires
        n <= usize::MAX,
    ensures
        trim(dec(n)) == dec(n),
        parse_usize(dec(n)) == Some(n),
{
    lemma_dec_value(n);
    let d = dec(n);
    assert forall|i: int| 0 <= i < d.len() implies !is_ws(#[trigger] d[i]) by {
        assert(is_ascii_digit(d[i]));
    }
    lemma_trim_no_ws(d);
    assert(is_ascii_digit(d[0]));
}

// ---------------------------------------------------------------------
// Facts about underscores
// ---------------------------------------------------------------------

/// No two underscores stand next to each other in `s`.
pub open spec fn no_double_us(s: Seq<char>) -> bool {
    forall|i: int| 0 <= i < s.len() - 1 ==> !(#[trigger] s[i] == '_' && s[i + 1] == '_')
}

/// Underscores in `s` are single and stand at neither end.
pub open spec fn is_slug_shaped(s: Seq<char>) -> bool {
    &&& no_double_us(s)
    &&& s.len() > 0 ==> s[0] != '_' && s.last() != '_'
}

pub proof fn lemma_collapse_no_double(s: Seq<char>)
    ensures
        no_double_us(collapse_us(s)),
        collapse_us(s).len() <= s.len(),
        s.len() > 0 ==> collapse_us(s).len() > 0 && collapse_us(s).last() == s.last(),
    decreases s.len(),
{
    if s.len() > 0 {
        lemma_collapse_no_double(s.drop_last());
        let p = collapse_us(s.drop_last());
        let r = collapse_us(s);
        if !(s.last() == '_' && p.len() > 0 && p.last() == '_') {
            assert forall|i: int| 0 <= i < r.len() - 1 implies !(#[trigger] r[i] == '_' && r[i
                + 1] == '_') by {
                if i < r.len() - 2 {
                    assert(r[i] == p[i] && r[i + 1] == p[i + 1]);
                }
            }
        }
    }
}

proof fn lemma_strip_start_shape(s: Seq<char>)
    requires
        no_double_us(s),
    ensures
        no_double_us(strip_us_start(s)),
        strip_us_start(s).len() > 0 ==> strip_us_start(s)[0] != '_',
        exists|k: int| 0 <= k <= s.len() && strip_us_start(s) == s.skip(k),
    decreases s.len(),
{
    if s.len() > 0 && s[0] == '_' {
        let t = s.drop_first();
        assert forall|i: int| 0 <= i < t.len() - 1 implies !(#[trigger] t[i] == '_' && t[i + 1]
            == '_') by {
            assert(t[i] == s[i + 1] && t[i + 1] == s[i + 2]);
        }
        lemma_strip_start_shape(t);
        let k = choose|k: int| 0 <= k <= t.len() && strip_us_start(t) == t.skip(k);
        assert(t.skip(k) == s.skip(k + 1));
    } else {
        assert(s.skip(0) == s);
    }
}

proof fn lemma_strip_end_shape(s: Seq<char>)
    requires
        no_double_us(s),
        s.len() > 0 ==> s[0] != '_',
    ensures
        is_slug_shaped(strip_us_end(s)),
        exists|k: int| 0 <= k <= s.len() && strip_us_end(s) == s.take(k),
    decreases s.len(),
{
    if s.len() > 0 && s.last() == '_' {
        let t = s.drop_last();
        assert forall|i: int| 0 <= i < t.len() - 1 implies !(#[trigger] t[i] == '_' && t[i + 1]
            == '_') by {
            assert(t[i] == s[i] && t[i + 1] == s[i + 1]);
        }
        lemma_strip_end_shape(t);
        let k = choose|k: int| 0 <= k <= t.len() && strip_us_end(t) == t.take(k);
        assert(t.take(k) == s.take(k));
    } else {
        assert(s.take(s.len() as int) == s);
    }
}

/// Stripping the underscores at both ends of text without double
/// underscores leaves it slug-shaped, and leaves a part of it.
pub proof fn lemma_strip_shape(s: Seq<char>)
    requires
        no_double_us(s),
    ensures
        is_slug_shaped(strip_us(s)),
        exists|a: int, b: int| 0 <= a <= b <= s.len() && strip_us(s) == s.subrange(a, b),
{
    lemma_strip_start_shape(s);
    let a = choose|k: int| 0 <= k <= s.len() && strip_us_start(s) == s.skip(k);
    let t = strip_us_start(s);
    lemma_strip_end_shape(t);
    let b = choose|k: int| 0 <= k <= t.len() && strip_us_end(t) == t.take(k);
    assert(t.take(b) == s.subrange(a, a + b));
}


/// Text without doubled underscores is its own collapse.
pub proof fn lemma_collapse_identity(s: Seq<char>)
    requires
        no_double_us(s),
    ensures
        collapse_us(s) == s,
    decreases s.len(),
{
    if s.len() > 0 {
        let t = s.drop_last();
        assert forall|i: int| 0 <= i < t.len() - 1 implies !(#[trigger] t[i] == '_' && t[i + 1]
            == '_') by {
            assert(t[i] == s[i] && t[i + 1] == s[i + 1]);
        }
        lemma_collapse_identity(t);
        if t.len() > 0 {
            assert(t.last() == s[s.len() - 2]);
        }
        assert(t.push(s.last()) == s);
    }
}

/// Text with no underscore at either end is its own strip.
pub proof fn lemma_strip_identity(s: Seq<char>)
    requires
        s.len() > 0 ==> s[0] != '_' && s.last() != '_',
    ensures
        strip_us(s) == s,
{
}


// ---------------------------------------------------------------------
// Laws of trimming
// ---------------------------------------------------------------------

/// The characters of Unicode's `White_Space` property, by code point.
pub open spec fn white_space_code(u: u32) -> bool {
    ||| (9 <= u && u <= 13)
    ||| u == 32
    ||| u == 0x85
    ||| u == 0xa0
    ||| u == 0x1680
    ||| (0x2000 <= u && u <= 0x200a)
    ||| u == 0x2028
    ||| u == 0x2029
    ||| u == 0x202f
    ||| u == 0x205f
    ||| u == 0x3000
}

proof fn lemma_is_ws_code(c: char)
    ensures
        is_ws(c) <==> white_space_code(c as u32),
{
}

/// `is_ws` holds exactly of the `White_Space` code points.
pub proof fn lemma_is_ws_code_pub(c: char)
    ensures
        is_ws(c) <==> white_space_code(c as u32),
{
    lemma_is_ws_code(c);
}

proof fn lemma_trim_start_concat(s: Seq<char>, t: Seq<char>)
    ensures
        trim_start(s + t) == if trim_start(s).len() > 0 {
            trim_start(s) + t
        } else {
            trim_start(t)
        },
    decreases s.len(),
{
    if s.len() == 0 {
        assert(s + t == t);
    } else {
        assert((s + t)[0] == s[0]);
        if is_ws(s[0]) {
            assert((s + t).drop_first() == s.drop_first() + t);
            lemma_trim_start_concat(s.drop_first(), t);
        }
    }
}

proof fn lemma_trim_end_concat(s: Seq<char>, t: Seq<char>)
    ensures
        trim_end(s + t) == if trim_end(t).len() > 0 {
            s + trim_end(t)
        } else {
            trim_end(s)
        },
    decreases t.len(),
{
    if t.len() == 0 {
        assert(s + t == s);
    } else {
        assert((s + t).last() == t.last());
        if is_ws(t.last()) {
            assert((s + t).drop_last() == s + t.drop_last());
            lemma_trim_end_concat(s, t.drop_last());
        } else {
            assert(trim_end(t) == t);
        }
    }
}

/// `trim_start(s)` drops the leading whitespace of `s` and keeps the rest.
proof fn lemma_trim_start_skip(s: Seq<char>) -> (k: int)
    ensures
        0 <= k <= s.len(),
        trim_start(s) == s.skip(k),
        forall|j: int| 0 <= j < k ==> is_ws(#[trigger] s[j]),
        k < s.len() ==> !is_ws(s[k]),
    decreases s.len(),
{
    if s.len() > 0 && is_ws(s[0]) {
        let k0 = lemma_trim_start_skip(s.drop_first());
        assert(s.drop_first().skip(k0) == s.skip(k0 + 1));
        assert forall|j: int| 0 <= j < k0 + 1 implies is_ws(#[trigger] s[j]) by {
            if j > 0 {
                assert(s[j] == s.drop_first()[j - 1]);
            }
        }
        k0 + 1
    } else {
        assert(s.skip(0) == s);
        0
    }
}

/// `trim_end(s)` drops the trailing whitespace of `s` and keeps the rest.
proof fn lemma_trim_end_take(s: Seq<char>) -> (k: int)
    ensures
        0 <= k <= s.len(),
        trim_end(s) == s.take(k),
        forall|j: int| k <= j < s.len() ==> is_ws(#[trigger] s[j]),
        k > 0 ==> !is_ws(s[k - 1]),
    decreases s.len(),
{
    if s.len() > 0 && is_ws(s.last()) {
        let k0 = lemma_trim_end_take(s.drop_last());
        assert(s.drop_last().take(k0) == s.take(k0));
        assert forall|j: int| k0 <= j < s.len() implies is_ws(#[trigger] s[j]) by {
            if j < s.len() - 1 {
                assert(s[j] == s.drop_last()[j]);
            }
        }
        k0
    } else {
        assert(s.take(s.len() as int) == s);
        s.len() as int
    }
}

/// What `trim` does: it keeps a stretch of the text, everything outside the
/// stretch is whitespace, and a kept stretch neither begins nor ends with
/// whitespace.
pub proof fn lemma_trim_is_stretch(s: Seq<char>)
    ensures
        exists|a: int, b: int|
            {
                &&& 0 <= a <= b <= s.len()
                &&& trim(s) == s.subrange(a, b)
                &&& forall|j: int|
                    0 <= j < s.len() && !(a <= j < b) ==> white_space_code(#[trigger] s[j] as u32)
                &&& a < b ==> !white_space_code(s[a] as u32) && !white_space_code(
                    s[b - 1] as u32,
                )
            },
{
    let a = lemma_trim_start_skip(s);
    let t = s.skip(a);
    let k = lemma_trim_end_take(t);
    assert(t.take(k) == s.subrange(a, a + k));
    assert forall|j: int| 0 <= j < s.len() && !(a <= j < a + k) implies white_space_code(
        #[trigger] s[j] as u32,
    ) by {
        lemma_is_ws_code(s[j]);
        if j >= a + k {
            assert(s[j] == t[j - a]);
        }
    }
    if k > 0 {
        lemma_is_ws_code(s[a]);
        lemma_is_ws_code(s[a + k - 1]);
        assert(t[k - 1] == s[a + k - 1]);
        assert(t[0] == s[a]);
    }
    assert({
        &&& 0 <= a <= a + k <= s.len()
        &&& trim(s) == s.subrange(a, a + k)
    });
}

/// Trimmed text is blank exactly when every character is a `White_Space`
/// character.
pub proof fn lemma_trim_blank(s: Seq<char>)
    ensures
        trim(s).len() == 0 <==> forall|j: int|
            0 <= j < s.len() ==> white_space_code(#[trigger] s[j] as u32),
{
    lemma_trim_is_stretch(s);
    let (a, b) = choose|a: int, b: int|
        {
            &&& 0 <= a <= b <= s.len()
            &&& trim(s) == s.subrange(a, b)
            &&& forall|j: int|
                0 <= j < s.len() && !(a <= j < b) ==> white_space_code(#[trigger] s[j] as u32)
            &&& a < b ==> !white_space_code(s[a] as u32) && !white_space_code(s[b - 1] as u32)
        };
    if a < b {
        assert(!white_space_code(s[a] as u32));
    }
}

/// A `White_Space` character (such as the ideographic space U+3000) before
/// or after a text does not survive trimming; any other character does.
pub proof fn lemma_trim_white_space_ends(c: char, s: Seq<char>)
    ensures
        white_space_code(c as u32) ==> trim(seq![c] + s) == trim(s) && trim(s + seq![c]) == trim(
            s,
        ),
        !white_space_code(c as u32) ==> trim(seq![c] + s).len() > 0 && trim(seq![c] + s)[0] == c
            && trim(s + seq![c]).len() > 0 && trim(s + seq![c]).last() == c,
{
    lemma_is_ws_code(c);
    let one = seq![c];
    lemma_trim_start_concat(one, s);
    lemma_trim_start_concat(s, one);
    assert(one.drop_first() == Seq::<char>::empty());
    assert(one.drop_last() == Seq::<char>::empty());
    assert(one[0] == c);
    assert(one.last() == c);
    assert(trim_start(Seq::<char>::empty()) == Seq::<char>::empty());
    assert(trim_end(Seq::<char>::empty()) == Seq::<char>::empty());
    if is_ws(c) {
        assert(trim_start(one) == Seq::<char>::empty());
        assert(trim_end(one) == Seq::<char>::empty());
        assert(trim_start(one + s) == trim_start(s));
        let ts = trim_start(s);
        if ts.len() > 0 {
            lemma_trim_end_concat(ts, one);
        }
    } else {
        assert(trim_start(one) == one);
        assert(trim_end(one) == one);
        let u = one + s;
        assert(trim_start(u) == u);
        let k = lemma_trim_end_take(u);
        assert(u[0] == c);
        assert(trim(u)[0] == c);
        let ts = trim_start(s);
        let v = trim_start(s + one);
        assert(v.len() > 0 && v.last() == c) by {
            if ts.len() > 0 {
                assert((ts + one).last() == c);
            }
        }
        assert(trim_end(v) == v);
    }
}

} // verus!
