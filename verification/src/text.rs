//! Small verified string utilities: equality, whitespace trimming, and
//! decimal parsing/printing, all specified over `Seq<char>` views.

use vstd::prelude::*;
use vstd::string::StrSliceExecFns;
use vstd::string::StringExecFns;

verus! {

/// The ASCII whitespace characters that `trim` removes.
pub open spec fn is_space_char(c: char) -> bool {
    c == ' ' || c == '\t' || c == '\n' || c == '\r'
}

/// `s` with leading whitespace removed.
pub open spec fn trim_front_spec(s: Seq<char>) -> Seq<char>
    decreases s.len(),
{
    if s.len() > 0 && is_space_char(s[0]) {
        trim_front_spec(s.drop_first())
    } else {
        s
    }
}

/// `s` with trailing whitespace removed.
pub open spec fn trim_back_spec(s: Seq<char>) -> Seq<char>
    decreases s.len(),
{
    if s.len() > 0 && is_space_char(s[s.len() - 1]) {
        trim_back_spec(s.drop_last())
    } else {
        s
    }
}

/// `s` with leading and trailing whitespace removed.
pub open spec fn trim_spec(s: Seq<char>) -> Seq<char> {
    trim_back_spec(trim_front_spec(s))
}

/// A string is blank when every character is whitespace.
pub open spec fn is_blank_spec(s: Seq<char>) -> bool {
    forall|i: int| 0 <= i < s.len() ==> is_space_char(#[trigger] s[i])
}

pub fn is_space(c: char) -> (r: bool)
    ensures
        r == is_space_char(c),
{
    c == ' ' || c == '\t' || c == '\n' || c == '\r'
}

/// Character-wise string equality.
pub fn str_eq(a: &str, b: &str) -> (r: bool)
    ensures
        r == (a@ == b@),
{
    let alen = a.unicode_len();
    let blen = b.unicode_len();
    if alen != blen {
        return false;
    }
    let mut i: usize = 0;
    while i < alen
        invariant
            i <= alen,
            alen == a@.len(),
            alen == b@.len(),
            forall|j: int| 0 <= j < i ==> a@[j] == b@[j],
        decreases alen - i,
    {
        if a.get_char(i) != b.get_char(i) {
            return false;
        }
        i = i + 1;
    }
    proof {
        assert(a@ =~= b@);
    }
    true
}

/// Equality between an owned string and a slice.
pub fn string_eq_str(a: &String, b: &str) -> (r: bool)
    ensures
        r == (a@ == b@),
{
    str_eq(a.as_str(), b)
}

proof fn lemma_trim_front_range(s: Seq<char>, lo: int)
    requires
        0 <= lo <= s.len(),
        forall|k: int| 0 <= k < lo ==> is_space_char(#[trigger] s[k]),
        lo < s.len() ==> !is_space_char(s[lo]),
    ensures
        trim_front_spec(s) =~= s.subrange(lo, s.len() as int),
    decreases lo,
{
    if lo == 0 {
        if s.len() > 0 && is_space_char(s[0]) {
            assert(false);
        }
        assert(trim_front_spec(s) =~= s.subrange(0, s.len() as int));
    } else {
        assert(is_space_char(s[0]));
        let t = s.drop_first();
        assert(forall|k: int| 0 <= k < lo - 1 ==> is_space_char(#[trigger] t[k]));
        lemma_trim_front_range(t, lo - 1);
        assert(t.subrange(lo - 1, t.len() as int) =~= s.subrange(lo, s.len() as int));
    }
}

proof fn lemma_trim_back_range(s: Seq<char>, hi: int)
    requires
        0 <= hi <= s.len(),
        forall|k: int| hi <= k < s.len() ==> is_space_char(#[trigger] s[k]),
        hi > 0 ==> !is_space_char(s[hi - 1]),
    ensures
        trim_back_spec(s) =~= s.subrange(0, hi),
    decreases s.len() - hi,
{
    if hi == s.len() {
        if s.len() > 0 && is_space_char(s[s.len() - 1]) {
            assert(false);
        }
        assert(trim_back_spec(s) =~= s.subrange(0, hi));
    } else {
        assert(is_space_char(s[s.len() - 1]));
        let t = s.drop_last();
        lemma_trim_back_range(t, hi);
        assert(t.subrange(0, hi) =~= s.subrange(0, hi));
    }
}

/// Remove leading and trailing ASCII whitespace.
pub fn trim(s: &str) -> (r: &str)
    ensures
        r@ == trim_spec(s@),
{
    let n = s.unicode_len();
    let mut lo: usize = 0;
    while lo < n && is_space(s.get_char(lo))
        invariant
            lo <= n,
            n == s@.len(),
            forall|k: int| 0 <= k < lo ==> is_space_char(#[trigger] s@[k]),
        decreases n - lo,
    {
        lo = lo + 1;
    }
    let mut hi: usize = n;
    while hi > lo && is_space(s.get_char(hi - 1))
        invariant
            lo <= hi <= n,
            n == s@.len(),
            forall|k: int| 0 <= k < lo ==> is_space_char(#[trigger] s@[k]),
            lo < n ==> !is_space_char(s@[lo as int]),
            forall|k: int| hi <= k < n ==> is_space_char(#[trigger] s@[k]),
        decreases hi,
    {
        hi = hi - 1;
    }
    proof {
        lemma_trim_front_range(s@, lo as int);
        let front = s@.subrange(lo as int, n as int);
        if hi > lo {
            assert(!is_space_char(front[hi - lo - 1]));
        }
        lemma_trim_back_range(front, hi - lo);
        assert(front.subrange(0, hi - lo) =~= s@.subrange(lo as int, hi as int));
    }
    s.substring_char(lo, hi)
}

/// True when the string holds nothing but whitespace.
pub fn is_blank(s: &str) -> (r: bool)
    ensures
        r == is_blank_spec(s@),
{
    let n = s.unicode_len();
    let mut i: usize = 0;
    while i < n
        invariant
            i <= n,
            n == s@.len(),
            forall|k: int| 0 <= k < i ==> is_space_char(#[trigger] s@[k]),
        decreases n - i,
    {
        if !is_space(s.get_char(i)) {
            return false;
        }
        i = i + 1;
    }
    true
}

/// Case-insensitive comparison of two characters, folding only ASCII letters.
pub open spec fn chars_eq_nocase(a: char, b: char) -> bool {
    a == b || ('A' <= a <= 'Z' && a as int + 32 == b as int) || ('A' <= b <= 'Z' && b as int + 32
        == a as int)
}

/// Case-insensitive string equality over ASCII letters.
pub open spec fn str_eq_nocase_spec(a: Seq<char>, b: Seq<char>) -> bool {
    a.len() == b.len() && forall|i: int|
        0 <= i < a.len() ==> chars_eq_nocase(#[trigger] a[i], b[i])
}

pub fn char_eq_nocase(a: char, b: char) -> (r: bool)
    ensures
        r == chars_eq_nocase(a, b),
{
    if a == b {
        true
    } else if 'A' <= a && a <= 'Z' && (a as u32) + 32 == (b as u32) {
        true
    } else if 'A' <= b && b <= 'Z' && (b as u32) + 32 == (a as u32) {
        true
    } else {
        false
    }
}

/// Case-insensitive string comparison (ASCII letters only).
pub fn str_eq_nocase(a: &str, b: &str) -> (r: bool)
    ensures
        r == str_eq_nocase_spec(a@, b@),
{
    let alen = a.unicode_len();
    let blen = b.unicode_len();
    if alen != blen {
        return false;
    }
    let mut i: usize = 0;
    while i < alen
        invariant
            i <= alen,
            alen == a@.len(),
            alen == b@.len(),
            forall|j: int| 0 <= j < i ==> chars_eq_nocase(#[trigger] a@[j], b@[j]),
        decreases alen - i,
    {
        if !char_eq_nocase(a.get_char(i), b.get_char(i)) {
            return false;
        }
        i = i + 1;
    }
    true
}

pub open spec fn is_digit(c: char) -> bool {
    '0' <= c <= '9'
}

pub open spec fn digit_val(c: char) -> int {
    c as int - '0' as int
}

pub open spec fn all_digits(s: Seq<char>) -> bool {
    forall|i: int| 0 <= i < s.len() ==> is_digit(#[trigger] s[i])
}

/// The value of a string of decimal digits.
pub open spec fn dec_val(s: Seq<char>) -> int
    decreases s.len(),
{
    if s.len() == 0 {
        0
    } else {
        dec_val(s.drop_last()) * 10 + digit_val(s[s.len() - 1])
    }
}

/// What `parse_usize` accepts: an optional leading `+`, then at least one
/// decimal digit, nothing else.  The numeric value is unbounded here; the
/// executable parser additionally rejects values that do not fit `usize`.
pub open spec fn parses_to(s: Seq<char>) -> Option<int> {
    let d = if s.len() > 0 && s[0] == '+' {
        s.drop_first()
    } else {
        s
    };
    if d.len() > 0 && all_digits(d) {
        Some(dec_val(d))
    } else {
        None
    }
}

fn digit_of(c: char) -> (r: usize)
    requires
        is_digit(c),
    ensures
        r == digit_val(c),
        r < 10,
{
    ((c as u32) - ('0' as u32)) as usize
}

/// Parse a non-negative decimal integer, as the standard library's `usize`
/// parser does for inputs without a minus sign.
pub fn parse_usize(s: &str) -> (r: Option<usize>)
    ensures
        match r {
            Some(n) => parses_to(s@) == Some(n as int),
            None => match parses_to(s@) {
                Some(v) => v > usize::MAX,
                None => true,
            },
        },
        r is None ==> (parses_to(s@) is None || (parses_to(s@) matches Some(v) && v > usize::MAX)),
{
    let n = s.unicode_len();
    let start: usize = if n > 0 && s.get_char(0) == '+' {
        1
    } else {
        0
    };
    if start >= n {
        return None;
    }
    let ghost d = if s@[0] == '+' {
        s@.drop_first()
    } else {
        s@
    };
    let mut acc: usize = 0;
    let mut i: usize = start;
    while i < n
        invariant
            start <= i <= n,
            start <= 1,
            n == s@.len(),
            start == 1 ==> s@[0] == '+' && d =~= s@.drop_first(),
            start == 0 ==> !(s@.len() > 0 && s@[0] == '+') && d =~= s@,
            d.len() == n - start,
            forall|k: int| 0 <= k < d.len() ==> d[k] == s@[k + start],
            forall|k: int| 0 <= k < i - start ==> is_digit(#[trigger] d[k]),
            acc == dec_val(d.subrange(0, i - start)),
        decreases n - i,
    {
        let c = s.get_char(i);
        if !(('0' <= c) && (c <= '9')) {
            proof {
                assert(!is_digit(d[i - start]));
            }
            return None;
        }
        let dv = digit_of(c);
        let shifted = match acc.checked_mul(10) {
            Some(v) => v,
            None => {
                proof {
                    if all_digits(d) {
                        lemma_dec_val_prefix_overflow(d, i - start);
                    }
                }
                return None;
            },
        };
        acc = match shifted.checked_add(dv) {
            Some(v) => v,
            None => {
                proof {
                    if all_digits(d) {
                        lemma_dec_val_prefix_overflow(d, i - start);
                    }
                }
                return None;
            },
        };
        proof {
            assert(d.subrange(0, i + 1 - start).drop_last() =~= d.subrange(0, i - start));
        }
        i = i + 1;
    }
    proof {
        assert(d.subrange(0, d.len() as int) =~= d);
    }
    Some(acc)
}

/// A digit string is worth at least its prefix shifted: once a prefix
/// overflows, the whole string does.
proof fn lemma_dec_val_prefix_overflow(d: Seq<char>, j: int)
    requires
        0 <= j < d.len(),
        forall|k: int| 0 <= k < d.len() ==> is_digit(#[trigger] d[k]),
        dec_val(d.subrange(0, j)) * 10 + digit_val(d[j]) > usize::MAX,
    ensures
        dec_val(d) > usize::MAX,
{
    lemma_dec_val_extend_monotonic(d, j + 1);
    assert(d.subrange(0, j + 1).drop_last() =~= d.subrange(0, j));
    assert(dec_val(d.subrange(0, j + 1)) == dec_val(d.subrange(0, j)) * 10 + digit_val(d[j]));
}

/// Extending a digit string to the right never decreases its value.
proof fn lemma_dec_val_extend_monotonic(d: Seq<char>, j: int)
    requires
        0 <= j <= d.len(),
        forall|k: int| 0 <= k < d.len() ==> is_digit(#[trigger] d[k]),
    ensures
        dec_val(d) >= dec_val(d.subrange(0, j)),
        dec_val(d.subrange(0, j)) >= 0,
    decreases d.len() - j,
{
    lemma_dec_val_nonneg(d.subrange(0, j));
    if j == d.len() {
        assert(d.subrange(0, j) =~= d);
    } else {
        lemma_dec_val_extend_monotonic(d, j + 1);
        assert(d.subrange(0, j + 1).drop_last() =~= d.subrange(0, j));
        assert(dec_val(d.subrange(0, j + 1)) == dec_val(d.subrange(0, j)) * 10 + digit_val(
            d[j],
        ));
    }
}

proof fn lemma_dec_val_nonneg(d: Seq<char>)
    requires
        forall|k: int| 0 <= k < d.len() ==> is_digit(#[trigger] d[k]),
    ensures
        dec_val(d) >= 0,
    decreases d.len(),
{
    if d.len() > 0 {
        assert(forall|k: int|
            0 <= k < d.drop_last().len() ==> is_digit(#[trigger] d.drop_last()[k]));
        lemma_dec_val_nonneg(d.drop_last());
    }
}

/// The decimal digit character for a value below ten.
pub open spec fn digit_char(d: int) -> char {
    if d == 0 {
        '0'
    } else if d == 1 {
        '1'
    } else if d == 2 {
        '2'
    } else if d == 3 {
        '3'
    } else if d == 4 {
        '4'
    } else if d == 5 {
        '5'
    } else if d == 6 {
        '6'
    } else if d == 7 {
        '7'
    } else if d == 8 {
        '8'
    } else {
        '9'
    }
}

/// The decimal rendering of a non-negative integer.
pub open spec fn dec_str(n: int) -> Seq<char>
    decreases n,
{
    if n < 10 {
        seq![digit_char(n)]
    } else {
        dec_str(n / 10).push(digit_char(n % 10))
    }
}

/// Render an integer in decimal, as the standard formatter would.
pub fn dec_string(n: usize) -> (r: String)
    ensures
        r@ == dec_str(n as int),
    decreases n,
{
    let digits = "0123456789";
    proof {
        reveal_strlit("0123456789");
    }
    let d = n % 10;
    let ds = digits.substring_ascii(d, d + 1);
    proof {
        assert(ds@ =~= seq![digit_char((n % 10) as int)]);
    }
    if n < 10 {
        ds.to_owned()
    } else {
        let mut prefix = dec_string(n / 10);
        prefix.append(ds);
        proof {
            assert(dec_str((n / 10) as int) + seq![digit_char((n % 10) as int)] =~= dec_str(
                n as int,
            ));
        }
        prefix
    }
}

} // verus!
