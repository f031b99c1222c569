//! Parsing of numeric traceroute output.
//!
//! The text is split into lines; a header line (starting with "traceroute",
//! case-insensitively) can carry the target, either in parentheses or after
//! "traceroute to "; a line starting with a hop number opens a hop; further
//! probe lines append to the open hop. Round-trip times are parsed into
//! integer microseconds. Whitespace here means ASCII whitespace.

use vstd::prelude::*;
use vstd::string::StrSliceExecFns;
use crate::model::{Hop, HopView};

verus! {

/// ASCII whitespace.
pub open spec fn is_space(c: char) -> bool {
    c == ' ' || c == '\t' || c == '\r' || c == '\n'
}

fn is_space_c(c: char) -> (r: bool)
    ensures
        r == is_space(c),
{
    c == ' ' || c == '\t' || c == '\r' || c == '\n'
}

/// ASCII-case-insensitive character match against an already-lower-case
/// pattern character, compared as scalars.
pub open spec fn char_ci_eq(c: char, p: char) -> bool {
    (if 65 <= c as u32 <= 90 {
        c as u32 + 32
    } else {
        c as u32 as int
    }) == p as u32
}

fn char_ci_eq_c(c: char, p: char) -> (r: bool)
    ensures
        r == char_ci_eq(c, p),
{
    let cu = c as u32;
    let cl: u32 = if cu >= 65 && cu <= 90 {
        cu + 32
    } else {
        cu
    };
    cl == (p as u32)
}

/// The first index of `c` at or after `from`, or the length.
pub open spec fn spec_find_from(s: Seq<char>, c: char, from: int) -> int
    decreases s.len() - from,
{
    if from < 0 || from >= s.len() {
        s.len() as int
    } else if s[from] == c {
        from
    } else {
        spec_find_from(s, c, from + 1)
    }
}

fn find_from(s: &str, n: usize, c: char, from: usize) -> (r: usize)
    requires
        n == s@.len(),
        from <= n,
    ensures
        r == spec_find_from(s@, c, from as int),
        from <= r <= n,
        r < n ==> s@[r as int] == c,
{
    let mut i = from;
    while i < n
        invariant
            from <= i <= n,
            n == s@.len(),
            spec_find_from(s@, c, from as int) == spec_find_from(s@, c, i as int),
        decreases n - i,
    {
        if s.get_char(i) == c {
            return i;
        }
        i += 1;
    }
    i
}

/// `spec_find_from` stays between its start and the length.
pub proof fn lemma_find_from_bounds(s: Seq<char>, c: char, from: int)
    requires
        0 <= from <= s.len(),
    ensures
        from <= spec_find_from(s, c, from) <= s.len(),
    decreases s.len() - from,
{
    if from < s.len() && s[from] != c {
        lemma_find_from_bounds(s, c, from + 1);
    }
}

/// The lines starting at `from`: split on newlines, no terminators kept.
pub open spec fn spec_lines_from(s: Seq<char>, from: int) -> Seq<Seq<char>>
    decreases s.len() - from,
    when 0 <= from <= s.len()
    via spec_lines_from_decreases
{
    if from >= s.len() {
        Seq::empty()
    } else {
        let k = spec_find_from(s, '\n', from);
        if k >= s.len() {
            seq![s.subrange(from, s.len() as int)]
        } else {
            seq![s.subrange(from, k)] + spec_lines_from(s, k + 1)
        }
    }
}

#[via_fn]
proof fn spec_lines_from_decreases(s: Seq<char>, from: int) {
    lemma_find_from_bounds(s, '\n', from);
}

/// The line list of a whole text.
pub open spec fn spec_lines(s: Seq<char>) -> Seq<Seq<char>> {
    spec_lines_from(s, 0)
}

/// Trimming: the ASCII-whitespace bounds of a line.
pub open spec fn spec_trim_start(s: Seq<char>) -> Seq<char>
    decreases s.len(),
{
    if s.len() > 0 && is_space(s[0]) {
        spec_trim_start(s.drop_first())
    } else {
        s
    }
}

pub open spec fn spec_trim_end(s: Seq<char>) -> Seq<char>
    decreases s.len(),
{
    if s.len() > 0 && is_space(s.last()) {
        spec_trim_end(s.drop_last())
    } else {
        s
    }
}

pub open spec fn spec_trim(s: Seq<char>) -> Seq<char> {
    spec_trim_end(spec_trim_start(s))
}

/// Trim a string slice.
fn trim_str<'a>(s: &'a str, n: usize) -> (r: &'a str)
    requires
        n == s@.len(),
    ensures
        r@ == spec_trim(s@),
{
    let mut a: usize = 0;
    proof {
        assert(s@.subrange(0, n as int) =~= s@);
    }
    while a < n && is_space_c(s.get_char(a))
        invariant
            a <= n,
            n == s@.len(),
            spec_trim_start(s@) == spec_trim_start(s@.subrange(a as int, n as int)),
            forall|k: int| 0 <= k < a ==> is_space(s@[k]),
        decreases n - a,
    {
        proof {
            assert(s@.subrange(a as int, n as int).drop_first() =~= s@.subrange(a + 1, n as int));
        }
        a += 1;
    }
    proof {
        assert(spec_trim_start(s@) =~= s@.subrange(a as int, n as int));
    }
    let mut b: usize = n;
    while b > a && is_space_c(s.get_char(b - 1))
        invariant
            a <= b <= n,
            n == s@.len(),
            spec_trim_end(s@.subrange(a as int, n as int)) == spec_trim_end(
                s@.subrange(a as int, b as int),
            ),
        decreases b,
    {
        proof {
            assert(s@.subrange(a as int, b as int).drop_last() =~= s@.subrange(a as int, b - 1));
        }
        b -= 1;
    }
    proof {
        if b > a {
            assert(!is_space(s@.subrange(a as int, b as int).last()));
        }
        assert(spec_trim_end(s@.subrange(a as int, b as int)) =~= s@.subrange(a as int, b as int));
    }
    s.substring_char(a, b)
}

/// Case-insensitive match of `pat` at position `p`.
pub open spec fn matches_ci_at(s: Seq<char>, pat: Seq<char>, p: int) -> bool {
    &&& 0 <= p
    &&& p + pat.len() <= s.len()
    &&& forall|k: int| 0 <= k < pat.len() ==> char_ci_eq(s[p + k], pat[k])
}

/// The first position where `pat` matches case-insensitively, or the length.
pub open spec fn spec_find_ci(s: Seq<char>, pat: Seq<char>, from: int) -> int
    decreases s.len() - from,
{
    if from < 0 || from > s.len() {
        s.len() as int
    } else if from + pat.len() > s.len() {
        s.len() as int
    } else if matches_ci_at(s, pat, from) {
        from
    } else {
        spec_find_ci(s, pat, from + 1)
    }
}

/// Does `pat` (already lower-case) match `s` at `p` ignoring ASCII case?
fn matches_ci_at_c(s: &str, n: usize, pat: &str, m: usize, p: usize) -> (r: bool)
    requires
        n == s@.len(),
        m == pat@.len(),
        p + m <= n,
    ensures
        r == matches_ci_at(s@, pat@, p as int),
{
    let mut k: usize = 0;
    while k < m
        invariant
            k <= m,
            n == s@.len(),
            m == pat@.len(),
            p + m <= n,
            forall|q: int| 0 <= q < k ==> char_ci_eq(s@[p + q], pat@[q]),
        decreases m - k,
    {
        if !char_ci_eq_c(s.get_char(p + k), pat.get_char(k)) {
            return false;
        }
        k += 1;
    }
    true
}

fn find_ci(s: &str, n: usize, pat: &str, m: usize) -> (r: usize)
    requires
        n == s@.len(),
        m == pat@.len(),
        m >= 1,
    ensures
        r == spec_find_ci(s@, pat@, 0),
        r <= n,
        r < n ==> matches_ci_at(s@, pat@, r as int),
{
    if m > n {
        return n;
    }
    let mut i: usize = 0;
    while i <= n - m
        invariant
            i <= n - m + 1,
            m <= n,
            n == s@.len(),
            m == pat@.len(),
            m >= 1,
            spec_find_ci(s@, pat@, 0) == spec_find_ci(s@, pat@, i as int),
        decreases n - i,
    {
        if matches_ci_at_c(s, n, pat, m, i) {
            return i;
        }
        i += 1;
    }
    proof {
        assert(spec_find_ci(s@, pat@, i as int) == n);
    }
    n
}

/// The target a header line names: the parenthesized address if present and
/// non-blank, else the first token after "traceroute to ".
pub open spec fn spec_parse_target(line: Seq<char>) -> Option<Seq<char>> {
    let lp = spec_find_from(line, '(', 0);
    let paren = if lp < line.len() {
        let rp = spec_find_from(line, ')', lp + 1);
        if rp < line.len() {
            let t = spec_trim(line.subrange(lp + 1, rp));
            if t.len() > 0 {
                Option::Some(t)
            } else {
                Option::None
            }
        } else {
            Option::None
        }
    } else {
        Option::None
    };
    if paren is Some {
        paren
    } else {
        let pat = "traceroute to "@;
        let idx = spec_find_ci(line, pat, 0);
        if idx < line.len() {
            let rest = line.subrange(idx + pat.len(), line.len() as int);
            let stop = spec_token_end(rest, 0);
            let t = spec_trim(rest.subrange(0, stop));
            if t.len() > 0 {
                Option::Some(t)
            } else {
                Option::None
            }
        } else {
            Option::None
        }
    }
}

/// The end of the first token: the first whitespace or comma, or the length.
pub open spec fn spec_token_end(s: Seq<char>, from: int) -> int
    decreases s.len() - from,
{
    if from < 0 || from >= s.len() {
        s.len() as int
    } else if is_space(s[from]) || s[from] == ',' {
        from
    } else {
        spec_token_end(s, from + 1)
    }
}

fn token_end(s: &str, n: usize, from: usize) -> (r: usize)
    requires
        n == s@.len(),
        from <= n,
    ensures
        r == spec_token_end(s@, from as int),
        from <= r <= n,
{
    let mut i = from;
    while i < n
        invariant
            from <= i <= n,
            n == s@.len(),
            spec_token_end(s@, from as int) == spec_token_end(s@, i as int),
        decreases n - i,
    {
        let c = s.get_char(i);
        if is_space_c(c) || c == ',' {
            return i;
        }
        i += 1;
    }
    i
}

/// Extract the probe target from a traceroute header line.
pub fn parse_target(line: &str) -> (r: Option<String>)
    ensures
        r is Some <==> spec_parse_target(line@) is Some,
        r matches Some(t) ==> t@ == spec_parse_target(line@)->Some_0,
{
    let n = line.unicode_len();
    let lp = find_from(line, n, '(', 0);
    if lp < n {
        let rp = find_from(line, n, ')', lp + 1);
        if rp < n {
            let inside = line.substring_char(lp + 1, rp);
            let m = rp - (lp + 1);
            let t = trim_str(inside, m);
            if t.unicode_len() > 0 {
                return Some(t.to_owned());
            }
        }
    }
    let pat = "traceroute to ";
    proof {
        reveal_strlit("traceroute to ");
    }
    let m = pat.unicode_len();
    let idx = find_ci(line, n, pat, m);
    if idx < n {
        let rest = line.substring_char(idx + m, n);
        let rn = n - (idx + m);
        let stop = token_end(rest, rn, 0);
        let tok = rest.substring_char(0, stop);
        let t = trim_str(tok, stop);
        if t.unicode_len() > 0 {
            proof {
                assert(rest@.subrange(0, stop as int) =~= tok@);
            }
            return Some(t.to_owned());
        }
    }
    None
}

/// The views of a string list.
pub open spec fn strs_view(s: Seq<String>) -> Seq<Seq<char>> {
    s.map_values(|x: String| x@)
}

/// Split into lines.
fn split_lines(text: &str) -> (r: Vec<String>)
    ensures
        strs_view(r@) == spec_lines(text@),
{
    let n = text.unicode_len();
    let mut out: Vec<String> = Vec::new();
    let mut from: usize = 0;
    while from < n
        invariant
            from <= n,
            n == text@.len(),
            spec_lines(text@) == strs_view(out@) + spec_lines_from(text@, from as int),
        decreases n - from,
    {
        let k = find_from(text, n, '\n', from);
        let piece = text.substring_char(from, k);
        let ghost olds = out@;
        out.push(piece.to_owned());
        proof {
            lemma_find_from_bounds(text@, '\n', from as int);
            assert(strs_view(out@) =~= strs_view(olds).push(piece@));
            if k >= n {
                assert(spec_lines_from(text@, from as int) =~= seq![piece@]);
                assert(strs_view(olds) + spec_lines_from(text@, from as int) =~= strs_view(
                    out@,
                ) + spec_lines_from(text@, n as int));
            } else {
                assert(strs_view(olds) + spec_lines_from(text@, from as int) =~= strs_view(
                    out@,
                ) + spec_lines_from(text@, k + 1));
            }
        }
        if k >= n {
            from = n;
        } else {
            from = k + 1;
        }
    }
    proof {
        assert(spec_lines_from(text@, n as int) =~= Seq::<Seq<char>>::empty());
        assert(strs_view(out@) =~= spec_lines(text@));
    }
    out
}

/// The first non-whitespace index at or after `from`.
pub open spec fn spec_skip_ws(s: Seq<char>, from: int) -> int
    decreases s.len() - from,
{
    if from < 0 || from >= s.len() {
        s.len() as int
    } else if is_space(s[from]) {
        spec_skip_ws(s, from + 1)
    } else {
        from
    }
}

pub proof fn lemma_skip_ws_bounds(s: Seq<char>, from: int)
    requires
        0 <= from <= s.len(),
    ensures
        from <= spec_skip_ws(s, from) <= s.len(),
    decreases s.len() - from,
{
    if from < s.len() && is_space(s[from]) {
        lemma_skip_ws_bounds(s, from + 1);
    }
}

/// The first whitespace index at or after `from`.
pub open spec fn spec_ws_end(s: Seq<char>, from: int) -> int
    decreases s.len() - from,
{
    if from < 0 || from >= s.len() {
        s.len() as int
    } else if is_space(s[from]) {
        from
    } else {
        spec_ws_end(s, from + 1)
    }
}

pub proof fn lemma_ws_end_bounds(s: Seq<char>, from: int)
    requires
        0 <= from <= s.len(),
    ensures
        from <= spec_ws_end(s, from) <= s.len(),
    decreases s.len() - from,
{
    if from < s.len() && !is_space(s[from]) {
        lemma_ws_end_bounds(s, from + 1);
    }
}

/// The whitespace-separated tokens starting at `from`.
pub open spec fn spec_tokens_from(s: Seq<char>, from: int) -> Seq<Seq<char>>
    decreases s.len() - from,
    when 0 <= from <= s.len()
    via spec_tokens_from_decreases
{
    let a = spec_skip_ws(s, from);
    if a >= s.len() {
        Seq::empty()
    } else {
        let b = spec_ws_end(s, a + 1);
        seq![s.subrange(a, b)] + spec_tokens_from(s, b)
    }
}

#[via_fn]
proof fn spec_tokens_from_decreases(s: Seq<char>, from: int) {
    lemma_skip_ws_bounds(s, from);
    if spec_skip_ws(s, from) < s.len() {
        lemma_ws_end_bounds(s, spec_skip_ws(s, from) + 1);
    }
}

pub open spec fn spec_tokens(s: Seq<char>) -> Seq<Seq<char>> {
    spec_tokens_from(s, 0)
}

fn skip_ws(s: &str, n: usize, from: usize) -> (r: usize)
    requires
        n == s@.len(),
        from <= n,
    ensures
        r == spec_skip_ws(s@, from as int),
        from <= r <= n,
{
    let mut i = from;
    while i < n
        invariant
            from <= i <= n,
            n == s@.len(),
            spec_skip_ws(s@, from as int) == spec_skip_ws(s@, i as int),
        decreases n - i,
    {
        if !is_space_c(s.get_char(i)) {
            return i;
        }
        i += 1;
    }
    i
}

fn ws_end(s: &str, n: usize, from: usize) -> (r: usize)
    requires
        n == s@.len(),
        from <= n,
    ensures
        r == spec_ws_end(s@, from as int),
        from <= r <= n,
{
    let mut i = from;
    while i < n
        invariant
            from <= i <= n,
            n == s@.len(),
            spec_ws_end(s@, from as int) == spec_ws_end(s@, i as int),
        decreases n - i,
    {
        if is_space_c(s.get_char(i)) {
            return i;
        }
        i += 1;
    }
    i
}

/// Split into whitespace-separated tokens.
fn split_ws(line: &str) -> (r: Vec<String>)
    ensures
        strs_view(r@) == spec_tokens(line@),
{
    let n = line.unicode_len();
    let mut out: Vec<String> = Vec::new();
    let mut from: usize = 0;
    while from < n
        invariant
            from <= n,
            n == line@.len(),
            spec_tokens(line@) == strs_view(out@) + spec_tokens_from(line@, from as int),
        decreases n - from,
    {
        let a = skip_ws(line, n, from);
        if a >= n {
            proof {
                assert(spec_tokens_from(line@, from as int) =~= Seq::<Seq<char>>::empty());
            }
            from = n;
        } else {
            let b = ws_end(line, n, a + 1);
            let piece = line.substring_char(a, b);
            let ghost olds = out@;
            out.push(piece.to_owned());
            proof {
                assert(strs_view(out@) =~= strs_view(olds).push(piece@));
                assert(strs_view(olds) + spec_tokens_from(line@, from as int) =~= strs_view(
                    out@,
                ) + spec_tokens_from(line@, b as int));
            }
            from = b;
        }
    }
    proof {
        if from == n {
            assert(spec_tokens_from(line@, n as int) =~= Seq::<Seq<char>>::empty());
        }
        assert(strs_view(out@) =~= spec_tokens(line@));
    }
    out
}

/// A decimal digit.
pub open spec fn is_digit(c: char) -> bool {
    '0' <= c <= '9'
}

fn is_digit_c(c: char) -> (r: bool)
    ensures
        r == is_digit(c),
{
    '0' <= c && c <= '9'
}

/// The numeric value of a digit string (most significant first).
pub open spec fn spec_digits_val(s: Seq<char>) -> int
    decreases s.len(),
{
    if s.len() == 0 {
        0
    } else {
        spec_digits_val(s.drop_last()) * 10 + (s.last() as int - 48)
    }
}

pub open spec fn all_digits(s: Seq<char>) -> bool {
    forall|i: int| 0 <= i < s.len() ==> is_digit(#[trigger] s[i])
}

/// A whole token as a u32, if it is all digits and fits.
pub open spec fn spec_parse_u32(s: Seq<char>) -> Option<u32> {
    if s.len() > 0 && all_digits(s) && spec_digits_val(s) <= 0xffff_ffff {
        Option::Some(spec_digits_val(s) as u32)
    } else {
        Option::None
    }
}

/// Parse a token as a u32 hop number.
pub fn parse_u32(s: &str) -> (r: Option<u32>)
    ensures
        r == spec_parse_u32(s@),
{
    let n = s.unicode_len();
    if n == 0 {
        return None;
    }
    let mut acc: u64 = 0;
    let mut i: usize = 0;
    while i < n
        invariant
            i <= n,
            n == s@.len(),
            n > 0,
            acc <= 0xffff_ffff,
            acc == spec_digits_val(s@.take(i as int)),
            all_digits(s@.take(i as int)),
        decreases n - i,
    {
        let c = s.get_char(i);
        if !is_digit_c(c) {
            proof {
                assert(!all_digits(s@));
            }
            return None;
        }
        proof {
            assert(s@.take(i + 1).drop_last() =~= s@.take(i as int));
            assert(s@.take(i + 1).last() == s@[i as int]);
        }
        let d = (c as u32) - 48;
        let next = acc * 10 + (d as u64);
        if next > 0xffff_ffff {
            proof {
                if all_digits(s@) {
                    lemma_digits_val_monotone(s@, i + 1);
                }
            }
            return None;
        }
        acc = next;
        i += 1;
    }
    proof {
        assert(s@.take(n as int) =~= s@);
    }
    Some(acc as u32)
}

/// A digit-string's value only grows as digits are appended.
pub proof fn lemma_digits_val_monotone(s: Seq<char>, k: int)
    requires
        0 <= k <= s.len(),
        all_digits(s),
        spec_digits_val(s.take(k)) > 0xffff_ffff,
    ensures
        spec_digits_val(s) > 0xffff_ffff,
    decreases s.len() - k,
{
    if k < s.len() {
        assert(s.take(k + 1).drop_last() =~= s.take(k));
        assert(is_digit(s.take(k + 1).last()));
        lemma_digits_val_monotone(s, k + 1);
    } else {
        assert(s.take(k) =~= s);
    }
}

/// Dot-separated parts, keeping empty parts (including a trailing one).
pub open spec fn spec_dot_parts(s: Seq<char>, from: int) -> Seq<Seq<char>>
    decreases s.len() - from,
    when 0 <= from <= s.len()
    via spec_dot_parts_decreases
{
    let k = spec_find_from(s, '.', from);
    if k >= s.len() {
        seq![s.subrange(from, s.len() as int)]
    } else {
        seq![s.subrange(from, k)] + spec_dot_parts(s, k + 1)
    }
}

#[via_fn]
proof fn spec_dot_parts_decreases(s: Seq<char>, from: int) {
    lemma_find_from_bounds(s, '.', from);
}

/// A valid dotted-quad part: one to three digits, value at most 255.
pub open spec fn ipv4_part_ok(p: Seq<char>) -> bool {
    1 <= p.len() <= 3 && all_digits(p) && spec_digits_val(p) <= 255
}

/// A dotted-quad address: exactly four valid parts.
pub open spec fn spec_is_ipv4(s: Seq<char>) -> bool {
    let parts = spec_dot_parts(s, 0);
    parts.len() == 4 && forall|i: int| 0 <= i < 4 ==> ipv4_part_ok(#[trigger] parts[i])
}

/// Check one dotted part in place.
fn ipv4_part_ok_c(s: &str, n: usize, a: usize, b: usize) -> (r: bool)
    requires
        n == s@.len(),
        a <= b <= n,
    ensures
        r == ipv4_part_ok(s@.subrange(a as int, b as int)),
{
    let len = b - a;
    if len < 1 || len > 3 {
        return false;
    }
    let mut v: u32 = 0;
    let mut i = a;
    while i < b
        invariant
            a <= i <= b <= n,
            n == s@.len(),
            b - a <= 3,
            v == spec_digits_val(s@.subrange(a as int, i as int)),
            v <= 999,
            i - a <= 2 ==> v <= 99,
            i - a <= 1 ==> v <= 9,
            i == a ==> v == 0,
            all_digits(s@.subrange(a as int, i as int)),
        decreases b - i,
    {
        let c = s.get_char(i);
        if !is_digit_c(c) {
            proof {
                assert(s@.subrange(a as int, b as int)[i - a] == s@[i as int]);
            }
            return false;
        }
        proof {
            assert(s@.subrange(a as int, i + 1).drop_last() =~= s@.subrange(a as int, i as int));
            assert(s@.subrange(a as int, i + 1).last() == s@[i as int]);
        }
        v = v * 10 + ((c as u32) - 48);
        i += 1;
    }
    proof {
        assert(s@.subrange(a as int, i as int) =~= s@.subrange(a as int, b as int));
    }
    v <= 255
}

/// Is this token a dotted-quad IPv4 address?
pub fn is_ipv4(token: &str) -> (r: bool)
    ensures
        r == spec_is_ipv4(token@),
{
    let n = token.unicode_len();
    let mut cnt: usize = 0;
    let mut ok = true;
    let mut from: usize = 0;
    loop
        invariant_except_break
            from <= n,
            n == token@.len(),
            cnt <= 4,
            spec_dot_parts(token@, 0).len() == cnt + spec_dot_parts(token@, from as int).len(),
            forall|i: int|
                0 <= i < cnt ==> spec_dot_parts(token@, 0)[i] == spec_dot_parts(
                    token@,
                    0,
                )[i],
            forall|i: int|
                cnt <= i < spec_dot_parts(token@, 0).len() ==> spec_dot_parts(token@, 0)[i]
                    == spec_dot_parts(token@, from as int)[i - cnt],
            ok == (forall|i: int|
                0 <= i < cnt ==> ipv4_part_ok(#[trigger] spec_dot_parts(token@, 0)[i])),
        ensures
            (ok && cnt == 4) == spec_is_ipv4(token@),
        decreases n - from,
    {
        let k = find_from(token, n, '.', from);
        if cnt >= 4 {
            proof {
                assert(spec_dot_parts(token@, from as int).len() >= 1);
            }
            return false;
        }
        let part_ok = ipv4_part_ok_c(token, n, from, k);
        ok = ok && part_ok;
        cnt += 1;
        proof {
            assert(spec_dot_parts(token@, 0)[cnt - 1] == spec_dot_parts(
                token@,
                from as int,
            )[0]);
            assert(spec_dot_parts(token@, from as int)[0] == token@.subrange(
                from as int,
                if k < n {
                    k as int
                } else {
                    n as int
                },
            ));
        }
        if k >= n {
            proof {
                assert(spec_dot_parts(token@, from as int).len() == 1);
            }
            if cnt == 4 && ok {
                return true;
            }
            return false;
        }
        from = k + 1;
    }
}

/// A hexadecimal digit.
pub open spec fn is_hex(c: char) -> bool {
    is_digit(c) || ('a' <= c <= 'f') || ('A' <= c <= 'F')
}

/// A rough IPv6 form: contains a colon, all characters hex digits or colons.
pub open spec fn spec_is_ipv6(s: Seq<char>) -> bool {
    s.contains(':') && forall|i: int| 0 <= i < s.len() ==> is_hex(#[trigger] s[i]) || s[i] == ':'
}

pub fn is_ipv6(token: &str) -> (r: bool)
    ensures
        r == spec_is_ipv6(token@),
{
    let n = token.unicode_len();
    let mut has_colon = false;
    let mut i: usize = 0;
    while i < n
        invariant
            i <= n,
            n == token@.len(),
            has_colon == exists|k: int| 0 <= k < i && token@[k] == ':',
            forall|k: int| 0 <= k < i ==> is_hex(#[trigger] token@[k]) || token@[k] == ':',
        decreases n - i,
    {
        let c = token.get_char(i);
        if c == ':' {
            has_colon = true;
        } else if !(is_digit_c(c) || ('a' <= c && c <= 'f') || ('A' <= c && c <= 'F')) {
            proof {
                assert(!(is_hex(token@[i as int]) || token@[i as int] == ':'));
            }
            return false;
        }
        i += 1;
    }
    proof {
        if has_colon {
            let k = choose|k: int| 0 <= k < n && token@[k] == ':';
            assert(token@.contains(':'));
        }
        if token@.contains(':') {
            let k = choose|k: int| 0 <= k < token@.len() && token@[k] == ':';
            assert(n > 0);
        }
    }
    has_colon
}

/// Does the token end in "ms"?
pub open spec fn ends_ms(s: Seq<char>) -> bool {
    s.len() >= 2 && s[s.len() - 2] == 'm' && s[s.len() - 1] == 's'
}

/// An address token: not a milliseconds reading, and one of the two forms.
pub open spec fn spec_is_ip_token(s: Seq<char>) -> bool {
    !ends_ms(s) && (spec_is_ipv4(s) || spec_is_ipv6(s))
}

pub fn is_ip_token(token: &str) -> (r: bool)
    ensures
        r == spec_is_ip_token(token@),
{
    let n = token.unicode_len();
    if n >= 2 && token.get_char(n - 2) == 'm' && token.get_char(n - 1) == 's' {
        return false;
    }
    is_ipv4(token) || is_ipv6(token)
}

/// A token that can open probe data: a loss marker or an address.
pub open spec fn spec_is_probe_start(s: Seq<char>) -> bool {
    s == seq!['*'] || spec_is_ip_token(s)
}

pub fn is_probe_start(token: &str) -> (r: bool)
    ensures
        r == spec_is_probe_start(token@),
{
    let n = token.unicode_len();
    if n == 1 && token.get_char(0) == '*' {
        proof {
            assert(token@ =~= seq!['*']);
        }
        return true;
    }
    proof {
        if token@ == seq!['*'] {
            assert(token@.len() == 1 && token@[0] == '*');
        }
    }
    is_ip_token(token)
}

/// A decimal milliseconds reading as integer microseconds: an optional
/// fractional part, truncated past three digits. Rejects anything that is
/// not plain digits around at most one dot, and integer parts so long they
/// could not carry a real reading.
pub open spec fn spec_decimal_us(s: Seq<char>) -> Option<u64> {
    let dot = spec_find_from(s, '.', 0);
    let ip = s.subrange(0, if dot < s.len() {
        dot
    } else {
        s.len() as int
    });
    let fp = if dot < s.len() {
        s.subrange(dot + 1, s.len() as int)
    } else {
        Seq::empty()
    };
    if all_digits(ip) && all_digits(fp) && ip.len() + fp.len() >= 1 && ip.len() <= 15 {
        let f3 = if fp.len() >= 3 {
            fp.subrange(0, 3)
        } else {
            fp
        };
        let scale = if f3.len() == 0 {
            1000int
        } else if f3.len() == 1 {
            100int
        } else if f3.len() == 2 {
            10int
        } else {
            1int
        };
        Option::Some((spec_digits_val(ip) * 1000 + spec_digits_val(f3) * scale) as u64)
    } else {
        Option::None
    }
}

/// Ten to a small power.
pub open spec fn ten_pow(k: int) -> int
    decreases k,
{
    if k <= 0 {
        1
    } else {
        10 * ten_pow(k - 1)
    }
}

/// A digit string's value is bounded by ten to its length.
proof fn lemma_digits_val_bound(s: Seq<char>, cap: int)
    requires
        all_digits(s),
        s.len() <= cap,
        0 <= cap,
    ensures
        0 <= spec_digits_val(s) < ten_pow(cap),
    decreases s.len(),
{
    if s.len() == 0 {
        lemma_ten_pow_pos(cap);
    } else {
        lemma_digits_val_bound(s.drop_last(), cap - 1);
    }
}

proof fn lemma_ten_pow_pos(k: int)
    ensures
        ten_pow(k) >= 1,
    decreases k,
{
    if k > 0 {
        lemma_ten_pow_pos(k - 1);
    }
}

/// Check a whole string for digits.
fn all_digits_check(s: &str) -> (r: bool)
    ensures
        r == all_digits(s@),
{
    let n = s.unicode_len();
    let mut i: usize = 0;
    while i < n
        invariant
            i <= n,
            n == s@.len(),
            forall|k: int| 0 <= k < i ==> is_digit(#[trigger] s@[k]),
        decreases n - i,
    {
        if !is_digit_c(s.get_char(i)) {
            return false;
        }
        i += 1;
    }
    true
}

/// The value of an all-digit string of at most 15 digits.
fn digits_val15(s: &str) -> (r: u64)
    requires
        all_digits(s@),
        s@.len() <= 15,
    ensures
        r == spec_digits_val(s@),
        r < 0x38D7EA4C68000,
{
    let n = s.unicode_len();
    let mut acc: u64 = 0;
    let mut i: usize = 0;
    proof {
        assert(s@.take(0) =~= Seq::<char>::empty());
    }
    while i < n
        invariant
            i <= n <= 15,
            n == s@.len(),
            all_digits(s@),
            acc == spec_digits_val(s@.take(i as int)),
            acc < 0x38D7EA4C68000,
        decreases n - i,
    {
        proof {
            assert(s@.take(i + 1).drop_last() =~= s@.take(i as int));
            assert(s@.take(i + 1).last() == s@[i as int]);
            assert(all_digits(s@.take(i + 1)));
            lemma_digits_val_bound(s@.take(i + 1), 15);
            assert(ten_pow(15) == 1000000000000000) by {
                reveal_with_fuel(ten_pow, 16);
            };
        }
        let c = s.get_char(i);
        acc = acc * 10 + (((c as u32) - 48) as u64);
        i += 1;
    }
    proof {
        assert(s@.take(n as int) =~= s@);
        lemma_digits_val_bound(s@, 15);
        assert(ten_pow(15) == 1000000000000000) by {
            reveal_with_fuel(ten_pow, 16);
        };
    }
    acc
}

/// Parse a milliseconds token into microseconds.
fn decimal_us(s: &str) -> (r: Option<u64>)
    ensures
        r == spec_decimal_us(s@),
{
    let n = s.unicode_len();
    let dot = find_from(s, n, '.', 0);
    let ip_end = if dot < n {
        dot
    } else {
        n
    };
    let ips = s.substring_char(0, ip_end);
    let fps = if dot < n {
        s.substring_char(dot + 1, n)
    } else {
        s.substring_char(n, n)
    };
    proof {
        if !(dot < n) {
            assert(fps@ =~= Seq::<char>::empty());
        }
    }
    if ip_end > 15 {
        return None;
    }
    if !all_digits_check(ips) {
        return None;
    }
    if !all_digits_check(fps) {
        return None;
    }
    let flen = fps.unicode_len();
    if ip_end == 0 && flen == 0 {
        return None;
    }
    let ipv = digits_val15(ips);
    let f3s = if flen >= 3 {
        fps.substring_char(0, 3)
    } else {
        fps
    };
    proof {
        if flen < 3 {
            assert(f3s@ =~= fps@);
        }
        assert(all_digits(f3s@));
    }
    let f3 = digits_val15(f3s);
    proof {
        lemma_digits_val_bound(f3s@, 3);
        assert(ten_pow(3) == 1000) by {
            reveal_with_fuel(ten_pow, 4);
        };
    }
    let fcnt = f3s.unicode_len();
    let scale: u64 = if fcnt == 0 {
        1000
    } else if fcnt == 1 {
        100
    } else if fcnt == 2 {
        10
    } else {
        1
    };
    Some(ipv * 1000 + f3 * scale)
}

/// A probe reading: either "<num>ms" in one token, or "<num>" followed by a
/// token starting with "ms" (the flag says the next token was consumed).
pub open spec fn spec_parse_rtt(tok: Seq<char>, next: Option<Seq<char>>) -> Option<(u64, bool)> {
    let stripped = if ends_ms(tok) {
        spec_decimal_us(tok.subrange(0, tok.len() - 2))
    } else {
        Option::None
    };
    if stripped is Some {
        Option::Some((stripped->Some_0, false))
    } else {
        match spec_decimal_us(tok) {
            Option::Some(v) => match next {
                Option::Some(nx) => if nx.len() >= 2 && nx[0] == 'm' && nx[1] == 's' {
                    Option::Some((v, true))
                } else {
                    Option::None
                },
                Option::None => Option::None,
            },
            Option::None => Option::None,
        }
    }
}

fn parse_rtt(tok: &str, next: Option<&String>) -> (r: Option<(u64, bool)>)
    ensures
        r == spec_parse_rtt(tok@, match next {
            Option::Some(s) => Option::Some(s@),
            Option::None => Option::None::<Seq<char>>,
        }),
{
    let n = tok.unicode_len();
    if n >= 2 && tok.get_char(n - 2) == 'm' && tok.get_char(n - 1) == 's' {
        let num = tok.substring_char(0, n - 2);
        if let Some(v) = decimal_us(num) {
            return Some((v, false));
        }
    }
    match decimal_us(tok) {
        Some(v) => {
            match next {
                Some(nx) => {
                    let nxs = nx.as_str();
                    let m = nxs.unicode_len();
                    if m >= 2 && nxs.get_char(0) == 'm' && nxs.get_char(1) == 's' {
                        Some((v, true))
                    } else {
                        None
                    }
                },
                None => None,
            }
        },
        None => None,
    }
}

/// Fold probe tokens into (address, readings), starting at token `i`:
/// "*" records a loss, "!" annotations are skipped, the first address token
/// fixes the hop address, a readings pair may consume its "ms" neighbor.
pub open spec fn spec_probe_step(
    toks: Seq<Seq<char>>,
    i: int,
    ip: Option<Seq<char>>,
    rtt: Seq<Option<u64>>,
) -> (Option<Seq<char>>, Seq<Option<u64>>)
    decreases toks.len() - i,
    when i >= 0
{
    if i >= toks.len() {
        (ip, rtt)
    } else {
        let t = toks[i];
        if t == seq!['*'] {
            spec_probe_step(toks, i + 1, ip, rtt.push(Option::None))
        } else if t.len() > 0 && t[0] == '!' {
            spec_probe_step(toks, i + 1, ip, rtt)
        } else if spec_is_ip_token(t) {
            let ip2 = if ip is None {
                Option::Some(t)
            } else {
                ip
            };
            spec_probe_step(toks, i + 1, ip2, rtt)
        } else {
            let next = if i + 1 < toks.len() {
                Option::Some(toks[i + 1])
            } else {
                Option::None
            };
            match spec_parse_rtt(t, next) {
                Option::Some(vc) => if vc.1 {
                    spec_probe_step(toks, i + 2, ip, rtt.push(Option::Some(vc.0)))
                } else {
                    spec_probe_step(toks, i + 1, ip, rtt.push(Option::Some(vc.0)))
                },
                Option::None => spec_probe_step(toks, i + 1, ip, rtt),
            }
        }
    }
}

/// The view of an optional owned address.
pub open spec fn opt_view(ip: Option<String>) -> Option<Seq<char>> {
    match ip {
        Option::Some(s) => Option::Some(s@),
        Option::None => Option::None,
    }
}

/// Fold the probe tokens of one line.
fn probe_tokens(toks: &Vec<String>, start: usize, ip0: Option<String>, rtt0: Vec<Option<u64>>) -> (r:
    (Option<String>, Vec<Option<u64>>))
    ensures
        (opt_view(r.0), r.1@) == spec_probe_step(strs_view(toks@), start as int, opt_view(ip0), rtt0@),
{
    let mut ip = ip0;
    let mut rtt = rtt0;
    let n = toks.len();
    let mut i = start;
    while i < n
        invariant
            n == toks@.len(),
            spec_probe_step(strs_view(toks@), start as int, opt_view(ip0), rtt0@)
                == spec_probe_step(strs_view(toks@), i as int, opt_view(ip), rtt@),
        decreases n - i,
    {
        let t = toks[i].as_str();
        let tn = t.unicode_len();
        if tn == 1 && t.get_char(0) == '*' {
            proof {
                assert(t@ =~= seq!['*']);
            }
            rtt.push(None);
            i += 1;
        } else if tn > 0 && t.get_char(0) == '!' {
            proof {
                assert(!(t@ =~= seq!['*']));
            }
            i += 1;
        } else if is_ip_token(t) {
            proof {
                if t@ == seq!['*'] {
                    assert(t@.len() == 1 && t@[0] == '*');
                }
            }
            if ip.is_none() {
                ip = Some(toks[i].clone());
                proof {
                    assert(opt_view(ip) == Option::Some(t@));
                }
            }
            i += 1;
        } else {
            proof {
                if t@ == seq!['*'] {
                    assert(t@.len() == 1 && t@[0] == '*');
                }
            }
            let consumed;
            let parsed = if i + 1 < n {
                parse_rtt(t, Some(&toks[i + 1]))
            } else {
                parse_rtt(t, None)
            };
            match parsed {
                Some(vc) => {
                    rtt.push(Some(vc.0));
                    consumed = vc.1;
                },
                None => {
                    consumed = false;
                },
            }
            if consumed {
                i += 2;
            } else {
                i += 1;
            }
        }
    }
    (ip, rtt)
}

/// What one hop-opening line yields: its number and its probe data.
pub open spec fn spec_parse_hop(line: Seq<char>) -> Option<HopView> {
    let toks = spec_tokens(line);
    if toks.len() == 0 {
        Option::None
    } else {
        match spec_parse_u32(toks[0]) {
            Option::Some(ttl) => {
                let pr = spec_probe_step(toks, 1, Option::None, Seq::empty());
                Option::Some(HopView { ttl, ip: pr.0, rtt_micros: pr.1 })
            },
            Option::None => Option::None,
        }
    }
}

/// Why a parse failed.
#[derive(Clone, Copy, Debug, PartialEq, Eq)]
pub enum ParseError {
    /// No header carried a target and no usable fallback was given.
    MissingTarget,
    /// A hop line opened with a number that does not fit.
    BadHopLine,
}

/// One parsed traceroute run.
#[derive(Clone, Debug, PartialEq)]
pub struct ParsedTraceRun {
    pub target: String,
    pub hops: Vec<Hop>,
}

pub struct ParsedTraceRunView {
    pub target: Seq<char>,
    pub hops: Seq<crate::model::HopView>,
}

impl View for ParsedTraceRun {
    type V = ParsedTraceRunView;

    open spec fn view(&self) -> ParsedTraceRunView {
        ParsedTraceRunView {
            target: self.target@,
            hops: Seq::new(self.hops@.len(), |i: int| self.hops@[i]@),
        }
    }
}

/// The line scanner's state: the target seen so far, the hops, and whether a
/// hop is open for probe continuation lines (always the last one).
pub open spec fn spec_scan_step(
    st: (Option<Seq<char>>, Seq<HopView>, bool),
    line: Seq<char>,
) -> Result<(Option<Seq<char>>, Seq<HopView>, bool), ()> {
    let t = spec_trim(line);
    if t.len() == 0 {
        Result::Ok(st)
    } else if matches_ci_at(t, "traceroute"@, 0) {
        if st.0 is None {
            Result::Ok((spec_parse_target(t), st.1, st.2))
        } else {
            Result::Ok(st)
        }
    } else {
        let toks = spec_tokens(t);
        if toks.len() == 0 {
            Result::Ok(st)
        } else if toks[0].len() > 0 && all_digits(toks[0]) {
            match spec_parse_hop(t) {
                Option::Some(h) => Result::Ok((st.0, st.1.push(h), true)),
                Option::None => Result::Err(()),
            }
        } else if st.2 && st.1.len() > 0 && spec_is_probe_start(toks[0]) {
            let last = st.1.last();
            let upd = spec_probe_step(toks, 0, last.ip, last.rtt_micros);
            Result::Ok(
                (
                    st.0,
                    st.1.update(
                        st.1.len() - 1,
                        HopView { ttl: last.ttl, ip: upd.0, rtt_micros: upd.1 },
                    ),
                    st.2,
                ),
            )
        } else {
            Result::Ok(st)
        }
    }
}

/// Scan all lines in order, stopping at the first bad hop line.
pub open spec fn spec_scan(lines: Seq<Seq<char>>) -> Result<
    (Option<Seq<char>>, Seq<HopView>, bool),
    (),
>
    decreases lines.len(),
{
    if lines.len() == 0 {
        Result::Ok((Option::None, Seq::empty(), false))
    } else {
        match spec_scan(lines.drop_last()) {
            Result::Ok(st) => spec_scan_step(st, lines.last()),
            Result::Err(e) => Result::Err(e),
        }
    }
}

/// What parsing a whole text yields under an optional fallback target.
pub open spec fn spec_parse_run(text: Seq<char>, fallback: Option<Seq<char>>) -> Result<
    (Seq<char>, Seq<HopView>),
    ParseError,
> {
    match spec_scan(spec_lines(text)) {
        Result::Err(e) => Result::Err(ParseError::BadHopLine),
        Result::Ok(st) => match st.0 {
            Option::Some(t) => Result::Ok((t, st.1)),
            Option::None => match fallback {
                Option::Some(f) => if spec_trim(f).len() > 0 {
                    Result::Ok((f, st.1))
                } else {
                    Result::Err(ParseError::MissingTarget)
                },
                Option::None => Result::Err(ParseError::MissingTarget),
            },
        },
    }
}

/// What `message` returns for each failure kind.
pub open spec fn spec_parse_error_text(e: ParseError) -> Seq<char> {
    match e {
        ParseError::MissingTarget => "missing target in traceroute output"@,
        ParseError::BadHopLine => "invalid hop line"@,
    }
}

impl ParseError {
    /// A short description for log lines.
    pub fn message(&self) -> (r: &'static str)
        ensures
            r@ == spec_parse_error_text(*self),
    {
        match self {
            ParseError::MissingTarget => "missing target in traceroute output",
            ParseError::BadHopLine => "invalid hop line",
        }
    }
}

/// The views of a hop list.
pub open spec fn hops_view(s: Seq<Hop>) -> Seq<HopView> {
    s.map_values(|h: Hop| h@)
}

/// Once the scan has failed, it stays failed.
pub proof fn lemma_scan_err(lines: Seq<Seq<char>>, i: int)
    requires
        0 <= i <= lines.len(),
        spec_scan(lines.take(i)) is Err,
    ensures
        spec_scan(lines) is Err,
    decreases lines.len() - i,
{
    if i < lines.len() {
        assert(lines.take(i + 1).drop_last() =~= lines.take(i));
        lemma_scan_err(lines, i + 1);
    } else {
        assert(lines.take(i) =~= lines);
    }
}

/// Parse one traceroute output, with an optional fallback target to use when
/// no header names one. `spec_parse_run` states the result exactly.
fn parse_run_inner(text: &str, fallback: Option<&str>) -> (r: Result<ParsedTraceRun, ParseError>)
    ensures
        ({
            let spec = spec_parse_run(
                text@,
                match fallback {
                    Option::Some(f) => Option::Some(f@),
                    Option::None => Option::None::<Seq<char>>,
                },
            );
            match r {
                Result::Ok(run) => spec matches Ok(p) && run@.target == p.0 && run@.hops == p.1,
                Result::Err(e) => spec matches Err(pe) && e == pe,
            }
        }),
{
    let lines = split_lines(text);
    let n = lines.len();
    let mut target: Option<String> = None;
    let mut hops: Vec<Hop> = Vec::new();
    let mut active = false;
    let mut cur_ttl: u32 = 0;
    let mut cur_ip: Option<String> = None;
    let mut cur_rtt: Vec<Option<u64>> = Vec::new();
    let mut i: usize = 0;
    proof {
        assert(strs_view(lines@).take(0) =~= Seq::<Seq<char>>::empty());
        assert(hops_view(hops@) + Seq::<HopView>::empty() =~= Seq::<HopView>::empty());
    }
    while i < n
        invariant
            i <= n,
            n == lines@.len(),
            strs_view(lines@) == spec_lines(text@),
            spec_scan(strs_view(lines@).take(i as int)) == Result::<
                (Option<Seq<char>>, Seq<HopView>, bool),
                (),
            >::Ok(
                (
                    opt_view(target),
                    hops_view(hops@) + (if active {
                        seq![
                            HopView {
                                ttl: cur_ttl,
                                ip: opt_view(cur_ip),
                                rtt_micros: cur_rtt@,
                            },
                        ]
                    } else {
                        Seq::<HopView>::empty()
                    }),
                    active,
                ),
            ),
        decreases n - i,
    {
        proof {
            assert(strs_view(lines@).take(i + 1).drop_last() =~= strs_view(lines@).take(i as int));
            assert(strs_view(lines@).take(i + 1).last() == lines@[i as int]@);
        }
        let ghost pre_state = (
            opt_view(target),
            hops_view(hops@) + (if active {
                seq![HopView { ttl: cur_ttl, ip: opt_view(cur_ip), rtt_micros: cur_rtt@ }]
            } else {
                Seq::<HopView>::empty()
            }),
            active,
        );
        let line = lines[i].as_str();
        let ln = line.unicode_len();
        let t = trim_str(line, ln);
        let tn = t.unicode_len();
        if tn == 0 {
            i += 1;
            continue ;
        }
        proof {
            reveal_strlit("traceroute");
        }
        let pat = "traceroute";
        let is_header = if tn >= 10 {
            matches_ci_at_c(t, tn, pat, 10, 0)
        } else {
            false
        };
        if is_header {
            if target.is_none() {
                target = parse_target(t);
            }
            i += 1;
            continue ;
        }
        let toks = split_ws(t);
        if toks.len() == 0 {
            i += 1;
            continue ;
        }
        let tok0 = toks[0].as_str();
        let t0n = tok0.unicode_len();
        proof {
            assert(strs_view(toks@)[0] == tok0@);
        }
        if t0n > 0 && all_digits_check(tok0) {
            match parse_u32(tok0) {
                Some(ttl) => {
                    if active {
                        let done = Hop { ttl: cur_ttl, ip: cur_ip, rtt_micros: cur_rtt };
                        let ghost oldh = hops@;
                        hops.push(done);
                        proof {
                            assert(hops_view(hops@) =~= hops_view(oldh).push(done@));
                        }
                        cur_ip = None;
                        cur_rtt = Vec::new();
                    } else {
                        cur_ip = None;
                        cur_rtt = Vec::new();
                    }
                    let (nip, nrtt) = probe_tokens(&toks, 1, None, Vec::new());
                    cur_ttl = ttl;
                    cur_ip = nip;
                    cur_rtt = nrtt;
                    active = true;
                    proof {
                        let h = spec_parse_hop(t@);
                        assert(h == Option::Some(
                            HopView { ttl: cur_ttl, ip: opt_view(cur_ip), rtt_micros: cur_rtt@ },
                        ));
                        assert(pre_state.1.push(h->Some_0) =~= hops_view(hops@) + seq![
                            HopView {
                                ttl: cur_ttl,
                                ip: opt_view(cur_ip),
                                rtt_micros: cur_rtt@,
                            },
                        ]);
                    }
                },
                None => {
                    proof {
                        lemma_scan_err(strs_view(lines@), i + 1);
                    }
                    return Err(ParseError::BadHopLine);
                },
            }
        } else if active && is_probe_start(tok0) {
            let (nip, nrtt) = probe_tokens(&toks, 0, cur_ip, cur_rtt);
            cur_ip = nip;
            cur_rtt = nrtt;
            proof {
                assert(pre_state.1.len() > 0);
                assert(pre_state.1.last() == (HopView {
                    ttl: cur_ttl,
                    ip: pre_state.1.last().ip,
                    rtt_micros: pre_state.1.last().rtt_micros,
                }));
                assert(pre_state.1.update(
                    pre_state.1.len() - 1,
                    HopView { ttl: cur_ttl, ip: opt_view(cur_ip), rtt_micros: cur_rtt@ },
                ) =~= hops_view(hops@) + seq![
                    HopView { ttl: cur_ttl, ip: opt_view(cur_ip), rtt_micros: cur_rtt@ },
                ]);
            }
        }
        i += 1;
    }
    proof {
        assert(strs_view(lines@).take(n as int) =~= strs_view(lines@));
    }
    if active {
        let done = Hop { ttl: cur_ttl, ip: cur_ip, rtt_micros: cur_rtt };
        let ghost oldh = hops@;
        hops.push(done);
        proof {
            assert(hops_view(hops@) =~= hops_view(oldh).push(done@));
            assert(hops_view(hops@) =~= hops_view(oldh) + seq![done@]);
        }
    } else {
        proof {
            assert(hops_view(hops@) + Seq::<HopView>::empty() =~= hops_view(hops@));
        }
    }
    let tgt: String = match target {
        Some(tg) => tg,
        None => {
            match fallback {
                Some(f) => {
                    let fl = f.unicode_len();
                    let ftrim = trim_str(f, fl);
                    if ftrim.unicode_len() > 0 {
                        f.to_owned()
                    } else {
                        return Err(ParseError::MissingTarget);
                    }
                },
                None => {
                    return Err(ParseError::MissingTarget);
                },
            }
        },
    };
    let run = ParsedTraceRun { target: tgt, hops };
    proof {
        assert(run@.hops =~= hops_view(run.hops@));
    }
    Ok(run)
}

/// Parse a traceroute output; the target must come from a header line.
pub fn parse_traceroute_n(text: &str) -> (r: Result<ParsedTraceRun, ParseError>)
    ensures
        ({
            let spec = spec_parse_run(text@, Option::None);
            match r {
                Result::Ok(run) => spec matches Ok(p) && run@.target == p.0 && run@.hops == p.1,
                Result::Err(e) => spec matches Err(pe) && e == pe,
            }
        }),
{
    parse_run_inner(text, None)
}

/// Parse a traceroute output, falling back to the given target when no
/// header names one (blank fallbacks do not count).
pub fn parse_traceroute_n_with_target(text: &str, fallback_target: &str) -> (r: Result<
    ParsedTraceRun,
    ParseError,
>)
    ensures
        ({
            let spec = spec_parse_run(text@, Option::Some(fallback_target@));
            match r {
                Result::Ok(run) => spec matches Ok(p) && run@.target == p.0 && run@.hops == p.1,
                Result::Err(e) => spec matches Err(pe) && e == pe,
            }
        }),
{
    parse_run_inner(text, Some(fallback_target))
}

} // verus!
