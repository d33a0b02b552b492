//! Byte-level scanning of ASCII-structured source text: line and word
//! splitting, substring search, trimming and the numeric literal grammars the
//! circuit front ends accept.
use vstd::prelude::*;
use vstd::string::StringSliceAdditionalSpecFns;

verus! {

pub const TAB: u8 = 0x09;
pub const NEWLINE: u8 = 0x0a;
pub const CARRIAGE_RETURN: u8 = 0x0d;
pub const SPACE: u8 = 0x20;
pub const QUOTE: u8 = 0x22;
pub const HASH: u8 = 0x23;
pub const OPEN_PAREN: u8 = 0x28;
pub const CLOSE_PAREN: u8 = 0x29;
pub const PLUS: u8 = 0x2b;
pub const COMMA: u8 = 0x2c;
pub const MINUS: u8 = 0x2d;
pub const DOT: u8 = 0x2e;
pub const DIGIT_ZERO: u8 = 0x30;
pub const DIGIT_NINE: u8 = 0x39;
pub const UPPER_A: u8 = 0x41;
pub const UPPER_Z: u8 = 0x5a;
pub const LOWER_E: u8 = 0x65;
pub const CLOSE_BRACE: u8 = 0x7d;

/// ASCII whitespace as `char::is_whitespace` sees it: space, tab, line feed,
/// vertical tab, form feed and carriage return.
pub open spec fn is_space(b: u8) -> bool {
    b == SPACE || (TAB <= b && b <= CARRIAGE_RETURN)
}

pub open spec fn is_digit(b: u8) -> bool {
    DIGIT_ZERO <= b && b <= DIGIT_NINE
}

pub open spec fn lower_byte(b: u8) -> u8 {
    if UPPER_A <= b && b <= UPPER_Z {
        (b + 0x20) as u8
    } else {
        b
    }
}

/// ASCII lower-casing; other bytes are kept.
pub open spec fn lower(s: Seq<u8>) -> Seq<u8> {
    s.map_values(|b: u8| lower_byte(b))
}

pub open spec fn opt_int(o: Option<usize>) -> Option<int> {
    match o {
        Some(i) => Some(i as int),
        None => None,
    }
}

pub open spec fn occurs_at(s: Seq<u8>, p: Seq<u8>, i: int) -> bool {
    0 <= i && i + p.len() <= s.len() && s.subrange(i, i + p.len()) == p
}

/// The least index at or after `i` where `p` occurs in `s`.
pub open spec fn first_occurrence_from(s: Seq<u8>, p: Seq<u8>, i: int) -> Option<int>
    decreases s.len() - i,
{
    if i < 0 || i + p.len() > s.len() {
        None
    } else if occurs_at(s, p, i) {
        Some(i)
    } else if i >= s.len() {
        None
    } else {
        first_occurrence_from(s, p, i + 1)
    }
}

pub open spec fn first_occurrence(s: Seq<u8>, p: Seq<u8>) -> Option<int> {
    first_occurrence_from(s, p, 0)
}

pub open spec fn has_substring(s: Seq<u8>, p: Seq<u8>) -> bool {
    first_occurrence(s, p) is Some
}

pub open spec fn has_prefix(s: Seq<u8>, p: Seq<u8>) -> bool {
    p.len() <= s.len() && s.take(p.len() as int) == p
}

pub open spec fn has_suffix(s: Seq<u8>, p: Seq<u8>) -> bool {
    p.len() <= s.len() && s.skip(s.len() - p.len()) == p
}

/// The greatest index below `j` that holds `b`.
pub open spec fn last_occurrence_before(s: Seq<u8>, b: u8, j: int) -> Option<int>
    decreases j,
{
    if j <= 0 {
        None
    } else if s[j - 1] == b {
        Some(j - 1)
    } else {
        last_occurrence_before(s, b, j - 1)
    }
}

pub open spec fn last_occurrence(s: Seq<u8>, b: u8) -> Option<int> {
    last_occurrence_before(s, b, s.len() as int)
}

pub open spec fn trim_start(s: Seq<u8>) -> Seq<u8>
    decreases s.len(),
{
    if s.len() > 0 && is_space(s[0]) {
        trim_start(s.drop_first())
    } else {
        s
    }
}

pub open spec fn trim_end(s: Seq<u8>) -> Seq<u8>
    decreases s.len(),
{
    if s.len() > 0 && is_space(s.last()) {
        trim_end(s.drop_last())
    } else {
        s
    }
}

/// `s` without leading and trailing whitespace.
pub open spec fn trimmed(s: Seq<u8>) -> Seq<u8> {
    trim_end(trim_start(s))
}

/// Spans of the pieces of `s` between line feeds, scanning from `i` with the
/// current piece begun at `start`. A text with `n` line feeds has `n + 1` pieces.
pub open spec fn line_spans_from(s: Seq<u8>, i: int, start: int) -> Seq<(int, int)>
    decreases s.len() - i,
{
    if i >= s.len() {
        seq![(start, s.len() as int)]
    } else if s[i] == NEWLINE {
        seq![(start, i)] + line_spans_from(s, i + 1, i + 1)
    } else {
        line_spans_from(s, i + 1, start)
    }
}

pub open spec fn line_spans(s: Seq<u8>) -> Seq<(int, int)> {
    line_spans_from(s, 0, 0)
}

/// The lines of `s`, in order.
pub open spec fn lines(s: Seq<u8>) -> Seq<Seq<u8>> {
    line_spans(s).map_values(|sp: (int, int)| s.subrange(sp.0, sp.1))
}

/// Spans of the maximal runs of non-whitespace bytes of `s` from `i` on;
/// `start` is where the current run began, or -1 outside a run.
pub open spec fn word_spans_from(s: Seq<u8>, i: int, start: int) -> Seq<(int, int)>
    decreases s.len() - i,
{
    if i >= s.len() {
        if start >= 0 {
            seq![(start, s.len() as int)]
        } else {
            seq![]
        }
    } else if is_space(s[i]) {
        if start >= 0 {
            seq![(start, i)] + word_spans_from(s, i + 1, -1)
        } else {
            word_spans_from(s, i + 1, -1)
        }
    } else {
        word_spans_from(s, i + 1, if start >= 0 { start } else { i })
    }
}

pub open spec fn word_spans(s: Seq<u8>) -> Seq<(int, int)> {
    word_spans_from(s, 0, -1)
}

/// The `k`-th whitespace-separated word of `s`.
pub open spec fn word(s: Seq<u8>, k: int) -> Seq<u8> {
    s.subrange(word_spans(s)[k].0, word_spans(s)[k].1)
}

/// Every span lies within a text of length `len`.
pub open spec fn spans_within(v: Seq<(usize, usize)>, len: nat) -> bool {
    forall|k: int| 0 <= k < v.len() ==> #[trigger] v[k].0 <= v[k].1 && v[k].1 <= len
}

/// Every span is non-empty and lies within a text of length `len`.
pub open spec fn words_within(v: Seq<(usize, usize)>, len: nat) -> bool {
    forall|k: int| 0 <= k < v.len() ==> #[trigger] v[k].0 < v[k].1 && v[k].1 <= len
}

pub open spec fn spans_view(v: Seq<(usize, usize)>) -> Seq<(int, int)> {
    v.map_values(|p: (usize, usize)| (p.0 as int, p.1 as int))
}

pub open spec fn all_digits(d: Seq<u8>) -> bool {
    forall|i: int| 0 <= i < d.len() ==> is_digit(#[trigger] d[i])
}

/// The number that a run of decimal digits denotes.
pub open spec fn digits_value(d: Seq<u8>) -> nat
    decreases d.len(),
{
    if d.len() == 0 {
        0
    } else {
        digits_value(d.drop_last()) * 10 + (d.last() - DIGIT_ZERO) as nat
    }
}

/// `t` without one leading `+`.
pub open spec fn without_plus(t: Seq<u8>) -> Seq<u8> {
    if t.len() > 0 && t[0] == PLUS {
        t.drop_first()
    } else {
        t
    }
}

/// `t` without one leading `+` or `-`.
pub open spec fn without_sign(t: Seq<u8>) -> Seq<u8> {
    if t.len() > 0 && (t[0] == PLUS || t[0] == MINUS) {
        t.drop_first()
    } else {
        t
    }
}

/// An unsigned 32-bit decimal: an optional `+`, then one or more digits whose
/// value fits in 32 bits.
pub open spec fn u32_value(t: Seq<u8>) -> Option<u32> {
    let d = without_plus(t);
    if d.len() > 0 && all_digits(d) && digits_value(d) <= u32::MAX {
        Some(digits_value(d) as u32)
    } else {
        None
    }
}

/// The number of leading digits of `s` from `i` on.
pub open spec fn digit_run_end(s: Seq<u8>, i: int) -> int
    decreases s.len() - i,
{
    if 0 <= i < s.len() && is_digit(s[i]) {
        digit_run_end(s, i + 1)
    } else {
        i
    }
}

/// Digits and at most one point, with at least one digit.
pub open spec fn is_mantissa(m: Seq<u8>) -> bool {
    &&& forall|i: int| 0 <= i < m.len() ==> is_digit(#[trigger] m[i]) || m[i] == DOT
    &&& forall|i: int, j: int|
        0 <= i < m.len() && 0 <= j < m.len() && #[trigger] m[i] == DOT && #[trigger] m[j] == DOT
            ==> i == j
    &&& exists|i: int| 0 <= i < m.len() && is_digit(#[trigger] m[i])
}

/// An optional sign followed by one or more digits.
pub open spec fn is_exponent(x: Seq<u8>) -> bool {
    without_sign(x).len() > 0 && all_digits(without_sign(x))
}

/// A lower-cased decimal number: a mantissa, then optionally `e` and an exponent.
pub open spec fn is_decimal(u: Seq<u8>) -> bool {
    match first_occurrence(u, seq![LOWER_E]) {
        None => is_mantissa(u),
        Some(e) => is_mantissa(u.take(e)) && is_exponent(u.skip(e + 1)),
    }
}

/// A floating-point literal: an optional sign, then `inf`, `infinity`, `nan`
/// (in any case) or a decimal number with an optional exponent. These are
/// exactly the texts that the standard library's float parser accepts.
pub open spec fn is_float_literal(t: Seq<u8>) -> bool {
    let u = lower(without_sign(t));
    ||| u == "inf".spec_bytes()
    ||| u == "infinity".spec_bytes()
    ||| u == "nan".spec_bytes()
    ||| is_decimal(u)
}

pub fn is_space_byte(b: u8) -> (r: bool)
    ensures
        r == is_space(b),
{
    b == SPACE || (TAB <= b && b <= CARRIAGE_RETURN)
}

pub fn is_digit_byte(b: u8) -> (r: bool)
    ensures
        r == is_digit(b),
{
    DIGIT_ZERO <= b && b <= DIGIT_NINE
}

/// Copies `s[a..b]`.
pub fn copy_range(s: &[u8], a: usize, b: usize) -> (r: Vec<u8>)
    requires
        a <= b <= s@.len(),
    ensures
        r@ == s@.subrange(a as int, b as int),
{
    let mut r: Vec<u8> = Vec::new();
    let mut i: usize = a;
    while i < b
        invariant
            a <= i <= b,
            b <= s@.len(),
            r@ =~= s@.subrange(a as int, i as int),
        decreases b - i,
    {
        r.push(s[i]);
        i = i + 1;
    }
    r
}

pub fn to_lower(s: &[u8]) -> (r: Vec<u8>)
    ensures
        r@ == lower(s@),
{
    let mut r: Vec<u8> = Vec::new();
    let mut i: usize = 0;
    while i < s.len()
        invariant
            i <= s@.len(),
            r@.len() == i,
            forall|k: int| 0 <= k < i ==> r@[k] == lower_byte(#[trigger] s@[k]),
        decreases s@.len() - i,
    {
        let b = s[i];
        let l: u8 = if UPPER_A <= b && b <= UPPER_Z {
            b + 0x20
        } else {
            b
        };
        r.push(l);
        i = i + 1;
    }
    assert(r@ =~= lower(s@));
    r
}

pub fn bytes_eq(a: &[u8], b: &[u8]) -> (r: bool)
    ensures
        r == (a@ == b@),
{
    if a.len() != b.len() {
        return false;
    }
    let mut i: usize = 0;
    while i < a.len()
        invariant
            a@.len() == b@.len(),
            i <= a@.len(),
            forall|k: int| 0 <= k < i ==> a@[k] == b@[k],
        decreases a@.len() - i,
    {
        if a[i] != b[i] {
            return false;
        }
        i = i + 1;
    }
    assert(a@ =~= b@);
    true
}

fn matches_at(s: &[u8], p: &[u8], i: usize) -> (r: bool)
    requires
        i + p@.len() <= s@.len(),
    ensures
        r == occurs_at(s@, p@, i as int),
{
    let n = s.len();
    let mut k: usize = 0;
    while k < p.len()
        invariant
            k <= p@.len(),
            n == s@.len(),
            i + p@.len() <= n,
            forall|j: int| 0 <= j < k ==> s@[i + j] == p@[j],
        decreases p@.len() - k,
    {
        if s[i + k] != p[k] {
            assert(s@.subrange(i as int, i + p@.len())[k as int] != p@[k as int]);
            return false;
        }
        k = k + 1;
    }
    assert(s@.subrange(i as int, i + p@.len()) =~= p@);
    true
}

/// The first index where `p` occurs in `s`.
pub fn find(s: &[u8], p: &[u8]) -> (r: Option<usize>)
    ensures
        opt_int(r) == first_occurrence(s@, p@),
        r is Some ==> occurs_at(s@, p@, r.unwrap() as int),
{
    if p.len() > s.len() {
        return None;
    }
    if p.len() == 0 {
        assert(s@.subrange(0, 0) =~= p@);
        return Some(0);
    }
    let n = s.len();
    let last = n - p.len();
    let mut i: usize = 0;
    while i <= last
        invariant
            i <= last + 1,
            last < n,
            last == s@.len() - p@.len(),
            first_occurrence(s@, p@) == first_occurrence_from(s@, p@, i as int),
        decreases last + 1 - i,
    {
        if matches_at(s, p, i) {
            return Some(i);
        }
        i = i + 1;
    }
    None
}

pub fn contains(s: &[u8], p: &[u8]) -> (r: bool)
    ensures
        r == has_substring(s@, p@),
{
    find(s, p).is_some()
}

pub fn starts_with(s: &[u8], p: &[u8]) -> (r: bool)
    ensures
        r == has_prefix(s@, p@),
{
    if p.len() > s.len() {
        return false;
    }
    let r = matches_at(s, p, 0);
    assert(s@.subrange(0, p@.len() as int) =~= s@.take(p@.len() as int));
    r
}

pub fn ends_with(s: &[u8], p: &[u8]) -> (r: bool)
    ensures
        r == has_suffix(s@, p@),
{
    if p.len() > s.len() {
        return false;
    }
    let i = s.len() - p.len();
    let r = matches_at(s, p, i);
    assert(s@.subrange(i as int, s@.len() as int) =~= s@.skip(i as int));
    r
}

/// The last index of `s` that holds `b`.
pub fn rfind_byte(s: &[u8], b: u8) -> (r: Option<usize>)
    ensures
        opt_int(r) == last_occurrence(s@, b),
        r is Some ==> r.unwrap() < s@.len() && s@[r.unwrap() as int] == b,
{
    let mut j: usize = s.len();
    while j > 0
        invariant
            j <= s@.len(),
            last_occurrence(s@, b) == last_occurrence_before(s@, b, j as int),
        decreases j,
    {
        if s[j - 1] == b {
            return Some(j - 1);
        }
        j = j - 1;
    }
    None
}

/// Copies `s` without leading and trailing whitespace.
pub fn trim(s: &[u8]) -> (r: Vec<u8>)
    ensures
        r@ == trimmed(s@),
{
    let n = s.len();
    let mut a: usize = 0;
    assert(s@.subrange(0, n as int) =~= s@);
    while a < n && is_space_byte(s[a])
        invariant
            a <= n,
            n == s@.len(),
            trim_start(s@) == trim_start(s@.subrange(a as int, n as int)),
        decreases n - a,
    {
        assert(s@.subrange(a as int, n as int).drop_first() =~= s@.subrange(a + 1, n as int));
        a = a + 1;
    }
    let mut b: usize = n;
    while b > a && is_space_byte(s[b - 1])
        invariant
            a <= b <= n,
            n == s@.len(),
            trim_start(s@) == s@.subrange(a as int, n as int),
            trimmed(s@) == trim_end(s@.subrange(a as int, b as int)),
        decreases b,
    {
        assert(s@.subrange(a as int, b as int).drop_last() =~= s@.subrange(a as int, b - 1));
        b = b - 1;
    }
    copy_range(s, a, b)
}

/// The spans of the lines of `s`.
pub fn split_lines(s: &[u8]) -> (r: Vec<(usize, usize)>)
    ensures
        spans_view(r@) == line_spans(s@),
        spans_within(r@, s@.len()),
{
    let mut r: Vec<(usize, usize)> = Vec::new();
    let mut start: usize = 0;
    let mut i: usize = 0;
    while i < s.len()
        invariant
            start <= i <= s@.len(),
            line_spans(s@) == spans_view(r@) + line_spans_from(s@, i as int, start as int),
            spans_within(r@, s@.len()),
        decreases s@.len() - i,
    {
        if s[i] == NEWLINE {
            let ghost before = spans_view(r@);
            r.push((start, i));
            assert(spans_view(r@) =~= before.push((start as int, i as int)));
            assert(line_spans(s@) =~= spans_view(r@) + line_spans_from(s@, i + 1, i + 1));
            start = i + 1;
        }
        i = i + 1;
    }
    let ghost before = spans_view(r@);
    r.push((start, s.len()));
    assert(spans_view(r@) =~= before.push((start as int, s@.len() as int)));
    assert(line_spans(s@) =~= spans_view(r@));
    r
}

/// The spans of the whitespace-separated words of `s`.
pub fn split_words(s: &[u8]) -> (r: Vec<(usize, usize)>)
    ensures
        spans_view(r@) == word_spans(s@),
        words_within(r@, s@.len()),
{
    let mut r: Vec<(usize, usize)> = Vec::new();
    let mut in_word = false;
    let mut start: usize = 0;
    let mut i: usize = 0;
    while i < s.len()
        invariant
            i <= s@.len(),
            in_word ==> start < i,
            word_spans(s@) == spans_view(r@) + word_spans_from(
                s@,
                i as int,
                if in_word { start as int } else { -1 },
            ),
            words_within(r@, s@.len()),
        decreases s@.len() - i,
    {
        if is_space_byte(s[i]) {
            if in_word {
                let ghost before = spans_view(r@);
                r.push((start, i));
                assert(spans_view(r@) =~= before.push((start as int, i as int)));
                assert(word_spans(s@) =~= spans_view(r@) + word_spans_from(s@, i + 1, -1));
                in_word = false;
            }
        } else if !in_word {
            in_word = true;
            start = i;
        }
        i = i + 1;
    }
    if in_word {
        let ghost before = spans_view(r@);
        r.push((start, s.len()));
        assert(spans_view(r@) =~= before.push((start as int, s@.len() as int)));
    }
    assert(word_spans(s@) =~= spans_view(r@));
    r
}

/// Spans of the pieces of `s` between commas that stand outside parentheses,
/// scanning from `i` with the current piece begun at `start` and `depth`
/// parentheses open.
pub open spec fn arg_spans_from(s: Seq<u8>, i: int, start: int, depth: int) -> Seq<(int, int)>
    decreases s.len() - i,
{
    if i >= s.len() {
        seq![(start, s.len() as int)]
    } else if s[i] == COMMA && depth == 0 {
        seq![(start, i)] + arg_spans_from(s, i + 1, i + 1, 0)
    } else {
        arg_spans_from(
            s,
            i + 1,
            start,
            if s[i] == OPEN_PAREN {
                depth + 1
            } else if s[i] == CLOSE_PAREN && depth > 0 {
                depth - 1
            } else {
                depth
            },
        )
    }
}

pub open spec fn arg_spans(s: Seq<u8>) -> Seq<(int, int)> {
    arg_spans_from(s, 0, 0, 0)
}

/// The spans of the comma-separated pieces of `s`; commas inside parentheses
/// do not separate.
pub fn split_args(s: &[u8]) -> (r: Vec<(usize, usize)>)
    ensures
        spans_view(r@) == arg_spans(s@),
        spans_within(r@, s@.len()),
{
    let mut r: Vec<(usize, usize)> = Vec::new();
    let mut start: usize = 0;
    let mut depth: usize = 0;
    let mut i: usize = 0;
    while i < s.len()
        invariant
            start <= i <= s@.len(),
            depth <= i,
            arg_spans(s@) == spans_view(r@) + arg_spans_from(s@, i as int, start as int, depth as int),
            spans_within(r@, s@.len()),
        decreases s@.len() - i,
    {
        let b = s[i];
        if b == COMMA && depth == 0 {
            let ghost before = spans_view(r@);
            r.push((start, i));
            assert(spans_view(r@) =~= before.push((start as int, i as int)));
            assert(arg_spans(s@) =~= spans_view(r@) + arg_spans_from(s@, i + 1, i + 1, 0));
            start = i + 1;
        } else if b == OPEN_PAREN {
            depth = depth + 1;
        } else if b == CLOSE_PAREN && depth > 0 {
            depth = depth - 1;
        }
        i = i + 1;
    }
    let ghost before = spans_view(r@);
    r.push((start, s.len()));
    assert(spans_view(r@) =~= before.push((start as int, s@.len() as int)));
    assert(arg_spans(s@) =~= spans_view(r@));
    r
}

/// Parses an unsigned 32-bit decimal as `u32_value` describes it.
pub fn parse_u32(t: &[u8]) -> (r: Option<u32>)
    ensures
        r == u32_value(t@),
{
    let n = t.len();
    let mut i: usize = 0;
    if n > 0 && t[0] == PLUS {
        i = 1;
    }
    let ghost d = without_plus(t@);
    assert(d =~= t@.subrange(i as int, n as int));
    if i == n {
        return None;
    }
    let cap: u64 = 0x1_0000_0000;
    let mut acc: u64 = 0;
    let mut k: usize = i;
    while k < n
        invariant
            i <= k <= n,
            n == t@.len(),
            d == t@.subrange(i as int, n as int),
            d == without_plus(t@),
            all_digits(t@.subrange(i as int, k as int)),
            cap == 0x1_0000_0000,
            acc == if digits_value(t@.subrange(i as int, k as int)) < cap {
                digits_value(t@.subrange(i as int, k as int))
            } else {
                cap as nat
            },
        decreases n - k,
    {
        let b = t[k];
        if !is_digit_byte(b) {
            assert(d[k - i] == b);
            return None;
        }
        let ghost prev = t@.subrange(i as int, k as int);
        let ghost next = t@.subrange(i as int, k + 1);
        assert(next.drop_last() =~= prev);
        assert(all_digits(next));
        let v: u64 = acc * 10 + (b - DIGIT_ZERO) as u64;
        acc = if v < cap {
            v
        } else {
            cap
        };
        k = k + 1;
    }
    assert(t@.subrange(i as int, n as int) == d);
    if acc < cap {
        Some(acc as u32)
    } else {
        None
    }
}

fn check_mantissa(m: &[u8]) -> (r: bool)
    ensures
        r == is_mantissa(m@),
{
    let mut digits = false;
    let mut dots: usize = 0;
    let mut dot_at: usize = 0;
    let mut i: usize = 0;
    while i < m.len()
        invariant
            i <= m@.len(),
            forall|k: int| 0 <= k < i ==> is_digit(#[trigger] m@[k]) || m@[k] == DOT,
            digits == exists|k: int| 0 <= k < i && is_digit(#[trigger] m@[k]),
            dots <= 1,
            dots == 0 ==> forall|k: int| 0 <= k < i ==> #[trigger] m@[k] != DOT,
            dots == 1 ==> dot_at < i && m@[dot_at as int] == DOT && forall|k: int|
                0 <= k < i && #[trigger] m@[k] == DOT ==> k == dot_at,
        decreases m@.len() - i,
    {
        let b = m[i];
        if is_digit_byte(b) {
            digits = true;
        } else if b == DOT {
            if dots == 1 {
                assert(m@[dot_at as int] == DOT && m@[i as int] == DOT);
                return false;
            }
            dots = 1;
            dot_at = i;
        } else {
            assert(!(is_digit(m@[i as int]) || m@[i as int] == DOT));
            return false;
        }
        i = i + 1;
    }
    digits
}

fn check_exponent(x: &[u8]) -> (r: bool)
    ensures
        r == is_exponent(x@),
{
    let n = x.len();
    let start: usize = if n > 0 && (x[0] == PLUS || x[0] == MINUS) {
        1
    } else {
        0
    };
    assert(without_sign(x@) =~= x@.subrange(start as int, n as int));
    if start == n {
        return false;
    }
    let mut i: usize = start;
    while i < n
        invariant
            start <= i <= n,
            n == x@.len(),
            without_sign(x@) == x@.subrange(start as int, n as int),
            forall|k: int| start <= k < i ==> is_digit(#[trigger] x@[k]),
        decreases n - i,
    {
        if !is_digit_byte(x[i]) {
            assert(without_sign(x@)[i - start] == x@[i as int]);
            return false;
        }
        i = i + 1;
    }
    assert forall|k: int| 0 <= k < without_sign(x@).len() implies is_digit(
        #[trigger] without_sign(x@)[k],
    ) by {
        assert(without_sign(x@)[k] == x@[k + start]);
    }
    true
}

/// Checks `t` against the floating-point literal grammar of `is_float_literal`.
pub fn check_float_literal(t: &[u8]) -> (r: bool)
    ensures
        r == is_float_literal(t@),
{
    let n = t.len();
    let start: usize = if n > 0 && (t[0] == PLUS || t[0] == MINUS) {
        1
    } else {
        0
    };
    assert(without_sign(t@) =~= t@.subrange(start as int, n as int));
    let unsigned = copy_range(t, start, n);
    let u = to_lower(unsigned.as_slice());
    if bytes_eq(u.as_slice(), "inf".as_bytes()) || bytes_eq(u.as_slice(), "infinity".as_bytes())
        || bytes_eq(u.as_slice(), "nan".as_bytes()) {
        return true;
    }
    let mut e_mark: Vec<u8> = Vec::new();
    e_mark.push(LOWER_E);
    assert(e_mark@ =~= seq![LOWER_E]);
    match find(u.as_slice(), e_mark.as_slice()) {
        None => check_mantissa(u.as_slice()),
        Some(e) => {
            let m = copy_range(u.as_slice(), 0, e);
            let x = copy_range(u.as_slice(), e + 1, u.len());
            assert(m@ =~= u@.take(e as int));
            assert(x@ =~= u@.skip(e + 1));
            check_mantissa(m.as_slice()) && check_exponent(x.as_slice())
        },
    }
}

/// The end of the run of digits of `s` that begins at `i`.
pub fn digit_run(s: &[u8], i: usize) -> (r: usize)
    requires
        i <= s@.len(),
    ensures
        r as int == digit_run_end(s@, i as int),
        i <= r <= s@.len(),
        forall|k: int| i <= k < r ==> is_digit(#[trigger] s@[k]),
{
    let mut j: usize = i;
    while j < s.len() && is_digit_byte(s[j])
        invariant
            i <= j <= s@.len(),
            digit_run_end(s@, i as int) == digit_run_end(s@, j as int),
            forall|k: int| i <= k < j ==> is_digit(#[trigger] s@[k]),
        decreases s@.len() - j,
    {
        j = j + 1;
    }
    j
}

} // verus!
