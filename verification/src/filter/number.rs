//! Numbers as text and as IEEE-754 bit patterns: canonical decimal integers of
//! any length, the syntax of floating-point literals, and the order of binary64
//! values read from their bit patterns.
use vstd::prelude::*;
use crate::text::{all_digits, is_digit};

verus! {

// ---------------------------------------------------------------------------
// binary64 bit patterns
// ---------------------------------------------------------------------------

pub open spec fn f64_exponent_field(b: u64) -> int {
    (b as int / 0x10_0000_0000_0000) % 0x800
}

pub open spec fn f64_fraction_field(b: u64) -> int {
    b as int % 0x10_0000_0000_0000
}

/// The pattern encodes a NaN.
pub open spec fn f64_is_nan(b: u64) -> bool {
    f64_exponent_field(b) == 0x7ff && f64_fraction_field(b) != 0
}

/// The pattern encodes a finite number (neither infinite nor NaN).
pub open spec fn f64_is_finite(b: u64) -> bool {
    f64_exponent_field(b) != 0x7ff
}

/// A key that orders non-NaN patterns as their values are ordered: the
/// magnitude bits grow with the magnitude, the sign bit negates, and both
/// zeros get the key 0.
pub open spec fn f64_key(b: u64) -> int {
    let mag = b as int % 0x8000_0000_0000_0000;
    if b as int >= 0x8000_0000_0000_0000 { -mag } else { mag }
}

/// IEEE-754 `<` on two patterns (false whenever a NaN takes part).
pub open spec fn f64_lt(a: u64, b: u64) -> bool {
    !f64_is_nan(a) && !f64_is_nan(b) && f64_key(a) < f64_key(b)
}

/// IEEE-754 `<=` on two patterns (false whenever a NaN takes part).
pub open spec fn f64_le(a: u64, b: u64) -> bool {
    !f64_is_nan(a) && !f64_is_nan(b) && f64_key(a) <= f64_key(b)
}

pub fn is_nan_bits(b: u64) -> (r: bool)
    ensures
        r == f64_is_nan(b),
{
    (b / 0x10_0000_0000_0000) % 0x800 == 0x7ff && b % 0x10_0000_0000_0000 != 0
}

pub fn is_finite_bits(b: u64) -> (r: bool)
    ensures
        r == f64_is_finite(b),
{
    (b / 0x10_0000_0000_0000) % 0x800 != 0x7ff
}

fn key_of_bits(b: u64) -> (r: i64)
    ensures
        r as int == f64_key(b),
{
    let mag: u64 = b % 0x8000_0000_0000_0000;
    if b >= 0x8000_0000_0000_0000 {
        -(mag as i64)
    } else {
        mag as i64
    }
}

/// `a < b` for the values the patterns encode.
pub fn bits_lt(a: u64, b: u64) -> (r: bool)
    ensures
        r == f64_lt(a, b),
{
    !is_nan_bits(a) && !is_nan_bits(b) && key_of_bits(a) < key_of_bits(b)
}

/// `a <= b` for the values the patterns encode.
pub fn bits_le(a: u64, b: u64) -> (r: bool)
    ensures
        r == f64_le(a, b),
{
    !is_nan_bits(a) && !is_nan_bits(b) && key_of_bits(a) <= key_of_bits(b)
}

// ---------------------------------------------------------------------------
// Canonical decimal integers
// ---------------------------------------------------------------------------

/// `s` without its leading zeros.
pub open spec fn strip_zeros(s: Seq<char>) -> Seq<char>
    decreases s.len(),
{
    if s.len() > 0 && s[0] == '0' { strip_zeros(s.subrange(1, s.len() as int)) } else { s }
}

/// The canonical form of an integer written as an optional `-` and decimal
/// digits: no leading zeros, and `0` without a sign.
pub open spec fn canonical_int(s: Seq<char>) -> Option<Seq<char>> {
    let neg = s.len() > 0 && s[0] == '-';
    let digits = if neg { s.subrange(1, s.len() as int) } else { s };
    if digits.len() == 0 || !all_digits(digits) {
        None
    } else {
        let stripped = strip_zeros(digits);
        if stripped.len() == 0 {
            Some(seq!['0'])
        } else if neg {
            Some(seq!['-'] + stripped)
        } else {
            Some(stripped)
        }
    }
}

pub proof fn lemma_strip_zeros(s: Seq<char>)
    ensures
        strip_zeros(s).len() <= s.len(),
        strip_zeros(s) == s.subrange(s.len() - strip_zeros(s).len(), s.len() as int),
        strip_zeros(s).len() > 0 ==> strip_zeros(s)[0] != '0',
        forall|i: int| 0 <= i < s.len() - strip_zeros(s).len() ==> s[i] == '0',
    decreases s.len(),
{
    if s.len() > 0 && s[0] == '0' {
        let t = s.subrange(1, s.len() as int);
        lemma_strip_zeros(t);
        assert forall|i: int| 0 <= i < s.len() - strip_zeros(s).len() implies s[i] == '0' by {
            if i > 0 {
                assert(s[i] == t[i - 1]);
            }
        }
        assert(t.subrange(t.len() - strip_zeros(t).len(), t.len() as int)
            =~= s.subrange(s.len() - strip_zeros(s).len(), s.len() as int));
    } else {
        assert(s.subrange(0, s.len() as int) =~= s);
    }
}

/// Number of leading `'0'` characters of `s[from..]`.
fn count_zeros(s: &[char], from: usize) -> (r: usize)
    requires
        from <= s@.len(),
    ensures
        from <= r <= s@.len(),
        strip_zeros(s@.subrange(from as int, s@.len() as int)) == s@.subrange(r as int, s@.len() as int),
{
    let mut i = from;
    while i < s.len() && s[i] == '0'
        invariant
            from <= i <= s@.len(),
            strip_zeros(s@.subrange(from as int, s@.len() as int)) == strip_zeros(s@.subrange(i as int, s@.len() as int)),
        decreases s@.len() - i,
    {
        let ghost t = s@.subrange(i as int, s@.len() as int);
        assert(t.subrange(1, t.len() as int) =~= s@.subrange(i + 1, s@.len() as int));
        i = i + 1;
    }
    i
}

fn all_digits_from(s: &[char], from: usize) -> (r: bool)
    requires
        from <= s@.len(),
    ensures
        r == all_digits(s@.subrange(from as int, s@.len() as int)),
{
    let mut i = from;
    while i < s.len()
        invariant
            from <= i <= s@.len(),
            all_digits(s@.subrange(from as int, i as int)),
        decreases s@.len() - i,
    {
        if !('0' <= s[i] && s[i] <= '9') {
            assert(!is_digit(s@.subrange(from as int, s@.len() as int)[i - from]));
            return false;
        }
        assert(forall|j: int| 0 <= j < i + 1 - from ==>
            #[trigger] s@.subrange(from as int, i + 1)[j] == s@[from + j]);
        i = i + 1;
    }
    assert(s@.subrange(from as int, s@.len() as int) =~= s@.subrange(from as int, i as int));
    true
}

/// Canonical form of a decimal integer string of any length, or `None`
/// when the text is not an optional `-` followed by decimal digits.
pub fn canonicalize_int_str(s: &[char]) -> (r: Option<Vec<char>>)
    ensures
        match canonical_int(s@) {
            Some(c) => r is Some && r->0@ == c,
            None => r is None,
        },
{
    let neg = s.len() > 0 && s[0] == '-';
    let start: usize = if neg { 1 } else { 0 };
    assert(s@.subrange(0, s@.len() as int) =~= s@);
    if start == s.len() || !all_digits_from(s, start) {
        return None;
    }
    let z = count_zeros(s, start);
    let mut out: Vec<char> = Vec::new();
    if z == s.len() {
        out.push('0');
        assert(out@ =~= seq!['0']);
        return Some(out);
    }
    if neg {
        out.push('-');
    }
    let mut i = z;
    while i < s.len()
        invariant
            z <= i <= s@.len(),
            out@ == (if neg { seq!['-'] } else { Seq::<char>::empty() }) + s@.subrange(z as int, i as int),
        decreases s@.len() - i,
    {
        out.push(s[i]);
        i = i + 1;
        assert(s@.subrange(z as int, i as int) =~= s@.subrange(z as int, i - 1).push(s@[i - 1]));
    }
    assert(out@ =~= (if neg { seq!['-'] } else { Seq::<char>::empty() }) + s@.subrange(z as int, s@.len() as int));
    Some(out)
}

/// Lexicographic order on character sequences by code point (a proper
/// prefix comes first), as `str`'s `<` orders strings.
pub open spec fn seq_lt(a: Seq<char>, b: Seq<char>) -> bool
    decreases a.len(),
{
    if b.len() == 0 {
        false
    } else if a.len() == 0 {
        true
    } else if a[0] != b[0] {
        a[0] < b[0]
    } else {
        seq_lt(a.subrange(1, a.len() as int), b.subrange(1, b.len() as int))
    }
}

/// `a < b` in `str`'s order.
pub fn chars_lt(a: &[char], b: &[char]) -> (r: bool)
    ensures
        r == seq_lt(a@, b@),
{
    let mut i: usize = 0;
    assert(a@.subrange(0, a@.len() as int) =~= a@);
    assert(b@.subrange(0, b@.len() as int) =~= b@);
    while i < a.len() && i < b.len() && a[i] == b[i]
        invariant
            i <= a@.len(),
            i <= b@.len(),
            seq_lt(a@, b@) == seq_lt(a@.subrange(i as int, a@.len() as int), b@.subrange(i as int, b@.len() as int)),
        decreases a@.len() - i,
    {
        let ghost x = a@.subrange(i as int, a@.len() as int);
        let ghost y = b@.subrange(i as int, b@.len() as int);
        assert(x.subrange(1, x.len() as int) =~= a@.subrange(i + 1, a@.len() as int));
        assert(y.subrange(1, y.len() as int) =~= b@.subrange(i + 1, b@.len() as int));
        i = i + 1;
    }
    if i == b.len() {
        false
    } else if i == a.len() {
        true
    } else {
        let ghost x = a@.subrange(i as int, a@.len() as int);
        let ghost y = b@.subrange(i as int, b@.len() as int);
        assert(x[0] == a@[i as int] && y[0] == b@[i as int]);
        a[i] < b[i]
    }
}

pub proof fn lemma_seq_lt_asym(a: Seq<char>, b: Seq<char>)
    ensures
        seq_lt(a, b) ==> !seq_lt(b, a),
        !seq_lt(a, a),
    decreases a.len(),
{
    if a.len() > 0 && b.len() > 0 && a[0] == b[0] {
        lemma_seq_lt_asym(a.subrange(1, a.len() as int), b.subrange(1, b.len() as int));
    }
    if a.len() > 0 {
        lemma_seq_lt_asym(a.subrange(1, a.len() as int), a.subrange(1, a.len() as int));
    }
}

/// Order of two canonical integer strings by value: the sign first, then the
/// number of digits, then the digits.
pub open spec fn int_str_lt(a: Seq<char>, b: Seq<char>) -> bool {
    let an = a.len() > 0 && a[0] == '-';
    let bn = b.len() > 0 && b[0] == '-';
    let ad = if an { a.subrange(1, a.len() as int) } else { a };
    let bd = if bn { b.subrange(1, b.len() as int) } else { b };
    if an && !bn {
        true
    } else if !an && bn {
        false
    } else if !an {
        ad.len() < bd.len() || (ad.len() == bd.len() && seq_lt(ad, bd))
    } else {
        bd.len() < ad.len() || (ad.len() == bd.len() && seq_lt(bd, ad))
    }
}

/// Result of a three-way comparison.
pub enum Order {
    Less,
    Equal,
    Greater,
}

/// Compares two canonical integer strings by value.
pub fn compare_int_strings(a: &[char], b: &[char]) -> (r: Order)
    ensures
        r is Less <==> int_str_lt(a@, b@),
        r is Greater <==> int_str_lt(b@, a@),
        r is Equal <==> !int_str_lt(a@, b@) && !int_str_lt(b@, a@),
{
    let an = a.len() > 0 && a[0] == '-';
    let bn = b.len() > 0 && b[0] == '-';
    if an && !bn {
        return Order::Less;
    }
    if !an && bn {
        return Order::Greater;
    }
    let ad: &[char] = if an { slice_from(a, 1) } else { a };
    let bd: &[char] = if bn { slice_from(b, 1) } else { b };
    proof {
        lemma_seq_lt_asym(ad@, bd@);
        lemma_seq_lt_asym(bd@, ad@);
    }
    let x: &[char] = if !an { ad } else { bd };
    let y: &[char] = if !an { bd } else { ad };
    if x.len() < y.len() {
        Order::Less
    } else if y.len() < x.len() {
        Order::Greater
    } else if chars_lt(x, y) {
        Order::Less
    } else if chars_lt(y, x) {
        Order::Greater
    } else {
        Order::Equal
    }
}

/// `s[from..]`.
pub fn slice_from(s: &[char], from: usize) -> (r: &[char])
    requires
        from <= s@.len(),
    ensures
        r@ == s@.subrange(from as int, s@.len() as int),
{
    vstd::slice::slice_subrange(s, from, s.len())
}

// ---------------------------------------------------------------------------
// Floating-point literals
// ---------------------------------------------------------------------------

/// `c` equals the lower-case letter `w` up to ASCII case.
pub open spec fn char_ieq(c: char, w: char) -> bool {
    c == w || ('A' <= c && c <= 'Z' && (c as u32) + 32 == (w as u32))
}

/// `s` equals the lower-case word `w` up to ASCII case.
pub open spec fn ascii_ieq(s: Seq<char>, w: Seq<char>) -> bool {
    s.len() == w.len() && forall|i: int| 0 <= i < s.len() ==> char_ieq(#[trigger] s[i], w[i])
}

/// A floating-point literal as std's `f64::from_str` reads it.
pub enum FloatLit {
    NaN,
    Inf,
    /// A finite decimal `0.d₁d₂… × 10^point`: `sig` holds the digits without
    /// leading zeros (empty for zero).
    Num { sig: Seq<char>, point: int },
}

/// `s` without a leading `+` or `-`.
pub open spec fn unsigned_part(s: Seq<char>) -> Seq<char> {
    if s.len() > 0 && (s[0] == '+' || s[0] == '-') { s.subrange(1, s.len() as int) } else { s }
}

/// Position of the first `c` in `s`, or `s.len()`.
pub open spec fn find_char(s: Seq<char>, c: char) -> int
    decreases s.len(),
{
    if s.len() == 0 {
        0
    } else if s[0] == c {
        0
    } else {
        1 + find_char(s.subrange(1, s.len() as int), c)
    }
}

/// Position of the first `e` or `E` in `s`, or `s.len()`.
pub open spec fn find_exp(s: Seq<char>) -> int
    decreases s.len(),
{
    if s.len() == 0 {
        0
    } else if s[0] == 'e' || s[0] == 'E' {
        0
    } else {
        1 + find_exp(s.subrange(1, s.len() as int))
    }
}

/// The value of an exponent part: an optional sign and at least one digit.
pub open spec fn exp_value(x: Seq<char>) -> Option<int> {
    let d = unsigned_part(x);
    if d.len() == 0 || !all_digits(d) {
        None
    } else if x[0] == '-' {
        Some(-crate::text::digits_value(d))
    } else {
        Some(crate::text::digits_value(d))
    }
}

/// Reads a floating-point literal: an optional sign, then `inf`, `infinity`
/// or `nan` in any case, or a decimal number (digits with at most one `.`,
/// at least one digit, and an optional exponent `e`/`E`, sign, digits).
pub open spec fn float_lit(s: Seq<char>) -> Option<FloatLit> {
    let t = unsigned_part(s);
    if ascii_ieq(t, seq!['i', 'n', 'f']) || ascii_ieq(t, seq!['i', 'n', 'f', 'i', 'n', 'i', 't', 'y']) {
        Some(FloatLit::Inf)
    } else if ascii_ieq(t, seq!['n', 'a', 'n']) {
        Some(FloatLit::NaN)
    } else {
        let ei = find_exp(t);
        let m = t.subrange(0, ei);
        let ex = if ei < t.len() { exp_value(t.subrange(ei + 1, t.len() as int)) } else { Some(0) };
        let di = find_char(m, '.');
        let ip = m.subrange(0, di);
        let fp = if di < m.len() { m.subrange(di + 1, m.len() as int) } else { Seq::empty() };
        match ex {
            None => None,
            Some(e) => if ip.len() + fp.len() == 0 || !all_digits(ip) || !all_digits(fp) {
                None
            } else {
                let ds = ip + fp;
                let sig = strip_zeros(ds);
                Some(FloatLit::Num { sig, point: e + ip.len() - (ds.len() - sig.len()) })
            },
        }
    }
}

/// The 309 decimal digits of 2^1024 - 2^970, the least magnitude that
/// rounds to infinity in binary64.
pub open spec fn overflow_digits() -> Seq<char> {
    seq!['1','7','9','7','6','9','3','1','3','4','8','6','2','3','1','5','8','0','7','9','3','7','2','8','9','7','1','4','0','5','3','0','3','4','1','5','0','7','9','9','3','4','1','3','2','7','1','0','0','3','7','8','2','6','9','3','6','1','7','3','7','7','8','9','8','0','4','4','4','9','6','8','2','9','2','7','6','4','7','5','0','9','4','6','6','4','9','0','1','7','9','7','7','5','8','7','2','0','7','0','9','6','3','3','0','2','8','6','4','1','6','6','9','2','8','8','7','9','1','0','9','4','6','5','5','5','5','4','7','8','5','1','9','4','0','4','0','2','6','3','0','6','5','7','4','8','8','6','7','1','5','0','5','8','2','0','6','8','1','9','0','8','9','0','2','0','0','0','7','0','8','3','8','3','6','7','6','2','7','3','8','5','4','8','4','5','8','1','7','7','1','1','5','3','1','7','6','4','4','7','5','7','3','0','2','7','0','0','6','9','8','5','5','5','7','1','3','6','6','9','5','9','6','2','2','8','4','2','9','1','4','8','1','9','8','6','0','8','3','4','9','3','6','4','7','5','2','9','2','7','1','9','0','7','4','1','6','8','4','4','4','3','6','5','5','1','0','7','0','4','3','4','2','7','1','1','5','5','9','6','9','9','5','0','8','0','9','3','0','4','2','8','8','0','1','7','7','9','0','4','1','7','4','4','9','7','7','9','2']
}

/// A decimal `0.sig × 10^point` stays below the overflow threshold, so that
/// binary64 rounding gives a finite value.
pub open spec fn below_overflow(sig: Seq<char>, point: int) -> bool {
    sig.len() == 0 || point < 309 || (point == 309 && seq_lt(sig, overflow_digits()))
}

/// `s` parses as an `f64` (finite or not).
pub open spec fn parses_as_f64(s: Seq<char>) -> bool {
    float_lit(s) is Some
}

/// `s` parses as an `f64` and the value is finite.
pub open spec fn finite_f64_text(s: Seq<char>) -> bool {
    match float_lit(s) {
        Some(FloatLit::Num { sig, point }) => below_overflow(sig, point),
        _ => false,
    }
}

/// Bound beyond which an exponent is kept saturated; far beyond any decimal
/// point position a text of `usize` length can move.
pub open spec fn exp_cap() -> int {
    0x10_0000_0000_0000_0000_0000_0000
}

/// Reads an exponent part `x = s[from..]`; the value comes saturated at
/// [`exp_cap`].
fn read_exponent(s: &[char], from: usize) -> (r: Option<i128>)
    requires
        from <= s@.len(),
    ensures
        match exp_value(s@.subrange(from as int, s@.len() as int)) {
            Some(v) => r is Some && (if v > exp_cap() { r->0 == exp_cap() }
                else if v < -exp_cap() { r->0 == -exp_cap() } else { r->0 == v }),
            None => r is None,
        },
{
    let ghost x = s@.subrange(from as int, s@.len() as int);
    let neg = from < s.len() && s[from] == '-';
    let signed = from < s.len() && (s[from] == '-' || s[from] == '+');
    let start: usize = if signed { from + 1 } else { from };
    let ghost d = s@.subrange(start as int, s@.len() as int);
    assert(d == crate::filter::number::unsigned_part(x)) by {
        if signed {
            assert(x.subrange(1, x.len() as int) =~= d);
        } else {
            assert(x =~= d);
        }
    }
    if start == s.len() || !all_digits_from(s, start) {
        return None;
    }
    let cap: i128 = 0x10_0000_0000_0000_0000_0000_0000;
    let mut m: i128 = 0;
    let mut i = start;
    while i < s.len()
        invariant
            start <= i <= s@.len(),
            d == s@.subrange(start as int, s@.len() as int),
            all_digits(d),
            cap == exp_cap(),
            0 <= m <= cap * 10 + 9,
            all_digits(s@.subrange(start as int, i as int)),
            crate::text::digits_value(s@.subrange(start as int, i as int)) <= cap
                ==> m == crate::text::digits_value(s@.subrange(start as int, i as int)),
            crate::text::digits_value(s@.subrange(start as int, i as int)) > cap ==> m > cap,
        decreases s@.len() - i,
    {
        let ghost prev = s@.subrange(start as int, i as int);
        let ghost next = s@.subrange(start as int, i + 1);
        assert(next.drop_last() =~= prev);
        assert(next.last() == s@[i as int]);
        assert(d[i - start] == s@[i as int]);
        assert(is_digit(s@[i as int]));
        assert(all_digits(next));
        proof { crate::text::lemma_digits_value_nonneg(prev); }
        let dv = (s[i] as u32 - '0' as u32) as i128;
        if m <= cap {
            m = m * 10 + dv;
        }
        i = i + 1;
    }
    assert(s@.subrange(start as int, s@.len() as int) =~= d);
    if m > cap {
        m = cap;
    }
    if neg {
        Some(-m)
    } else {
        Some(m)
    }
}

/// Index of the first `c` in `s[from..to]`, or `to`.
fn find_char_in(s: &[char], from: usize, to: usize, c: char) -> (r: usize)
    requires
        from <= to <= s@.len(),
    ensures
        r as int == from + find_char(s@.subrange(from as int, to as int), c),
        from <= r <= to,
{
    let mut i = from;
    while i < to && s[i] != c
        invariant
            from <= i <= to,
            to <= s@.len(),
            find_char(s@.subrange(from as int, to as int), c) == (i - from) + find_char(s@.subrange(i as int, to as int), c),
        decreases to - i,
    {
        let ghost t = s@.subrange(i as int, to as int);
        assert(t.subrange(1, t.len() as int) =~= s@.subrange(i + 1, to as int));
        i = i + 1;
    }
    proof {
        lemma_find_char_bound(s@.subrange(i as int, to as int), c);
    }
    i
}

pub proof fn lemma_find_char_bound(s: Seq<char>, c: char)
    ensures
        0 <= find_char(s, c) <= s.len(),
        find_char(s, c) < s.len() ==> s[find_char(s, c)] == c,
        forall|j: int| 0 <= j < find_char(s, c) ==> s[j] != c,
    decreases s.len(),
{
    if s.len() > 0 && s[0] != c {
        let t = s.subrange(1, s.len() as int);
        lemma_find_char_bound(t, c);
        assert forall|j: int| 0 <= j < find_char(s, c) implies s[j] != c by {
            if j > 0 {
                assert(s[j] == t[j - 1]);
            }
        }
    }
}

pub proof fn lemma_find_exp_bound(s: Seq<char>)
    ensures
        0 <= find_exp(s) <= s.len(),
        find_exp(s) < s.len() ==> (s[find_exp(s)] == 'e' || s[find_exp(s)] == 'E'),
    decreases s.len(),
{
    if s.len() > 0 && !(s[0] == 'e' || s[0] == 'E') {
        lemma_find_exp_bound(s.subrange(1, s.len() as int));
    }
}

/// Index of the first `e` or `E` in `s[from..]`, or `s.len()`.
fn find_exp_in(s: &[char], from: usize) -> (r: usize)
    requires
        from <= s@.len(),
    ensures
        r as int == from + find_exp(s@.subrange(from as int, s@.len() as int)),
        from <= r <= s@.len(),
{
    let mut i = from;
    while i < s.len() && s[i] != 'e' && s[i] != 'E'
        invariant
            from <= i <= s@.len(),
            find_exp(s@.subrange(from as int, s@.len() as int)) == (i - from) + find_exp(s@.subrange(i as int, s@.len() as int)),
        decreases s@.len() - i,
    {
        let ghost t = s@.subrange(i as int, s@.len() as int);
        assert(t.subrange(1, t.len() as int) =~= s@.subrange(i + 1, s@.len() as int));
        i = i + 1;
    }
    proof { lemma_find_exp_bound(s@.subrange(i as int, s@.len() as int)); }
    i
}

/// Whether `s[from..]` equals the lower-case word `w` up to ASCII case.
fn lower_equals(s: &[char], from: usize, w: &[char]) -> (r: bool)
    requires
        from <= s@.len(),
    ensures
        r == ascii_ieq(s@.subrange(from as int, s@.len() as int), w@),
{
    let ghost t = s@.subrange(from as int, s@.len() as int);
    if s.len() - from != w.len() {
        return false;
    }
    let n = s.len();
    let mut i: usize = 0;
    while i < w.len()
        invariant
            i <= w@.len(),
            n == s@.len(),
            from <= s@.len(),
            w@.len() == t.len(),
            s@.len() - from == w@.len(),
            t == s@.subrange(from as int, s@.len() as int),
            forall|j: int| 0 <= j < i ==> char_ieq(#[trigger] t[j], w@[j]),
        decreases w@.len() - i,
    {
        assert(from + i < s@.len());
        let c = s[from + i];
        let d = w[i];
        let same = c == d || ('A' <= c && c <= 'Z' && (c as u32) + 32 == (d as u32));
        assert(t[i as int] == c);
        if !same {
            return false;
        }
        i = i + 1;
    }
    true
}

/// How a text reads as an `f64`: whether it parses at all, and whether the
/// value is finite.
pub fn classify_float_text(s: &[char]) -> (r: (bool, bool))
    ensures
        r.0 == parses_as_f64(s@),
        r.1 == finite_f64_text(s@),
{
    let ghost t = unsigned_part(s@);
    let signed = s.len() > 0 && (s[0] == '+' || s[0] == '-');
    let from: usize = if signed { 1 } else { 0 };
    assert(t == s@.subrange(from as int, s@.len() as int)) by {
        if !signed { assert(s@ =~= s@.subrange(0, s@.len() as int)); }
    }
    let inf_w: [char; 3] = ['i', 'n', 'f'];
    let infinity_w: [char; 8] = ['i', 'n', 'f', 'i', 'n', 'i', 't', 'y'];
    let nan_w: [char; 3] = ['n', 'a', 'n'];
    assert(inf_w@ =~= seq!['i', 'n', 'f']);
    assert(infinity_w@ =~= seq!['i', 'n', 'f', 'i', 'n', 'i', 't', 'y']);
    assert(nan_w@ =~= seq!['n', 'a', 'n']);
    if lower_equals(s, from, &inf_w) || lower_equals(s, from, &infinity_w) {
        return (true, false);
    }
    if lower_equals(s, from, &nan_w) {
        return (true, false);
    }
    classify_number(s, from)
}

/// Classifies `s[from..]` as a decimal number literal (see [`float_lit`]).
#[verifier::rlimit(40)]
fn classify_number(s: &[char], from: usize) -> (r: (bool, bool))
    requires
        from <= s@.len(),
    ensures
        ({
            let t = s@.subrange(from as int, s@.len() as int);
            let ei = find_exp(t);
            let m = t.subrange(0, ei);
            let ex = if ei < t.len() { exp_value(t.subrange(ei + 1, t.len() as int)) } else { Some(0) };
            let di = find_char(m, '.');
            let ip = m.subrange(0, di);
            let fp = if di < m.len() { m.subrange(di + 1, m.len() as int) } else { Seq::<char>::empty() };
            match ex {
                None => !r.0 && !r.1,
                Some(e) => if ip.len() + fp.len() == 0 || !all_digits(ip) || !all_digits(fp) {
                    !r.0 && !r.1
                } else {
                    let ds = ip + fp;
                    let sig = strip_zeros(ds);
                    r.0 && r.1 == below_overflow(sig, e + ip.len() - (ds.len() - sig.len()))
                },
            }
        }),
{
    let ghost t = s@.subrange(from as int, s@.len() as int);
    let ei = find_exp_in(s, from);
    let ghost eir = ei - from;
    assert(eir == find_exp(t));
    let ex: Option<i128> = if ei < s.len() {
        assert(t.subrange(eir + 1, t.len() as int) =~= s@.subrange(ei + 1, s@.len() as int));
        read_exponent(s, ei + 1)
    } else {
        Some(0)
    };
    let di = find_char_in(s, from, ei, '.');
    let ghost m = t.subrange(0, eir);
    assert(m =~= s@.subrange(from as int, ei as int));
    let ghost dir = di - from;
    assert(dir == find_char(m, '.'));
    let fstart: usize = if di < ei { di + 1 } else { ei };
    let ghost ip = m.subrange(0, dir);
    let ghost fp = if dir < m.len() { m.subrange(dir + 1, m.len() as int) } else { Seq::<char>::empty() };
    assert(ip =~= s@.subrange(from as int, di as int));
    assert(fp =~= s@.subrange(fstart as int, ei as int));
    let e: i128 = match ex {
        None => return (false, false),
        Some(v) => v,
    };
    let iplen = di - from;
    let fplen = ei - fstart;
    if iplen + fplen == 0 {
        return (false, false);
    }
    let ip_ok = all_digits_range(s, from, di);
    let fp_ok = all_digits_range(s, fstart, ei);
    if !ip_ok || !fp_ok {
        return (false, false);
    }
    let ds = digits_of_parts(s, from, di, fstart, ei);
    assert(ds@ =~= ip + fp);
    let z = count_zeros(ds.as_slice(), 0);
    assert(ds@.subrange(0, ds@.len() as int) =~= ds@);
    let sig = slice_from(ds.as_slice(), z);
    proof { lemma_strip_zeros(ds@); }
    let point: i128 = e + (iplen as i128) - (z as i128);
    let finite = if sig.len() == 0 {
        true
    } else if point < 309 {
        true
    } else if point > 309 {
        false
    } else {
        let od = overflow_digits_vec();
        chars_lt(sig, od.as_slice())
    };
    (true, finite)
}

/// `s[a..b] + s[c..d]`.
fn digits_of_parts(s: &[char], a: usize, b: usize, c: usize, d: usize) -> (r: Vec<char>)
    requires
        a <= b <= s@.len(),
        c <= d <= s@.len(),
    ensures
        r@ == s@.subrange(a as int, b as int) + s@.subrange(c as int, d as int),
{
    let mut ds: Vec<char> = Vec::new();
    let mut k = a;
    while k < b
        invariant
            a <= k <= b,
            b <= s@.len(),
            ds@ == s@.subrange(a as int, k as int),
        decreases b - k,
    {
        ds.push(s[k]);
        k = k + 1;
        assert(s@.subrange(a as int, k as int) =~= s@.subrange(a as int, k - 1).push(s@[k - 1]));
    }
    let mut k2 = c;
    while k2 < d
        invariant
            c <= k2 <= d,
            d <= s@.len(),
            ds@ == s@.subrange(a as int, b as int) + s@.subrange(c as int, k2 as int),
        decreases d - k2,
    {
        ds.push(s[k2]);
        k2 = k2 + 1;
        assert(s@.subrange(c as int, k2 as int) =~= s@.subrange(c as int, k2 - 1).push(s@[k2 - 1]));
    }
    ds
}

fn all_digits_range(s: &[char], from: usize, to: usize) -> (r: bool)
    requires
        from <= to <= s@.len(),
    ensures
        r == all_digits(s@.subrange(from as int, to as int)),
{
    let mut i = from;
    while i < to
        invariant
            from <= i <= to,
            to <= s@.len(),
            all_digits(s@.subrange(from as int, i as int)),
        decreases to - i,
    {
        if !('0' <= s[i] && s[i] <= '9') {
            assert(!is_digit(s@.subrange(from as int, to as int)[i - from]));
            return false;
        }
        assert(forall|j: int| 0 <= j < i + 1 - from ==>
            #[trigger] s@.subrange(from as int, i + 1)[j] == s@[from + j]);
        i = i + 1;
    }
    true
}

fn overflow_digits_vec() -> (r: Vec<char>)
    ensures
        r@ == overflow_digits(),
{
    let text = "179769313486231580793728971405303415079934132710037826936173778980444968292764750946649017977587207096330286416692887910946555547851940402630657488671505820681908902000708383676273854845817711531764475730270069855571366959622842914819860834936475292719074168444365510704342711559699508093042880177904174497792";
    proof { reveal_strlit("179769313486231580793728971405303415079934132710037826936173778980444968292764750946649017977587207096330286416692887910946555547851940402630657488671505820681908902000708383676273854845817711531764475730270069855571366959622842914819860834936475292719074168444365510704342711559699508093042880177904174497792"); }
    let r = crate::text::chars_of(text);
    assert(r@ =~= overflow_digits());
    r
}

/// `10` to the power `n`.
pub open spec fn pow10(n: nat) -> int
    decreases n,
{
    if n == 0 { 1 } else { 10 * pow10((n - 1) as nat) }
}

proof fn lemma_pow10_pos(n: nat)
    ensures
        pow10(n) >= 1,
    decreases n,
{
    if n > 0 {
        lemma_pow10_pos((n - 1) as nat);
    }
}

proof fn lemma_pow10_mono(a: nat, b: nat)
    requires
        a <= b,
    ensures
        pow10(a) <= pow10(b),
    decreases b,
{
    if a < b {
        lemma_pow10_mono(a, (b - 1) as nat);
        lemma_pow10_pos((b - 1) as nat);
    }
}

proof fn lemma_digits_prefix(x: Seq<char>, k: int)
    requires
        all_digits(x),
        0 <= k <= x.len(),
    ensures
        all_digits(x.subrange(k, x.len() as int)),
        all_digits(x.subrange(0, k)),
{
}

/// Digits stay below the next power of ten.
proof fn lemma_digits_bound(x: Seq<char>)
    requires
        all_digits(x),
    ensures
        0 <= crate::text::digits_value(x) < pow10(x.len()),
    decreases x.len(),
{
    if x.len() > 0 {
        let t = x.drop_last();
        assert(all_digits(t));
        lemma_digits_bound(t);
        let v = crate::text::digits_value(t);
        let p = pow10(t.len());
        let d = crate::text::digit_val(x.last());
        assert(is_digit(x[x.len() - 1]));
        assert(0 <= d <= 9);
        assert(v * 10 + d < p * 10) by (nonlinear_arith)
            requires 0 <= v < p, 0 <= d <= 9;
        assert(0 <= v * 10 + d) by (nonlinear_arith)
            requires 0 <= v, 0 <= d;
    }
}

/// The value of digits read from the front: the first digit times its
/// place, plus the rest.
proof fn lemma_digits_front(x: Seq<char>)
    requires
        all_digits(x),
        x.len() > 0,
    ensures
        crate::text::digits_value(x) == crate::text::digit_val(x[0]) * pow10((x.len() - 1) as nat)
            + crate::text::digits_value(x.subrange(1, x.len() as int)),
    decreases x.len(),
{
    let rest = x.subrange(1, x.len() as int);
    let e = Seq::<char>::empty();
    assert(crate::text::digits_value(e) == 0);
    assert(crate::text::digits_value(x) == crate::text::digits_value(x.drop_last()) * 10 + crate::text::digit_val(x.last()));
    if x.len() == 1 {
        assert(x.drop_last() =~= e);
        assert(rest =~= e);
        assert(x.last() == x[0]);
        assert(pow10(0) == 1);
    } else {
        let t = x.drop_last();
        assert(all_digits(t));
        lemma_digits_front(t);
        assert(crate::text::digits_value(rest) == crate::text::digits_value(rest.drop_last()) * 10 + crate::text::digit_val(rest.last()));
        assert(t[0] == x[0]);
        assert(t.subrange(1, t.len() as int) =~= rest.drop_last());
        assert(rest.last() == x.last());
        let d0 = crate::text::digit_val(x[0]);
        let p = pow10((t.len() - 1) as nat);
        let vr = crate::text::digits_value(rest.drop_last());
        let dl = crate::text::digit_val(x.last());
        assert(pow10((x.len() - 1) as nat) == 10 * p);
        assert((d0 * p + vr) * 10 + dl == d0 * (10 * p) + (vr * 10 + dl)) by (nonlinear_arith);
    }
}

/// Digits without a leading zero (or a single `0`) are at least the place
/// of their first digit.
proof fn lemma_digits_lead(x: Seq<char>)
    requires
        all_digits(x),
        x.len() > 0,
        x[0] != '0',
    ensures
        crate::text::digits_value(x) >= pow10((x.len() - 1) as nat),
{
    lemma_digits_front(x);
    let rest = x.subrange(1, x.len() as int);
    assert(all_digits(rest));
    lemma_digits_bound(rest);
    let d0 = crate::text::digit_val(x[0]);
    assert(is_digit(x[0]));
    assert(d0 >= 1);
    let p = pow10((x.len() - 1) as nat);
    lemma_pow10_pos((x.len() - 1) as nat);
    assert(d0 * p >= p) by (nonlinear_arith)
        requires d0 >= 1, p >= 1;
}

/// Leading zeros do not change the value.
proof fn lemma_strip_zeros_value(x: Seq<char>)
    requires
        all_digits(x),
    ensures
        all_digits(strip_zeros(x)),
        crate::text::digits_value(strip_zeros(x)) == crate::text::digits_value(x),
    decreases x.len(),
{
    if x.len() > 0 && x[0] == '0' {
        let t = x.subrange(1, x.len() as int);
        assert(all_digits(t));
        lemma_strip_zeros_value(t);
        lemma_digits_front(x);
        assert(crate::text::digit_val(x[0]) == 0);
        assert(0 * pow10((x.len() - 1) as nat) == 0);
    }
}

/// For digit strings of one length, the text order is the order of values.
proof fn lemma_digits_lex(x: Seq<char>, y: Seq<char>)
    requires
        all_digits(x),
        all_digits(y),
        x.len() == y.len(),
    ensures
        seq_lt(x, y) == (crate::text::digits_value(x) < crate::text::digits_value(y)),
        x == y <==> crate::text::digits_value(x) == crate::text::digits_value(y),
    decreases x.len(),
{
    if x.len() == 0 {
        assert(x =~= y);
    } else {
        let xr = x.subrange(1, x.len() as int);
        let yr = y.subrange(1, y.len() as int);
        assert(all_digits(xr) && all_digits(yr));
        lemma_digits_front(x);
        lemma_digits_front(y);
        lemma_digits_bound(xr);
        lemma_digits_bound(yr);
        lemma_digits_lex(xr, yr);
        let p = pow10(xr.len());
        lemma_pow10_pos(xr.len());
        let dx = crate::text::digit_val(x[0]);
        let dy = crate::text::digit_val(y[0]);
        let vx = crate::text::digits_value(xr);
        let vy = crate::text::digits_value(yr);
        assert(is_digit(x[0]) && is_digit(y[0]));
        if x[0] != y[0] {
            assert(dx != dy);
            if dx < dy {
                assert(dx * p + vx < dy * p + vy) by (nonlinear_arith)
                    requires dx < dy, 0 <= vx < p, 0 <= vy < p;
            } else {
                assert(dy * p + vy < dx * p + vx) by (nonlinear_arith)
                    requires dy < dx, 0 <= vx < p, 0 <= vy < p;
            }
            assert(x != y);
        } else {
            assert(x == y <==> xr == yr) by {
                if xr == yr {
                    assert(x =~= seq![x[0]] + xr);
                    assert(y =~= seq![y[0]] + yr);
                }
            }
        }
    }
}

/// The value a canonical integer text stands for.
pub open spec fn canonical_value(c: Seq<char>) -> int {
    if c.len() > 0 && c[0] == '-' {
        -crate::text::digits_value(c.subrange(1, c.len() as int))
    } else {
        crate::text::digits_value(c)
    }
}

/// Law: integers read as canonical texts compare exactly by value, at any
/// precision; the canonical text has the value the original text reads as.
pub proof fn lemma_canonical_int_order(a: Seq<char>, b: Seq<char>)
    requires
        canonical_int(a) is Some,
        canonical_int(b) is Some,
    ensures
        crate::text::parse_int_spec(a) == Some(canonical_value(canonical_int(a)->Some_0)),
        crate::text::parse_int_spec(b) == Some(canonical_value(canonical_int(b)->Some_0)),
        int_str_lt(canonical_int(a)->Some_0, canonical_int(b)->Some_0)
            == (canonical_value(canonical_int(a)->Some_0) < canonical_value(canonical_int(b)->Some_0)),
{
    lemma_canonical_shape(a);
    lemma_canonical_shape(b);
    let ca = canonical_int(a)->Some_0;
    let cb = canonical_int(b)->Some_0;
    let an = ca.len() > 0 && ca[0] == '-';
    let bn = cb.len() > 0 && cb[0] == '-';
    let da = if an { ca.subrange(1, ca.len() as int) } else { ca };
    let db = if bn { cb.subrange(1, cb.len() as int) } else { cb };
    lemma_digits_bound(da);
    lemma_digits_bound(db);
    lemma_pow10_pos((da.len() - 1) as nat);
    lemma_pow10_pos((db.len() - 1) as nat);
    let va = crate::text::digits_value(da);
    let vb = crate::text::digits_value(db);
    assert(canonical_value(ca) == if an { -va } else { va });
    assert(canonical_value(cb) == if bn { -vb } else { vb });
    assert(an ==> va >= 1);
    assert(bn ==> vb >= 1);
    if da.len() < db.len() {
        lemma_pow10_mono(da.len(), (db.len() - 1) as nat);
        assert(db[0] != '0') by {
            if db[0] == '0' { assert(db == seq!['0']); }
        }
        assert(va < vb);
    }
    if db.len() < da.len() {
        lemma_pow10_mono(db.len(), (da.len() - 1) as nat);
        assert(da[0] != '0') by {
            if da[0] == '0' { assert(da == seq!['0']); }
        }
        assert(vb < va);
    }
    if da.len() == db.len() {
        lemma_digits_lex(da, db);
        lemma_digits_lex(db, da);
    }
}

/// A canonical integer text: digits without a leading zero (or `0`), with a
/// `-` before a non-zero value.
proof fn lemma_canonical_shape(s: Seq<char>)
    requires
        canonical_int(s) is Some,
    ensures
        ({
            let c = canonical_int(s)->Some_0;
            let neg = c.len() > 0 && c[0] == '-';
            let d = if neg { c.subrange(1, c.len() as int) } else { c };
            &&& d.len() > 0
            &&& all_digits(d)
            &&& (d[0] != '0' || d == seq!['0'])
            &&& (neg ==> d[0] != '0')
            &&& (d[0] != '0' ==> crate::text::digits_value(d) >= pow10((d.len() - 1) as nat))
            &&& (d == seq!['0'] ==> crate::text::digits_value(d) == 0)
            &&& crate::text::parse_int_spec(s) == Some(canonical_value(c))
        }),
{
    let neg = s.len() > 0 && s[0] == '-';
    let digits = if neg { s.subrange(1, s.len() as int) } else { s };
    lemma_strip_zeros(digits);
    lemma_strip_zeros_value(digits);
    let st = strip_zeros(digits);
    let c = canonical_int(s)->Some_0;
    assert(crate::text::digits_value(Seq::<char>::empty()) == 0);
    if !neg {
        assert(s.len() > 0 && s[0] != '+') by { assert(is_digit(s[0])); }
    }
    if st.len() == 0 {
        assert(c == seq!['0']);
        assert(seq!['0'].drop_last() =~= Seq::<char>::empty());
        assert(crate::text::digits_value(Seq::<char>::empty()) == 0);
        assert(crate::text::digits_value(seq!['0']) == crate::text::digits_value(seq!['0'].drop_last()) * 10 + crate::text::digit_val('0'));
        assert(all_digits(seq!['0'])) by { assert(is_digit(seq!['0'][0])); }
    } else if neg {
        assert(c == seq!['-'] + st);
        assert(c.subrange(1, c.len() as int) =~= st);
        lemma_digits_lead(st);
    } else {
        assert(st[0] != '0');
        assert(st[0] != '-') by { assert(is_digit(st[0])); }
        lemma_digits_lead(st);
    }
}

} // verus!
