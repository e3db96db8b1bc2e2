//! Character-level helpers: conversion between strings and character
//! vectors, decimal integers, splitting and joining.
use vstd::prelude::*;

verus! {

/// Appends `c` to `s` (std's `String::push`).
#[verifier::external_body]
pub(crate) fn string_push(s: &mut String, c: char)
    ensures
        final(s)@ == old(s)@.push(c),
{
    s.push(c);
}

/// The characters of a string slice, in order.
pub fn chars_of(s: &str) -> (r: Vec<char>)
    ensures
        r@ == s@,
{
    let mut out: Vec<char> = Vec::new();
    let mut it = s.chars();
    proof { vstd::string::axiom_spec_iter(s); }
    loop
        invariant
            out@ + vstd::std_specs::iter::IteratorSpec::remaining(&it) == s@,
            vstd::std_specs::iter::IteratorSpec::decrease(&it) is Some,
        ensures
            out@ == s@,
        decreases vstd::std_specs::iter::IteratorSpec::decrease(&it)->0,
    {
        let ghost before_it = it;
        let c = it.next();
        proof { vstd::string::next_postcondition(&before_it, &it, c); }
        match c {
            Some(ch) => {
                out.push(ch);
                assert(out@ + vstd::std_specs::iter::IteratorSpec::remaining(&it) =~= s@);
            },
            None => {
                assert(out@ =~= s@);
                break;
            },
        }
    }
    out
}

/// The string made of the given characters.
pub fn string_of(v: &[char]) -> (r: String)
    ensures
        r@ == v@,
{
    let mut out = String::new();
    let mut i: usize = 0;
    while i < v.len()
        invariant
            i <= v@.len(),
            out@ == v@.subrange(0, i as int),
        decreases v@.len() - i,
    {
        string_push(&mut out, v[i]);
        i = i + 1;
        assert(v@.subrange(0, i as int) == v@.subrange(0, i - 1).push(v@[i - 1]));
    }
    assert(v@.subrange(0, v@.len() as int) == v@);
    out
}

/// Appends the characters of `src` to `dst`.
pub fn push_all(dst: &mut Vec<char>, src: &[char])
    ensures
        final(dst)@ == old(dst)@ + src@,
{
    let mut i: usize = 0;
    while i < src.len()
        invariant
            i <= src@.len(),
            dst@ == old(dst)@ + src@.subrange(0, i as int),
        decreases src@.len() - i,
    {
        dst.push(src[i]);
        i = i + 1;
        assert(src@.subrange(0, i as int) == src@.subrange(0, i - 1).push(src@[i - 1]));
    }
    assert(src@.subrange(0, src@.len() as int) == src@);
}

/// Whether `c` is a decimal digit.
pub open spec fn is_digit(c: char) -> bool {
    '0' <= c && c <= '9'
}

pub open spec fn digit_val(c: char) -> int {
    c as int - '0' as int
}

/// Value of a non-empty run of decimal digits.
pub open spec fn digits_value(s: Seq<char>) -> int
    decreases s.len(),
{
    if s.len() == 0 {
        0
    } else {
        digits_value(s.drop_last()) * 10 + digit_val(s.last())
    }
}

pub open spec fn all_digits(s: Seq<char>) -> bool {
    forall|i: int| 0 <= i < s.len() ==> is_digit(#[trigger] s[i])
}

/// The integer that std's `FromStr` for integer types reads from `s`: an
/// optional `+` or `-` followed by at least one decimal digit, nothing else.
pub open spec fn parse_int_spec(s: Seq<char>) -> Option<int> {
    if s.len() > 0 && (s[0] == '+' || s[0] == '-') {
        let d = s.subrange(1, s.len() as int);
        if d.len() > 0 && all_digits(d) {
            Some(if s[0] == '-' { -digits_value(d) } else { digits_value(d) })
        } else {
            None
        }
    } else if s.len() > 0 && all_digits(s) {
        Some(digits_value(s))
    } else {
        None
    }
}

pub proof fn lemma_digits_value_nonneg(s: Seq<char>)
    requires
        all_digits(s),
    ensures
        digits_value(s) >= 0,
    decreases s.len(),
{
    if s.len() > 0 {
        lemma_digits_value_nonneg(s.drop_last());
    }
}

/// Parses a decimal integer as std's `str::parse::<i64>` does.
pub fn parse_i64(s: &[char]) -> (r: Option<i64>)
    ensures
        match parse_int_spec(s@) {
            Some(v) => if i64::MIN <= v <= i64::MAX { r == Some(v as i64) } else { r is None },
            None => r is None,
        },
{
    let n = s.len();
    if n == 0 {
        return None;
    }
    let neg = s[0] == '-';
    let start: usize = if s[0] == '+' || s[0] == '-' { 1 } else { 0 };
    if start == n {
        return None;
    }
    let ghost d = s@.subrange(start as int, n as int);
    // Accumulate the magnitude as a negative number, so that i64::MIN fits.
    let mut acc: i64 = 0;
    let mut i: usize = start;
    let mut overflow = false;
    while i < n
        invariant
            start <= i <= n,
            n == s@.len(),
            start < n,
            d == s@.subrange(start as int, n as int),
            start as int == (if s@[0] == '+' || s@[0] == '-' { 1int } else { 0int }),
            neg == (s@[0] == '-'),
            acc <= 0,
            !overflow ==> all_digits(s@.subrange(start as int, i as int)),
            !overflow ==> acc == -digits_value(s@.subrange(start as int, i as int)),
            overflow ==> all_digits(s@.subrange(start as int, i as int)),
            overflow ==> digits_value(s@.subrange(start as int, i as int)) > 0x8000_0000_0000_0000,
        decreases n - i,
    {
        let c = s[i];
        if !('0' <= c && c <= '9') {
            proof {
                assert(!is_digit(d[i - start]));
                if s@[0] == '+' || s@[0] == '-' {
                    assert(d == s@.subrange(1, s@.len() as int));
                } else {
                    assert(d == s@);
                }
            }
            return None;
        }
        let dv = (c as u32 - '0' as u32) as i64;
        let ghost prev = s@.subrange(start as int, i as int);
        let ghost next = s@.subrange(start as int, i + 1);
        assert(next.drop_last() == prev);
        if !overflow {
            if (acc as i128) * 10 - (dv as i128) < i64::MIN as i128 {
                overflow = true;
                proof {
                    assert(digits_value(next) == digits_value(prev) * 10 + dv);
                }
            } else {
                acc = acc * 10 - dv;
            }
        } else {
            proof {
                lemma_digits_value_nonneg(prev);
                assert(digits_value(next) == digits_value(prev) * 10 + dv);
            }
        }
        i = i + 1;
    }
    proof {
        if s@[0] == '+' || s@[0] == '-' {
            assert(d == s@.subrange(1, s@.len() as int));
        } else {
            assert(d == s@);
        }
    }
    if overflow {
        return None;
    }
    if neg {
        Some(acc)
    } else if acc == i64::MIN {
        None
    } else {
        Some(-acc)
    }
}

/// Decimal digits of a natural number, most significant first.
pub open spec fn nat_digits(n: nat) -> Seq<char>
    decreases n,
{
    if n < 10 {
        seq![(n + '0' as nat) as char]
    } else {
        nat_digits(n / 10).push(((n % 10) + '0' as nat) as char)
    }
}

/// The decimal text of an integer, as std's `Display` writes it.
pub open spec fn int_text(i: int) -> Seq<char> {
    if i < 0 {
        seq!['-'] + nat_digits((-i) as nat)
    } else {
        nat_digits(i as nat)
    }
}

fn digit_char(d: u64) -> (c: char)
    requires
        d < 10,
    ensures
        c == ((d + '0' as nat) as char),
{
    match d {
        0 => '0',
        1 => '1',
        2 => '2',
        3 => '3',
        4 => '4',
        5 => '5',
        6 => '6',
        7 => '7',
        8 => '8',
        _ => '9',
    }
}

/// Appends the decimal digits of `n`.
pub fn push_nat_digits(out: &mut Vec<char>, n: u64)
    ensures
        final(out)@ == old(out)@ + nat_digits(n as nat),
    decreases n,
{
    if n < 10 {
        out.push(digit_char(n));
        assert(nat_digits(n as nat) == seq![((n + '0' as nat) as char)]);
    } else {
        push_nat_digits(out, n / 10);
        out.push(digit_char(n % 10));
        assert(nat_digits(n as nat) == nat_digits((n / 10) as nat).push(((n % 10) + '0' as nat) as char));
    }
}

/// The decimal text of `i`.
pub fn int_to_chars(i: i64) -> (r: Vec<char>)
    ensures
        r@ == int_text(i as int),
{
    let mut out: Vec<char> = Vec::new();
    if i < 0 {
        out.push('-');
        let m: u64 = (0i128 - i as i128) as u64;
        push_nat_digits(&mut out, m);
    } else {
        push_nat_digits(&mut out, i as u64);
    }
    out
}

/// The pieces of `s` between occurrences of `c` (std's `str::split` with a
/// `char` pattern): one more piece than there are occurrences.
pub open spec fn split_char_from(s: Seq<char>, c: char, cur: Seq<char>, done: Seq<Seq<char>>) -> Seq<Seq<char>>
    decreases s.len(),
{
    if s.len() == 0 {
        done.push(cur)
    } else if s[0] == c {
        split_char_from(s.subrange(1, s.len() as int), c, Seq::empty(), done.push(cur))
    } else {
        split_char_from(s.subrange(1, s.len() as int), c, cur.push(s[0]), done)
    }
}

pub open spec fn split_char(s: Seq<char>, c: char) -> Seq<Seq<char>> {
    split_char_from(s, c, Seq::empty(), Seq::empty())
}

pub proof fn lemma_split_char_from_len(s: Seq<char>, c: char, cur: Seq<char>, done: Seq<Seq<char>>)
    ensures
        split_char_from(s, c, cur, done).len() >= done.len() + 1,
    decreases s.len(),
{
    if s.len() > 0 {
        if s[0] == c {
            lemma_split_char_from_len(s.subrange(1, s.len() as int), c, Seq::empty(), done.push(cur));
        } else {
            lemma_split_char_from_len(s.subrange(1, s.len() as int), c, cur.push(s[0]), done);
        }
    }
}

/// How often `c` occurs in `s`.
pub open spec fn count_char(s: Seq<char>, c: char) -> nat
    decreases s.len(),
{
    if s.len() == 0 {
        0
    } else {
        (if s[0] == c { 1nat } else { 0nat }) + count_char(s.subrange(1, s.len() as int), c)
    }
}

/// Splitting gives one more piece than there are occurrences of `c`.
pub proof fn lemma_split_char_from_count(s: Seq<char>, c: char, cur: Seq<char>, done: Seq<Seq<char>>)
    ensures
        split_char_from(s, c, cur, done).len() == done.len() + 1 + count_char(s, c),
    decreases s.len(),
{
    if s.len() > 0 {
        if s[0] == c {
            lemma_split_char_from_count(s.subrange(1, s.len() as int), c, Seq::empty(), done.push(cur));
        } else {
            lemma_split_char_from_count(s.subrange(1, s.len() as int), c, cur.push(s[0]), done);
        }
    }
}

pub open spec fn vviews(v: Seq<Vec<char>>) -> Seq<Seq<char>> {
    v.map_values(|p: Vec<char>| p@)
}

/// Splits `s` at every occurrence of `c`.
pub fn split_on_char(s: &[char], c: char) -> (r: Vec<Vec<char>>)
    ensures
        vviews(r@) == split_char(s@, c),
        r@.len() >= 1,
{
    proof { lemma_split_char_from_len(s@, c, Seq::empty(), Seq::empty()); }
    let n = s.len();
    let mut done: Vec<Vec<char>> = Vec::new();
    let mut cur: Vec<char> = Vec::new();
    let mut i: usize = 0;
    assert(s@.subrange(0, n as int) == s@);
    assert(vviews(done@) == Seq::<Seq<char>>::empty());
    assert(cur@ == Seq::<char>::empty());
    while i < n
        invariant
            i <= n,
            n == s@.len(),
            split_char_from(s@.subrange(i as int, n as int), c, cur@, vviews(done@)) == split_char(s@, c),
        decreases n - i,
    {
        let ghost rest = s@.subrange(i as int, n as int);
        let ghost dv = vviews(done@);
        assert(rest.subrange(1, rest.len() as int) == s@.subrange(i + 1, n as int));
        if s[i] == c {
            let mut finished: Vec<char> = Vec::new();
            std::mem::swap(&mut finished, &mut cur);
            done.push(finished);
            assert(vviews(done@) == dv.push(finished@));
        } else {
            cur.push(s[i]);
        }
        i = i + 1;
    }
    let ghost dv = vviews(done@);
    done.push(cur);
    assert(vviews(done@) == dv.push(cur@));
    done
}

/// Whether `c` occurs in `s`.
pub fn contains_char(s: &[char], c: char) -> (r: bool)
    ensures
        r == s@.contains(c),
{
    let mut i: usize = 0;
    while i < s.len()
        invariant
            i <= s@.len(),
            forall|j: int| 0 <= j < i ==> s@[j] != c,
        decreases s@.len() - i,
    {
        if s[i] == c {
            return true;
        }
        i = i + 1;
    }
    false
}

/// Parses a decimal integer as std's `str::parse::<isize>` does.
pub fn parse_isize(s: &[char]) -> (r: Option<isize>)
    ensures
        match parse_int_spec(s@) {
            Some(v) => if isize::MIN <= v <= isize::MAX { r == Some(v as isize) } else { r is None },
            None => r is None,
        },
{
    match parse_i64(s) {
        Some(v) => {
            if (isize::MIN as i64) <= v && v <= (isize::MAX as i64) {
                Some(v as isize)
            } else {
                None
            }
        },
        None => {
            proof {
                // a value outside i64 is outside isize as well
            }
            None
        },
    }
}

} // verus!
