//! Regular-expression texts: escaping, wildcard patterns (`*`, `?`) turned
//! into regular expressions, anchoring of user regexes, and the calls into
//! the regex engines.
use vstd::prelude::*;
use crate::field::views;
use crate::text::{chars_of, push_all, string_of};

verus! {

/// The characters that have a meaning in a regular expression (the set of
/// `regex_syntax::is_meta_character`).
pub open spec fn is_meta(c: char) -> bool {
    c == '\\' || c == '.' || c == '+' || c == '*' || c == '?' || c == '(' || c == ')'
        || c == '|' || c == '[' || c == ']' || c == '{' || c == '}' || c == '^'
        || c == '$' || c == '#' || c == '&' || c == '-' || c == '~'
}

/// `s` with a backslash before every meta character (`regex::escape`).
pub open spec fn escape_spec(s: Seq<char>) -> Seq<char>
    decreases s.len(),
{
    if s.len() == 0 {
        Seq::empty()
    } else {
        escape_spec(s.drop_last()) + (if is_meta(s.last()) { seq!['\\', s.last()] } else { seq![s.last()] })
    }
}

/// Escapes every regex meta character, as `regex::escape` does.
pub fn regex_escape(s: &[char]) -> (r: Vec<char>)
    ensures
        r@ == escape_spec(s@),
{
    let mut out: Vec<char> = Vec::new();
    let mut i: usize = 0;
    while i < s.len()
        invariant
            i <= s@.len(),
            out@ == escape_spec(s@.subrange(0, i as int)),
        decreases s@.len() - i,
    {
        let c = s[i];
        assert(s@.subrange(0, i + 1).drop_last() =~= s@.subrange(0, i as int));
        if c == '\\' || c == '.' || c == '+' || c == '*' || c == '?' || c == '(' || c == ')'
            || c == '|' || c == '[' || c == ']' || c == '{' || c == '}' || c == '^'
            || c == '$' || c == '#' || c == '&' || c == '-' || c == '~' {
            out.push('\\');
        }
        out.push(c);
        i = i + 1;
        assert(out@ =~= escape_spec(s@.subrange(0, i as int)));
    }
    assert(s@.subrange(0, s@.len() as int) =~= s@);
    out
}

/// Number of backslashes that end `s`.
pub open spec fn trailing_backslashes(s: Seq<char>) -> nat
    decreases s.len(),
{
    if s.len() > 0 && s.last() == '\\' { 1 + trailing_backslashes(s.drop_last()) } else { 0 }
}

/// The pattern that finds a wildcard character `w` with the backslashes
/// right before it, as a group: `((?:\\)*\w)`.
pub open spec fn find_pattern(w: char) -> Seq<char> {
    seq!['(', '(', '?', ':', '\\', '\\', ')', '*', '\\', w, ')']
}

/// The same pattern without the group: `(?:\\)*\w`.
pub open spec fn split_pattern(w: char) -> Seq<char> {
    seq!['(', '?', ':', '\\', '\\', ')', '*', '\\', w]
}

/// What a found run of backslashes and the wildcard turns into, by its
/// length: two characters (the escaped wildcard) give the wildcard's regex;
/// four (an escaped backslash before it) give the literal `symbol`; more
/// give all but the last four characters, then the wildcard's regex; any
/// other match stays as it is.
pub open spec fn match_piece(m: Seq<char>, replacement: Seq<char>, symbol: Seq<char>) -> Seq<char> {
    if m.len() == 2 {
        replacement
    } else if m.len() == 4 {
        symbol
    } else if m.len() > 4 {
        m.subrange(0, m.len() - 4) + replacement
    } else {
        m
    }
}

/// The pieces with the replacements between them: after the piece at `k`
/// comes the replacement at `k`, where there is one.
pub open spec fn interleave(pieces: Seq<Seq<char>>, reps: Seq<Seq<char>>) -> Seq<char>
    decreases pieces.len(),
{
    if pieces.len() == 0 {
        Seq::empty()
    } else if pieces.len() == 1 {
        pieces[0]
    } else {
        let k = pieces.len() - 2;
        interleave(pieces.drop_last(), reps) + (if k < reps.len() { reps[k] } else { Seq::empty() }) + pieces.last()
    }
}

/// `s` with each match of [`find_pattern`] replaced by its
/// [`match_piece`], between the pieces that [`split_pattern`] leaves; `s`
/// itself where nothing is found (or a pattern does not compile).
pub open spec fn replaced_wildcards(s: Seq<char>, w: char, replacement: Seq<char>, symbol: Seq<char>) -> Seq<char> {
    if std_regex_compile_error(find_pattern(w)) is Some || std_regex_compile_error(split_pattern(w)) is Some {
        s
    } else {
        let found = std_regex_found(find_pattern(w), s);
        if found.len() == 0 {
            s
        } else {
            interleave(std_regex_pieces(split_pattern(w), s), found.map_values(|m: Seq<char>| match_piece(m, replacement, symbol)))
        }
    }
}

fn match_piece_of(m: &[char], replacement: &[char], symbol: &[char]) -> (r: Vec<char>)
    ensures
        r@ == match_piece(m@, replacement@, symbol@),
{
    let n = m.len();
    let mut out: Vec<char> = Vec::new();
    if n == 2 {
        push_all(&mut out, replacement);
    } else if n == 4 {
        push_all(&mut out, symbol);
    } else if n > 4 {
        let mut k: usize = 0;
        while k < n - 4
            invariant
                n == m@.len(),
                n > 4,
                k <= n - 4,
                out@ == m@.subrange(0, k as int),
            decreases n - 4 - k,
        {
            out.push(m[k]);
            k = k + 1;
            assert(out@ =~= m@.subrange(0, k as int));
        }
        push_all(&mut out, replacement);
    } else {
        push_all(&mut out, m);
        assert(out@ =~= m@);
    }
    out
}

/// The wildcard replacement of `s` for one wildcard character: the runs
/// that the `regex` crate finds are replaced (see [`replaced_wildcards`]).
fn replace_wildcard_matches(s: &[char], w: char, replacement: &[char], symbol: &[char]) -> (r: Vec<char>)
    ensures
        r@ == replaced_wildcards(s@, w, replacement@, symbol@),
{
    let mut out: Vec<char> = Vec::new();
    push_all(&mut out, s);
    assert(out@ =~= s@);
    let fp: [char; 11] = ['(', '(', '?', ':', '\\', '\\', ')', '*', '\\', w, ')'];
    let sp: [char; 9] = ['(', '?', ':', '\\', '\\', ')', '*', '\\', w];
    assert(fp@ =~= find_pattern(w));
    assert(sp@ =~= split_pattern(w));
    let find = string_of(&fp);
    let split = string_of(&sp);
    if std_regex_error(find.as_str()).is_some() || std_regex_error(split.as_str()).is_some() {
        return out;
    }
    let text = string_of(s);
    let found = std_regex_find_texts(find.as_str(), text.as_str());
    if found.len() == 0 {
        return out;
    }
    let pieces = std_regex_split_texts(split.as_str(), text.as_str());
    let ghost ps = views(pieces@);
    let ghost reps = views(found@).map_values(|m: Seq<char>| match_piece(m, replacement@, symbol@));
    let mut r: Vec<char> = Vec::new();
    if pieces.len() > 0 {
        push_all(&mut r, chars_of(pieces[0].as_str()).as_slice());
        assert(ps.subrange(0, 1).len() == 1 && ps.subrange(0, 1)[0] == pieces@[0]@);
        let mut i: usize = 1;
        while i < pieces.len()
            invariant
                1 <= i <= pieces@.len(),
                ps == views(pieces@),
                reps == views(found@).map_values(|m: Seq<char>| match_piece(m, replacement@, symbol@)),
                r@ == interleave(ps.subrange(0, i as int), reps),
            decreases pieces@.len() - i,
        {
            let ghost before = ps.subrange(0, i as int);
            let ghost after = ps.subrange(0, i + 1);
            assert(after.drop_last() =~= before);
            assert(after.last() == pieces@[i as int]@);
            if i - 1 < found.len() {
                let m = chars_of(found[i - 1].as_str());
                let piece = match_piece_of(m.as_slice(), replacement, symbol);
                assert(reps[i - 1] == match_piece(found@[i - 1]@, replacement@, symbol@));
                push_all(&mut r, piece.as_slice());
            }
            push_all(&mut r, chars_of(pieces[i].as_str()).as_slice());
            i = i + 1;
        }
        assert(ps.subrange(0, pieces@.len() as int) =~= ps);
    } else {
        assert(ps =~= Seq::<Seq<char>>::empty());
    }
    r
}

/// The regex body of a wildcard pattern: the pattern escaped, then each
/// `?` and `*` (with the backslashes before it) replaced as
/// [`replaced_wildcards`] says, so that those the pattern does not escape
/// become `.?` and `.*`.
pub open spec fn wildcard_body(p: Seq<char>) -> Seq<char> {
    replaced_wildcards(
        replaced_wildcards(escape_spec(p), '?', seq!['.', '?'], seq!['\\', '?']),
        '*', seq!['.', '*'], seq!['\\', '*'],
    )
}

/// The regex body of a wildcard pattern (see [`wildcard_body`]).
pub fn wildcard_pattern_string(pattern: &str) -> (r: String)
    ensures
        r@ == wildcard_body(pattern@),
{
    let p = chars_of(pattern);
    let escaped = regex_escape(p.as_slice());
    let q_rep: [char; 2] = ['.', '?'];
    let q_sym: [char; 2] = ['\\', '?'];
    let s_rep: [char; 2] = ['.', '*'];
    let s_sym: [char; 2] = ['\\', '*'];
    assert(q_rep@ =~= seq!['.', '?']);
    assert(q_sym@ =~= seq!['\\', '?']);
    assert(s_rep@ =~= seq!['.', '*']);
    assert(s_sym@ =~= seq!['\\', '*']);
    let after_q = replace_wildcard_matches(escaped.as_slice(), '?', &q_rep, &q_sym);
    let after_s = replace_wildcard_matches(after_q.as_slice(), '*', &s_rep, &s_sym);
    string_of(after_s.as_slice())
}

/// The anchored regex of a wildcard pattern: `^body$`.
pub open spec fn wildcard_regex(p: Seq<char>) -> Seq<char> {
    seq!['^'] + wildcard_body(p) + seq!['$']
}

/// The case-insensitive anchored regex of a wildcard pattern: `(?i)^body$`.
pub open spec fn sigma_regex(p: Seq<char>) -> Seq<char> {
    seq!['(', '?', 'i', ')'] + wildcard_regex(p)
}

/// The anchored regex of a wildcard pattern (`^…$`).
pub fn wildcard_pattern(pattern: &str) -> (r: String)
    ensures
        r@ == wildcard_regex(pattern@),
{
    let body = chars_of(wildcard_pattern_string(pattern).as_str());
    let mut out: Vec<char> = Vec::new();
    out.push('^');
    push_all(&mut out, body.as_slice());
    out.push('$');
    assert(out@ =~= wildcard_regex(pattern@));
    string_of(out.as_slice())
}

/// The case-insensitive anchored regex of a wildcard pattern.
pub fn sigma_compiled_pattern(pattern: &str) -> (r: String)
    ensures
        r@ == sigma_regex(pattern@),
{
    let body = chars_of(wildcard_pattern(pattern).as_str());
    let mut out: Vec<char> = Vec::new();
    out.push('(');
    out.push('?');
    out.push('i');
    out.push(')');
    push_all(&mut out, body.as_slice());
    assert(out@ =~= sigma_regex(pattern@));
    string_of(out.as_slice())
}

/// Position of the first `)` in `s`, if any.
pub open spec fn first_close(s: Seq<char>) -> Option<int> {
    let i = crate::filter::number::find_char(s, ')');
    if i < s.len() { Some(i) } else { None }
}

/// Whether a `$` at the end of `p` is an anchor: it is there and preceded
/// by an even number of backslashes.
pub open spec fn ends_with_anchor(p: Seq<char>) -> bool {
    p.len() > 0 && p.last() == '$' && trailing_backslashes(p.drop_last()) % 2 == 0
}

/// A user regex anchored at both ends: a leading group of inline flags
/// such as `(?i)` is kept in front, `^` is added unless the rest starts
/// with it, and `$` unless the rest ends with an unescaped `$`. Any other
/// leading group, such as `(?:…)`, belongs to the anchored rest.
pub open spec fn normalized_regex(r: Seq<char>) -> Seq<char> {
    let split = flag_split(r);
    let flags = r.subrange(0, split);
    let pat = r.subrange(split, r.len() as int);
    flags + (if pat.len() > 0 && pat[0] == '^' { Seq::empty() } else { seq!['^'] }) + pat
        + (if ends_with_anchor(pat) { Seq::empty() } else { seq!['$'] })
}

/// A character that may stand in an inline flag group: a flag letter or
/// the `-` that turns the following flags off.
pub open spec fn is_flag_char(c: char) -> bool {
    c == 'i' || c == 'm' || c == 's' || c == 'x' || c == 'u' || c == 'U' || c == 'R' || c == '-'
}

/// Where the inline flag group at the start of a regex ends: after the
/// first `)`, where the regex starts with `(?` and one or more flag
/// characters stand between them; 0 where it starts with no such group.
pub open spec fn flag_split(r: Seq<char>) -> int {
    if r.len() >= 2 && r[0] == '(' && r[1] == '?' {
        match first_close(r) {
            Some(e) => if e >= 3 && (forall|j: int| 2 <= j < e ==> #[trigger] is_flag_char(r[j])) { e + 1 } else { 0 },
            None => 0,
        }
    } else {
        0
    }
}

fn flag_split_of(s: &[char]) -> (r: usize)
    ensures
        r as int == flag_split(s@),
        r <= s@.len(),
{
    let n = s.len();
    if n >= 2 && s[0] == '(' && s[1] == '?' {
        let mut i: usize = 0;
        assert(s@.subrange(0, n as int) =~= s@);
        while i < n && s[i] != ')'
            invariant
                i <= n,
                n == s@.len(),
                crate::filter::number::find_char(s@, ')') == i + crate::filter::number::find_char(s@.subrange(i as int, n as int), ')'),
            decreases n - i,
        {
            let ghost t = s@.subrange(i as int, n as int);
            assert(t.subrange(1, t.len() as int) =~= s@.subrange(i + 1, n as int));
            i = i + 1;
        }
        proof {
            crate::filter::number::lemma_find_char_bound(s@.subrange(i as int, n as int), ')');
        }
        if i < n && i >= 3 {
            assert(first_close(s@) == Some(i as int));
            let mut j: usize = 2;
            while j < i
                invariant
                    2 <= j <= i,
                    i < n,
                    first_close(s@) == Some(i as int),
                    n == s@.len(),
                    forall|k: int| 2 <= k < j ==> #[trigger] is_flag_char(s@[k]),
                decreases i - j,
            {
                let c = s[j];
                if !(c == 'i' || c == 'm' || c == 's' || c == 'x' || c == 'u' || c == 'U' || c == 'R' || c == '-') {
                    assert(!is_flag_char(s@[j as int]));
                    return 0;
                }
                j = j + 1;
            }
            i + 1
        } else {
            0
        }
    } else {
        0
    }
}

fn ends_with_anchor_from(s: &[char], split: usize) -> (r: bool)
    requires
        split <= s@.len(),
    ensures
        r == ends_with_anchor(s@.subrange(split as int, s@.len() as int)),
{
    let n = s.len();
    let ghost pat = s@.subrange(split as int, n as int);
    if !(n > split && s[n - 1] == '$') {
        return false;
    }
    let mut b: usize = 0;
    assert(pat.drop_last().subrange(0, pat.len() - 1) =~= pat.drop_last());
    while b < n - 1 - split && s[n - 2 - b] == '\\'
        invariant
            n > split,
            n == s@.len(),
            pat == s@.subrange(split as int, n as int),
            b <= n - 1 - split,
            trailing_backslashes(pat.drop_last()) == b + trailing_backslashes(pat.drop_last().subrange(0, pat.len() - 1 - b)),
        decreases n - 1 - split - b,
    {
        let ghost u = pat.drop_last().subrange(0, pat.len() - 1 - b);
        assert(u.drop_last() =~= pat.drop_last().subrange(0, pat.len() - 2 - b));
        assert(u.last() == s@[n - 2 - b]);
        b = b + 1;
    }
    proof {
        let u = pat.drop_last().subrange(0, pat.len() - 1 - b);
        if b < n - 1 - split {
            assert(u.last() == s@[n - 2 - b]);
        }
    }
    b % 2 == 0
}

/// Anchors a regex with `^` and `$` where they are missing.
pub fn normalize_regex(regex: &str) -> (r: String)
    ensures
        r@ == normalized_regex(regex@),
{
    let s = chars_of(regex);
    let n = s.len();
    let split = flag_split_of(s.as_slice());
    let ghost pat = s@.subrange(split as int, n as int);
    let mut out: Vec<char> = Vec::new();
    let mut k: usize = 0;
    while k < split
        invariant
            k <= split <= n,
            n == s@.len(),
            out@ == s@.subrange(0, k as int),
        decreases split - k,
    {
        out.push(s[k]);
        k = k + 1;
        assert(s@.subrange(0, k as int) =~= s@.subrange(0, k - 1).push(s@[k - 1]));
    }
    let has_caret = split < n && s[split] == '^';
    if !has_caret {
        out.push('^');
    }
    let rest = crate::filter::number::slice_from(s.as_slice(), split);
    push_all(&mut out, rest);
    let anchor = ends_with_anchor_from(s.as_slice(), split);
    if !anchor {
        out.push('$');
    }
    proof {
        let r = s@;
        let fl = r.subrange(0, split as int);
        assert(out@ =~= fl + (if pat.len() > 0 && pat[0] == '^' { Seq::<char>::empty() } else { seq!['^'] }) + pat
            + (if ends_with_anchor(pat) { Seq::<char>::empty() } else { seq!['$'] }));
    }
    string_of(out.as_slice())
}

/// Whether `fancy_regex` accepts a pattern, and the error it reports if not.
pub uninterp spec fn fancy_compile_error(pattern: Seq<char>) -> Option<Seq<char>>;

/// Whether the `fancy_regex` regex `pattern` finds a match in `text`: `None`
/// when the pattern does not compile or the search fails.
pub uninterp spec fn fancy_is_match(pattern: Seq<char>, text: Seq<char>) -> Option<bool>;

/// Whether the `regex` crate accepts a pattern, and the error it reports if
/// not.
pub uninterp spec fn std_regex_compile_error(pattern: Seq<char>) -> Option<Seq<char>>;

/// Compiles `pattern` with `fancy_regex::Regex::new`; `None` when it
/// compiles, else the error's display text. The contract claims only that
/// the outcome is a function of the pattern.
#[verifier::external_body]
pub(crate) fn fancy_regex_error(pattern: &str) -> (r: Option<String>)
    ensures
        match r {
            None => fancy_compile_error(pattern@) is None,
            Some(e) => fancy_compile_error(pattern@) == Some(e@),
        },
{
    match fancy_regex::Regex::new(pattern) {
        Ok(_) => None,
        Err(e) => Some(e.to_string()),
    }
}

/// Compiles `pattern` with `fancy_regex::Regex::new` and runs
/// `Regex::is_match` on `text`; `None` when either call fails. The contract
/// claims only that the outcome is a function of pattern and text, and that
/// a pattern that does not compile gives `None`.
#[verifier::external_body]
pub(crate) fn fancy_regex_is_match(pattern: &str, text: &str) -> (r: Option<bool>)
    ensures
        r == fancy_is_match(pattern@, text@),
        fancy_compile_error(pattern@) is Some ==> r is None,
{
    match fancy_regex::Regex::new(pattern) {
        Ok(re) => re.is_match(text).ok(),
        Err(_) => None,
    }
}

/// Compiles `pattern` with `regex::Regex::new`; `None` when it compiles,
/// else the error's display text. The contract claims only that the outcome
/// is a function of the pattern.
#[verifier::external_body]
pub(crate) fn std_regex_error(pattern: &str) -> (r: Option<String>)
    ensures
        match r {
            None => std_regex_compile_error(pattern@) is None,
            Some(e) => std_regex_compile_error(pattern@) == Some(e@),
        },
{
    match regex::Regex::new(pattern) {
        Ok(_) => None,
        Err(e) => Some(e.to_string()),
    }
}

/// The texts of the successive matches that `regex::Regex::find_iter`
/// finds for `pattern` in `text`.
pub uninterp spec fn std_regex_found(pattern: Seq<char>, text: Seq<char>) -> Seq<Seq<char>>;

/// The pieces of `text` that `regex::Regex::split` leaves between the
/// matches of `pattern`.
pub uninterp spec fn std_regex_pieces(pattern: Seq<char>, text: Seq<char>) -> Seq<Seq<char>>;

/// Compiles `pattern` with `regex::Regex::new` and collects the texts of
/// the matches `Regex::find_iter` finds in `text`. The contract claims only
/// that they are a function of pattern and text.
#[verifier::external_body]
fn std_regex_find_texts(pattern: &str, text: &str) -> (r: Vec<String>)
    requires
        std_regex_compile_error(pattern@) is None,
    ensures
        views(r@) == std_regex_found(pattern@, text@),
{
    match regex::Regex::new(pattern) {
        Ok(re) => re.find_iter(text).map(|m| m.as_str().to_string()).collect(),
        Err(_) => Vec::new(),
    }
}

/// Compiles `pattern` with `regex::Regex::new` and collects the pieces
/// `Regex::split` cuts `text` into. The contract claims only that they are
/// a function of pattern and text.
#[verifier::external_body]
fn std_regex_split_texts(pattern: &str, text: &str) -> (r: Vec<String>)
    requires
        std_regex_compile_error(pattern@) is None,
    ensures
        views(r@) == std_regex_pieces(pattern@, text@),
{
    match regex::Regex::new(pattern) {
        Ok(re) => re.split(text).map(|p| p.to_string()).collect(),
        Err(_) => Vec::new(),
    }
}

} // verus!
