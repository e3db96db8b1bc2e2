//! Values as text: compact JSON, Python's `str()` of a value, and `${field}`
//! templates filled with values.
use vstd::prelude::*;
use crate::text::{chars_of, int_text, int_to_chars, push_all, string_of};
use crate::value::{entry_models, lemma_entry_models, lemma_models, models, Json, Value};

verus! {

/// A lower-case hexadecimal digit.
pub open spec fn hex_digit(n: int) -> char {
    if n < 10 { ((48 + n) as u32) as char } else { ((87 + n) as u32) as char }
}

/// A character inside a JSON string: quote, backslash and control
/// characters escaped, every other character as it is.
pub open spec fn escape_char(c: char) -> Seq<char> {
    if c == '"' {
        seq!['\\', '"']
    } else if c == '\\' {
        seq!['\\', '\\']
    } else if c == '\n' {
        seq!['\\', 'n']
    } else if c == '\r' {
        seq!['\\', 'r']
    } else if c == '\t' {
        seq!['\\', 't']
    } else if c == '\x08' {
        seq!['\\', 'b']
    } else if c == '\x0c' {
        seq!['\\', 'f']
    } else if (c as u32) < 32 {
        seq!['\\', 'u', '0', '0', hex_digit((c as u32) as int / 16), hex_digit((c as u32) as int % 16)]
    } else {
        seq![c]
    }
}

pub open spec fn escaped(s: Seq<char>) -> Seq<char>
    decreases s.len(),
{
    if s.len() == 0 { Seq::empty() } else { escaped(s.drop_last()) + escape_char(s.last()) }
}

/// A JSON string literal.
pub open spec fn quoted(s: Seq<char>) -> Seq<char> {
    seq!['"'] + escaped(s) + seq!['"']
}

/// Compact JSON text of a value (no spaces; a float as its JSON text).
pub open spec fn json_text(j: Json) -> Seq<char>
    decreases j, 1int,
{
    match j {
        Json::Null => seq!['n', 'u', 'l', 'l'],
        Json::Bool(b) => if b { seq!['t', 'r', 'u', 'e'] } else { seq!['f', 'a', 'l', 's', 'e'] },
        Json::Int(i) => int_text(i as int),
        Json::Float(_, json, _) => json,
        Json::Str(s) => quoted(s),
        Json::Array(a) => seq!['['] + items_text(a) + seq![']'],
        Json::Object(e) => seq!['{'] + entries_text(e) + seq!['}'],
    }
}

/// The items' texts separated by commas.
pub open spec fn items_text(a: Seq<Json>) -> Seq<char>
    decreases a, 0int,
{
    if a.len() == 0 {
        Seq::empty()
    } else {
        proof {
            assert(decreases_to!(a => a[a.len() - 1]));
            assert(decreases_to!(a => a.subrange(0, a.len() - 1)));
        }
        let last = json_text(a[a.len() - 1]);
        if a.len() == 1 { last } else { items_text(a.subrange(0, a.len() - 1)) + seq![','] + last }
    }
}

/// The entries as `"key":value`, separated by commas.
pub open spec fn entries_text(e: Seq<(Seq<char>, Json)>) -> Seq<char>
    decreases e, 0int,
{
    if e.len() == 0 {
        Seq::empty()
    } else {
        proof {
            assert(decreases_to!(e => e[e.len() - 1]));
            assert(decreases_to!(e[e.len() - 1] => e[e.len() - 1].1));
            assert(decreases_to!(e => e.subrange(0, e.len() - 1)));
        }
        let last = quoted(e[e.len() - 1].0) + seq![':'] + json_text(e[e.len() - 1].1);
        if e.len() == 1 { last } else { entries_text(e.subrange(0, e.len() - 1)) + seq![','] + last }
    }
}

/// Python's `str()` of a value: `None`, `True`, `False`, numbers and strings
/// as they are, lists and objects as compact JSON.
pub open spec fn python_text(j: Json) -> Seq<char> {
    match j {
        Json::Null => seq!['N', 'o', 'n', 'e'],
        Json::Bool(b) => if b { seq!['T', 'r', 'u', 'e'] } else { seq!['F', 'a', 'l', 's', 'e'] },
        Json::Int(i) => int_text(i as int),
        Json::Float(_, json, _) => json,
        Json::Str(s) => s,
        _ => json_text(j),
    }
}

fn hex_char(n: u32) -> (c: char)
    requires
        n < 16,
    ensures
        c == hex_digit(n as int),
{
    if n < 10 { char_of(48 + n) } else { char_of(87 + n) }
}

fn char_of(n: u32) -> (c: char)
    requires
        48 <= n < 48 + 10 || 97 <= n < 97 + 6,
    ensures
        c == (n as char),
{
    let digits: [char; 16] = ['0', '1', '2', '3', '4', '5', '6', '7', '8', '9', 'a', 'b', 'c', 'd', 'e', 'f'];
    let i: usize = if n < 97 { (n - 48) as usize } else { (n - 87) as usize };
    let c = digits[i];
    assert(c == (n as char)) by {
        assert(digits@[i as int] == c);
    }
    c
}

fn push_escaped_char(out: &mut Vec<char>, c: char)
    ensures
        final(out)@ == old(out)@ + escape_char(c),
{
    let ghost start = out@;
    if c == '"' {
        out.push('\\');
        out.push('"');
    } else if c == '\\' {
        out.push('\\');
        out.push('\\');
    } else if c == '\n' {
        out.push('\\');
        out.push('n');
    } else if c == '\r' {
        out.push('\\');
        out.push('r');
    } else if c == '\t' {
        out.push('\\');
        out.push('t');
    } else if c == '\x08' {
        out.push('\\');
        out.push('b');
    } else if c == '\x0c' {
        out.push('\\');
        out.push('f');
    } else if (c as u32) < 32 {
        let n = c as u32;
        out.push('\\');
        out.push('u');
        out.push('0');
        out.push('0');
        out.push(hex_char(n / 16));
        out.push(hex_char(n % 16));
    } else {
        out.push(c);
    }
    assert(out@ =~= start + escape_char(c));
}

fn push_quoted(out: &mut Vec<char>, s: &str)
    ensures
        final(out)@ == old(out)@ + quoted(s@),
{
    let cs = chars_of(s);
    let ghost start = out@;
    out.push('"');
    let mut i: usize = 0;
    while i < cs.len()
        invariant
            i <= cs@.len(),
            cs@ == s@,
            out@ == start + seq!['"'] + escaped(cs@.subrange(0, i as int)),
        decreases cs@.len() - i,
    {
        let ghost pre = cs@.subrange(0, i + 1);
        assert(pre.drop_last() =~= cs@.subrange(0, i as int));
        push_escaped_char(out, cs[i]);
        assert(out@ =~= start + seq!['"'] + escaped(pre));
        i = i + 1;
    }
    assert(cs@.subrange(0, cs@.len() as int) =~= cs@);
    out.push('"');
    assert(out@ =~= start + quoted(s@));
}

/// Appends the compact JSON text of a value.
pub fn write_json(out: &mut Vec<char>, v: &Value)
    ensures
        final(out)@ == old(out)@ + json_text(v.model()),
    decreases v, 0int,
{
    let ghost start = out@;
    match v {
        Value::Null => {
            out.push('n');
            out.push('u');
            out.push('l');
            out.push('l');
        },
        Value::Bool(b) => {
            if *b {
                out.push('t');
                out.push('r');
                out.push('u');
                out.push('e');
            } else {
                out.push('f');
                out.push('a');
                out.push('l');
                out.push('s');
                out.push('e');
            }
        },
        Value::Int(i) => {
            let t = int_to_chars(*i);
            push_all(out, t.as_slice());
        },
        Value::Float(f) => {
            let t = chars_of(f.json.as_str());
            push_all(out, t.as_slice());
        },
        Value::Str(s) => {
            push_quoted(out, s.as_str());
        },
        Value::Array(a) => {
            out.push('[');
            let ghost ms = models(a@);
            proof { lemma_models(a@); }
            let mut i: usize = 0;
            while i < a.len()
                invariant
                    i <= a@.len(),
                    *v == Value::Array(*a),
                    ms == models(a@),
                    ms.len() == a@.len(),
                    forall|k: int| 0 <= k < a@.len() ==> #[trigger] ms[k] == a@[k].model(),
                    out@ == start + seq!['['] + items_text(ms.subrange(0, i as int)),
                decreases a@.len() - i,
            {
                proof {
                    vstd::std_specs::vec::axiom_vec_index_decreases(*a, i as int);
                    assert(decreases_to!(*v => v->Array_0));
                    assert(decreases_to!(*v => a[i as int]));
                    let pre = ms.subrange(0, i + 1);
                    assert(pre.subrange(0, i as int) =~= ms.subrange(0, i as int));
                    assert(pre[i as int] == a@[i as int].model());
                }
                if i > 0 {
                    out.push(',');
                }
                write_json(out, &a[i]);
                assert(out@ =~= start + seq!['['] + items_text(ms.subrange(0, i + 1)));
                i = i + 1;
            }
            assert(ms.subrange(0, a@.len() as int) =~= ms);
            out.push(']');
        },
        Value::Object(e) => {
            out.push('{');
            let ghost ms = entry_models(e@);
            proof { lemma_entry_models(e@); }
            let mut i: usize = 0;
            while i < e.len()
                invariant
                    i <= e@.len(),
                    *v == Value::Object(*e),
                    ms == entry_models(e@),
                    ms.len() == e@.len(),
                    forall|k: int| 0 <= k < e@.len() ==> #[trigger] ms[k] == (e@[k].0@, e@[k].1.model()),
                    out@ == start + seq!['{'] + entries_text(ms.subrange(0, i as int)),
                decreases e@.len() - i,
            {
                proof {
                    vstd::std_specs::vec::axiom_vec_index_decreases(*e, i as int);
                    assert(decreases_to!(*v => v->Object_0));
                    assert(decreases_to!(*v => e[i as int]));
                    assert(decreases_to!(*v => e[i as int].1));
                    let pre = ms.subrange(0, i + 1);
                    assert(pre.subrange(0, i as int) =~= ms.subrange(0, i as int));
                    assert(pre[i as int] == (e@[i as int].0@, e@[i as int].1.model()));
                }
                if i > 0 {
                    out.push(',');
                }
                push_quoted(out, e[i].0.as_str());
                out.push(':');
                write_json(out, &e[i].1);
                assert(out@ =~= start + seq!['{'] + entries_text(ms.subrange(0, i + 1)));
                i = i + 1;
            }
            assert(ms.subrange(0, e@.len() as int) =~= ms);
            out.push('}');
        },
    }
    assert(out@ =~= start + json_text(v.model()));
}

/// The compact JSON text of a value.
pub fn to_json_text(v: &Value) -> (r: String)
    ensures
        r@ == json_text(v.model()),
{
    let mut out: Vec<char> = Vec::new();
    write_json(&mut out, v);
    assert(out@ =~= json_text(v.model()));
    string_of(out.as_slice())
}

/// Python's `str()` of a value (see [`python_text`]).
pub fn value_to_python_str(value: &Value) -> (r: String)
    ensures
        r@ == python_text(value.model()),
{
    match value {
        Value::Null => string_of(&['N', 'o', 'n', 'e']),
        Value::Bool(b) => if *b { string_of(&['T', 'r', 'u', 'e']) } else { string_of(&['F', 'a', 'l', 's', 'e']) },
        Value::Int(i) => string_of(int_to_chars(*i).as_slice()),
        Value::Float(f) => f.json.clone(),
        Value::Str(s) => s.clone(),
        _ => to_json_text(value),
    }
}

/// `s` with every occurrence of `pat` replaced by `rep`, scanning from the
/// left and never replacing inside a replacement.
pub open spec fn replace_all(s: Seq<char>, pat: Seq<char>, rep: Seq<char>) -> Seq<char>
    decreases s.len(),
{
    if pat.len() == 0 || s.len() < pat.len() {
        s
    } else if s.subrange(0, pat.len() as int) == pat {
        rep + replace_all(s.subrange(pat.len() as int, s.len() as int), pat, rep)
    } else {
        seq![s[0]] + replace_all(s.subrange(1, s.len() as int), pat, rep)
    }
}

/// No occurrence of `pat` in `s1 + s2` starts in `s1` and ends in `s2`.
pub open spec fn no_match_across(s1: Seq<char>, s2: Seq<char>, pat: Seq<char>) -> bool {
    forall|i: int| 0 <= i < s1.len() && s1.len() < i + pat.len() <= s1.len() + s2.len()
        ==> #[trigger] (s1 + s2).subrange(i, i + pat.len()) != pat
}

/// Law: replacing splits over a cut that no occurrence of the pattern
/// crosses: the text before and the text after are replaced on their own.
/// (So every occurrence is replaced, not only the first.)
pub proof fn lemma_replace_all_concat(s1: Seq<char>, s2: Seq<char>, pat: Seq<char>, rep: Seq<char>)
    requires
        no_match_across(s1, s2, pat),
    ensures
        replace_all(s1 + s2, pat, rep) == replace_all(s1, pat, rep) + replace_all(s2, pat, rep),
    decreases s1.len(),
{
    let s = s1 + s2;
    let n = pat.len() as int;
    if n == 0 {
    } else if s1.len() == 0 {
        assert(s =~= s2);
        assert(replace_all(s1, pat, rep) + replace_all(s2, pat, rep) =~= replace_all(s2, pat, rep));
    } else if s.len() < n {
    } else {
        let t1 = s1.subrange(1, s1.len() as int);
        if s.subrange(0, n) == pat {
            if n > s1.len() {
                assert((s1 + s2).subrange(0, 0 + n) != pat);
            } else {
                let u1 = s1.subrange(n, s1.len() as int);
                assert(s1.subrange(0, n) =~= s.subrange(0, n));
                assert(s.subrange(n, s.len() as int) =~= u1 + s2);
                assert forall|i: int| 0 <= i < u1.len() && u1.len() < i + n <= u1.len() + s2.len()
                    implies #[trigger] (u1 + s2).subrange(i, i + n) != pat by {
                    assert((u1 + s2).subrange(i, i + n) =~= (s1 + s2).subrange(i + n, i + n + n));
                }
                lemma_replace_all_concat(u1, s2, pat, rep);
                assert(rep + (replace_all(u1, pat, rep) + replace_all(s2, pat, rep))
                    =~= (rep + replace_all(u1, pat, rep)) + replace_all(s2, pat, rep));
            }
        } else {
            assert(s.subrange(1, s.len() as int) =~= t1 + s2);
            assert forall|i: int| 0 <= i < t1.len() && t1.len() < i + n <= t1.len() + s2.len()
                implies #[trigger] (t1 + s2).subrange(i, i + n) != pat by {
                assert((t1 + s2).subrange(i, i + n) =~= (s1 + s2).subrange(i + 1, i + 1 + n));
            }
            lemma_replace_all_concat(t1, s2, pat, rep);
            assert(s[0] == s1[0]);
            if s1.len() >= n {
                assert(s1.subrange(0, n) =~= s.subrange(0, n));
                assert(seq![s1[0]] + (replace_all(t1, pat, rep) + replace_all(s2, pat, rep))
                    =~= (seq![s1[0]] + replace_all(t1, pat, rep)) + replace_all(s2, pat, rep));
            } else {
                assert(seq![s1[0]] + t1 =~= s1);
                assert(seq![s1[0]] + (t1 + replace_all(s2, pat, rep)) =~= s1 + replace_all(s2, pat, rep));
            }
        }
    }
}

/// Law: the pattern alone is replaced by the replacement.
pub proof fn lemma_replace_all_pattern(pat: Seq<char>, rep: Seq<char>)
    requires
        pat.len() > 0,
    ensures
        replace_all(pat, pat, rep) == rep,
{
    assert(pat.subrange(0, pat.len() as int) =~= pat);
    assert(pat.subrange(pat.len() as int, pat.len() as int) =~= Seq::<char>::empty());
    assert(replace_all(Seq::<char>::empty(), pat, rep) == Seq::<char>::empty());
    assert(rep + Seq::<char>::empty() =~= rep);
}

/// Law: a text without the pattern is left as it is.
pub proof fn lemma_replace_all_absent(s: Seq<char>, pat: Seq<char>, rep: Seq<char>)
    requires
        forall|i: int| 0 <= i && i + pat.len() <= s.len() ==> #[trigger] s.subrange(i, i + pat.len()) != pat,
    ensures
        replace_all(s, pat, rep) == s,
    decreases s.len(),
{
    if pat.len() > 0 && s.len() >= pat.len() {
        let t = s.subrange(1, s.len() as int);
        assert(s.subrange(0int, 0int + pat.len()) != pat);
        assert forall|i: int| 0 <= i && i + pat.len() <= t.len() implies #[trigger] t.subrange(i, i + pat.len()) != pat by {
            assert(t.subrange(i, i + pat.len()) =~= s.subrange(i + 1, i + 1 + pat.len()));
        }
        lemma_replace_all_absent(t, pat, rep);
        assert(seq![s[0]] + t =~= s);
    }
}

/// The placeholder of a field in a template: `${field}`.
pub open spec fn placeholder(key: Seq<char>) -> Seq<char> {
    seq!['$', '{'] + key + seq!['}']
}

/// The text a value is put into a template as.
pub open spec fn template_text(j: Json, json_mode: bool) -> Seq<char> {
    if json_mode { json_text(j) } else { python_text(j) }
}

/// A template with the placeholder of each field replaced by its value, the
/// fields taken in order.
pub open spec fn filled(template: Seq<char>, data: Seq<(Seq<char>, Json)>, json_mode: bool) -> Seq<char>
    decreases data.len(),
{
    if data.len() == 0 {
        template
    } else {
        replace_all(
            filled(template, data.drop_last(), json_mode),
            placeholder(data.last().0),
            template_text(data.last().1, json_mode),
        )
    }
}

/// Law: with one field, a template that is the field's placeholder becomes
/// the field's text, and filling splits over a cut that no placeholder
/// crosses, so that every placeholder of the field is filled.
pub proof fn lemma_fill_one_field(t1: Seq<char>, t2: Seq<char>, k: Seq<char>, v: Json, json_mode: bool)
    requires
        no_match_across(t1, t2, placeholder(k)),
    ensures
        filled(placeholder(k), seq![(k, v)], json_mode) == template_text(v, json_mode),
        filled(t1 + t2, seq![(k, v)], json_mode)
            == filled(t1, seq![(k, v)], json_mode) + filled(t2, seq![(k, v)], json_mode),
{
    let data = seq![(k, v)];
    assert(data.drop_last() =~= Seq::<(Seq<char>, Json)>::empty());
    assert(data.last() == (k, v));
    lemma_replace_all_pattern(placeholder(k), template_text(v, json_mode));
    lemma_replace_all_concat(t1, t2, placeholder(k), template_text(v, json_mode));
    assert forall|t: Seq<char>| #[trigger] filled(t, data, json_mode)
        == replace_all(t, placeholder(k), template_text(v, json_mode)) by {
        assert(filled(t, data.drop_last(), json_mode) == t);
    }
    assert(filled(placeholder(k), data, json_mode) == replace_all(placeholder(k), placeholder(k), template_text(v, json_mode)));
    assert(filled(t1 + t2, data, json_mode) == replace_all(t1 + t2, placeholder(k), template_text(v, json_mode)));
    assert(filled(t1, data, json_mode) == replace_all(t1, placeholder(k), template_text(v, json_mode)));
    assert(filled(t2, data, json_mode) == replace_all(t2, placeholder(k), template_text(v, json_mode)));
}

fn starts_at(s: &Vec<char>, i: usize, pat: &Vec<char>) -> (r: bool)
    requires
        i <= s@.len(),
    ensures
        r == (i + pat@.len() <= s@.len() && s@.subrange(i as int, i + pat@.len()) == pat@),
{
    if pat.len() > s.len() - i {
        return false;
    }
    let mut k: usize = 0;
    while k < pat.len()
        invariant
            k <= pat@.len(),
            i + pat@.len() <= s@.len(),
            s@.len() <= usize::MAX,
            forall|m: int| 0 <= m < k ==> s@[i + m] == pat@[m],
        decreases pat@.len() - k,
    {
        if s[i + k] != pat[k] {
            assert(s@.subrange(i as int, i + pat@.len())[k as int] != pat@[k as int]);
            return false;
        }
        k = k + 1;
    }
    assert(s@.subrange(i as int, i + pat@.len()) =~= pat@);
    true
}

fn replace_chars(s: &Vec<char>, pat: &Vec<char>, rep: &Vec<char>) -> (r: Vec<char>)
    ensures
        r@ == replace_all(s@, pat@, rep@),
{
    if pat.len() == 0 {
        let mut out: Vec<char> = Vec::new();
        push_all(&mut out, s.as_slice());
        assert(out@ =~= s@);
        return out;
    }
    let mut out: Vec<char> = Vec::new();
    let mut i: usize = 0;
    assert(s@.subrange(0, s@.len() as int) =~= s@);
    while i < s.len()
        invariant
            i <= s@.len(),
            pat@.len() > 0,
            out@ + replace_all(s@.subrange(i as int, s@.len() as int), pat@, rep@) == replace_all(s@, pat@, rep@),
        decreases s@.len() - i,
    {
        let ghost t = s@.subrange(i as int, s@.len() as int);
        if starts_at(s, i, pat) {
            assert(t.subrange(0, pat@.len() as int) =~= s@.subrange(i as int, i + pat@.len()));
            assert(t.subrange(pat@.len() as int, t.len() as int) =~= s@.subrange(i + pat@.len(), s@.len() as int));
            let ghost before = out@;
            push_all(&mut out, rep.as_slice());
            assert(out@ + replace_all(s@.subrange(i + pat@.len(), s@.len() as int), pat@, rep@)
                =~= before + replace_all(t, pat@, rep@));
            i = i + pat.len();
        } else {
            proof {
                if t.len() >= pat@.len() {
                    assert(t.subrange(0, pat@.len() as int) =~= s@.subrange(i as int, i + pat@.len()));
                }
                assert(t.subrange(1, t.len() as int) =~= s@.subrange(i + 1, s@.len() as int));
                if t.len() < pat@.len() {
                    assert(t =~= seq![t[0]] + t.subrange(1, t.len() as int));
                }
            }
            let ghost before = out@;
            out.push(s[i]);
            assert(out@ + replace_all(s@.subrange(i + 1, s@.len() as int), pat@, rep@)
                =~= before + replace_all(t, pat@, rep@));
            i = i + 1;
        }
    }
    assert(s@.subrange(s@.len() as int, s@.len() as int) =~= Seq::<char>::empty());
    assert(out@ + Seq::<char>::empty() =~= out@);
    out
}

/// Fills `${field}` placeholders with the fields' values, in the order of
/// `data`: as Python's `str()` of the value, or as compact JSON with
/// `json_mode`.
pub fn resolve_template(template: &str, data: &[(String, Value)], json_mode: bool) -> (r: String)
    ensures
        r@ == filled(template@, entry_models(data@), json_mode),
{
    let ghost dm = entry_models(data@);
    proof { lemma_entry_models(data@); }
    let mut result = chars_of(template);
    let mut i: usize = 0;
    assert(dm.subrange(0, 0) =~= Seq::<(Seq<char>, Json)>::empty());
    while i < data.len()
        invariant
            i <= data@.len(),
            dm == entry_models(data@),
            dm.len() == data@.len(),
            forall|k: int| 0 <= k < data@.len() ==> #[trigger] dm[k] == (data@[k].0@, data@[k].1.model()),
            result@ == filled(template@, dm.subrange(0, i as int), json_mode),
        decreases data@.len() - i,
    {
        let ghost pre = dm.subrange(0, i + 1);
        assert(pre.drop_last() =~= dm.subrange(0, i as int));
        assert(pre.last() == dm[i as int]);
        let mut needle: Vec<char> = Vec::new();
        needle.push('$');
        needle.push('{');
        let key = chars_of(data[i].0.as_str());
        push_all(&mut needle, key.as_slice());
        needle.push('}');
        assert(needle@ =~= placeholder(data@[i as int].0@));
        let text = if json_mode { to_json_text(&data[i].1) } else { value_to_python_str(&data[i].1) };
        let rep = chars_of(text.as_str());
        result = replace_chars(&result, &needle, &rep);
        i = i + 1;
    }
    assert(dm.subrange(0, data@.len() as int) =~= dm);
    string_of(result.as_slice())
}

} // verus!
