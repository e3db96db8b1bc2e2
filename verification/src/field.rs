//! Dotted-field helpers: parsing dotted field names (`a.b.c`, with `\.`
//! escaping) and reading, testing, removing and writing fields of an event.
use vstd::prelude::*;
use crate::text::{
    chars_of, contains_char, parse_int_spec, parse_isize, push_all, split_char, split_on_char,
    string_of, vviews,
};
use crate::value::{
    entry_models, find_entry, key_get, key_index, lemma_entry_models, lemma_entry_models_push,
    lemma_entry_models_remove, lemma_entry_models_update, lemma_key_index, lemma_models,
    lemma_models_push, lemma_models_update, models, Json, Value,
};
use crate::render::{python_text, value_to_python_str};


verus! {

/// The character sequences of a list of strings.
pub open spec fn views(v: Seq<String>) -> Seq<Seq<char>> {
    Seq::new(v.len(), |i: int| v[i]@)
}

/// Splits a dotted field name into its components. `\.` stands for a literal
/// dot and `\\` for a literal backslash; a backslash before any other
/// character, or at the end, is kept as it is.
pub open spec fn dotted_split_from(s: Seq<char>, cur: Seq<char>, done: Seq<Seq<char>>) -> Seq<Seq<char>>
    decreases s.len(),
{
    if s.len() == 0 {
        done.push(cur)
    } else if s[0] == '.' {
        dotted_split_from(s.subrange(1, s.len() as int), Seq::empty(), done.push(cur))
    } else if s[0] == '\\' && s.len() >= 2 {
        let next = if s[1] == '.' {
            cur.push('.')
        } else if s[1] == '\\' {
            cur.push('\\')
        } else {
            cur.push('\\').push(s[1])
        };
        dotted_split_from(s.subrange(2, s.len() as int), next, done)
    } else {
        dotted_split_from(s.subrange(1, s.len() as int), cur.push(s[0]), done)
    }
}

pub open spec fn dotted_split(s: Seq<char>) -> Seq<Seq<char>> {
    dotted_split_from(s, Seq::empty(), Seq::empty())
}

/// A field name with each `.` written as `\.`.
pub open spec fn escape_dots(f: Seq<char>) -> Seq<char>
    decreases f.len(),
{
    if f.len() == 0 {
        Seq::empty()
    } else {
        escape_dots(f.drop_last()) + (if f.last() == '.' { seq!['\\', '.'] } else { seq![f.last()] })
    }
}

/// The parts joined with `sep` between neighbours.
pub open spec fn join_with(parts: Seq<Seq<char>>, sep: Seq<char>) -> Seq<char>
    decreases parts.len(),
{
    if parts.len() == 0 {
        Seq::empty()
    } else if parts.len() == 1 {
        parts[0]
    } else {
        join_with(parts.drop_last(), sep) + sep + parts.last()
    }
}

pub open spec fn escaped_all(parts: Seq<Seq<char>>) -> Seq<Seq<char>> {
    Seq::new(parts.len(), |i: int| escape_dots(parts[i]))
}

/// The dotted name of a field path, dots inside names escaped.
pub open spec fn dotted_name(parts: Seq<Seq<char>>) -> Seq<char> {
    join_with(escaped_all(parts), seq!['.'])
}

fn strings_of(parts: &Vec<Vec<char>>) -> (r: Vec<String>)
    ensures
        views(r@) == parts@.map_values(|p: Vec<char>| p@),
{
    let mut out: Vec<String> = Vec::new();
    let mut i: usize = 0;
    while i < parts.len()
        invariant
            i <= parts@.len(),
            out@.len() == i,
            forall|j: int| 0 <= j < i ==> #[trigger] out@[j]@ == parts@[j]@,
        decreases parts@.len() - i,
    {
        out.push(string_of(parts[i].as_slice()));
        i = i + 1;
    }
    assert(views(out@) =~= parts@.map_values(|p: Vec<char>| p@));
    out
}

/// Splits a dotted field string into its components, honouring backslash
/// escaping of `.` and `\`.
pub fn get_dotted_field_list(dotted_field: &str) -> (r: Vec<String>)
    ensures
        views(r@) == dotted_split(dotted_field@),
{
    let s = chars_of(dotted_field);
    let n = s.len();
    let mut done: Vec<Vec<char>> = Vec::new();
    let mut cur: Vec<char> = Vec::new();
    let mut i: usize = 0;
    assert(s@.subrange(0, n as int) == s@);
    assert(done@.map_values(|p: Vec<char>| p@) == Seq::<Seq<char>>::empty());
    assert(cur@ == Seq::<char>::empty());
    while i < n
        invariant
            i <= n,
            n == s@.len(),
            dotted_split_from(s@.subrange(i as int, n as int), cur@, done@.map_values(|p: Vec<char>| p@))
                == dotted_split(s@),
        decreases n - i,
    {
        let ghost rest = s@.subrange(i as int, n as int);
        let ghost dv = done@.map_values(|p: Vec<char>| p@);
        let c = s[i];
        if c == '.' {
            assert(rest.subrange(1, rest.len() as int) == s@.subrange(i + 1, n as int));
            let mut finished: Vec<char> = Vec::new();
            std::mem::swap(&mut finished, &mut cur);
            done.push(finished);
            assert(done@.map_values(|p: Vec<char>| p@) == dv.push(finished@));
            i = i + 1;
        } else if c == '\\' && i + 1 < n {
            let d = s[i + 1];
            assert(rest.subrange(2, rest.len() as int) == s@.subrange(i + 2, n as int));
            if d == '.' {
                cur.push('.');
            } else if d == '\\' {
                cur.push('\\');
            } else {
                cur.push('\\');
                cur.push(d);
            }
            i = i + 2;
        } else {
            assert(rest.subrange(1, rest.len() as int) == s@.subrange(i + 1, n as int));
            cur.push(c);
            i = i + 1;
        }
    }
    let ghost dv = done@.map_values(|p: Vec<char>| p@);
    done.push(cur);
    assert(done@.map_values(|p: Vec<char>| p@) == dv.push(cur@));
    assert(s@.subrange(0, n as int) == s@);
    strings_of(&done)
}

fn escape_dots_into(out: &mut Vec<char>, f: &[char])
    ensures
        final(out)@ == old(out)@ + escape_dots(f@),
{
    let mut i: usize = 0;
    while i < f.len()
        invariant
            i <= f@.len(),
            out@ == old(out)@ + escape_dots(f@.subrange(0, i as int)),
        decreases f@.len() - i,
    {
        let ghost p = f@.subrange(0, i + 1);
        assert(p.drop_last() == f@.subrange(0, i as int));
        if f[i] == '.' {
            out.push('\\');
            out.push('.');
        } else {
            out.push(f[i]);
        }
        i = i + 1;
    }
    assert(f@.subrange(0, f@.len() as int) == f@);
}

/// Joins the parts with `sep`; with `escape` each part has its dots escaped.
fn join_parts(parts: &[String], sep: char, escape: bool) -> (r: Vec<char>)
    ensures
        r@ == join_with(
            if escape { escaped_all(views(parts@)) } else { views(parts@) },
            seq![sep],
        ),
{
    let ghost all = if escape { escaped_all(views(parts@)) } else { views(parts@) };
    let mut out: Vec<char> = Vec::new();
    let mut i: usize = 0;
    while i < parts.len()
        invariant
            i <= parts@.len(),
            all.len() == parts@.len(),
            all == (if escape { escaped_all(views(parts@)) } else { views(parts@) }),
            out@ == join_with(all.subrange(0, i as int), seq![sep]),
        decreases parts@.len() - i,
    {
        let ghost before = out@;
        let pc = chars_of(parts[i].as_str());
        if i > 0 {
            out.push(sep);
        }
        if escape {
            escape_dots_into(&mut out, pc.as_slice());
        } else {
            push_all(&mut out, pc.as_slice());
        }
        let ghost q = all.subrange(0, i + 1);
        assert(q.drop_last() == all.subrange(0, i as int));
        assert(all[i as int] == (if escape { escape_dots(parts@[i as int]@) } else { parts@[i as int]@ }));
        if i == 0 {
            assert(q.len() == 1);
        }
        i = i + 1;
    }
    assert(all.subrange(0, parts@.len() as int) == all);
    out
}

/// Combines a field list into a dotted field, escaping dots in field names.
pub fn field_list_to_dotted_field(field_list: &[String]) -> (r: String)
    ensures
        r@ == dotted_name(views(field_list@)),
{
    let v = join_parts(field_list, '.', true);
    string_of(v.as_slice())
}

/// Combines dotted fields with `.`, without escaping.
pub fn join_dotted_fields(dotted_fields: &[String]) -> (r: String)
    ensures
        r@ == join_with(views(dotted_fields@), seq!['.']),
{
    let v = join_parts(dotted_fields, '.', false);
    string_of(v.as_slice())
}

/// A Python-style list index (negative counts from the end) resolved against
/// a list of length `len`.
pub open spec fn normalize_index_spec(idx: int, len: int) -> Option<int> {
    let i = if idx < 0 { idx + len } else { idx };
    if len == 0 || i < 0 || i >= len { None } else { Some(i) }
}

/// The integer that a path segment denotes as an `isize`, if any.
pub open spec fn isize_of(part: Seq<char>) -> Option<int> {
    match parse_int_spec(part) {
        Some(v) => if isize::MIN <= v <= isize::MAX { Some(v) } else { None },
        None => None,
    }
}

/// Resolves a Python-style list index against a list of length `len`.
pub fn normalize_index(idx: isize, len: usize) -> (r: Option<usize>)
    ensures
        match normalize_index_spec(idx as int, len as int) {
            Some(i) => r == Some(i as usize),
            None => r is None,
        },
{
    if len == 0 {
        return None;
    }
    let i: i128 = if idx < 0 { idx as i128 + len as i128 } else { idx as i128 };
    if i < 0 || i >= len as i128 {
        None
    } else {
        Some(i as usize)
    }
}

/// The value at a field path: object entries by key, list items by index
/// (a segment holding `:` never addresses a list item here).
pub open spec fn get_path(j: Json, parts: Seq<Seq<char>>) -> Option<Json>
    decreases parts.len(),
{
    if parts.len() == 0 {
        Some(j)
    } else {
        let rest = parts.subrange(1, parts.len() as int);
        match j {
            Json::Object(e) => match key_get(e, parts[0]) {
                Some(c) => get_path(c, rest),
                None => None,
            },
            Json::Array(a) => {
                if parts[0].contains(':') {
                    None
                } else {
                    match isize_of(parts[0]) {
                        Some(idx) => match normalize_index_spec(idx, a.len() as int) {
                            Some(i) => get_path(a[i], rest),
                            None => None,
                        },
                        None => None,
                    }
                }
            },
            _ => None,
        }
    }
}

pub open spec fn opt_model(r: Option<&Value>) -> Option<Json> {
    match r {
        Some(v) => Some(v.model()),
        None => None,
    }
}

/// One step of a path: the child of `current` addressed by `part`.
fn child_at<'a>(current: &'a Value, part: &String) -> (r: Option<&'a Value>)
    ensures
        opt_model(r) == (match current.model() {
            Json::Object(e) => key_get(e, part@),
            Json::Array(a) => if part@.contains(':') {
                None
            } else {
                match isize_of(part@) {
                    Some(idx) => match normalize_index_spec(idx, a.len() as int) {
                        Some(i) => Some(a[i]),
                        None => None,
                    },
                    None => None,
                }
            },
            _ => None,
        }),
{
    match current {
        Value::Object(map) => {
            proof { lemma_entry_models(map@); lemma_key_index(entry_models(map@), part@); }
            match find_entry(map, part.as_str()) {
                Some(i) => Some(&map[i].1),
                None => None,
            }
        },
        Value::Array(arr) => {
            proof { lemma_models(arr@); }
            let pc = chars_of(part.as_str());
            if contains_char(pc.as_slice(), ':') {
                return None;
            }
            match parse_isize(pc.as_slice()) {
                Some(idx) => match normalize_index(idx, arr.len()) {
                    Some(i) => Some(&arr[i]),
                    None => None,
                },
                None => None,
            }
        },
        _ => None,
    }
}

/// The value at the given field path, or `None` if it is missing. Object keys
/// and list indices are supported; slices are not.
pub fn get_at<'a>(event: &'a Value, parts: &[String]) -> (r: Option<&'a Value>)
    ensures
        opt_model(r) == get_path(event.model(), views(parts@)),
{
    let ghost p = views(parts@);
    let mut current: &Value = event;
    let mut i: usize = 0;
    assert(p.subrange(0, p.len() as int) == p);
    while i < parts.len()
        invariant
            i <= parts@.len(),
            p == views(parts@),
            get_path(event.model(), p) == get_path(current.model(), p.subrange(i as int, p.len() as int)),
        decreases parts@.len() - i,
    {
        let ghost q = p.subrange(i as int, p.len() as int);
        assert(q.subrange(1, q.len() as int) == p.subrange(i + 1, p.len() as int));
        assert(q[0] == parts@[i as int]@);
        match child_at(current, &parts[i]) {
            Some(c) => {
                current = c;
            },
            None => {
                return None;
            },
        }
        i = i + 1;
    }
    Some(current)
}

/// Borrowed value of a dotted field (no slice support).
pub fn get_dotted_field_value<'a>(event: &'a Value, key: &[String]) -> (r: Option<&'a Value>)
    ensures
        opt_model(r) == get_path(event.model(), views(key@)),
{
    get_at(event, key)
}

/// Whether a field exists. With `allow_none` false a `null` value counts as missing.
pub fn has_dotted_field(event: &Value, key: &[String], allow_none: bool) -> (r: bool)
    ensures
        r == (match get_path(event.model(), views(key@)) {
            Some(v) => allow_none || v != Json::Null,
            None => false,
        }),
{
    match get_at(event, key) {
        Some(v) => allow_none || !matches!(v, Value::Null),
        None => false,
    }
}

/// The value at a path that walks object entries only (lists are not indexed).
pub open spec fn get_object_path(j: Json, parts: Seq<Seq<char>>) -> Option<Json>
    decreases parts.len(),
{
    if parts.len() == 0 {
        Some(j)
    } else {
        match j {
            Json::Object(e) => match key_get(e, parts[0]) {
                Some(c) => get_object_path(c, parts.subrange(1, parts.len() as int)),
                None => None,
            },
            _ => None,
        }
    }
}

/// The value reached through nested objects by the given keys, or `None`
/// where a key is missing or a value on the way is not an object.
pub fn get_field_value_no_slice<'a>(event: &'a Value, fields: &[String]) -> (r: Option<&'a Value>)
    ensures
        opt_model(r) == get_object_path(event.model(), views(fields@)),
{
    let ghost p = views(fields@);
    let mut current: &Value = event;
    let mut i: usize = 0;
    assert(p.subrange(0, p.len() as int) == p);
    while i < fields.len()
        invariant
            i <= fields@.len(),
            p == views(fields@),
            get_object_path(event.model(), p) == get_object_path(current.model(), p.subrange(i as int, p.len() as int)),
        decreases fields@.len() - i,
    {
        let ghost q = p.subrange(i as int, p.len() as int);
        assert(q.subrange(1, q.len() as int) == p.subrange(i + 1, p.len() as int));
        assert(q[0] == fields@[i as int]@);
        match current {
            Value::Object(map) => {
                proof { lemma_entry_models(map@); lemma_key_index(entry_models(map@), fields@[i as int]@); }
                match find_entry(map, fields[i].as_str()) {
                    Some(k) => {
                        current = &map[k].1;
                    },
                    None => {
                        return None;
                    },
                }
            },
            _ => {
                return None;
            },
        }
        i = i + 1;
    }
    Some(current)
}

/// A list-path segment: an index, or a slice `start:stop:step`.
pub enum Step {
    Index(isize),
    Slice(Option<isize>, Option<isize>, isize),
}

/// A slice bound: empty means open (`Some(None)`), otherwise an `isize`.
pub open spec fn slice_bound(p: Seq<char>) -> Option<Option<int>> {
    if p.len() == 0 {
        Some(None)
    } else {
        match isize_of(p) {
            Some(v) => Some(Some(v)),
            None => None,
        }
    }
}

/// The step a segment denotes on a list: with `:` a slice of at most three
/// parts, each empty or an integer (an empty or missing step counts as 1, a
/// zero step is rejected), without it an index.
pub open spec fn step_of(seg: Seq<char>) -> Option<(bool, Option<int>, Option<int>, int)> {
    if seg.contains(':') {
        let parts = split_char(seg, ':');
        if parts.len() > 3 {
            None
        } else {
            let stop_text = if parts.len() > 1 { parts[1] } else { Seq::empty() };
            let step_text = if parts.len() > 2 { parts[2] } else { Seq::empty() };
            match (slice_bound(parts[0]), slice_bound(stop_text), slice_bound(step_text)) {
                (Some(s), Some(e), Some(st)) => {
                    let st = match st {
                        Some(v) => v,
                        None => 1,
                    };
                    if st == 0 { None } else { Some((true, s, e, st)) }
                },
                _ => None,
            }
        }
    } else {
        match isize_of(seg) {
            Some(v) => Some((false, None, None, v)),
            None => None,
        }
    }
}

fn bound_of(p: &Vec<char>) -> (r: Option<Option<isize>>)
    ensures
        match slice_bound(p@) {
            Some(Some(v)) => r == Some(Some(v as isize)),
            Some(None) => r == Some(None::<isize>),
            None => r is None,
        },
{
    if p.len() == 0 {
        Some(None)
    } else {
        match parse_isize(p.as_slice()) {
            Some(v) => Some(Some(v)),
            None => None,
        }
    }
}

/// Reads a path segment as a list index or slice.
pub fn step_from_segment(segment: &str) -> (r: Option<Step>)
    ensures
        match step_of(segment@) {
            Some((is_slice, s, e, st)) => match r {
                Some(Step::Slice(rs, re, rst)) => is_slice
                    && (match s { Some(v) => rs == Some(v as isize), None => rs is None })
                    && (match e { Some(v) => re == Some(v as isize), None => re is None })
                    && rst as int == st,
                Some(Step::Index(ri)) => !is_slice && ri as int == st,
                None => false,
            },
            None => r is None,
        },
{
    let seg = chars_of(segment);
    if contains_char(seg.as_slice(), ':') {
        let parts = split_on_char(seg.as_slice(), ':');
        proof {
            assert(vviews(parts@).len() == parts@.len());
        }
        if parts.len() > 3 {
            return None;
        }
        let ghost pv = vviews(parts@);
        assert(pv[0] == parts@[0]@);
        let start = match bound_of(&parts[0]) {
            Some(b) => b,
            None => return None,
        };
        let empty: Vec<char> = Vec::new();
        let stop_text: &Vec<char> = if parts.len() > 1 { &parts[1] } else { &empty };
        proof {
            if parts@.len() > 1 { assert(pv[1] == parts@[1]@); }
        }
        let stop = match bound_of(stop_text) {
            Some(b) => b,
            None => return None,
        };
        let step_text: &Vec<char> = if parts.len() > 2 { &parts[2] } else { &empty };
        proof {
            if parts@.len() > 2 { assert(pv[2] == parts@[2]@); }
        }
        let step: isize = match bound_of(step_text) {
            Some(Some(v)) => v,
            Some(None) => 1,
            None => return None,
        };
        if step == 0 {
            None
        } else {
            Some(Step::Slice(start, stop, step))
        }
    } else {
        match parse_isize(seg.as_slice()) {
            Some(v) => Some(Step::Index(v)),
            None => None,
        }
    }
}

/// Items `i, i+step, ...` below `e` (positive step), skipping positions
/// outside the list.
pub open spec fn slice_up(a: Seq<Json>, i: int, e: int, step: int) -> Seq<Json>
    decreases (if i < e { e - i } else { 0 }),
{
    if step <= 0 || i >= e {
        Seq::empty()
    } else {
        let head = if 0 <= i < a.len() { seq![a[i]] } else { Seq::empty() };
        head + slice_up(a, i + step, e, step)
    }
}

/// Items `i, i+step, ...` above `e` (negative step), skipping positions
/// outside the list.
pub open spec fn slice_down(a: Seq<Json>, i: int, e: int, step: int) -> Seq<Json>
    decreases (if i > e { i - e } else { 0 }),
{
    if step >= 0 || i <= e {
        Seq::empty()
    } else {
        let head = if 0 <= i < a.len() { seq![a[i]] } else { Seq::empty() };
        head + slice_down(a, i + step, e, step)
    }
}

pub open spec fn min_int(a: int, b: int) -> int { if a < b { a } else { b } }
pub open spec fn max_int(a: int, b: int) -> int { if a > b { a } else { b } }

/// Python list slicing `a[start:stop:step]` (bounds clamped as
/// `slice.indices` does).
pub open spec fn python_slice_spec(a: Seq<Json>, start: Option<int>, stop: Option<int>, step: int) -> Seq<Json> {
    let len = a.len() as int;
    if step > 0 {
        let s = match start { Some(v) => if v < 0 { max_int(v + len, 0) } else { min_int(v, len) }, None => 0 };
        let e = match stop { Some(v) => if v < 0 { max_int(v + len, 0) } else { min_int(v, len) }, None => len };
        slice_up(a, s, e, step)
    } else if step < 0 {
        let s = match start { Some(v) => if v < 0 { max_int(v + len, -1) } else { min_int(v, len - 1) }, None => len - 1 };
        let e = match stop { Some(v) => if v < 0 { max_int(v + len, -1) } else { min_int(v, len - 1) }, None => -1 };
        slice_down(a, s, e, step)
    } else {
        Seq::empty()
    }
}

pub open spec fn opt_int(o: Option<isize>) -> Option<int> {
    match o { Some(v) => Some(v as int), None => None }
}

/// Python-style slice of a list of values.
fn python_slice(arr: &Vec<Value>, start: Option<isize>, stop: Option<isize>, step: isize) -> (r: Vec<Value>)
    ensures
        models(r@) == python_slice_spec(models(arr@), opt_int(start), opt_int(stop), step as int),
{
    proof { lemma_models(arr@); }
    let ghost a = models(arr@);
    let mut out: Vec<Value> = Vec::new();
    if step == 0 {
        proof { lemma_models(out@); }
        return out;
    }
    let len: i128 = arr.len() as i128;
    let st: i128 = step as i128;
    if step > 0 {
        let s: i128 = match start { Some(v) => if v < 0 { if v as i128 + len > 0 { v as i128 + len } else { 0 } } else { if (v as i128) < len { v as i128 } else { len } }, None => 0 };
        let e: i128 = match stop { Some(v) => if v < 0 { if v as i128 + len > 0 { v as i128 + len } else { 0 } } else { if (v as i128) < len { v as i128 } else { len } }, None => len };
        let mut i: i128 = s;
        proof { lemma_models(out@); }
        while i < e
            invariant
                a == models(arr@),
                a.len() == arr@.len(),
                forall|j: int| 0 <= j < arr@.len() ==> #[trigger] a[j] == arr@[j].model(),
                len == arr@.len(),
                len <= usize::MAX,
                st == step,
                st > 0,
                0 <= s <= len,
                0 <= e <= len,
                models(out@) + slice_up(a, i as int, e as int, st as int) == slice_up(a, s as int, e as int, st as int),
                i >= s,
                i >= 0,
            decreases (if i < e { e - i } else { 0 }),
        {
            let ghost before = models(out@);
            let ghost before_v = out@;
            let idx: usize = i as usize;
            assert(idx as int == i as int);
            let c = arr[idx].copy();
            out.push(c);
            proof {
                assert(c.model() == a[i as int]);
                lemma_models(before_v);
                lemma_models(out@);
                assert(models(out@) =~= before.push(c.model()));
                assert(slice_up(a, i as int, e as int, st as int)
                    == seq![a[i as int]] + slice_up(a, i + st, e as int, st as int));
                assert(before + (seq![a[i as int]] + slice_up(a, i + st, e as int, st as int))
                    =~= before.push(c.model()) + slice_up(a, i + st, e as int, st as int));
            }
            i = i + st;
        }
        proof {
            assert(slice_up(a, i as int, e as int, st as int) =~= Seq::<Json>::empty());
            assert(models(out@) + Seq::<Json>::empty() =~= models(out@));
        }
    } else {
        let s: i128 = match start { Some(v) => if v < 0 { if v as i128 + len > -1 { v as i128 + len } else { -1 } } else { if (v as i128) < len - 1 { v as i128 } else { len - 1 } }, None => len - 1 };
        let e: i128 = match stop { Some(v) => if v < 0 { if v as i128 + len > -1 { v as i128 + len } else { -1 } } else { if (v as i128) < len - 1 { v as i128 } else { len - 1 } }, None => -1 };
        let mut i: i128 = s;
        proof { lemma_models(out@); }
        while i > e
            invariant
                a == models(arr@),
                a.len() == arr@.len(),
                forall|j: int| 0 <= j < arr@.len() ==> #[trigger] a[j] == arr@[j].model(),
                len == arr@.len(),
                len <= usize::MAX,
                st == step,
                st < 0,
                -1 <= s < len,
                -1 <= e < len,
                models(out@) + slice_down(a, i as int, e as int, st as int) == slice_down(a, s as int, e as int, st as int),
                i <= s,
                i < len,
            decreases (if i > e { i - e } else { 0 }),
        {
            let ghost before = models(out@);
            let ghost before_v = out@;
            let idx: usize = i as usize;
            assert(idx as int == i as int);
            let c = arr[idx].copy();
            out.push(c);
            proof {
                assert(c.model() == a[i as int]);
                lemma_models(before_v);
                lemma_models(out@);
                assert(models(out@) =~= before.push(c.model()));
                assert(slice_down(a, i as int, e as int, st as int)
                    == seq![a[i as int]] + slice_down(a, i + st, e as int, st as int));
                assert(before + (seq![a[i as int]] + slice_down(a, i + st, e as int, st as int))
                    =~= before.push(c.model()) + slice_down(a, i + st, e as int, st as int));
            }
            i = i + st;
        }
        proof {
            assert(slice_down(a, i as int, e as int, st as int) =~= Seq::<Json>::empty());
            assert(models(out@) + Seq::<Json>::empty() =~= models(out@));
        }
    }
    out
}

/// The value at a field path where list segments may also be slices
/// (`start:stop:step`), which yield a new list.
pub open spec fn get_path_sliced(j: Json, parts: Seq<Seq<char>>) -> Option<Json>
    decreases parts.len(),
{
    if parts.len() == 0 {
        Some(j)
    } else {
        let rest = parts.subrange(1, parts.len() as int);
        match j {
            Json::Object(e) => match key_get(e, parts[0]) {
                Some(c) => get_path_sliced(c, rest),
                None => None,
            },
            Json::Array(a) => match step_of(parts[0]) {
                Some((false, _, _, idx)) => match normalize_index_spec(idx, a.len() as int) {
                    Some(i) => get_path_sliced(a[i], rest),
                    None => None,
                },
                Some((true, s, e, st)) => get_path_sliced(Json::Array(python_slice_spec(a, s, e, st)), rest),
                None => None,
            },
            _ => None,
        }
    }
}

/// An owned copy of the value at a field path; list slices are supported.
pub fn get_dotted_field_value_owned(event: &Value, parts: &[String]) -> (r: Option<Value>)
    ensures
        match r {
            Some(v) => get_path_sliced(event.model(), views(parts@)) == Some(v.model()),
            None => get_path_sliced(event.model(), views(parts@)) is None,
        },
{
    let ghost p = views(parts@);
    let mut current: Value = event.copy();
    let mut i: usize = 0;
    assert(p.subrange(0, p.len() as int) == p);
    while i < parts.len()
        invariant
            i <= parts@.len(),
            p == views(parts@),
            get_path_sliced(event.model(), p) == get_path_sliced(current.model(), p.subrange(i as int, p.len() as int)),
        decreases parts@.len() - i,
    {
        let ghost q = p.subrange(i as int, p.len() as int);
        assert(q.subrange(1, q.len() as int) == p.subrange(i + 1, p.len() as int));
        assert(q[0] == parts@[i as int]@);
        let next: Value = match &current {
            Value::Object(map) => {
                proof { lemma_entry_models(map@); lemma_key_index(entry_models(map@), parts@[i as int]@); }
                match find_entry(map, parts[i].as_str()) {
                    Some(k) => map[k].1.copy(),
                    None => return None,
                }
            },
            Value::Array(arr) => {
                proof { lemma_models(arr@); }
                match step_from_segment(parts[i].as_str()) {
                    Some(Step::Index(idx)) => match normalize_index(idx, arr.len()) {
                        Some(k) => arr[k].copy(),
                        None => return None,
                    },
                    Some(Step::Slice(s, e, st)) => {
                        let sl = python_slice(arr, s, e, st);
                        Value::Array(sl)
                    },
                    None => return None,
                }
            },
            _ => return None,
        };
        current = next;
        i = i + 1;
    }
    Some(current)
}

/// Each requested dotted field with its value, `None` where it is missing.
pub fn get_source_fields_dict<'a>(event: &'a Value, source_fields: &[String]) -> (r: Vec<(String, Option<&'a Value>)>)
    ensures
        r@.len() == source_fields@.len(),
        forall|i: int| 0 <= i < r@.len() ==> #[trigger] r@[i].0@ == source_fields@[i]@
            && opt_model(r@[i].1) == get_path(event.model(), dotted_split(source_fields@[i]@)),
{
    let mut out: Vec<(String, Option<&'a Value>)> = Vec::new();
    let mut i: usize = 0;
    while i < source_fields.len()
        invariant
            i <= source_fields@.len(),
            out@.len() == i,
            forall|j: int| 0 <= j < i ==> #[trigger] out@[j].0@ == source_fields@[j]@
                && opt_model(out@[j].1) == get_path(event.model(), dotted_split(source_fields@[j]@)),
        decreases source_fields@.len() - i,
    {
        let parts = get_dotted_field_list(source_fields[i].as_str());
        let v = get_dotted_field_value(event, parts.as_slice());
        out.push((source_fields[i].clone(), v));
        i = i + 1;
    }
    out
}

/// Removes the field at `parts` (the last key only ever from an object) and
/// returns the new value and what was removed. Parents are left in place.
pub open spec fn pop_exact_spec(j: Json, parts: Seq<Seq<char>>) -> (Json, Option<Json>)
    decreases parts.len(),
{
    if parts.len() == 0 {
        (j, None)
    } else if parts.len() == 1 {
        match j {
            Json::Object(e) => {
                let i = key_index(e, parts[0]);
                if i < 0 { (j, None) } else { (Json::Object(e.remove(i)), Some(e[i].1)) }
            },
            _ => (j, None),
        }
    } else {
        let rest = parts.subrange(1, parts.len() as int);
        match j {
            Json::Object(e) => {
                let i = key_index(e, parts[0]);
                if i < 0 {
                    (j, None)
                } else {
                    let (c, r) = pop_exact_spec(e[i].1, rest);
                    (Json::Object(e.update(i, (e[i].0, c))), r)
                }
            },
            Json::Array(a) => match isize_of(parts[0]) {
                Some(idx) => match normalize_index_spec(idx, a.len() as int) {
                    Some(i) => {
                        let (c, r) = pop_exact_spec(a[i], rest);
                        (Json::Array(a.update(i, c)), r)
                    },
                    None => (j, None),
                },
                None => (j, None),
            },
            _ => (j, None),
        }
    }
}

/// Removes the field at `parts` through objects only; afterwards every parent
/// object on the path that became empty is removed as well (also when the
/// field itself was missing).
pub open spec fn pop_drop_spec(j: Json, parts: Seq<Seq<char>>) -> (Json, Option<Json>)
    decreases parts.len(),
{
    if parts.len() == 0 {
        (j, None)
    } else {
        match j {
            Json::Object(e) => {
                let i = key_index(e, parts[0]);
                if i < 0 {
                    (j, None)
                } else if parts.len() == 1 {
                    (Json::Object(e.remove(i)), Some(e[i].1))
                } else {
                    let (c, r) = pop_drop_spec(e[i].1, parts.subrange(1, parts.len() as int));
                    if c == Json::Object(Seq::empty()) {
                        (Json::Object(e.remove(i)), r)
                    } else {
                        (Json::Object(e.update(i, (e[i].0, c))), r)
                    }
                }
            },
            _ => (j, None),
        }
    }
}

fn pop_exact(event: &mut Value, parts: &[String], k: usize) -> (r: Option<Value>)
    requires
        k < parts@.len(),
    ensures
        (final(event).model(), match r { Some(v) => Some(v.model()), None => None::<Json> })
            == pop_exact_spec(old(event).model(), views(parts@).subrange(k as int, parts@.len() as int)),
    decreases parts@.len() - k,
{
    let ghost p = views(parts@).subrange(k as int, parts@.len() as int);
    assert(p[0] == parts@[k as int]@);
    assert(p.subrange(1, p.len() as int) == views(parts@).subrange(k + 1, parts@.len() as int));
    let last = k == parts.len() - 1;
    match event {
        Value::Object(map) => {
            proof { lemma_entry_models(map@); lemma_key_index(entry_models(map@), parts@[k as int]@); }
            match find_entry(map, parts[k].as_str()) {
                Some(i) => {
                    if last {
                        proof { lemma_entry_models_remove(map@, i as int); }
                        let (_, v) = map.remove(i);
                        Some(v)
                    } else {
                        let ghost old_map = map@;
                        let r = pop_exact(&mut map[i].1, parts, k + 1);
                        proof {
                            assert(map@ == old_map.update(i as int, (old_map[i as int].0, map@[i as int].1)));
                            lemma_entry_models_update(old_map, i as int, (old_map[i as int].0, map@[i as int].1));
                        }
                        r
                    }
                },
                None => None,
            }
        },
        Value::Array(arr) => {
            if last {
                return None;
            }
            proof { lemma_models(arr@); }
            let pc = chars_of(parts[k].as_str());
            match parse_isize(pc.as_slice()) {
                Some(idx) => match normalize_index(idx, arr.len()) {
                    Some(i) => {
                        let ghost old_arr = arr@;
                        let r = pop_exact(&mut arr[i], parts, k + 1);
                        proof {
                            assert(arr@ == old_arr.update(i as int, arr@[i as int]));
                            lemma_models_update(old_arr, i as int, arr@[i as int]);
                        }
                        r
                    },
                    None => None,
                },
                None => None,
            }
        },
        _ => None,
    }
}

fn is_empty_object(v: &Value) -> (r: bool)
    ensures
        r == (v.model() == Json::Object(Seq::empty())),
{
    match v {
        Value::Object(m) => {
            proof { lemma_entry_models(m@); }
            if m.len() == 0 {
                assert(entry_models(m@) =~= Seq::<(Seq<char>, Json)>::empty());
                true
            } else {
                false
            }
        },
        _ => false,
    }
}

fn pop_and_drop_empty(event: &mut Value, parts: &[String], k: usize) -> (r: Option<Value>)
    requires
        k < parts@.len(),
    ensures
        (final(event).model(), match r { Some(v) => Some(v.model()), None => None::<Json> })
            == pop_drop_spec(old(event).model(), views(parts@).subrange(k as int, parts@.len() as int)),
    decreases parts@.len() - k,
{
    let ghost p = views(parts@).subrange(k as int, parts@.len() as int);
    assert(p[0] == parts@[k as int]@);
    assert(p.subrange(1, p.len() as int) == views(parts@).subrange(k + 1, parts@.len() as int));
    match event {
        Value::Object(map) => {
            proof { lemma_entry_models(map@); lemma_key_index(entry_models(map@), parts@[k as int]@); }
            match find_entry(map, parts[k].as_str()) {
                Some(i) => {
                    if k == parts.len() - 1 {
                        proof { lemma_entry_models_remove(map@, i as int); }
                        let (_, v) = map.remove(i);
                        Some(v)
                    } else {
                        let ghost old_map = map@;
                        let r = pop_and_drop_empty(&mut map[i].1, parts, k + 1);
                        proof {
                            assert(map@ == old_map.update(i as int, (old_map[i as int].0, map@[i as int].1)));
                            lemma_entry_models_update(old_map, i as int, (old_map[i as int].0, map@[i as int].1));
                        }
                        if is_empty_object(&map[i].1) {
                            let ghost mid = map@;
                            proof {
                                lemma_entry_models_remove(mid, i as int);
                                let em = entry_models(old_map);
                                assert(em.update(i as int, (em[i as int].0, map@[i as int].1.model())).remove(i as int)
                                    =~= em.remove(i as int));
                            }
                            map.remove(i);
                        }
                        r
                    }
                },
                None => None,
            }
        },
        _ => None,
    }
}

/// Removes and returns the value at the given path. With `drop_empty` the
/// path is followed through objects only and parent objects left empty are
/// removed too; without it the parents stay and list indices may occur on
/// the way to the last key.
pub fn pop_dotted_field_value(event: &mut Value, parts: &[String], drop_empty: bool) -> (r: Option<Value>)
    ensures
        (final(event).model(), match r { Some(v) => Some(v.model()), None => None::<Json> })
            == (if drop_empty { pop_drop_spec(old(event).model(), views(parts@)) }
                else { pop_exact_spec(old(event).model(), views(parts@)) }),
{
    if parts.len() == 0 {
        return None;
    }
    assert(views(parts@).subrange(0, parts@.len() as int) == views(parts@));
    if drop_empty {
        pop_and_drop_empty(event, parts, 0)
    } else {
        pop_exact(event, parts, 0)
    }
}

/// Object entries after setting `k` to `v`: the first entry with that key is
/// replaced in place, otherwise the entry is appended.
pub open spec fn obj_insert(e: Seq<(Seq<char>, Json)>, k: Seq<char>, v: Json) -> Seq<(Seq<char>, Json)> {
    let i = key_index(e, k);
    if i < 0 { e.push((k, v)) } else { e.update(i, (k, v)) }
}

/// Object entries after setting every entry of `c`, in order.
pub open spec fn obj_extend(e: Seq<(Seq<char>, Json)>, c: Seq<(Seq<char>, Json)>) -> Seq<(Seq<char>, Json)>
    decreases c.len(),
{
    if c.len() == 0 {
        e
    } else {
        obj_insert(obj_extend(e, c.drop_last()), c.last().0, c.last().1)
    }
}

/// Merging `content` into an existing non-null target: objects are updated,
/// lists are extended, a scalar beside a list becomes part of the list; two
/// scalars cannot be merged.
pub open spec fn merge_spec(existing: Json, content: Json) -> Option<Json> {
    match (existing, content) {
        (Json::Object(a), Json::Object(b)) => Some(Json::Object(obj_extend(a, b))),
        (Json::Array(a), Json::Array(b)) => Some(Json::Array(a + b)),
        (Json::Array(a), _) => Some(Json::Array(a.push(content))),
        (_, Json::Array(b)) => Some(Json::Array(seq![existing] + b)),
        _ => None,
    }
}

/// No two entries of an object share a key.
pub open spec fn distinct_keys(e: Seq<(Seq<char>, Json)>) -> bool {
    forall|i: int, j: int| 0 <= i < j < e.len() ==> e[i].0 != e[j].0
}

proof fn lemma_key_get_push(e: Seq<(Seq<char>, Json)>, x: (Seq<char>, Json), k: Seq<char>)
    ensures
        key_get(e.push(x), k) == if key_get(e, k) is Some { key_get(e, k) } else if x.0 == k { Some(x.1) } else { None },
{
    crate::value::lemma_key_index(e, k);
    let i = key_index(e, k);
    let f = e.push(x);
    if i >= 0 {
        crate::value::lemma_key_index_at(f, k, i);
    } else if x.0 == k {
        crate::value::lemma_key_index_at(f, k, e.len() as int);
    } else {
        crate::value::lemma_key_index_at(f, k, -1);
    }
}

/// Setting the entries of `b` on `a` leaves each key of `b` with `b`'s
/// value and each other key with `a`'s.
proof fn lemma_extend_key_get(a: Seq<(Seq<char>, Json)>, b: Seq<(Seq<char>, Json)>, k: Seq<char>)
    requires
        distinct_keys(b),
    ensures
        key_get(obj_extend(a, b), k) == if key_get(b, k) is Some { key_get(b, k) } else { key_get(a, k) },
    decreases b.len(),
{
    if b.len() == 0 {
        crate::value::lemma_key_index(b, k);
    } else {
        let t = b.drop_last();
        let x = b.last();
        assert(distinct_keys(t)) by {
            assert forall|i: int, j: int| 0 <= i < j < t.len() implies t[i].0 != t[j].0 by {
                assert(t[i] == b[i] && t[j] == b[j]);
            }
        }
        lemma_extend_key_get(a, t, k);
        assert(t.push(x) =~= b);
        lemma_key_get_push(t, x, k);
        if x.0 == k {
            lemma_key_get_insert(obj_extend(a, t), k, x.1);
            crate::value::lemma_key_index(t, k);
            if key_index(t, k) >= 0 {
                assert(b[key_index(t, k)] == t[key_index(t, k)]);
                assert(b[b.len() - 1] == x);
            }
        } else {
            lemma_key_get_insert_other(obj_extend(a, t), x.0, x.1, k);
        }
    }
}

/// Law: merging an object into an existing object succeeds, and every key
/// of the content then holds the content's value while every key only the
/// existing object has keeps its value.
pub proof fn lemma_merge_objects(a: Seq<(Seq<char>, Json)>, b: Seq<(Seq<char>, Json)>, k: Seq<char>)
    requires
        distinct_keys(b),
    ensures
        merge_spec(Json::Object(a), Json::Object(b)) matches Some(Json::Object(r))
            && (key_get(b, k) is Some ==> key_get(r, k) == key_get(b, k))
            && (key_get(b, k) is None ==> key_get(r, k) == key_get(a, k)),
{
    lemma_extend_key_get(a, b, k);
}

/// Law: merging into a list keeps the list's items first, then adds the
/// content's items (a list) or the content itself (anything else).
pub proof fn lemma_merge_into_list(a: Seq<Json>, content: Json)
    ensures
        merge_spec(Json::Array(a), content) matches Some(Json::Array(r))
            && r.subrange(0, a.len() as int) == a
            && (content matches Json::Array(b) ==> r.subrange(a.len() as int, r.len() as int) == b)
            && (!(content is Array) ==> r.len() == a.len() + 1 && r[a.len() as int] == content),
{
    match content {
        Json::Array(b) => {
            assert((a + b).subrange(0, a.len() as int) =~= a);
            assert((a + b).subrange(a.len() as int, (a + b).len() as int) =~= b);
        },
        _ => {
            assert(a.push(content).subrange(0, a.len() as int) =~= a);
        },
    }
}

/// Law: adding an object with merging (and without overwriting) to a field
/// that holds an object updates that object: the field then reads as an
/// object in which each key of the content holds the content's value and
/// each key only the old object has keeps its value.
pub proof fn lemma_add_merges_objects(
    e: Seq<(Seq<char>, Json)>,
    name: Seq<char>,
    a: Seq<(Seq<char>, Json)>,
    b: Seq<(Seq<char>, Json)>,
    k: Seq<char>,
)
    requires
        key_get(e, name) == Some(Json::Object(a)),
        distinct_keys(b),
    ensures
        add_field_spec(Json::Object(e), seq![name], Json::Object(b), true, false) matches Some(j2)
            && get_path(j2, seq![name]) matches Some(Json::Object(r))
            && (key_get(b, k) is Some ==> key_get(r, k) == key_get(b, k))
            && (key_get(b, k) is None ==> key_get(r, k) == key_get(a, k)),
{
    lemma_merge_objects(a, b, k);
    let r = obj_extend(a, b);
    lemma_key_get_insert(e, name, Json::Object(r));
    let j2 = Json::Object(obj_insert(e, name, Json::Object(r)));
    assert(add_field_spec(Json::Object(e), seq![name], Json::Object(b), true, false) == Some(j2));
    let path = seq![name];
    assert(path.subrange(1, 1) =~= Seq::<Seq<char>>::empty());
    assert(path[0] == name);
    assert(key_get(j2->Object_0, path[0]) == Some(Json::Object(r)));
    assert(get_path(Json::Object(r), path.subrange(1, path.len() as int)) == Some(Json::Object(r)));
    assert(get_path(j2, path) == Some(Json::Object(r)));
}

/// Writing `content` at `path` with `overwrite_target`: missing or non-object
/// parents are replaced by objects and the target is set. Fails only when the
/// event itself is not an object.
pub open spec fn add_overwrite_spec(j: Json, path: Seq<Seq<char>>, content: Json) -> Option<Json>
    decreases path.len(),
{
    match j {
        Json::Object(e) => {
            if path.len() == 0 {
                None
            } else if path.len() == 1 {
                Some(Json::Object(obj_insert(e, path[0], content)))
            } else {
                let child = match key_get(e, path[0]) {
                    Some(Json::Object(c)) => Json::Object(c),
                    _ => Json::Object(Seq::empty()),
                };
                match add_overwrite_spec(child, path.subrange(1, path.len() as int), content) {
                    Some(c) => Some(Json::Object(obj_insert(e, path[0], c))),
                    None => None,
                }
            }
        },
        _ => None,
    }
}

/// Writing `content` at `path` without `overwrite_target`: missing parents
/// are created; an existing non-object parent fails. A missing or `null`
/// target is set; any other target fails unless `merge` is set and
/// [`merge_spec`] can merge.
pub open spec fn add_keep_spec(j: Json, path: Seq<Seq<char>>, content: Json, merge: bool) -> Option<Json>
    decreases path.len(),
{
    match j {
        Json::Object(e) => {
            if path.len() == 0 {
                None
            } else if path.len() == 1 {
                match key_get(e, path[0]) {
                    None => Some(Json::Object(obj_insert(e, path[0], content))),
                    Some(Json::Null) => Some(Json::Object(obj_insert(e, path[0], content))),
                    Some(x) => if !merge {
                        None
                    } else {
                        match merge_spec(x, content) {
                            Some(m) => Some(Json::Object(obj_insert(e, path[0], m))),
                            None => None,
                        }
                    },
                }
            } else {
                let child = match key_get(e, path[0]) {
                    None => Some(Json::Object(Seq::empty())),
                    Some(Json::Object(c)) => Some(Json::Object(c)),
                    Some(_) => None,
                };
                match child {
                    Some(ch) => match add_keep_spec(ch, path.subrange(1, path.len() as int), content, merge) {
                        Some(c) => Some(Json::Object(obj_insert(e, path[0], c))),
                        None => None,
                    },
                    None => None,
                }
            }
        },
        _ => None,
    }
}

/// The event after writing one field, or `None` when the field cannot be written.
pub open spec fn add_field_spec(j: Json, path: Seq<Seq<char>>, content: Json, merge: bool, overwrite: bool) -> Option<Json> {
    if overwrite { add_overwrite_spec(j, path, content) } else { add_keep_spec(j, path, content, merge) }
}

pub proof fn lemma_add_keep_into_empty(path: Seq<Seq<char>>, content: Json, merge: bool)
    requires
        path.len() >= 1,
    ensures
        add_keep_spec(Json::Object(Seq::empty()), path, content, merge) is Some,
    decreases path.len(),
{
    let e = Seq::<(Seq<char>, Json)>::empty();
    lemma_key_index(e, path[0]);
    if path.len() > 1 {
        lemma_add_keep_into_empty(path.subrange(1, path.len() as int), content, merge);
    }
}

/// Error raised when a field cannot be written because a sub- or target field
/// exists and cannot be extended.
pub struct FieldExistsError {
    /// Dotted names of the fields that could not be written, in order.
    pub skipped_fields: Vec<String>,
}

/// Sets `key` to `v` in an object's entries.
pub fn obj_set(map: &mut Vec<(String, Value)>, key: &String, v: Value)
    ensures
        entry_models(final(map)@) == obj_insert(entry_models(old(map)@), key@, v.model()),
{
    proof { lemma_entry_models(map@); lemma_key_index(entry_models(map@), key@); }
    match find_entry(map, key.as_str()) {
        Some(i) => {
            let ghost old_map = map@;
            let k2 = key.clone();
            map.set(i, (k2, v));
            proof { lemma_entry_models_update(old_map, i as int, (k2, v)); }
        },
        None => {
            let k2 = key.clone();
            proof { lemma_entry_models_push(map@, (k2, v)); }
            map.push((k2, v));
        },
    }
}

fn copy_entries(e: &Vec<(String, Value)>) -> (r: Vec<(String, Value)>)
    ensures
        entry_models(r@) == entry_models(e@),
{
    proof { lemma_entry_models(e@); }
    let mut out: Vec<(String, Value)> = Vec::new();
    let mut i: usize = 0;
    while i < e.len()
        invariant
            i <= e@.len(),
            entry_models(out@) == entry_models(e@).subrange(0, i as int),
            entry_models(e@).len() == e@.len(),
            forall|j: int| 0 <= j < e@.len() ==> #[trigger] entry_models(e@)[j] == (e@[j].0@, e@[j].1.model()),
        decreases e@.len() - i,
    {
        let k = e[i].0.clone();
        let v = e[i].1.copy();
        proof { lemma_entry_models_push(out@, (k, v)); }
        out.push((k, v));
        i = i + 1;
        assert(entry_models(e@).subrange(0, i as int) =~= entry_models(e@).subrange(0, i - 1).push(entry_models(e@)[i - 1]));
    }
    assert(entry_models(e@).subrange(0, e@.len() as int) =~= entry_models(e@));
    out
}

fn copy_items(a: &Vec<Value>) -> (r: Vec<Value>)
    ensures
        models(r@) == models(a@),
{
    proof { lemma_models(a@); }
    let mut out: Vec<Value> = Vec::new();
    let mut i: usize = 0;
    while i < a.len()
        invariant
            i <= a@.len(),
            models(out@) == models(a@).subrange(0, i as int),
            models(a@).len() == a@.len(),
            forall|j: int| 0 <= j < a@.len() ==> #[trigger] models(a@)[j] == a@[j].model(),
        decreases a@.len() - i,
    {
        let v = a[i].copy();
        proof { lemma_models_push(out@, v); }
        out.push(v);
        i = i + 1;
        assert(models(a@).subrange(0, i as int) =~= models(a@).subrange(0, i - 1).push(models(a@)[i - 1]));
    }
    assert(models(a@).subrange(0, a@.len() as int) =~= models(a@));
    out
}

/// The merge of `content` into `existing` (see [`merge_spec`]).
fn merged(existing: &Value, content: &Value) -> (r: Option<Value>)
    ensures
        match r {
            Some(v) => merge_spec(existing.model(), content.model()) == Some(v.model()),
            None => merge_spec(existing.model(), content.model()) is None,
        },
{
    match (existing, content) {
        (Value::Object(a), Value::Object(b)) => {
            let mut out = copy_entries(a);
            proof { lemma_entry_models(b@); }
            let mut i: usize = 0;
            while i < b.len()
                invariant
                    i <= b@.len(),
                    entry_models(out@) == obj_extend(entry_models(a@), entry_models(b@).subrange(0, i as int)),
                    entry_models(b@).len() == b@.len(),
                    forall|j: int| 0 <= j < b@.len() ==> #[trigger] entry_models(b@)[j] == (b@[j].0@, b@[j].1.model()),
                decreases b@.len() - i,
            {
                let v = b[i].1.copy();
                obj_set(&mut out, &b[i].0, v);
                let ghost bm = entry_models(b@);
                assert(bm.subrange(0, i + 1).drop_last() =~= bm.subrange(0, i as int));
                i = i + 1;
            }
            assert(entry_models(b@).subrange(0, b@.len() as int) =~= entry_models(b@));
            Some(Value::Object(out))
        },
        (Value::Array(a), Value::Array(b)) => {
            let mut out = copy_items(a);
            proof { lemma_models(b@); }
            let mut i: usize = 0;
            while i < b.len()
                invariant
                    i <= b@.len(),
                    models(out@) == models(a@) + models(b@).subrange(0, i as int),
                    models(b@).len() == b@.len(),
                    forall|j: int| 0 <= j < b@.len() ==> #[trigger] models(b@)[j] == b@[j].model(),
                decreases b@.len() - i,
            {
                let v = b[i].copy();
                proof { lemma_models_push(out@, v); }
                out.push(v);
                i = i + 1;
                assert(models(a@) + models(b@).subrange(0, i as int) =~= (models(a@) + models(b@).subrange(0, i - 1)).push(models(b@)[i - 1]));
            }
            assert(models(b@).subrange(0, b@.len() as int) =~= models(b@));
            Some(Value::Array(out))
        },
        (Value::Array(a), _) => {
            let mut out = copy_items(a);
            let v = content.copy();
            proof { lemma_models_push(out@, v); }
            out.push(v);
            Some(Value::Array(out))
        },
        (_, Value::Array(b)) => {
            let mut out: Vec<Value> = Vec::new();
            let first = existing.copy();
            proof { lemma_models_push(out@, first); lemma_models(out@); }
            out.push(first);
            proof { lemma_models(b@); }
            let mut i: usize = 0;
            while i < b.len()
                invariant
                    i <= b@.len(),
                    models(out@) == seq![existing.model()] + models(b@).subrange(0, i as int),
                    models(b@).len() == b@.len(),
                    forall|j: int| 0 <= j < b@.len() ==> #[trigger] models(b@)[j] == b@[j].model(),
                decreases b@.len() - i,
            {
                let v = b[i].copy();
                proof { lemma_models_push(out@, v); }
                out.push(v);
                i = i + 1;
                assert(seq![existing.model()] + models(b@).subrange(0, i as int) =~= (seq![existing.model()] + models(b@).subrange(0, i - 1)).push(models(b@)[i - 1]));
            }
            assert(models(b@).subrange(0, b@.len() as int) =~= models(b@));
            Some(Value::Array(out))
        },
        _ => None,
    }
}

pub proof fn lemma_add_overwrite_object(e: Seq<(Seq<char>, Json)>, path: Seq<Seq<char>>, content: Json)
    requires
        path.len() >= 1,
    ensures
        add_overwrite_spec(Json::Object(e), path, content) is Some,
    decreases path.len(),
{
    if path.len() > 1 {
        let child = match key_get(e, path[0]) {
            Some(Json::Object(c)) => c,
            _ => Seq::empty(),
        };
        lemma_add_overwrite_object(child, path.subrange(1, path.len() as int), content);
    }
}

/// Makes sure `map` has an object under `key`, creating or replacing the
/// entry when needed, and returns its position.
fn ensure_object_entry(map: &mut Vec<(String, Value)>, key: &String, replace: bool) -> (r: Option<usize>)
    ensures
        ({
            let em0 = entry_models(old(map)@);
            let i = key_index(em0, key@);
            match r {
                Some(idx) => {
                    &&& idx < final(map)@.len()
                    &&& (i >= 0 ==> idx == i)
                    &&& (i < 0 ==> idx == em0.len())
                    &&& (!replace && i >= 0 ==> em0[i].1 is Object)
                    &&& (match key_get(em0, key@) {
                        Some(Json::Object(c)) => entry_models(final(map)@) == em0
                            && final(map)@[idx as int].1.model() == Json::Object(c),
                        _ => entry_models(final(map)@) == obj_insert(em0, key@, Json::Object(Seq::empty()))
                            && final(map)@[idx as int].1.model() == Json::Object(Seq::empty()),
                    })
                },
                None => !replace && (match key_get(em0, key@) {
                    Some(Json::Object(_)) => false,
                    Some(_) => true,
                    None => false,
                }) && final(map)@ == old(map)@,
            }
        }),
        r is None ==> !replace,
{
    proof { lemma_entry_models(map@); lemma_key_index(entry_models(map@), key@); }
    let ghost em0 = entry_models(map@);
    match find_entry(map, key.as_str()) {
        Some(i) => {
            if matches!(map[i].1, Value::Object(_)) {
                assert(em0[i as int].1 is Object);
                return Some(i);
            }
            if !replace {
                return None;
            }
            let ghost old_map = map@;
            let fresh = Value::Object(Vec::new());
            let k2 = key.clone();
            proof {
                lemma_entry_models_update(old_map, i as int, (k2, fresh));
                assert(entry_models(Seq::<(String, Value)>::empty()) =~= Seq::<(Seq<char>, Json)>::empty());
            }
            map.set(i, (k2, fresh));
            Some(i)
        },
        None => {
            let k2 = key.clone();
            let fresh = Value::Object(Vec::new());
            proof {
                lemma_entry_models_push(map@, (k2, fresh));
                assert(entry_models(Seq::<(String, Value)>::empty()) =~= Seq::<(Seq<char>, Json)>::empty());
            }
            map.push((k2, fresh));
            Some(map.len() - 1)
        },
    }
}

fn add_overwrite_rec(event: &mut Value, parts: &[String], k: usize, content: &Value) -> (r: bool)
    requires
        k < parts@.len(),
    ensures
        match add_overwrite_spec(old(event).model(), views(parts@).subrange(k as int, parts@.len() as int), content.model()) {
            Some(j) => r && final(event).model() == j,
            None => !r && final(event).model() == old(event).model(),
        },
    decreases parts@.len() - k,
{
    let ghost p = views(parts@).subrange(k as int, parts@.len() as int);
    assert(p[0] == parts@[k as int]@);
    assert(p.subrange(1, p.len() as int) == views(parts@).subrange(k + 1, parts@.len() as int));
    match event {
        Value::Object(map) => {
            let ghost em0 = entry_models(map@);
            if k == parts.len() - 1 {
                obj_set(map, &parts[k], content.copy());
                return true;
            }
            let idx = match ensure_object_entry(map, &parts[k], true) {
                Some(i) => i,
                None => return false,
            };
            let ghost mid = map@;
            proof {
                lemma_entry_models(mid);
                lemma_key_index(em0, parts@[k as int]@);
                lemma_add_overwrite_object(
                    match mid[idx as int].1.model() { Json::Object(c) => c, _ => Seq::empty() },
                    p.subrange(1, p.len() as int), content.model());
            }
            let ok = add_overwrite_rec(&mut map[idx].1, parts, k + 1, content);
            proof {
                assert(map@ == mid.update(idx as int, (mid[idx as int].0, map@[idx as int].1)));
                lemma_entry_models_update(mid, idx as int, (mid[idx as int].0, map@[idx as int].1));
                let key = parts@[k as int]@;
                let i = key_index(em0, key);
                let c = map@[idx as int].1.model();
                let em_mid = entry_models(mid);
                assert(em_mid[idx as int] == (mid[idx as int].0@, mid[idx as int].1.model()));
                if i >= 0 {
                    assert(em_mid[idx as int].0 == key);
                    assert(entry_models(map@) =~= em0.update(i, (key, c)));
                } else {
                    assert(em_mid == em0.push((key, Json::Object(Seq::empty()))));
                    assert(em_mid[idx as int].0 == key);
                    assert(entry_models(map@) =~= em0.push((key, c)));
                }
            }
            ok
        },
        _ => false,
    }
}

fn add_keep_rec(event: &mut Value, parts: &[String], k: usize, content: &Value, merge: bool) -> (r: bool)
    requires
        k < parts@.len(),
    ensures
        match add_keep_spec(old(event).model(), views(parts@).subrange(k as int, parts@.len() as int), content.model(), merge) {
            Some(j) => r && final(event).model() == j,
            None => !r && final(event).model() == old(event).model(),
        },
    decreases parts@.len() - k,
{
    let ghost p = views(parts@).subrange(k as int, parts@.len() as int);
    assert(p[0] == parts@[k as int]@);
    assert(p.subrange(1, p.len() as int) == views(parts@).subrange(k + 1, parts@.len() as int));
    match event {
        Value::Object(map) => {
            proof { lemma_entry_models(map@); lemma_key_index(entry_models(map@), parts@[k as int]@); }
            let ghost em0 = entry_models(map@);
            if k == parts.len() - 1 {
                match find_entry(map, parts[k].as_str()) {
                    None => {
                        obj_set(map, &parts[k], content.copy());
                        true
                    },
                    Some(i) => {
                        if matches!(map[i].1, Value::Null) {
                            obj_set(map, &parts[k], content.copy());
                            true
                        } else if !merge {
                            false
                        } else {
                            match merged(&map[i].1, content) {
                                Some(m) => {
                                    obj_set(map, &parts[k], m);
                                    true
                                },
                                None => false,
                            }
                        }
                    },
                }
            } else {
                let idx = match ensure_object_entry(map, &parts[k], false) {
                    Some(i) => i,
                    None => return false,
                };
                let ghost mid = map@;
                proof {
                    lemma_entry_models(mid);
                    lemma_key_index(em0, parts@[k as int]@);
                    if key_index(em0, parts@[k as int]@) < 0 {
                        lemma_add_keep_into_empty(p.subrange(1, p.len() as int), content.model(), merge);
                    }
                }
                let ok = add_keep_rec(&mut map[idx].1, parts, k + 1, content, merge);
                proof {
                    assert(map@ == mid.update(idx as int, (mid[idx as int].0, map@[idx as int].1)));
                    lemma_entry_models_update(mid, idx as int, (mid[idx as int].0, map@[idx as int].1));
                    let key = parts@[k as int]@;
                    let i = key_index(em0, key);
                    let c = map@[idx as int].1.model();
                    let em_mid = entry_models(mid);
                    assert(em_mid[idx as int] == (mid[idx as int].0@, mid[idx as int].1.model()));
                    if i >= 0 {
                        assert(em_mid == em0);
                        assert(em_mid[idx as int].0 == key);
                        assert(entry_models(map@) =~= em0.update(i, (key, c)));
                        if !ok {
                            assert(c == mid[idx as int].1.model());
                            assert(em0[i] == (key, c));
                            assert(entry_models(map@) =~= em0);
                        }
                    } else {
                        assert(em_mid == em0.push((key, Json::Object(Seq::empty()))));
                        assert(em_mid[idx as int].0 == key);
                        assert(entry_models(map@) =~= em0.push((key, c)));
                    }
                }
                ok
            }
        },
        _ => false,
    }
}

fn field_exists_error(parts: &[String]) -> (r: FieldExistsError)
    ensures
        views(r.skipped_fields@) == seq![dotted_name(views(parts@))],
{
    let mut v: Vec<String> = Vec::new();
    v.push(field_list_to_dotted_field(parts));
    assert(views(v@) =~= seq![dotted_name(views(parts@))]);
    FieldExistsError { skipped_fields: v }
}

/// Adds a single field to the event. With `overwrite_target` parents and the
/// target are replaced; otherwise an existing target is kept unless it is
/// `null` or `merge_with_target` allows merging. On failure the event is
/// unchanged and the error names the field.
pub fn add_field_to(
    event: &mut Value,
    field_name: &[String],
    content: &Value,
    merge_with_target: bool,
    overwrite_target: bool,
) -> (r: Result<(), FieldExistsError>)
    ensures
        match add_field_spec(old(event).model(), views(field_name@), content.model(), merge_with_target, overwrite_target) {
            Some(j) => r is Ok && final(event).model() == j,
            None => r is Err && final(event).model() == old(event).model(),
        },
        r matches Err(e) ==> views(e.skipped_fields@) == seq![dotted_name(views(field_name@))],
{
    if field_name.len() == 0 {
        return Err(field_exists_error(field_name));
    }
    assert(views(field_name@).subrange(0, field_name@.len() as int) == views(field_name@));
    let ok = if overwrite_target {
        add_overwrite_rec(event, field_name, 0, content)
    } else {
        add_keep_rec(event, field_name, 0, content, merge_with_target)
    };
    if ok {
        Ok(())
    } else {
        Err(field_exists_error(field_name))
    }
}

/// Like [`add_field_to`], but a failure only reports the skipped field.
pub fn add_field_to_silent_fail(
    event: &mut Value,
    field_name: &[String],
    content: &Value,
    merge_with_target: bool,
    overwrite_target: bool,
) -> (r: Option<String>)
    ensures
        match add_field_spec(old(event).model(), views(field_name@), content.model(), merge_with_target, overwrite_target) {
            Some(j) => r is None && final(event).model() == j,
            None => r matches Some(s) && s@ == dotted_name(views(field_name@)) && final(event).model() == old(event).model(),
        },
{
    let res = add_field_to(event, field_name, content, merge_with_target, overwrite_target);
    match res {
        Ok(()) => None,
        Err(err) => {
            assert(views(err.skipped_fields@) == seq![dotted_name(views(field_name@))]);
            assert(views(err.skipped_fields@).len() == err.skipped_fields@.len());
            assert(views(err.skipped_fields@)[0] == err.skipped_fields@[0]@);
            Some(err.skipped_fields[0].clone())
        },
    }
}

/// The fields that are written: all of them, or without the `null` ones.
pub open spec fn kept_fields(fields: Seq<(Seq<char>, Json)>, skip_none: bool) -> Seq<(Seq<char>, Json)>
    decreases fields.len(),
{
    if fields.len() == 0 {
        Seq::empty()
    } else {
        let rest = kept_fields(fields.drop_last(), skip_none);
        if skip_none && fields.last().1 == Json::Null { rest } else { rest.push(fields.last()) }
    }
}

/// Writing fields one after the other: the event afterwards and the dotted
/// names of the fields that could not be written, in order.
pub open spec fn add_each(
    j: Json,
    fields: Seq<(Seq<char>, Json)>,
    merge: bool,
    overwrite: bool,
) -> (Json, Seq<Seq<char>>)
    decreases fields.len(),
{
    if fields.len() == 0 {
        (j, Seq::empty())
    } else {
        let (j1, skipped) = add_each(j, fields.drop_last(), merge, overwrite);
        let path = dotted_split(fields.last().0);
        match add_field_spec(j1, path, fields.last().1, merge, overwrite) {
            Some(j2) => (j2, skipped),
            None => (j1, skipped.push(dotted_name(path))),
        }
    }
}

/// Adds several fields given by dotted names, in order. With `skip_none`
/// the `null` values are left out. Every field that can be written is
/// written; the error lists those that could not be.
pub fn add_fields_to(
    event: &mut Value,
    fields: &[(String, Value)],
    merge_with_target: bool,
    overwrite_target: bool,
    skip_none: bool,
) -> (r: Result<(), FieldExistsError>)
    ensures
        final(event).model() == add_each(old(event).model(), kept_fields(entry_models(fields@), skip_none),
            merge_with_target, overwrite_target).0,
        r is Ok <==> add_each(old(event).model(), kept_fields(entry_models(fields@), skip_none),
            merge_with_target, overwrite_target).1.len() == 0,
        r matches Err(e) ==> views(e.skipped_fields@) == add_each(old(event).model(),
            kept_fields(entry_models(fields@), skip_none), merge_with_target, overwrite_target).1,
{
    let ghost fm = entry_models(fields@);
    let ghost start = event.model();
    proof { lemma_entry_models(fields@); }
    let mut unsuccessful: Vec<String> = Vec::new();
    let mut i: usize = 0;
    assert(fm.subrange(0, 0) =~= Seq::<(Seq<char>, Json)>::empty());
    while i < fields.len()
        invariant
            i <= fields@.len(),
            fm == entry_models(fields@),
            fm.len() == fields@.len(),
            forall|k: int| 0 <= k < fields@.len() ==> #[trigger] fm[k] == (fields@[k].0@, fields@[k].1.model()),
            event.model() == add_each(start, kept_fields(fm.subrange(0, i as int), skip_none), merge_with_target, overwrite_target).0,
            views(unsuccessful@) == add_each(start, kept_fields(fm.subrange(0, i as int), skip_none), merge_with_target, overwrite_target).1,
        decreases fields@.len() - i,
    {
        let ghost pre = fm.subrange(0, i + 1);
        assert(pre.drop_last() =~= fm.subrange(0, i as int));
        assert(pre.last() == fm[i as int]);
        let skip = skip_none && matches!(fields[i].1, Value::Null);
        assert(skip == (skip_none && fm[i as int].1 == Json::Null));
        if !skip {
            let ghost ks = kept_fields(fm.subrange(0, i as int), skip_none);
            assert(kept_fields(pre, skip_none) == ks.push(fm[i as int]));
            assert(ks.push(fm[i as int]).drop_last() =~= ks);
            let parts = get_dotted_field_list(fields[i].0.as_str());
            let ghost before = unsuccessful@;
            match add_field_to_silent_fail(event, parts.as_slice(), &fields[i].1, merge_with_target, overwrite_target) {
                Some(name) => {
                    unsuccessful.push(name);
                    assert(views(unsuccessful@) =~= views(before).push(name@));
                },
                None => {},
            }
        }
        i = i + 1;
    }
    assert(fm.subrange(0, fields@.len() as int) =~= fm);
    if unsuccessful.len() > 0 {
        Err(FieldExistsError { skipped_fields: unsuccessful })
    } else {
        Ok(())
    }
}

/// Adds fields, merging each with an existing target ([`add_fields_to`]
/// with `merge_with_target` and `skip_none`).
pub fn append_as_list(event: &mut Value, fields: &[(String, Value)]) -> (r: Result<(), FieldExistsError>)
    ensures
        final(event).model() == add_each(old(event).model(), kept_fields(entry_models(fields@), true), true, false).0,
        r is Ok <==> add_each(old(event).model(), kept_fields(entry_models(fields@), true), true, false).1.len() == 0,
        r matches Err(e) ==> views(e.skipped_fields@)
            == add_each(old(event).model(), kept_fields(entry_models(fields@), true), true, false).1,
{
    add_fields_to(event, fields, true, false, true)
}

/// Writes one field, replacing whatever is in the way.
pub fn add_and_overwrite(event: &mut Value, field_name: &[String], content: &Value) -> (r: Result<(), FieldExistsError>)
    ensures
        match add_overwrite_spec(old(event).model(), views(field_name@), content.model()) {
            Some(j) => r is Ok && final(event).model() == j,
            None => r is Err && final(event).model() == old(event).model(),
        },
        r matches Err(e) ==> views(e.skipped_fields@) == seq![dotted_name(views(field_name@))],
{
    add_field_to(event, field_name, content, false, true)
}

/// The string `append` writes over a target that is not a list: the
/// target's Python text (nothing if it is missing), the separator, then the
/// content's Python text.
pub open spec fn appended_text(target: Option<Json>, separator: Seq<char>, content: Json) -> Seq<char> {
    let prefix = match target {
        Some(v) => python_text(v),
        None => Seq::empty(),
    };
    prefix + separator + python_text(content)
}

/// Appends `content` to a field: added to a list target (as
/// [`append_as_list`] does), otherwise joined to the target's text with
/// `separator`, the result overwriting the target.
pub fn append(event: &mut Value, target_field: &[String], separator: &str, content: &Value) -> (r: Result<(), FieldExistsError>)
    ensures
        match get_path(old(event).model(), views(target_field@)) {
            Some(Json::Array(_)) => {
                let fs = kept_fields(seq![(dotted_name(views(target_field@)), content.model())], true);
                let res = add_each(old(event).model(), fs, true, false);
                &&& final(event).model() == res.0
                &&& (r is Ok <==> res.1.len() == 0)
                &&& (r matches Err(e) ==> views(e.skipped_fields@) == res.1)
            },
            t => {
                let merged = Json::Str(appended_text(t, separator@, content.model()));
                &&& match add_overwrite_spec(old(event).model(), views(target_field@), merged) {
                    Some(j) => r is Ok && final(event).model() == j,
                    None => r is Err && final(event).model() == old(event).model(),
                }
                &&& (r matches Err(e) ==> views(e.skipped_fields@) == seq![dotted_name(views(target_field@))])
            },
        },
{
    let dotted = field_list_to_dotted_field(target_field);
    let is_list = match get_at(event, target_field) {
        Some(Value::Array(_)) => true,
        _ => false,
    };
    if is_list {
        let mut fields: Vec<(String, Value)> = Vec::new();
        fields.push((dotted, content.copy()));
        proof {
            lemma_entry_models(fields@);
            assert(entry_models(fields@) =~= seq![(dotted_name(views(target_field@)), content.model())]);
        }
        append_as_list(event, fields.as_slice())
    } else {
        let mut text: Vec<char> = Vec::new();
        match get_at(event, target_field) {
            Some(v) => {
                let p = value_to_python_str(v);
                push_all(&mut text, chars_of(p.as_str()).as_slice());
            },
            None => {},
        }
        push_all(&mut text, chars_of(separator).as_slice());
        let c = value_to_python_str(content);
        push_all(&mut text, chars_of(c.as_str()).as_slice());
        let merged = Value::Str(string_of(text.as_slice()));
        assert(merged.model() == Json::Str(appended_text(get_path(event.model(), views(target_field@)), separator@, content.model())));
        add_and_overwrite(event, target_field, &merged)
    }
}

/// After setting `k`, looking `k` up gives the value set.
pub proof fn lemma_key_get_insert(e: Seq<(Seq<char>, Json)>, k: Seq<char>, v: Json)
    ensures
        key_get(obj_insert(e, k, v), k) == Some(v),
{
    lemma_key_index(e, k);
    let i = key_index(e, k);
    if i < 0 {
        crate::value::lemma_key_index_at(e.push((k, v)), k, e.len() as int);
    } else {
        crate::value::lemma_key_index_at(e.update(i, (k, v)), k, i);
    }
}

/// Writing a field with `overwrite_target` into an object event always
/// succeeds, and reading the field back gives what was written.
pub proof fn lemma_overwrite_then_read(j: Json, path: Seq<Seq<char>>, content: Json)
    requires
        j is Object,
        path.len() >= 1,
    ensures
        add_overwrite_spec(j, path, content) matches Some(j2) && get_path(j2, path) == Some(content),
    decreases path.len(),
{
    let e = j->Object_0;
    let rest = path.subrange(1, path.len() as int);
    if path.len() == 1 {
        lemma_key_get_insert(e, path[0], content);
        let j2 = Json::Object(obj_insert(e, path[0], content));
        assert(get_path(content, rest) == Some(content));
        assert(get_path(j2, path) == get_path(content, rest));
    } else {
        let child = match key_get(e, path[0]) {
            Some(Json::Object(c)) => Json::Object(c),
            _ => Json::Object(Seq::empty()),
        };
        lemma_overwrite_then_read(child, rest, content);
        let c2 = add_overwrite_spec(child, rest, content)->Some_0;
        lemma_key_get_insert(e, path[0], c2);
        let j2 = Json::Object(obj_insert(e, path[0], c2));
        assert(add_overwrite_spec(j, path, content) == Some(j2));
        assert(get_path(j2, path) == get_path(c2, rest));
    }
}

/// Writing a field without `overwrite_target` where it is missing or
/// `null`: when the write succeeds, reading the field back gives what was
/// written.
pub proof fn lemma_add_then_read(j: Json, path: Seq<Seq<char>>, content: Json, merge: bool)
    requires
        add_keep_spec(j, path, content, merge) is Some,
        get_path(j, path) matches Some(v) ==> v == Json::Null,
    ensures
        get_path(add_keep_spec(j, path, content, merge)->Some_0, path) == Some(content),
    decreases path.len(),
{
    let e = j->Object_0;
    let rest = path.subrange(1, path.len() as int);
    if path.len() == 1 {
        lemma_key_get_insert(e, path[0], content);
        let j2 = add_keep_spec(j, path, content, merge)->Some_0;
        assert(j2 == Json::Object(obj_insert(e, path[0], content)));
        assert(get_path(content, rest) == Some(content));
        assert(get_path(j2, path) == get_path(content, rest));
    } else {
        let child = match key_get(e, path[0]) {
            None => Json::Object(Seq::empty()),
            Some(c) => c,
        };
        if key_get(e, path[0]) is None {
            assert(get_path(child, rest) is None) by {
                if rest.len() > 0 {
                    lemma_key_index(Seq::<(Seq<char>, Json)>::empty(), rest[0]);
                }
            }
        }
        lemma_add_then_read(child, rest, content, merge);
        let c2 = add_keep_spec(child, rest, content, merge)->Some_0;
        lemma_key_get_insert(e, path[0], c2);
        let j2 = Json::Object(obj_insert(e, path[0], c2));
        assert(add_keep_spec(j, path, content, merge) == Some(j2));
        assert(get_path(j2, path) == get_path(c2, rest));
    }
}

proof fn lemma_escape_dots_cons(c: char, f: Seq<char>)
    ensures
        escape_dots(seq![c] + f) == (if c == '.' { seq!['\\', '.'] } else { seq![c] }) + escape_dots(f),
    decreases f.len(),
{
    let e = if c == '.' { seq!['\\', '.'] } else { seq![c] };
    if f.len() == 0 {
        assert((seq![c] + f).drop_last() =~= Seq::<char>::empty());
        assert((seq![c] + f).last() == c);
        assert(escape_dots(Seq::<char>::empty()) =~= Seq::<char>::empty());
        assert(escape_dots(seq![c] + f) =~= Seq::<char>::empty() + e);
        assert(e + escape_dots(f) =~= e);
    } else {
        lemma_escape_dots_cons(c, f.drop_last());
        assert((seq![c] + f).drop_last() =~= seq![c] + f.drop_last());
        assert((seq![c] + f).last() == f.last());
        let tail = if f.last() == '.' { seq!['\\', '.'] } else { seq![f.last()] };
        assert(escape_dots(seq![c] + f) =~= e + escape_dots(f.drop_last()) + tail);
    }
}

proof fn lemma_split_escaped(f: Seq<char>, rest: Seq<char>, cur: Seq<char>, done: Seq<Seq<char>>)
    requires
        !f.contains('\\'),
    ensures
        dotted_split_from(escape_dots(f) + rest, cur, done) == dotted_split_from(rest, cur + f, done),
    decreases f.len(),
{
    if f.len() == 0 {
        assert(escape_dots(f) + rest =~= rest);
        assert(cur + f =~= cur);
    } else {
        let c = f[0];
        let g = f.subrange(1, f.len() as int);
        assert(f =~= seq![c] + g);
        lemma_escape_dots_cons(c, g);
        assert(!g.contains('\\')) by {
            if g.contains('\\') {
                let k = choose|k: int| 0 <= k < g.len() && g[k] == '\\';
                assert(f[k + 1] == '\\');
            }
        }
        assert(c != '\\') by {
            assert(f[0] == c);
        }
        lemma_split_escaped(g, rest, if c == '.' { cur.push('.') } else { cur.push(c) }, done);
        let s = escape_dots(f) + rest;
        if c == '.' {
            assert(s =~= seq!['\\', '.'] + (escape_dots(g) + rest));
            assert(s.subrange(2, s.len() as int) =~= escape_dots(g) + rest);
        } else {
            assert(s =~= seq![c] + (escape_dots(g) + rest));
            assert(s.subrange(1, s.len() as int) =~= escape_dots(g) + rest);
        }
        assert(cur.push(c) + g =~= cur + f);
    }
}

proof fn lemma_split_name(ps: Seq<Seq<char>>, tail: Seq<char>, done: Seq<Seq<char>>)
    requires
        ps.len() >= 1,
        forall|i: int| 0 <= i < ps.len() ==> !(#[trigger] ps[i]).contains('\\'),
    ensures
        dotted_split_from(dotted_name(ps) + tail, Seq::empty(), done)
            == dotted_split_from(tail, ps.last(), done + ps.drop_last()),
    decreases ps.len(),
{
    if ps.len() == 1 {
        assert(escaped_all(ps) =~= seq![escape_dots(ps[0])]);
        assert(dotted_name(ps) == escape_dots(ps[0]));
        lemma_split_escaped(ps[0], tail, Seq::empty(), done);
        assert(Seq::<char>::empty() + ps[0] =~= ps[0]);
        assert(done + ps.drop_last() =~= done);
    } else {
        let q = ps.drop_last();
        assert(escaped_all(ps).drop_last() =~= escaped_all(q));
        assert(dotted_name(ps) == dotted_name(q) + seq!['.'] + escape_dots(ps.last()));
        let t2 = seq!['.'] + escape_dots(ps.last()) + tail;
        assert(dotted_name(ps) + tail =~= dotted_name(q) + t2);
        lemma_split_name(q, t2, done);
        assert(t2.subrange(1, t2.len() as int) =~= escape_dots(ps.last()) + tail);
        lemma_split_escaped(ps.last(), tail, Seq::empty(), (done + q.drop_last()).push(q.last()));
        assert(Seq::<char>::empty() + ps.last() =~= ps.last());
        assert((done + q.drop_last()).push(q.last()) =~= done + q);
    }
}

/// Joining field names into a dotted name and splitting it again gives the
/// names back, when no name holds a backslash.
pub proof fn lemma_dotted_roundtrip(parts: Seq<Seq<char>>)
    requires
        parts.len() >= 1,
        forall|i: int| 0 <= i < parts.len() ==> !(#[trigger] parts[i]).contains('\\'),
    ensures
        dotted_split(dotted_name(parts)) == parts,
{
    lemma_split_name(parts, Seq::empty(), Seq::empty());
    assert(dotted_name(parts) + Seq::<char>::empty() =~= dotted_name(parts));
    assert(Seq::<Seq<char>>::empty() + parts.drop_last() =~= parts.drop_last());
    assert(parts.drop_last().push(parts.last()) =~= parts);
}

/// Law: popping with `drop_empty` returns what the lookup through objects
/// reads at the same path (nothing for an empty path).
pub proof fn lemma_pop_returns_read(j: Json, parts: Seq<Seq<char>>)
    requires
        parts.len() > 0,
    ensures
        pop_drop_spec(j, parts).1 == get_object_path(j, parts),
    decreases parts.len(),
{
    if let Json::Object(e) = j {
        let i = key_index(e, parts[0]);
        lemma_key_index(e, parts[0]);
        if i >= 0 {
            let rest = parts.subrange(1, parts.len() as int);
            if parts.len() == 1 {
                assert(get_object_path(e[i].1, rest) == Some(e[i].1));
            } else {
                lemma_pop_returns_read(e[i].1, rest);
            }
        }
    }
}

/// Law: popping without `drop_empty` a field that is not there leaves the
/// event as it was.
pub proof fn lemma_pop_missing_unchanged(j: Json, parts: Seq<Seq<char>>)
    ensures
        pop_exact_spec(j, parts).1 is None ==> pop_exact_spec(j, parts).0 == j,
    decreases parts.len(),
{
    if parts.len() > 1 {
        let rest = parts.subrange(1, parts.len() as int);
        match j {
            Json::Object(e) => {
                let i = key_index(e, parts[0]);
                lemma_key_index(e, parts[0]);
                if i >= 0 {
                    lemma_pop_missing_unchanged(e[i].1, rest);
                    assert(e.update(i, (e[i].0, e[i].1)) =~= e);
                }
            },
            Json::Array(a) => match isize_of(parts[0]) {
                Some(idx) => match normalize_index_spec(idx, a.len() as int) {
                    Some(i) => {
                        lemma_pop_missing_unchanged(a[i], rest);
                        assert(a.update(i, a[i]) =~= a);
                    },
                    None => {},
                },
                None => {},
            },
            _ => {},
        }
    }
}

proof fn lemma_dotted_split_plain(s: Seq<char>, cur: Seq<char>, done: Seq<Seq<char>>)
    requires
        !s.contains('\\'),
    ensures
        dotted_split_from(s, cur, done) == crate::text::split_char_from(s, '.', cur, done),
    decreases s.len(),
{
    if s.len() > 0 {
        let t = s.subrange(1, s.len() as int);
        assert(s[0] != '\\') by { assert(s.contains(s[0])); }
        assert(!t.contains('\\')) by {
            if t.contains('\\') {
                let k = choose|k: int| 0 <= k < t.len() && t[k] == '\\';
                assert(s[k + 1] == '\\');
            }
        }
        if s[0] == '.' {
            lemma_dotted_split_plain(t, Seq::empty(), done.push(cur));
        } else {
            lemma_dotted_split_plain(t, cur.push(s[0]), done);
        }
    }
}

proof fn lemma_join_push(parts: Seq<Seq<char>>, x: Seq<char>, sep: Seq<char>)
    requires
        parts.len() >= 1,
    ensures
        join_with(parts.push(x), sep) == join_with(parts, sep) + sep + x,
{
    assert(parts.push(x).drop_last() =~= parts);
}

proof fn lemma_join_split(s: Seq<char>, c: char, cur: Seq<char>, done: Seq<Seq<char>>)
    ensures
        join_with(crate::text::split_char_from(s, c, cur, done), seq![c]) == join_with(done.push(cur), seq![c]) + s,
    decreases s.len(),
{
    let t = s.subrange(1, s.len() as int);
    if s.len() == 0 {
        assert(join_with(done.push(cur), seq![c]) + s =~= join_with(done.push(cur), seq![c]));
    } else if s[0] == c {
        lemma_join_split(t, c, Seq::empty(), done.push(cur));
        lemma_join_push(done.push(cur), Seq::empty(), seq![c]);
        assert(join_with(done.push(cur), seq![c]) + seq![c] + Seq::<char>::empty() + t
            =~= join_with(done.push(cur), seq![c]) + s);
    } else {
        lemma_join_split(t, c, cur.push(s[0]), done);
        if done.len() == 0 {
            assert(done.push(cur.push(s[0])) =~= seq![cur.push(s[0])]);
            assert(done.push(cur) =~= seq![cur]);
        } else {
            lemma_join_push(done, cur.push(s[0]), seq![c]);
            lemma_join_push(done, cur, seq![c]);
        }
        assert(join_with(done.push(cur.push(s[0])), seq![c]) =~= join_with(done.push(cur), seq![c]).push(s[0]));
        assert(join_with(done.push(cur), seq![c]).push(s[0]) + t =~= join_with(done.push(cur), seq![c]) + s);
    }
}

proof fn lemma_split_parts_lack(s: Seq<char>, c: char, cur: Seq<char>, done: Seq<Seq<char>>)
    requires
        !cur.contains(c),
        forall|i: int| 0 <= i < done.len() ==> !(#[trigger] done[i]).contains(c),
    ensures
        forall|i: int| 0 <= i < crate::text::split_char_from(s, c, cur, done).len()
            ==> !(#[trigger] crate::text::split_char_from(s, c, cur, done)[i]).contains(c),
    decreases s.len(),
{
    let r = crate::text::split_char_from(s, c, cur, done);
    let pushed = done.push(cur);
    assert forall|i: int| 0 <= i < pushed.len() implies !(#[trigger] pushed[i]).contains(c) by {
        if i < done.len() { assert(pushed[i] == done[i]); } else { assert(pushed[i] == cur); }
    }
    if s.len() == 0 {
        assert(r == pushed);
    } else {
        let t = s.subrange(1, s.len() as int);
        if s[0] == c {
            assert(r == crate::text::split_char_from(t, c, Seq::empty(), pushed));
            assert(!Seq::<char>::empty().contains(c));
            lemma_split_parts_lack(t, c, Seq::empty(), pushed);
        } else {
            assert(r == crate::text::split_char_from(t, c, cur.push(s[0]), done));
            assert(!cur.push(s[0]).contains(c)) by {
                if cur.push(s[0]).contains(c) {
                    let k = choose|k: int| 0 <= k < cur.push(s[0]).len() && cur.push(s[0])[k] == c;
                    if k < cur.len() { assert(cur[k] == c); }
                }
            }
            lemma_split_parts_lack(t, c, cur.push(s[0]), done);
        }
    }
}

proof fn lemma_escape_plain(f: Seq<char>)
    requires
        !f.contains('.'),
    ensures
        escape_dots(f) == f,
    decreases f.len(),
{
    if f.len() > 0 {
        assert(!f.drop_last().contains('.')) by {
            if f.drop_last().contains('.') {
                let k = choose|k: int| 0 <= k < f.drop_last().len() && f.drop_last()[k] == '.';
                assert(f[k] == '.');
            }
        }
        lemma_escape_plain(f.drop_last());
        assert(f.last() != '.') by { assert(f[f.len() - 1] == f.last()); }
        assert(f.drop_last() + seq![f.last()] =~= f);
    }
}

/// Law: a dotted name without backslashes splits at each `.`, into one
/// part more than it has dots; joining the parts with `.` again, escaped
/// or not, gives the name back.
pub proof fn lemma_plain_dotted_name(s: Seq<char>)
    requires
        !s.contains('\\'),
    ensures
        dotted_split(s) == crate::text::split_char(s, '.'),
        dotted_split(s).len() == crate::text::count_char(s, '.') + 1,
        join_with(dotted_split(s), seq!['.']) == s,
        dotted_name(dotted_split(s)) == s,
{
    let e = Seq::<char>::empty();
    let n = Seq::<Seq<char>>::empty();
    lemma_dotted_split_plain(s, e, n);
    crate::text::lemma_split_char_from_count(s, '.', e, n);
    lemma_join_split(s, '.', e, n);
    assert(join_with(n.push(e), seq!['.']) == e);
    assert(e + s =~= s);
    lemma_split_parts_lack(s, '.', e, n);
    let parts = dotted_split(s);
    assert(escaped_all(parts) =~= parts) by {
        assert forall|i: int| 0 <= i < parts.len() implies escaped_all(parts)[i] == parts[i] by {
            lemma_escape_plain(parts[i]);
        }
    }
}

/// Setting `k` leaves the value of every other key as it was.
pub proof fn lemma_key_get_insert_other(e: Seq<(Seq<char>, Json)>, k: Seq<char>, v: Json, k2: Seq<char>)
    requires
        k2 != k,
    ensures
        key_get(obj_insert(e, k, v), k2) == key_get(e, k2),
{
    lemma_key_index(e, k);
    lemma_key_index(e, k2);
    let i = key_index(e, k);
    let j = key_index(e, k2);
    let n = obj_insert(e, k, v);
    assert(forall|m: int| 0 <= m < e.len() && m != i ==> n[m] == e[m]);
    if i >= 0 {
        assert(n[i].0 == k);
    } else {
        assert(n[e.len() as int].0 == k);
    }
    crate::value::lemma_key_index_at(n, k2, j);
}

/// Law: writing a field into an object event, when it succeeds, leaves
/// every other top-level key with the value it had.
pub proof fn lemma_add_keeps_other_keys(
    j: Json,
    path: Seq<Seq<char>>,
    content: Json,
    merge: bool,
    overwrite: bool,
    other: Seq<char>,
)
    requires
        path.len() >= 1,
        other != path[0],
        add_field_spec(j, path, content, merge, overwrite) is Some,
    ensures
        j is Object,
        add_field_spec(j, path, content, merge, overwrite)->Some_0 is Object,
        key_get(add_field_spec(j, path, content, merge, overwrite)->Some_0->Object_0, other) == key_get(j->Object_0, other),
{
    let e = j->Object_0;
    let r = add_field_spec(j, path, content, merge, overwrite)->Some_0;
    assert(exists|x: Json| r == Json::Object(obj_insert(e, path[0], x)));
    let x = choose|x: Json| r == Json::Object(obj_insert(e, path[0], x));
    lemma_key_get_insert_other(e, path[0], x, other);
}

/// Each part of `path` but the last is missing or an object, and the
/// target is missing or `null`: where a write that keeps existing values
/// can go.
pub open spec fn keep_writable(j: Json, path: Seq<Seq<char>>) -> bool
    decreases path.len(),
{
    match j {
        Json::Object(e) => {
            if path.len() == 0 {
                false
            } else if path.len() == 1 {
                key_get(e, path[0]) is None || key_get(e, path[0]) == Some(Json::Null)
            } else {
                match key_get(e, path[0]) {
                    None => true,
                    Some(Json::Object(c)) => keep_writable(Json::Object(c), path.subrange(1, path.len() as int)),
                    Some(_) => false,
                }
            }
        },
        _ => false,
    }
}

/// Law: a write that keeps existing values and does not merge succeeds
/// exactly where the path is writable (see [`keep_writable`]).
pub proof fn lemma_keep_write_succeeds(j: Json, path: Seq<Seq<char>>, content: Json)
    ensures
        add_keep_spec(j, path, content, false) is Some <==> keep_writable(j, path),
    decreases path.len(),
{
    if let Json::Object(e) = j {
        if path.len() > 1 {
            let rest = path.subrange(1, path.len() as int);
            match key_get(e, path[0]) {
                None => {
                    lemma_add_keep_into_empty(rest, content, false);
                },
                Some(Json::Object(c)) => {
                    lemma_keep_write_succeeds(Json::Object(c), rest, content);
                },
                Some(_) => {},
            }
        }
    }
}

/// A writable path holds nothing yet, or `null`.
proof fn lemma_keep_writable_target(j: Json, path: Seq<Seq<char>>)
    requires
        keep_writable(j, path),
    ensures
        get_path(j, path) matches Some(v) ==> v == Json::Null,
    decreases path.len(),
{
    let e = j->Object_0;
    let rest = path.subrange(1, path.len() as int);
    if path.len() == 1 {
        if let Some(c) = key_get(e, path[0]) {
            assert(get_path(c, rest) == Some(c));
        }
    } else {
        if let Some(Json::Object(c)) = key_get(e, path[0]) {
            lemma_keep_writable_target(Json::Object(c), rest);
        }
    }
}

/// A write that keeps existing values succeeds on a writable path, whether
/// it merges or not.
proof fn lemma_keep_writable_succeeds(j: Json, path: Seq<Seq<char>>, content: Json, merge: bool)
    requires
        keep_writable(j, path),
    ensures
        add_keep_spec(j, path, content, merge) is Some,
    decreases path.len(),
{
    let e = j->Object_0;
    if path.len() > 1 {
        let rest = path.subrange(1, path.len() as int);
        match key_get(e, path[0]) {
            None => lemma_add_keep_into_empty(rest, content, merge),
            Some(c) => lemma_keep_writable_succeeds(c, rest, content, merge),
        }
    }
}

/// Law: writing `content` at a non-empty path of an object succeeds where
/// it overwrites, or where the path is writable (see [`keep_writable`]);
/// reading the path then gives `content`, and every top-level key but the
/// path's first keeps its value.
pub proof fn lemma_add_field_law(j: Json, path: Seq<Seq<char>>, content: Json, merge: bool, overwrite: bool)
    requires
        j is Object,
        path.len() >= 1,
        overwrite || keep_writable(j, path),
    ensures
        add_field_spec(j, path, content, merge, overwrite) matches Some(j2)
            && get_path(j2, path) == Some(content)
            && j2 is Object
            && forall|k: Seq<char>| k != path[0] ==> #[trigger] key_get(j2->Object_0, k) == key_get(j->Object_0, k),
{
    if overwrite {
        lemma_overwrite_then_read(j, path, content);
    } else {
        lemma_keep_writable_succeeds(j, path, content, merge);
        lemma_keep_writable_target(j, path);
        lemma_add_then_read(j, path, content, merge);
    }
    let j2 = add_field_spec(j, path, content, merge, overwrite)->Some_0;
    assert forall|k: Seq<char>| k != path[0] implies #[trigger] key_get(j2->Object_0, k) == key_get(j->Object_0, k) by {
        lemma_add_keeps_other_keys(j, path, content, merge, overwrite, k);
    }
    // any key other than the first shows that the result is an object
    lemma_add_keeps_other_keys(j, path, content, merge, overwrite, path[0].push(' '));
}

/// The number of positions `i, i+step, ...` strictly between `i` and `e`
/// going towards `e` (`range(i, e, step)` in Python).
pub open spec fn range_count(i: int, e: int, step: int) -> nat
    decreases (if step > 0 && i < e { e - i } else if step < 0 && i > e { i - e } else { 0 }),
{
    if step > 0 && i < e {
        1 + range_count(i + step, e, step)
    } else if step < 0 && i > e {
        1 + range_count(i + step, e, step)
    } else {
        0
    }
}

/// One bound of a slice after `slice.indices` adjusts it to a list of
/// `len` items (CPython's `PySlice_AdjustIndices`): a negative bound counts
/// from the end, and a bound outside the list is moved to its edge, `-1`
/// or `len - 1` when stepping down.
pub open spec fn adjust_index(v: int, len: int, step: int) -> int {
    if v < 0 {
        if v + len < 0 { if step < 0 { -1 } else { 0 } } else { v + len }
    } else if v >= len {
        if step < 0 { len - 1 } else { len }
    } else {
        v
    }
}

/// The start and stop of a slice after `slice.indices`: the given bounds
/// adjusted, a missing start the first position in the step's direction,
/// a missing stop just past the last.
pub open spec fn slice_indices(len: int, start: Option<int>, stop: Option<int>, step: int) -> (int, int) {
    (match start { Some(v) => adjust_index(v, len, step), None => if step < 0 { len - 1 } else { 0 } },
     match stop { Some(v) => adjust_index(v, len, step), None => if step < 0 { -1 } else { len } })
}

proof fn lemma_slice_up_range(a: Seq<Json>, i: int, e: int, step: int)
    requires
        step > 0,
        0 <= i,
        e <= a.len(),
    ensures
        slice_up(a, i, e, step) == Seq::new(range_count(i, e, step), |k: int| a[i + k * step]),
    decreases (if i < e { e - i } else { 0 }),
{
    if i < e {
        lemma_slice_up_range(a, i + step, e, step);
        let rest = Seq::new(range_count(i + step, e, step), |k: int| a[i + step + k * step]);
        let whole = Seq::new(range_count(i, e, step), |k: int| a[i + k * step]);
        assert forall|k: int| 0 <= k < whole.len() implies (seq![a[i]] + rest)[k] == whole[k] by {
            if k > 0 {
                assert(i + step + (k - 1) * step == i + k * step) by (nonlinear_arith);
            } else {
                assert(i + 0 * step == i) by (nonlinear_arith);
            }
        }
        assert(seq![a[i]] + rest =~= whole);
    } else {
        assert(slice_up(a, i, e, step) =~= Seq::new(range_count(i, e, step), |k: int| a[i + k * step]));
    }
}

proof fn lemma_slice_down_range(a: Seq<Json>, i: int, e: int, step: int)
    requires
        step < 0,
        i < a.len(),
        -1 <= e,
    ensures
        slice_down(a, i, e, step) == Seq::new(range_count(i, e, step), |k: int| a[i + k * step]),
    decreases (if i > e { i - e } else { 0 }),
{
    if i > e {
        lemma_slice_down_range(a, i + step, e, step);
        let rest = Seq::new(range_count(i + step, e, step), |k: int| a[i + step + k * step]);
        let whole = Seq::new(range_count(i, e, step), |k: int| a[i + k * step]);
        assert forall|k: int| 0 <= k < whole.len() implies (seq![a[i]] + rest)[k] == whole[k] by {
            if k > 0 {
                assert(i + step + (k - 1) * step == i + k * step) by (nonlinear_arith);
            } else {
                assert(i + 0 * step == i) by (nonlinear_arith);
            }
        }
        assert(seq![a[i]] + rest =~= whole);
    } else {
        assert(slice_down(a, i, e, step) =~= Seq::new(range_count(i, e, step), |k: int| a[i + k * step]));
    }
}

/// Law: a slice holds the items at `range(start, stop, step)` after the
/// bounds are clamped as `slice.indices` clamps them, as Python's list
/// slicing does.
pub proof fn lemma_python_slice_range(a: Seq<Json>, start: Option<int>, stop: Option<int>, step: int)
    requires
        step != 0,
    ensures
        python_slice_spec(a, start, stop, step) == ({
            let (s, e) = slice_indices(a.len() as int, start, stop, step);
            Seq::new(range_count(s, e, step), |k: int| a[s + k * step])
        }),
{
    let (s, e) = slice_indices(a.len() as int, start, stop, step);
    if step > 0 {
        lemma_slice_up_range(a, s, e, step);
    } else {
        lemma_slice_down_range(a, s, e, step);
    }
}

proof fn lemma_range_count_up(i: int, e: int)
    requires
        i <= e,
    ensures
        range_count(i, e, 1) == e - i,
    decreases e - i,
{
    if i < e {
        lemma_range_count_up(i + 1, e);
    }
}

proof fn lemma_range_count_down(i: int, e: int)
    requires
        e <= i,
    ensures
        range_count(i, e, -1) == i - e,
    decreases i - e,
{
    if i > e {
        lemma_range_count_down(i - 1, e);
    }
}

/// Law: the whole slice with step 1 is the list, with step -1 the list
/// reversed.
pub proof fn lemma_python_slice_whole(a: Seq<Json>)
    ensures
        python_slice_spec(a, None, None, 1) == a,
        python_slice_spec(a, None, None, -1) == a.reverse(),
{
    let n = a.len() as int;
    lemma_python_slice_range(a, None, None, 1);
    lemma_python_slice_range(a, None, None, -1);
    lemma_range_count_up(0, n);
    lemma_range_count_down(n - 1, -1);
    assert(Seq::new(range_count(0, n, 1), |k: int| a[0 + k * 1]) =~= a);
    assert(Seq::new(range_count(n - 1, -1, -1), |k: int| a[n - 1 + k * -1]) =~= a.reverse());
}

} // verus!
