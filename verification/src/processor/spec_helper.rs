//! Reading rule configuration: required keys, typed options, and dotted
//! field names split once when a rule is added.
use vstd::prelude::*;
use crate::field::{dotted_split, get_dotted_field_list, views};
use crate::text::{chars_of, push_all, string_of};
use crate::value::{entry_models, find_entry, key_get, lemma_entry_models, lemma_key_index, Json, Value};

verus! {

/// The character sequences of string slices.
pub open spec fn str_views(s: Seq<&str>) -> Seq<Seq<char>> {
    Seq::new(s.len(), |i: int| s[i]@)
}

/// The first of the required keys that the configuration lacks.
pub open spec fn first_missing(raw: Seq<(Seq<char>, Json)>, required: Seq<Seq<char>>) -> Option<Seq<char>>
    decreases required.len(),
{
    if required.len() == 0 {
        None
    } else if key_get(raw, required[0]) is None {
        Some(required[0])
    } else {
        first_missing(raw, required.subrange(1, required.len() as int))
    }
}

/// `missing required key '<key>'`
pub open spec fn missing_key_message(key: Seq<char>) -> Seq<char> {
    "missing required key '"@ + key + "'"@
}

/// `'<key>' must be <what>`
pub open spec fn type_message(key: Seq<char>, what: Seq<char>) -> Seq<char> {
    "'"@ + key + "' must be "@ + what
}

fn concat(parts: &[&str]) -> (r: String)
    ensures
        r@ == joined(str_views(parts@)),
{
    let mut out: Vec<char> = Vec::new();
    let mut i: usize = 0;
    while i < parts.len()
        invariant
            i <= parts@.len(),
            out@ == joined(str_views(parts@).subrange(0, i as int)),
        decreases parts@.len() - i,
    {
        let ghost pre = str_views(parts@).subrange(0, i + 1);
        assert(pre.drop_last() =~= str_views(parts@).subrange(0, i as int));
        let c = chars_of(parts[i]);
        push_all(&mut out, c.as_slice());
        i = i + 1;
    }
    assert(str_views(parts@).subrange(0, parts@.len() as int) =~= str_views(parts@));
    string_of(out.as_slice())
}

/// The strings one after the other.
pub open spec fn joined(s: Seq<Seq<char>>) -> Seq<char>
    decreases s.len(),
{
    if s.len() == 0 { Seq::empty() } else { joined(s.drop_last()) + s.last() }
}

proof fn lemma_joined3(a: Seq<char>, b: Seq<char>, c: Seq<char>)
    ensures
        joined(seq![a, b, c]) == a + b + c,
{
    let e = Seq::<Seq<char>>::empty();
    let s1 = e.push(a);
    let s2 = s1.push(b);
    let s3 = s2.push(c);
    assert(s1.drop_last() =~= e);
    assert(s2.drop_last() =~= s1);
    assert(s3.drop_last() =~= s2);
    assert(joined(e) =~= Seq::<char>::empty());
    assert(joined(s1) =~= a);
    assert(joined(s2) =~= a + b);
    assert(joined(s3) =~= a + b + c);
    assert(s3 =~= seq![a, b, c]);
}

proof fn lemma_joined4(a: Seq<char>, b: Seq<char>, c: Seq<char>, d: Seq<char>)
    ensures
        joined(seq![a, b, c, d]) == a + b + c + d,
{
    lemma_joined3(a, b, c);
    assert(seq![a, b, c, d].drop_last() =~= seq![a, b, c]);
}

fn missing_key_error(key: &str) -> (r: String)
    ensures
        r@ == missing_key_message(key@),
{
    let r = concat(&["missing required key '", key, "'"]);
    proof {
        assert(str_views(seq!["missing required key '", key, "'"]) =~= seq!["missing required key '"@, key@, "'"@]);
        lemma_joined3("missing required key '"@, key@, "'"@);
    }
    r
}

fn type_error(key: &str, what: &str) -> (r: String)
    ensures
        r@ == type_message(key@, what@),
{
    let r = concat(&["'", key, "' must be ", what]);
    proof {
        assert(str_views(seq!["'", key, "' must be ", what]) =~= seq!["'"@, key@, "' must be "@, what@]);
        lemma_joined4("'"@, key@, "' must be "@, what@);
    }
    r
}

fn lookup<'a>(raw: &'a Vec<(String, Value)>, key: &str) -> (r: Option<&'a Value>)
    ensures
        crate::field::opt_model(r) == key_get(entry_models(raw@), key@),
{
    proof { lemma_entry_models(raw@); lemma_key_index(entry_models(raw@), key@); }
    match find_entry(raw, key) {
        Some(i) => Some(&raw[i].1),
        None => None,
    }
}

fn has_key(raw: &Vec<(String, Value)>, key: &str) -> (r: bool)
    ensures
        r == key_get(entry_models(raw@), key@) is Some,
{
    lookup(raw, key).is_some()
}

/// Checks that the configuration holds each required key; fails naming the
/// first one it lacks.
pub fn validate_required_keys(raw: &Vec<(String, Value)>, required: &[&str]) -> (r: Result<(), String>)
    ensures
        match first_missing(entry_models(raw@), str_views(required@)) {
            None => r is Ok,
            Some(k) => r matches Err(m) && m@ == missing_key_message(k),
        },
{
    let ghost req = str_views(required@);
    let mut i: usize = 0;
    assert(req.subrange(0, req.len() as int) =~= req);
    while i < required.len()
        invariant
            i <= required@.len(),
            req == str_views(required@),
            first_missing(entry_models(raw@), req) == first_missing(entry_models(raw@), req.subrange(i as int, req.len() as int)),
        decreases required@.len() - i,
    {
        let ghost t = req.subrange(i as int, req.len() as int);
        assert(t.subrange(1, t.len() as int) =~= req.subrange(i + 1, req.len() as int));
        assert(t[0] == required@[i as int]@);
        if !has_key(raw, required[i]) {
            return Err(missing_key_error(required[i]));
        }
        i = i + 1;
    }
    Ok(())
}

/// The list of strings under `key`.
pub fn get_string_list(raw: &Vec<(String, Value)>, key: &str) -> (r: Result<Vec<String>, String>)
    ensures
        match key_get(entry_models(raw@), key@) {
            Some(Json::Array(items)) => if forall|i: int| 0 <= i < items.len() ==> #[trigger] items[i] is Str {
                r matches Ok(v) && views(v@) == Seq::new(items.len(), |i: int| items[i]->Str_0)
            } else {
                r matches Err(m) && m@ == type_message(key@, "a list of strings"@)
            },
            Some(_) => r matches Err(m) && m@ == type_message(key@, "a list of strings"@),
            None => r matches Err(m) && m@ == missing_key_message(key@),
        },
{
    match lookup(raw, key) {
        Some(Value::Array(items)) => {
            let ghost ms = crate::value::models(items@);
            proof { crate::value::lemma_models(items@); }
            let mut out: Vec<String> = Vec::new();
            let mut i: usize = 0;
            while i < items.len()
                invariant
                    i <= items@.len(),
                    ms == crate::value::models(items@),
                    ms.len() == items@.len(),
                    forall|k: int| 0 <= k < items@.len() ==> #[trigger] ms[k] == items@[k].model(),
                    forall|k: int| 0 <= k < i ==> #[trigger] ms[k] is Str,
                    views(out@) == Seq::new(i as nat, |k: int| ms[k]->Str_0),
                    key_get(entry_models(raw@), key@) == Some(Json::Array(ms)),
                decreases items@.len() - i,
            {
                match &items[i] {
                    Value::Str(s) => {
                        let ghost before = out@;
                        out.push(s.clone());
                        assert(ms[i as int] == Json::Str(s@));
                        assert(views(out@) =~= views(before).push(s@));
                        assert(views(out@) =~= Seq::new((i + 1) as nat, |k: int| ms[k]->Str_0));
                    },
                    _ => {
                        assert(!(ms[i as int] is Str));
                        return Err(type_error(key, "a list of strings"));
                    },
                }
                i = i + 1;
            }
            Ok(out)
        },
        Some(_) => Err(type_error(key, "a list of strings")),
        None => Err(missing_key_error(key)),
    }
}

/// The string under `key`, if there is one.
pub fn get_string(raw: &Vec<(String, Value)>, key: &str) -> (r: Result<Option<String>, String>)
    ensures
        match key_get(entry_models(raw@), key@) {
            Some(Json::Str(s)) => r matches Ok(Some(v)) && v@ == s,
            Some(_) => r matches Err(m) && m@ == type_message(key@, "a string"@),
            None => r == Ok::<Option<String>, String>(None),
        },
{
    match lookup(raw, key) {
        Some(Value::Str(s)) => Ok(Some(s.clone())),
        Some(_) => Err(type_error(key, "a string")),
        None => Ok(None),
    }
}

/// The boolean under `key`, if there is one.
pub fn get_bool(raw: &Vec<(String, Value)>, key: &str) -> (r: Result<Option<bool>, String>)
    ensures
        match key_get(entry_models(raw@), key@) {
            Some(Json::Bool(b)) => r == Ok::<Option<bool>, String>(Some(b)),
            Some(_) => r matches Err(m) && m@ == type_message(key@, "a bool"@),
            None => r == Ok::<Option<bool>, String>(None),
        },
{
    match lookup(raw, key) {
        Some(Value::Bool(b)) => Ok(Some(*b)),
        Some(_) => Err(type_error(key, "a bool")),
        None => Ok(None),
    }
}

/// Splits each dotted field name into its parts.
pub fn split_dotted_fields(fields: &[String]) -> (r: Vec<Vec<String>>)
    ensures
        r@.len() == fields@.len(),
        forall|i: int| 0 <= i < fields@.len() ==> views(#[trigger] r@[i]@) == dotted_split(fields@[i]@),
{
    let mut out: Vec<Vec<String>> = Vec::new();
    let mut i: usize = 0;
    while i < fields.len()
        invariant
            i <= fields@.len(),
            out@.len() == i,
            forall|k: int| 0 <= k < i ==> views(#[trigger] out@[k]@) == dotted_split(fields@[k]@),
        decreases fields@.len() - i,
    {
        out.push(get_dotted_field_list(fields[i].as_str()));
        i = i + 1;
    }
    out
}

} // verus!
