//! The event model: a JSON-like value tree.
//!
//! Objects keep their entries in insertion order; lookups and updates act on
//! the first entry with a given key, so an object built only through this
//! library never holds a key twice.
use vstd::prelude::*;

verus! {

/// A floating-point number carried through the library without arithmetic.
///
/// `bits` is the IEEE-754 binary64 bit pattern. `json` is the text that a JSON
/// serialiser writes for the number and `display` is its display form with a
/// fractional part (for example `42.0`); both are supplied by whoever builds
/// the value, because producing them needs floating-point formatting.
pub struct FloatNum {
    pub bits: u64,
    pub json: String,
    pub display: String,
}

/// A JSON-like value.
pub enum Value {
    Null,
    Bool(bool),
    Int(i64),
    Float(FloatNum),
    Str(String),
    Array(Vec<Value>),
    Object(Vec<(String, Value)>),
}

/// Mathematical model of a [`Value`].
#[verifier::ext_equal]
pub enum Json {
    Null,
    Bool(bool),
    Int(i64),
    Float(u64, Seq<char>, Seq<char>),
    Str(Seq<char>),
    Array(Seq<Json>),
    Object(Seq<(Seq<char>, Json)>),
}

impl Value {
    pub open spec fn model(self) -> Json
        decreases self,
    {
        match self {
            Value::Null => Json::Null,
            Value::Bool(b) => Json::Bool(b),
            Value::Int(i) => Json::Int(i),
            Value::Float(f) => Json::Float(f.bits, f.json@, f.display@),
            Value::Str(s) => Json::Str(s@),
            Value::Array(v) => {
                proof {
                    broadcast use vstd::std_specs::vec::axiom_vec_decreases_to_view;
                    assert(decreases_to!(v => v@));
                }
                Json::Array(models(v@))
            },
            Value::Object(e) => {
                proof {
                    broadcast use vstd::std_specs::vec::axiom_vec_decreases_to_view;
                    assert(decreases_to!(e => e@));
                }
                Json::Object(entry_models(e@))
            },
        }
    }
}

pub open spec fn models(s: Seq<Value>) -> Seq<Json>
    decreases s,
{
    if s.len() == 0 {
        Seq::empty()
    } else {
        proof {
            assert(decreases_to!(s => s[s.len() - 1]));
            assert(decreases_to!(s => s.subrange(0, s.len() - 1)));
        }
        models(s.subrange(0, s.len() - 1)).push(s[s.len() - 1].model())
    }
}

pub open spec fn entry_models(s: Seq<(String, Value)>) -> Seq<(Seq<char>, Json)>
    decreases s,
{
    if s.len() == 0 {
        Seq::empty()
    } else {
        proof {
            assert(decreases_to!(s => s[s.len() - 1]));
            assert(decreases_to!(s[s.len() - 1] => s[s.len() - 1].1));
            assert(decreases_to!(s => s.subrange(0, s.len() - 1)));
        }
        entry_models(s.subrange(0, s.len() - 1)).push((s[s.len() - 1].0@, s[s.len() - 1].1.model()))
    }
}

pub proof fn lemma_models(s: Seq<Value>)
    ensures
        models(s).len() == s.len(),
        forall|i: int| 0 <= i < s.len() ==> #[trigger] models(s)[i] == s[i].model(),
    decreases s.len(),
{
    if s.len() > 0 {
        lemma_models(s.subrange(0, s.len() - 1));
    }
}

pub proof fn lemma_entry_models(s: Seq<(String, Value)>)
    ensures
        entry_models(s).len() == s.len(),
        forall|i: int| 0 <= i < s.len() ==> #[trigger] entry_models(s)[i] == (s[i].0@, s[i].1.model()),
    decreases s.len(),
{
    if s.len() > 0 {
        lemma_entry_models(s.subrange(0, s.len() - 1));
    }
}

pub proof fn lemma_models_update(s: Seq<Value>, i: int, x: Value)
    requires
        0 <= i < s.len(),
    ensures
        models(s.update(i, x)) == models(s).update(i, x.model()),
{
    lemma_models(s);
    lemma_models(s.update(i, x));
    assert(models(s.update(i, x)) =~= models(s).update(i, x.model()));
}

pub proof fn lemma_models_push(s: Seq<Value>, x: Value)
    ensures
        models(s.push(x)) == models(s).push(x.model()),
{
    lemma_models(s);
    lemma_models(s.push(x));
    assert(models(s.push(x)) =~= models(s).push(x.model()));
}

pub proof fn lemma_entry_models_update(s: Seq<(String, Value)>, i: int, x: (String, Value))
    requires
        0 <= i < s.len(),
    ensures
        entry_models(s.update(i, x)) == entry_models(s).update(i, (x.0@, x.1.model())),
{
    lemma_entry_models(s);
    lemma_entry_models(s.update(i, x));
    assert(entry_models(s.update(i, x)) =~= entry_models(s).update(i, (x.0@, x.1.model())));
}

pub proof fn lemma_entry_models_remove(s: Seq<(String, Value)>, i: int)
    requires
        0 <= i < s.len(),
    ensures
        entry_models(s.remove(i)) == entry_models(s).remove(i),
{
    lemma_entry_models(s);
    lemma_entry_models(s.remove(i));
    assert(entry_models(s.remove(i)) =~= entry_models(s).remove(i));
}

pub proof fn lemma_entry_models_push(s: Seq<(String, Value)>, x: (String, Value))
    ensures
        entry_models(s.push(x)) == entry_models(s).push((x.0@, x.1.model())),
{
    lemma_entry_models(s);
    lemma_entry_models(s.push(x));
    assert(entry_models(s.push(x)) =~= entry_models(s).push((x.0@, x.1.model())));
}

/// Index of the first entry whose key is `k`, or -1.
pub open spec fn key_index(e: Seq<(Seq<char>, Json)>, k: Seq<char>) -> int
    decreases e.len(),
{
    if e.len() == 0 {
        -1
    } else if e[0].0 == k {
        0
    } else {
        let r = key_index(e.subrange(1, e.len() as int), k);
        if r < 0 { -1 } else { r + 1 }
    }
}

/// Value stored under the first entry with key `k`.
pub open spec fn key_get(e: Seq<(Seq<char>, Json)>, k: Seq<char>) -> Option<Json> {
    let i = key_index(e, k);
    if i < 0 { None } else { Some(e[i].1) }
}

pub proof fn lemma_key_index(e: Seq<(Seq<char>, Json)>, k: Seq<char>)
    ensures
        -1 <= key_index(e, k) < e.len(),
        key_index(e, k) >= 0 ==> e[key_index(e, k)].0 == k,
        key_index(e, k) >= 0 ==> forall|j: int| 0 <= j < key_index(e, k) ==> e[j].0 != k,
        key_index(e, k) < 0 ==> forall|j: int| 0 <= j < e.len() ==> e[j].0 != k,
    decreases e.len(),
{
    if e.len() > 0 && e[0].0 != k {
        let t = e.subrange(1, e.len() as int);
        lemma_key_index(t, k);
        assert forall|j: int| 1 <= j < e.len() implies e[j] == t[j - 1] by {}
    }
}

/// Characterises `key_index` by the position of the first matching key.
pub proof fn lemma_key_index_at(e: Seq<(Seq<char>, Json)>, k: Seq<char>, i: int)
    requires
        -1 <= i < e.len(),
        i >= 0 ==> e[i].0 == k,
        i >= 0 ==> forall|j: int| 0 <= j < i ==> e[j].0 != k,
        i < 0 ==> forall|j: int| 0 <= j < e.len() ==> e[j].0 != k,
    ensures
        key_index(e, k) == i,
{
    lemma_key_index(e, k);
}

impl Value {
    /// A deep copy of the value.
    pub fn copy(&self) -> (r: Value)
        ensures
            r.model() == self.model(),
        decreases self.model(),
    {
        match self {
            Value::Null => Value::Null,
            Value::Bool(b) => Value::Bool(*b),
            Value::Int(i) => Value::Int(*i),
            Value::Float(f) => Value::Float(FloatNum { bits: f.bits, json: f.json.clone(), display: f.display.clone() }),
            Value::Str(s) => Value::Str(s.clone()),
            Value::Array(v) => {
                let mut out: Vec<Value> = Vec::new();
                let mut i: usize = 0;
                proof { lemma_models(v@); }
                while i < v.len()
                    invariant
                        self.model() == Json::Array(models(v@)),
                        models(v@).len() == v@.len(),
                        forall|j: int| 0 <= j < v@.len() ==> #[trigger] models(v@)[j] == v@[j].model(),
                        i <= v@.len(),
                        out@.len() == i,
                        forall|j: int| 0 <= j < i ==> #[trigger] out@[j].model() == v@[j].model(),
                    decreases v@.len() - i,
                {
                    proof {
                        lemma_models(v@);
                        assert(decreases_to!(self.model() => self.model()->Array_0));
                        assert(decreases_to!(models(v@) => models(v@)[i as int]));
                    }
                    let c = v[i].copy();
                    out.push(c);
                    i = i + 1;
                }
                proof {
                    lemma_models(out@);
                    lemma_models(v@);
                    assert(models(out@) =~= models(v@));
                }
                Value::Array(out)
            },
            Value::Object(e) => {
                let mut out: Vec<(String, Value)> = Vec::new();
                let mut i: usize = 0;
                proof { lemma_entry_models(e@); }
                while i < e.len()
                    invariant
                        self.model() == Json::Object(entry_models(e@)),
                        entry_models(e@).len() == e@.len(),
                        forall|j: int| 0 <= j < e@.len() ==> #[trigger] entry_models(e@)[j] == (e@[j].0@, e@[j].1.model()),
                        i <= e@.len(),
                        out@.len() == i,
                        forall|j: int| 0 <= j < i ==> #[trigger] out@[j].0@ == e@[j].0@ && out@[j].1.model() == e@[j].1.model(),
                    decreases e@.len() - i,
                {
                    proof {
                        lemma_entry_models(e@);
                        assert(self.model() == Json::Object(entry_models(e@)));
                        assert(decreases_to!(self.model() => self.model()->Object_0));
                        assert(decreases_to!(entry_models(e@) => entry_models(e@)[i as int]));
                        assert(decreases_to!(entry_models(e@)[i as int] => entry_models(e@)[i as int].1));
                    }
                    let c = e[i].1.copy();
                    let k = e[i].0.clone();
                    out.push((k, c));
                    i = i + 1;
                }
                proof {
                    lemma_entry_models(out@);
                    lemma_entry_models(e@);
                    assert(entry_models(out@) =~= entry_models(e@));
                }
                Value::Object(out)
            },
        }
    }
}

/// Position of the first entry with key `key`.
pub fn find_entry(entries: &Vec<(String, Value)>, key: &str) -> (r: Option<usize>)
    ensures
        match r {
            Some(i) => i as int == key_index(entry_models(entries@), key@),
            None => key_index(entry_models(entries@), key@) < 0,
        },
{
    proof { lemma_entry_models(entries@); }
    let mut i: usize = 0;
    while i < entries.len()
        invariant
            0 <= i <= entries@.len(),
            entry_models(entries@).len() == entries@.len(),
            forall|j: int| 0 <= j < entries@.len() ==> #[trigger] entry_models(entries@)[j] == (entries@[j].0@, entries@[j].1.model()),
            forall|j: int| 0 <= j < i ==> entries@[j].0@ != key@,
        decreases entries@.len() - i,
    {
        if str_eq(entries[i].0.as_str(), key) {
            proof { lemma_key_index_at(entry_models(entries@), key@, i as int); }
            return Some(i);
        }
        i = i + 1;
    }
    proof { lemma_key_index_at(entry_models(entries@), key@, -1); }
    None
}

/// Equality of two string slices, as std's `==` on `str` computes it.
#[verifier::external_body]
pub(crate) fn str_eq(a: &str, b: &str) -> (r: bool)
    ensures
        r == (a@ == b@),
{
    a == b
}

} // verus!
