//! Key checker: records which of the configured fields an event lacks.
use vstd::prelude::*;
use crate::field::{
    add_field_spec, add_field_to, dotted_name, dotted_split, get_at, get_dotted_field_list, get_path,
    has_dotted_field, views,
};
use crate::processor::{warning_models, RuleSpec, SpecError, SpecWarning, WarningModel};
use crate::processor::spec_helper::{first_missing, missing_key_message, str_views, validate_required_keys};
use crate::render::{python_text, value_to_python_str};
use crate::sorted::{insert_sorted, lemma_sorted_unique, strictly_sorted};
use crate::text::{chars_of, string_of};
use crate::value::{lemma_entry_models, lemma_models, models, entry_models, Json, Value};

verus! {

/// The configured fields the event lacks.
pub open spec fn missing_set(event: Json, fields: Seq<Seq<char>>) -> Set<Seq<char>> {
    fields.filter(|f: Seq<char>| get_path(event, dotted_split(f)) is None).to_set()
}

/// What an existing target adds: a list's items as text, a string's
/// characters, an object's keys; nothing for other values.
pub open spec fn target_items(t: Option<Json>) -> Set<Seq<char>> {
    match t {
        Some(Json::Array(items)) => Seq::new(items.len(), |i: int| python_text(items[i])).to_set(),
        Some(Json::Str(s)) => Seq::new(s.len(), |i: int| seq![s[i]]).to_set(),
        Some(Json::Object(e)) => Seq::new(e.len(), |i: int| e[i].0).to_set(),
        _ => Set::empty(),
    }
}

/// The strictly ascending list of a finite set of strings.
pub open spec fn sorted_list(s: Set<Seq<char>>) -> Seq<Seq<char>> {
    choose|l: Seq<Seq<char>>| strictly_sorted(l) && l.to_set() == s
}

/// Strings as JSON string values.
pub open spec fn str_items(l: Seq<Seq<char>>) -> Seq<Json> {
    Seq::new(l.len(), |i: int| Json::Str(l[i]))
}

/// A key checker rule: the fields to check and where to list the missing ones.
pub struct KeyCheckerRuleSpec {
    pub source_fields: Vec<String>,
    pub target_field: String,
    pub overwrite_target: bool,
    pub merge_with_target: bool,
}

impl KeyCheckerRuleSpec {
    /// The list written to the target: the missing fields together with what
    /// the target already holds, ascending and without repeats.
    pub open spec fn listing(self, event: Json) -> Json {
        let target = dotted_split(self.target_field@);
        let all = missing_set(event, views(self.source_fields@)).union(target_items(get_path(event, target)));
        Json::Array(str_items(sorted_list(all)))
    }
}

impl KeyCheckerRuleSpec {
    /// Checks a rule's configuration: it must hold `source_fields` and
    /// `target_field`.
    pub fn validate(raw: &Vec<(String, Value)>) -> (r: Result<(), String>)
        ensures
            match first_missing(entry_models(raw@), seq!["source_fields"@, "target_field"@]) {
                None => r is Ok,
                Some(k) => r matches Err(m) && m@ == missing_key_message(k),
            },
    {
        let required: [&str; 2] = ["source_fields", "target_field"];
        let r = validate_required_keys(raw, &required);
        assert(str_views(required@) =~= seq!["source_fields"@, "target_field"@]);
        r
    }
}

proof fn lemma_sorted_list(l: Seq<Seq<char>>)
    requires
        strictly_sorted(l),
    ensures
        sorted_list(l.to_set()) == l,
{
    let c = sorted_list(l.to_set());
    assert(strictly_sorted(l) && l.to_set() == l.to_set());
    lemma_sorted_unique(c, l);
}

/// Law: the list a key checker writes holds each missing source field and
/// each item of the old target exactly once, in strictly ascending order.
pub proof fn lemma_listing_sorted_union(rule: KeyCheckerRuleSpec, event: Json)
    ensures
        ({
            let all = missing_set(event, views(rule.source_fields@))
                .union(target_items(get_path(event, dotted_split(rule.target_field@))));
            &&& rule.listing(event) == Json::Array(str_items(sorted_list(all)))
            &&& strictly_sorted(sorted_list(all))
            &&& sorted_list(all).to_set() == all
        }),
{
    let fields = views(rule.source_fields@);
    let t = get_path(event, dotted_split(rule.target_field@));
    let m = missing_set(event, fields);
    let all = m.union(target_items(t));
    vstd::seq_lib::seq_to_set_is_finite(fields.filter(|f: Seq<char>| get_path(event, dotted_split(f)) is None));
    assert(target_items(t).finite()) by {
        match t {
            Some(Json::Array(items)) => vstd::seq_lib::seq_to_set_is_finite(Seq::new(items.len(), |i: int| python_text(items[i]))),
            Some(Json::Str(x)) => vstd::seq_lib::seq_to_set_is_finite(Seq::new(x.len(), |i: int| seq![x[i]])),
            Some(Json::Object(e)) => vstd::seq_lib::seq_to_set_is_finite(Seq::new(e.len(), |i: int| e[i].0)),
            _ => {},
        }
    }
    vstd::set::axiom_set_union_finite(m, target_items(t));
    crate::sorted::lemma_sorted_list_exists(all);
}

fn add_all_sorted(out: &mut Vec<String>, items: &Vec<String>)
    requires
        strictly_sorted(views(old(out)@)),
    ensures
        strictly_sorted(views(final(out)@)),
        views(final(out)@).to_set() == views(old(out)@).to_set().union(views(items@).to_set()),
{
    crate::sorted::insert_all_sorted(out, items);
}

/// The texts a target contributes (see [`target_items`]).
fn target_texts(t: Option<&Value>) -> (r: Vec<String>)
    ensures
        views(r@).to_set() == target_items(crate::field::opt_model(t)),
{
    let mut out: Vec<String> = Vec::new();
    match t {
        Some(Value::Array(items)) => {
            let ghost ms = models(items@);
            proof { lemma_models(items@); }
            let mut i: usize = 0;
            while i < items.len()
                invariant
                    i <= items@.len(),
                    ms == models(items@),
                    ms.len() == items@.len(),
                    forall|k: int| 0 <= k < items@.len() ==> #[trigger] ms[k] == items@[k].model(),
                    views(out@) == Seq::new(i as nat, |k: int| python_text(ms[k])),
                decreases items@.len() - i,
            {
                let ghost before = views(out@);
                out.push(value_to_python_str(&items[i]));
                assert(views(out@) =~= before.push(python_text(ms[i as int])));
                assert(views(out@) =~= Seq::new((i + 1) as nat, |k: int| python_text(ms[k])));
                i = i + 1;
            }
        },
        Some(Value::Str(s)) => {
            let cs = chars_of(s.as_str());
            let mut i: usize = 0;
            while i < cs.len()
                invariant
                    i <= cs@.len(),
                    cs@ == s@,
                    views(out@) == Seq::new(i as nat, |k: int| seq![cs@[k]]),
                decreases cs@.len() - i,
            {
                let ghost before = views(out@);
                let mut one: Vec<char> = Vec::new();
                one.push(cs[i]);
                assert(one@ =~= seq![cs@[i as int]]);
                out.push(string_of(one.as_slice()));
                assert(views(out@) =~= before.push(seq![cs@[i as int]]));
                assert(views(out@) =~= Seq::new((i + 1) as nat, |k: int| seq![cs@[k]]));
                i = i + 1;
            }
        },
        Some(Value::Object(e)) => {
            let ghost ms = entry_models(e@);
            proof { lemma_entry_models(e@); }
            let mut i: usize = 0;
            while i < e.len()
                invariant
                    i <= e@.len(),
                    ms == entry_models(e@),
                    ms.len() == e@.len(),
                    forall|k: int| 0 <= k < e@.len() ==> #[trigger] ms[k] == (e@[k].0@, e@[k].1.model()),
                    views(out@) == Seq::new(i as nat, |k: int| ms[k].0),
                decreases e@.len() - i,
            {
                let ghost before = views(out@);
                out.push(e[i].0.clone());
                assert(views(out@) =~= before.push(ms[i as int].0));
                assert(views(out@) =~= Seq::new((i + 1) as nat, |k: int| ms[k].0));
                i = i + 1;
            }
        },
        _ => {
            assert(views(out@).to_set() =~= Set::<Seq<char>>::empty());
        },
    }
    out
}

impl RuleSpec for KeyCheckerRuleSpec {
    fn processor_name(&self) -> (r: &'static str)
        ensures
            r@ == "key_checker"@,
    {
        "key_checker"
    }

    /// Lists the missing source fields in the target field, together with
    /// what the target holds; nothing happens when no field is missing. A
    /// target that cannot be written gives a warning naming it.
    fn apply(&self, event: &mut Value, warnings: &mut Vec<SpecWarning>) -> (r: Result<(), SpecError>)
        ensures
            r is Ok,
            missing_set(old(event).model(), views(self.source_fields@)) == Set::<Seq<char>>::empty() ==> {
                &&& final(event).model() == old(event).model()
                &&& warning_models(final(warnings)@) == warning_models(old(warnings)@)
            },
            missing_set(old(event).model(), views(self.source_fields@)) != Set::<Seq<char>>::empty() ==> {
                let target = dotted_split(self.target_field@);
                match add_field_spec(old(event).model(), target, self.listing(old(event).model()),
                    self.merge_with_target, self.overwrite_target) {
                    Some(j) => final(event).model() == j
                        && warning_models(final(warnings)@) == warning_models(old(warnings)@),
                    None => final(event).model() == old(event).model()
                        && warning_models(final(warnings)@)
                            == warning_models(old(warnings)@).push(WarningModel::FieldExists(seq![dotted_name(target)])),
                }
            },
    {
        let ghost ev = event.model();
        let ghost fields = views(self.source_fields@);
        let ghost pred = |f: Seq<char>| get_path(ev, dotted_split(f)) is None;
        let mut missing: Vec<String> = Vec::new();
        let mut i: usize = 0;
        assert(fields.subrange(0, 0).filter(pred) =~= Seq::<Seq<char>>::empty());
        while i < self.source_fields.len()
            invariant
                i <= self.source_fields@.len(),
                fields == views(self.source_fields@),
                ev == event.model(),
                pred == (|f: Seq<char>| get_path(ev, dotted_split(f)) is None),
                strictly_sorted(views(missing@)),
                views(missing@).to_set() == fields.subrange(0, i as int).filter(pred).to_set(),
            decreases self.source_fields@.len() - i,
        {
            let ghost pre = fields.subrange(0, i + 1);
            assert(pre.drop_last() =~= fields.subrange(0, i as int));
            assert(pre.last() == self.source_fields@[i as int]@);
            let parts = get_dotted_field_list(self.source_fields[i].as_str());
            let ghost before = views(missing@).to_set();
            if !has_dotted_field(event, parts.as_slice(), true) {
                insert_sorted(&mut missing, self.source_fields[i].clone());
                proof {
                    assert(pre =~= fields.subrange(0, i as int).push(pre.last()));
                    assert(pred(pre.last()));
                    fields.subrange(0, i as int).lemma_filter_push(pre.last(), pred);
                    fields.subrange(0, i as int).filter(pred).lemma_push_to_set_commute(pre.last());
                }
            } else {
                proof {
                    assert(pre =~= fields.subrange(0, i as int).push(pre.last()));
                    assert(!pred(pre.last()));
                    fields.subrange(0, i as int).lemma_filter_push(pre.last(), pred);
                }
            }
            i = i + 1;
        }
        assert(fields.subrange(0, fields.len() as int) =~= fields);
        assert(views(missing@).to_set() == missing_set(ev, fields));
        if missing.len() == 0 {
            assert(views(missing@).to_set() =~= Set::<Seq<char>>::empty());
            return Ok(());
        }
        assert(views(missing@).to_set().contains(views(missing@)[0]));
        let target_parts = get_dotted_field_list(self.target_field.as_str());
        let extra = target_texts(get_at(event, target_parts.as_slice()));
        add_all_sorted(&mut missing, &extra);
        let ghost all = views(missing@);
        proof {
            lemma_sorted_list(all);
            assert(all.to_set() == missing_set(ev, fields).union(target_items(get_path(ev, views(target_parts@)))));
        }
        let mut items: Vec<Value> = Vec::new();
        let mut k: usize = 0;
        while k < missing.len()
            invariant
                k <= missing@.len(),
                all == views(missing@),
                models(items@) == str_items(all.subrange(0, k as int)),
            decreases missing@.len() - k,
        {
            let ghost before = items@;
            items.push(Value::Str(missing[k].clone()));
            proof {
                crate::value::lemma_models_push(before, Value::Str(missing@[k as int]));
                assert(str_items(all.subrange(0, k + 1)) =~= str_items(all.subrange(0, k as int)).push(Json::Str(all[k as int])));
            }
            k = k + 1;
        }
        assert(all.subrange(0, all.len() as int) =~= all);
        let content = Value::Array(items);
        assert(content.model() == self.listing(ev));
        match add_field_to(event, target_parts.as_slice(), &content, self.merge_with_target, self.overwrite_target) {
            Ok(()) => {},
            Err(e) => {
                let ghost before = warnings@;
                warnings.push(SpecWarning::FieldExists { skipped_fields: e.skipped_fields });
                assert(warning_models(warnings@) =~= warning_models(before).push(
                    WarningModel::FieldExists(seq![dotted_name(dotted_split(self.target_field@))])));
            },
        }
        Ok(())
    }
}

} // verus!
