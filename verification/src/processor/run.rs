//! The decisions of processing one event: which matched rules to apply and
//! when to match again, which rules match when the rule tree is bypassed,
//! the tags a failed rule leaves, and the source fields removed afterwards.
use vstd::prelude::*;
use crate::field::{dotted_split, get_dotted_field_list, pop_dotted_field_value, views};
use crate::field::pop_drop_spec;
use crate::filter::expression::{expr_matches, facts_view, FilterExpressionInner, FloatFacts};
use crate::sorted::{insert_all_sorted, strictly_sorted};
use crate::value::{Json, Value};

verus! {

/// The ids of `matched` that were not applied yet, in order.
pub open spec fn not_applied(matched: Seq<u64>, applied: Seq<u64>) -> Seq<u64> {
    matched.filter(|id: u64| !applied.contains(id))
}

/// What the processing of an event does next.
pub enum CoreStep {
    /// Apply the rule with this id.
    Apply(u64),
    /// Match the changed event against the rules again and hand the result
    /// to [`CoreRun::rematched`].
    Rematch,
    /// Processing is finished.
    Done,
}

/// The state of processing one event: the rules applied so far, in order,
/// and those of the current batch still to apply.
pub struct CoreRun {
    apply_multiple_times: bool,
    bypass_rule_tree: bool,
    applied: Vec<u64>,
    batch: Vec<u64>,
    next: usize,
}

impl CoreRun {
    /// The rules applied so far, in order (the outcome's matched rule ids).
    pub closed spec fn applied_view(self) -> Seq<u64> {
        self.applied@
    }

    /// The rules of the current batch still to apply.
    pub closed spec fn pending_view(self) -> Seq<u64> {
        self.batch@.subrange(self.next as int, self.batch@.len() as int)
    }

    /// Whether the current batch held any rule.
    pub closed spec fn batch_nonempty(self) -> bool {
        self.batch@.len() > 0
    }

    /// Whether processing goes on with a new match after a batch.
    pub closed spec fn repeats(self) -> bool {
        self.apply_multiple_times && !self.bypass_rule_tree
    }

    /// The rules applied so far and those still to apply hold no repeats.
    pub closed spec fn distinct(self) -> bool {
        (self.applied@ + self.pending_view()).no_duplicates()
    }

    pub closed spec fn wf(self) -> bool {
        self.next <= self.batch@.len()
    }

    /// Starts processing with the rules that match the event.
    pub fn start(apply_multiple_times: bool, bypass_rule_tree: bool, matched: &Vec<u64>) -> (r: CoreRun)
        ensures
            r.wf(),
            r.applied_view() == Seq::<u64>::empty(),
            r.pending_view() == matched@,
            r.batch_nonempty() == (matched@.len() > 0),
            r.repeats() == (apply_multiple_times && !bypass_rule_tree),
            matched@.no_duplicates() ==> r.distinct(),
    {
        let r = CoreRun {
            apply_multiple_times,
            bypass_rule_tree,
            applied: Vec::new(),
            batch: matched.clone(),
            next: 0,
        };
        assert(r.batch@.subrange(0, r.batch@.len() as int) =~= matched@);
        assert(r.applied@ + r.pending_view() =~= matched@);
        r
    }

    /// The next step: the next rule of the batch; after a non-empty batch a
    /// new match when rules are applied repeatedly; otherwise the end.
    pub fn step(&mut self) -> (r: CoreStep)
        requires
            old(self).wf(),
        ensures
            final(self).wf(),
            final(self).repeats() == old(self).repeats(),
            final(self).batch_nonempty() == old(self).batch_nonempty(),
            old(self).distinct() ==> final(self).distinct(),
            old(self).pending_view().len() > 0 ==> {
                &&& r == CoreStep::Apply(old(self).pending_view()[0])
                &&& final(self).applied_view() == old(self).applied_view().push(old(self).pending_view()[0])
                &&& final(self).pending_view() == old(self).pending_view().drop_first()
            },
            old(self).pending_view().len() == 0 ==> {
                &&& r == (if old(self).batch_nonempty() && old(self).repeats() { CoreStep::Rematch } else { CoreStep::Done })
                &&& final(self).applied_view() == old(self).applied_view()
                &&& final(self).pending_view() == old(self).pending_view()
            },
    {
        if self.next < self.batch.len() {
            let id = self.batch[self.next];
            self.applied.push(id);
            self.next = self.next + 1;
            assert(self.batch@.subrange(self.next as int, self.batch@.len() as int)
                =~= old(self).batch@.subrange(old(self).next as int, old(self).batch@.len() as int).drop_first());
            assert(self.applied@ + self.pending_view() =~= old(self).applied@ + old(self).pending_view());
            CoreStep::Apply(id)
        } else if self.batch.len() > 0 && self.apply_multiple_times && !self.bypass_rule_tree {
            CoreStep::Rematch
        } else {
            CoreStep::Done
        }
    }

    /// Takes the rules that match the changed event: the batch becomes
    /// those not applied yet.
    pub fn rematched(&mut self, matched: &Vec<u64>)
        requires
            old(self).wf(),
        ensures
            final(self).wf(),
            final(self).applied_view() == old(self).applied_view(),
            final(self).pending_view() == not_applied(matched@, old(self).applied_view()),
            final(self).batch_nonempty() == (not_applied(matched@, old(self).applied_view()).len() > 0),
            final(self).repeats() == old(self).repeats(),
            old(self).distinct() && matched@.no_duplicates() ==> final(self).distinct(),
    {
        let ghost applied = self.applied@;
        proof {
            if old(self).distinct() {
                let all = self.applied@ + self.pending_view();
                assert forall|i: int, j: int| 0 <= i < applied.len() && 0 <= j < applied.len() && i != j
                    implies applied[i] != applied[j] by {
                    assert(all[i] == applied[i] && all[j] == applied[j]);
                }
            }
        }
        let ghost pred = |id: u64| !applied.contains(id);
        let mut batch: Vec<u64> = Vec::new();
        let mut i: usize = 0;
        assert(matched@.subrange(0, 0).filter(pred) =~= Seq::<u64>::empty());
        while i < matched.len()
            invariant
                i <= matched@.len(),
                applied == self.applied@,
                pred == (|id: u64| !applied.contains(id)),
                batch@ == matched@.subrange(0, i as int).filter(pred),
            decreases matched@.len() - i,
        {
            let ghost pre = matched@.subrange(0, i + 1);
            assert(pre =~= matched@.subrange(0, i as int).push(matched@[i as int]));
            proof { matched@.subrange(0, i as int).lemma_filter_push(matched@[i as int], pred); }
            let id = matched[i];
            if !contains_u64(&self.applied, id) {
                batch.push(id);
            }
            i = i + 1;
        }
        assert(matched@.subrange(0, matched@.len() as int) =~= matched@);
        self.batch = batch;
        self.next = 0;
        assert(self.batch@.subrange(0, self.batch@.len() as int) =~= self.batch@);
        proof {
            if old(self).distinct() && matched@.no_duplicates() {
                lemma_batch_keeps_applied_unique(applied, matched@);
            }
        }
    }

    /// The rules applied so far, in order.
    pub fn matched_rule_ids(&self) -> (r: Vec<u64>)
        ensures
            r@ == self.applied_view(),
    {
        self.applied.clone()
    }
}

fn contains_u64(v: &Vec<u64>, id: u64) -> (r: bool)
    ensures
        r == v@.contains(id),
{
    let mut i: usize = 0;
    while i < v.len()
        invariant
            i <= v@.len(),
            forall|j: int| 0 <= j < i ==> v@[j] != id,
        decreases v@.len() - i,
    {
        if v[i] == id {
            assert(v@[i as int] == id);
            return true;
        }
        i = i + 1;
    }
    false
}

/// Law: over a whole run whose matches each hand in distinct rules (as the
/// rule tree's do), no rule is applied twice.
pub proof fn lemma_run_applies_each_once(run: CoreRun)
    requires
        run.distinct(),
    ensures
        run.applied_view().no_duplicates(),
{
    let all = run.applied@ + run.pending_view();
    assert forall|i: int, j: int| 0 <= i < run.applied@.len() && 0 <= j < run.applied@.len() && i != j
        implies run.applied@[i] != run.applied@[j] by {
        assert(all[i] == run.applied@[i] && all[j] == run.applied@[j]);
    }
}

/// When each match hands in distinct rules, no rule is applied twice: the
/// rules applied so far followed by a new batch hold no repeats.
pub proof fn lemma_batch_keeps_applied_unique(applied: Seq<u64>, matched: Seq<u64>)
    requires
        applied.no_duplicates(),
        matched.no_duplicates(),
    ensures
        (applied + not_applied(matched, applied)).no_duplicates(),
{
    let b = not_applied(matched, applied);
    let pred = |id: u64| !applied.contains(id);
    assert forall|k: int| 0 <= k < b.len() implies #[trigger] pred(b[k]) && matched.contains(b[k]) by {
        matched.lemma_filter_contains_rev(pred, b[k]);
        assert(b.contains(b[k]));
    }
    lemma_filter_no_duplicates(matched, pred);
    let s = applied + b;
    assert forall|i: int, j: int| 0 <= i < s.len() && 0 <= j < s.len() && i != j implies s[i] != s[j] by {
        if i < applied.len() && j >= applied.len() {
            assert(pred(b[j - applied.len()]));
            assert(applied.contains(s[i]));
        } else if j < applied.len() && i >= applied.len() {
            assert(pred(b[i - applied.len()]));
            assert(applied.contains(s[j]));
        }
    }
}

proof fn lemma_filter_no_duplicates(s: Seq<u64>, pred: spec_fn(u64) -> bool)
    requires
        s.no_duplicates(),
    ensures
        s.filter(pred).no_duplicates(),
    decreases s.len(),
{
    if s.len() > 0 {
        let t = s.drop_last();
        assert(s =~= t.push(s.last()));
        assert(t.no_duplicates());
        lemma_filter_no_duplicates(t, pred);
        t.lemma_filter_push(s.last(), pred);
        if pred(s.last()) {
            if t.filter(pred).contains(s.last()) {
                t.lemma_filter_contains_rev(pred, s.last());
                let k = choose|k: int| 0 <= k < t.len() && t[k] == s.last();
                assert(s[k] == s[s.len() - 1]);
            }
        }
    }
}

/// The rules whose filter matches the event, in the order given (used
/// when the rule tree is bypassed; a rule without a filter never matches).
pub fn bypass_matches(rules: &Vec<(u64, Option<FilterExpressionInner>)>, event: &Value, facts: &FloatFacts) -> (r: Vec<u64>)
    ensures
        r@ == rules@.filter(|rule: (u64, Option<FilterExpressionInner>)|
            rule.1 matches Some(f) && expr_matches(f.model(), event.model(), facts_view(*facts))).map_values(
            |rule: (u64, Option<FilterExpressionInner>)| rule.0),
{
    let ghost pred = |rule: (u64, Option<FilterExpressionInner>)|
        rule.1 matches Some(f) && expr_matches(f.model(), event.model(), facts_view(*facts));
    let ghost id_of = |rule: (u64, Option<FilterExpressionInner>)| rule.0;
    let mut out: Vec<u64> = Vec::new();
    let mut i: usize = 0;
    assert(rules@.subrange(0, 0).filter(pred).map_values(id_of) =~= Seq::<u64>::empty());
    while i < rules.len()
        invariant
            i <= rules@.len(),
            pred == (|rule: (u64, Option<FilterExpressionInner>)|
                rule.1 matches Some(f) && expr_matches(f.model(), event.model(), facts_view(*facts))),
            id_of == (|rule: (u64, Option<FilterExpressionInner>)| rule.0),
            out@ == rules@.subrange(0, i as int).filter(pred).map_values(id_of),
        decreases rules@.len() - i,
    {
        let ghost pre = rules@.subrange(0, i + 1);
        assert(pre =~= rules@.subrange(0, i as int).push(rules@[i as int]));
        proof { rules@.subrange(0, i as int).lemma_filter_push(rules@[i as int], pred); }
        let hit = match &rules[i].1 {
            Some(f) => f.matches(event, facts),
            None => false,
        };
        assert(hit == pred(rules@[i as int]));
        if hit {
            let ghost before = out@;
            out.push(rules[i].0);
            assert(rules@.subrange(0, i as int).filter(pred).push(rules@[i as int]).map_values(id_of)
                =~= before.push(rules@[i as int].0));
        }
        i = i + 1;
    }
    assert(rules@.subrange(0, rules@.len() as int) =~= rules@);
    out
}

/// The event after removing each field (and the parents left empty), in order.
pub open spec fn deleted(j: Json, fields: Seq<Seq<char>>) -> Json
    decreases fields.len(),
{
    if fields.len() == 0 {
        j
    } else {
        pop_drop_spec(deleted(j, fields.drop_last()), dotted_split(fields.last())).0
    }
}

/// Removes the rule's source fields from the event, dropping parents left
/// empty.
pub fn delete_source_fields(event: &mut Value, source_fields: &Vec<String>)
    ensures
        final(event).model() == deleted(old(event).model(), views(source_fields@)),
{
    let ghost start = event.model();
    let ghost fs = views(source_fields@);
    let mut i: usize = 0;
    while i < source_fields.len()
        invariant
            i <= source_fields@.len(),
            fs == views(source_fields@),
            event.model() == deleted(start, fs.subrange(0, i as int)),
        decreases source_fields@.len() - i,
    {
        let ghost pre = fs.subrange(0, i + 1);
        assert(pre.drop_last() =~= fs.subrange(0, i as int));
        let parts = get_dotted_field_list(source_fields[i].as_str());
        let _ = pop_dotted_field_value(event, parts.as_slice(), true);
        i = i + 1;
    }
    assert(fs.subrange(0, fs.len() as int) =~= fs);
}

/// The tags an event holds: a list's strings, a single string, or another
/// value by its display text `display` (which the caller supplies).
pub fn current_tags(tags: Option<&Value>, display: &str) -> (r: Vec<String>)
    ensures
        views(r@) == (match crate::field::opt_model(tags) {
            None => Seq::<Seq<char>>::empty(),
            Some(Json::Array(items)) => items.filter(|v: Json| v is Str).map_values(|v: Json| v->Str_0),
            Some(Json::Str(s)) => seq![s],
            Some(_) => seq![display@],
        }),
{
    match tags {
        None => {
            let r: Vec<String> = Vec::new();
            assert(views(r@) =~= Seq::<Seq<char>>::empty());
            r
        },
        Some(Value::Array(items)) => {
            let ghost ms = crate::value::models(items@);
            let ghost is_str = |v: Json| v is Str;
            let ghost text = |v: Json| v->Str_0;
            proof { crate::value::lemma_models(items@); }
            let mut out: Vec<String> = Vec::new();
            let mut i: usize = 0;
            assert(ms.subrange(0, 0).filter(is_str).map_values(text) =~= Seq::<Seq<char>>::empty());
            while i < items.len()
                invariant
                    i <= items@.len(),
                    ms == crate::value::models(items@),
                    ms.len() == items@.len(),
                    forall|k: int| 0 <= k < items@.len() ==> #[trigger] ms[k] == items@[k].model(),
                    is_str == (|v: Json| v is Str),
                    text == (|v: Json| v->Str_0),
                    views(out@) == ms.subrange(0, i as int).filter(is_str).map_values(text),
                decreases items@.len() - i,
            {
                let ghost pre = ms.subrange(0, i + 1);
                assert(pre =~= ms.subrange(0, i as int).push(ms[i as int]));
                proof { ms.subrange(0, i as int).lemma_filter_push(ms[i as int], is_str); }
                match &items[i] {
                    Value::Str(s) => {
                        let ghost before = views(out@);
                        out.push(s.clone());
                        assert(views(out@) =~= before.push(s@));
                        assert(ms.subrange(0, i as int).filter(is_str).push(ms[i as int]).map_values(text)
                            =~= before.push(s@));
                    },
                    _ => {},
                }
                i = i + 1;
            }
            assert(ms.subrange(0, ms.len() as int) =~= ms);
            out
        },
        Some(Value::Str(s)) => {
            let mut r: Vec<String> = Vec::new();
            r.push(s.clone());
            assert(views(r@) =~= seq![s@]);
            r
        },
        Some(_) => {
            let mut r: Vec<String> = Vec::new();
            r.push(crate::text::string_of(crate::text::chars_of(display).as_slice()));
            assert(views(r@) =~= seq![display@]);
            r
        },
    }
}

/// The tags after a rule failed: the event's tags, the rule's failure tags
/// and the tags the error carries, ascending and without repeats.
pub fn merged_tags(current: &Vec<String>, failure_tags: &Vec<String>, error_tags: &Vec<String>) -> (r: Vec<String>)
    ensures
        strictly_sorted(views(r@)),
        views(r@).to_set() == views(current@).to_set().union(views(failure_tags@).to_set()).union(views(error_tags@).to_set()),
{
    let mut out: Vec<String> = Vec::new();
    assert(views(out@).to_set() =~= Set::<Seq<char>>::empty());
    insert_all_sorted(&mut out, current);
    insert_all_sorted(&mut out, failure_tags);
    insert_all_sorted(&mut out, error_tags);
    assert(views(out@).to_set() =~= views(current@).to_set().union(views(failure_tags@).to_set()).union(views(error_tags@).to_set()));
    out
}

} // verus!
