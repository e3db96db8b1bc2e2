//! Generic adder: writes configured fields into an event.
use vstd::prelude::*;
use crate::field::{add_each, add_fields_to, kept_fields};
use crate::processor::{warning_models, RuleSpec, SpecError, SpecWarning, WarningModel};
use crate::value::{entry_models, Value};

verus! {

/// A generic adder rule: the fields to add, by dotted name, in order.
pub struct GenericAdderRuleSpec {
    pub merge_with_target: bool,
    pub overwrite_target: bool,
    pub additions: Vec<(String, Value)>,
}

impl RuleSpec for GenericAdderRuleSpec {
    fn processor_name(&self) -> (r: &'static str)
        ensures
            r@ == "generic_adder"@,
    {
        "generic_adder"
    }

    /// Writes each addition (`null` values included); the fields that could
    /// not be written are reported in one warning.
    fn apply(&self, event: &mut Value, warnings: &mut Vec<SpecWarning>) -> (r: Result<(), SpecError>)
        ensures
            r is Ok,
            ({
                let res = add_each(old(event).model(), kept_fields(entry_models(self.additions@), false),
                    self.merge_with_target, self.overwrite_target);
                &&& final(event).model() == res.0
                &&& warning_models(final(warnings)@) == if res.1.len() == 0 {
                    warning_models(old(warnings)@)
                } else {
                    warning_models(old(warnings)@).push(WarningModel::FieldExists(res.1))
                }
            }),
    {
        if self.additions.len() == 0 {
            assert(entry_models(self.additions@) =~= Seq::empty());
            assert(kept_fields(entry_models(self.additions@), false) =~= Seq::empty());
            return Ok(());
        }
        match add_fields_to(event, self.additions.as_slice(), self.merge_with_target, self.overwrite_target, false) {
            Ok(()) => {},
            Err(e) => {
                let ghost before = warnings@;
                warnings.push(SpecWarning::FieldExists { skipped_fields: e.skipped_fields });
                assert(warning_models(warnings@) =~= warning_models(before).push(
                    WarningModel::FieldExists(crate::field::views(e.skipped_fields@))));
            },
        }
        Ok(())
    }
}

} // verus!
