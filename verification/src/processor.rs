//! Applying matched rules to events: the rule specifications that change an
//! event, the helpers they are built from, and the decisions of the run that
//! applies all matching rules to one event.
pub mod generic_adder;
pub mod key_checker;
pub mod run;
pub mod spec_helper;

use vstd::prelude::*;
use crate::value::Value;

verus! {

/// A warning a rule specification reports while changing an event.
pub enum SpecWarning {
    /// A general warning.
    Warning { message: String },
    /// Fields that could not be written.
    FieldExists { skipped_fields: Vec<String> },
}

/// An error that stops a rule specification.
pub enum SpecError {
    Critical { message: String },
}

/// Mathematical model of a [`SpecWarning`].
pub enum WarningModel {
    Warning(Seq<char>),
    FieldExists(Seq<Seq<char>>),
}

impl SpecWarning {
    pub open spec fn model(self) -> WarningModel {
        match self {
            SpecWarning::Warning { message } => WarningModel::Warning(message@),
            SpecWarning::FieldExists { skipped_fields } => WarningModel::FieldExists(crate::field::views(skipped_fields@)),
        }
    }
}

pub open spec fn warning_models(s: Seq<SpecWarning>) -> Seq<WarningModel> {
    Seq::new(s.len(), |i: int| s[i].model())
}

/// How a matched rule changes an event.
pub trait RuleSpec {
    /// The name of the processor the specification belongs to.
    fn processor_name(&self) -> &'static str;

    /// Applies the rule to the event, adding any warnings.
    fn apply(&self, event: &mut Value, warnings: &mut Vec<SpecWarning>) -> Result<(), SpecError>;
}

} // verus!
