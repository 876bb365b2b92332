use vstd::prelude::*;

verus! {

/// What can go wrong while defining rules or generating text.
#[derive(Debug)]
pub enum CalyxError {
    UndefinedRule { rule_name: String },
    UndefinedFilter { filter_name: String },
    DuplicateRule { rule_name: String },
    ExpandedEmptyBranch,
    InvalidExpression { expression: String },
    InvalidWeight,
    RecursionLimit { rule_name: String },
}

/// Mathematical form of a `CalyxError`.
pub enum Fault {
    UndefinedRule(Seq<char>),
    UndefinedFilter(Seq<char>),
    DuplicateRule(Seq<char>),
    ExpandedEmptyBranch,
    InvalidExpression(Seq<char>),
    InvalidWeight,
    RecursionLimit(Seq<char>),
}

impl View for CalyxError {
    type V = Fault;

    open spec fn view(&self) -> Fault {
        match self {
            CalyxError::UndefinedRule { rule_name } => Fault::UndefinedRule(rule_name@),
            CalyxError::UndefinedFilter { filter_name } => Fault::UndefinedFilter(filter_name@),
            CalyxError::DuplicateRule { rule_name } => Fault::DuplicateRule(rule_name@),
            CalyxError::ExpandedEmptyBranch => Fault::ExpandedEmptyBranch,
            CalyxError::InvalidExpression { expression } => Fault::InvalidExpression(expression@),
            CalyxError::InvalidWeight => Fault::InvalidWeight,
            CalyxError::RecursionLimit { rule_name } => Fault::RecursionLimit(rule_name@),
        }
    }
}

/// The model of a result whose success value is viewed as `T::V`.
pub open spec fn result_view<T: View>(r: Result<T, CalyxError>) -> Result<T::V, Fault> {
    match r {
        Ok(v) => Ok(v@),
        Err(e) => Err(e@),
    }
}

} // verus!
