use crate::branch::{pairs_view, uniform_branch, weighted_branch, Branch, BranchView};
use crate::error::{CalyxError, Fault};
use crate::filter::{builtin_filters, create_builtin_filters, Filter};
use crate::table::Table;
use vstd::prelude::*;

verus! {

/// The rules of a grammar, by name, and the filters by name.
pub struct Registry {
    rules: Table<Branch>,
    filters: Table<Filter>,
    empty_rule: Branch,
}

/// Mathematical form of a `Registry`.
pub struct RegistryView {
    pub rules: Map<Seq<char>, BranchView>,
    pub filters: Map<Seq<char>, Filter>,
}

/// The branch that a reference to `sym` expands: the rule's own, or, for an undefined rule,
/// an undefined-rule fault in strict mode and the empty branch otherwise.
pub open spec fn lookup(reg: RegistryView, strict: bool, sym: Seq<char>) -> Result<BranchView, Fault> {
    if reg.rules.contains_key(sym) {
        Ok(reg.rules[sym])
    } else if strict {
        Err(Fault::UndefinedRule(sym))
    } else {
        Ok(BranchView::Empty)
    }
}

/// The registry after defining `sym` as the branch that `made` gives, or the fault that stops it.
pub open spec fn defined(reg: RegistryView, sym: Seq<char>, made: Result<BranchView, Fault>) -> Result<
    RegistryView,
    Fault,
> {
    if reg.rules.contains_key(sym) {
        Err(Fault::DuplicateRule(sym))
    } else {
        match made {
            Ok(b) => Ok(RegistryView { rules: reg.rules.insert(sym, b), filters: reg.filters }),
            Err(f) => Err(f),
        }
    }
}

/// A definition's outcome: on success the registry becomes `after`; on failure it is unchanged
/// and the error is the fault.
pub open spec fn definition_outcome(
    r: Result<(), CalyxError>,
    before: RegistryView,
    after: RegistryView,
    spec_result: Result<RegistryView, Fault>,
) -> bool {
    match spec_result {
        Ok(v) => r is Ok && after == v,
        Err(f) => r matches Err(e) && e@ == f && after == before,
    }
}

impl View for Registry {
    type V = RegistryView;

    closed spec fn view(&self) -> RegistryView {
        RegistryView { rules: self.rules@.map_values(|b: Branch| b@), filters: self.filters@ }
    }
}

impl Registry {
    /// Well-formed: every stored branch is well-formed.
    pub closed spec fn wf(&self) -> bool {
        &&& forall|k: Seq<char>| #[trigger] self.rules@.contains_key(k) ==> self.rules@[k].wf()
        &&& self.empty_rule is Empty
    }

    /// A registry with no rules and the built-in filters.
    pub fn new() -> (r: Self)
        ensures
            r.wf(),
            r@.rules == Map::<Seq<char>, BranchView>::empty(),
            r@.filters == builtin_filters(),
    {
        let r = Registry {
            rules: Table::new(),
            filters: create_builtin_filters(),
            empty_rule: Branch::Empty,
        };
        assert(r@.rules =~= Map::<Seq<char>, BranchView>::empty());
        r
    }

    fn store(&mut self, symbol: &String, branch: Branch)
        requires
            old(self).wf(),
            branch.wf(),
        ensures
            final(self).wf(),
            final(self)@ == (RegistryView {
                rules: old(self)@.rules.insert(symbol@, branch@),
                filters: old(self)@.filters,
            }),
    {
        let ghost b = branch;
        self.rules.insert(symbol.clone(), branch);
        proof {
            assert(self@.rules =~= old(self)@.rules.insert(symbol@, b@));
            assert forall|k: Seq<char>| #[trigger] self.rules@.contains_key(k) implies self.rules@[
                k
            ].wf() by {
                if k != symbol@ {
                    assert(old(self).rules@.contains_key(k));
                }
            }
        }
    }

    /// Defines `symbol` as a uniform choice among the raw alternatives.
    pub fn define_rule(&mut self, symbol: &String, production: &Vec<String>) -> (r: Result<
        (),
        CalyxError,
    >)
        requires
            old(self).wf(),
        ensures
            final(self).wf(),
            definition_outcome(
                r,
                old(self)@,
                final(self)@,
                defined(old(self)@, symbol@, uniform_branch(production@.map_values(|s: String| s@))),
            ),
    {
        if self.rules.contains(symbol) {
            return Err(CalyxError::DuplicateRule { rule_name: symbol.clone() });
        }
        match Branch::uniform(production) {
            Ok(branch) => {
                self.store(symbol, branch);
                Ok(())
            },
            Err(e) => Err(e),
        }
    }

    /// Defines `symbol` as a weighted choice among the raw alternatives.
    pub fn define_weighted_rule(&mut self, symbol: &String, production: &Vec<(String, u64)>) -> (r:
        Result<(), CalyxError>)
        requires
            old(self).wf(),
        ensures
            final(self).wf(),
            definition_outcome(
                r,
                old(self)@,
                final(self)@,
                defined(old(self)@, symbol@, weighted_branch(pairs_view(production@))),
            ),
    {
        if self.rules.contains(symbol) {
            return Err(CalyxError::DuplicateRule { rule_name: symbol.clone() });
        }
        match Branch::weighted(production) {
            Ok(branch) => {
                self.store(symbol, branch);
                Ok(())
            },
            Err(e) => Err(e),
        }
    }

    /// The branch that a reference to `symbol` expands.
    pub fn expand(&self, symbol: &String, strict: bool) -> (r: Result<&Branch, CalyxError>)
        requires
            self.wf(),
        ensures
            match r {
                Ok(b) => lookup(self@, strict, symbol@) == Ok::<BranchView, Fault>(b@) && b.wf(),
                Err(e) => lookup(self@, strict, symbol@) == Err::<BranchView, Fault>(e@),
            },
    {
        match self.rules.get(symbol) {
            Some(b) => Ok(b),
            None => {
                if strict {
                    Err(CalyxError::UndefinedRule { rule_name: symbol.clone() })
                } else {
                    Ok(&self.empty_rule)
                }
            },
        }
    }

    /// The filter registered under `name`, if any.
    pub fn get_filter(&self, name: &String) -> (r: Option<Filter>)
        ensures
            match r {
                Some(f) => self@.filters.contains_key(name@) && self@.filters[name@] == f,
                None => !self@.filters.contains_key(name@),
            },
    {
        match self.filters.get(name) {
            Some(f) => Some(*f),
            None => None,
        }
    }
}

} // verus!
