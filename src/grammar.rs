use crate::branch::{pairs_view, uniform_branch, weighted_branch};
use crate::error::{result_view, CalyxError};
use crate::evaluation::{drawn_since, env_of, EvaluationContext};
use crate::expansion_tree::{ExpansionTree, ExpansionType};
use crate::random::{draw_valid, draws_valid, seeded_rng, try_os_seeded_rng, Draw};
use crate::registry::{defined, definition_outcome, Registry, RegistryView};
use crate::semantics::{eval_symbol, fresh_state, generation, Env, Outcome};
use rand::rngs::StdRng;
use vstd::prelude::*;

verus! {

/// The deepest nesting of rule expansions that a generation follows by default: no limit
/// short of the machine's. A lower limit is opt-in, through `Options::with_max_depth`.
pub const DEFAULT_MAX_DEPTH: usize = usize::MAX;

/// The seed that `Grammar::new` falls back on where the operating system supplies no entropy.
pub const FALLBACK_SEED: u64 = 0;

/// How a grammar generates: strict or lenient about undefined rules, how deep it may
/// recurse, and its random source.
pub struct Options {
    strict: bool,
    max_depth: usize,
    random_source: StdRng,
}

impl Options {
    pub closed spec fn spec_strict(&self) -> bool {
        self.strict
    }

    pub closed spec fn spec_max_depth(&self) -> nat {
        self.max_depth as nat
    }

    /// Options with the given mode and random source.
    pub fn new(strict: bool, random_source: StdRng) -> (r: Options)
        ensures
            r.spec_strict() == strict,
            r.spec_max_depth() == DEFAULT_MAX_DEPTH,
    {
        Options { strict, max_depth: DEFAULT_MAX_DEPTH, random_source }
    }

    /// Lenient options: undefined rules expand to empty text.
    pub fn new_lenient(random_source: StdRng) -> (r: Options)
        ensures
            !r.spec_strict(),
            r.spec_max_depth() == DEFAULT_MAX_DEPTH,
    {
        Options { strict: false, max_depth: DEFAULT_MAX_DEPTH, random_source }
    }

    /// These options with another limit on the nesting of rule expansions.
    pub fn with_max_depth(self, max_depth: usize) -> (r: Options)
        ensures
            r.spec_strict() == self.spec_strict(),
            r.spec_max_depth() == max_depth,
    {
        Options { strict: self.strict, max_depth, random_source: self.random_source }
    }

    /// Whether an undefined rule is an error.
    pub fn strict(&self) -> (r: bool)
        ensures
            r == self.spec_strict(),
    {
        self.strict
    }

    /// The deepest nesting of rule expansions followed.
    pub fn max_depth(&self) -> (r: usize)
        ensures
            r == self.spec_max_depth(),
    {
        self.max_depth
    }
}

/// A set of rules with the options to generate text from them.
pub struct Grammar {
    registry: Registry,
    options: Options,
    drawn: Ghost<Seq<Draw>>,
}

impl Grammar {
    /// The rules and filters.
    pub closed spec fn rules(&self) -> RegistryView {
        self.registry@
    }

    pub closed spec fn spec_options(&self) -> &Options {
        &self.options
    }

    /// Every draw made by the generations so far, in order.
    pub closed spec fn history(&self) -> Seq<Draw> {
        self.drawn@
    }

    pub closed spec fn wf(&self) -> bool {
        self.registry.wf() && draws_valid(self.drawn@)
    }

    /// The environment that generations of this grammar run in.
    pub open spec fn env(&self) -> Env {
        Env { reg: self.rules(), strict: self.spec_options().spec_strict() }
    }

    /// A strict grammar without rules, with a random source seeded by the operating system, or
    /// `None` where the operating system could not supply entropy.
    pub fn try_new() -> (r: Option<Grammar>)
        ensures
            r matches Some(g) ==> {
                &&& g.wf()
                &&& g.rules().rules == Map::<Seq<char>, crate::branch::BranchView>::empty()
                &&& g.rules().filters == crate::filter::builtin_filters()
                &&& g.spec_options().spec_strict()
                &&& g.spec_options().spec_max_depth() == DEFAULT_MAX_DEPTH
                &&& g.history() == Seq::<Draw>::empty()
            },
    {
        match try_os_seeded_rng() {
            Some(rng) => Some(Grammar::from_rng(rng)),
            None => None,
        }
    }

    /// A strict grammar without rules, with a random source seeded by the operating system;
    /// where the operating system supplies no entropy, the source is seeded by `FALLBACK_SEED`.
    pub fn new() -> (r: Grammar)
        ensures
            r.wf(),
            r.rules().rules == Map::<Seq<char>, crate::branch::BranchView>::empty(),
            r.rules().filters == crate::filter::builtin_filters(),
            r.spec_options().spec_strict(),
            r.spec_options().spec_max_depth() == DEFAULT_MAX_DEPTH,
            r.history() == Seq::<Draw>::empty(),
    {
        let rng = match try_os_seeded_rng() {
            Some(rng) => rng,
            None => seeded_rng(FALLBACK_SEED),
        };
        Grammar::from_rng(rng)
    }

    /// A strict grammar without rules that draws from `rng`.
    pub fn from_rng(rng: StdRng) -> (r: Grammar)
        ensures
            r.wf(),
            r.rules().rules == Map::<Seq<char>, crate::branch::BranchView>::empty(),
            r.rules().filters == crate::filter::builtin_filters(),
            r.spec_options().spec_strict(),
            r.spec_options().spec_max_depth() == DEFAULT_MAX_DEPTH,
            r.history() == Seq::<Draw>::empty(),
    {
        Grammar::from_options(Options::new(true, rng))
    }

    /// A grammar without rules and with the given options.
    pub fn from_options(options: Options) -> (r: Grammar)
        ensures
            r.wf(),
            r.rules().rules == Map::<Seq<char>, crate::branch::BranchView>::empty(),
            r.rules().filters == crate::filter::builtin_filters(),
            r.spec_options() == options,
            r.history() == Seq::<Draw>::empty(),
    {
        Grammar { registry: Registry::new(), options, drawn: Ghost(Seq::empty()) }
    }

    /// The options.
    pub fn options(&self) -> (r: &Options)
        ensures
            r == self.spec_options(),
    {
        &self.options
    }

    /// Defines `term` as a uniform choice among the raw alternatives.
    pub fn uniform_rule(&mut self, term: String, production: &Vec<String>) -> (r: Result<
        (),
        CalyxError,
    >)
        requires
            old(self).wf(),
        ensures
            final(self).wf(),
            final(self).spec_options() == old(self).spec_options(),
            final(self).history() == old(self).history(),
            definition_outcome(
                r,
                old(self).rules(),
                final(self).rules(),
                defined(old(self).rules(), term@, uniform_branch(production@.map_values(|s: String| s@))),
            ),
    {
        self.registry.define_rule(&term, production)
    }

    /// Defines `term` as a weighted choice among the raw alternatives; a weight of zero, no
    /// alternative at all, or weights whose sum passes `u64::MAX` are invalid.
    pub fn weighted_rule(&mut self, term: String, production: &Vec<(String, u64)>) -> (r: Result<
        (),
        CalyxError,
    >)
        requires
            old(self).wf(),
        ensures
            final(self).wf(),
            final(self).spec_options() == old(self).spec_options(),
            final(self).history() == old(self).history(),
            definition_outcome(
                r,
                old(self).rules(),
                final(self).rules(),
                defined(old(self).rules(), term@, weighted_branch(pairs_view(production@))),
            ),
    {
        self.registry.define_weighted_rule(&term, production)
    }

    /// Defines `term` with a single alternative.
    pub fn single_rule(&mut self, term: String, production: String) -> (r: Result<(), CalyxError>)
        requires
            old(self).wf(),
        ensures
            final(self).wf(),
            final(self).spec_options() == old(self).spec_options(),
            final(self).history() == old(self).history(),
            definition_outcome(
                r,
                old(self).rules(),
                final(self).rules(),
                defined(old(self).rules(), term@, uniform_branch(seq![production@])),
            ),
    {
        let branch = vec![production];
        proof {
            assert(branch@.map_values(|s: String| s@) =~= seq![production@]);
        }
        self.registry.define_rule(&term, &branch)
    }

    /// Defines the rule `start` with a single alternative.
    pub fn start_single(&mut self, production: String) -> (r: Result<(), CalyxError>)
        requires
            old(self).wf(),
        ensures
            final(self).wf(),
            final(self).spec_options() == old(self).spec_options(),
            final(self).history() == old(self).history(),
            definition_outcome(
                r,
                old(self).rules(),
                final(self).rules(),
                defined(old(self).rules(), "start"@, uniform_branch(seq![production@])),
            ),
    {
        self.single_rule(String::from_str("start"), production)
    }

    /// Defines the rule `start` as a uniform choice among the raw alternatives.
    pub fn start_uniform(&mut self, production: &Vec<String>) -> (r: Result<(), CalyxError>)
        requires
            old(self).wf(),
        ensures
            final(self).wf(),
            final(self).spec_options() == old(self).spec_options(),
            final(self).history() == old(self).history(),
            definition_outcome(
                r,
                old(self).rules(),
                final(self).rules(),
                defined(
                    old(self).rules(),
                    "start"@,
                    uniform_branch(production@.map_values(|s: String| s@)),
                ),
            ),
    {
        self.uniform_rule(String::from_str("start"), production)
    }

    /// Generates text from the rule `start`.
    pub fn generate(&mut self) -> (r: Result<ExpansionTree, CalyxError>)
        requires
            old(self).wf(),
        ensures
            final(self).wf(),
            final(self).rules() == old(self).rules(),
            final(self).spec_options().spec_strict() == old(self).spec_options().spec_strict(),
            final(self).spec_options().spec_max_depth() == old(self).spec_options().spec_max_depth(),
            old(self).history().len() <= final(self).history().len(),
            final(self).history().take(old(self).history().len() as int) == old(self).history(),
            draws_valid(final(self).history().skip(old(self).history().len() as int)),
            result_view(r) == generation(
                old(self).env(),
                "start"@,
                final(self).history().skip(old(self).history().len() as int),
                old(self).spec_options().spec_max_depth(),
            ),
    {
        self.generate_from(&String::from_str("start"))
    }

    /// Generates text from the rule `start_symbol`, with a fresh memo and fresh cycles. The
    /// result is what the evaluation rules give for the draws this call made.
    pub fn generate_from(&mut self, start_symbol: &String) -> (r: Result<ExpansionTree, CalyxError>)
        requires
            old(self).wf(),
        ensures
            final(self).wf(),
            final(self).rules() == old(self).rules(),
            final(self).spec_options().spec_strict() == old(self).spec_options().spec_strict(),
            final(self).spec_options().spec_max_depth() == old(self).spec_options().spec_max_depth(),
            old(self).history().len() <= final(self).history().len(),
            final(self).history().take(old(self).history().len() as int) == old(self).history(),
            draws_valid(final(self).history().skip(old(self).history().len() as int)),
            result_view(r) == generation(
                old(self).env(),
                start_symbol@,
                final(self).history().skip(old(self).history().len() as int),
                old(self).spec_options().spec_max_depth(),
            ),
    {
        let mut eval_context = EvaluationContext::new();
        let ghost c0 = eval_context;
        let tree = eval_context.expand_and_evaluate(
            &self.registry,
            self.options.strict,
            &mut self.options.random_source,
            start_symbol,
            self.options.max_depth,
        );
        let ghost made = eval_context.drawn();
        proof {
            assert(drawn_since(c0, eval_context) =~= made);
            assert(made + Seq::<Draw>::empty() =~= made);
            assert(eval_symbol(
                env_of(&self.registry, self.options.strict),
                start_symbol@,
                fresh_state(),
                made + Seq::<Draw>::empty(),
                self.options.max_depth as nat,
            ).result == result_view(tree));
            let old_drawn = self.drawn@;
            self.drawn = Ghost(old_drawn + made);
            assert((old_drawn + made).skip(old_drawn.len() as int) =~= made);
            assert((old_drawn + made).take(old_drawn.len() as int) =~= old_drawn);
            assert forall|i: int| 0 <= i < (old_drawn + made).len() implies draw_valid(
                #[trigger] (old_drawn + made)[i],
            ) by {
                if i >= old_drawn.len() {
                    assert((old_drawn + made)[i] == made[i - old_drawn.len()]);
                }
            }
        }
        match tree {
            Ok(t) => Ok(ExpansionTree::chain(ExpansionType::Result, t)),
            Err(e) => Err(e),
        }
    }
}

} // verus!
