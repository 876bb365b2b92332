use crate::branch::{weighted_index, Branch};
use crate::error::{result_view, CalyxError};
use crate::expansion_tree::{ExpansionTree, ExpansionType};
use crate::random::{draw_below, draw_valid, draws_valid, index_range, is_ordering, shuffle, Draw};
use crate::registry::Registry;
use crate::semantics::{
    apply_filters,
    eval_at,
    eval_branch,
    eval_memo,
    eval_node,
    eval_nodes,
    eval_ref,
    eval_symbol,
    eval_template,
    eval_unique,
    fresh_state,
    CycleView,
    Env,
    EvalState,
    Outcome,
};
use crate::table::Table;
use crate::template::{texts_of, Node, NodeView, RefMode, TemplateNode};
use rand::rngs::StdRng;
use vstd::prelude::*;

verus! {

/// Where a unique reference stands in its current ordering of a rule's alternatives.
pub struct CycleState {
    order: Vec<usize>,
    next: usize,
}

impl View for CycleState {
    type V = CycleView;

    closed spec fn view(&self) -> CycleView {
        CycleView { order: self.order@, next: self.next as nat }
    }
}

/// The state of one generation: memoised expansions, unique cycles, and, as ghost state, the
/// draws made so far.
pub struct EvaluationContext {
    memo: Table<ExpansionTree>,
    cycles: Table<CycleState>,
    drawn: Ghost<Seq<Draw>>,
}

/// The environment that a registry and a mode give.
pub open spec fn env_of(reg: &Registry, strict: bool) -> Env {
    Env { reg: reg@, strict }
}

/// `b` is a later state of the context `a`: it has drawn what `a` had drawn, and maybe more.
pub open spec fn continues(a: EvaluationContext, b: EvaluationContext) -> bool {
    &&& a.drawn().len() <= b.drawn().len()
    &&& b.drawn().take(a.drawn().len() as int) == a.drawn()
    &&& b.wf()
}

/// The first of the draws `d` is a number below `bound`, drawn under that bound.
pub open spec fn first_pick_below(d: Seq<Draw>, bound: nat) -> bool {
    &&& d.len() > 0
    &&& match d[0] {
        Draw::Pick(v, b) => b == bound && v < bound,
        Draw::Order(_) => false,
    }
}

/// The draws made between the contexts `a` and `b`.
pub open spec fn drawn_since(a: EvaluationContext, b: EvaluationContext) -> Seq<Draw> {
    b.drawn().skip(a.drawn().len() as int)
}

proof fn lemma_continues_trans(a: EvaluationContext, b: EvaluationContext, c: EvaluationContext)
    requires
        continues(a, b),
        continues(b, c),
    ensures
        continues(a, c),
        drawn_since(a, c) == drawn_since(a, b) + drawn_since(b, c),
{
    assert(c.drawn().take(b.drawn().len() as int).take(a.drawn().len() as int) =~= c.drawn().take(
        a.drawn().len() as int,
    ));
    assert(drawn_since(a, c) =~= drawn_since(a, b) + drawn_since(b, c)) by {
        assert(c.drawn().take(b.drawn().len() as int).skip(a.drawn().len() as int) =~= b.drawn().skip(
            a.drawn().len() as int,
        ));
    }
}

proof fn lemma_no_draws(a: EvaluationContext, rest: Seq<Draw>)
    ensures
        drawn_since(a, a) + rest == rest,
{
    assert(drawn_since(a, a) + rest =~= rest);
}

proof fn lemma_continues_refl(a: EvaluationContext)
    requires
        a.wf(),
    ensures
        continues(a, a),
{
    assert(a.drawn().take(a.drawn().len() as int) =~= a.drawn());
}

proof fn lemma_nodes_fail_stays(
    env: Env,
    nodes: Seq<NodeView>,
    j: nat,
    k: nat,
    st: EvalState,
    d: Seq<Draw>,
    fuel: nat,
)
    requires
        j <= k,
        eval_nodes(env, nodes, j, st, d, fuel).result is Err,
    ensures
        eval_nodes(env, nodes, k, st, d, fuel) == eval_nodes(env, nodes, j, st, d, fuel),
    decreases k,
{
    if k > j {
        lemma_nodes_fail_stays(env, nodes, j, (k - 1) as nat, st, d, fuel);
    }
}

proof fn lemma_filters_fail_stays(
    filters: Map<Seq<char>, crate::filter::Filter>,
    names: Seq<Seq<char>>,
    k: int,
    j: int,
    s: Seq<char>,
)
    requires
        0 <= k <= j <= names.len(),
        apply_filters(filters, names.take(k), s) is Err,
    ensures
        apply_filters(filters, names.take(j), s) == apply_filters(filters, names.take(k), s),
    decreases j,
{
    if j > k {
        lemma_filters_fail_stays(filters, names, k, j - 1, s);
        assert(names.take(j).drop_last() =~= names.take(j - 1));
    }
}

proof fn lemma_nodes_step(
    env: Env,
    nodes: Seq<NodeView>,
    i: nat,
    st0: EvalState,
    pre: Seq<Draw>,
    mid: Seq<Draw>,
    rest: Seq<Draw>,
    fuel: nat,
)
    requires
        eval_nodes(env, nodes, i, st0, pre + (mid + rest), fuel).result is Ok,
    ensures
        ({
            let o = eval_nodes(env, nodes, i, st0, pre + (mid + rest), fuel);
            let o2 = eval_node(env, nodes[i as int], o.state, o.rest, fuel);
            eval_nodes(env, nodes, i + 1, st0, (pre + mid) + rest, fuel) == match o2.result {
                Ok(t) => Outcome { result: Ok(o.result->Ok_0.push(t)), state: o2.state, rest: o2.rest },
                Err(f) => crate::semantics::failed(f, o2.state, o2.rest),
            }
        }),
{
    assert((pre + mid) + rest =~= pre + (mid + rest));
}

proof fn lemma_branch_unfold(
    env: Env,
    b: crate::branch::BranchView,
    st: EvalState,
    pre: Seq<Draw>,
    tail: Seq<Draw>,
    x: nat,
    k: nat,
    fuel: nat,
)
    requires
        match b {
            crate::branch::BranchView::Empty => pre.len() == 0 && k == 0,
            crate::branch::BranchView::Uniform(ts) => ts.len() > 0 && pre == seq![
                Draw::Pick(x, ts.len()),
            ] && x < ts.len() && k == x,
            crate::branch::BranchView::Weighted(_, ws) => pre == seq![
                Draw::Pick(x, crate::branch::weight_sum(ws)),
            ] && x < crate::branch::weight_sum(ws) && k == crate::branch::weighted_pick(ws, x),
        },
    ensures
        eval_branch(env, b, st, pre + tail, fuel) == eval_at(env, b, k, st, tail, fuel),
{
    match b {
        crate::branch::BranchView::Empty => {
            assert(pre + tail =~= tail);
        },
        _ => {
            let d = pre + tail;
            assert(d[0] == pre[0]);
            assert(d.drop_first() =~= tail);
        },
    }
}

impl EvaluationContext {
    /// What the generation remembers, as a mathematical state.
    pub closed spec fn state(&self) -> EvalState {
        EvalState {
            memo: self.memo@.map_values(|t: ExpansionTree| t@),
            cycles: self.cycles@.map_values(|c: CycleState| c@),
        }
    }

    /// The draws made so far.
    pub closed spec fn drawn(&self) -> Seq<Draw> {
        self.drawn@
    }

    pub open spec fn wf(&self) -> bool {
        draws_valid(self.drawn())
    }

    /// A context with nothing memoised, no cycles and no draws.
    pub fn new() -> (r: Self)
        ensures
            r.state() == fresh_state(),
            r.drawn() == Seq::<Draw>::empty(),
            r.wf(),
    {
        let r = EvaluationContext { memo: Table::new(), cycles: Table::new(), drawn: Ghost(Seq::empty()) };
        assert(r.state().memo =~= Map::<Seq<char>, crate::expansion_tree::Tree>::empty());
        assert(r.state().cycles =~= Map::<Seq<char>, CycleView>::empty());
        r
    }

    /// Notes a draw of the random source.
    fn record(&mut self, d: Ghost<Draw>)
        requires
            old(self).wf(),
            draw_valid(d@),
        ensures
            final(self).drawn() == old(self).drawn().push(d@),
            final(self).state() == old(self).state(),
            final(self).memo == old(self).memo,
            final(self).cycles == old(self).cycles,
            continues(*old(self), *final(self)),
            drawn_since(*old(self), *final(self)) == seq![d@],
    {
        self.drawn = Ghost(self.drawn@.push(d@));
        proof {
            assert forall|i: int| 0 <= i < self.drawn().len() implies draw_valid(
                #[trigger] self.drawn()[i],
            ) by {
                if i < old(self).drawn().len() {
                    assert(self.drawn()[i] == old(self).drawn()[i]);
                }
            }
            assert(self.drawn().take(old(self).drawn().len() as int) =~= old(self).drawn());
            assert(drawn_since(*old(self), *self) =~= seq![d@]);
        }
    }

    /// Expands `symbol` through its rule's branch.
    pub fn expand_and_evaluate(
        &mut self,
        reg: &Registry,
        strict: bool,
        rng: &mut StdRng,
        symbol: &String,
        fuel: usize,
    ) -> (r: Result<ExpansionTree, CalyxError>)
        requires
            reg.wf(),
            old(self).wf(),
        ensures
            continues(*old(self), *final(self)),
            forall|rest: Seq<Draw>|
                #[trigger] eval_symbol(
                    env_of(reg, strict),
                    symbol@,
                    old(self).state(),
                    drawn_since(*old(self), *final(self)) + rest,
                    fuel as nat,
                ) == (Outcome { result: result_view(r), state: final(self).state(), rest }),
        decreases fuel, 0nat, 0nat,
    {
        proof {
            lemma_continues_refl(*self);
        }
        if fuel == 0 {
            let err = CalyxError::RecursionLimit { rule_name: symbol.clone() };
            proof {
                assert forall|rest: Seq<Draw>|
                    #[trigger] eval_symbol(
                        env_of(reg, strict),
                        symbol@,
                        self.state(),
                        drawn_since(*self, *self) + rest,
                        fuel as nat,
                    ) == (Outcome {
                        result: result_view(Err::<ExpansionTree, CalyxError>(err)),
                        state: self.state(),
                        rest,
                    }) by {
                    lemma_no_draws(*self, rest);
                }
            }
            return Err(err);
        }
        match reg.expand(symbol, strict) {
            Err(e) => {
                proof {
                    assert forall|rest: Seq<Draw>|
                        #[trigger] eval_symbol(
                            env_of(reg, strict),
                            symbol@,
                            self.state(),
                            drawn_since(*self, *self) + rest,
                            fuel as nat,
                        ) == (Outcome {
                            result: result_view(Err::<ExpansionTree, CalyxError>(e)),
                            state: self.state(),
                            rest,
                        }) by {
                        lemma_no_draws(*self, rest);
                    }
                }
                Err(e)
            },
            Ok(rule) => {
                let ghost c0 = *self;
                let r = rule.evaluate(self, reg, strict, rng, fuel - 1);
                proof {
                    assert forall|rest: Seq<Draw>|
                        #[trigger] eval_symbol(
                            env_of(reg, strict),
                            symbol@,
                            c0.state(),
                            drawn_since(c0, *self) + rest,
                            fuel as nat,
                        ) == (Outcome { result: result_view(r), state: self.state(), rest }) by {
                        assert(eval_branch(
                            env_of(reg, strict),
                            rule@,
                            c0.state(),
                            drawn_since(c0, *self) + rest,
                            (fuel - 1) as nat,
                        ) == (Outcome { result: result_view(r), state: self.state(), rest }));
                    }
                }
                r
            },
        }
    }
}

/// The indices `0..n` in increasing order.
fn index_vec(n: usize) -> (r: Vec<usize>)
    ensures
        r@ == index_range(n as nat),
{
    let mut v: Vec<usize> = Vec::new();
    let mut i: usize = 0;
    while i < n
        invariant
            i <= n,
            v@ == index_range(i as nat),
        decreases n - i,
    {
        v.push(i);
        i = i + 1;
        assert(v@ =~= index_range(i as nat));
    }
    v
}

fn copy_indices(v: &Vec<usize>) -> (r: Vec<usize>)
    ensures
        r@ == v@,
{
    let mut out: Vec<usize> = Vec::new();
    let mut i: usize = 0;
    while i < v.len()
        invariant
            i <= v@.len(),
            out@ == v@.take(i as int),
        decreases v@.len() - i,
    {
        out.push(v[i]);
        i = i + 1;
        assert(out@ =~= v@.take(i as int));
    }
    assert(v@.take(i as int) =~= v@);
    out
}

/// Applies the named filters to `s`, left to right.
fn apply_filter_chain(reg: &Registry, names: &Vec<String>, s: String) -> (r: Result<String, CalyxError>)
    ensures
        result_view(r) == apply_filters(reg@.filters, texts_of(names@), s@),
{
    let ghost ns = texts_of(names@);
    let mut text = s;
    let mut i: usize = 0;
    proof {
        assert(ns.take(0) =~= Seq::<Seq<char>>::empty());
    }
    while i < names.len()
        invariant
            ns == texts_of(names@),
            i <= names@.len(),
            apply_filters(reg@.filters, ns.take(i as int), s@) == Ok::<Seq<char>, crate::error::Fault>(
                text@,
            ),
        decreases names@.len() - i,
    {
        proof {
            assert(ns.take(i + 1).drop_last() =~= ns.take(i as int));
            assert(ns.take(i + 1).last() == names@[i as int]@);
        }
        match reg.get_filter(&names[i]) {
            Some(f) => {
                text = f.apply(&text);
            },
            None => {
                proof {
                    lemma_filters_fail_stays(reg@.filters, ns, i + 1, ns.len() as int, s@);
                    assert(ns.take(ns.len() as int) =~= ns);
                }
                return Err(CalyxError::UndefinedFilter { filter_name: names[i].clone() });
            },
        }
        i = i + 1;
    }
    proof {
        assert(ns.take(i as int) =~= ns);
    }
    Ok(text)
}

impl EvaluationContext {
    /// Expands a reference to `symbol` in the given mode.
    pub fn evaluate_reference(
        &mut self,
        mode: RefMode,
        symbol: &String,
        reg: &Registry,
        strict: bool,
        rng: &mut StdRng,
        fuel: usize,
    ) -> (r: Result<ExpansionTree, CalyxError>)
        requires
            reg.wf(),
            old(self).wf(),
        ensures
            continues(*old(self), *final(self)),
            forall|rest: Seq<Draw>|
                #[trigger] eval_ref(
                    env_of(reg, strict),
                    mode,
                    symbol@,
                    old(self).state(),
                    drawn_since(*old(self), *final(self)) + rest,
                    fuel as nat,
                ) == (Outcome { result: result_view(r), state: final(self).state(), rest }),
        decreases fuel, 2nat, 0nat,
    {
        let ghost c0 = *self;
        let (inner, tag) = match mode {
            RefMode::Plain => (
                self.expand_and_evaluate(reg, strict, rng, symbol, fuel),
                ExpansionType::Expression,
            ),
            RefMode::Memo => (
                self.memoize_expansion(symbol, reg, strict, rng, fuel),
                ExpansionType::Memo,
            ),
            RefMode::Unique => (
                self.unique_expansion(symbol, reg, strict, rng, fuel),
                ExpansionType::Unique,
            ),
        };
        let ghost inner_view = result_view(inner);
        let r = match inner {
            Ok(t) => Ok(ExpansionTree::chain(tag, t)),
            Err(e) => Err(e),
        };
        proof {
            assert forall|rest: Seq<Draw>|
                #[trigger] eval_ref(
                    env_of(reg, strict),
                    mode,
                    symbol@,
                    c0.state(),
                    drawn_since(c0, *self) + rest,
                    fuel as nat,
                ) == (Outcome { result: result_view(r), state: self.state(), rest }) by {
                let d = drawn_since(c0, *self) + rest;
                let env = env_of(reg, strict);
                match mode {
                    RefMode::Plain => {
                        assert(eval_symbol(env, symbol@, c0.state(), d, fuel as nat) == (Outcome {
                            result: inner_view,
                            state: self.state(),
                            rest,
                        }));
                    },
                    RefMode::Memo => {
                        assert(eval_memo(env, symbol@, c0.state(), d, fuel as nat) == (Outcome {
                            result: inner_view,
                            state: self.state(),
                            rest,
                        }));
                    },
                    RefMode::Unique => {
                        assert(eval_unique(env, symbol@, c0.state(), d, fuel as nat) == (Outcome {
                            result: inner_view,
                            state: self.state(),
                            rest,
                        }));
                    },
                }
            }
        }
        r
    }

    /// The expansion of `symbol` remembered in this generation, expanding and remembering it
    /// on first use.
    pub fn memoize_expansion(
        &mut self,
        symbol: &String,
        reg: &Registry,
        strict: bool,
        rng: &mut StdRng,
        fuel: usize,
    ) -> (r: Result<ExpansionTree, CalyxError>)
        requires
            reg.wf(),
            old(self).wf(),
        ensures
            continues(*old(self), *final(self)),
            forall|rest: Seq<Draw>|
                #[trigger] eval_memo(
                    env_of(reg, strict),
                    symbol@,
                    old(self).state(),
                    drawn_since(*old(self), *final(self)) + rest,
                    fuel as nat,
                ) == (Outcome { result: result_view(r), state: final(self).state(), rest }),
        decreases fuel, 1nat, 0nat,
    {
        let ghost c0 = *self;
        proof {
            lemma_continues_refl(*self);
        }
        match self.memo.get(symbol) {
            Some(t) => {
                let copy = t.duplicate();
                proof {
                    assert forall|rest: Seq<Draw>|
                        #[trigger] eval_memo(
                            env_of(reg, strict),
                            symbol@,
                            c0.state(),
                            drawn_since(c0, c0) + rest,
                            fuel as nat,
                        ) == (Outcome {
                            result: result_view(Ok::<ExpansionTree, CalyxError>(copy)),
                            state: c0.state(),
                            rest,
                        }) by {
                        lemma_no_draws(c0, rest);
                    }
                }
                return Ok(copy);
            },
            None => {},
        }
        let expanded = self.expand_and_evaluate(reg, strict, rng, symbol, fuel);
        let ghost c1 = *self;
        match expanded {
            Ok(t) => {
                let copy = t.duplicate();
                let ghost tv = t@;
                self.memo.insert(symbol.clone(), t);
                proof {
                    assert(self.state().memo =~= c1.state().memo.insert(symbol@, tv));
                    assert(self.state().cycles =~= c1.state().cycles);
                    assert(self.drawn() == c1.drawn());
                    assert(drawn_since(c0, *self) == drawn_since(c0, c1));
                    assert forall|rest: Seq<Draw>|
                        #[trigger] eval_memo(
                            env_of(reg, strict),
                            symbol@,
                            c0.state(),
                            drawn_since(c0, *self) + rest,
                            fuel as nat,
                        ) == (Outcome {
                            result: result_view(Ok::<ExpansionTree, CalyxError>(copy)),
                            state: self.state(),
                            rest,
                        }) by {
                        assert(eval_symbol(
                            env_of(reg, strict),
                            symbol@,
                            c0.state(),
                            drawn_since(c0, c1) + rest,
                            fuel as nat,
                        ).result == Ok::<crate::expansion_tree::Tree, crate::error::Fault>(tv));
                    }
                }
                Ok(copy)
            },
            Err(e) => {
                proof {
                    assert forall|rest: Seq<Draw>|
                        #[trigger] eval_memo(
                            env_of(reg, strict),
                            symbol@,
                            c0.state(),
                            drawn_since(c0, *self) + rest,
                            fuel as nat,
                        ) == (Outcome {
                            result: result_view(Err::<ExpansionTree, CalyxError>(e)),
                            state: self.state(),
                            rest,
                        }) by {
                        assert(eval_symbol(
                            env_of(reg, strict),
                            symbol@,
                            c0.state(),
                            drawn_since(c0, c1) + rest,
                            fuel as nat,
                        ) == (Outcome {
                            result: result_view(Err::<ExpansionTree, CalyxError>(e)),
                            state: c1.state(),
                            rest,
                        }));
                    }
                }
                Err(e)
            },
        }
    }

    /// Expands `symbol` at the next index of its cycle: each alternative once, in a random
    /// order, before any repeats.
    #[verifier::rlimit(40)]
    pub fn unique_expansion(
        &mut self,
        symbol: &String,
        reg: &Registry,
        strict: bool,
        rng: &mut StdRng,
        fuel: usize,
    ) -> (r: Result<ExpansionTree, CalyxError>)
        requires
            reg.wf(),
            old(self).wf(),
        ensures
            continues(*old(self), *final(self)),
            forall|rest: Seq<Draw>|
                #[trigger] eval_unique(
                    env_of(reg, strict),
                    symbol@,
                    old(self).state(),
                    drawn_since(*old(self), *final(self)) + rest,
                    fuel as nat,
                ) == (Outcome { result: result_view(r), state: final(self).state(), rest }),
        decreases fuel, 0nat, 0nat,
    {
        let ghost c0 = *self;
        proof {
            lemma_continues_refl(*self);
        }
        if fuel == 0 {
            let err = CalyxError::RecursionLimit { rule_name: symbol.clone() };
            proof {
                assert forall|rest: Seq<Draw>|
                    #[trigger] eval_unique(
                        env_of(reg, strict),
                        symbol@,
                        c0.state(),
                        drawn_since(c0, c0) + rest,
                        fuel as nat,
                    ) == (Outcome {
                        result: result_view(Err::<ExpansionTree, CalyxError>(err)),
                        state: c0.state(),
                        rest,
                    }) by {
                    lemma_no_draws(c0, rest);
                }
            }
            return Err(err);
        }
        let rule = match reg.expand(symbol, strict) {
            Ok(b) => b,
            Err(e) => {
                proof {
                    assert forall|rest: Seq<Draw>|
                        #[trigger] eval_unique(
                            env_of(reg, strict),
                            symbol@,
                            c0.state(),
                            drawn_since(c0, c0) + rest,
                            fuel as nat,
                        ) == (Outcome {
                            result: result_view(Err::<ExpansionTree, CalyxError>(e)),
                            state: c0.state(),
                            rest,
                        }) by {
                        lemma_no_draws(c0, rest);
                    }
                }
                return Err(e);
            },
        };
        let len = rule.len();
        let ghost cyc = if c0.state().cycles.contains_key(symbol@) {
            c0.state().cycles[symbol@]
        } else {
            crate::semantics::fresh_cycle()
        };
        let ghost mut after: CycleView = cyc;
        let idx: usize;
        if len <= 1 {
            idx = 0;
        } else {
            let (mut order, mut next) = match self.cycles.get(symbol) {
                Some(c) => (copy_indices(&c.order), c.next),
                None => (Vec::new(), 0),
            };
            assert(order@ == cyc.order && next as nat == cyc.next);
            if next >= order.len() {
                order = index_vec(len);
                shuffle(rng, &mut order);
                self.record(Ghost(Draw::Order(order@)));
                next = 0;
            }
            idx = order[order.len() - 1 - next];
            next = next + 1;
            proof {
                after = CycleView { order: order@, next: next as nat };
            }
            self.cycles.insert(symbol.clone(), CycleState { order, next });
            proof {
                assert(self.state().cycles =~= c0.state().cycles.insert(symbol@, after));
            }
        }
        let ghost c1 = *self;
        proof {
            assert(self.state().memo =~= c0.state().memo);
            assert forall|tail: Seq<Draw>|
                #[trigger] crate::semantics::poll(cyc, len as nat, drawn_since(c0, c1) + tail) == (
                idx as nat,
                after,
                tail,
            ) by {
                let d = drawn_since(c0, c1) + tail;
                if len > 1 && cyc.next >= cyc.order.len() {
                    assert(d[0] == drawn_since(c0, c1)[0]);
                    assert(d.drop_first() =~= tail);
                } else {
                    assert(drawn_since(c0, c1) =~= Seq::<Draw>::empty());
                    assert(d =~= tail);
                }
            }
        }
        let r = rule.evaluate_at(idx, self, reg, strict, rng, fuel - 1);
        proof {
            lemma_continues_trans(c0, c1, *self);
            assert forall|rest: Seq<Draw>|
                #[trigger] eval_unique(
                    env_of(reg, strict),
                    symbol@,
                    c0.state(),
                    drawn_since(c0, *self) + rest,
                    fuel as nat,
                ) == (Outcome { result: result_view(r), state: self.state(), rest }) by {
                let tail = drawn_since(c1, *self) + rest;
                let d = drawn_since(c0, *self) + rest;
                assert(d =~= drawn_since(c0, c1) + tail);
                assert(eval_at(env_of(reg, strict), rule@, idx as nat, c1.state(), tail, (fuel - 1) as nat)
                    == (Outcome { result: result_view(r), state: self.state(), rest }));
                assert(crate::semantics::poll(cyc, len as nat, drawn_since(c0, c1) + tail) == (
                    idx as nat,
                    after,
                    tail,
                ));
                if len <= 1 {
                    assert(c1.state() =~= c0.state());
                }
            }
        }
        r
    }
}

impl Branch {
    /// Expands a randomly picked alternative.
    pub fn evaluate(
        &self,
        ctx: &mut EvaluationContext,
        reg: &Registry,
        strict: bool,
        rng: &mut StdRng,
        fuel: usize,
    ) -> (r: Result<ExpansionTree, CalyxError>)
        requires
            self.wf(),
            reg.wf(),
            old(ctx).wf(),
        ensures
            continues(*old(ctx), *final(ctx)),
            forall|rest: Seq<Draw>|
                #[trigger] eval_branch(
                    env_of(reg, strict),
                    self@,
                    old(ctx).state(),
                    drawn_since(*old(ctx), *final(ctx)) + rest,
                    fuel as nat,
                ) == (Outcome { result: result_view(r), state: final(ctx).state(), rest }),
            match self@ {
                crate::branch::BranchView::Uniform(ts) => ts.len() > 0 ==> first_pick_below(
                    drawn_since(*old(ctx), *final(ctx)),
                    ts.len(),
                ),
                crate::branch::BranchView::Weighted(_, ws) => first_pick_below(
                    drawn_since(*old(ctx), *final(ctx)),
                    crate::branch::weight_sum(ws),
                ),
                crate::branch::BranchView::Empty => true,
            },
        decreases fuel, 7nat, 0nat,
    {
        let ghost c0 = *ctx;
        proof {
            lemma_continues_refl(*ctx);
        }
        let ghost mut x_drawn: nat = 0;
        let k: usize = match self {
            Branch::Empty => 0,
            Branch::Uniform(ts) => {
                if ts.len() == 0 {
                    proof {
                        assert forall|rest: Seq<Draw>|
                            #[trigger] eval_branch(
                                env_of(reg, strict),
                                self@,
                                c0.state(),
                                drawn_since(c0, c0) + rest,
                                fuel as nat,
                            ) == (Outcome {
                                result: result_view(
                                    Err::<ExpansionTree, CalyxError>(CalyxError::ExpandedEmptyBranch),
                                ),
                                state: c0.state(),
                                rest,
                            }) by {
                            lemma_no_draws(c0, rest);
                        }
                    }
                    return Err(CalyxError::ExpandedEmptyBranch);
                }
                let x = draw_below(rng, ts.len() as u64);
                ctx.record(Ghost(Draw::Pick(x as nat, ts.len() as nat)));
                proof {
                    x_drawn = x as nat;
                }
                x as usize
            },
            Branch::Weighted(cs, total) => {
                let x = draw_below(rng, *total);
                ctx.record(Ghost(Draw::Pick(x as nat, *total as nat)));
                proof {
                    x_drawn = x as nat;
                }
                weighted_index(cs, *total, x)
            },
        };
        let ghost c1 = *ctx;
        proof {
            if self is Empty {
                lemma_continues_refl(*ctx);
            }
        }
        let r = self.evaluate_at(k, ctx, reg, strict, rng, fuel);
        proof {
            lemma_continues_trans(c0, c1, *ctx);
            match self {
                Branch::Empty => {},
                _ => {
                    assert(drawn_since(c0, *ctx)[0] == drawn_since(c0, c1)[0]);
                },
            }
            assert forall|rest: Seq<Draw>|
                #[trigger] eval_branch(
                    env_of(reg, strict),
                    self@,
                    c0.state(),
                    drawn_since(c0, *ctx) + rest,
                    fuel as nat,
                ) == (Outcome { result: result_view(r), state: ctx.state(), rest }) by {
                let tail = drawn_since(c1, *ctx) + rest;
                let d = drawn_since(c0, *ctx) + rest;
                assert(d =~= drawn_since(c0, c1) + tail);
                match self {
                    Branch::Empty => {
                        assert(drawn_since(c0, c1) =~= Seq::<Draw>::empty());
                    },
                    Branch::Uniform(ts) => {
                        assert(drawn_since(c0, c1) =~= seq![Draw::Pick(x_drawn, ts@.len())]);
                    },
                    Branch::Weighted(cs, total) => {
                        assert(drawn_since(c0, c1) =~= seq![Draw::Pick(x_drawn, *total as nat)]);
                    },
                }
                lemma_branch_unfold(
                    env_of(reg, strict),
                    self@,
                    c0.state(),
                    drawn_since(c0, c1),
                    tail,
                    x_drawn,
                    k as nat,
                    fuel as nat,
                );
            }
        }
        r
    }

    /// Expands alternative `index`.
    pub fn evaluate_at(
        &self,
        index: usize,
        ctx: &mut EvaluationContext,
        reg: &Registry,
        strict: bool,
        rng: &mut StdRng,
        fuel: usize,
    ) -> (r: Result<ExpansionTree, CalyxError>)
        requires
            reg.wf(),
            old(ctx).wf(),
        ensures
            continues(*old(ctx), *final(ctx)),
            forall|rest: Seq<Draw>|
                #[trigger] eval_at(
                    env_of(reg, strict),
                    self@,
                    index as nat,
                    old(ctx).state(),
                    drawn_since(*old(ctx), *final(ctx)) + rest,
                    fuel as nat,
                ) == (Outcome { result: result_view(r), state: final(ctx).state(), rest }),
        decreases fuel, 6nat, 0nat,
    {
        let ghost c0 = *ctx;
        proof {
            lemma_continues_refl(*ctx);
        }
        let (template, tag) = match self {
            Branch::Empty => {
                let r = Ok(
                    ExpansionTree::chain(
                        ExpansionType::EmptyBranch,
                        ExpansionTree::new_atom(String::new()),
                    ),
                );
                proof {
                    assert forall|rest: Seq<Draw>|
                        #[trigger] eval_at(
                            env_of(reg, strict),
                            self@,
                            index as nat,
                            c0.state(),
                            drawn_since(c0, c0) + rest,
                            fuel as nat,
                        ) == (Outcome { result: result_view(r), state: c0.state(), rest }) by {
                        lemma_no_draws(c0, rest);
                    }
                }
                return r;
            },
            Branch::Uniform(ts) => {
                if index >= ts.len() {
                    proof {
                        assert forall|rest: Seq<Draw>|
                            #[trigger] eval_at(
                                env_of(reg, strict),
                                self@,
                                index as nat,
                                c0.state(),
                                drawn_since(c0, c0) + rest,
                                fuel as nat,
                            ) == (Outcome {
                                result: result_view(
                                    Err::<ExpansionTree, CalyxError>(CalyxError::ExpandedEmptyBranch),
                                ),
                                state: c0.state(),
                                rest,
                            }) by {
                            lemma_no_draws(c0, rest);
                        }
                    }
                    return Err(CalyxError::ExpandedEmptyBranch);
                }
                (&ts[index], ExpansionType::UniformBranch)
            },
            Branch::Weighted(cs, _) => {
                if index >= cs.len() {
                    proof {
                        assert forall|rest: Seq<Draw>|
                            #[trigger] eval_at(
                                env_of(reg, strict),
                                self@,
                                index as nat,
                                c0.state(),
                                drawn_since(c0, c0) + rest,
                                fuel as nat,
                            ) == (Outcome {
                                result: result_view(
                                    Err::<ExpansionTree, CalyxError>(CalyxError::ExpandedEmptyBranch),
                                ),
                                state: c0.state(),
                                rest,
                            }) by {
                            lemma_no_draws(c0, rest);
                        }
                    }
                    return Err(CalyxError::ExpandedEmptyBranch);
                }
                (&cs[index].template, ExpansionType::WeightedBranch)
            },
        };
        let inner = template.evaluate(ctx, reg, strict, rng, fuel);
        let ghost inner_view = result_view(inner);
        let r = match inner {
            Ok(t) => Ok(ExpansionTree::chain(tag, t)),
            Err(e) => Err(e),
        };
        proof {
            assert forall|rest: Seq<Draw>|
                #[trigger] eval_at(
                    env_of(reg, strict),
                    self@,
                    index as nat,
                    c0.state(),
                    drawn_since(c0, *ctx) + rest,
                    fuel as nat,
                ) == (Outcome { result: result_view(r), state: ctx.state(), rest }) by {
                assert(eval_template(
                    env_of(reg, strict),
                    template@,
                    c0.state(),
                    drawn_since(c0, *ctx) + rest,
                    fuel as nat,
                ) == (Outcome { result: inner_view, state: ctx.state(), rest }));
            }
        }
        r
    }
}

impl TemplateNode {
    /// Expands the nodes left to right under a template node.
    #[verifier::rlimit(40)]
    pub fn evaluate(
        &self,
        ctx: &mut EvaluationContext,
        reg: &Registry,
        strict: bool,
        rng: &mut StdRng,
        fuel: usize,
    ) -> (r: Result<ExpansionTree, CalyxError>)
        requires
            reg.wf(),
            old(ctx).wf(),
        ensures
            continues(*old(ctx), *final(ctx)),
            forall|rest: Seq<Draw>|
                #[trigger] eval_template(
                    env_of(reg, strict),
                    self@,
                    old(ctx).state(),
                    drawn_since(*old(ctx), *final(ctx)) + rest,
                    fuel as nat,
                ) == (Outcome { result: result_view(r), state: final(ctx).state(), rest }),
        decreases fuel, 5nat, 0nat,
    {
        let ghost c0 = *ctx;
        let ghost env = env_of(reg, strict);
        let mut results: Vec<ExpansionTree> = Vec::new();
        let mut i: usize = 0;
        proof {
            lemma_continues_refl(*ctx);
            assert forall|rest: Seq<Draw>|
                #[trigger] eval_nodes(env, self@, 0, c0.state(), drawn_since(c0, *ctx) + rest, fuel as nat)
                    == (Outcome {
                    result: Ok::<Seq<crate::expansion_tree::Tree>, crate::error::Fault>(
                        results@.map_values(|t: ExpansionTree| t@),
                    ),
                    state: ctx.state(),
                    rest,
                }) by {
                lemma_no_draws(c0, rest);
                assert(results@.map_values(|t: ExpansionTree| t@) =~= Seq::<
                    crate::expansion_tree::Tree,
                >::empty());
            }
        }
        while i < self.concat_nodes.len()
            invariant
                env == env_of(reg, strict),
                c0 == *old(ctx),
                reg.wf(),
                c0.wf(),
                continues(c0, *ctx),
                i <= self.concat_nodes@.len(),
                forall|rest: Seq<Draw>|
                    #[trigger] eval_nodes(
                        env,
                        self@,
                        i as nat,
                        c0.state(),
                        drawn_since(c0, *ctx) + rest,
                        fuel as nat,
                    ) == (Outcome {
                        result: Ok::<Seq<crate::expansion_tree::Tree>, crate::error::Fault>(
                            results@.map_values(|t: ExpansionTree| t@),
                        ),
                        state: ctx.state(),
                        rest,
                    }),
            decreases self.concat_nodes@.len() - i,
        {
            let ghost ci = *ctx;
            let ghost before = results@.map_values(|t: ExpansionTree| t@);
            let step = self.concat_nodes[i].evaluate(ctx, reg, strict, rng, fuel);
            proof {
                lemma_continues_trans(c0, ci, *ctx);
                assert(self@[i as int] == self.concat_nodes@[i as int]@);
            }
            let ghost o2 = eval_node(env, self@[i as int], ci.state(), drawn_since(ci, *ctx), fuel as nat);
            match step {
                Ok(t) => {
                    let ghost tv = t@;
                    results.push(t);
                    proof {
                        assert(results@.map_values(|t: ExpansionTree| t@) =~= before.push(tv));
                        assert forall|rest: Seq<Draw>|
                            #[trigger] eval_nodes(
                                env,
                                self@,
                                (i + 1) as nat,
                                c0.state(),
                                drawn_since(c0, *ctx) + rest,
                                fuel as nat,
                            ) == (Outcome {
                                result: Ok::<Seq<crate::expansion_tree::Tree>, crate::error::Fault>(
                                    before.push(tv),
                                ),
                                state: ctx.state(),
                                rest,
                            }) by {
                            let mid = drawn_since(ci, *ctx);
                            assert(eval_nodes(
                                env,
                                self@,
                                i as nat,
                                c0.state(),
                                drawn_since(c0, ci) + (mid + rest),
                                fuel as nat,
                            ) == (Outcome {
                                result: Ok::<Seq<crate::expansion_tree::Tree>, crate::error::Fault>(before),
                                state: ci.state(),
                                rest: mid + rest,
                            }));
                            assert(eval_node(env, self@[i as int], ci.state(), mid + rest, fuel as nat) == (
                            Outcome {
                                result: Ok::<crate::expansion_tree::Tree, crate::error::Fault>(tv),
                                state: ctx.state(),
                                rest,
                            }));
                            lemma_nodes_step(
                                env,
                                self@,
                                i as nat,
                                c0.state(),
                                drawn_since(c0, ci),
                                mid,
                                rest,
                                fuel as nat,
                            );
                        }
                    }
                },
                Err(e) => {
                    proof {
                        assert forall|rest: Seq<Draw>|
                            #[trigger] eval_template(
                                env,
                                self@,
                                c0.state(),
                                drawn_since(c0, *ctx) + rest,
                                fuel as nat,
                            ) == (Outcome {
                                result: result_view(Err::<ExpansionTree, CalyxError>(e)),
                                state: ctx.state(),
                                rest,
                            }) by {
                            let mid = drawn_since(ci, *ctx);
                            assert(eval_nodes(
                                env,
                                self@,
                                i as nat,
                                c0.state(),
                                drawn_since(c0, ci) + (mid + rest),
                                fuel as nat,
                            ) == (Outcome {
                                result: Ok::<Seq<crate::expansion_tree::Tree>, crate::error::Fault>(before),
                                state: ci.state(),
                                rest: mid + rest,
                            }));
                            assert(eval_node(env, self@[i as int], ci.state(), mid + rest, fuel as nat) == (
                            Outcome {
                                result: result_view(Err::<ExpansionTree, CalyxError>(e)),
                                state: ctx.state(),
                                rest,
                            }));
                            lemma_nodes_step(
                                env,
                                self@,
                                i as nat,
                                c0.state(),
                                drawn_since(c0, ci),
                                mid,
                                rest,
                                fuel as nat,
                            );
                            lemma_nodes_fail_stays(
                                env,
                                self@,
                                (i + 1) as nat,
                                self@.len(),
                                c0.state(),
                                drawn_since(c0, *ctx) + rest,
                                fuel as nat,
                            );
                        }
                    }
                    return Err(e);
                },
            }
            i = i + 1;
        }
        let ghost children = results@.map_values(|t: ExpansionTree| t@);
        let r = ExpansionTree::new(ExpansionType::Template, results);
        proof {
            assert forall|rest: Seq<Draw>|
                #[trigger] eval_template(
                    env,
                    self@,
                    c0.state(),
                    drawn_since(c0, *ctx) + rest,
                    fuel as nat,
                ) == (Outcome {
                    result: result_view(Ok::<ExpansionTree, CalyxError>(r)),
                    state: ctx.state(),
                    rest,
                }) by {
                assert(eval_nodes(
                    env,
                    self@,
                    self@.len(),
                    c0.state(),
                    drawn_since(c0, *ctx) + rest,
                    fuel as nat,
                ).result == Ok::<Seq<crate::expansion_tree::Tree>, crate::error::Fault>(children));
            }
        }
        Ok(r)
    }
}

impl Node {
    /// Expands this node: an atom is its own text; an expression expands its reference and
    /// applies its filters.
    pub fn evaluate(
        &self,
        ctx: &mut EvaluationContext,
        reg: &Registry,
        strict: bool,
        rng: &mut StdRng,
        fuel: usize,
    ) -> (r: Result<ExpansionTree, CalyxError>)
        requires
            reg.wf(),
            old(ctx).wf(),
        ensures
            continues(*old(ctx), *final(ctx)),
            forall|rest: Seq<Draw>|
                #[trigger] eval_node(
                    env_of(reg, strict),
                    self@,
                    old(ctx).state(),
                    drawn_since(*old(ctx), *final(ctx)) + rest,
                    fuel as nat,
                ) == (Outcome { result: result_view(r), state: final(ctx).state(), rest }),
        decreases fuel, 3nat, 0nat,
    {
        let ghost c0 = *ctx;
        proof {
            lemma_continues_refl(*ctx);
        }
        match self {
            Node::Atom(s) => {
                let r = Ok(ExpansionTree::new_atom(s.clone()));
                proof {
                    assert forall|rest: Seq<Draw>|
                        #[trigger] eval_node(
                            env_of(reg, strict),
                            self@,
                            c0.state(),
                            drawn_since(c0, c0) + rest,
                            fuel as nat,
                        ) == (Outcome { result: result_view(r), state: c0.state(), rest }) by {
                        lemma_no_draws(c0, rest);
                    }
                }
                r
            },
            Node::Expr(e) => {
                let base = ctx.evaluate_reference(e.mode, &e.symbol, reg, strict, rng, fuel);
                let ghost base_view = result_view(base);
                if e.filters.len() == 0 {
                    proof {
                        assert forall|rest: Seq<Draw>|
                            #[trigger] eval_node(
                                env_of(reg, strict),
                                self@,
                                c0.state(),
                                drawn_since(c0, *ctx) + rest,
                                fuel as nat,
                            ) == (Outcome { result: base_view, state: ctx.state(), rest }) by {
                            assert(texts_of(e.filters@).len() == 0);
                            assert(eval_ref(
                                env_of(reg, strict),
                                e.mode,
                                e.symbol@,
                                c0.state(),
                                drawn_since(c0, *ctx) + rest,
                                fuel as nat,
                            ) == (Outcome { result: base_view, state: ctx.state(), rest }));
                        }
                    }
                    return base;
                }
                let r = match base {
                    Err(x) => Err(x),
                    Ok(t) => {
                        let s = t.flatten();
                        match apply_filter_chain(reg, &e.filters, s) {
                            Ok(s2) => Ok(
                                ExpansionTree::chain(
                                    ExpansionType::ExpressionChain,
                                    ExpansionTree::new_atom(s2),
                                ),
                            ),
                            Err(x) => Err(x),
                        }
                    },
                };
                proof {
                    assert forall|rest: Seq<Draw>|
                        #[trigger] eval_node(
                            env_of(reg, strict),
                            self@,
                            c0.state(),
                            drawn_since(c0, *ctx) + rest,
                            fuel as nat,
                        ) == (Outcome { result: result_view(r), state: ctx.state(), rest }) by {
                        assert(eval_ref(
                            env_of(reg, strict),
                            e.mode,
                            e.symbol@,
                            c0.state(),
                            drawn_since(c0, *ctx) + rest,
                            fuel as nat,
                        ) == (Outcome { result: base_view, state: ctx.state(), rest }));
                    }
                }
                r
            },
        }
    }
}

} // verus!
