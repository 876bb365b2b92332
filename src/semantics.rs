//! The evaluation rules, as functions of the draws that the random source hands out.
use crate::branch::{branch_len, weight_sum, weighted_pick, BranchView};
use crate::error::Fault;
use crate::expansion_tree::{atom, chain_of, node, text, Tag, Tree};
use crate::filter::{filter_result, Filter};
use crate::random::{index_range, is_ordering, Draw};
use crate::registry::{lookup, RegistryView};
use crate::template::{NodeView, RefMode};
use vstd::prelude::*;

verus! {

/// The rules and the mode that a generation runs under.
pub struct Env {
    pub reg: RegistryView,
    pub strict: bool,
}

/// Where a unique reference stands in its current ordering of the alternatives.
pub struct CycleView {
    pub order: Seq<usize>,
    pub next: nat,
}

/// What one generation remembers between references.
pub struct EvalState {
    /// The expansion of each rule reached through a memoised reference.
    pub memo: Map<Seq<char>, Tree>,
    /// The cycle of each rule reached through a unique reference.
    pub cycles: Map<Seq<char>, CycleView>,
}

/// The result of a step, the state after it and the draws not used by it.
pub struct Outcome<T> {
    pub result: Result<T, Fault>,
    pub state: EvalState,
    pub rest: Seq<Draw>,
}

/// The state at the start of a generation: nothing memoised, no cycles.
pub open spec fn fresh_state() -> EvalState {
    EvalState { memo: Map::empty(), cycles: Map::empty() }
}

/// A cycle that has not ordered its alternatives yet.
pub open spec fn fresh_cycle() -> CycleView {
    CycleView { order: Seq::empty(), next: 0 }
}

/// The next draw as a number below `bound`, and the draws after it. Every draw that a
/// generation makes fits the use it is put to (see `Grammar::generate_from`); one that does not
/// fit stands for 0, so that a pick is always below its bound.
pub open spec fn take_pick(d: Seq<Draw>, bound: nat) -> (nat, Seq<Draw>) {
    if d.len() > 0 {
        match d[0] {
            Draw::Pick(v, b) => if b == bound && v < bound {
                (v, d.drop_first())
            } else {
                (0, d.drop_first())
            },
            Draw::Order(_) => (0, d.drop_first()),
        }
    } else {
        (0, d)
    }
}

/// The next draw as an ordering of the indices below `len`, and the draws after it. A draw
/// that is no such ordering stands for the indices in increasing order, so that an ordering
/// always has the branch's length.
pub open spec fn take_order(d: Seq<Draw>, len: nat) -> (Seq<usize>, Seq<Draw>) {
    if d.len() > 0 {
        match d[0] {
            Draw::Order(p) => if is_ordering(p, len) {
                (p, d.drop_first())
            } else {
                (index_range(len), d.drop_first())
            },
            Draw::Pick(_, _) => (index_range(len), d.drop_first()),
        }
    } else {
        (index_range(len), d)
    }
}

/// One poll of a unique reference to a branch of `len` alternatives: the index it yields, the
/// cycle after it and the draws left. A branch of at most one alternative always yields 0; an
/// exhausted cycle takes a fresh ordering first. The ordering is handed out from its last
/// element back; `next` counts the indices handed out.
pub open spec fn poll(c: CycleView, len: nat, d: Seq<Draw>) -> (nat, CycleView, Seq<Draw>) {
    if len <= 1 {
        (0, c, d)
    } else if c.next >= c.order.len() {
        let (p, d1) = take_order(d, len);
        (p[len - 1] as nat, CycleView { order: p, next: 1 }, d1)
    } else {
        (
            c.order[c.order.len() - 1 - c.next] as nat,
            CycleView { order: c.order, next: c.next + 1 },
            d,
        )
    }
}

/// The expansion of the empty branch.
pub open spec fn empty_expansion() -> Tree {
    chain_of(Tag::EmptyBranch, atom(Seq::empty()))
}

/// The text after applying the named filters left to right, or the first undefined filter.
pub open spec fn apply_filters(
    filters: Map<Seq<char>, Filter>,
    names: Seq<Seq<char>>,
    s: Seq<char>,
) -> Result<Seq<char>, Fault>
    decreases names.len(),
{
    if names.len() == 0 {
        Ok(s)
    } else {
        match apply_filters(filters, names.drop_last(), s) {
            Err(f) => Err(f),
            Ok(s1) => if filters.contains_key(names.last()) {
                Ok(filter_result(filters[names.last()], s1))
            } else {
                Err(Fault::UndefinedFilter(names.last()))
            },
        }
    }
}

pub open spec fn failed<T>(f: Fault, st: EvalState, d: Seq<Draw>) -> Outcome<T> {
    Outcome { result: Err(f), state: st, rest: d }
}

/// `o` with a successful tree put under a node tagged `tag`.
pub open spec fn wrapped(o: Outcome<Tree>, tag: Tag) -> Outcome<Tree> {
    match o.result {
        Ok(t) => Outcome { result: Ok(chain_of(tag, t)), state: o.state, rest: o.rest },
        Err(f) => failed(f, o.state, o.rest),
    }
}

/// The expansion of a reference to `sym`: its branch picks an alternative.
pub open spec fn eval_symbol(env: Env, sym: Seq<char>, st: EvalState, d: Seq<Draw>, fuel: nat) -> Outcome<
    Tree,
>
    decreases fuel, 0nat, 0nat,
{
    if fuel == 0 {
        failed(Fault::RecursionLimit(sym), st, d)
    } else {
        match lookup(env.reg, env.strict, sym) {
            Err(f) => failed(f, st, d),
            Ok(b) => eval_branch(env, b, st, d, (fuel - 1) as nat),
        }
    }
}

/// The expansion of a unique reference to `sym`: the cycle of the rule picks the alternative.
pub open spec fn eval_unique(env: Env, sym: Seq<char>, st: EvalState, d: Seq<Draw>, fuel: nat) -> Outcome<
    Tree,
>
    decreases fuel, 0nat, 0nat,
{
    if fuel == 0 {
        failed(Fault::RecursionLimit(sym), st, d)
    } else {
        match lookup(env.reg, env.strict, sym) {
            Err(f) => failed(f, st, d),
            Ok(b) => {
                let c = if st.cycles.contains_key(sym) {
                    st.cycles[sym]
                } else {
                    fresh_cycle()
                };
                let (idx, c1, d1) = poll(c, branch_len(b), d);
                let st1 = if branch_len(b) <= 1 {
                    st
                } else {
                    EvalState { memo: st.memo, cycles: st.cycles.insert(sym, c1) }
                };
                eval_at(env, b, idx, st1, d1, (fuel - 1) as nat)
            },
        }
    }
}

/// The expansion of a memoised reference to `sym`: the remembered one, or a fresh one that is
/// then remembered.
pub open spec fn eval_memo(env: Env, sym: Seq<char>, st: EvalState, d: Seq<Draw>, fuel: nat) -> Outcome<
    Tree,
>
    decreases fuel, 1nat, 0nat,
{
    if st.memo.contains_key(sym) {
        Outcome { result: Ok(st.memo[sym]), state: st, rest: d }
    } else {
        let o = eval_symbol(env, sym, st, d, fuel);
        match o.result {
            Ok(t) => Outcome {
                result: Ok(t),
                state: EvalState { memo: o.state.memo.insert(sym, t), cycles: o.state.cycles },
                rest: o.rest,
            },
            Err(f) => failed(f, o.state, o.rest),
        }
    }
}

/// The expansion of a reference in the given mode.
pub open spec fn eval_ref(
    env: Env,
    mode: RefMode,
    sym: Seq<char>,
    st: EvalState,
    d: Seq<Draw>,
    fuel: nat,
) -> Outcome<Tree>
    decreases fuel, 2nat, 0nat,
{
    match mode {
        RefMode::Plain => wrapped(eval_symbol(env, sym, st, d, fuel), Tag::Expression),
        RefMode::Memo => wrapped(eval_memo(env, sym, st, d, fuel), Tag::Memo),
        RefMode::Unique => wrapped(eval_unique(env, sym, st, d, fuel), Tag::Unique),
    }
}

/// The expansion of one node of a template.
pub open spec fn eval_node(env: Env, n: NodeView, st: EvalState, d: Seq<Draw>, fuel: nat) -> Outcome<
    Tree,
>
    decreases fuel, 3nat, 0nat,
{
    match n {
        NodeView::Atom(s) => Outcome { result: Ok(atom(s)), state: st, rest: d },
        NodeView::Expr(mode, sym, filters) => {
            let o = eval_ref(env, mode, sym, st, d, fuel);
            if filters.len() == 0 {
                o
            } else {
                match o.result {
                    Err(f) => o,
                    Ok(t) => match apply_filters(env.reg.filters, filters, text(t)) {
                        Ok(s) => Outcome {
                            result: Ok(chain_of(Tag::ExpressionChain, atom(s))),
                            state: o.state,
                            rest: o.rest,
                        },
                        Err(f) => failed(f, o.state, o.rest),
                    },
                }
            }
        },
    }
}

/// The expansions of the first `n` nodes, left to right, or the first fault.
pub open spec fn eval_nodes(
    env: Env,
    nodes: Seq<NodeView>,
    n: nat,
    st: EvalState,
    d: Seq<Draw>,
    fuel: nat,
) -> Outcome<Seq<Tree>>
    decreases fuel, 4nat, n,
{
    if n == 0 {
        Outcome { result: Ok(Seq::empty()), state: st, rest: d }
    } else {
        let o = eval_nodes(env, nodes, (n - 1) as nat, st, d, fuel);
        match o.result {
            Err(f) => failed(f, o.state, o.rest),
            Ok(ts) => {
                let o2 = eval_node(env, nodes[n - 1], o.state, o.rest, fuel);
                match o2.result {
                    Err(f) => failed(f, o2.state, o2.rest),
                    Ok(t) => Outcome { result: Ok(ts.push(t)), state: o2.state, rest: o2.rest },
                }
            },
        }
    }
}

/// The expansion of a template: its nodes' expansions under a template node.
pub open spec fn eval_template(
    env: Env,
    nodes: Seq<NodeView>,
    st: EvalState,
    d: Seq<Draw>,
    fuel: nat,
) -> Outcome<Tree>
    decreases fuel, 5nat, 0nat,
{
    let o = eval_nodes(env, nodes, nodes.len(), st, d, fuel);
    match o.result {
        Ok(ts) => Outcome { result: Ok(node(Tag::Template, ts)), state: o.state, rest: o.rest },
        Err(f) => failed(f, o.state, o.rest),
    }
}

/// The expansion of alternative `idx` of a branch.
pub open spec fn eval_at(
    env: Env,
    b: BranchView,
    idx: nat,
    st: EvalState,
    d: Seq<Draw>,
    fuel: nat,
) -> Outcome<Tree>
    decreases fuel, 6nat, 0nat,
{
    match b {
        BranchView::Empty => Outcome { result: Ok(empty_expansion()), state: st, rest: d },
        BranchView::Uniform(ts) => if idx < ts.len() {
            wrapped(eval_template(env, ts[idx as int], st, d, fuel), Tag::UniformBranch)
        } else {
            failed(Fault::ExpandedEmptyBranch, st, d)
        },
        BranchView::Weighted(ts, _) => if idx < ts.len() {
            wrapped(eval_template(env, ts[idx as int], st, d, fuel), Tag::WeightedBranch)
        } else {
            failed(Fault::ExpandedEmptyBranch, st, d)
        },
    }
}

/// The expansion of a branch: uniform branches draw an index below their length, weighted
/// ones a number below the sum of their weights.
pub open spec fn eval_branch(env: Env, b: BranchView, st: EvalState, d: Seq<Draw>, fuel: nat) -> Outcome<
    Tree,
>
    decreases fuel, 7nat, 0nat,
{
    match b {
        BranchView::Empty => eval_at(env, b, 0, st, d, fuel),
        BranchView::Uniform(ts) => if ts.len() == 0 {
            failed(Fault::ExpandedEmptyBranch, st, d)
        } else {
            let (k, d1) = take_pick(d, ts.len());
            eval_at(env, b, k, st, d1, fuel)
        },
        BranchView::Weighted(_, ws) => {
            let (r, d1) = take_pick(d, weight_sum(ws));
            eval_at(env, b, weighted_pick(ws, r), st, d1, fuel)
        },
    }
}

/// A whole generation from `start`, with fresh memo and cycles, under a `Result` node.
pub open spec fn generation(env: Env, start: Seq<char>, d: Seq<Draw>, fuel: nat) -> Result<
    Tree,
    Fault,
> {
    match eval_symbol(env, start, fresh_state(), d, fuel).result {
        Ok(t) => Ok(chain_of(Tag::Result, t)),
        Err(f) => Err(f),
    }
}

} // verus!
