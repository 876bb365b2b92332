//! Properties of the evaluation rules that hold for all inputs.
use crate::branch::{branch_len, weight_sum, weighted_pick, BranchView};
use crate::error::{CalyxError, Fault};
use crate::expansion_tree::{atom, chain_of, node, text, texts, Tag, Tree};
use crate::random::{index_range, is_ordering, Draw};
use crate::registry::{defined, definition_outcome, lookup, RegistryView};
use crate::semantics::{
    empty_expansion,
    eval_at,
    eval_branch,
    eval_memo,
    eval_node,
    eval_nodes,
    eval_ref,
    eval_symbol,
    eval_template,
    eval_unique,
    failed,
    fresh_state,
    generation,
    poll,
    take_pick,
    CycleView,
    Env,
    EvalState,
    Outcome,
};
use crate::template::{fragments, parse_template, scan, NodeView, RefMode};
use vstd::prelude::*;

verus! {

proof fn lemma_scan_literal(s: Seq<char>)
    requires
        forall|i: int| 0 <= i < s.len() ==> s[i] != '{' && s[i] != '}',
    ensures
        scan(s) == (Seq::<Seq<char>>::empty(), s),
    decreases s.len(),
{
    if s.len() > 0 {
        let p = s.drop_last();
        assert forall|i: int| 0 <= i < p.len() implies p[i] != '{' && p[i] != '}' by {
            assert(p[i] == s[i]);
        }
        lemma_scan_literal(p);
        assert(p.push(s.last()) =~= s);
    }
}

/// A template without braces parses to one atom holding its text (to no node at all when it
/// is empty), and that template expands, in any state and without drawing, to exactly its text.
pub proof fn lemma_literal_round_trip(env: Env, s: Seq<char>, st: EvalState, d: Seq<Draw>, fuel: nat)
    requires
        forall|i: int| 0 <= i < s.len() ==> s[i] != '{' && s[i] != '}',
    ensures
        parse_template(s) == Ok::<Seq<NodeView>, Fault>(
            if s.len() == 0 {
                Seq::empty()
            } else {
                seq![NodeView::Atom(s)]
            },
        ),
        ({
            let o = eval_template(env, parse_template(s)->Ok_0, st, d, fuel);
            &&& o.result is Ok
            &&& text(o.result->Ok_0) == s
            &&& o.state == st
            &&& o.rest == d
        }),
{
    lemma_scan_literal(s);
    let nodes: Seq<NodeView> = if s.len() == 0 {
        Seq::empty()
    } else {
        seq![NodeView::Atom(s)]
    };
    if s.len() == 0 {
        assert(fragments(s) =~= Seq::<Seq<char>>::empty());
        let o = eval_template(env, nodes, st, d, fuel);
        assert(o.result == Ok::<Tree, Fault>(node(Tag::Template, Seq::empty())));
        assert(texts(Seq::<Tree>::empty()) == Seq::<char>::empty());
    } else {
        let fs = fragments(s);
        assert(fs =~= seq![s]);
        assert(fs.drop_last() =~= Seq::<Seq<char>>::empty());
        assert(s[0] != '{');
        assert(Seq::<NodeView>::empty() + seq![NodeView::Atom(s)] =~= seq![NodeView::Atom(s)]);
        assert(crate::template::fragments_nodes(fs.drop_last()) == Ok::<Seq<NodeView>, Fault>(
            Seq::empty(),
        ));
        assert(fs.last() == s);
        assert(!crate::template::is_bracketed(s));
        assert(crate::template::fragment_nodes(s) == Ok::<Seq<NodeView>, Fault>(
            seq![NodeView::Atom(s)],
        ));
        assert(parse_template(s) == Ok::<Seq<NodeView>, Fault>(nodes));
        let o1 = eval_nodes(env, nodes, 0, st, d, fuel);
        assert(o1.result == Ok::<Seq<Tree>, Fault>(Seq::empty()));
        let o = eval_nodes(env, nodes, 1, st, d, fuel);
        assert(Seq::<Tree>::empty().push(atom(s)) =~= seq![atom(s)]);
        assert(o.result == Ok::<Seq<Tree>, Fault>(seq![atom(s)]));
        let kids = seq![atom(s)];
        assert(kids.subrange(0, 0) =~= Seq::<Tree>::empty());
        assert(texts(kids.subrange(0, 0)) == Seq::<char>::empty());
        assert(text(atom(s)) == s);
        assert(kids[0] == atom(s));
        assert(Seq::<char>::empty() + s =~= s);
        assert(texts(kids) =~= s);
        assert(text(node(Tag::Template, kids)) == s);
    }
}

/// Defining a rule under a name that is already defined fails with a duplicate-rule fault
/// naming it, and leaves every rule, the first definition of that name included, as it was.
pub proof fn lemma_redefinition_fails(
    reg: RegistryView,
    sym: Seq<char>,
    made: Result<BranchView, Fault>,
    r: Result<(), CalyxError>,
    after: RegistryView,
)
    requires
        reg.rules.contains_key(sym),
        definition_outcome(r, reg, after, defined(reg, sym, made)),
    ensures
        defined(reg, sym, made) == Err::<RegistryView, Fault>(Fault::DuplicateRule(sym)),
        r matches Err(e) && e@ == Fault::DuplicateRule(sym),
        after == reg,
        after.rules[sym] == reg.rules[sym],
{
}

/// Every rule memoised in `a` is memoised in `b`, with the same expansion.
pub open spec fn memo_grows(a: EvalState, b: EvalState) -> bool {
    forall|k: Seq<char>| #[trigger]
        a.memo.contains_key(k) ==> b.memo.contains_key(k) && b.memo[k] == a.memo[k]
}

proof fn lemma_grows_symbol(env: Env, sym: Seq<char>, st: EvalState, d: Seq<Draw>, fuel: nat)
    ensures
        memo_grows(st, eval_symbol(env, sym, st, d, fuel).state),
    decreases fuel, 0nat, 0nat,
{
    if fuel > 0 {
        match lookup(env.reg, env.strict, sym) {
            Ok(b) => lemma_grows_branch(env, b, st, d, (fuel - 1) as nat),
            Err(_) => {},
        }
    }
}

proof fn lemma_grows_unique(env: Env, sym: Seq<char>, st: EvalState, d: Seq<Draw>, fuel: nat)
    ensures
        memo_grows(st, eval_unique(env, sym, st, d, fuel).state),
    decreases fuel, 0nat, 0nat,
{
    if fuel > 0 {
        match lookup(env.reg, env.strict, sym) {
            Ok(b) => {
                let c = if st.cycles.contains_key(sym) {
                    st.cycles[sym]
                } else {
                    crate::semantics::fresh_cycle()
                };
                let (idx, c1, d1) = poll(c, branch_len(b), d);
                let st1 = if branch_len(b) <= 1 {
                    st
                } else {
                    EvalState { memo: st.memo, cycles: st.cycles.insert(sym, c1) }
                };
                lemma_grows_at(env, b, idx, st1, d1, (fuel - 1) as nat);
            },
            Err(_) => {},
        }
    }
}

proof fn lemma_grows_memo(env: Env, sym: Seq<char>, st: EvalState, d: Seq<Draw>, fuel: nat)
    ensures
        memo_grows(st, eval_memo(env, sym, st, d, fuel).state),
    decreases fuel, 1nat, 0nat,
{
    if !st.memo.contains_key(sym) {
        lemma_grows_symbol(env, sym, st, d, fuel);
    }
}

proof fn lemma_grows_ref(
    env: Env,
    mode: RefMode,
    sym: Seq<char>,
    st: EvalState,
    d: Seq<Draw>,
    fuel: nat,
)
    ensures
        memo_grows(st, eval_ref(env, mode, sym, st, d, fuel).state),
    decreases fuel, 2nat, 0nat,
{
    match mode {
        RefMode::Plain => lemma_grows_symbol(env, sym, st, d, fuel),
        RefMode::Memo => lemma_grows_memo(env, sym, st, d, fuel),
        RefMode::Unique => lemma_grows_unique(env, sym, st, d, fuel),
    }
}

/// Expanding a node only adds to the memo: what was remembered stays remembered, unchanged.
pub proof fn lemma_grows_node(env: Env, n: NodeView, st: EvalState, d: Seq<Draw>, fuel: nat)
    ensures
        memo_grows(st, eval_node(env, n, st, d, fuel).state),
    decreases fuel, 3nat, 0nat,
{
    match n {
        NodeView::Expr(mode, sym, _) => lemma_grows_ref(env, mode, sym, st, d, fuel),
        NodeView::Atom(_) => {},
    }
}

proof fn lemma_grows_nodes(
    env: Env,
    nodes: Seq<NodeView>,
    n: nat,
    st: EvalState,
    d: Seq<Draw>,
    fuel: nat,
)
    ensures
        memo_grows(st, eval_nodes(env, nodes, n, st, d, fuel).state),
    decreases fuel, 4nat, n,
{
    if n > 0 {
        lemma_grows_nodes(env, nodes, (n - 1) as nat, st, d, fuel);
        let o = eval_nodes(env, nodes, (n - 1) as nat, st, d, fuel);
        if o.result is Ok {
            lemma_grows_node(env, nodes[n - 1], o.state, o.rest, fuel);
        }
    }
}

/// Expanding a template only adds to the memo: what was remembered stays remembered,
/// unchanged.
pub proof fn lemma_grows_template(
    env: Env,
    nodes: Seq<NodeView>,
    st: EvalState,
    d: Seq<Draw>,
    fuel: nat,
)
    ensures
        memo_grows(st, eval_template(env, nodes, st, d, fuel).state),
    decreases fuel, 5nat, 0nat,
{
    lemma_grows_nodes(env, nodes, nodes.len(), st, d, fuel);
}

proof fn lemma_grows_at(
    env: Env,
    b: BranchView,
    idx: nat,
    st: EvalState,
    d: Seq<Draw>,
    fuel: nat,
)
    ensures
        memo_grows(st, eval_at(env, b, idx, st, d, fuel).state),
    decreases fuel, 6nat, 0nat,
{
    match b {
        BranchView::Uniform(ts) => if idx < ts.len() {
            lemma_grows_template(env, ts[idx as int], st, d, fuel);
        },
        BranchView::Weighted(ts, _) => if idx < ts.len() {
            lemma_grows_template(env, ts[idx as int], st, d, fuel);
        },
        BranchView::Empty => {},
    }
}

proof fn lemma_grows_branch(env: Env, b: BranchView, st: EvalState, d: Seq<Draw>, fuel: nat)
    ensures
        memo_grows(st, eval_branch(env, b, st, d, fuel).state),
    decreases fuel, 7nat, 0nat,
{
    match b {
        BranchView::Empty => lemma_grows_at(env, b, 0, st, d, fuel),
        BranchView::Uniform(ts) => if ts.len() > 0 {
            let (k, d1) = crate::semantics::take_pick(d, ts.len());
            lemma_grows_at(env, b, k, st, d1, fuel);
        },
        BranchView::Weighted(_, ws) => {
            let (r, d1) = crate::semantics::take_pick(d, weight_sum(ws));
            lemma_grows_at(env, b, weighted_pick(ws, r), st, d1, fuel);
        },
    }
}

/// A successful expansion of the first `n` nodes passes through a successful expansion of
/// the first `m`: same first `m` trees, and a memo that only grows after it.
proof fn lemma_nodes_prefix(
    env: Env,
    nodes: Seq<NodeView>,
    m: nat,
    n: nat,
    st: EvalState,
    d: Seq<Draw>,
    fuel: nat,
)
    requires
        m <= n,
        eval_nodes(env, nodes, n, st, d, fuel).result is Ok,
    ensures
        ({
            let om = eval_nodes(env, nodes, m, st, d, fuel);
            let on = eval_nodes(env, nodes, n, st, d, fuel);
            &&& om.result is Ok
            &&& om.result->Ok_0.len() == m
            &&& on.result->Ok_0.len() == n
            &&& forall|k: int| 0 <= k < m ==> #[trigger] on.result->Ok_0[k] == om.result->Ok_0[k]
            &&& memo_grows(om.state, on.state)
        }),
    decreases n,
{
    if n > 0 {
        let o = eval_nodes(env, nodes, (n - 1) as nat, st, d, fuel);
        assert(o.result is Ok);
        lemma_grows_node(env, nodes[n - 1], o.state, o.rest, fuel);
        if m < n {
            lemma_nodes_prefix(env, nodes, m, (n - 1) as nat, st, d, fuel);
        } else {
            lemma_nodes_prefix(env, nodes, (n - 1) as nat, (n - 1) as nat, st, d, fuel);
        }
    }
}

/// After a memoised reference to `sym` expands to `chain_of(Memo, t)`, the memo holds `t`
/// for `sym`; a reference to a rule already remembered yields the remembered tree without a
/// draw and without changing the state.
pub proof fn lemma_memo_node_records(env: Env, sym: Seq<char>, st: EvalState, d: Seq<Draw>, fuel: nat)
    ensures
        ({
            let o = eval_node(env, NodeView::Expr(RefMode::Memo, sym, Seq::empty()), st, d, fuel);
            &&& o.result is Ok ==> {
                &&& o.state.memo.contains_key(sym)
                &&& o.result->Ok_0 == chain_of(Tag::Memo, o.state.memo[sym])
            }
            &&& st.memo.contains_key(sym) ==> o == (Outcome {
                result: Ok::<Tree, Fault>(chain_of(Tag::Memo, st.memo[sym])),
                state: st,
                rest: d,
            })
        }),
{
}

/// Within the expansion of any template, two memoised references to the same rule (without
/// filters) expand to the same tree, hence to the same text, whenever the template expands
/// successfully.
pub proof fn lemma_memo_consistent(
    env: Env,
    nodes: Seq<NodeView>,
    sym: Seq<char>,
    i: int,
    j: int,
    st: EvalState,
    d: Seq<Draw>,
    fuel: nat,
)
    requires
        0 <= i < j < nodes.len(),
        nodes[i] == NodeView::Expr(RefMode::Memo, sym, Seq::empty()),
        nodes[j] == NodeView::Expr(RefMode::Memo, sym, Seq::empty()),
    ensures
        ({
            let o = eval_template(env, nodes, st, d, fuel);
            o.result is Ok ==> {
                &&& o.result->Ok_0.children[i] == o.result->Ok_0.children[j]
                &&& text(o.result->Ok_0.children[i]) == text(o.result->Ok_0.children[j])
            }
        }),
{
    let n = nodes.len();
    let on = eval_nodes(env, nodes, n, st, d, fuel);
    if on.result is Ok {
        lemma_nodes_prefix(env, nodes, i as nat, n, st, d, fuel);
        lemma_nodes_prefix(env, nodes, (i + 1) as nat, n, st, d, fuel);
        lemma_nodes_prefix(env, nodes, j as nat, n, st, d, fuel);
        lemma_nodes_prefix(env, nodes, (j + 1) as nat, n, st, d, fuel);
        let oi = eval_nodes(env, nodes, i as nat, st, d, fuel);
        let oi1 = eval_nodes(env, nodes, (i + 1) as nat, st, d, fuel);
        let oj = eval_nodes(env, nodes, j as nat, st, d, fuel);
        let oj1 = eval_nodes(env, nodes, (j + 1) as nat, st, d, fuel);
        lemma_memo_node_records(env, sym, oi.state, oi.rest, fuel);
        lemma_memo_node_records(env, sym, oj.state, oj.rest, fuel);
        lemma_nodes_prefix(env, nodes, (i + 1) as nat, j as nat, st, d, fuel);
        let t = oi1.state.memo[sym];
        assert(oi1.result->Ok_0[i] == chain_of(Tag::Memo, t));
        assert(oj.state.memo.contains_key(sym) && oj.state.memo[sym] == t);
        assert(oj1.result->Ok_0[j] == chain_of(Tag::Memo, t));
        assert(on.result->Ok_0[i] == chain_of(Tag::Memo, t));
        assert(on.result->Ok_0[j] == chain_of(Tag::Memo, t));
    }
}

/// The indices that `k` consecutive polls of a cycle yield, the cycle after them and the
/// draws left.
pub open spec fn polls(c: CycleView, len: nat, d: Seq<Draw>, k: nat) -> (Seq<nat>, CycleView, Seq<
    Draw,
>)
    decreases k,
{
    if k == 0 {
        (Seq::empty(), c, d)
    } else {
        let (is, c1, d1) = polls(c, len, d, (k - 1) as nat);
        let (i, c2, d2) = poll(c1, len, d1);
        (is.push(i), c2, d2)
    }
}

/// From an exhausted cycle (a fresh one is exhausted), `m` consecutive polls of a branch of
/// `m >= 2` alternatives take one ordering of the indices below `m`, whatever the draws, and
/// yield each index exactly once (the ordering read from its end); only the first poll draws,
/// and the cycle is then exhausted again, so the next poll orders the alternatives afresh.
pub proof fn lemma_unique_cycle(c: CycleView, m: nat, d: Seq<Draw>)
    requires
        m >= 2,
        c.next >= c.order.len(),
    ensures
        ({
            let (p, rest) = crate::semantics::take_order(d, m);
            let (is, c1, d1) = polls(c, m, d, m);
            &&& is_ordering(p, m)
            &&& is.map_values(|i: nat| i as usize) == p.reverse()
            &&& is_ordering(is.map_values(|i: nat| i as usize), m)
            &&& c1.order == p
            &&& c1.next == c1.order.len()
            &&& d1 == rest
        }),
{
    let (p, rest) = crate::semantics::take_order(d, m);
    assert(is_ordering(p, m)) by {
        if !(d.len() > 0 && d[0] is Order && is_ordering(d[0]->Order_0, m)) {
            assert(index_range(m).len() == m);
        }
    }
    lemma_unique_cycle_prefix(c, m, d, m);
    let (is, c1, d1) = polls(c, m, d, m);
    assert(is.map_values(|i: nat| i as usize) =~= p.reverse());
    lemma_reverse_multiset(p);
}

proof fn lemma_reverse_multiset(s: Seq<usize>)
    ensures
        s.reverse().to_multiset() == s.to_multiset(),
    decreases s.len(),
{
    if s.len() > 0 {
        let d = s.drop_last();
        lemma_reverse_multiset(d);
        assert(s.reverse() =~= d.reverse().insert(0, s.last()));
        vstd::seq_lib::to_multiset_insert(d.reverse(), 0, s.last());
        vstd::seq_lib::to_multiset_build(d, s.last());
        assert(d.push(s.last()) =~= s);
    } else {
        assert(s.reverse() =~= s);
    }
}

proof fn lemma_unique_cycle_prefix(c: CycleView, m: nat, d: Seq<Draw>, k: nat)
    requires
        m >= 2,
        c.next >= c.order.len(),
        1 <= k <= m,
    ensures
        ({
            let (p, rest) = crate::semantics::take_order(d, m);
            let (is, c1, d1) = polls(c, m, d, k);
            &&& p.len() == m
            &&& is.len() == k
            &&& forall|i: int| 0 <= i < k ==> #[trigger] is[i] == p[m - 1 - i] as nat
            &&& c1 == CycleView { order: p, next: k }
            &&& d1 == rest
        }),
    decreases k,
{
    let (p, rest) = crate::semantics::take_order(d, m);
    assert(p.len() == m);
    if k == 1 {
        assert(polls(c, m, d, 0) == (Seq::<nat>::empty(), c, d));
        assert(poll(c, m, d) == (p[m - 1] as nat, CycleView { order: p, next: 1 }, rest));
        let (is, c1, d1) = polls(c, m, d, 1);
        assert(is =~= seq![p[m - 1] as nat]);
    } else {
        lemma_unique_cycle_prefix(c, m, d, (k - 1) as nat);
        let (is0, c0, d0) = polls(c, m, d, (k - 1) as nat);
        assert(poll(c0, m, d0) == (p[m - k] as nat, CycleView { order: p, next: k }, rest));
        let (is, c1, d1) = polls(c, m, d, k);
        assert(is == is0.push(p[m - k] as nat));
    }
}

/// The sum of the first `i` weights.
pub open spec fn weight_below(ws: Seq<nat>, i: nat) -> nat {
    weight_sum(ws.take(i as int))
}

/// A draw `r` below the total weight selects alternative `i` exactly when it lies in
/// `[w_0 + ... + w_(i-1), w_0 + ... + w_i)`: each alternative owns a stretch of draws as long
/// as its weight, so under a uniform draw alternative `i` comes with probability `w_i / sum`.
pub proof fn lemma_weighted_pick_interval(ws: Seq<nat>, r: nat, i: nat)
    requires
        r < weight_sum(ws),
        i < ws.len(),
    ensures
        (weighted_pick(ws, r) == i) <==> (weight_below(ws, i) <= r < weight_below(ws, i) + ws[i as int]),
    decreases ws.len(),
{
    assert(ws.take(0) =~= Seq::<nat>::empty());
    assert(weight_sum(ws.take(0)) == 0);
    if i > 0 {
        let t = ws.take(i as int);
        assert(t.drop_first() =~= ws.drop_first().take(i - 1));
        assert(t[0] == ws[0]);
        assert(weight_below(ws, i) == ws[0] + weight_below(ws.drop_first(), (i - 1) as nat));
        if r >= ws[0] {
            lemma_weighted_pick_interval(ws.drop_first(), (r - ws[0]) as nat, (i - 1) as nat);
            assert(ws.drop_first()[i - 1] == ws[i as int]);
        } else {
            assert(weighted_pick(ws, r) == 0);
        }
    }
}

/// A reference to an undefined rule expands to empty text, drawing nothing and changing no
/// state, in lenient mode; in strict mode it fails with an undefined-rule fault naming it.
pub proof fn lemma_undefined_reference(
    reg: RegistryView,
    sym: Seq<char>,
    st: EvalState,
    d: Seq<Draw>,
    fuel: nat,
)
    requires
        !reg.rules.contains_key(sym),
        fuel > 0,
    ensures
        eval_symbol(Env { reg, strict: false }, sym, st, d, fuel) == (Outcome {
            result: Ok::<Tree, Fault>(empty_expansion()),
            state: st,
            rest: d,
        }),
        text(empty_expansion()) == Seq::<char>::empty(),
        eval_symbol(Env { reg, strict: true }, sym, st, d, fuel) == failed::<Tree>(
            Fault::UndefinedRule(sym),
            st,
            d,
        ),
{
    let kids = seq![atom(Seq::<char>::empty())];
    assert(kids.subrange(0, 0) =~= Seq::<Tree>::empty());
    assert(texts(kids.subrange(0, 0)) == Seq::<char>::empty());
    assert(text(atom(Seq::<char>::empty())) == Seq::<char>::empty());
    assert(kids[0] == atom(Seq::<char>::empty()));
    assert(texts(kids) =~= Seq::<char>::empty());
}

/// The text of a node with a single child, other than an atom, is the child's text.
pub proof fn lemma_text_chain(tag: Tag, t: Tree)
    requires
        !(tag is Atom),
    ensures
        text(chain_of(tag, t)) == text(t),
{
    let kids = seq![t];
    assert(kids.subrange(0, 0) =~= Seq::<Tree>::empty());
    assert(texts(kids.subrange(0, 0)) == Seq::<char>::empty());
    assert(Seq::<char>::empty() + text(t) =~= text(t));
}

/// A generation from a rule with a single alternative draws one pick (below 1) and expands
/// that alternative's template from the fresh state, under the branch and result nodes.
pub proof fn lemma_single_alternative_generation(
    env: Env,
    start: Seq<char>,
    nodes: Seq<NodeView>,
    d: Seq<Draw>,
    fuel: nat,
)
    requires
        env.reg.rules.contains_key(start),
        env.reg.rules[start] == BranchView::Uniform(seq![nodes]),
        fuel >= 1,
    ensures
        generation(env, start, d, fuel) == match eval_template(
            env,
            nodes,
            fresh_state(),
            take_pick(d, 1).1,
            (fuel - 1) as nat,
        ).result {
            Ok(t) => Ok(chain_of(Tag::Result, chain_of(Tag::UniformBranch, t))),
            Err(f) => Err(f),
        },
{
    let (k, d1) = take_pick(d, 1);
    assert(k == 0);
    assert(seq![nodes][0] == nodes);
}

/// A rule whose single alternative is a text without braces generates exactly that text.
pub proof fn lemma_literal_generation(env: Env, start: Seq<char>, s: Seq<char>, d: Seq<Draw>, fuel: nat)
    requires
        forall|i: int| 0 <= i < s.len() ==> s[i] != '{' && s[i] != '}',
        env.reg.rules.contains_key(start),
        env.reg.rules[start] == BranchView::Uniform(seq![parse_template(s)->Ok_0]),
        fuel >= 1,
    ensures
        generation(env, start, d, fuel) is Ok,
        text(generation(env, start, d, fuel)->Ok_0) == s,
{
    lemma_literal_round_trip(env, s, fresh_state(), take_pick(d, 1).1, (fuel - 1) as nat);
    lemma_single_alternative_generation(env, start, parse_template(s)->Ok_0, d, fuel);
    let t = eval_template(
        env,
        parse_template(s)->Ok_0,
        fresh_state(),
        take_pick(d, 1).1,
        (fuel - 1) as nat,
    ).result->Ok_0;
    lemma_text_chain(Tag::UniformBranch, t);
    lemma_text_chain(Tag::Result, chain_of(Tag::UniformBranch, t));
}

/// In a generation from a rule with a single alternative, two memoised references to the same
/// rule in that alternative expand to the same tree, hence the same text.
pub proof fn lemma_memo_generation(
    env: Env,
    start: Seq<char>,
    nodes: Seq<NodeView>,
    sym: Seq<char>,
    i: int,
    j: int,
    d: Seq<Draw>,
    fuel: nat,
)
    requires
        env.reg.rules.contains_key(start),
        env.reg.rules[start] == BranchView::Uniform(seq![nodes]),
        fuel >= 1,
        0 <= i < j < nodes.len(),
        nodes[i] == NodeView::Expr(RefMode::Memo, sym, Seq::empty()),
        nodes[j] == NodeView::Expr(RefMode::Memo, sym, Seq::empty()),
    ensures
        generation(env, start, d, fuel) matches Ok(t) ==> {
            let kids = t.children[0].children[0].children;
            &&& kids[i] == kids[j]
            &&& text(kids[i]) == text(kids[j])
        },
{
    lemma_single_alternative_generation(env, start, nodes, d, fuel);
    lemma_memo_consistent(
        env,
        nodes,
        sym,
        i,
        j,
        fresh_state(),
        take_pick(d, 1).1,
        (fuel - 1) as nat,
    );
}

/// A plain reference to an undefined rule, as a node of a template, renders as empty text
/// without a draw or a change of state in lenient mode, and stops the expansion with an
/// undefined-rule fault naming the rule in strict mode.
pub proof fn lemma_undefined_reference_node(
    reg: RegistryView,
    sym: Seq<char>,
    st: EvalState,
    d: Seq<Draw>,
    fuel: nat,
)
    requires
        !reg.rules.contains_key(sym),
        fuel > 0,
    ensures
        ({
            let o = eval_node(
                Env { reg, strict: false },
                NodeView::Expr(RefMode::Plain, sym, Seq::empty()),
                st,
                d,
                fuel,
            );
            &&& o.result is Ok
            &&& text(o.result->Ok_0) == Seq::<char>::empty()
            &&& o.state == st
            &&& o.rest == d
        }),
        eval_node(
            Env { reg, strict: true },
            NodeView::Expr(RefMode::Plain, sym, Seq::empty()),
            st,
            d,
            fuel,
        ) == failed::<Tree>(Fault::UndefinedRule(sym), st, d),
{
    lemma_undefined_reference(reg, sym, st, d, fuel);
    lemma_text_chain(Tag::Expression, empty_expansion());
}

} // verus!
