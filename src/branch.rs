use crate::error::{result_view, CalyxError, Fault};
use crate::template::{parse_template, NodeView, TemplateNode};
use crate::text::{text_le, text_leq};
use vstd::prelude::*;

verus! {

/// An alternative of a weighted rule.
#[derive(Debug)]
pub struct WeightedChoice {
    pub template: TemplateNode,
    pub weight: u64,
}

/// The alternatives a rule may expand to.
#[derive(Debug)]
pub enum Branch {
    /// A single alternative that expands to empty text.
    Empty,
    /// Alternatives that are equally likely.
    Uniform(Vec<TemplateNode>),
    /// Alternatives with weights, in the order of their literal text, and the sum of the weights.
    Weighted(Vec<WeightedChoice>, u64),
}

/// Mathematical form of a `Branch`.
pub enum BranchView {
    Empty,
    Uniform(Seq<Seq<NodeView>>),
    /// The templates and their weights, position for position.
    Weighted(Seq<Seq<NodeView>>, Seq<nat>),
}

pub open spec fn weights_of(cs: Seq<WeightedChoice>) -> Seq<nat> {
    cs.map_values(|c: WeightedChoice| c.weight as nat)
}

impl View for Branch {
    type V = BranchView;

    open spec fn view(&self) -> BranchView {
        match self {
            Branch::Empty => BranchView::Empty,
            Branch::Uniform(ts) => BranchView::Uniform(ts@.map_values(|t: TemplateNode| t@)),
            Branch::Weighted(cs, _) => BranchView::Weighted(
                cs@.map_values(|c: WeightedChoice| c.template@),
                weights_of(cs@),
            ),
        }
    }
}

/// The sum of a list of weights.
pub open spec fn weight_sum(ws: Seq<nat>) -> nat
    decreases ws.len(),
{
    if ws.len() == 0 {
        0
    } else {
        ws[0] + weight_sum(ws.drop_first())
    }
}

/// The alternative that a draw `r` below the sum of the weights selects: the first whose
/// running total of weights exceeds `r`.
pub open spec fn weighted_pick(ws: Seq<nat>, r: nat) -> nat
    decreases ws.len(),
{
    if ws.len() == 0 {
        0
    } else if r < ws[0] {
        0
    } else {
        1 + weighted_pick(ws.drop_first(), (r - ws[0]) as nat)
    }
}

/// The number of alternatives of a branch.
pub open spec fn branch_len(b: BranchView) -> nat {
    match b {
        BranchView::Empty => 1,
        BranchView::Uniform(ts) => ts.len(),
        BranchView::Weighted(ts, _) => ts.len(),
    }
}

/// `pairs` with `x` put after the last element whose text does not come after the text of `x`.
pub open spec fn insert_by_text(pairs: Seq<(Seq<char>, u64)>, x: (Seq<char>, u64)) -> Seq<
    (Seq<char>, u64),
>
    decreases pairs.len(),
{
    if pairs.len() == 0 {
        seq![x]
    } else if text_le(pairs.last().0, x.0) {
        pairs.push(x)
    } else {
        insert_by_text(pairs.drop_last(), x).push(pairs.last())
    }
}

/// The pairs in the order of their text; pairs with the same text keep their order.
pub open spec fn sort_by_text(pairs: Seq<(Seq<char>, u64)>) -> Seq<(Seq<char>, u64)>
    decreases pairs.len(),
{
    if pairs.len() == 0 {
        Seq::empty()
    } else {
        insert_by_text(sort_by_text(pairs.drop_last()), pairs.last())
    }
}

/// The templates of a list of raw texts, or the first fault from the left.
pub open spec fn parse_templates(raws: Seq<Seq<char>>) -> Result<Seq<Seq<NodeView>>, Fault>
    decreases raws.len(),
{
    if raws.len() == 0 {
        Ok(Seq::empty())
    } else {
        match parse_templates(raws.drop_last()) {
            Err(x) => Err(x),
            Ok(ts) => match parse_template(raws.last()) {
                Err(x) => Err(x),
                Ok(t) => Ok(ts.push(t)),
            },
        }
    }
}

/// The uniform branch of the raw alternatives.
pub open spec fn uniform_branch(raws: Seq<Seq<char>>) -> Result<BranchView, Fault> {
    match parse_templates(raws) {
        Ok(ts) => Ok(BranchView::Uniform(ts)),
        Err(x) => Err(x),
    }
}

/// The weights of a list of pairs.
pub open spec fn pair_weights(pairs: Seq<(Seq<char>, u64)>) -> Seq<nat> {
    pairs.map_values(|p: (Seq<char>, u64)| p.1 as nat)
}

/// The texts of a list of pairs.
pub open spec fn pair_texts(pairs: Seq<(Seq<char>, u64)>) -> Seq<Seq<char>> {
    pairs.map_values(|p: (Seq<char>, u64)| p.0)
}

/// The weighted branch of alternatives given with weights: they are taken in the order of
/// their text; a zero weight, a sum of zero or a sum beyond `u64::MAX` is an invalid weight.
pub open spec fn weighted_branch(pairs: Seq<(Seq<char>, u64)>) -> Result<BranchView, Fault> {
    let sorted = sort_by_text(pairs);
    let ws = pair_weights(sorted);
    if exists|i: int| 0 <= i < ws.len() && ws[i] == 0 {
        Err(Fault::InvalidWeight)
    } else if weight_sum(ws) == 0 || weight_sum(ws) > u64::MAX {
        Err(Fault::InvalidWeight)
    } else {
        match parse_templates(pair_texts(sorted)) {
            Ok(ts) => Ok(BranchView::Weighted(ts, ws)),
            Err(x) => Err(x),
        }
    }
}

proof fn lemma_parse_fault_stays(raws: Seq<Seq<char>>, k: int, j: int, x: Fault)
    requires
        0 <= k < j <= raws.len(),
        parse_templates(raws.subrange(0, k)) is Ok,
        parse_template(raws[k]) == Err::<Seq<NodeView>, Fault>(x),
    ensures
        parse_templates(raws.subrange(0, j)) == Err::<Seq<Seq<NodeView>>, Fault>(x),
    decreases j,
{
    let p = raws.subrange(0, j);
    if j == k + 1 {
        assert(p.drop_last() =~= raws.subrange(0, k));
    } else {
        lemma_parse_fault_stays(raws, k, j - 1, x);
        assert(p.drop_last() =~= raws.subrange(0, j - 1));
    }
}

proof fn lemma_weight_sum_push(ws: Seq<nat>, w: nat)
    ensures
        weight_sum(ws.push(w)) == weight_sum(ws) + w,
    decreases ws.len(),
{
    if ws.len() > 0 {
        lemma_weight_sum_push(ws.drop_first(), w);
        assert(ws.push(w).drop_first() =~= ws.drop_first().push(w));
        assert(ws.push(w)[0] == ws[0]);
    } else {
        assert(ws.push(w).drop_first() =~= Seq::<nat>::empty());
        assert(weight_sum(ws.push(w).drop_first()) == 0);
        assert(ws.push(w)[0] == w);
    }
}

/// Parses each raw text into a template, left to right.
fn parse_all(raws: &Vec<String>) -> (r: Result<Vec<TemplateNode>, CalyxError>)
    ensures
        match r {
            Ok(ts) => parse_templates(raws@.map_values(|s: String| s@)) == Ok::<
                Seq<Seq<NodeView>>,
                Fault,
            >(ts@.map_values(|t: TemplateNode| t@)),
            Err(e) => parse_templates(raws@.map_values(|s: String| s@)) == Err::<
                Seq<Seq<NodeView>>,
                Fault,
            >(e@),
        },
{
    let ghost rs = raws@.map_values(|s: String| s@);
    let mut choices: Vec<TemplateNode> = Vec::new();
    let mut k: usize = 0;
    proof {
        assert(rs.subrange(0, 0) =~= Seq::<Seq<char>>::empty());
        assert(choices@.map_values(|t: TemplateNode| t@) =~= Seq::<Seq<NodeView>>::empty());
    }
    while k < raws.len()
        invariant
            rs == raws@.map_values(|s: String| s@),
            k <= raws@.len(),
            parse_templates(rs.subrange(0, k as int)) == Ok::<Seq<Seq<NodeView>>, Fault>(
                choices@.map_values(|t: TemplateNode| t@),
            ),
        decreases raws@.len() - k,
    {
        let ghost before = choices@.map_values(|t: TemplateNode| t@);
        proof {
            assert(rs.subrange(0, k as int + 1).drop_last() =~= rs.subrange(0, k as int));
            assert(rs.subrange(0, k as int + 1).last() == raws@[k as int]@);
        }
        match TemplateNode::parse(&raws[k]) {
            Ok(t) => {
                choices.push(t);
                proof {
                    assert(choices@.map_values(|t: TemplateNode| t@) =~= before.push(t@));
                }
            },
            Err(e) => {
                proof {
                    lemma_parse_fault_stays(rs, k as int, rs.len() as int, e@);
                    assert(rs.subrange(0, rs.len() as int) =~= rs);
                }
                return Err(e);
            },
        }
        k = k + 1;
    }
    proof {
        assert(rs.subrange(0, k as int) =~= rs);
    }
    Ok(choices)
}

/// The texts and weights of a list of pairs.
pub open spec fn pairs_view(v: Seq<(String, u64)>) -> Seq<(Seq<char>, u64)> {
    v.map_values(|p: (String, u64)| (p.0@, p.1))
}

fn insert_in_text_order(v: &mut Vec<(String, u64)>, x: (String, u64))
    ensures
        pairs_view(final(v)@) == insert_by_text(pairs_view(old(v)@), (x.0@, x.1)),
{
    let ghost p = pairs_view(v@);
    let ghost xv = (x.0@, x.1);
    let mut j: usize = v.len();
    proof {
        assert(p.take(j as int) =~= p);
        assert(insert_by_text(p, xv) =~= insert_by_text(p.take(j as int), xv) + p.skip(j as int));
    }
    loop
        invariant
            p == pairs_view(v@),
            xv == (x.0@, x.1),
            j <= v@.len(),
            insert_by_text(p, xv) == insert_by_text(p.take(j as int), xv) + p.skip(j as int),
        ensures
            p == pairs_view(v@),
            j <= v@.len(),
            insert_by_text(p, xv) == insert_by_text(p.take(j as int), xv) + p.skip(j as int),
            j == 0 || text_le(p[j - 1].0, xv.0),
        decreases j,
    {
        if j == 0 {
            break ;
        }
        assert(p[j - 1].0 == v@[j - 1].0@);
        if text_leq(v[j - 1].0.as_str(), x.0.as_str()) {
            break ;
        }
        proof {
            let t = p.take(j as int);
            assert(t.drop_last() =~= p.take(j - 1));
            assert(t.last() == p[j - 1]);
            assert(p.skip(j - 1) =~= seq![p[j - 1]] + p.skip(j as int));
            assert(insert_by_text(p.take(j as int), xv) == insert_by_text(p.take(j - 1), xv).push(
                p[j - 1],
            ));
            assert(insert_by_text(p.take(j - 1), xv).push(p[j - 1]) + p.skip(j as int)
                =~= insert_by_text(p.take(j - 1), xv) + p.skip(j - 1));
        }
        j = j - 1;
    }
    v.insert(j, x);
    proof {
        if j == 0 {
            assert(p.take(0) =~= Seq::<(Seq<char>, u64)>::empty());
        } else {
            let t = p.take(j as int);
            assert(t.last() == p[j - 1]);
        }
        assert(pairs_view(v@) =~= p.take(j as int).push(xv) + p.skip(j as int));
    }
}

/// The pairs in the order of their text, as `sort_by_text` gives it.
pub fn sorted_by_text(raw: &Vec<(String, u64)>) -> (r: Vec<(String, u64)>)
    ensures
        pairs_view(r@) == sort_by_text(pairs_view(raw@)),
{
    let ghost p = pairs_view(raw@);
    let mut out: Vec<(String, u64)> = Vec::new();
    let mut k: usize = 0;
    proof {
        assert(p.take(0) =~= Seq::<(Seq<char>, u64)>::empty());
        assert(pairs_view(out@) =~= Seq::<(Seq<char>, u64)>::empty());
    }
    while k < raw.len()
        invariant
            p == pairs_view(raw@),
            k <= raw@.len(),
            pairs_view(out@) == sort_by_text(p.take(k as int)),
        decreases raw@.len() - k,
    {
        let x = (raw[k].0.clone(), raw[k].1);
        insert_in_text_order(&mut out, x);
        proof {
            assert(p.take(k + 1).drop_last() =~= p.take(k as int));
            assert(p.take(k + 1).last() == p[k as int]);
        }
        k = k + 1;
    }
    proof {
        assert(p.take(k as int) =~= p);
    }
    out
}

proof fn lemma_prefix_sum_le(ws: Seq<nat>, i: int)
    requires
        0 <= i <= ws.len(),
    ensures
        weight_sum(ws.take(i)) <= weight_sum(ws),
    decreases ws.len() - i,
{
    if i < ws.len() {
        assert(ws.take(i + 1) =~= ws.take(i).push(ws[i]));
        lemma_weight_sum_push(ws.take(i), ws[i]);
        lemma_prefix_sum_le(ws, i + 1);
    } else {
        assert(ws.take(i) =~= ws);
    }
}

/// The position that `weighted_pick` gives, for a draw below the sum of the weights.
proof fn lemma_pick_in_range(ws: Seq<nat>, r: nat)
    requires
        r < weight_sum(ws),
    ensures
        weighted_pick(ws, r) < ws.len(),
    decreases ws.len(),
{
    if ws.len() > 0 && r >= ws[0] {
        lemma_pick_in_range(ws.drop_first(), (r - ws[0]) as nat);
    }
}

impl Branch {
    /// Well-formed: a weighted branch has at least one alternative, positive weights, and
    /// records their sum.
    pub open spec fn wf(&self) -> bool {
        match self {
            Branch::Weighted(cs, total) => {
                &&& cs@.len() > 0
                &&& forall|i: int| 0 <= i < cs@.len() ==> #[trigger] cs@[i].weight > 0
                &&& weight_sum(weights_of(cs@)) == *total as nat
            },
            _ => true,
        }
    }

    /// The uniform branch of the raw alternatives.
    pub fn uniform(raw: &Vec<String>) -> (r: Result<Branch, CalyxError>)
        ensures
            result_view(r) == uniform_branch(raw@.map_values(|s: String| s@)),
            r matches Ok(b) ==> b.wf(),
    {
        match parse_all(raw) {
            Ok(choices) => Ok(Branch::Uniform(choices)),
            Err(e) => Err(e),
        }
    }

    /// The weighted branch of alternatives given with their weights.
    pub fn weighted(raw: &Vec<(String, u64)>) -> (r: Result<Branch, CalyxError>)
        ensures
            result_view(r) == weighted_branch(pairs_view(raw@)),
            r matches Ok(b) ==> b.wf(),
    {
        let sorted = sorted_by_text(raw);
        let ghost sp = pairs_view(sorted@);
        let ghost ws = pair_weights(sp);
        let mut total: u64 = 0;
        let mut i: usize = 0;
        proof {
            assert(ws.take(0) =~= Seq::<nat>::empty());
        }
        while i < sorted.len()
            invariant
                sp == pairs_view(sorted@),
                sp == sort_by_text(pairs_view(raw@)),
                ws == pair_weights(sp),
                i <= sorted@.len(),
                total as nat == weight_sum(ws.take(i as int)),
                forall|j: int| 0 <= j < i ==> ws[j] > 0,
            decreases sorted@.len() - i,
        {
            let w = sorted[i].1;
            assert(ws[i as int] == w as nat);
            if w == 0 {
                assert(exists|j: int| 0 <= j < ws.len() && ws[j] == 0);
                return Err(CalyxError::InvalidWeight);
            }
            proof {
                assert(ws.take(i + 1) =~= ws.take(i as int).push(ws[i as int]));
                lemma_weight_sum_push(ws.take(i as int), ws[i as int]);
            }
            if total > u64::MAX - w {
                proof {
                    lemma_prefix_sum_le(ws, i + 1);
                }
                return Err(CalyxError::InvalidWeight);
            }
            total = total + w;
            i = i + 1;
        }
        proof {
            assert(ws.take(i as int) =~= ws);
        }
        if total == 0 {
            return Err(CalyxError::InvalidWeight);
        }
        proof {
            if sorted@.len() == 0 {
                assert(ws =~= Seq::<nat>::empty());
            }
        }
        let ghost rs = pair_texts(sp);
        let mut choices: Vec<WeightedChoice> = Vec::new();
        let mut k: usize = 0;
        proof {
            assert(rs.subrange(0, 0) =~= Seq::<Seq<char>>::empty());
            assert(choices@.map_values(|c: WeightedChoice| c.template@) =~= Seq::<
                Seq<NodeView>,
            >::empty());
        }
        while k < sorted.len()
            invariant
                sp == pairs_view(sorted@),
                sp == sort_by_text(pairs_view(raw@)),
                ws == pair_weights(sp),
                rs == pair_texts(sp),
                k <= sorted@.len(),
                choices@.len() == k,
                forall|j: int| 0 <= j < k ==> (#[trigger] choices@[j]).weight == sorted@[j].1,
                forall|j: int| 0 <= j < ws.len() ==> #[trigger] ws[j] > 0,
                weight_sum(ws) == total as nat,
                total > 0,
                parse_templates(rs.subrange(0, k as int)) == Ok::<Seq<Seq<NodeView>>, Fault>(
                    choices@.map_values(|c: WeightedChoice| c.template@),
                ),
            decreases sorted@.len() - k,
        {
            let ghost before = choices@.map_values(|c: WeightedChoice| c.template@);
            proof {
                assert(rs.subrange(0, k as int + 1).drop_last() =~= rs.subrange(0, k as int));
                assert(rs.subrange(0, k as int + 1).last() == sorted@[k as int].0@);
            }
            match TemplateNode::parse(&sorted[k].0) {
                Ok(t) => {
                    choices.push(WeightedChoice { template: t, weight: sorted[k].1 });
                    proof {
                        assert(choices@.map_values(|c: WeightedChoice| c.template@) =~= before.push(
                            t@,
                        ));
                    }
                },
                Err(e) => {
                    proof {
                        lemma_parse_fault_stays(rs, k as int, rs.len() as int, e@);
                        assert(rs.subrange(0, rs.len() as int) =~= rs);
                    }
                    return Err(e);
                },
            }
            k = k + 1;
        }
        proof {
            assert(rs.subrange(0, k as int) =~= rs);
            assert(weights_of(choices@) =~= ws);
            assert forall|j: int| 0 <= j < choices@.len() implies #[trigger] choices@[j].weight > 0 by {
                assert(ws[j] > 0);
            }
        }
        Ok(Branch::Weighted(choices, total))
    }

    /// The number of alternatives.
    pub fn len(&self) -> (r: usize)
        ensures
            r as nat == branch_len(self@),
    {
        match self {
            Branch::Empty => 1,
            Branch::Uniform(ts) => ts.len(),
            Branch::Weighted(cs, _) => cs.len(),
        }
    }
}

/// The position of the alternative that the draw `r` selects among weighted choices.
pub(crate) fn weighted_index(cs: &Vec<WeightedChoice>, total: u64, r: u64) -> (i: usize)
    requires
        weight_sum(weights_of(cs@)) == total as nat,
        r < total,
    ensures
        i as nat == weighted_pick(weights_of(cs@), r as nat),
        i < cs@.len(),
{
    let ghost ws = weights_of(cs@);
    let mut acc: u64 = 0;
    let mut i: usize = 0;
    proof {
        assert(ws.skip(0) =~= ws);
    }
    while i < cs.len()
        invariant
            ws == weights_of(cs@),
            i <= cs@.len(),
            acc <= r,
            r < total,
            weight_sum(ws) == total as nat,
            acc as nat + weight_sum(ws.skip(i as int)) == total as nat,
            weighted_pick(ws, r as nat) == i + weighted_pick(ws.skip(i as int), (r - acc) as nat),
        decreases cs@.len() - i,
    {
        let w = cs[i].weight;
        let ghost rest = ws.skip(i as int);
        proof {
            assert(rest[0] == w as nat);
            assert(rest.drop_first() =~= ws.skip(i + 1));
        }
        if r - acc < w {
            proof {
                lemma_pick_in_range(ws, r as nat);
            }
            return i;
        }
        acc = acc + w;
        i = i + 1;
    }
    proof {
        assert(ws.skip(i as int) =~= Seq::<nat>::empty());
    }
    i
}

proof fn lemma_text_le_total(a: Seq<char>, b: Seq<char>)
    ensures
        text_le(a, b) || text_le(b, a),
    decreases a.len(),
{
    if a.len() > 0 && b.len() > 0 && (a[0] as u32) == (b[0] as u32) {
        lemma_text_le_total(a.drop_first(), b.drop_first());
    }
}

proof fn lemma_text_le_trans(a: Seq<char>, b: Seq<char>, c: Seq<char>)
    requires
        text_le(a, b),
        text_le(b, c),
    ensures
        text_le(a, c),
    decreases a.len(),
{
    if a.len() > 0 && b.len() > 0 && c.len() > 0 && (a[0] as u32) == (b[0] as u32) && (b[0] as u32)
        == (c[0] as u32) {
        lemma_text_le_trans(a.drop_first(), b.drop_first(), c.drop_first());
    }
}

/// The pairs come in the order of their text.
pub open spec fn in_text_order(s: Seq<(Seq<char>, u64)>) -> bool {
    forall|i: int, j: int| 0 <= i < j < s.len() ==> text_le(#[trigger] s[i].0, #[trigger] s[j].0)
}

proof fn lemma_insert_bounded(s: Seq<(Seq<char>, u64)>, x: (Seq<char>, u64), b: Seq<char>)
    requires
        forall|i: int| 0 <= i < s.len() ==> text_le(#[trigger] s[i].0, b),
        text_le(x.0, b),
    ensures
        forall|k: int|
            0 <= k < insert_by_text(s, x).len() ==> text_le(#[trigger] insert_by_text(s, x)[k].0, b),
    decreases s.len(),
{
    let r = insert_by_text(s, x);
    if s.len() > 0 && !text_le(s.last().0, x.0) {
        let d = s.drop_last();
        assert forall|i: int| 0 <= i < d.len() implies text_le(#[trigger] d[i].0, b) by {
            assert(d[i] == s[i]);
        }
        lemma_insert_bounded(d, x, b);
        let r0 = insert_by_text(d, x);
        assert forall|k: int| 0 <= k < r.len() implies text_le(#[trigger] r[k].0, b) by {
            if k < r0.len() {
                assert(r[k] == r0[k]);
            } else {
                assert(r[k] == s[s.len() - 1]);
            }
        }
    } else {
        assert forall|k: int| 0 <= k < r.len() implies text_le(#[trigger] r[k].0, b) by {
            if k < s.len() {
                assert(r[k] == s[k]);
            } else {
                assert(r[k] == x);
            }
        }
    }
}

proof fn lemma_insert_in_order(s: Seq<(Seq<char>, u64)>, x: (Seq<char>, u64))
    requires
        in_text_order(s),
    ensures
        in_text_order(insert_by_text(s, x)),
        insert_by_text(s, x).to_multiset() == s.to_multiset().insert(x),
    decreases s.len(),
{
    broadcast use vstd::multiset::group_multiset_axioms;

    if s.len() == 0 {
        vstd::seq_lib::to_multiset_build(s, x);
        assert(s.push(x) =~= seq![x]);
    } else {
        let last = s.last();
        let d = s.drop_last();
        assert(d.push(last) =~= s);
        vstd::seq_lib::to_multiset_build(d, last);
        if text_le(last.0, x.0) {
            vstd::seq_lib::to_multiset_build(s, x);
            assert forall|i: int, j: int| 0 <= i < j < s.push(x).len() implies text_le(
                #[trigger] s.push(x)[i].0,
                #[trigger] s.push(x)[j].0,
            ) by {
                if j == s.len() {
                    if i < s.len() - 1 {
                        lemma_text_le_trans(s[i].0, last.0, x.0);
                    }
                }
            }
        } else {
            assert forall|i: int, j: int| 0 <= i < j < d.len() implies text_le(
                #[trigger] d[i].0,
                #[trigger] d[j].0,
            ) by {
                assert(d[i] == s[i] && d[j] == s[j]);
            }
            lemma_insert_in_order(d, x);
            let r = insert_by_text(d, x);
            lemma_text_le_total(last.0, x.0);
            assert forall|i: int| 0 <= i < d.len() implies text_le(#[trigger] d[i].0, last.0) by {
                assert(d[i] == s[i]);
            }
            lemma_insert_bounded(d, x, last.0);
            vstd::seq_lib::to_multiset_build(r, last);
            assert forall|i: int, j: int| 0 <= i < j < r.push(last).len() implies text_le(
                #[trigger] r.push(last)[i].0,
                #[trigger] r.push(last)[j].0,
            ) by {
                if j < r.len() {
                    assert(r.push(last)[i] == r[i] && r.push(last)[j] == r[j]);
                } else {
                    assert(r.push(last)[i] == r[i]);
                }
            }
            assert(r.push(last).to_multiset() =~= s.to_multiset().insert(x));
        }
    }
}

/// The canonical order of weighted alternatives: `sort_by_text` puts the pairs in the order
/// of their text and keeps each pair, as many times as it was given.
pub proof fn lemma_sort_by_text(pairs: Seq<(Seq<char>, u64)>)
    ensures
        in_text_order(sort_by_text(pairs)),
        sort_by_text(pairs).to_multiset() == pairs.to_multiset(),
    decreases pairs.len(),
{
    broadcast use vstd::multiset::group_multiset_axioms;

    if pairs.len() == 0 {
        assert(pairs =~= Seq::<(Seq<char>, u64)>::empty());
        assert(sort_by_text(pairs) =~= pairs);
    } else {
        let d = pairs.drop_last();
        lemma_sort_by_text(d);
        lemma_insert_in_order(sort_by_text(d), pairs.last());
        assert(d.push(pairs.last()) =~= pairs);
        vstd::seq_lib::to_multiset_build(d, pairs.last());
    }
}

} // verus!
