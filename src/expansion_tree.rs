use vstd::prelude::*;

verus! {

/// The production kind that created a node of an expansion tree.
#[derive(Clone, Debug)]
pub enum ExpansionType {
    Atom(String),
    Result,
    UniformBranch,
    WeightedBranch,
    EmptyBranch,
    AffixTable,
    Template,
    Expression,
    ExpressionChain,
    Memo,
    Unique,
}

/// Mathematical form of an `ExpansionType`: the text of an atom as a sequence of characters.
pub enum Tag {
    Atom(Seq<char>),
    Result,
    UniformBranch,
    WeightedBranch,
    EmptyBranch,
    AffixTable,
    Template,
    Expression,
    ExpressionChain,
    Memo,
    Unique,
}

/// Mathematical form of an `ExpansionTree`.
pub struct Tree {
    pub tag: Tag,
    pub children: Seq<Tree>,
}

impl View for ExpansionType {
    type V = Tag;

    open spec fn view(&self) -> Tag {
        match self {
            ExpansionType::Atom(s) => Tag::Atom(s@),
            ExpansionType::Result => Tag::Result,
            ExpansionType::UniformBranch => Tag::UniformBranch,
            ExpansionType::WeightedBranch => Tag::WeightedBranch,
            ExpansionType::EmptyBranch => Tag::EmptyBranch,
            ExpansionType::AffixTable => Tag::AffixTable,
            ExpansionType::Template => Tag::Template,
            ExpansionType::Expression => Tag::Expression,
            ExpansionType::ExpressionChain => Tag::ExpressionChain,
            ExpansionType::Memo => Tag::Memo,
            ExpansionType::Unique => Tag::Unique,
        }
    }
}

/// A tagged output tree; its atoms, read left to right, form the generated text.
#[derive(Debug)]
pub struct ExpansionTree {
    children: Vec<ExpansionTree>,
    symbol: ExpansionType,
}

/// The models of a sequence of trees, one for one.
pub closed spec fn trees_view(ts: Seq<ExpansionTree>) -> Seq<Tree>
    decreases ts,
{
    if ts.len() == 0 {
        Seq::empty()
    } else {
        trees_view(ts.subrange(0, ts.len() - 1)).push(tree_view(ts[ts.len() - 1]))
    }
}

pub closed spec fn tree_view(t: ExpansionTree) -> Tree
    decreases t,
{
    Tree { tag: t.symbol@, children: trees_view(t.children@) }
}

impl View for ExpansionTree {
    type V = Tree;

    open spec fn view(&self) -> Tree {
        tree_view(*self)
    }
}

/// A node with the given tag and children.
pub open spec fn node(tag: Tag, children: Seq<Tree>) -> Tree {
    Tree { tag, children }
}

/// A node with the given tag and a single child.
pub open spec fn chain_of(tag: Tag, child: Tree) -> Tree {
    Tree { tag, children: seq![child] }
}

/// A leaf holding `s`.
pub open spec fn atom(s: Seq<char>) -> Tree {
    Tree { tag: Tag::Atom(s), children: Seq::empty() }
}

/// The text of a tree: the atoms' text, depth first and left to right.
pub open spec fn text(t: Tree) -> Seq<char>
    decreases t,
{
    match t.tag {
        Tag::Atom(s) => s,
        _ => texts(t.children),
    }
}

/// The texts of a sequence of trees, concatenated.
pub open spec fn texts(ts: Seq<Tree>) -> Seq<char>
    decreases ts,
{
    if ts.len() == 0 {
        Seq::empty()
    } else {
        texts(ts.subrange(0, ts.len() - 1)) + text(ts[ts.len() - 1])
    }
}

proof fn lemma_trees_view_len(ts: Seq<ExpansionTree>)
    ensures
        trees_view(ts).len() == ts.len(),
        forall|i: int| 0 <= i < ts.len() ==> #[trigger] trees_view(ts)[i] == tree_view(ts[i]),
    decreases ts.len(),
{
    if ts.len() > 0 {
        lemma_trees_view_len(ts.subrange(0, ts.len() - 1));
        assert forall|i: int| 0 <= i < ts.len() implies #[trigger] trees_view(ts)[i] == tree_view(
            ts[i],
        ) by {
            if i < ts.len() - 1 {
                assert(ts.subrange(0, ts.len() - 1)[i] == ts[i]);
            }
        }
    }
}

/// Unrolling `trees_view` on a sequence given as a whole.
pub proof fn lemma_trees_view(ts: Seq<ExpansionTree>)
    ensures
        trees_view(ts) == ts.map_values(|t: ExpansionTree| tree_view(t)),
{
    lemma_trees_view_len(ts);
    assert(trees_view(ts) =~= ts.map_values(|t: ExpansionTree| tree_view(t)));
}

impl ExpansionTree {
    /// A node tagged `symbol` over the given children.
    pub fn new(symbol: ExpansionType, tail: Vec<ExpansionTree>) -> (r: Self)
        ensures
            r@ == node(symbol@, tail@.map_values(|t: ExpansionTree| t@)),
    {
        let r = ExpansionTree { children: tail, symbol };
        proof {
            lemma_trees_view(tail@);
            assert(tail@.map_values(|t: ExpansionTree| t@) =~= tail@.map_values(
                |t: ExpansionTree| tree_view(t),
            ));
        }
        r
    }

    /// A node tagged `symbol` over the single child `tail`.
    pub fn chain(symbol: ExpansionType, tail: ExpansionTree) -> (r: Self)
        ensures
            r@ == chain_of(symbol@, tail@),
    {
        let children = vec![tail];
        proof {
            lemma_trees_view(children@);
            assert(trees_view(children@) =~= seq![tail@]);
        }
        ExpansionTree { children, symbol }
    }

    /// A leaf holding `term`.
    pub fn new_atom(term: String) -> (r: Self)
        ensures
            r@ == atom(term@),
    {
        let children: Vec<ExpansionTree> = Vec::new();
        proof {
            assert(trees_view(children@) =~= Seq::<Tree>::empty());
        }
        ExpansionTree { children, symbol: ExpansionType::Atom(term) }
    }

    /// The children of this node.
    pub fn children(&self) -> (r: &Vec<ExpansionTree>)
        ensures
            r@.map_values(|t: ExpansionTree| t@) == self@.children,
    {
        proof {
            lemma_trees_view(self.children@);
            assert(self.children@.map_values(|t: ExpansionTree| t@) =~= self.children@.map_values(
                |t: ExpansionTree| tree_view(t),
            ));
        }
        &self.children
    }

    /// The tag of this node.
    pub fn symbol(&self) -> (r: &ExpansionType)
        ensures
            r@ == self@.tag,
    {
        &self.symbol
    }

    /// The generated text: the atoms of the tree, depth first and left to right.
    pub fn flatten(&self) -> (r: String)
        ensures
            r@ == text(self@),
    {
        let mut term = String::new();
        self.collect_atoms(&mut term);
        proof {
            assert(term@ =~= Seq::<char>::empty() + text(self@));
        }
        term
    }

    fn collect_atoms(&self, concat: &mut String)
        ensures
            final(concat)@ == old(concat)@ + text(self@),
        decreases self,
    {
        match &self.symbol {
            ExpansionType::Atom(term) => {
                concat.append(term.as_str());
            },
            _ => {
                let ghost start = concat@;
                proof {
                    lemma_trees_view_len(self.children@);
                }
                let mut i: usize = 0;
                while i < self.children.len()
                    invariant
                        0 <= i <= self.children@.len(),
                        trees_view(self.children@).len() == self.children@.len(),
                        forall|j: int|
                            0 <= j < self.children@.len() ==> #[trigger] trees_view(
                                self.children@,
                            )[j] == tree_view(self.children@[j]),
                        concat@ == start + texts(trees_view(self.children@).subrange(0, i as int)),
                    decreases self.children@.len() - i,
                {
                    let ghost before = concat@;
                    assert(decreases_to!(self => self.children@[i as int]));
                    self.children[i].collect_atoms(concat);
                    proof {
                        let vs = trees_view(self.children@);
                        let pre = vs.subrange(0, i as int + 1);
                        assert(pre.subrange(0, i as int) =~= vs.subrange(0, i as int));
                        assert(concat@ =~= start + texts(pre));
                    }
                    i = i + 1;
                }
                proof {
                    assert(trees_view(self.children@).subrange(0, i as int) =~= trees_view(
                        self.children@,
                    ));
                }
            },
        }
    }

    /// A copy of this tree with the same model.
    pub fn duplicate(&self) -> (r: ExpansionTree)
        ensures
            r@ == self@,
        decreases self,
    {
        let symbol = match &self.symbol {
            ExpansionType::Atom(s) => ExpansionType::Atom(s.clone()),
            ExpansionType::Result => ExpansionType::Result,
            ExpansionType::UniformBranch => ExpansionType::UniformBranch,
            ExpansionType::WeightedBranch => ExpansionType::WeightedBranch,
            ExpansionType::EmptyBranch => ExpansionType::EmptyBranch,
            ExpansionType::AffixTable => ExpansionType::AffixTable,
            ExpansionType::Template => ExpansionType::Template,
            ExpansionType::Expression => ExpansionType::Expression,
            ExpansionType::ExpressionChain => ExpansionType::ExpressionChain,
            ExpansionType::Memo => ExpansionType::Memo,
            ExpansionType::Unique => ExpansionType::Unique,
        };
        let mut children: Vec<ExpansionTree> = Vec::new();
        proof {
            lemma_trees_view_len(self.children@);
        }
        let mut i: usize = 0;
        while i < self.children.len()
            invariant
                0 <= i <= self.children@.len(),
                children@.len() == i,
                forall|j: int| 0 <= j < i ==> #[trigger] children@[j]@ == self.children@[j]@,
            decreases self.children@.len() - i,
        {
            assert(decreases_to!(self => self.children@[i as int]));
            let c = self.children[i].duplicate();
            children.push(c);
            i = i + 1;
        }
        proof {
            lemma_trees_view_len(children@);
            assert forall|j: int| 0 <= j < children@.len() implies #[trigger] trees_view(
                children@,
            )[j] == trees_view(self.children@)[j] by {
                assert(children@[j]@ == self.children@[j]@);
            }
            assert(trees_view(children@) =~= trees_view(self.children@));
        }
        ExpansionTree { children, symbol }
    }
}

} // verus!
