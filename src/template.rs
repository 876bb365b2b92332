use crate::error::{result_view, CalyxError, Fault};
use crate::text::char_slice;
use vstd::prelude::*;

verus! {

/// How a reference to a rule is expanded.
#[derive(Clone, Copy, Debug, PartialEq, Eq, Structural)]
pub enum RefMode {
    /// `{name}`: a fresh expansion each time.
    Plain,
    /// `{@name}`: the first expansion in a generation, reused after that.
    Memo,
    /// `{$name}`: each alternative once before any repeats.
    Unique,
}

/// A bracketed expression: a reference to a rule and the filters applied to its text.
#[derive(Debug)]
pub struct Expression {
    pub mode: RefMode,
    pub symbol: String,
    pub filters: Vec<String>,
}

/// One piece of a template.
#[derive(Debug)]
pub enum Node {
    Atom(String),
    Expr(Expression),
}

/// Mathematical form of a `Node`.
pub enum NodeView {
    Atom(Seq<char>),
    /// The reference mode, the rule name and the filter names in order.
    Expr(RefMode, Seq<char>, Seq<Seq<char>>),
}

/// The texts of a list of strings.
pub open spec fn texts_of(v: Seq<String>) -> Seq<Seq<char>> {
    v.map_values(|s: String| s@)
}

impl View for Node {
    type V = NodeView;

    open spec fn view(&self) -> NodeView {
        match self {
            Node::Atom(s) => NodeView::Atom(s@),
            Node::Expr(e) => NodeView::Expr(e.mode, e.symbol@, texts_of(e.filters@)),
        }
    }
}

/// One alternative of a rule: a sequence of nodes whose expansions are concatenated.
#[derive(Debug)]
pub struct TemplateNode {
    pub concat_nodes: Vec<Node>,
}

impl View for TemplateNode {
    type V = Seq<NodeView>;

    open spec fn view(&self) -> Seq<NodeView> {
        self.concat_nodes@.map_values(|n: Node| n@)
    }
}

/// Splitting left to right: the fragments completed so far and the one still open.
/// A `{` closes the open fragment and opens a new one; a `}` closes the open fragment.
pub open spec fn scan(s: Seq<char>) -> (Seq<Seq<char>>, Seq<char>)
    decreases s.len(),
{
    if s.len() == 0 {
        (Seq::empty(), Seq::empty())
    } else {
        let (done, cur) = scan(s.drop_last());
        let c = s.last();
        if c == '{' {
            if cur.len() > 0 {
                (done.push(cur), seq!['{'])
            } else {
                (done, seq!['{'])
            }
        } else if c == '}' {
            (done.push(cur.push('}')), Seq::empty())
        } else {
            (done, cur.push(c))
        }
    }
}

/// The literal and bracketed fragments of a raw template.
pub open spec fn fragments(s: Seq<char>) -> Seq<Seq<char>> {
    let (done, cur) = scan(s);
    if cur.len() > 0 {
        done.push(cur)
    } else {
        done
    }
}

/// The components of `s` between dots.
pub open spec fn split_dots(s: Seq<char>) -> Seq<Seq<char>>
    decreases s.len(),
{
    if s.len() == 0 {
        seq![Seq::empty()]
    } else {
        let p = split_dots(s.drop_last());
        if s.last() == '.' {
            p.push(Seq::empty())
        } else {
            p.update(p.len() - 1, p.last().push(s.last()))
        }
    }
}

/// A reference with its sigil: `@` memoised, `$` unique, otherwise plain.
pub open spec fn simple_expression(e: Seq<char>) -> Result<(RefMode, Seq<char>), Fault> {
    if e.len() == 0 {
        Err(Fault::InvalidExpression(e))
    } else if e[0] == '@' {
        Ok((RefMode::Memo, e.drop_first()))
    } else if e[0] == '$' {
        Ok((RefMode::Unique, e.drop_first()))
    } else {
        Ok((RefMode::Plain, e))
    }
}

/// The node for the inner text of a bracket: a reference followed by its filter names.
pub open spec fn expression(e: Seq<char>) -> Result<NodeView, Fault> {
    let comps = split_dots(e);
    match simple_expression(comps[0]) {
        Err(f) => Err(f),
        Ok((mode, sym)) => Ok(NodeView::Expr(mode, sym, comps.drop_first())),
    }
}

/// A fragment that opens with `{` and closes with `}`.
pub open spec fn is_bracketed(f: Seq<char>) -> bool {
    f.len() > 0 && f[0] == '{' && f.last() == '}'
}

/// The nodes of one fragment: none for an empty one, an expression for a bracketed one,
/// an atom otherwise.
pub open spec fn fragment_nodes(f: Seq<char>) -> Result<Seq<NodeView>, Fault> {
    if f.len() == 0 {
        Ok(Seq::empty())
    } else if is_bracketed(f) {
        match expression(f.subrange(1, f.len() - 1)) {
            Ok(n) => Ok(seq![n]),
            Err(x) => Err(x),
        }
    } else {
        Ok(seq![NodeView::Atom(f)])
    }
}

/// The nodes of a list of fragments, or the first fault from the left.
pub open spec fn fragments_nodes(fs: Seq<Seq<char>>) -> Result<Seq<NodeView>, Fault>
    decreases fs.len(),
{
    if fs.len() == 0 {
        Ok(Seq::empty())
    } else {
        match fragments_nodes(fs.drop_last()) {
            Err(x) => Err(x),
            Ok(ns) => match fragment_nodes(fs.last()) {
                Err(x) => Err(x),
                Ok(ms) => Ok(ns + ms),
            },
        }
    }
}

/// The parsed form of a raw template.
pub open spec fn parse_template(s: Seq<char>) -> Result<Seq<NodeView>, Fault> {
    fragments_nodes(fragments(s))
}

proof fn lemma_split_dots_len(s: Seq<char>)
    ensures
        split_dots(s).len() >= 1,
    decreases s.len(),
{
    if s.len() > 0 {
        lemma_split_dots_len(s.drop_last());
    }
}

proof fn lemma_fault_stays(fs: Seq<Seq<char>>, k: int, j: int, x: Fault)
    requires
        0 <= k < j <= fs.len(),
        fragments_nodes(fs.subrange(0, k)) is Ok,
        fragment_nodes(fs[k]) == Err::<Seq<NodeView>, Fault>(x),
    ensures
        fragments_nodes(fs.subrange(0, j)) == Err::<Seq<NodeView>, Fault>(x),
    decreases j,
{
    let p = fs.subrange(0, j);
    if j == k + 1 {
        assert(p.drop_last() =~= fs.subrange(0, k));
    } else {
        lemma_fault_stays(fs, k, j - 1, x);
        assert(p.drop_last() =~= fs.subrange(0, j - 1));
    }
}

impl TemplateNode {
    /// Splits a raw template into literal and bracketed fragments, left to right.
    pub fn fragment_string(raw: &str) -> (r: Vec<String>)
        ensures
            texts_of(r@) == fragments(raw@),
    {
        let n = raw.unicode_len();
        let mut done: Vec<String> = Vec::new();
        let mut start: usize = 0;
        let mut i: usize = 0;
        proof {
            assert(raw@.subrange(0, 0) =~= Seq::<char>::empty());
            assert(texts_of(done@) =~= Seq::<Seq<char>>::empty());
        }
        while i < n
            invariant
                n == raw@.len(),
                start <= i <= n,
                scan(raw@.subrange(0, i as int)) == (texts_of(done@), raw@.subrange(
                    start as int,
                    i as int,
                )),
            decreases n - i,
        {
            let c = raw.get_char(i);
            let ghost pre = raw@.subrange(0, i as int + 1);
            let ghost old_done = texts_of(done@);
            let ghost cur = raw@.subrange(start as int, i as int);
            proof {
                assert(pre.drop_last() =~= raw@.subrange(0, i as int));
                assert(pre.last() == c);
            }
            if c == '{' {
                if start < i {
                    let f = char_slice(raw, start, i);
                    done.push(f);
                    proof {
                        assert(texts_of(done@) =~= old_done.push(cur));
                    }
                    start = i;
                }
                proof {
                    assert(raw@.subrange(i as int, i as int + 1) =~= seq!['{']);
                }
            } else if c == '}' {
                let f = char_slice(raw, start, i + 1);
                done.push(f);
                proof {
                    assert(f@ =~= cur.push('}'));
                    assert(texts_of(done@) =~= old_done.push(cur.push('}')));
                    assert(raw@.subrange(i as int + 1, i as int + 1) =~= Seq::<char>::empty());
                }
                start = i + 1;
            } else {
                proof {
                    assert(raw@.subrange(start as int, i as int + 1) =~= cur.push(c));
                }
            }
            i = i + 1;
        }
        let ghost old_done = texts_of(done@);
        proof {
            assert(raw@.subrange(0, n as int) =~= raw@);
        }
        if start < n {
            let f = char_slice(raw, start, n);
            done.push(f);
            proof {
                assert(texts_of(done@) =~= old_done.push(f@));
            }
        }
        done
    }

    /// Splits the inner text of a bracket on dots.
    pub fn split_on_dots(raw: &str) -> (r: Vec<String>)
        ensures
            texts_of(r@) == split_dots(raw@),
    {
        let n = raw.unicode_len();
        let mut comps: Vec<String> = Vec::new();
        let mut start: usize = 0;
        let mut i: usize = 0;
        proof {
            assert(raw@.subrange(0, 0) =~= Seq::<char>::empty());
            assert(texts_of(comps@).push(raw@.subrange(0, 0)) =~= seq![Seq::<char>::empty()]);
        }
        while i < n
            invariant
                n == raw@.len(),
                start <= i <= n,
                split_dots(raw@.subrange(0, i as int)) == texts_of(comps@).push(
                    raw@.subrange(start as int, i as int),
                ),
            decreases n - i,
        {
            let c = raw.get_char(i);
            let ghost pre = raw@.subrange(0, i as int + 1);
            let ghost old_comps = texts_of(comps@);
            let ghost cur = raw@.subrange(start as int, i as int);
            proof {
                assert(pre.drop_last() =~= raw@.subrange(0, i as int));
                assert(pre.last() == c);
            }
            if c == '.' {
                let f = char_slice(raw, start, i);
                comps.push(f);
                start = i + 1;
                proof {
                    assert(texts_of(comps@) =~= old_comps.push(cur));
                    assert(raw@.subrange(start as int, i as int + 1) =~= Seq::<char>::empty());
                }
            } else {
                proof {
                    assert(raw@.subrange(start as int, i as int + 1) =~= cur.push(c));
                    assert(old_comps.push(cur).update(old_comps.len() as int, cur.push(c))
                        =~= old_comps.push(cur.push(c)));
                }
            }
            i = i + 1;
        }
        let ghost old_comps = texts_of(comps@);
        let f = char_slice(raw, start, n);
        comps.push(f);
        proof {
            assert(raw@.subrange(0, n as int) =~= raw@);
            assert(texts_of(comps@) =~= old_comps.push(f@));
        }
        comps
    }

    /// A reference without filters; its first character is the sigil, if any.
    pub fn parse_simple_expression(raw_expression: String) -> (r: Result<Node, CalyxError>)
        ensures
            result_view(r) == match simple_expression(raw_expression@) {
                Ok((mode, sym)) => Ok(NodeView::Expr(mode, sym, Seq::empty())),
                Err(f) => Err(f),
            },
    {
        let n = raw_expression.as_str().unicode_len();
        if n == 0 {
            return Err(CalyxError::InvalidExpression { expression: raw_expression });
        }
        let sigil = raw_expression.as_str().get_char(0);
        let filters: Vec<String> = Vec::new();
        proof {
            assert(texts_of(filters@) =~= Seq::<Seq<char>>::empty());
        }
        if sigil == '@' || sigil == '$' {
            let symbol = char_slice(raw_expression.as_str(), 1, n);
            proof {
                assert(symbol@ =~= raw_expression@.drop_first());
            }
            let mode = if sigil == '@' {
                RefMode::Memo
            } else {
                RefMode::Unique
            };
            Ok(Node::Expr(Expression { mode, symbol, filters }))
        } else {
            Ok(Node::Expr(Expression { mode: RefMode::Plain, symbol: raw_expression, filters }))
        }
    }

    /// A reference, named by the first component, with the remaining components as filters.
    pub fn parse_expression_chain(raw_chain: Vec<String>) -> (r: Result<Node, CalyxError>)
        requires
            raw_chain@.len() >= 1,
        ensures
            result_view(r) == match simple_expression(raw_chain@[0]@) {
                Ok((mode, sym)) => Ok(NodeView::Expr(mode, sym, texts_of(raw_chain@).drop_first())),
                Err(f) => Err(f),
            },
    {
        let ghost given = raw_chain@;
        let mut raw_chain = raw_chain;
        let expression_name = raw_chain.remove(0);
        proof {
            assert(texts_of(raw_chain@) =~= texts_of(given).drop_first()) by {
                assert(raw_chain@ =~= given.drop_first());
            }
        }
        match Self::parse_simple_expression(expression_name) {
            Ok(Node::Expr(e)) => Ok(
                Node::Expr(Expression { mode: e.mode, symbol: e.symbol, filters: raw_chain }),
            ),
            Ok(other) => Ok(other),
            Err(err) => Err(err),
        }
    }

    /// The node for the inner text of a bracket.
    pub fn parse_expression(raw_expression: String) -> (r: Result<Node, CalyxError>)
        ensures
            result_view(r) == expression(raw_expression@),
    {
        let mut components = Self::split_on_dots(raw_expression.as_str());
        proof {
            lemma_split_dots_len(raw_expression@);
            assert(texts_of(components@)[0] == components@[0]@);
        }
        let ghost comps = texts_of(components@);
        if components.len() < 2 {
            let first = components.remove(0);
            let r = Self::parse_simple_expression(first);
            proof {
                assert(comps.drop_first() =~= Seq::<Seq<char>>::empty());
            }
            r
        } else {
            Self::parse_expression_chain(components)
        }
    }

    /// Parses a raw template into its nodes.
    pub fn parse(raw: &String) -> (r: Result<TemplateNode, CalyxError>)
        ensures
            result_view(r) == parse_template(raw@),
    {
        let pieces = Self::fragment_string(raw.as_str());
        let ghost fs = texts_of(pieces@);
        let mut concat_nodes: Vec<Node> = Vec::new();
        let mut k: usize = 0;
        proof {
            assert(fs.subrange(0, 0) =~= Seq::<Seq<char>>::empty());
            assert(concat_nodes@.map_values(|n: Node| n@) =~= Seq::<NodeView>::empty());
        }
        while k < pieces.len()
            invariant
                fs == texts_of(pieces@),
                fs == fragments(raw@),
                k <= pieces@.len(),
                fragments_nodes(fs.subrange(0, k as int)) == Ok::<Seq<NodeView>, Fault>(
                    concat_nodes@.map_values(|n: Node| n@),
                ),
            decreases pieces@.len() - k,
        {
            let fragment = &pieces[k];
            let ghost before = concat_nodes@.map_values(|n: Node| n@);
            let ghost pre = fs.subrange(0, k as int + 1);
            proof {
                assert(pre.drop_last() =~= fs.subrange(0, k as int));
                assert(pre.last() == fragment@);
            }
            let len = fragment.as_str().unicode_len();
            if len == 0 {
                proof {
                    assert(before + Seq::<NodeView>::empty() =~= before);
                }
            } else if fragment.as_str().get_char(0) == '{' && fragment.as_str().get_char(len - 1)
                == '}' {
                let inner = char_slice(fragment.as_str(), 1, len - 1);
                match Self::parse_expression(inner) {
                    Ok(node) => {
                        concat_nodes.push(node);
                        proof {
                            assert(concat_nodes@.map_values(|n: Node| n@) =~= before + seq![
                                node@,
                            ]);
                        }
                    },
                    Err(e) => {
                        proof {
                            lemma_fault_stays(fs, k as int, fs.len() as int, e@);
                            assert(fs.subrange(0, fs.len() as int) =~= fs);
                        }
                        return Err(e);
                    },
                }
            } else {
                let atom = fragment.clone();
                concat_nodes.push(Node::Atom(atom));
                proof {
                    assert(concat_nodes@.map_values(|n: Node| n@) =~= before + seq![
                        NodeView::Atom(fragment@),
                    ]);
                }
            }
            k = k + 1;
        }
        proof {
            assert(fs.subrange(0, k as int) =~= fs);
        }
        Ok(TemplateNode { concat_nodes })
    }
}

} // verus!
