//! Rendering the tree back to markup.
//!
//! Rendering is a pure fold: a childless tag renders self-closing, a tag
//! with children renders open tag, children, close tag, and the tree
//! renders each root followed by a newline.  A boolean attribute renders
//! as its bare name, a valued one as `name="value"`; attributes keep
//! their insertion order, so rendering is deterministic.  Children are
//! concatenated with nothing between them: the open-tag, children,
//! close-tag formula is rendered exactly, with no decorative spacing
//! inside an element.

use vstd::prelude::*;
use crate::chars::chars_to_string;
use crate::chars::clone_chars;
use crate::parse::Dom;
use crate::parse::Node;
use crate::parse::NodeModel;
use crate::parse::node_view;
use crate::parse::nodes_view;
use crate::parse::lemma_nodes_view;

verus! {

/// One rendered attribute, with its leading space: ` key` when the value
/// is empty, else ` key="value"`.
pub open spec fn render_attr_spec(kv: (Seq<char>, Seq<char>)) -> Seq<char> {
    if kv.1.len() == 0 {
        seq![' '] + kv.0
    } else {
        seq![' '] + kv.0 + seq!['=', '"'] + kv.1 + seq!['"']
    }
}

/// All attributes rendered in order.
pub open spec fn render_attrs_spec(m: Seq<(Seq<char>, Seq<char>)>) -> Seq<char>
    decreases m.len(),
{
    if m.len() == 0 {
        Seq::empty()
    } else {
        render_attrs_spec(m.drop_last()) + render_attr_spec(m.last())
    }
}

/// One node rendered to markup.
pub open spec fn render_node_spec(n: NodeModel) -> Seq<char>
    decreases n,
{
    match n {
        NodeModel::Text(content) => content,
        NodeModel::Tag { name, attributes, children } => {
            if children.len() == 0 {
                seq!['<'] + name + render_attrs_spec(attributes) + seq!['/', '>']
            } else {
                seq!['<'] + name + render_attrs_spec(attributes) + seq!['>'] + render_nodes_spec(
                    children,
                ) + seq!['<', '/'] + name + seq!['>']
            }
        },
    }
}

/// A sequence of nodes rendered in order.
pub open spec fn render_nodes_spec(ns: Seq<NodeModel>) -> Seq<char>
    decreases ns,
{
    if ns.len() == 0 {
        Seq::empty()
    } else {
        render_node_spec(ns[0]) + render_nodes_spec(ns.drop_first())
    }
}

/// `render_nodes_spec` distributes over concatenation.
pub proof fn lemma_render_nodes_concat(a: Seq<NodeModel>, b: Seq<NodeModel>)
    ensures
        render_nodes_spec(a + b) == render_nodes_spec(a) + render_nodes_spec(b),
    decreases a.len(),
{
    if a.len() == 0 {
        assert(a + b =~= b);
        assert(render_nodes_spec(a) + render_nodes_spec(b) =~= render_nodes_spec(b));
    } else {
        lemma_render_nodes_concat(a.drop_first(), b);
        assert((a + b).drop_first() =~= a.drop_first() + b);
        assert((a + b)[0] == a[0]);
        assert(render_node_spec(a[0]) + (render_nodes_spec(a.drop_first()) + render_nodes_spec(b))
            =~= (render_node_spec(a[0]) + render_nodes_spec(a.drop_first())) + render_nodes_spec(
            b,
        ));
    }
}

/// A single node renders as itself.
pub proof fn lemma_render_nodes_singleton(x: NodeModel)
    ensures
        render_nodes_spec(seq![x]) == render_node_spec(x),
{
    let s = seq![x];
    assert(s.drop_first() =~= Seq::<NodeModel>::empty());
    assert(render_nodes_spec(s.drop_first()) =~= Seq::<char>::empty());
    assert(render_node_spec(x) + Seq::<char>::empty() =~= render_node_spec(x));
}

/// The whole tree rendered: each root-level node in order, each
/// followed by a newline.
pub open spec fn render_doc_spec(ns: Seq<NodeModel>) -> Seq<char>
    decreases ns,
{
    if ns.len() == 0 {
        Seq::empty()
    } else {
        render_node_spec(ns[0]) + seq!['\n'] + render_doc_spec(ns.drop_first())
    }
}

/// `render_doc_spec` distributes over concatenation.
pub proof fn lemma_render_doc_concat(a: Seq<NodeModel>, b: Seq<NodeModel>)
    ensures
        render_doc_spec(a + b) == render_doc_spec(a) + render_doc_spec(b),
    decreases a.len(),
{
    if a.len() == 0 {
        assert(a + b =~= b);
        assert(render_doc_spec(a) + render_doc_spec(b) =~= render_doc_spec(b));
    } else {
        lemma_render_doc_concat(a.drop_first(), b);
        assert((a + b).drop_first() =~= a.drop_first() + b);
        assert((a + b)[0] == a[0]);
        assert(render_node_spec(a[0]) + seq!['\n'] + (render_doc_spec(a.drop_first())
            + render_doc_spec(b)) =~= (render_node_spec(a[0]) + seq!['\n'] + render_doc_spec(
            a.drop_first(),
        )) + render_doc_spec(b));
    }
}

/// A single root renders as itself and a newline.
pub proof fn lemma_render_doc_singleton(x: NodeModel)
    ensures
        render_doc_spec(seq![x]) == render_node_spec(x) + seq!['\n'],
{
    let s = seq![x];
    assert(s.drop_first() =~= Seq::<NodeModel>::empty());
    assert(render_doc_spec(s.drop_first()) =~= Seq::<char>::empty());
    assert((render_node_spec(x) + seq!['\n']) + Seq::<char>::empty() =~= render_node_spec(x)
        + seq!['\n']);
}

/// The attributes of a map rendered in order.
fn render_attrs(m: &crate::attrs::AttrMap) -> (r: Vec<char>)
    ensures
        r@ == render_attrs_spec(m@),
{
    let mut r: Vec<char> = Vec::new();
    proof {
        assert(m@.subrange(0, 0) =~= Seq::<(Seq<char>, Seq<char>)>::empty());
        assert(r@ =~= render_attrs_spec(m@.subrange(0, 0)));
    }
    let n = m.len();
    let mut i: usize = 0;
    while i < n
        invariant
            0 <= i <= n == m@.len(),
            r@ == render_attrs_spec(m@.subrange(0, i as int)),
        decreases n - i,
    {
        let (key, value) = m.pair_at(i);
        let ghost r0 = r@;
        r.push(' ');
        let mut key_copy = clone_chars(key);
        r.append(&mut key_copy);
        if value.len() > 0 {
            r.push('=');
            r.push('"');
            let mut value_copy = clone_chars(value);
            r.append(&mut value_copy);
            r.push('"');
        }
        proof {
            let pre = m@.subrange(0, i + 1int);
            assert(pre.drop_last() =~= m@.subrange(0, i as int));
            assert(pre.last() == m@[i as int]);
            assert(r@ =~= r0 + render_attr_spec(m@[i as int]));
        }
        i = i + 1;
    }
    proof {
        assert(m@.subrange(0, m@.len() as int) =~= m@);
    }
    r
}

impl Node {
    /// This node rendered to markup characters.
    pub fn render_chars(&self) -> (r: Vec<char>)
        ensures
            r@ == render_node_spec(node_view(*self)),
        decreases *self,
    {
        match self {
            Node::Text(content) => clone_chars(content),
            Node::Tag { name, attributes, children } => {
                let mut r: Vec<char> = Vec::new();
                r.push('<');
                let mut name_copy = clone_chars(name);
                r.append(&mut name_copy);
                let mut attrs = render_attrs(attributes);
                r.append(&mut attrs);
                if children.len() == 0 {
                    r.push('/');
                    r.push('>');
                    proof {
                        assert(nodes_view(children@) =~= Seq::<NodeModel>::empty());
                        assert(r@ =~= seq!['<'] + name@ + render_attrs_spec(attributes@) + seq![
                            '/',
                            '>',
                        ]);
                    }
                    r
                } else {
                    r.push('>');
                    let ghost cs = nodes_view(children@);
                    proof {
                        lemma_nodes_view(children@);
                        assert(cs.subrange(0, 0) =~= Seq::<NodeModel>::empty());
                        assert(render_nodes_spec(cs.subrange(0, 0)) =~= Seq::<char>::empty());
                    }
                    let mut body: Vec<char> = Vec::new();
                    let n = children.len();
                    let mut i: usize = 0;
                    #[verifier::loop_isolation(false)]
                    while i < n
                        invariant
                            0 <= i <= n == children@.len(),
                            cs == nodes_view(children@),
                            cs.len() == children@.len(),
                            forall|k: int|
                                0 <= k < children@.len() ==> cs[k] == node_view(
                                    #[trigger] children@[k],
                                ),
                            body@ == render_nodes_spec(cs.subrange(0, i as int)),
                        decreases n - i,
                    {
                        proof {
                            assert(decreases_to!(*self => self->Tag_children));
                            assert(decreases_to!(self->Tag_children => self->Tag_children@));
                            assert(decreases_to!(
                                self->Tag_children@ => self->Tag_children@[i as int]
                            ));
                            assert(self->Tag_children@[i as int] == children@[i as int]);
                        }
                        let mut piece = children[i].render_chars();
                        let ghost b0 = body@;
                        body.append(&mut piece);
                        proof {
                            let pre = cs.subrange(0, i + 1int);
                            assert(cs.subrange(0, i as int) + seq![cs[i as int]] =~= pre);
                            lemma_render_nodes_concat(
                                cs.subrange(0, i as int),
                                seq![cs[i as int]],
                            );
                            lemma_render_nodes_singleton(cs[i as int]);
                            assert(body@ =~= render_nodes_spec(pre));
                        }
                        i = i + 1;
                    }
                    proof {
                        assert(cs.subrange(0, cs.len() as int) =~= cs);
                    }
                    r.append(&mut body);
                    r.push('<');
                    r.push('/');
                    let mut name_close = clone_chars(name);
                    r.append(&mut name_close);
                    r.push('>');
                    proof {
                        assert(r@ =~= seq!['<'] + name@ + render_attrs_spec(attributes@) + seq![
                            '>',
                        ] + render_nodes_spec(cs) + seq!['<', '/'] + name@ + seq!['>']);
                    }
                    r
                }
            },
        }
    }
}

impl Dom {
    /// The whole tree rendered to markup characters: each root in order,
    /// each followed by a newline.
    pub fn render_chars(&self) -> (r: Vec<char>)
        ensures
            r@ == render_doc_spec(self@),
    {
        let ghost rs = nodes_view(self.nodes@);
        proof {
            lemma_nodes_view(self.nodes@);
            assert(rs.subrange(0, 0) =~= Seq::<NodeModel>::empty());
            assert(render_doc_spec(rs.subrange(0, 0)) =~= Seq::<char>::empty());
        }
        let mut r: Vec<char> = Vec::new();
        let n = self.nodes.len();
        let mut i: usize = 0;
        while i < n
            invariant
                0 <= i <= n == self.nodes@.len(),
                rs == nodes_view(self.nodes@),
                rs.len() == self.nodes@.len(),
                forall|k: int|
                    0 <= k < self.nodes@.len() ==> rs[k] == node_view(#[trigger] self.nodes@[k]),
                r@ == render_doc_spec(rs.subrange(0, i as int)),
            decreases n - i,
        {
            let mut piece = self.nodes[i].render_chars();
            r.append(&mut piece);
            r.push('\n');
            proof {
                let pre = rs.subrange(0, i + 1int);
                assert(rs.subrange(0, i as int) + seq![rs[i as int]] =~= pre);
                lemma_render_doc_concat(rs.subrange(0, i as int), seq![rs[i as int]]);
                lemma_render_doc_singleton(rs[i as int]);
                assert(r@ =~= render_doc_spec(pre));
            }
            i = i + 1;
        }
        proof {
            assert(rs.subrange(0, rs.len() as int) =~= rs);
        }
        r
    }

    /// The whole tree rendered back to markup, one line per root.
    pub fn render(&self) -> (r: String)
        ensures
            r@ == render_doc_spec(self@),
    {
        let chars = self.render_chars();
        chars_to_string(&chars)
    }
}

} // verus!
