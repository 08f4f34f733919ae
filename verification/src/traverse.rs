//! Depth-first traversal with in-place mutation.
//!
//! The traversal visits every node in pre-order, handing each to the
//! visitor before its children, and descends into the child list the
//! visitor left behind, so a rewrite is seen by the traversal itself and
//! by everything after it.  The first failed visit stops the walk; the
//! tree keeps every rewrite applied up to that point.
//!
//! What a traversal may do to the tree is captured by the visitor's own
//! rewrite relation `visit_rel`: on success the final tree is a full
//! walk of the old one — every node rewritten by one visit, its
//! children walked below whatever the visit left — and on failure a
//! partial walk, where nodes past the failing visit stand untouched.

use vstd::prelude::*;
use crate::parse::Dom;
use crate::parse::Node;
use crate::parse::NodeModel;
use crate::parse::node_view;
use crate::parse::nodes_view;
use crate::parse::lemma_nodes_view;

verus! {

/// The weight of one node: a text node counts one, a tag counts two and
/// whatever its children weigh.
pub open spec fn node_size(n: NodeModel) -> nat
    decreases n,
{
    match n {
        NodeModel::Text(_) => 1,
        NodeModel::Tag { children, .. } => 2 + nodes_size(children),
    }
}

/// The weight of a sequence of nodes.
pub open spec fn nodes_size(ns: Seq<NodeModel>) -> nat
    decreases ns,
{
    if ns.len() == 0 {
        0
    } else {
        node_size(ns[0]) + nodes_size(ns.drop_first())
    }
}

/// The weight of a vector of nodes.
pub open spec fn vec_size(v: Seq<Node>) -> nat {
    nodes_size(nodes_view(v))
}

/// Every node weighs at least one.
pub proof fn lemma_node_size_pos(n: NodeModel)
    ensures
        node_size(n) >= 1,
{
    match n {
        NodeModel::Text(_) => {},
        NodeModel::Tag { .. } => {},
    }
}

/// The weight of a vector splits off its first node.
pub proof fn lemma_vec_size_drop_first(v: Seq<Node>)
    requires
        v.len() > 0,
    ensures
        vec_size(v) == node_size(node_view(v[0])) + vec_size(v.drop_first()),
{
    lemma_nodes_view(v);
    lemma_nodes_view(v.drop_first());
    assert(nodes_view(v)[0] == node_view(v[0]));
    assert(nodes_view(v).drop_first() =~= nodes_view(v.drop_first())) by {
        assert forall|i: int|
            0 <= i < nodes_view(v).drop_first().len() implies nodes_view(v).drop_first()[i]
            == nodes_view(v.drop_first())[i] by {
            assert(nodes_view(v)[i + 1] == node_view(v[i + 1]));
            assert(nodes_view(v.drop_first())[i] == node_view(v.drop_first()[i]));
            assert(v.drop_first()[i] == v[i + 1]);
        }
    }
}

/// A visitor is handed every node of the tree in pre-order and may
/// rewrite the node it is given.
pub trait Visitor<E> {
    /// What one visit may do to a node: its rewrite relation, which each
    /// visit's outcome satisfies.  The default relation allows any
    /// rewrite; a visitor that pins it down gets, through the traversal's
    /// contract, a description of the whole tree afterwards.
    open spec fn visit_rel(pre: NodeModel, post: NodeModel) -> bool {
        true
    }

    /// Inspect or rewrite one node.  A visit may grow the subtree it is
    /// given by at most one node, which keeps the traversal finite, and
    /// what it leaves satisfies the visitor's rewrite relation.
    fn visit(&mut self, node: &mut Node) -> (r: Result<(), E>)
        ensures
            node_size(node_view(*final(node))) <= node_size(node_view(*old(node))) + 1,
            Self::visit_rel(node_view(*old(node)), node_view(*final(node))),
    ;
}

/// One node fully walked: a visit rewrote `b` (within its growth
/// bound), and what the visit left kept its name and attributes while
/// its children were walked in turn.  The fuel bounds the depth of the
/// walk; any large enough fuel describes the same walks
/// (`lemma_walks_node_mono`).
pub open spec fn walks_node_fuel<E, V: Visitor<E>>(b: NodeModel, a: NodeModel, fuel: nat) -> bool
    decreases fuel, 0nat,
{
    fuel > 0 && exists|mid: NodeModel|
        {
            &&& #[trigger] V::visit_rel(b, mid)
            &&& node_size(mid) <= node_size(b) + 1
            &&& match mid {
                NodeModel::Text(_) => a == mid,
                NodeModel::Tag { name, attributes, children } => match a {
                    NodeModel::Tag {
                        name: after_name,
                        attributes: after_attributes,
                        children: after_children,
                    } => after_name == name && after_attributes == attributes
                        && walks_nodes_fuel::<E, V>(children, after_children, (fuel - 1) as nat),
                    _ => false,
                },
            }
        }
}

/// A sequence of nodes fully walked, pairwise, at one fuel.
pub open spec fn walks_nodes_fuel<E, V: Visitor<E>>(
    bs: Seq<NodeModel>,
    after: Seq<NodeModel>,
    fuel: nat,
) -> bool
    decreases fuel, 1nat,
{
    bs.len() == after.len() && forall|i: int|
        0 <= i < bs.len() ==> walks_node_fuel::<E, V>(#[trigger] bs[i], after[i], fuel)
}

/// One node of a stopped walk: untouched, or visited with its children
/// in turn partially walked.
pub open spec fn partial_walk_fuel<E, V: Visitor<E>>(b: NodeModel, a: NodeModel, fuel: nat) -> bool
    decreases fuel, 0nat,
{
    a == b || (fuel > 0 && exists|mid: NodeModel|
        {
            &&& #[trigger] V::visit_rel(b, mid)
            &&& node_size(mid) <= node_size(b) + 1
            &&& match mid {
                NodeModel::Text(_) => a == mid,
                NodeModel::Tag { name, attributes, children } => match a {
                    NodeModel::Tag {
                        name: after_name,
                        attributes: after_attributes,
                        children: after_children,
                    } => after_name == name && after_attributes == attributes
                        && partial_walks_fuel::<E, V>(
                            children,
                            after_children,
                            (fuel - 1) as nat,
                        ),
                    _ => false,
                },
            }
        })
}

/// A sequence of nodes of a stopped walk, pairwise, at one fuel.
pub open spec fn partial_walks_fuel<E, V: Visitor<E>>(
    bs: Seq<NodeModel>,
    after: Seq<NodeModel>,
    fuel: nat,
) -> bool
    decreases fuel, 1nat,
{
    bs.len() == after.len() && forall|i: int|
        0 <= i < bs.len() ==> partial_walk_fuel::<E, V>(#[trigger] bs[i], after[i], fuel)
}

/// The tree after a completed traversal: every root fully walked, at
/// some depth of fuel.
pub open spec fn walks<E, V: Visitor<E>>(bs: Seq<NodeModel>, after: Seq<NodeModel>) -> bool {
    exists|f: nat| walks_nodes_fuel::<E, V>(bs, after, f)
}

/// The tree after a stopped traversal: every root untouched or
/// partially walked, at some depth of fuel.
pub open spec fn partial_walks<E, V: Visitor<E>>(
    bs: Seq<NodeModel>,
    after: Seq<NodeModel>,
) -> bool {
    exists|f: nat| partial_walks_fuel::<E, V>(bs, after, f)
}

/// A walk that held at one fuel holds at any more.
pub proof fn lemma_walks_node_mono<E, V: Visitor<E>>(b: NodeModel, a: NodeModel, f1: nat, f2: nat)
    requires
        f1 <= f2,
        walks_node_fuel::<E, V>(b, a, f1),
    ensures
        walks_node_fuel::<E, V>(b, a, f2),
    decreases f1, 0nat,
{
    let mid = choose|mid: NodeModel|
        {
            &&& #[trigger] V::visit_rel(b, mid)
            &&& node_size(mid) <= node_size(b) + 1
            &&& match mid {
                NodeModel::Text(_) => a == mid,
                NodeModel::Tag { name, attributes, children } => match a {
                    NodeModel::Tag {
                        name: after_name,
                        attributes: after_attributes,
                        children: after_children,
                    } => after_name == name && after_attributes == attributes
                        && walks_nodes_fuel::<E, V>(children, after_children, (f1 - 1) as nat),
                    _ => false,
                },
            }
        };
    match mid {
        NodeModel::Text(_) => {},
        NodeModel::Tag { name, attributes, children } => {
            match a {
                NodeModel::Tag { children: after_children, .. } => {
                    lemma_walks_nodes_mono::<E, V>(
                        children,
                        after_children,
                        (f1 - 1) as nat,
                        (f2 - 1) as nat,
                    );
                },
                _ => {},
            }
        },
    }
}

/// A pairwise walk that held at one fuel holds at any more.
pub proof fn lemma_walks_nodes_mono<E, V: Visitor<E>>(
    bs: Seq<NodeModel>,
    after: Seq<NodeModel>,
    f1: nat,
    f2: nat,
)
    requires
        f1 <= f2,
        walks_nodes_fuel::<E, V>(bs, after, f1),
    ensures
        walks_nodes_fuel::<E, V>(bs, after, f2),
    decreases f1, 1nat,
{
    assert forall|i: int| 0 <= i < bs.len() implies walks_node_fuel::<E, V>(
        #[trigger] bs[i],
        after[i],
        f2,
    ) by {
        lemma_walks_node_mono::<E, V>(bs[i], after[i], f1, f2);
    }
}

/// A stopped walk that held at one fuel holds at any more.
pub proof fn lemma_partial_walk_mono<E, V: Visitor<E>>(b: NodeModel, a: NodeModel, f1: nat, f2: nat)
    requires
        f1 <= f2,
        partial_walk_fuel::<E, V>(b, a, f1),
    ensures
        partial_walk_fuel::<E, V>(b, a, f2),
    decreases f1, 0nat,
{
    if a != b {
        let mid = choose|mid: NodeModel|
            {
                &&& #[trigger] V::visit_rel(b, mid)
                &&& node_size(mid) <= node_size(b) + 1
                &&& match mid {
                    NodeModel::Text(_) => a == mid,
                    NodeModel::Tag { name, attributes, children } => match a {
                        NodeModel::Tag {
                            name: after_name,
                            attributes: after_attributes,
                            children: after_children,
                        } => after_name == name && after_attributes == attributes
                            && partial_walks_fuel::<E, V>(
                                children,
                                after_children,
                                (f1 - 1) as nat,
                            ),
                        _ => false,
                    },
                }
            };
        match mid {
            NodeModel::Text(_) => {},
            NodeModel::Tag { name, attributes, children } => {
                match a {
                    NodeModel::Tag { children: after_children, .. } => {
                        lemma_partial_walks_mono::<E, V>(
                            children,
                            after_children,
                            (f1 - 1) as nat,
                            (f2 - 1) as nat,
                        );
                    },
                    _ => {},
                }
            },
        }
    }
}

/// A pairwise stopped walk that held at one fuel holds at any more.
pub proof fn lemma_partial_walks_mono<E, V: Visitor<E>>(
    bs: Seq<NodeModel>,
    after: Seq<NodeModel>,
    f1: nat,
    f2: nat,
)
    requires
        f1 <= f2,
        partial_walks_fuel::<E, V>(bs, after, f1),
    ensures
        partial_walks_fuel::<E, V>(bs, after, f2),
    decreases f1, 1nat,
{
    assert forall|i: int| 0 <= i < bs.len() implies partial_walk_fuel::<E, V>(
        #[trigger] bs[i],
        after[i],
        f2,
    ) by {
        lemma_partial_walk_mono::<E, V>(bs[i], after[i], f1, f2);
    }
}

/// A full walk is in particular a stopped walk.
pub proof fn lemma_walk_full_to_partial<E, V: Visitor<E>>(b: NodeModel, a: NodeModel, fuel: nat)
    requires
        walks_node_fuel::<E, V>(b, a, fuel),
    ensures
        partial_walk_fuel::<E, V>(b, a, fuel),
    decreases fuel, 0nat,
{
    let mid = choose|mid: NodeModel|
        {
            &&& #[trigger] V::visit_rel(b, mid)
            &&& node_size(mid) <= node_size(b) + 1
            &&& match mid {
                NodeModel::Text(_) => a == mid,
                NodeModel::Tag { name, attributes, children } => match a {
                    NodeModel::Tag {
                        name: after_name,
                        attributes: after_attributes,
                        children: after_children,
                    } => after_name == name && after_attributes == attributes
                        && walks_nodes_fuel::<E, V>(children, after_children, (fuel - 1) as nat),
                    _ => false,
                },
            }
        };
    match mid {
        NodeModel::Text(_) => {},
        NodeModel::Tag { name, attributes, children } => {
            match a {
                NodeModel::Tag { children: after_children, .. } => {
                    assert forall|i: int| 0 <= i < children.len() implies partial_walk_fuel::<
                        E,
                        V,
                    >(#[trigger] children[i], after_children[i], (fuel - 1) as nat) by {
                        lemma_walk_full_to_partial::<E, V>(
                            children[i],
                            after_children[i],
                            (fuel - 1) as nat,
                        );
                    }
                },
                _ => {},
            }
        },
    }
}

/// A visitor whose relation forces every node unchanged leaves the
/// whole tree unchanged: a read-only traversal writes nothing.
pub proof fn lemma_walks_identity<E, V: Visitor<E>>(bs: Seq<NodeModel>, after: Seq<NodeModel>)
    requires
        walks::<E, V>(bs, after),
        forall|p: NodeModel, q: NodeModel| #[trigger] V::visit_rel(p, q) ==> q == p,
    ensures
        after == bs,
{
    let f = choose|f: nat| #[trigger] walks_nodes_fuel::<E, V>(bs, after, f);
    lemma_walks_identity_fuel::<E, V>(bs, after, f);
}

proof fn lemma_walks_identity_fuel<E, V: Visitor<E>>(
    bs: Seq<NodeModel>,
    after: Seq<NodeModel>,
    fuel: nat,
)
    requires
        walks_nodes_fuel::<E, V>(bs, after, fuel),
        forall|p: NodeModel, q: NodeModel| #[trigger] V::visit_rel(p, q) ==> q == p,
    ensures
        after == bs,
    decreases fuel,
{
    assert forall|i: int| 0 <= i < bs.len() implies after[i] == bs[i] by {
        assert(walks_node_fuel::<E, V>(bs[i], after[i], fuel));
        let b = bs[i];
        let a = after[i];
        let mid = choose|mid: NodeModel|
            {
                &&& #[trigger] V::visit_rel(b, mid)
                &&& node_size(mid) <= node_size(b) + 1
                &&& match mid {
                    NodeModel::Text(_) => a == mid,
                    NodeModel::Tag { name, attributes, children } => match a {
                        NodeModel::Tag {
                            name: after_name,
                            attributes: after_attributes,
                            children: after_children,
                        } => after_name == name && after_attributes == attributes
                            && walks_nodes_fuel::<E, V>(
                                children,
                                after_children,
                                (fuel - 1) as nat,
                            ),
                        _ => false,
                    },
                }
            };
        assert(mid == b);
        match mid {
            NodeModel::Text(_) => {},
            NodeModel::Tag { name, attributes, children } => {
                match a {
                    NodeModel::Tag { children: after_children, .. } => {
                        lemma_walks_identity_fuel::<E, V>(
                            children,
                            after_children,
                            (fuel - 1) as nat,
                        );
                    },
                    _ => {},
                }
            },
        }
    }
    assert(after =~= bs);
}

/// Walk one node: visit it, then walk the children the visit left.
fn walk_node<E, V: Visitor<E>>(visitor: &mut V, n: Node) -> (res: (Node, Result<(), E>))
    ensures
        match res.1 {
            Ok(()) => exists|f: nat|
                walks_node_fuel::<E, V>(node_view(n), node_view(res.0), f),
            Err(_) => exists|f: nat|
                partial_walk_fuel::<E, V>(node_view(n), node_view(res.0), f),
        },
    decreases node_size(node_view(n)), 0nat,
{
    let ghost b = node_view(n);
    let mut cur = n;
    let r = visitor.visit(&mut cur);
    let ghost mid = node_view(cur);
    match r {
        Err(e) => {
            proof {
                match mid {
                    NodeModel::Text(_) => {},
                    NodeModel::Tag { name, attributes, children } => {
                        assert(partial_walks_fuel::<E, V>(children, children, 1nat)) by {
                            assert forall|i: int|
                                0 <= i < children.len() implies partial_walk_fuel::<E, V>(
                                #[trigger] children[i],
                                children[i],
                                1nat,
                            ) by {}
                        }
                    },
                }
                assert(partial_walk_fuel::<E, V>(b, mid, 2nat));
            }
            (cur, Err(e))
        },
        Ok(()) => {
            match cur {
                Node::Text(content) => {
                    let out = Node::Text(content);
                    proof {
                        assert(node_view(out) == mid);
                        assert(walks_node_fuel::<E, V>(b, mid, 1nat));
                    }
                    (out, Ok(()))
                },
                Node::Tag { name, attributes, children } => {
                    let ghost name_v = name@;
                    let ghost attrs_v = attributes@;
                    let ghost kids_before = nodes_view(children@);
                    proof {
                        assert(mid == (NodeModel::Tag {
                            name: name_v,
                            attributes: attrs_v,
                            children: kids_before,
                        }));
                        assert(node_size(mid) == 2 + nodes_size(kids_before));
                        lemma_node_size_pos(b);
                    }
                    let (kids, r2) = walk_nodes(visitor, children);
                    let ghost kids_after = nodes_view(kids@);
                    let out = Node::Tag { name, attributes, children: kids };
                    proof {
                        assert(node_view(out) == (NodeModel::Tag {
                            name: name_v,
                            attributes: attrs_v,
                            children: kids_after,
                        }));
                    }
                    match r2 {
                        Ok(()) => {
                            proof {
                                let f = choose|f: nat|
                                    #[trigger] walks_nodes_fuel::<E, V>(
                                        kids_before,
                                        kids_after,
                                        f,
                                    );
                                assert(walks_node_fuel::<E, V>(b, node_view(out), f + 1));
                            }
                            (out, Ok(()))
                        },
                        Err(e) => {
                            proof {
                                let f = choose|f: nat|
                                    #[trigger] partial_walks_fuel::<E, V>(
                                        kids_before,
                                        kids_after,
                                        f,
                                    );
                                assert(partial_walk_fuel::<E, V>(b, node_view(out), f + 1));
                            }
                            (out, Err(e))
                        },
                    }
                },
            }
        },
    }
}

/// Walk a sequence of sibling nodes in order, stopping at the first
/// failed visit and leaving the rest untouched.
fn walk_nodes<E, V: Visitor<E>>(visitor: &mut V, ns: Vec<Node>) -> (res: (Vec<Node>, Result<
    (),
    E,
>))
    ensures
        match res.1 {
            Ok(()) => walks::<E, V>(nodes_view(ns@), nodes_view(res.0@)),
            Err(_) => partial_walks::<E, V>(nodes_view(ns@), nodes_view(res.0@)),
        },
        ns@.len() == 0 ==> res.1 is Ok && res.0@ == ns@,
    decreases vec_size(ns@), 1nat,
{
    let ghost orig = ns@;
    let mut rest = ns;
    let mut out: Vec<Node> = Vec::new();
    let ghost mut fmax: nat = 1nat;
    #[verifier::loop_isolation(false)]
    while rest.len() > 0
        invariant
            out@.len() + rest@.len() == orig.len(),
            rest@ =~= orig.skip(out@.len() as int),
            vec_size(rest@) <= vec_size(orig),
            fmax >= 1,
            forall|i: int|
                0 <= i < out@.len() ==> walks_node_fuel::<E, V>(
                    node_view(#[trigger] orig[i]),
                    node_view(out@[i]),
                    fmax,
                ),
        decreases vec_size(rest@),
    {
        let ghost rest0 = rest@;
        let n = rest.remove(0);
        proof {
            assert(rest@ =~= rest0.drop_first());
            lemma_vec_size_drop_first(rest0);
            lemma_node_size_pos(node_view(rest0[0]));
            assert(n == orig[out@.len() as int]);
        }
        let (n2, r) = walk_node(visitor, n);
        let ghost done = out@.len() as int;
        let ghost prefix = out@;
        out.push(n2);
        match r {
            Ok(()) => {
                proof {
                    let fi = choose|f: nat|
                        #[trigger] walks_node_fuel::<E, V>(node_view(n), node_view(n2), f);
                    let f2 = if fi > fmax {
                        fi
                    } else {
                        fmax
                    };
                    assert forall|i: int| 0 <= i < out@.len() implies walks_node_fuel::<E, V>(
                        node_view(#[trigger] orig[i]),
                        node_view(out@[i]),
                        f2,
                    ) by {
                        if i < done {
                            assert(out@[i] == prefix[i]);
                            lemma_walks_node_mono::<E, V>(
                                node_view(orig[i]),
                                node_view(out@[i]),
                                fmax,
                                f2,
                            );
                        } else {
                            assert(out@[i] == n2);
                            lemma_walks_node_mono::<E, V>(
                                node_view(orig[i]),
                                node_view(out@[i]),
                                fi,
                                f2,
                            );
                        }
                    }
                    fmax = f2;
                }
            },
            Err(e) => {
                let ghost walked = out@;
                let mut tail = rest;
                out.append(&mut tail);
                proof {
                    assert(out@ =~= walked + rest0.drop_first());
                    lemma_nodes_view(orig);
                    lemma_nodes_view(out@);
                    assert(out@.len() == orig.len());
                    let fi = choose|f: nat|
                        #[trigger] partial_walk_fuel::<E, V>(node_view(n), node_view(n2), f);
                    let f2 = if fi > fmax {
                        fi
                    } else {
                        fmax
                    };
                    assert forall|i: int| 0 <= i < orig.len() implies partial_walk_fuel::<E, V>(
                        #[trigger] nodes_view(orig)[i],
                        nodes_view(out@)[i],
                        f2,
                    ) by {
                        assert(nodes_view(orig)[i] == node_view(orig[i]));
                        assert(nodes_view(out@)[i] == node_view(out@[i]));
                        if i < done {
                            assert(out@[i] == walked[i]);
                            lemma_walk_full_to_partial::<E, V>(
                                node_view(orig[i]),
                                node_view(out@[i]),
                                fmax,
                            );
                            lemma_partial_walk_mono::<E, V>(
                                node_view(orig[i]),
                                node_view(out@[i]),
                                fmax,
                                f2,
                            );
                        } else if i == done {
                            assert(out@[i] == n2);
                            lemma_partial_walk_mono::<E, V>(
                                node_view(orig[i]),
                                node_view(out@[i]),
                                fi,
                                f2,
                            );
                        } else {
                            assert(out@[i] == rest0.drop_first()[i - done - 1]);
                            assert(orig[i] == rest0.drop_first()[i - done - 1]);
                            assert(partial_walk_fuel::<E, V>(
                                nodes_view(orig)[i],
                                nodes_view(out@)[i],
                                f2,
                            ));
                        }
                    }
                    assert(partial_walks_fuel::<E, V>(nodes_view(orig), nodes_view(out@), f2));
                }
                return (out, Err(e));
            },
        }
    }
    proof {
        assert(out@.len() == orig.len());
        lemma_nodes_view(orig);
        lemma_nodes_view(out@);
        assert forall|i: int| 0 <= i < orig.len() implies walks_node_fuel::<E, V>(
            #[trigger] nodes_view(orig)[i],
            nodes_view(out@)[i],
            fmax,
        ) by {
            assert(nodes_view(orig)[i] == node_view(orig[i]));
            assert(nodes_view(out@)[i] == node_view(out@[i]));
            assert(walks_node_fuel::<E, V>(node_view(orig[i]), node_view(out@[i]), fmax));
        }
        assert(walks_nodes_fuel::<E, V>(nodes_view(orig), nodes_view(out@), fmax));
    }
    (out, Ok(()))
}

impl Dom {
    /// Walk the tree depth-first, pre-order, applying the visitor to
    /// every node; the child list a visit leaves behind is the one the
    /// walk descends into.  On success the final tree is a full walk of
    /// the old one under the visitor's rewrite relation; a failed visit
    /// stops the walk at once and its error comes back, with every root
    /// either untouched or partially walked — rewrites applied before
    /// the failure stay.
    pub fn depth_first<E, V: Visitor<E>>(&mut self, visitor: &mut V) -> (r: Result<(), E>)
        ensures
            final(self)@.len() == old(self)@.len(),
            match r {
                Ok(()) => walks::<E, V>(old(self)@, final(self)@),
                Err(_) => partial_walks::<E, V>(old(self)@, final(self)@),
            },
            old(self)@.len() == 0 ==> r is Ok && final(self)@ == old(self)@,
    {
        let mut taken: Vec<Node> = Vec::new();
        core::mem::swap(&mut taken, &mut self.nodes);
        let ghost before = nodes_view(taken@);
        proof {
            crate::parse::lemma_nodes_view(taken@);
        }
        let (nodes, r) = walk_nodes(visitor, taken);
        self.nodes = nodes;
        proof {
            if taken@.len() == 0 {
                assert(before =~= Seq::<NodeModel>::empty());
                assert(self@ =~= before);
            }
        }
        r
    }
}

} // verus!
