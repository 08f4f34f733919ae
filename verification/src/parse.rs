//! The tree and the forgiving parser.
//!
//! The parser consumes the merged token stream and builds a tree.  A
//! close tag that matches the nearest open tag closes it; one that does
//! not means the open tag had no children, and whatever was parsed under
//! it is promoted to the sibling level (the close tag is left for an
//! enclosing call).  A close tag with no enclosing open tag at all is the
//! one fatal parse error.

use vstd::prelude::*;
use crate::attrs::AttrMap;
use crate::chars::trim;
use crate::chars::trim_spec;
use crate::token::Kind;
use crate::token::KindModel;
use crate::token::Token;
use crate::token::TokenModel;

verus! {

/// What data can appear in the tree: a run of text, or a tag with its
/// attributes and children.
#[derive(Debug, PartialEq, Eq)]
pub enum Node {
    Text(Vec<char>),
    Tag { name: Vec<char>, attributes: AttrMap, children: Vec<Node> },
}

/// The mathematical image of a `Node`.
pub enum NodeModel {
    Text(Seq<char>),
    Tag {
        name: Seq<char>,
        attributes: Seq<(Seq<char>, Seq<char>)>,
        children: Seq<NodeModel>,
    },
}

/// The image of a node: text keeps its content, a tag keeps its name,
/// attributes and the images of its children.
pub open spec fn node_view(n: Node) -> NodeModel
    decreases n,
{
    match n {
        Node::Text(content) => NodeModel::Text(content@),
        Node::Tag { name, attributes, children } => NodeModel::Tag {
            name: name@,
            attributes: attributes@,
            children: nodes_view(children@),
        },
    }
}

/// The images of a sequence of nodes, in order.
pub open spec fn nodes_view(ns: Seq<Node>) -> Seq<NodeModel>
    decreases ns,
{
    if ns.len() == 0 {
        Seq::empty()
    } else {
        seq![node_view(ns[0])] + nodes_view(ns.drop_first())
    }
}

/// `nodes_view` maps `node_view` over the sequence.
pub proof fn lemma_nodes_view(ns: Seq<Node>)
    ensures
        nodes_view(ns).len() == ns.len(),
        forall|i: int| 0 <= i < ns.len() ==> nodes_view(ns)[i] == node_view(#[trigger] ns[i]),
    decreases ns.len(),
{
    if ns.len() > 0 {
        lemma_nodes_view(ns.drop_first());
        assert forall|i: int| 0 <= i < ns.len() implies nodes_view(ns)[i] == node_view(
            #[trigger] ns[i],
        ) by {
            if i > 0 {
                assert(nodes_view(ns.drop_first())[i - 1] == node_view(ns.drop_first()[i - 1]));
            }
        }
    }
}

/// The image of a single node, as a sequence.
pub proof fn lemma_nodes_view_singleton(ns: Seq<Node>)
    requires
        ns.len() == 1,
    ensures
        nodes_view(ns) == seq![node_view(ns[0])],
{
    lemma_nodes_view(ns);
    assert(nodes_view(ns) =~= seq![node_view(ns[0])]);
}

/// `nodes_view` distributes over concatenation.
pub proof fn lemma_nodes_view_concat(a: Seq<Node>, b: Seq<Node>)
    ensures
        nodes_view(a + b) == nodes_view(a) + nodes_view(b),
{
    lemma_nodes_view(a);
    lemma_nodes_view(b);
    lemma_nodes_view(a + b);
    assert forall|i: int| 0 <= i < nodes_view(a + b).len() implies nodes_view(a + b)[i] == (
    nodes_view(a) + nodes_view(b))[i] by {
        if i < a.len() {
            assert((a + b)[i] == a[i]);
        } else {
            assert((a + b)[i] == b[i - a.len()]);
        }
    }
    assert(nodes_view(a + b) =~= nodes_view(a) + nodes_view(b));
}

impl View for Node {
    type V = NodeModel;

    open spec fn view(&self) -> NodeModel {
        node_view(*self)
    }
}

/// The tree: a sequence of root-level nodes.
#[derive(Debug, PartialEq, Eq)]
pub struct Dom {
    pub nodes: Vec<Node>,
}

impl View for Dom {
    type V = Seq<NodeModel>;

    open spec fn view(&self) -> Seq<NodeModel> {
        nodes_view(self.nodes@)
    }
}

/// The one fatal parse error: a close tag that no enclosing open tag can
/// answer.  It carries the name of the offending close tag.
#[derive(Debug, PartialEq, Eq)]
pub struct ParseError {
    pub name: Vec<char>,
}

impl View for ParseError {
    type V = Seq<char>;

    open spec fn view(&self) -> Seq<char> {
        self.name@
    }
}

/// The words of the parse error's message, before the offending name.
pub open spec fn message_prefix_spec() -> Seq<char> {
    seq![
        'u', 'n', 'e', 'x', 'p', 'e', 'c', 't', 'e', 'd', ' ', 'c', 'l', 'o', 's', 'e', ' ', 't',
        'a', 'g', ':', ' ', '<', '/',
    ]
}

impl ParseError {
    /// The error spelled out: the close tag that nothing answered.
    pub fn message(&self) -> (r: String)
        ensures
            r@ == message_prefix_spec() + self@ + seq!['>'],
    {
        let mut chars: Vec<char> = Vec::new();
        chars.push('u');
        chars.push('n');
        chars.push('e');
        chars.push('x');
        chars.push('p');
        chars.push('e');
        chars.push('c');
        chars.push('t');
        chars.push('e');
        chars.push('d');
        chars.push(' ');
        chars.push('c');
        chars.push('l');
        chars.push('o');
        chars.push('s');
        chars.push('e');
        chars.push(' ');
        chars.push('t');
        chars.push('a');
        chars.push('g');
        chars.push(':');
        chars.push(' ');
        chars.push('<');
        chars.push('/');
        let mut name = crate::chars::clone_chars(&self.name);
        chars.append(&mut name);
        chars.push('>');
        proof {
            assert(chars@ =~= message_prefix_spec() + self@ + seq!['>']);
        }
        crate::chars::chars_to_string(&chars)
    }
}

/// Whether a token literal ends in `/>`, which marks a childless tag.
pub open spec fn self_closing_literal_spec(lit: Seq<char>) -> bool {
    lit.len() >= 2 && lit[lit.len() - 2] == '/' && lit[lit.len() - 1] == '>'
}

/// One step of the parse, measured by fuel so that the recursion is
/// well-founded; enough fuel never runs out (`lemma_parse_node_total`).
pub enum ParseStep {
    OutOfFuel,
    Failed { name: Seq<char> },
    Parsed { nodes: Seq<NodeModel>, rest: Seq<TokenModel> },
}

/// What one token parses to, given the tokens after it: text trims (and
/// vanishes when blank), a close tag is a failure at this level, and an
/// open tag either closes itself or gathers what follows.
pub open spec fn parse_node_spec(t: TokenModel, toks: Seq<TokenModel>, fuel: nat) -> ParseStep
    decreases fuel,
{
    if fuel == 0 {
        ParseStep::OutOfFuel
    } else {
        match t.kind {
            KindModel::Text(content) => ParseStep::Parsed {
                nodes: if trim_spec(content).len() > 0 {
                    seq![NodeModel::Text(trim_spec(content))]
                } else {
                    Seq::empty()
                },
                rest: toks,
            },
            KindModel::CloseTag { name } => ParseStep::Failed { name },
            KindModel::OpenTag { name, attributes } => {
                if self_closing_literal_spec(t.literal) {
                    ParseStep::Parsed {
                        nodes: seq![
                            NodeModel::Tag { name, attributes, children: Seq::empty() },
                        ],
                        rest: toks,
                    }
                } else {
                    parse_siblings_spec(name, attributes, Seq::empty(), toks, (fuel - 1) as nat)
                }
            },
        }
    }
}

/// The gathering loop of an open tag: a matching close tag turns the
/// gathered nodes into children; a mismatched close tag, or the end of
/// input, leaves the tag childless and promotes the gathered nodes to
/// siblings after it.
pub open spec fn parse_siblings_spec(
    name: Seq<char>,
    attributes: Seq<(Seq<char>, Seq<char>)>,
    acc: Seq<NodeModel>,
    toks: Seq<TokenModel>,
    fuel: nat,
) -> ParseStep
    decreases fuel,
{
    if fuel == 0 {
        ParseStep::OutOfFuel
    } else if toks.len() == 0 {
        ParseStep::Parsed {
            nodes: seq![NodeModel::Tag { name, attributes, children: Seq::empty() }] + acc,
            rest: Seq::empty(),
        }
    } else {
        match toks[0].kind {
            KindModel::CloseTag { name: close_name } => {
                if close_name == name {
                    ParseStep::Parsed {
                        nodes: seq![NodeModel::Tag { name, attributes, children: acc }],
                        rest: toks.drop_first(),
                    }
                } else {
                    ParseStep::Parsed {
                        nodes: seq![
                            NodeModel::Tag { name, attributes, children: Seq::empty() },
                        ] + acc,
                        rest: toks,
                    }
                }
            },
            _ => {
                match parse_node_spec(toks[0], toks.drop_first(), (fuel - 1) as nat) {
                    ParseStep::Parsed { nodes, rest } => {
                        parse_siblings_spec(name, attributes, acc + nodes, rest, (fuel - 1) as nat)
                    },
                    other => other,
                }
            },
        }
    }
}

/// The whole stream parsed at the root: each token's nodes in order.
pub open spec fn parse_all_spec(toks: Seq<TokenModel>, fuel: nat) -> ParseStep
    decreases fuel,
{
    if fuel == 0 {
        ParseStep::OutOfFuel
    } else if toks.len() == 0 {
        ParseStep::Parsed { nodes: Seq::empty(), rest: Seq::empty() }
    } else {
        match parse_node_spec(toks[0], toks.drop_first(), (fuel - 1) as nat) {
            ParseStep::Parsed { nodes, rest } => {
                match parse_all_spec(rest, (fuel - 1) as nat) {
                    ParseStep::Parsed { nodes: more, rest: rest2 } => ParseStep::Parsed {
                        nodes: nodes + more,
                        rest: rest2,
                    },
                    other => other,
                }
            },
            other => other,
        }
    }
}

/// Fuel that `lemma_parse_node_total` shows is always enough.
pub open spec fn enough_fuel(toks: Seq<TokenModel>) -> nat {
    (2 * toks.len() + 2) as nat
}

/// What one token parses to, at canonical fuel.
pub open spec fn parse_node_at(t: TokenModel, toks: Seq<TokenModel>) -> ParseStep {
    parse_node_spec(t, toks, enough_fuel(toks))
}

/// What the gathering loop yields, at canonical fuel.
pub open spec fn parse_siblings_at(
    name: Seq<char>,
    attributes: Seq<(Seq<char>, Seq<char>)>,
    acc: Seq<NodeModel>,
    toks: Seq<TokenModel>,
) -> ParseStep {
    parse_siblings_spec(name, attributes, acc, toks, (2 * toks.len() + 1) as nat)
}

/// With fuel at least `2·|toks| + 2` a node parse never runs out, and it
/// never leaves more tokens than it was given.
pub proof fn lemma_parse_node_total(t: TokenModel, toks: Seq<TokenModel>, fuel: nat)
    requires
        fuel >= 2 * toks.len() + 2,
    ensures
        !(parse_node_spec(t, toks, fuel) is OutOfFuel),
        match parse_node_spec(t, toks, fuel) {
            ParseStep::Parsed { nodes, rest } => rest.len() <= toks.len(),
            _ => true,
        },
    decreases fuel,
{
    match t.kind {
        KindModel::OpenTag { name, attributes } => {
            if !self_closing_literal_spec(t.literal) {
                lemma_parse_siblings_total(name, attributes, Seq::empty(), toks, (fuel - 1) as nat);
            }
        },
        _ => {},
    }
}

/// With fuel at least `2·|toks| + 1` the gathering loop never runs out,
/// and it never leaves more tokens than it was given.
pub proof fn lemma_parse_siblings_total(
    name: Seq<char>,
    attributes: Seq<(Seq<char>, Seq<char>)>,
    acc: Seq<NodeModel>,
    toks: Seq<TokenModel>,
    fuel: nat,
)
    requires
        fuel >= 2 * toks.len() + 1,
    ensures
        !(parse_siblings_spec(name, attributes, acc, toks, fuel) is OutOfFuel),
        match parse_siblings_spec(name, attributes, acc, toks, fuel) {
            ParseStep::Parsed { nodes, rest } => rest.len() <= toks.len(),
            _ => true,
        },
    decreases fuel,
{
    if toks.len() > 0 {
        match toks[0].kind {
            KindModel::CloseTag { .. } => {},
            _ => {
                lemma_parse_node_total(toks[0], toks.drop_first(), (fuel - 1) as nat);
                match parse_node_spec(toks[0], toks.drop_first(), (fuel - 1) as nat) {
                    ParseStep::Parsed { nodes, rest } => {
                        lemma_parse_siblings_total(
                            name,
                            attributes,
                            acc + nodes,
                            rest,
                            (fuel - 1) as nat,
                        );
                    },
                    _ => {},
                }
            },
        }
    }
}

/// A parse that did not run out of fuel gives the same answer with any
/// more fuel.
pub proof fn lemma_parse_node_mono(t: TokenModel, toks: Seq<TokenModel>, f1: nat, f2: nat)
    requires
        f1 <= f2,
        !(parse_node_spec(t, toks, f1) is OutOfFuel),
    ensures
        parse_node_spec(t, toks, f2) == parse_node_spec(t, toks, f1),
    decreases f1,
{
    match t.kind {
        KindModel::OpenTag { name, attributes } => {
            if !self_closing_literal_spec(t.literal) {
                lemma_parse_siblings_mono(
                    name,
                    attributes,
                    Seq::empty(),
                    toks,
                    (f1 - 1) as nat,
                    (f2 - 1) as nat,
                );
            }
        },
        _ => {},
    }
}

/// The gathering loop gives the same answer with any more fuel.
pub proof fn lemma_parse_siblings_mono(
    name: Seq<char>,
    attributes: Seq<(Seq<char>, Seq<char>)>,
    acc: Seq<NodeModel>,
    toks: Seq<TokenModel>,
    f1: nat,
    f2: nat,
)
    requires
        f1 <= f2,
        !(parse_siblings_spec(name, attributes, acc, toks, f1) is OutOfFuel),
    ensures
        parse_siblings_spec(name, attributes, acc, toks, f2) == parse_siblings_spec(
            name,
            attributes,
            acc,
            toks,
            f1,
        ),
    decreases f1,
{
    if toks.len() > 0 {
        match toks[0].kind {
            KindModel::CloseTag { .. } => {},
            _ => {
                lemma_parse_node_mono(
                    toks[0],
                    toks.drop_first(),
                    (f1 - 1) as nat,
                    (f2 - 1) as nat,
                );
                match parse_node_spec(toks[0], toks.drop_first(), (f1 - 1) as nat) {
                    ParseStep::Parsed { nodes, rest } => {
                        lemma_parse_siblings_mono(
                            name,
                            attributes,
                            acc + nodes,
                            rest,
                            (f1 - 1) as nat,
                            (f2 - 1) as nat,
                        );
                    },
                    _ => {},
                }
            },
        }
    }
}

/// With fuel at least `2·|toks| + 2` the root parse never runs out.
pub proof fn lemma_parse_all_total(toks: Seq<TokenModel>, fuel: nat)
    requires
        fuel >= 2 * toks.len() + 2,
    ensures
        !(parse_all_spec(toks, fuel) is OutOfFuel),
    decreases fuel,
{
    if toks.len() > 0 {
        lemma_parse_node_total(toks[0], toks.drop_first(), (fuel - 1) as nat);
        match parse_node_spec(toks[0], toks.drop_first(), (fuel - 1) as nat) {
            ParseStep::Parsed { nodes, rest } => {
                lemma_parse_all_total(rest, (fuel - 1) as nat);
            },
            _ => {},
        }
    }
}

/// The root parse gives the same answer with any more fuel.
pub proof fn lemma_parse_all_mono(toks: Seq<TokenModel>, f1: nat, f2: nat)
    requires
        f1 <= f2,
        !(parse_all_spec(toks, f1) is OutOfFuel),
    ensures
        parse_all_spec(toks, f2) == parse_all_spec(toks, f1),
    decreases f1,
{
    if toks.len() > 0 {
        lemma_parse_node_mono(toks[0], toks.drop_first(), (f1 - 1) as nat, (f2 - 1) as nat);
        match parse_node_spec(toks[0], toks.drop_first(), (f1 - 1) as nat) {
            ParseStep::Parsed { nodes, rest } => {
                lemma_parse_all_mono(rest, (f1 - 1) as nat, (f2 - 1) as nat);
            },
            _ => {},
        }
    }
}

/// How the root parse at canonical fuel steps over a nonempty stream.
pub proof fn lemma_parse_all_unfold(toks: Seq<TokenModel>)
    requires
        toks.len() > 0,
    ensures
        parse_all_spec(toks, enough_fuel(toks)) == match parse_node_at(
            toks[0],
            toks.drop_first(),
        ) {
            ParseStep::Parsed { nodes, rest } => match parse_all_spec(rest, enough_fuel(rest)) {
                ParseStep::Parsed { nodes: more, rest: rest2 } => ParseStep::Parsed {
                    nodes: nodes + more,
                    rest: rest2,
                },
                other => other,
            },
            other => other,
        },
{
    let f = enough_fuel(toks);
    let tail = toks.drop_first();
    lemma_parse_node_total(toks[0], tail, enough_fuel(tail));
    lemma_parse_node_mono(toks[0], tail, enough_fuel(tail), (f - 1) as nat);
    match parse_node_at(toks[0], tail) {
        ParseStep::Parsed { nodes, rest } => {
            lemma_parse_all_total(rest, enough_fuel(rest));
            lemma_parse_all_mono(rest, enough_fuel(rest), (f - 1) as nat);
        },
        _ => {},
    }
}

/// An open tag that is not self-closing parses through the gathering
/// loop, at canonical fuel.
pub proof fn lemma_parse_node_open(t: TokenModel, toks: Seq<TokenModel>)
    requires
        t.kind is OpenTag,
        !self_closing_literal_spec(t.literal),
    ensures
        parse_node_at(t, toks) == parse_siblings_at(
            t.kind->OpenTag_name,
            t.kind->OpenTag_attributes,
            Seq::empty(),
            toks,
        ),
{
}

/// How the gathering loop at canonical fuel steps over a token that is
/// not a close tag.
pub proof fn lemma_parse_siblings_step(
    name: Seq<char>,
    attributes: Seq<(Seq<char>, Seq<char>)>,
    acc: Seq<NodeModel>,
    toks: Seq<TokenModel>,
)
    requires
        toks.len() > 0,
        !(toks[0].kind is CloseTag),
    ensures
        parse_siblings_at(name, attributes, acc, toks) == match parse_node_at(
            toks[0],
            toks.drop_first(),
        ) {
            ParseStep::Parsed { nodes, rest } => parse_siblings_at(
                name,
                attributes,
                acc + nodes,
                rest,
            ),
            other => other,
        },
{
    let f = (2 * toks.len() + 1) as nat;
    let tail = toks.drop_first();
    assert(enough_fuel(tail) == (f - 1) as nat);
    lemma_parse_node_total(toks[0], tail, enough_fuel(tail));
    match parse_node_at(toks[0], tail) {
        ParseStep::Parsed { nodes, rest } => {
            lemma_parse_siblings_total(name, attributes, acc + nodes, rest, (2 * rest.len()
                + 1) as nat);
            lemma_parse_siblings_mono(
                name,
                attributes,
                acc + nodes,
                rest,
                (2 * rest.len() + 1) as nat,
                (f - 1) as nat,
            );
        },
        _ => {},
    }
}

/// What the whole token stream parses to: the root nodes, or the name of
/// the close tag that nothing answered.
pub open spec fn parse_spec(toks: Seq<TokenModel>) -> Result<Seq<NodeModel>, Seq<char>> {
    match parse_all_spec(toks, enough_fuel(toks)) {
        ParseStep::Parsed { nodes, rest } => Ok(nodes),
        ParseStep::Failed { name } => Err(name),
        ParseStep::OutOfFuel => Ok(Seq::empty()),
    }
}

/// A step with the given nodes put before whatever the step produced.
pub open spec fn with_prefix(pre: Seq<NodeModel>, s: ParseStep) -> ParseStep {
    match s {
        ParseStep::Parsed { nodes, rest } => ParseStep::Parsed { nodes: pre + nodes, rest },
        other => other,
    }
}

impl Node {
    /// A tag node with no children.
    pub fn self_closing(name: Vec<char>, attributes: AttrMap) -> (n: Node)
        ensures
            n@ == (NodeModel::Tag {
                name: name@,
                attributes: attributes@,
                children: Seq::empty(),
            }),
    {
        let children: Vec<Node> = Vec::new();
        Node::Tag { name, attributes, children }
    }
}

/// Parser holds the tokens still to be consumed.
#[derive(Debug)]
pub struct Parser {
    source: Vec<Token>,
}

impl View for Parser {
    type V = Seq<TokenModel>;

    closed spec fn view(&self) -> Seq<TokenModel> {
        self.source.deep_view()
    }
}

impl Parser {
    /// A parser over the merged token stream.
    pub fn new(source: crate::token::TextMerger) -> (p: Parser)
        ensures
            p@ == source@,
    {
        Parser { source: source.into_tokens() }
    }

    /// Parse the token stream into a tree, or fail on a close tag that no
    /// enclosing open tag answers.
    pub fn parse(&mut self) -> (r: Result<Dom, ParseError>)
        ensures
            match r {
                Ok(dom) => parse_spec(old(self)@) == Ok::<Seq<NodeModel>, Seq<char>>(dom@),
                Err(e) => parse_spec(old(self)@) == Err::<Seq<NodeModel>, Seq<char>>(e@),
            },
    {
        let ghost toks0 = self@;
        proof {
            lemma_parse_all_total(toks0, enough_fuel(toks0));
        }
        let mut nodes: Vec<Node> = Vec::new();
        proof {
            assert(nodes_view(nodes@) =~= Seq::<NodeModel>::empty());
            match parse_all_spec(toks0, enough_fuel(toks0)) {
                ParseStep::Parsed { nodes: n0, rest } => {
                    assert(Seq::<NodeModel>::empty() + n0 =~= n0);
                },
                _ => {},
            }
        }
        #[verifier::loop_isolation(false)]
        while self.source.len() > 0
            invariant
                parse_all_spec(toks0, enough_fuel(toks0)) == with_prefix(
                    nodes_view(nodes@),
                    parse_all_spec(self@, enough_fuel(self@)),
                ),
            decreases self@.len(),
        {
            let ghost pre = self@;
            let ghost done = nodes_view(nodes@);
            let t = self.source.remove(0);
            proof {
                assert(t@ == pre[0]);
                assert(self@ =~~= pre.drop_first());
                lemma_parse_all_unfold(pre);
            }
            match self.parse_node(t) {
                Ok(mut ns) => {
                    let ghost mid = self@;
                    let ghost added = nodes_view(ns@);
                    proof {
                        lemma_parse_all_total(mid, enough_fuel(mid));
                        lemma_nodes_view_concat(nodes@, ns@);
                    }
                    nodes.append(&mut ns);
                    proof {
                        assert(nodes_view(nodes@) == done + added);
                        match parse_all_spec(mid, enough_fuel(mid)) {
                            ParseStep::Parsed { nodes: more, rest } => {
                                assert(done + (added + more) =~= (done + added) + more);
                            },
                            _ => {},
                        }
                    }
                },
                Err(e) => {
                    proof {
                        assert(parse_node_at(pre[0], pre.drop_first()) == (ParseStep::Failed {
                            name: e@,
                        }));
                        assert(parse_all_spec(pre, enough_fuel(pre)) == (ParseStep::Failed {
                            name: e@,
                        }));
                        assert(parse_all_spec(toks0, enough_fuel(toks0)) == (ParseStep::Failed {
                            name: e@,
                        }));
                    }
                    return Err(e);
                },
            }
        }
        proof {
            assert(self@.len() == 0);
            assert(nodes_view(nodes@) + Seq::<NodeModel>::empty() =~= nodes_view(nodes@));
        }
        Ok(Dom { nodes })
    }

    /// Parse the nodes introduced by one token, consuming what they
    /// cover; a close tag is a failure for the caller to resolve.
    fn parse_node(&mut self, t: Token) -> (r: Result<Vec<Node>, ParseError>)
        ensures
            final(self)@.len() <= old(self)@.len(),
            match r {
                Ok(ns) => parse_node_at(t@, old(self)@) == (ParseStep::Parsed {
                    nodes: nodes_view(ns@),
                    rest: final(self)@,
                }),
                Err(e) => parse_node_at(t@, old(self)@) == (ParseStep::Failed { name: e@ }),
            },
        decreases old(self)@.len(),
    {
        let ghost toks_entry = self@;
        let ghost t_model = t@;
        match t.kind {
            Kind::Text(content) => {
                let trimmed = trim(&content);
                if trimmed.len() > 0 {
                    let mut ns: Vec<Node> = Vec::new();
                    ns.push(Node::Text(trimmed));
                    proof {
                        lemma_nodes_view_singleton(ns@);
                        assert(nodes_view(ns@) =~~= seq![NodeModel::Text(trim_spec(content@))]);
                    }
                    Ok(ns)
                } else {
                    let ns: Vec<Node> = Vec::new();
                    proof {
                        assert(nodes_view(ns@) =~~= Seq::<NodeModel>::empty());
                    }
                    Ok(ns)
                }
            },
            Kind::CloseTag { name } => Err(ParseError { name }),
            Kind::OpenTag { name, attributes } => {
                let ghost name0 = name@;
                let ghost attrs0 = attributes@;
                let n = t.literal.len();
                if n >= 2 && t.literal[n - 2] == '/' && t.literal[n - 1] == '>' {
                    let mut ns: Vec<Node> = Vec::new();
                    ns.push(Node::self_closing(name, attributes));
                    proof {
                        assert(self_closing_literal_spec(t_model.literal));
                        lemma_nodes_view_singleton(ns@);
                        assert(nodes_view(ns@) =~~= seq![
                            NodeModel::Tag { name: name0, attributes: attrs0, children: Seq::empty() },
                        ]);
                    }
                    Ok(ns)
                } else {
                    proof {
                        assert(!self_closing_literal_spec(t_model.literal));
                        lemma_parse_node_open(t_model, toks_entry);
                    }
                    let mut siblings: Vec<Node> = Vec::new();
                    proof {
                        assert(nodes_view(siblings@) =~= Seq::<NodeModel>::empty());
                    }
                    #[verifier::loop_isolation(false)]
                    loop
                        invariant
                            self@.len() <= toks_entry.len(),
                            name@ == name0,
                            attributes@ == attrs0,
                            parse_node_at(t_model, toks_entry) == parse_siblings_at(
                                name0,
                                attrs0,
                                Seq::empty(),
                                toks_entry,
                            ),
                            parse_siblings_at(name0, attrs0, Seq::empty(), toks_entry)
                                == parse_siblings_at(name0, attrs0, nodes_view(siblings@), self@),
                        decreases self@.len(),
                    {
                        if self.source.len() == 0 {
                            let mut out: Vec<Node> = Vec::new();
                            out.push(Node::self_closing(name, attributes));
                            proof {
                                lemma_nodes_view_singleton(out@);
                                lemma_nodes_view_concat(out@, siblings@);
                            }
                            let ghost tag_only = nodes_view(out@);
                            let ghost sibs = nodes_view(siblings@);
                            out.append(&mut siblings);
                            proof {
                                assert(nodes_view(out@) == tag_only + sibs);
                                assert(self@ =~~= Seq::<TokenModel>::empty());
                                assert(tag_only + sibs =~~= seq![
                                    NodeModel::Tag { name: name0, attributes: attrs0, children: Seq::empty() },
                                ] + sibs);
                            }
                            return Ok(out);
                        }
                        let close_match: Option<bool> = match &self.source[0].kind {
                            Kind::CloseTag { name: close_name } => Some(
                                crate::chars::eq_chars(close_name, &name),
                            ),
                            _ => None,
                        };
                        proof {
                            assert(self@[0] == self.source@[0]@);
                        }
                        match close_match {
                            Some(true) => {
                                let ghost cur = self@;
                                let ghost sibs = nodes_view(siblings@);
                                let _ = self.source.remove(0);
                                proof {
                                    assert(self@ =~~= cur.drop_first());
                                }
                                let mut ns: Vec<Node> = Vec::new();
                                ns.push(Node::Tag { name, attributes, children: siblings });
                                proof {
                                    lemma_nodes_view_singleton(ns@);
                                    assert(nodes_view(ns@) =~~= seq![
                                        NodeModel::Tag { name: name0, attributes: attrs0, children: sibs },
                                    ]);
                                }
                                return Ok(ns);
                            },
                            Some(false) => {
                                let mut out: Vec<Node> = Vec::new();
                                out.push(Node::self_closing(name, attributes));
                                proof {
                                    lemma_nodes_view_singleton(out@);
                                    lemma_nodes_view_concat(out@, siblings@);
                                }
                                let ghost tag_only = nodes_view(out@);
                                let ghost sibs = nodes_view(siblings@);
                                out.append(&mut siblings);
                                proof {
                                    assert(nodes_view(out@) == tag_only + sibs);
                                    assert(tag_only + sibs =~~= seq![
                                        NodeModel::Tag { name: name0, attributes: attrs0, children: Seq::empty() },
                                    ] + sibs);
                                }
                                return Ok(out);
                            },
                            None => {
                                let ghost cur = self@;
                                let t2 = self.source.remove(0);
                                proof {
                                    assert(t2@ == cur[0]);
                                    assert(self@ =~~= cur.drop_first());
                                    lemma_parse_siblings_step(
                                        name0,
                                        attrs0,
                                        nodes_view(siblings@),
                                        cur,
                                    );
                                }
                                match self.parse_node(t2) {
                                    Ok(mut ns2) => {
                                        proof {
                                            lemma_nodes_view_concat(siblings@, ns2@);
                                        }
                                        siblings.append(&mut ns2);
                                    },
                                    Err(e) => {
                                        return Err(e);
                                    },
                                }
                            },
                        }
                    }
                }
            },
        }
    }
}

} // verus!
