//! The round trip: a well-formed tree, rendered and fed back through the
//! tokenizer, the merger and the parser, comes out unchanged.
//!
//! Well-formed means what the renderer can speak and the tokenizer can
//! hear: tag and attribute names made of plain alphabetic characters,
//! attribute values without whitespace or quoting characters, text
//! without angle brackets and already trimmed, no two adjacent text
//! nodes, and unique attribute keys.

use vstd::prelude::*;
use crate::attrs::find_key_spec;
use crate::attrs::lemma_find_key;
use crate::attrs::unique_keys;
use crate::chars::find_char_spec;
use crate::chars::has_eq_quote_spec;
use crate::chars::is_alpha;
use crate::chars::is_space;
use crate::chars::lemma_find_char;
use crate::chars::lemma_rfind_char;
use crate::chars::lemma_word_len;
use crate::chars::rfind_char_spec;
use crate::chars::split_ws_spec;
use crate::chars::strip_leading_pair_spec;
use crate::chars::strip_leading_spec;
use crate::chars::strip_trailing_spec;
use crate::chars::trim_spec;
use crate::chars::word_len_spec;
use crate::chars::all_alpha_spec;
use crate::parse::NodeModel;
use crate::parse::ParseStep;
use crate::parse::enough_fuel;
use crate::parse::lemma_parse_all_unfold;
use crate::parse::lemma_parse_node_open;
use crate::parse::lemma_parse_siblings_step;
use crate::parse::parse_all_spec;
use crate::parse::parse_node_at;
use crate::parse::parse_siblings_at;
use crate::parse::parse_spec;
use crate::parse::self_closing_literal_spec;
use crate::render::render_attr_spec;
use crate::render::render_attrs_spec;
use crate::render::render_node_spec;
use crate::render::render_doc_spec;
use crate::render::render_nodes_spec;
use crate::token::KindModel;
use crate::token::TokenModel;
use crate::token::attr_key_spec;
use crate::token::attr_value_spec;
use crate::token::attrs_of_words_spec;
use crate::token::classify_spec;
use crate::token::merge_spec;
use crate::token::open_body_spec;
use crate::token::span_tokens_spec;
use crate::token::text_token_spec;
use crate::token::tokenize_spec;
use crate::token::words_are_tag_spec;
use crate::token::word_is_tag_like_spec;

verus! {

/// A character that may stand in a name: not whitespace and none of the
/// tag punctuation.
pub open spec fn plain_char(c: char) -> bool {
    !is_space(c) && c != '<' && c != '>' && c != '/' && c != '!' && c != '=' && c != '"'
}

/// A character that may stand in an attribute value: not whitespace and
/// none of the characters that would break quoting or span cutting.
pub open spec fn value_char(c: char) -> bool {
    !is_space(c) && c != '<' && c != '>' && c != '"'
}

/// A well-formed name: nonempty, alphabetic, plain.
pub open spec fn wf_name(s: Seq<char>) -> bool {
    s.len() > 0 && forall|i: int|
        0 <= i < s.len() ==> is_alpha(#[trigger] s[i]) && plain_char(s[i])
}

/// A well-formed attribute: a well-formed key, and a value that is
/// either empty (a boolean attribute) or made of value characters.
pub open spec fn wf_attr(kv: (Seq<char>, Seq<char>)) -> bool {
    wf_name(kv.0) && (kv.1.len() == 0 || forall|i: int|
        0 <= i < kv.1.len() ==> value_char(#[trigger] kv.1[i]))
}

/// Well-formed attributes: each well-formed, keys unique.
pub open spec fn wf_attrs(m: Seq<(Seq<char>, Seq<char>)>) -> bool {
    unique_keys(m) && forall|i: int| 0 <= i < m.len() ==> wf_attr(#[trigger] m[i])
}

/// Well-formed text: nonempty, already trimmed, without angle brackets.
pub open spec fn wf_text(t: Seq<char>) -> bool {
    t.len() > 0 && !is_space(t[0]) && !is_space(t.last()) && forall|i: int|
        0 <= i < t.len() ==> (#[trigger] t[i]) != '<' && t[i] != '>'
}

/// A well-formed node.
pub open spec fn wf_node(n: NodeModel) -> bool
    decreases n,
{
    match n {
        NodeModel::Text(t) => wf_text(t),
        NodeModel::Tag { name, attributes, children } => wf_name(name) && wf_attrs(attributes)
            && wf_nodes(children),
    }
}

/// Well-formed siblings: each well-formed, no two adjacent text nodes.
pub open spec fn wf_nodes(ns: Seq<NodeModel>) -> bool
    decreases ns,
{
    (if ns.len() == 0 {
        true
    } else {
        wf_node(ns[0]) && wf_nodes(ns.drop_first())
    }) && (forall|i: int|
        0 <= i && i + 1 < ns.len() ==> !((#[trigger] ns[i]) is Text && ns[i + 1] is Text))
}

/// Each sibling of a well-formed list is well-formed.
pub proof fn lemma_wf_nodes_index(ns: Seq<NodeModel>)
    requires
        wf_nodes(ns),
    ensures
        forall|i: int| 0 <= i < ns.len() ==> wf_node(#[trigger] ns[i]),
    decreases ns.len(),
{
    if ns.len() > 0 {
        lemma_wf_nodes_index(ns.drop_first());
        assert forall|i: int| 0 <= i < ns.len() implies wf_node(#[trigger] ns[i]) by {
            if i > 0 {
                assert(wf_node(ns.drop_first()[i - 1]));
            }
        }
    }
}

/// The tail of a well-formed list is well-formed.
pub proof fn lemma_wf_nodes_tail(ns: Seq<NodeModel>)
    requires
        wf_nodes(ns),
        ns.len() > 0,
    ensures
        wf_nodes(ns.drop_first()),
{
    assert forall|i: int|
        0 <= i && i + 1 < ns.drop_first().len() implies !((#[trigger] ns.drop_first()[i]) is Text
        && ns.drop_first()[i + 1] is Text) by {
        assert(ns.drop_first()[i] == ns[i + 1]);
        assert(ns.drop_first()[i + 1] == ns[i + 2]);
    }
}

/// The open-tag literal of a tag: `<name attrs>`, or `<name attrs/>`
/// when it closes itself.
pub open spec fn open_literal_spec(
    name: Seq<char>,
    attributes: Seq<(Seq<char>, Seq<char>)>,
    self_closing: bool,
) -> Seq<char> {
    if self_closing {
        seq!['<'] + name + render_attrs_spec(attributes) + seq!['/', '>']
    } else {
        seq!['<'] + name + render_attrs_spec(attributes) + seq!['>']
    }
}

/// The close-tag literal of a tag: `</name>`.
pub open spec fn close_literal_spec(name: Seq<char>) -> Seq<char> {
    seq!['<', '/'] + name + seq!['>']
}

/// The token sequence a node renders to.
pub open spec fn toks_of_node(n: NodeModel) -> Seq<TokenModel>
    decreases n,
{
    match n {
        NodeModel::Text(t) => seq![text_token_spec(t)],
        NodeModel::Tag { name, attributes, children } => {
            if children.len() == 0 {
                seq![
                    TokenModel {
                        kind: KindModel::OpenTag { name, attributes },
                        literal: open_literal_spec(name, attributes, true),
                    },
                ]
            } else {
                seq![
                    TokenModel {
                        kind: KindModel::OpenTag { name, attributes },
                        literal: open_literal_spec(name, attributes, false),
                    },
                ] + toks_of_nodes(children) + seq![
                    TokenModel {
                        kind: KindModel::CloseTag { name },
                        literal: close_literal_spec(name),
                    },
                ]
            }
        },
    }
}

/// The token sequence a sibling list renders to.
pub open spec fn toks_of_nodes(ns: Seq<NodeModel>) -> Seq<TokenModel>
    decreases ns,
{
    if ns.len() == 0 {
        Seq::empty()
    } else {
        toks_of_node(ns[0]) + toks_of_nodes(ns.drop_first())
    }
}

/// A node's token sequence is nonempty and never begins with a close
/// tag.
pub proof fn lemma_toks_of_node_head(n: NodeModel)
    ensures
        toks_of_node(n).len() > 0,
        !(toks_of_node(n)[0].kind is CloseTag),
{
    match n {
        NodeModel::Text(_) => {},
        NodeModel::Tag { name, attributes, children } => {},
    }
}

/// How the parser takes back one rendered node: it consumes exactly the
/// node's tokens and yields exactly the node.
pub proof fn lemma_parse_node_roundtrip(n: NodeModel, rest: Seq<TokenModel>)
    requires
        wf_node(n),
    ensures
        parse_node_at(toks_of_node(n)[0], toks_of_node(n).drop_first() + rest)
            == (ParseStep::Parsed { nodes: seq![n], rest }),
    decreases n, 0nat,
{
    match n {
        NodeModel::Text(t) => {
            lemma_trim_wf_text(t);
            assert(toks_of_node(n).drop_first() =~= Seq::<TokenModel>::empty());
            assert(Seq::<TokenModel>::empty() + rest =~= rest);
            let toks = toks_of_node(n).drop_first() + rest;
            assert(toks_of_node(n)[0] == text_token_spec(t));
            assert(trim_spec(t).len() > 0);
            assert(parse_node_at(text_token_spec(t), toks) == (ParseStep::Parsed {
                nodes: seq![NodeModel::Text(trim_spec(t))],
                rest: toks,
            }));
            assert(seq![NodeModel::Text(trim_spec(t))] == seq![n]);
            assert(toks == rest);
        },
        NodeModel::Tag { name, attributes, children } => {
            if children.len() == 0 {
                let lit = open_literal_spec(name, attributes, true);
                assert(lit[lit.len() - 1] == '>');
                assert(lit[lit.len() - 2] == '/');
                assert(self_closing_literal_spec(lit));
                assert(toks_of_node(n).drop_first() =~= Seq::<TokenModel>::empty());
                assert(Seq::<TokenModel>::empty() + rest =~= rest);
            } else {
                let lit = open_literal_spec(name, attributes, false);
                let open_tok = TokenModel {
                    kind: KindModel::OpenTag { name, attributes },
                    literal: lit,
                };
                let close_tok = TokenModel {
                    kind: KindModel::CloseTag { name },
                    literal: close_literal_spec(name),
                };
                lemma_open_literal_not_self_closing(name, attributes);
                lemma_parse_node_open(open_tok, toks_of_node(n).drop_first() + rest);
                let body = toks_of_nodes(children) + seq![close_tok];
                assert(toks_of_node(n).drop_first() + rest =~= toks_of_nodes(children) + (seq![
                    close_tok,
                ] + rest));
                lemma_parse_siblings_roundtrip(
                    children,
                    Seq::empty(),
                    name,
                    attributes,
                    close_tok,
                    rest,
                );
                assert(Seq::<NodeModel>::empty() + children =~= children);
            }
        },
    }
}

/// How the gathering loop takes back rendered children followed by the
/// matching close tag: it consumes them all and files them as children.
pub proof fn lemma_parse_siblings_roundtrip(
    children: Seq<NodeModel>,
    acc: Seq<NodeModel>,
    name: Seq<char>,
    attributes: Seq<(Seq<char>, Seq<char>)>,
    close_tok: TokenModel,
    rest: Seq<TokenModel>,
)
    requires
        wf_nodes(children),
        close_tok == (TokenModel {
            kind: KindModel::CloseTag { name },
            literal: close_literal_spec(name),
        }),
    ensures
        parse_siblings_at(name, attributes, acc, toks_of_nodes(children) + (seq![close_tok]
            + rest)) == (ParseStep::Parsed {
            nodes: seq![NodeModel::Tag { name, attributes, children: acc + children }],
            rest,
        }),
    decreases children, 1nat,
{
    if children.len() == 0 {
        let toks = toks_of_nodes(children) + (seq![close_tok] + rest);
        assert(toks =~= seq![close_tok] + rest);
        assert(toks[0] == close_tok);
        assert(toks.drop_first() =~= rest);
        assert(acc + children =~= acc);
    } else {
        let c0 = children[0];
        let cs = children.drop_first();
        lemma_wf_nodes_tail(children);
        assert(wf_node(c0));
        let toks = toks_of_nodes(children) + (seq![close_tok] + rest);
        let after0 = toks_of_nodes(cs) + (seq![close_tok] + rest);
        assert(toks =~= toks_of_node(c0) + after0);
        lemma_toks_of_node_head(c0);
        assert(toks[0] == toks_of_node(c0)[0]);
        assert(toks.drop_first() =~= toks_of_node(c0).drop_first() + after0);
        lemma_parse_siblings_step(name, attributes, acc, toks);
        lemma_parse_node_roundtrip(c0, after0);
        lemma_parse_siblings_roundtrip(cs, acc + seq![c0], name, attributes, close_tok, rest);
        assert((acc + seq![c0]) + cs =~= acc + children);
    }
}

/// Trimming well-formed text changes nothing.
pub proof fn lemma_trim_wf_text(t: Seq<char>)
    requires
        wf_text(t),
    ensures
        trim_spec(t) == t,
{
    assert(crate::chars::trim_start_spec(t) == t);
    assert(crate::chars::trim_end_spec(t) == t);
}

/// The open literal of a tag with children does not end in `/>`.
pub proof fn lemma_open_literal_not_self_closing(
    name: Seq<char>,
    attributes: Seq<(Seq<char>, Seq<char>)>,
)
    requires
        wf_name(name),
        wf_attrs(attributes),
    ensures
        !self_closing_literal_spec(open_literal_spec(name, attributes, false)),
{
    let lit = open_literal_spec(name, attributes, false);
    let a = render_attrs_spec(attributes);
    lemma_render_attrs_chars(attributes);
    if a.len() == 0 {
        assert(lit[lit.len() - 2] == name[name.len() - 1]);
    } else {
        assert(lit[lit.len() - 2] == a[a.len() - 1]);
    }
}

/// No angle bracket stands in rendered attributes, and the last
/// character is never `/`, `<` or `>`.
pub proof fn lemma_render_attrs_chars(m: Seq<(Seq<char>, Seq<char>)>)
    requires
        forall|i: int| 0 <= i < m.len() ==> wf_attr(#[trigger] m[i]),
    ensures
        forall|i: int|
            0 <= i < render_attrs_spec(m).len() ==> (#[trigger] render_attrs_spec(m)[i]) != '<'
                && render_attrs_spec(m)[i] != '>',
        render_attrs_spec(m).len() > 0 ==> render_attrs_spec(m).last() != '/'
            && render_attrs_spec(m).last() != '>' && render_attrs_spec(m).last() != '<',
    decreases m.len(),
{
    if m.len() > 0 {
        assert(wf_attr(m.last()));
        lemma_render_attrs_chars(m.drop_last());
        let pre = render_attrs_spec(m.drop_last());
        let kv = m.last();
        let word = render_attr_spec(kv);
        assert forall|i: int|
            0 <= i < word.len() implies (#[trigger] word[i]) != '<' && word[i] != '>' by {
            if kv.1.len() == 0 {
                if i >= 1 {
                    assert(word[i] == kv.0[i - 1]);
                }
            } else {
                if 1 <= i < 1 + kv.0.len() {
                    assert(word[i] == kv.0[i - 1]);
                } else if 3 + kv.0.len() <= i < 3 + kv.0.len() + kv.1.len() {
                    assert(word[i] == kv.1[i - 3 - kv.0.len()]);
                }
            }
        }
        if kv.1.len() == 0 {
            assert(word.last() == kv.0[kv.0.len() - 1]);
        } else {
            assert(word.last() == '"');
        }
        assert(render_attrs_spec(m) == pre + word);
        assert(word.len() > 0);
        assert(render_attrs_spec(m).last() == word.last());
    }
}

/// Merging changes nothing where no two text tokens are adjacent.
pub proof fn lemma_merge_id(toks: Seq<TokenModel>)
    requires
        forall|i: int|
            0 <= i && i + 1 < toks.len() ==> !((#[trigger] toks[i]).kind is Text && toks[i
                + 1].kind is Text),
    ensures
        merge_spec(toks) == toks,
    decreases toks.len(),
{
    if toks.len() > 0 {
        assert forall|i: int|
            0 <= i && i + 1 < toks.drop_first().len() implies !((#[trigger] toks.drop_first()[
        i]).kind is Text && toks.drop_first()[i + 1].kind is Text) by {
            assert(toks.drop_first()[i] == toks[i + 1]);
            assert(toks.drop_first()[i + 1] == toks[i + 2]);
        }
        lemma_merge_id(toks.drop_first());
        assert(seq![toks[0]] + toks.drop_first() =~= toks);
    }
}

/// A sequence without `c` has no last `c`.
pub proof fn lemma_rfind_char_none(s: Seq<char>, c: char)
    requires
        forall|i: int| 0 <= i < s.len() ==> (#[trigger] s[i]) != c,
    ensures
        rfind_char_spec(s, c) is None,
{
    lemma_rfind_char(s, c);
    match rfind_char_spec(s, c) {
        Some(i) => {
            assert(s[i] != c);
        },
        None => {},
    }
}

/// What the close literal is made of: `<`, `/`, the name, `>`.
pub proof fn lemma_close_literal_chars(name: Seq<char>)
    requires
        wf_name(name),
    ensures
        ({
            let lit = close_literal_spec(name);
            lit.len() == name.len() + 3 && lit[0] == '<' && lit[1] == '/' && lit.last() == '>'
                && (forall|i: int| 1 <= i < lit.len() ==> (#[trigger] lit[i]) != '<') && (forall|
            i: int|
                0 <= i < lit.len() - 1 ==> (#[trigger] lit[i]) != '>')
        }),
{
    let lit = close_literal_spec(name);
    assert forall|i: int| 1 <= i < lit.len() implies (#[trigger] lit[i]) != '<' by {
        if 2 <= i < lit.len() - 1 {
            assert(lit[i] == name[i - 2]);
        }
    }
    assert forall|i: int| 0 <= i < lit.len() - 1 implies (#[trigger] lit[i]) != '>' by {
        if 2 <= i < lit.len() - 1 {
            assert(lit[i] == name[i - 2]);
        }
    }
}

/// The close literal classifies back to a close tag of the same name.
pub proof fn lemma_classify_close(name: Seq<char>)
    requires
        wf_name(name),
    ensures
        classify_spec(close_literal_spec(name)) == (TokenModel {
            kind: KindModel::CloseTag { name },
            literal: close_literal_spec(name),
        }),
{
    let lit = close_literal_spec(name);
    assert(lit[0] == '<' && lit[1] == '/');
    let s2 = lit.skip(2);
    assert(s2 =~= name + seq!['>']);
    assert(strip_leading_pair_spec(lit, '<', '/') == strip_leading_pair_spec(s2, '<', '/'));
    assert(s2[0] == name[0]);
    assert(strip_leading_pair_spec(s2, '<', '/') == s2);
    let s3 = strip_trailing_spec(s2, '>');
    assert(s2.last() == '>');
    assert(s2.drop_last() =~= name);
    assert(s3 == strip_trailing_spec(name, '>'));
    if name.len() > 0 {
        assert(name.last() != '>');
    }
    assert(s3 == name);
    assert(crate::chars::trim_start_spec(name) == name);
    assert(crate::chars::trim_end_spec(name) == name);
    assert(trim_spec(name) == name);
}

/// One attribute as a word of the open tag, without its leading space.
pub open spec fn attr_word_spec(kv: (Seq<char>, Seq<char>)) -> Seq<char> {
    if kv.1.len() == 0 {
        kv.0
    } else {
        kv.0 + seq!['=', '"'] + kv.1 + seq!['"']
    }
}

/// The words of all attributes, in order.
pub open spec fn attr_words_spec(m: Seq<(Seq<char>, Seq<char>)>) -> Seq<Seq<char>>
    decreases m.len(),
{
    if m.len() == 0 {
        Seq::empty()
    } else {
        attr_words_spec(m.drop_last()).push(attr_word_spec(m.last()))
    }
}

/// `attr_words_spec` maps `attr_word_spec` over the attributes.
pub proof fn lemma_attr_words(m: Seq<(Seq<char>, Seq<char>)>)
    ensures
        attr_words_spec(m).len() == m.len(),
        forall|i: int|
            0 <= i < m.len() ==> attr_words_spec(m)[i] == attr_word_spec(#[trigger] m[i]),
    decreases m.len(),
{
    if m.len() > 0 {
        lemma_attr_words(m.drop_last());
        assert forall|i: int| 0 <= i < m.len() implies attr_words_spec(m)[i] == attr_word_spec(
            #[trigger] m[i],
        ) by {
            if i < m.len() - 1 {
                assert(attr_words_spec(m.drop_last())[i] == attr_word_spec(m.drop_last()[i]));
                assert(m.drop_last()[i] == m[i]);
            } else {
                assert(m.last() == m[i]);
            }
        }
    }
}

/// A rendered attribute is a space followed by its word.
pub proof fn lemma_render_attr_word(kv: (Seq<char>, Seq<char>))
    ensures
        render_attr_spec(kv) == seq![' '] + attr_word_spec(kv),
{
    if kv.1.len() == 0 {
    } else {
        assert(render_attr_spec(kv) =~= seq![' '] + attr_word_spec(kv));
    }
}

/// `render_attrs_spec` unfolds at the front.
pub proof fn lemma_render_attrs_front(m: Seq<(Seq<char>, Seq<char>)>)
    requires
        m.len() > 0,
    ensures
        render_attrs_spec(m) == render_attr_spec(m[0]) + render_attrs_spec(m.drop_first()),
    decreases m.len(),
{
    if m.len() == 1 {
        assert(m.drop_last() =~= Seq::<(Seq<char>, Seq<char>)>::empty());
        assert(m.drop_first() =~= Seq::<(Seq<char>, Seq<char>)>::empty());
        assert(m.last() == m[0]);
        assert(Seq::<char>::empty() + render_attr_spec(m[0]) =~= render_attr_spec(m[0])
            + Seq::<char>::empty());
    } else {
        lemma_render_attrs_front(m.drop_last());
        assert(m.drop_last()[0] == m[0]);
        assert(m.drop_last().drop_first() =~= m.drop_first().drop_last());
        assert(m.drop_first().last() == m.last());
        assert((render_attr_spec(m[0]) + render_attrs_spec(m.drop_first().drop_last()))
            + render_attr_spec(m.last()) =~= render_attr_spec(m[0]) + (render_attrs_spec(
            m.drop_first().drop_last(),
        ) + render_attr_spec(m.last())));
    }
}

/// No character of an attribute word is whitespace.
pub proof fn lemma_attr_word_chars(kv: (Seq<char>, Seq<char>))
    requires
        wf_attr(kv),
    ensures
        attr_word_spec(kv).len() > 0,
        forall|i: int|
            0 <= i < attr_word_spec(kv).len() ==> !is_space(#[trigger] attr_word_spec(kv)[i]),
{
    let w = attr_word_spec(kv);
    assert forall|i: int| 0 <= i < w.len() implies !is_space(#[trigger] w[i]) by {
        if kv.1.len() == 0 {
            assert(w[i] == kv.0[i]);
        } else {
            if i < kv.0.len() {
                assert(w[i] == kv.0[i]);
            } else if kv.0.len() + 2 <= i < kv.0.len() + 2 + kv.1.len() {
                assert(w[i] == kv.1[i - kv.0.len() - 2]);
            } else if i == kv.0.len() {
                assert(w[i] == '=');
            } else if i == kv.0.len() + 1 {
                assert(w[i] == '"');
            } else {
                assert(w[i] == '"');
            }
        }
    }
}

/// Splitting on whitespace takes off one leading word.
pub proof fn lemma_split_ws_word(w: Seq<char>, r: Seq<char>)
    requires
        w.len() > 0,
        forall|i: int| 0 <= i < w.len() ==> !is_space(#[trigger] w[i]),
        r.len() == 0 || is_space(r[0]),
    ensures
        split_ws_spec(w + r) == seq![w] + split_ws_spec(r),
{
    let s = w + r;
    assert(s[0] == w[0]);
    lemma_word_len(s);
    let wl = word_len_spec(s) as int;
    if wl < w.len() {
        assert(s[wl] == w[wl]);
        assert(is_space(s[wl]));
    }
    if wl > w.len() {
        assert(!is_space(s[w.len() as int]));
        assert(s[w.len() as int] == r[0]);
    }
    assert(wl == w.len());
    assert(s.take(wl) =~= w);
    assert(s.skip(wl) =~= r);
}

/// The rendered attributes split into the attribute words.
pub proof fn lemma_split_ws_attrs(m: Seq<(Seq<char>, Seq<char>)>)
    requires
        forall|i: int| 0 <= i < m.len() ==> wf_attr(#[trigger] m[i]),
    ensures
        split_ws_spec(render_attrs_spec(m)) == attr_words_spec(m),
        render_attrs_spec(m).len() > 0 ==> is_space(render_attrs_spec(m)[0]),
        render_attrs_spec(m).len() == 0 ==> m.len() == 0,
    decreases m.len(),
{
    if m.len() == 0 {
    } else {
        let rest = m.drop_first();
        assert forall|i: int| 0 <= i < rest.len() implies wf_attr(#[trigger] rest[i]) by {
            assert(rest[i] == m[i + 1]);
        }
        lemma_split_ws_attrs(rest);
        lemma_render_attrs_front(m);
        lemma_render_attr_word(m[0]);
        lemma_attr_word_chars(m[0]);
        let w0 = attr_word_spec(m[0]);
        let tail = render_attrs_spec(rest);
        assert(render_attrs_spec(m) =~= seq![' '] + (w0 + tail));
        assert(render_attrs_spec(m)[0] == ' ');
        assert(is_space(' '));
        assert((seq![' '] + (w0 + tail)).drop_first() =~= w0 + tail);
        assert(split_ws_spec(render_attrs_spec(m)) == split_ws_spec(w0 + tail));
        lemma_split_ws_word(w0, tail);
        lemma_attr_words(m);
        lemma_attr_words(rest);
        assert forall|i: int|
            0 <= i < attr_words_spec(m).len() implies (seq![w0] + attr_words_spec(rest))[i]
            == attr_words_spec(m)[i] by {
            if i > 0 {
                assert(rest[i - 1] == m[i]);
                assert(attr_words_spec(rest)[i - 1] == attr_word_spec(rest[i - 1]));
            }
            assert(attr_words_spec(m)[i] == attr_word_spec(m[i]));
        }
        assert(seq![w0] + attr_words_spec(rest) =~= attr_words_spec(m));
    }
}

/// The first `=` of a valued attribute word sits right after the key,
/// and what follows is the quoted value.
pub proof fn lemma_attr_word_parses(kv: (Seq<char>, Seq<char>))
    requires
        wf_attr(kv),
    ensures
        attr_key_spec(attr_word_spec(kv)) == kv.0,
        attr_value_spec(attr_word_spec(kv)) == kv.1,
{
    let w = attr_word_spec(kv);
    let k = kv.0;
    let v = kv.1;
    if v.len() == 0 {
        lemma_find_char(w, '=');
        match find_char_spec(w, '=') {
            Some(i) => {
                assert(w[i] == k[i]);
            },
            None => {},
        }
    } else {
        assert(w[k.len() as int] == '=');
        lemma_find_char(w, '=');
        match find_char_spec(w, '=') {
            Some(i) => {
                assert(0 <= i < w.len());
                if i < k.len() {
                    assert(w[i] == k[i]);
                }
                if k.len() < i {
                    assert(w[k.len() as int] != '=');
                }
                assert(i == k.len());
            },
            None => {
                assert(w[k.len() as int] != '=');
            },
        }
        assert(w.take(k.len() as int) =~= k);
        let rest = w.skip(k.len() + 1int);
        assert(rest =~= seq!['"'] + v + seq!['"']);
        let piece = rest;
        assert(piece[0] == '"');
        assert(piece.drop_first() =~= v + seq!['"']);
        assert(strip_leading_spec(piece, '"') == strip_leading_spec(piece.drop_first(), '"'));
        assert((v + seq!['"'])[0] == v[0]);
        assert(value_char(v[0]));
        assert(strip_leading_spec(v + seq!['"'], '"') == v + seq!['"']);
        assert(strip_leading_spec(piece, '"') == v + seq!['"']);
        assert((v + seq!['"']).last() == '"');
        assert(strip_trailing_spec(v + seq!['"'], '"') == strip_trailing_spec(
            (v + seq!['"']).drop_last(),
            '"',
        ));
        assert((v + seq!['"']).drop_last() =~= v);
        assert(value_char(v[v.len() - 1]));
        assert(v.last() != '"');
        assert(strip_trailing_spec(v, '"') == v);
        assert(strip_trailing_spec(v + seq!['"'], '"') == v);
    }
}

/// Folding the attribute words back into a map gives the attributes.
pub proof fn lemma_attrs_of_words(m: Seq<(Seq<char>, Seq<char>)>)
    requires
        wf_attrs(m),
    ensures
        attrs_of_words_spec(attr_words_spec(m)) == m,
    decreases m.len(),
{
    if m.len() > 0 {
        let pre = m.drop_last();
        assert forall|i: int| 0 <= i < pre.len() implies wf_attr(#[trigger] pre[i]) by {
            assert(pre[i] == m[i]);
        }
        assert(unique_keys(pre)) by {
            assert forall|a: int, b: int|
                0 <= a < b < pre.len() implies (#[trigger] pre[a]).0 != (#[trigger] pre[b]).0 by {
                assert(m[a].0 != m[b].0);
            }
        }
        lemma_attrs_of_words(pre);
        let ws = attr_words_spec(m);
        assert(ws.drop_last() =~= attr_words_spec(pre));
        assert(ws.last() == attr_word_spec(m.last()));
        assert(wf_attr(m.last()));
        lemma_attr_word_parses(m.last());
        lemma_find_key(pre, m.last().0);
        match find_key_spec(pre, m.last().0) {
            Some(i) => {
                assert(pre[i] == m[i]);
                assert(m[i].0 != m[m.len() - 1].0);
            },
            None => {},
        }
        assert(pre.push((m.last().0, m.last().1)) =~= m);
    }
}

/// The open literal's body, with the punctuation stripped, is the name
/// and the rendered attributes.
pub proof fn lemma_open_body(
    name: Seq<char>,
    attributes: Seq<(Seq<char>, Seq<char>)>,
    self_closing: bool,
)
    requires
        wf_name(name),
        wf_attrs(attributes),
    ensures
        open_body_spec(open_literal_spec(name, attributes, self_closing)) == name
            + render_attrs_spec(attributes),
{
    let lit = open_literal_spec(name, attributes, self_closing);
    let a = render_attrs_spec(attributes);
    lemma_render_attrs_chars(attributes);
    let core = name + a;
    assert(lit[0] == '<');
    if self_closing {
        assert(lit.drop_first() =~= core + seq!['/', '>']);
    } else {
        assert(lit.drop_first() =~= core + seq!['>']);
    }
    let s1 = lit.drop_first();
    assert(s1[0] == name[0]);
    assert(strip_leading_spec(lit, '<') == strip_leading_spec(s1, '<'));
    assert(strip_leading_spec(s1, '<') == s1);
    assert(strip_leading_spec(s1, '!') == s1);
    assert(strip_leading_spec(s1, '/') == s1);
    let last_core: char = if a.len() > 0 {
        a.last()
    } else {
        name.last()
    };
    assert(core.len() > 0 && core.last() == last_core && last_core != '>' && last_core != '/');
    if self_closing {
        assert(s1.last() == '>');
        assert(s1.drop_last() =~= core + seq!['/']);
        let s2 = core + seq!['/'];
        assert(s2.last() == '/');
        assert(s2.drop_last() =~= core);
        assert(strip_trailing_spec(s1, '>') == strip_trailing_spec(s2, '>'));
        assert(s2.last() != '>');
        assert(strip_trailing_spec(s2, '>') == s2);
        assert(strip_trailing_spec(s2, '/') == strip_trailing_spec(core, '/'));
        assert(strip_trailing_spec(core, '/') == core);
    } else {
        assert(s1.last() == '>');
        assert(s1.drop_last() =~= core);
        assert(strip_trailing_spec(s1, '>') == strip_trailing_spec(core, '>'));
        assert(strip_trailing_spec(core, '>') == core);
        assert(strip_trailing_spec(core, '/') == core);
    }
}

/// The open literal classifies back to an open tag with the same name
/// and attributes.
pub proof fn lemma_classify_open(
    name: Seq<char>,
    attributes: Seq<(Seq<char>, Seq<char>)>,
    self_closing: bool,
)
    requires
        wf_name(name),
        wf_attrs(attributes),
    ensures
        classify_spec(open_literal_spec(name, attributes, self_closing)) == (TokenModel {
            kind: KindModel::OpenTag { name, attributes },
            literal: open_literal_spec(name, attributes, self_closing),
        }),
{
    let lit = open_literal_spec(name, attributes, self_closing);
    assert(lit[1] == name[0]);
    assert(!(lit.len() >= 2 && lit[0] == '<' && lit[1] == '/'));
    lemma_open_body(name, attributes, self_closing);
    let a = render_attrs_spec(attributes);
    lemma_split_ws_attrs(attributes);
    lemma_split_ws_word(name, a);
    let words = split_ws_spec(name + a);
    assert(words == seq![name] + attr_words_spec(attributes));
    lemma_attr_words(attributes);
    assert(words.len() == 1 + attributes.len());
    assert(words[0] == name);
    assert(words_are_tag_spec(words)) by {
        assert forall|i: int| 0 <= i < words.len() implies word_is_tag_like_spec(
            #[trigger] words[i],
        ) by {
            if i == 0 {
                assert(all_alpha_spec(name));
            } else {
                let kv = attributes[i - 1];
                assert(wf_attr(kv));
                assert(words[i] == attr_word_spec(kv));
                let w = attr_word_spec(kv);
                if kv.1.len() == 0 {
                    assert forall|j: int| 0 <= j < w.len() implies is_alpha(#[trigger] w[j]) by {
                        assert(w[j] == kv.0[j]);
                    }
                    assert(all_alpha_spec(w));
                } else {
                    assert(w[kv.0.len() as int] == '=');
                    assert(w[kv.0.len() + 1int] == '"');
                    assert(has_eq_quote_spec(w));
                }
            }
        }
    }
    assert(words.drop_first() =~= attr_words_spec(attributes));
    lemma_attrs_of_words(attributes);
}

/// The first `c` of `s` sits at `j` when `s[j]` is `c` and nothing
/// before it is.
pub proof fn lemma_find_char_at(s: Seq<char>, c: char, j: int)
    requires
        0 <= j < s.len(),
        s[j] == c,
        forall|i: int| 0 <= i < j ==> (#[trigger] s[i]) != c,
    ensures
        find_char_spec(s, c) == Some(j),
{
    lemma_find_char(s, c);
    match find_char_spec(s, c) {
        Some(i) => {
            if i < j {
                assert(s[i] != c);
            }
            if j < i {
                assert(s[j] != c);
            }
        },
        None => {
            assert(s[j] != c);
        },
    }
}

/// The last `c` of `s` sits at `j` when `s[j]` is `c` and nothing after
/// it is.
pub proof fn lemma_rfind_char_at(s: Seq<char>, c: char, j: int)
    requires
        0 <= j < s.len(),
        s[j] == c,
        forall|i: int| j < i < s.len() ==> (#[trigger] s[i]) != c,
    ensures
        rfind_char_spec(s, c) == Some(j),
{
    lemma_rfind_char(s, c);
    match rfind_char_spec(s, c) {
        Some(i) => {
            if i < j {
                assert(s[j] != c);
            }
            if j < i {
                assert(s[i] != c);
            }
        },
        None => {
            assert(s[j] != c);
        },
    }
}

/// A sequence without `c` has no first `c`.
pub proof fn lemma_find_char_none(s: Seq<char>, c: char)
    requires
        forall|i: int| 0 <= i < s.len() ==> (#[trigger] s[i]) != c,
    ensures
        find_char_spec(s, c) is None,
{
    lemma_find_char(s, c);
    match find_char_spec(s, c) {
        Some(i) => {
            assert(s[i] != c);
        },
        None => {},
    }
}

/// A text token that tokenization re-emits whole: its content is its
/// literal, nonempty and free of angle brackets.
pub open spec fn text_tok_ok(t: TokenModel) -> bool {
    t.kind == KindModel::Text(t.literal) && t.literal.len() > 0 && forall|i: int|
        0 <= i < t.literal.len() ==> (#[trigger] t.literal[i]) != '<' && t.literal[i] != '>'
}

/// A tag token whose literal the tokenizer cuts out and classifies back
/// to the very token: one `<` at the front, one `>` at the back.
pub open spec fn tag_tok_ok(t: TokenModel) -> bool {
    t.literal.len() > 0 && t.literal[0] == '<' && t.literal.last() == '>' && (forall|i: int|
        1 <= i < t.literal.len() ==> (#[trigger] t.literal[i]) != '<') && (forall|i: int|
        0 <= i < t.literal.len() - 1 ==> (#[trigger] t.literal[i]) != '>') && classify_spec(
        t.literal,
    ) == t && !(t.kind is Text)
}

/// A token list the tokenizer reproduces from its own literals.
pub open spec fn toks_ok(toks: Seq<TokenModel>) -> bool {
    (forall|i: int| 0 <= i < toks.len() ==> text_tok_ok(#[trigger] toks[i]) || tag_tok_ok(toks[i]))
        && (forall|i: int|
        0 <= i && i + 1 < toks.len() ==> !((#[trigger] toks[i]).kind is Text && toks[i
            + 1].kind is Text))
}

/// A suffix of a reproducible token list is reproducible.
pub proof fn lemma_toks_ok_skip(toks: Seq<TokenModel>, k: int)
    requires
        toks_ok(toks),
        0 <= k <= toks.len(),
    ensures
        toks_ok(toks.skip(k)),
{
    let t = toks.skip(k);
    assert forall|i: int| 0 <= i < t.len() implies text_tok_ok(#[trigger] t[i]) || tag_tok_ok(
        t[i],
    ) by {
        assert(t[i] == toks[i + k]);
        assert(text_tok_ok(toks[i + k]) || tag_tok_ok(toks[i + k]));
    }
    assert forall|i: int| 0 <= i && i + 1 < t.len() implies !((#[trigger] t[i]).kind is Text && t[i
        + 1].kind is Text) by {
        assert(t[i] == toks[i + k]);
        assert(t[i + 1] == toks[i + k + 1]);
    }
}

/// The literals of a token list, joined.
pub open spec fn cat_literals(toks: Seq<TokenModel>) -> Seq<char>
    decreases toks.len(),
{
    if toks.len() == 0 {
        Seq::empty()
    } else {
        toks[0].literal + cat_literals(toks.drop_first())
    }
}

/// Tokenizing the joined literals of a reproducible token list yields
/// the list back.
pub proof fn lemma_tokenize_toks(toks: Seq<TokenModel>)
    requires
        toks_ok(toks),
    ensures
        tokenize_spec(cat_literals(toks)) == toks,
    decreases toks.len(),
{
    if toks.len() == 0 {
    } else {
        let t0 = toks[0];
        assert(text_tok_ok(t0) || tag_tok_ok(t0));
        if tag_tok_ok(t0) {
            let lit = t0.literal;
            let s = cat_literals(toks);
            let r = cat_literals(toks.drop_first());
            assert(s == lit + r);
            assert forall|i: int| 0 <= i < lit.len() - 1 implies (#[trigger] (lit + r)[i])
                != '>' by {
                assert((lit + r)[i] == lit[i]);
            }
            assert((lit + r)[lit.len() - 1] == lit.last());
            lemma_find_char_at(s, '>', lit.len() - 1);
            assert(s.take(lit.len() as int) =~= lit);
            assert(s.skip(lit.len() as int) =~= r);
            lemma_span_single(t0);
            lemma_toks_ok_skip(toks, 1);
            assert(toks.skip(1) =~= toks.drop_first());
            lemma_tokenize_toks(toks.drop_first());
            assert(seq![t0] + toks.drop_first() =~= toks);
        } else {
            let t = t0.literal;
            if toks.len() == 1 {
                let s = cat_literals(toks);
                assert(cat_literals(toks.drop_first()) =~= Seq::<char>::empty());
                assert(s =~= t);
                lemma_find_char_none(s, '>');
                assert(tokenize_spec(s) == seq![text_token_spec(s)]);
                assert(text_token_spec(t) == t0);
                assert(seq![t0] =~= toks);
            } else {
                let t1 = toks[1];
                assert(!(t1.kind is Text));
                assert(text_tok_ok(t1) || tag_tok_ok(t1));
                assert(tag_tok_ok(t1)) by {
                    if text_tok_ok(t1) {
                        assert(t1.kind is Text);
                    }
                }
                let lit = t1.literal;
                let r2 = cat_literals(toks.skip(2));
                let s = cat_literals(toks);
                assert(cat_literals(toks.drop_first()) == lit + r2) by {
                    assert(toks.drop_first()[0] == t1);
                    assert(toks.drop_first().drop_first() =~= toks.skip(2));
                }
                assert(s == t + (lit + r2));
                assert(s =~= (t + lit) + r2);
                assert forall|i: int| 0 <= i < t.len() + lit.len() - 1 implies (#[trigger] s[i])
                    != '>' by {
                    if i < t.len() {
                        assert(s[i] == t[i]);
                    } else {
                        assert(s[i] == lit[i - t.len()]);
                    }
                }
                assert(s[t.len() + lit.len() - 1] == lit.last());
                lemma_find_char_at(s, '>', t.len() + lit.len() - 1);
                let span = s.take(t.len() + lit.len() as int);
                assert(span =~= t + lit);
                assert(s.skip(t.len() + lit.len() as int) =~= r2);
                lemma_span_text_tag(t0, t1);
                lemma_toks_ok_skip(toks, 2);
                lemma_tokenize_toks(toks.skip(2));
                assert((seq![t0, t1]) + toks.skip(2) =~= toks);
                assert(tokenize_spec(s) == span_tokens_spec(t + lit) + tokenize_spec(r2));
                assert(seq![t0, t1] + toks.skip(2) == toks);
            }
        }
    }
}

/// The span of one tag literal yields exactly that token.
pub proof fn lemma_span_single(t0: TokenModel)
    requires
        tag_tok_ok(t0),
    ensures
        span_tokens_spec(t0.literal) == seq![t0],
{
    let lit = t0.literal;
    lemma_rfind_char_at(lit, '<', 0);
    assert(lit.take(0) =~= Seq::<char>::empty());
    lemma_rfind_char_none(Seq::<char>::empty(), '<');
    assert(span_tokens_spec(Seq::<char>::empty()) =~= Seq::<TokenModel>::empty());
    assert(lit.skip(0) =~= lit);
    assert(Seq::<TokenModel>::empty() + seq![classify_spec(lit)] =~= seq![t0]);
}

/// The span of a text literal followed by a tag literal yields exactly
/// those two tokens.
pub proof fn lemma_span_text_tag(t0: TokenModel, t1: TokenModel)
    requires
        text_tok_ok(t0),
        tag_tok_ok(t1),
    ensures
        span_tokens_spec(t0.literal + t1.literal) == seq![t0, t1],
{
    let t = t0.literal;
    let lit = t1.literal;
    let span = t + lit;
    assert(span[t.len() as int] == lit[0]);
    assert forall|i: int| t.len() < i < span.len() implies (#[trigger] span[i]) != '<' by {
        assert(span[i] == lit[i - t.len()]);
    }
    lemma_rfind_char_at(span, '<', t.len() as int);
    assert(span.take(t.len() as int) =~= t);
    assert(span.skip(t.len() as int) =~= lit);
    assert forall|i: int| 0 <= i < t.len() implies (#[trigger] t[i]) != '<' by {}
    lemma_rfind_char_none(t, '<');
    assert(span_tokens_spec(t) == seq![text_token_spec(t)]);
    assert(text_token_spec(t) == t0);
    assert(seq![text_token_spec(t)] + seq![classify_spec(lit)] =~= seq![t0, t1]);
}

/// The joined literals of one token are its literal.
pub proof fn lemma_cat_singleton(t: TokenModel)
    ensures
        cat_literals(seq![t]) == t.literal,
{
    assert(seq![t].drop_first() =~= Seq::<TokenModel>::empty());
    assert(cat_literals(Seq::<TokenModel>::empty()) == Seq::<char>::empty());
    assert(t.literal + Seq::<char>::empty() =~= t.literal);
}

/// Joined literals distribute over concatenation of token lists.
pub proof fn lemma_cat_concat(a: Seq<TokenModel>, b: Seq<TokenModel>)
    ensures
        cat_literals(a + b) == cat_literals(a) + cat_literals(b),
    decreases a.len(),
{
    if a.len() == 0 {
        assert(a + b =~= b);
        assert(cat_literals(a) + cat_literals(b) =~= cat_literals(b));
    } else {
        lemma_cat_concat(a.drop_first(), b);
        assert((a + b).drop_first() =~= a.drop_first() + b);
        assert((a + b)[0] == a[0]);
        assert(a[0].literal + (cat_literals(a.drop_first()) + cat_literals(b)) =~= (a[0].literal
            + cat_literals(a.drop_first())) + cat_literals(b));
    }
}

/// What a node renders to is the joined literals of its tokens.
pub proof fn lemma_render_is_cat_node(n: NodeModel)
    requires
        wf_node(n),
    ensures
        render_node_spec(n) == cat_literals(toks_of_node(n)),
    decreases n, 0nat,
{
    match n {
        NodeModel::Text(t) => {
            lemma_cat_singleton(text_token_spec(t));
        },
        NodeModel::Tag { name, attributes, children } => {
            if children.len() == 0 {
                lemma_cat_singleton(
                    TokenModel {
                        kind: KindModel::OpenTag { name, attributes },
                        literal: open_literal_spec(name, attributes, true),
                    },
                );
                assert(render_node_spec(n) =~= open_literal_spec(name, attributes, true));
            } else {
                let open_tok = TokenModel {
                    kind: KindModel::OpenTag { name, attributes },
                    literal: open_literal_spec(name, attributes, false),
                };
                let close_tok = TokenModel {
                    kind: KindModel::CloseTag { name },
                    literal: close_literal_spec(name),
                };
                lemma_render_is_cat_nodes(children);
                lemma_cat_concat(seq![open_tok] + toks_of_nodes(children), seq![close_tok]);
                lemma_cat_concat(seq![open_tok], toks_of_nodes(children));
                lemma_cat_singleton(open_tok);
                lemma_cat_singleton(close_tok);
                assert(toks_of_node(n) == (seq![open_tok] + toks_of_nodes(children)) + seq![
                    close_tok,
                ]);
                assert(render_node_spec(n) =~= (open_tok.literal + cat_literals(
                    toks_of_nodes(children),
                )) + close_tok.literal);
            }
        },
    }
}

/// What a sibling list renders to is the joined literals of its tokens.
pub proof fn lemma_render_is_cat_nodes(ns: Seq<NodeModel>)
    requires
        wf_nodes(ns),
    ensures
        render_nodes_spec(ns) == cat_literals(toks_of_nodes(ns)),
    decreases ns, 1nat,
{
    if ns.len() > 0 {
        lemma_wf_nodes_tail(ns);
        lemma_render_is_cat_node(ns[0]);
        lemma_render_is_cat_nodes(ns.drop_first());
        lemma_cat_concat(toks_of_node(ns[0]), toks_of_nodes(ns.drop_first()));
    }
}

/// The tokens of a well-formed node are reproducible, and they begin and
/// end with a text token only when the node itself is text.
pub proof fn lemma_toks_of_node_ok(n: NodeModel)
    requires
        wf_node(n),
    ensures
        toks_ok(toks_of_node(n)),
        toks_of_node(n).len() > 0,
        toks_of_node(n)[0].kind is Text ==> n is Text,
        toks_of_node(n).last().kind is Text ==> n is Text,
    decreases n, 0nat,
{
    match n {
        NodeModel::Text(t) => {
            let tok = text_token_spec(t);
            assert(text_tok_ok(tok));
        },
        NodeModel::Tag { name, attributes, children } => {
            lemma_render_attrs_chars(attributes);
            if children.len() == 0 {
                let lit = open_literal_spec(name, attributes, true);
                let tok = TokenModel { kind: KindModel::OpenTag { name, attributes }, literal: lit };
                lemma_classify_open(name, attributes, true);
                lemma_open_literal_chars(name, attributes, true);
                assert(tag_tok_ok(tok));
            } else {
                let open_tok = TokenModel {
                    kind: KindModel::OpenTag { name, attributes },
                    literal: open_literal_spec(name, attributes, false),
                };
                let close_tok = TokenModel {
                    kind: KindModel::CloseTag { name },
                    literal: close_literal_spec(name),
                };
                lemma_classify_open(name, attributes, false);
                lemma_open_literal_chars(name, attributes, false);
                assert(tag_tok_ok(open_tok));
                lemma_classify_close(name);
                lemma_close_literal_chars(name);
                assert(tag_tok_ok(close_tok)) by {
                    let lit = close_literal_spec(name);
                    assert(classify_spec(lit).kind == KindModel::CloseTag { name });
                }
                lemma_toks_of_nodes_ok(children);
                let mid = toks_of_nodes(children);
                let toks = toks_of_node(n);
                assert(toks == seq![open_tok] + mid + seq![close_tok]);
                assert(toks.len() == mid.len() + 2);
                assert forall|i: int|
                    0 <= i < toks.len() implies text_tok_ok(#[trigger] toks[i]) || tag_tok_ok(
                    toks[i],
                ) by {
                    if i == 0 {
                        assert(toks[i] == open_tok);
                    } else if i < toks.len() - 1 {
                        assert(toks[i] == mid[i - 1]);
                        assert(text_tok_ok(mid[i - 1]) || tag_tok_ok(mid[i - 1]));
                    } else {
                        assert(toks[i] == close_tok);
                    }
                }
                assert forall|i: int|
                    0 <= i && i + 1 < toks.len() implies !((#[trigger] toks[i]).kind is Text
                    && toks[i + 1].kind is Text) by {
                    if i == 0 {
                        assert(toks[i] == open_tok);
                    } else if i + 1 < toks.len() - 1 {
                        assert(toks[i] == mid[i - 1]);
                        assert(toks[i + 1] == mid[i]);
                    } else {
                        assert(toks[i + 1] == close_tok);
                    }
                }
                assert(toks[0] == open_tok);
                assert(toks.last() == close_tok);
            }
        },
    }
}

/// The tokens of a well-formed sibling list are reproducible, and they
/// begin and end with a text token only where the list does.
pub proof fn lemma_toks_of_nodes_ok(ns: Seq<NodeModel>)
    requires
        wf_nodes(ns),
    ensures
        toks_ok(toks_of_nodes(ns)),
        toks_of_nodes(ns).len() >= ns.len(),
        ns.len() > 0 ==> toks_of_nodes(ns).len() > 0,
        ns.len() > 0 ==> (toks_of_nodes(ns)[0].kind is Text ==> ns[0] is Text),
        ns.len() > 0 ==> (toks_of_nodes(ns).last().kind is Text ==> ns.last() is Text),
    decreases ns, 1nat,
{
    if ns.len() > 0 {
        lemma_wf_nodes_tail(ns);
        lemma_toks_of_node_ok(ns[0]);
        lemma_toks_of_nodes_ok(ns.drop_first());
        let head = toks_of_node(ns[0]);
        let tail = toks_of_nodes(ns.drop_first());
        let toks = toks_of_nodes(ns);
        assert(toks == head + tail);
        assert forall|i: int|
            0 <= i < toks.len() implies text_tok_ok(#[trigger] toks[i]) || tag_tok_ok(toks[i]) by {
            if i < head.len() {
                assert(toks[i] == head[i]);
                assert(text_tok_ok(head[i]) || tag_tok_ok(head[i]));
            } else {
                assert(toks[i] == tail[i - head.len()]);
                assert(text_tok_ok(tail[i - head.len()]) || tag_tok_ok(tail[i - head.len()]));
            }
        }
        assert forall|i: int|
            0 <= i && i + 1 < toks.len() implies !((#[trigger] toks[i]).kind is Text && toks[i
            + 1].kind is Text) by {
            if i + 1 < head.len() {
                assert(toks[i] == head[i]);
                assert(toks[i + 1] == head[i + 1]);
            } else if i >= head.len() {
                assert(toks[i] == tail[i - head.len()]);
                assert(toks[i + 1] == tail[i + 1 - head.len()]);
            } else {
                assert(i == head.len() - 1);
                assert(toks[i] == head.last());
                assert(toks[i + 1] == tail[0]);
                assert(ns.drop_first().len() > 0);
                if toks[i].kind is Text && toks[i + 1].kind is Text {
                    assert(ns[0] is Text);
                    assert(ns.drop_first()[0] is Text);
                    assert(ns.drop_first()[0] == ns[1]);
                }
            }
        }
        assert(toks[0] == head[0]);
        if tail.len() > 0 {
            assert(toks.last() == tail.last());
            if toks.last().kind is Text {
                assert(ns.drop_first().last() == ns.last());
            }
        } else {
            assert(toks.last() == head.last());
            assert(ns.drop_first().len() == 0);
            assert(ns.last() == ns[0]);
        }
    }
}

/// Every character of the sequence is whitespace.
pub open spec fn all_space(s: Seq<char>) -> bool {
    forall|i: int| 0 <= i < s.len() ==> is_space(#[trigger] s[i])
}

/// The token stream of a rendered document.  The renderer puts a
/// newline after each root, and the tokenizer folds such loose
/// characters into the text run before the next tag, or flushes them at
/// the end of input; `pre` is the text buffered so far.
pub open spec fn doc_toks_spec(ns: Seq<NodeModel>, pre: Seq<char>) -> Seq<TokenModel>
    decreases ns,
{
    if ns.len() == 0 {
        if pre.len() == 0 {
            Seq::empty()
        } else {
            seq![text_token_spec(pre)]
        }
    } else {
        match ns[0] {
            NodeModel::Text(t) => doc_toks_spec(ns.drop_first(), pre + t + seq!['\n']),
            NodeModel::Tag { .. } => (if pre.len() == 0 {
                Seq::<TokenModel>::empty()
            } else {
                seq![text_token_spec(pre)]
            }) + toks_of_node(ns[0]) + doc_toks_spec(ns.drop_first(), seq!['\n']),
        }
    }
}

/// The joined literals of a document's tokens are the buffered text
/// followed by the rendered document.
pub proof fn lemma_doc_toks_cat(ns: Seq<NodeModel>, pre: Seq<char>)
    requires
        wf_nodes(ns),
    ensures
        cat_literals(doc_toks_spec(ns, pre)) == pre + render_doc_spec(ns),
    decreases ns,
{
    if ns.len() == 0 {
        if pre.len() == 0 {
            assert(pre + render_doc_spec(ns) =~= Seq::<char>::empty());
            assert(cat_literals(doc_toks_spec(ns, pre)) =~= Seq::<char>::empty());
        } else {
            lemma_cat_singleton(text_token_spec(pre));
            assert(pre + render_doc_spec(ns) =~= pre);
        }
    } else {
        lemma_wf_nodes_tail(ns);
        match ns[0] {
            NodeModel::Text(t) => {
                lemma_doc_toks_cat(ns.drop_first(), pre + t + seq!['\n']);
                assert((pre + t + seq!['\n']) + render_doc_spec(ns.drop_first()) =~= pre + (t
                    + seq!['\n'] + render_doc_spec(ns.drop_first())));
                assert(render_node_spec(ns[0]) == t);
            },
            NodeModel::Tag { .. } => {
                let flush: Seq<TokenModel> = if pre.len() == 0 {
                    Seq::empty()
                } else {
                    seq![text_token_spec(pre)]
                };
                let head = toks_of_node(ns[0]);
                let tail = doc_toks_spec(ns.drop_first(), seq!['\n']);
                lemma_cat_concat(flush + head, tail);
                lemma_cat_concat(flush, head);
                if pre.len() == 0 {
                    assert(cat_literals(flush) =~= Seq::<char>::empty());
                } else {
                    lemma_cat_singleton(text_token_spec(pre));
                }
                assert(wf_node(ns[0]));
                lemma_render_is_cat_node(ns[0]);
                lemma_doc_toks_cat(ns.drop_first(), seq!['\n']);
                assert(doc_toks_spec(ns, pre) == (flush + head) + tail);
                assert(cat_literals(doc_toks_spec(ns, pre)) =~= pre + (render_node_spec(ns[0])
                    + seq!['\n'] + render_doc_spec(ns.drop_first())));
            },
        }
    }
}

/// The document's tokens are reproducible: text runs carry no angle
/// bracket, tag literals classify back to their tokens, and no two text
/// tokens stand side by side.
pub proof fn lemma_doc_toks_ok(ns: Seq<NodeModel>, pre: Seq<char>)
    requires
        wf_nodes(ns),
        forall|i: int| 0 <= i < pre.len() ==> (#[trigger] pre[i]) != '<' && pre[i] != '>',
    ensures
        toks_ok(doc_toks_spec(ns, pre)),
    decreases ns,
{
    if ns.len() == 0 {
        if pre.len() > 0 {
            assert(text_tok_ok(text_token_spec(pre)));
        }
    } else {
        lemma_wf_nodes_tail(ns);
        match ns[0] {
            NodeModel::Text(t) => {
                let pre2 = pre + t + seq!['\n'];
                assert(wf_node(ns[0]));
                assert forall|i: int|
                    0 <= i < pre2.len() implies (#[trigger] pre2[i]) != '<' && pre2[i] != '>' by {
                    if i < pre.len() {
                        assert(pre2[i] == pre[i]);
                    } else if i < pre.len() + t.len() {
                        assert(pre2[i] == t[i - pre.len()]);
                    } else {
                        assert(pre2[i] == '\n');
                    }
                }
                lemma_doc_toks_ok(ns.drop_first(), pre2);
            },
            NodeModel::Tag { .. } => {
                let flush: Seq<TokenModel> = if pre.len() == 0 {
                    Seq::empty()
                } else {
                    seq![text_token_spec(pre)]
                };
                let head = toks_of_node(ns[0]);
                let tail = doc_toks_spec(ns.drop_first(), seq!['\n']);
                let toks = doc_toks_spec(ns, pre);
                assert(toks == (flush + head) + tail);
                if pre.len() > 0 {
                    assert(text_tok_ok(text_token_spec(pre)));
                }
                assert(wf_node(ns[0]));
                lemma_toks_of_node_ok(ns[0]);
                lemma_doc_toks_ok(ns.drop_first(), seq!['\n']);
                assert forall|i: int|
                    0 <= i < toks.len() implies text_tok_ok(#[trigger] toks[i]) || tag_tok_ok(
                    toks[i],
                ) by {
                    if i < flush.len() {
                        assert(toks[i] == flush[i]);
                    } else if i < flush.len() + head.len() {
                        assert(toks[i] == head[i - flush.len()]);
                        assert(text_tok_ok(head[i - flush.len()]) || tag_tok_ok(
                            head[i - flush.len()],
                        ));
                    } else {
                        assert(toks[i] == tail[i - flush.len() - head.len()]);
                        assert(text_tok_ok(tail[i - flush.len() - head.len()]) || tag_tok_ok(
                            tail[i - flush.len() - head.len()],
                        ));
                    }
                }
                assert forall|i: int|
                    0 <= i && i + 1 < toks.len() implies !((#[trigger] toks[i]).kind is Text
                    && toks[i + 1].kind is Text) by {
                    if i + 1 < flush.len() {
                    } else if i < flush.len() && i + 1 < flush.len() + head.len() {
                        assert(toks[i + 1] == head[i + 1 - flush.len()]);
                        if toks[i + 1].kind is Text {
                            assert(head[0].kind is Text);
                            assert(ns[0] is Text);
                        }
                    } else if i >= flush.len() && i + 1 < flush.len() + head.len() {
                        assert(toks[i] == head[i - flush.len()]);
                        assert(toks[i + 1] == head[i + 1 - flush.len()]);
                    } else if i >= flush.len() + head.len() {
                        assert(toks[i] == tail[i - flush.len() - head.len()]);
                        assert(toks[i + 1] == tail[i + 1 - flush.len() - head.len()]);
                    } else {
                        assert(i == flush.len() + head.len() - 1);
                        assert(toks[i] == head.last());
                        if toks[i].kind is Text {
                            assert(ns[0] is Text);
                        }
                    }
                }
            },
        }
    }
}

/// Trimming an all-whitespace run leaves nothing.
pub proof fn lemma_trim_all_space(s: Seq<char>)
    requires
        all_space(s),
    ensures
        trim_spec(s) == Seq::<char>::empty(),
    decreases s.len(),
{
    if s.len() > 0 {
        assert(is_space(s[0]));
        lemma_trim_all_space(s.drop_first());
        assert(crate::chars::trim_start_spec(s) == crate::chars::trim_start_spec(s.drop_first()));
        assert(trim_spec(s.drop_first()) == Seq::<char>::empty());
        assert(crate::chars::trim_end_spec(crate::chars::trim_start_spec(s.drop_first()))
            == Seq::<char>::empty());
    } else {
        assert(crate::chars::trim_start_spec(s) == s);
        assert(crate::chars::trim_end_spec(s) == s);
    }
}

/// Trimming well-formed text padded with whitespace on both sides gives
/// back the text.
pub proof fn lemma_trim_padded(pre: Seq<char>, t: Seq<char>, suf: Seq<char>)
    requires
        all_space(pre),
        all_space(suf),
        wf_text(t),
    ensures
        trim_spec(pre + t + suf) == t,
{
    lemma_trim_start_padded(pre, t + suf);
    assert((t + suf)[0] == t[0]);
    assert(crate::chars::trim_start_spec(pre + t + suf) == t + suf) by {
        assert(pre + t + suf =~= pre + (t + suf));
        assert(crate::chars::trim_start_spec(pre + (t + suf)) == t + suf);
    }
    lemma_trim_end_padded(t, suf);
}

/// Leading whitespace is stripped down to the first solid character.
proof fn lemma_trim_start_padded(pre: Seq<char>, rest: Seq<char>)
    requires
        all_space(pre),
        rest.len() > 0,
        !is_space(rest[0]),
    ensures
        crate::chars::trim_start_spec(pre + rest) == rest,
    decreases pre.len(),
{
    if pre.len() == 0 {
        assert(pre + rest =~= rest);
        assert(crate::chars::trim_start_spec(rest) == rest);
    } else {
        assert((pre + rest)[0] == pre[0]);
        assert(is_space(pre[0]));
        assert((pre + rest).drop_first() =~= pre.drop_first() + rest);
        assert forall|i: int| 0 <= i < pre.drop_first().len() implies is_space(
            #[trigger] pre.drop_first()[i],
        ) by {
            assert(pre.drop_first()[i] == pre[i + 1]);
        }
        lemma_trim_start_padded(pre.drop_first(), rest);
    }
}

/// Trailing whitespace is stripped back to the last solid character.
proof fn lemma_trim_end_padded(t: Seq<char>, suf: Seq<char>)
    requires
        all_space(suf),
        t.len() > 0,
        !is_space(t.last()),
    ensures
        crate::chars::trim_end_spec(t + suf) == t,
    decreases suf.len(),
{
    if suf.len() == 0 {
        assert(t + suf =~= t);
        assert(crate::chars::trim_end_spec(t) == t);
    } else {
        assert((t + suf).last() == suf.last());
        assert(is_space(suf.last()));
        assert((t + suf).drop_last() =~= t + suf.drop_last());
        assert forall|i: int| 0 <= i < suf.drop_last().len() implies is_space(
            #[trigger] suf.drop_last()[i],
        ) by {
            assert(suf.drop_last()[i] == suf[i]);
        }
        lemma_trim_end_padded(t, suf.drop_last());
    }
}

/// Parsing a rendered document's tokens yields exactly its roots: the
/// whitespace runs between roots trim away, padded text trims back to
/// itself, and each tag's tokens parse back to the tag.
pub proof fn lemma_parse_doc(ns: Seq<NodeModel>, pre: Seq<char>)
    requires
        wf_nodes(ns),
        all_space(pre),
    ensures
        parse_all_spec(doc_toks_spec(ns, pre), enough_fuel(doc_toks_spec(ns, pre)))
            == (ParseStep::Parsed { nodes: ns, rest: Seq::<TokenModel>::empty() }),
    decreases ns.len(),
{
    let toks = doc_toks_spec(ns, pre);
    if ns.len() == 0 {
        if pre.len() == 0 {
            assert(toks =~= Seq::<TokenModel>::empty());
            assert(ns =~= Seq::<NodeModel>::empty());
        } else {
            lemma_parse_all_unfold(toks);
            lemma_trim_all_space(pre);
            assert(toks[0] == text_token_spec(pre));
            assert(toks.drop_first() =~= Seq::<TokenModel>::empty());
            assert(ns =~= Seq::<NodeModel>::empty());
            assert(Seq::<NodeModel>::empty() + Seq::<NodeModel>::empty()
                =~= Seq::<NodeModel>::empty());
        }
    } else {
        lemma_wf_nodes_tail(ns);
        match ns[0] {
            NodeModel::Text(t) => {
                assert(wf_node(ns[0]));
                let pre2 = pre + t + seq!['\n'];
                assert(all_space(seq!['\n'])) by {
                    assert(seq!['\n'][0] == '\n');
                    assert(is_space('\n'));
                }
                assert(toks == doc_toks_spec(ns.drop_first(), pre2));
                lemma_trim_padded(pre, t, seq!['\n']);
                if ns.len() == 1 {
                    assert(ns.drop_first().len() == 0);
                    assert(toks =~= seq![text_token_spec(pre2)]);
                    lemma_parse_all_unfold(toks);
                    assert(toks[0] == text_token_spec(pre2));
                    assert(trim_spec(pre2).len() > 0);
                    assert(toks.drop_first() =~= Seq::<TokenModel>::empty());
                    assert(seq![NodeModel::Text(t)] + Seq::<NodeModel>::empty() =~= ns);
                } else {
                    assert(ns.drop_first()[0] == ns[1]);
                    assert(!(ns[0] is Text && ns[1] is Text));
                    assert(ns[1] is Tag ==> true);
                    match ns.drop_first()[0] {
                        NodeModel::Text(_) => {
                            assert(false);
                        },
                        NodeModel::Tag { .. } => {},
                    }
                    let head = toks_of_node(ns[1]);
                    let tail = doc_toks_spec(ns.drop_first().drop_first(), seq!['\n']);
                    assert(toks == seq![text_token_spec(pre2)] + head + tail);
                    lemma_parse_all_unfold(toks);
                    assert(toks[0] == text_token_spec(pre2));
                    assert(trim_spec(pre2).len() > 0);
                    assert(toks.drop_first() =~= head + tail);
                    lemma_toks_of_node_head(ns[1]);
                    assert((head + tail)[0] == head[0]);
                    lemma_parse_all_unfold(head + tail);
                    assert((head + tail).drop_first() =~= head.drop_first() + tail);
                    assert(wf_nodes(ns.drop_first()));
                    lemma_wf_nodes_index(ns.drop_first());
                    assert(wf_node(ns[1]));
                    lemma_parse_node_roundtrip(ns[1], tail);
                    lemma_wf_nodes_tail(ns.drop_first());
                    lemma_parse_doc(ns.drop_first().drop_first(), seq!['\n']);
                    assert(seq![NodeModel::Text(t)] + (seq![ns[1]]
                        + ns.drop_first().drop_first()) =~= ns);
                }
            },
            NodeModel::Tag { .. } => {
                assert(wf_node(ns[0]));
                assert(all_space(seq!['\n'])) by {
                    assert(seq!['\n'][0] == '\n');
                    assert(is_space('\n'));
                }
                let head = toks_of_node(ns[0]);
                let tail = doc_toks_spec(ns.drop_first(), seq!['\n']);
                lemma_toks_of_node_head(ns[0]);
                lemma_parse_node_roundtrip(ns[0], tail);
                lemma_parse_doc(ns.drop_first(), seq!['\n']);
                if pre.len() == 0 {
                    assert(toks =~= head + tail);
                    lemma_parse_all_unfold(toks);
                    assert(toks[0] == head[0]);
                    assert(toks.drop_first() =~= head.drop_first() + tail);
                    assert(seq![ns[0]] + ns.drop_first() =~= ns);
                } else {
                    assert(toks == (seq![text_token_spec(pre)] + head) + tail);
                    lemma_parse_all_unfold(toks);
                    lemma_trim_all_space(pre);
                    assert(toks[0] == text_token_spec(pre));
                    assert(toks.drop_first() =~= head + tail);
                    lemma_parse_all_unfold(head + tail);
                    assert((head + tail)[0] == head[0]);
                    assert((head + tail).drop_first() =~= head.drop_first() + tail);
                    assert(Seq::<NodeModel>::empty() + (seq![ns[0]] + ns.drop_first()) =~= ns);
                }
            },
        }
    }
}

/// The round trip: a well-formed tree, rendered back to markup, then
/// tokenized, merged and parsed again, comes back as the same tree.
pub proof fn lemma_roundtrip(ns: Seq<NodeModel>)
    requires
        wf_nodes(ns),
    ensures
        parse_spec(merge_spec(tokenize_spec(render_doc_spec(ns)))) == Ok::<
            Seq<NodeModel>,
            Seq<char>,
        >(ns),
{
    let toks = doc_toks_spec(ns, Seq::empty());
    lemma_doc_toks_cat(ns, Seq::empty());
    assert(Seq::<char>::empty() + render_doc_spec(ns) =~= render_doc_spec(ns));
    lemma_doc_toks_ok(ns, Seq::empty());
    lemma_tokenize_toks(toks);
    lemma_merge_id(toks);
    lemma_parse_doc(ns, Seq::empty());
}

/// No angle bracket stands inside an open literal but the one at each
/// end.
pub proof fn lemma_open_literal_chars(
    name: Seq<char>,
    attributes: Seq<(Seq<char>, Seq<char>)>,
    self_closing: bool,
)
    requires
        wf_name(name),
        wf_attrs(attributes),
    ensures
        ({
            let lit = open_literal_spec(name, attributes, self_closing);
            lit.len() > 0 && lit[0] == '<' && lit.last() == '>' && (forall|i: int|
                1 <= i < lit.len() ==> (#[trigger] lit[i]) != '<') && (forall|i: int|
                0 <= i < lit.len() - 1 ==> (#[trigger] lit[i]) != '>')
        }),
{
    let lit = open_literal_spec(name, attributes, self_closing);
    let a = render_attrs_spec(attributes);
    lemma_render_attrs_chars(attributes);
    assert forall|i: int| 1 <= i < lit.len() implies (#[trigger] lit[i]) != '<' by {
        if 1 <= i < 1 + name.len() {
            assert(lit[i] == name[i - 1]);
        } else if 1 + name.len() <= i < 1 + name.len() + a.len() {
            assert(lit[i] == a[i - 1 - name.len()]);
        }
    }
    assert forall|i: int| 0 <= i < lit.len() - 1 implies (#[trigger] lit[i]) != '>' by {
        if 1 <= i < 1 + name.len() {
            assert(lit[i] == name[i - 1]);
        } else if 1 + name.len() <= i < 1 + name.len() + a.len() {
            assert(lit[i] == a[i - 1 - name.len()]);
        }
    }
}

} // verus!