//! Rewriting a node so that the resource it references is carried inline.
//!
//! A tag that references a resource through an `href` or `src` attribute
//! is rewritten in one of two ways: a binary resource replaces the
//! attribute's value with a data URL holding its base64-encoded bytes; a
//! text resource (a link whose target ends in `html`, `js` or `css`)
//! loses the referencing attributes and gets the loaded text as its only
//! child, a stylesheet link additionally becoming a `style` tag.  Loading
//! the resource is the caller's business; these functions only decide and
//! rewrite.

use vstd::prelude::*;
use crate::attrs::get_spec;
use crate::attrs::insert_spec;
use crate::attrs::remove_spec;
use crate::chars::ends_with;
use crate::chars::ends_with_spec;
use crate::chars::strip_leading;
use crate::chars::strip_leading_spec;
use crate::chars::strip_trailing;
use crate::chars::strip_trailing_spec;
use crate::chars::clone_chars;
use crate::parse::Node;
use crate::parse::NodeModel;
use crate::parse::node_view;
use crate::parse::nodes_view;

verus! {

/// The characters of the `href` attribute key.
pub open spec fn href_key() -> Seq<char> {
    seq!['h', 'r', 'e', 'f']
}

/// The characters of the `src` attribute key.
pub open spec fn src_key() -> Seq<char> {
    seq!['s', 'r', 'c']
}

/// The characters of the `rel` attribute key.
pub open spec fn rel_key() -> Seq<char> {
    seq!['r', 'e', 'l']
}

/// The characters of the `style` tag name.
pub open spec fn style_name() -> Seq<char> {
    seq!['s', 't', 'y', 'l', 'e']
}

fn href_vec() -> (r: Vec<char>)
    ensures
        r@ == href_key(),
{
    let mut v: Vec<char> = Vec::new();
    v.push('h');
    v.push('r');
    v.push('e');
    v.push('f');
    proof {
        assert(v@ =~= href_key());
    }
    v
}

fn src_vec() -> (r: Vec<char>)
    ensures
        r@ == src_key(),
{
    let mut v: Vec<char> = Vec::new();
    v.push('s');
    v.push('r');
    v.push('c');
    proof {
        assert(v@ =~= src_key());
    }
    v
}

fn rel_vec() -> (r: Vec<char>)
    ensures
        r@ == rel_key(),
{
    let mut v: Vec<char> = Vec::new();
    v.push('r');
    v.push('e');
    v.push('l');
    proof {
        assert(v@ =~= rel_key());
    }
    v
}

fn style_vec() -> (r: Vec<char>)
    ensures
        r@ == style_name(),
{
    let mut v: Vec<char> = Vec::new();
    v.push('s');
    v.push('t');
    v.push('y');
    v.push('l');
    v.push('e');
    proof {
        assert(v@ =~= style_name());
    }
    v
}

/// The link a tag references: its `href` value, or else its `src` value,
/// with `/` stripped from both ends; nothing for a text node or a tag
/// without either attribute.
pub open spec fn resource_link_spec(n: NodeModel) -> Option<Seq<char>> {
    match n {
        NodeModel::Tag { attributes, .. } => {
            match get_spec(attributes, href_key()) {
                Some(v) => Some(strip_trailing_spec(strip_leading_spec(v, '/'), '/')),
                None => match get_spec(attributes, src_key()) {
                    Some(v) => Some(strip_trailing_spec(strip_leading_spec(v, '/'), '/')),
                    None => None,
                },
            }
        },
        _ => None,
    }
}

/// The link this node references, if any.
pub fn resource_link(node: &Node) -> (r: Option<Vec<char>>)
    ensures
        match r {
            Some(link) => resource_link_spec(node_view(*node)) == Some(link@),
            None => resource_link_spec(node_view(*node)) is None,
        },
{
    match node {
        Node::Tag { attributes, .. } => {
            let hk = href_vec();
            let sk = src_vec();
            let raw = match attributes.get(&hk) {
                Some(v) => Some(v),
                None => attributes.get(&sk),
            };
            match raw {
                Some(v) => Some(strip_trailing(&strip_leading(v, '/'), '/')),
                None => None,
            }
        },
        _ => None,
    }
}

/// Whether a link names a text resource: it ends in `html`, `js` or
/// `css`.
pub open spec fn is_text_resource_spec(link: Seq<char>) -> bool {
    ends_with_spec(link, seq!['h', 't', 'm', 'l']) || ends_with_spec(link, seq!['j', 's'])
        || ends_with_spec(link, seq!['c', 's', 's'])
}

/// Whether the link names a text resource, to be embedded as text rather
/// than base64-encoded.
pub fn is_text_resource(link: &Vec<char>) -> (r: bool)
    ensures
        r == is_text_resource_spec(link@),
{
    let mut html: Vec<char> = Vec::new();
    html.push('h');
    html.push('t');
    html.push('m');
    html.push('l');
    let mut js: Vec<char> = Vec::new();
    js.push('j');
    js.push('s');
    let mut css: Vec<char> = Vec::new();
    css.push('c');
    css.push('s');
    css.push('s');
    proof {
        assert(html@ =~= seq!['h', 't', 'm', 'l']);
        assert(js@ =~= seq!['j', 's']);
        assert(css@ =~= seq!['c', 's', 's']);
    }
    ends_with(link, &html) || ends_with(link, &js) || ends_with(link, &css)
}

/// What `base64::encode` returns for the given bytes.
pub uninterp spec fn base64_of(bytes: Seq<u8>) -> Seq<char>;

/// Relies on `base64::encode`: the standard alphabet with `=` padding, a
/// pure function of the bytes, four output characters for every started
/// group of three input bytes.  It panics when the output size cannot be
/// computed in a `usize`, which the bound on the input rules out.
#[verifier::external_body]
fn base64_chars(bytes: &Vec<u8>) -> (r: Vec<char>)
    requires
        bytes@.len() <= usize::MAX as nat / 4,
    ensures
        r@ == base64_of(bytes@),
        r@.len() == 4 * ((bytes@.len() + 2) / 3),
{
    base64::encode(bytes.as_slice()).chars().collect()
}

/// What `mime_guess` answers for the given path: the guessed type's
/// text, or `application/octet-stream` when nothing is guessed.
pub uninterp spec fn mime_of(link: Seq<char>) -> Seq<char>;

/// Relies on `mime_guess::from_path` and `MimeGuess::first_or_octet_stream`:
/// the guess is a pure function of the path's extension, and the fallback
/// is `application/octet-stream`.
#[verifier::external_body]
fn mime_chars(link: &Vec<char>) -> (r: Vec<char>)
    ensures
        r@ == mime_of(link@),
{
    let path: String = link.iter().collect();
    mime_guess::from_path(&path).first_or_octet_stream().to_string().chars().collect()
}

/// The data URL that carries the bytes of the linked resource inline.
pub open spec fn data_url_spec(link: Seq<char>, bytes: Seq<u8>) -> Seq<char> {
    seq!['d', 'a', 't', 'a', ':'] + mime_of(link) + seq![';', 'b', 'a', 's', '6', '4', ',']
        + base64_of(bytes)
}

/// The data URL for the linked resource.
fn data_url(link: &Vec<char>, bytes: &Vec<u8>) -> (r: Vec<char>)
    requires
        bytes@.len() <= usize::MAX as nat / 4,
    ensures
        r@ == data_url_spec(link@, bytes@),
{
    let mut r: Vec<char> = Vec::new();
    r.push('d');
    r.push('a');
    r.push('t');
    r.push('a');
    r.push(':');
    let mut mime = mime_chars(link);
    r.append(&mut mime);
    r.push(';');
    r.push('b');
    r.push('a');
    r.push('s');
    r.push('6');
    r.push('4');
    r.push(',');
    let mut data = base64_chars(bytes);
    r.append(&mut data);
    proof {
        assert(r@ =~= data_url_spec(link@, bytes@));
    }
    r
}

/// Replace the node's referencing attribute with a data URL holding the
/// bytes of the resource it pointed at: `href` when the tag has one,
/// else `src`.  Name and children stay as they were.
pub fn rewrite_binary(node: &mut Node, bytes: &Vec<u8>)
    requires
        resource_link_spec(node_view(*old(node))) is Some,
        bytes@.len() <= usize::MAX as nat / 4,
    ensures
        ({
            let link = resource_link_spec(node_view(*old(node)))->Some_0;
            let url = data_url_spec(link, bytes@);
            match node_view(*old(node)) {
                NodeModel::Tag { name, attributes, children } => node_view(*final(node))
                    == (NodeModel::Tag {
                    name,
                    attributes: if get_spec(attributes, href_key()) is Some {
                        insert_spec(attributes, href_key(), url)
                    } else {
                        insert_spec(attributes, src_key(), url)
                    },
                    children,
                }),
                _ => false,
            }
        }),
{
    let link = match resource_link(node) {
        Some(link) => link,
        None => {
            proof {
                assert(false);
            }
            Vec::new()
        },
    };
    let mut taken = Node::Text(Vec::new());
    core::mem::swap(node, &mut taken);
    match taken {
        Node::Tag { name, mut attributes, children } => {
            let url = data_url(&link, bytes);
            let hk = href_vec();
            if attributes.contains_key(&hk) {
                attributes.insert(hk, url);
            } else {
                attributes.insert(src_vec(), url);
            }
            *node = Node::Tag { name, attributes, children };
        },
        other => {
            *node = other;
        },
    }
}

/// Drop the node's referencing attributes and embed the loaded text as
/// its only child; a stylesheet link (a link ending in `css`) renames
/// the tag to `style` and drops its `rel` attribute as well.
pub fn rewrite_text(node: &mut Node, content: Vec<char>)
    requires
        resource_link_spec(node_view(*old(node))) is Some,
    ensures
        ({
            let link = resource_link_spec(node_view(*old(node)))->Some_0;
            let is_css = ends_with_spec(link, seq!['c', 's', 's']);
            match node_view(*old(node)) {
                NodeModel::Tag { name, attributes, children } => node_view(*final(node))
                    == (NodeModel::Tag {
                    name: if is_css {
                        style_name()
                    } else {
                        name
                    },
                    attributes: remove_spec(
                        remove_spec(
                            if is_css {
                                remove_spec(attributes, rel_key())
                            } else {
                                attributes
                            },
                            href_key(),
                        ),
                        src_key(),
                    ),
                    children: seq![NodeModel::Text(content@)],
                }),
                _ => false,
            }
        }),
{
    let link = match resource_link(node) {
        Some(link) => link,
        None => {
            proof {
                assert(false);
            }
            Vec::new()
        },
    };
    let mut css: Vec<char> = Vec::new();
    css.push('c');
    css.push('s');
    css.push('s');
    proof {
        assert(css@ =~= seq!['c', 's', 's']);
    }
    let is_css = ends_with(&link, &css);
    let mut taken = Node::Text(Vec::new());
    core::mem::swap(node, &mut taken);
    match taken {
        Node::Tag { name, mut attributes, children } => {
            let name = if is_css {
                style_vec()
            } else {
                name
            };
            if is_css {
                let rk = rel_vec();
                attributes.remove(&rk);
            }
            let hk = href_vec();
            attributes.remove(&hk);
            let sk = src_vec();
            attributes.remove(&sk);
            let mut children = children;
            children.clear();
            children.push(Node::Text(content));
            proof {
                crate::parse::lemma_nodes_view_singleton(children@);
            }
            *node = Node::Tag { name, attributes, children };
        },
        other => {
            *node = other;
        },
    }
}

} // verus!
