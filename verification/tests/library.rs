use inliner::AttrMap;
use inliner::Dom;
use inliner::Node;
use inliner::Parser;
use inliner::Tokenizer;
use inliner::Visitor;
use inliner::is_text_resource;
use inliner::resource_link;
use inliner::rewrite_binary;
use inliner::rewrite_text;

fn chars(s: &str) -> Vec<char> {
    s.chars().collect()
}

fn map(pairs: &[(&str, &str)]) -> AttrMap {
    let mut m = AttrMap::new();
    for (k, v) in pairs {
        m.insert(chars(k), chars(v));
    }
    m
}

fn parse(input: &str) -> Dom {
    Parser::new(Tokenizer::new(chars(input)).merged())
        .parse()
        .expect("input should parse")
}

#[test]
fn render_self_closing_tag() {
    let dom = parse(r#"<tag one="foo"/>"#);
    assert_eq!(dom.render(), "<tag one=\"foo\"/>\n");
}

#[test]
fn render_boolean_attribute() {
    let dom = parse("<tag one two/>");
    assert_eq!(dom.render(), "<tag one two/>\n");
}

#[test]
fn render_nested_tags_and_text() {
    let dom = parse("<outer><inner>text</inner></outer>");
    assert_eq!(dom.render(), "<outer><inner>text</inner></outer>\n");
}

#[test]
fn render_empty_tag_self_closes() {
    let dom = parse("<tag></tag>");
    assert_eq!(dom.render(), "<tag/>\n");
}

#[test]
fn reparse_of_rendered_tree_is_equal() {
    let dom = parse("<outer>  padded text  <inner one=\"foo\" two/><b>x</b></outer>");
    let rendered = dom.render();
    let again = parse(&rendered);
    assert_eq!(dom, again);
    assert_eq!(again.render(), rendered);
}

#[test]
fn doctype_parses_as_ordinary_tag() {
    let dom = parse("<!DOCTYPE html><html><body></body></html>");
    assert_eq!(
        dom,
        Dom {
            nodes: vec![
                Node::Tag {
                    name: chars("DOCTYPE"),
                    attributes: map(&[("html", "")]),
                    children: vec![],
                },
                Node::Tag {
                    name: chars("html"),
                    attributes: map(&[]),
                    children: vec![Node::Tag {
                        name: chars("body"),
                        attributes: map(&[]),
                        children: vec![],
                    }],
                },
            ],
        }
    );
}

#[test]
fn duplicate_attribute_keeps_last_value() {
    let dom = parse(r#"<tag one="a" one="b"/>"#);
    assert_eq!(
        dom,
        Dom {
            nodes: vec![Node::Tag {
                name: chars("tag"),
                attributes: map(&[("one", "b")]),
                children: vec![],
            }],
        }
    );
}

#[test]
fn attribute_value_is_split_once_on_equals() {
    let dom = parse(r#"<tag k="x=y"/>"#);
    assert_eq!(
        dom,
        Dom {
            nodes: vec![Node::Tag {
                name: chars("tag"),
                attributes: map(&[("k", "x=y")]),
                children: vec![],
            }],
        }
    );
}

#[test]
fn data_url_padding_survives_reparsing() {
    let mut dom = parse(r#"<img src="a.png"/>"#);
    let bytes: Vec<u8> = vec![97];
    rewrite_binary(&mut dom.nodes[0], &bytes);
    // base64 of one byte carries two `=` padding characters
    assert_eq!(dom.render(), "<img src=\"data:image/png;bas64,YQ==\"/>\n");
    let again = parse(&dom.render());
    assert_eq!(dom, again);
}

#[test]
fn unmatched_close_tag_message() {
    let err = Parser::new(Tokenizer::new(chars("<outer>text</inner></outer>")).merged())
        .parse()
        .expect_err("a close tag nothing answers is fatal");
    assert_eq!(err.name, chars("inner"));
    assert_eq!(err.message(), "unexpected close tag: </inner>");
}

#[test]
fn top_level_close_tag_is_fatal() {
    let got = Parser::new(Tokenizer::new(chars("</tag>")).merged()).parse();
    assert!(got.is_err());
}

struct RewriteStylesheet;

impl Visitor<String> for RewriteStylesheet {
    fn visit(&mut self, node: &mut Node) -> Result<(), String> {
        if let Node::Tag { attributes, children, .. } = node {
            if attributes.contains_key(&chars("href")) {
                attributes.insert(chars("href"), chars("data:done"));
                children.push(Node::Text(chars("body{}")));
            }
        }
        Ok(())
    }
}

#[test]
fn mutation_during_traversal_is_rendered() {
    let mut dom = parse(r#"<tag href="a.css"/>"#);
    let mut visitor = RewriteStylesheet;
    dom.depth_first(&mut visitor).expect("visits never fail");
    assert_eq!(dom.render(), "<tag href=\"data:done\">body{}</tag>\n");
}

struct CountAndFail {
    seen: usize,
    fail_at: usize,
}

impl Visitor<String> for CountAndFail {
    fn visit(&mut self, node: &mut Node) -> Result<(), String> {
        self.seen += 1;
        if self.seen == self.fail_at {
            return Err(String::from("stop"));
        }
        if let Node::Tag { name, .. } = node {
            if name.as_slice() == chars("b").as_slice() {
                *name = chars("c");
            }
        }
        Ok(())
    }
}

#[test]
fn traversal_is_preorder_and_stops_at_first_failure() {
    let mut dom = parse("<a><b>x</b></a><d/>");
    let mut visitor = CountAndFail { seen: 0, fail_at: 100 };
    dom.depth_first(&mut visitor).expect("no failure below the limit");
    // pre-order: a, b, x, d
    assert_eq!(visitor.seen, 4);
    assert_eq!(dom.render(), "<a><c>x</c></a>\n<d/>\n");

    let mut dom = parse("<a><b>x</b></a><d/>");
    let mut failing = CountAndFail { seen: 0, fail_at: 3 };
    let err = dom.depth_first(&mut failing).expect_err("third visit fails");
    assert_eq!(err, "stop");
    // the rename of <b> from the second visit stays applied
    assert_eq!(dom.render(), "<a><c>x</c></a>\n<d/>\n");
}

#[test]
fn resource_link_prefers_href_and_strips_slashes() {
    let dom = parse(r#"<tag href="/a.css" src="b.js"/>"#);
    let link = resource_link(&dom.nodes[0]).expect("href is there");
    assert_eq!(link, chars("a.css"));

    let dom = parse(r#"<tag src="b.js"/>"#);
    let link = resource_link(&dom.nodes[0]).expect("src is there");
    assert_eq!(link, chars("b.js"));

    let dom = parse("<tag/>");
    assert!(resource_link(&dom.nodes[0]).is_none());
}

#[test]
fn text_resources_end_in_known_suffixes() {
    assert!(is_text_resource(&chars("a.css")));
    assert!(is_text_resource(&chars("b.js")));
    assert!(is_text_resource(&chars("c.html")));
    assert!(is_text_resource(&chars("abcss")));
    assert!(!is_text_resource(&chars("d.png")));
    assert!(!is_text_resource(&chars("e.svg")));
}

#[test]
fn binary_resource_becomes_data_url() {
    let mut dom = parse(r#"<img src="a.png"/>"#);
    let bytes: Vec<u8> = vec![97, 98, 99];
    rewrite_binary(&mut dom.nodes[0], &bytes);
    assert_eq!(dom.render(), "<img src=\"data:image/png;bas64,YWJj\"/>\n");
}

#[test]
fn binary_resource_prefers_href() {
    let mut dom = parse(r#"<tag href="p.gif" src="x"/>"#);
    let bytes: Vec<u8> = vec![];
    rewrite_binary(&mut dom.nodes[0], &bytes);
    assert_eq!(dom.render(), "<tag href=\"data:image/gif;bas64,\" src=\"x\"/>\n");
}

#[test]
fn stylesheet_link_becomes_style_tag() {
    let mut dom = parse(r#"<link rel="stylesheet" href="a.css"/>"#);
    rewrite_text(&mut dom.nodes[0], chars("body{}"));
    assert_eq!(dom.render(), "<style>body{}</style>\n");
}

#[test]
fn script_source_is_embedded_as_text() {
    let mut dom = parse(r#"<script src="a.js"></script>"#);
    rewrite_text(&mut dom.nodes[0], chars("alert(1)"));
    assert_eq!(dom.render(), "<script>alert(1)</script>\n");
}

#[test]
fn token_to_owned_copies_the_token() {
    let toks = Tokenizer::new(chars(r#"<tag one="foo">"#)).merged().into_tokens();
    let copy = toks[0].to_owned();
    assert_eq!(copy, toks[0]);
}

#[test]
fn trailing_text_without_closing_bracket_is_kept() {
    let dom = parse("<tag/>trailing");
    assert_eq!(
        dom,
        Dom {
            nodes: vec![
                Node::Tag { name: chars("tag"), attributes: map(&[]), children: vec![] },
                Node::Text(chars("trailing")),
            ],
        }
    );
}

#[test]
fn empty_input_parses_to_empty_tree() {
    let dom = parse("");
    assert_eq!(dom, Dom { nodes: vec![] });
    assert_eq!(dom.render(), "");
}

#[test]
fn unterminated_tag_is_flushed_as_text() {
    let dom = parse("<tag");
    assert_eq!(dom, Dom { nodes: vec![Node::Text(chars("<tag"))] });
}

#[test]
fn text_only_input() {
    let dom = parse("just words");
    assert_eq!(dom, Dom { nodes: vec![Node::Text(chars("just words"))] });
}

#[test]
fn lone_closing_bracket_is_text() {
    let dom = parse(">");
    assert_eq!(dom, Dom { nodes: vec![Node::Text(chars(">"))] });
}

#[test]
fn attribute_value_may_hold_arbitrary_characters() {
    let dom = parse(r#"<tag one="a&b;c()"/>"#);
    assert_eq!(
        dom,
        Dom {
            nodes: vec![Node::Tag {
                name: chars("tag"),
                attributes: map(&[("one", "a&b;c()")]),
                children: vec![],
            }],
        }
    );
}

#[test]
fn whitespace_only_text_yields_no_node() {
    let dom = parse("<tag>   </tag>");
    assert_eq!(
        dom,
        Dom { nodes: vec![Node::Tag { name: chars("tag"), attributes: map(&[]), children: vec![] }] }
    );
}
