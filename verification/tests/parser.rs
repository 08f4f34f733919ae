use inliner::AttrMap;
use inliner::Dom;
use inliner::Node;
use inliner::Parser;
use inliner::Tokenizer;

fn chars(s: &str) -> Vec<char> {
    s.chars().collect()
}

fn map(pairs: &[(&str, &str)]) -> AttrMap {
    let mut m = AttrMap::new();
    for (k, v) in pairs {
        m.insert(chars(k), chars(v));
    }
    m
}

fn tag(name: &str, attributes: AttrMap, children: Vec<Node>) -> Node {
    Node::Tag { name: chars(name), attributes, children }
}

fn text(content: &str) -> Node {
    Node::Text(chars(content))
}

#[test]
fn parser() {
    let tests: Vec<(&str, &str, Option<Vec<Node>>)> = vec![
        (
            "tag mismatch, close tag without coresponding open tag",
            r#"
                <outer>
                    text
                    </inner>
                </outer>
                "#
                .trim(),
            None,
        ),
        (
            "tag mismatch, open tag without coresponding close tag",
            r#"
                <outer>
                    <inner>
                    text
                </outer>
                "#
                .trim(),
            Some(vec![tag("outer", map(&[]), vec![tag("inner", map(&[]), vec![]), text("text")])]),
        ),
        (
            "script containing left arrow",
            r#"<script>if (1 < 2) {alert("hi");}</script>"#,
            Some(vec![
                tag("script", map(&[]), vec![text(r#"if (1 < 2) {alert("hi");}"#)]),
            ]),
        ),
        ("minimal", "<tag/>", Some(vec![tag("tag", map(&[]), vec![])])),
        ("minimal, space after tag name", "<tag />", Some(vec![tag("tag", map(&[]), vec![])])),
        (
            "boolean attributes",
            "<tag one two three/>",
            Some(vec![tag("tag", map(&[("one", ""), ("two", ""), ("three", "")]), vec![])]),
        ),
        (
            "boolean attributes, multiple spaces between",
            "<tag   one    two    three />",
            Some(vec![tag("tag", map(&[("one", ""), ("two", ""), ("three", "")]), vec![])]),
        ),
        (
            "boolean attributes, space after last attribute",
            "<tag one two three />",
            Some(vec![tag("tag", map(&[("one", ""), ("two", ""), ("three", "")]), vec![])]),
        ),
        (
            "value attributes, space after last attribute",
            r#"<tag one="foo" two="foo" three="foo" />"#,
            Some(vec![
                tag("tag", map(&[("one", "foo"), ("two", "foo"), ("three", "foo")]), vec![]),
            ]),
        ),
        (
            "value attributes, self closing",
            r#"<tag one="foo" two="foo" three="foo"/>"#,
            Some(vec![
                tag("tag", map(&[("one", "foo"), ("two", "foo"), ("three", "foo")]), vec![]),
            ]),
        ),
        (
            "value attributes, not self closing",
            r#"<tag one="foo" two="foo" three="foo"></tag>"#,
            Some(vec![
                tag("tag", map(&[("one", "foo"), ("two", "foo"), ("three", "foo")]), vec![]),
            ]),
        ),
        ("full tag, empty", r#"<tag></tag>"#, Some(vec![tag("tag", map(&[]), vec![])])),
        (
            "text content",
            r#"<tag>text</tag>"#,
            Some(vec![tag("tag", map(&[]), vec![text("text")])]),
        ),
        (
            "text content, trim whitespace padding",
            r#"<tag>  text  </tag>"#,
            Some(vec![tag("tag", map(&[]), vec![text("text")])]),
        ),
        (
            "node content, single child",
            r#"<tag><tag/></tag>"#,
            Some(vec![tag("tag", map(&[]), vec![tag("tag", map(&[]), vec![])])]),
        ),
        (
            "node content, multi child",
            r#"
                <tag>
                    <tag one="foo"/>
                    <tag>text</tag>
                </tag>
                "#
                .trim(),
            Some(vec![
                tag(
                    "tag",
                    map(&[]),
                    vec![
                        tag("tag", map(&[("one", "foo")]), vec![]),
                        tag("tag", map(&[]), vec![text("text")]),
                    ],
                ),
            ]),
        ),
        (
            "doctype: first tag is an open tag without a close tag",
            r#"<!DOCTYPE html>"#,
            Some(vec![tag("DOCTYPE", map(&[("html", "")]), vec![])]),
        ),
        (
            "node content, nested",
            r#"<tag><tag><tag>text</tag></tag></tag>"#,
            Some(vec![
                tag(
                    "tag",
                    map(&[]),
                    vec![tag("tag", map(&[]), vec![tag("tag", map(&[]), vec![text("text")])])],
                ),
            ]),
        ),
    ];
    for (desc, input, want) in tests {
        let got = Parser::new(Tokenizer::new(chars(input)).merged()).parse();
        match want {
            None => {
                assert!(got.is_err(), "{}: wanted error, got none", desc);
            },
            Some(nodes) => match got {
                Ok(got) => assert_eq!(Dom { nodes }, got, "{}", desc),
                Err(err) => panic!("unexpected error: {:?}", err),
            },
        }
    }
}
