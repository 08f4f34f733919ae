use inliner::AttrMap;
use inliner::Kind;
use inliner::Token;
use inliner::Tokenizer;

fn chars(s: &str) -> Vec<char> {
    s.chars().collect()
}

fn map(pairs: &[(&str, &str)]) -> AttrMap {
    let mut m = AttrMap::new();
    for (k, v) in pairs {
        m.insert(chars(k), chars(v));
    }
    m
}

fn open_tag(name: &str, attributes: AttrMap, literal: &str) -> Token {
    Token { kind: Kind::OpenTag { name: chars(name), attributes }, literal: chars(literal) }
}

fn close_tag(name: &str, literal: &str) -> Token {
    Token { kind: Kind::CloseTag { name: chars(name) }, literal: chars(literal) }
}

fn text(content: &str) -> Token {
    Token { kind: Kind::Text(chars(content)), literal: chars(content) }
}

#[test]
fn tokenizer() {
    let tests: Vec<(&str, &str, Vec<Token>)> = vec![
        (
            "self closing tag",
            "<first/>text<second />",
            vec![
                open_tag("first", map(&[]), "<first/>"),
                text("text"),
                open_tag("second", map(&[]), "<second />"),
            ],
        ),
        (
            "empty tag",
            "<tag></tag>",
            vec![open_tag("tag", map(&[]), "<tag>"), close_tag("tag", "</tag>")],
        ),
        (
            "tag with attributes",
            r#"<tag one/><tag one two="two"/><tag one two="two"></tag>"#,
            vec![
                open_tag("tag", map(&[("one", "")]), r#"<tag one/>"#),
                open_tag("tag", map(&[("one", ""), ("two", "two")]), r#"<tag one two="two"/>"#),
                open_tag("tag", map(&[("one", ""), ("two", "two")]), r#"<tag one two="two">"#),
                close_tag("tag", "</tag>"),
            ],
        ),
        (
            "tag with attributes - whitespace before end of open tag",
            r#"<tag one /><tag one two="two" /><tag one two="two" ></tag>"#,
            vec![
                open_tag("tag", map(&[("one", "")]), r#"<tag one />"#),
                open_tag("tag", map(&[("one", ""), ("two", "two")]), r#"<tag one two="two" />"#),
                open_tag("tag", map(&[("one", ""), ("two", "two")]), r#"<tag one two="two" >"#),
                close_tag("tag", "</tag>"),
            ],
        ),
        ("simple text", "text", vec![text("text")]),
        (
            "tag containing text",
            "<tag>text</tag><tag> text </tag>",
            vec![
                open_tag("tag", map(&[]), "<tag>"),
                text("text"),
                close_tag("tag", "</tag>"),
                open_tag("tag", map(&[]), "<tag>"),
                text(" text "),
                close_tag("tag", "</tag>"),
            ],
        ),
        (
            "tag containing text and tags",
            "<tag>text<tag/>text<tag>text</tag>text</tag>",
            vec![
                open_tag("tag", map(&[]), "<tag>"),
                text("text"),
                open_tag("tag", map(&[]), "<tag/>"),
                text("text"),
                open_tag("tag", map(&[]), "<tag>"),
                text("text"),
                close_tag("tag", "</tag>"),
                text("text"),
                close_tag("tag", "</tag>"),
            ],
        ),
        (
            "doctype",
            "<!DOCTYPE html>",
            vec![open_tag("DOCTYPE", map(&[("html", "")]), "<!DOCTYPE html>")],
        ),
        (
            "text with angle brackets",
            "if (foo < bar || bar > foo) {throw new Error()}",
            vec![text("if (foo < bar || bar > foo) {throw new Error()}")],
        ),
        (
            "text: no whitespace around angle brackets",
            "if (foo<bar || bar>foo) {throw new Error()}",
            vec![text("if (foo<bar || bar>foo) {throw new Error()}")],
        ),
        (
            "script containing left arrow",
            r#"<script>if (1 < 2) {alert("hi");}if (1 < 2) {alert("hi");}</script>"#,
            vec![
                open_tag("script", map(&[]), "<script>"),
                text(r#"if (1 < 2) {alert("hi");}if (1 < 2) {alert("hi");}"#),
                close_tag("script", "</script>"),
            ],
        ),
        (
            "arbitrary number of angle brackets in a text block",
            "<tag><><<<<<>>>>><<><><><><<> asdfajal;skjdf <<> >  >> <> <>><><</tag>",
            vec![
                open_tag("tag", map(&[]), "<tag>"),
                text("<><<<<<>>>>><<><><><><<> asdfajal;skjdf <<> >  >> <> <>><><"),
                close_tag("tag", "</tag>"),
            ],
        ),
    ];
    for (desc, input, want) in tests {
        let got: Vec<Token> = Tokenizer::new(chars(input)).merged().into_tokens();
        assert_eq!(want, got, "{}", desc);
    }
}
