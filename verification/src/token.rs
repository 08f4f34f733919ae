//! Lexical tokens and the tokenizer.
//!
//! The tokenizer buffers characters up to each `>` and unwinds the span at
//! its `<` characters.  A span piece that looks like a tag — it begins
//! with `<`, and after stripping the tag punctuation every word is either
//! purely alphabetic or carries a `="` value — becomes an open or close
//! tag; anything else, including stray angle brackets, stays text.  A text
//! run that the unwinding split apart is put back together by the merger.

use vstd::prelude::*;
use crate::attrs::AttrMap;
use crate::attrs::insert_spec;
use crate::chars::all_alpha;
use crate::chars::all_alpha_spec;
use crate::chars::clone_chars;
use crate::chars::find_char;
use crate::chars::find_char_spec;
use crate::chars::has_eq_quote;
use crate::chars::has_eq_quote_spec;
use crate::chars::lemma_find_char;
use crate::chars::lemma_rfind_char;
use crate::chars::rfind_char;
use crate::chars::rfind_char_spec;
use crate::chars::split_whitespace;
use crate::chars::split_ws_spec;
use crate::chars::strip_leading;
use crate::chars::strip_leading_pair;
use crate::chars::strip_leading_pair_spec;
use crate::chars::strip_leading_spec;
use crate::chars::strip_trailing;
use crate::chars::strip_trailing_spec;
use crate::chars::subrange_vec;
use crate::chars::trim;
use crate::chars::trim_spec;

verus! {

/// A significant grouping of characters, with the literal span it came
/// from.  The literal is what self-closing detection later inspects.
#[derive(Debug, PartialEq, Eq)]
pub struct Token {
    pub kind: Kind,
    pub literal: Vec<char>,
}

/// What a token is: an open tag with its attributes, a close tag, or a
/// run of text.
#[derive(Debug, PartialEq, Eq)]
pub enum Kind {
    OpenTag { name: Vec<char>, attributes: AttrMap },
    CloseTag { name: Vec<char> },
    Text(Vec<char>),
}

/// The mathematical image of a `Token`.
pub struct TokenModel {
    pub kind: KindModel,
    pub literal: Seq<char>,
}

/// The mathematical image of a `Kind`.
pub enum KindModel {
    OpenTag { name: Seq<char>, attributes: Seq<(Seq<char>, Seq<char>)> },
    CloseTag { name: Seq<char> },
    Text(Seq<char>),
}

impl View for Kind {
    type V = KindModel;

    open spec fn view(&self) -> KindModel {
        match self {
            Kind::OpenTag { name, attributes } => KindModel::OpenTag {
                name: name@,
                attributes: attributes@,
            },
            Kind::CloseTag { name } => KindModel::CloseTag { name: name@ },
            Kind::Text(content) => KindModel::Text(content@),
        }
    }
}

impl View for Token {
    type V = TokenModel;

    open spec fn view(&self) -> TokenModel {
        TokenModel { kind: self.kind@, literal: self.literal@ }
    }
}

impl DeepView for Token {
    type V = TokenModel;

    open spec fn deep_view(&self) -> TokenModel {
        self.view()
    }
}

/// A text token: its literal is its content.
pub open spec fn text_token_spec(s: Seq<char>) -> TokenModel {
    TokenModel { kind: KindModel::Text(s), literal: s }
}

/// The key of one attribute word: everything before the first `=`, or
/// the whole word if it has none.
pub open spec fn attr_key_spec(w: Seq<char>) -> Seq<char> {
    match find_char_spec(w, '=') {
        None => w,
        Some(i) => w.take(i),
    }
}

/// The value of one attribute word: the word is split once on the first
/// `=`, and everything after it, with surrounding quotes stripped, is
/// the value; a word without `=` is a boolean attribute and its value is
/// empty.
pub open spec fn attr_value_spec(w: Seq<char>) -> Seq<char> {
    match find_char_spec(w, '=') {
        None => Seq::empty(),
        Some(i) => strip_trailing_spec(strip_leading_spec(w.skip(i + 1), '"'), '"'),
    }
}

/// The attribute pairs of the words after the tag name, inserted in
/// order, a later key winning over an earlier one.
pub open spec fn attrs_of_words_spec(ws: Seq<Seq<char>>) -> Seq<(Seq<char>, Seq<char>)>
    decreases ws.len(),
{
    if ws.len() == 0 {
        Seq::empty()
    } else {
        insert_spec(
            attrs_of_words_spec(ws.drop_last()),
            attr_key_spec(ws.last()),
            attr_value_spec(ws.last()),
        )
    }
}

/// A word that may stand inside a tag: purely alphabetic, or an
/// attribute with a quoted value.
pub open spec fn word_is_tag_like_spec(w: Seq<char>) -> bool {
    has_eq_quote_spec(w) || all_alpha_spec(w)
}

/// The words of a span body classify it as a tag: at least one word,
/// every word tag-like.
pub open spec fn words_are_tag_spec(ws: Seq<Seq<char>>) -> bool {
    ws.len() > 0 && forall|i: int| 0 <= i < ws.len() ==> word_is_tag_like_spec(#[trigger] ws[i])
}

/// A candidate open tag stripped of its punctuation: leading `<`, `!`
/// and `/`, trailing `>` and `/`.
pub open spec fn open_body_spec(seg: Seq<char>) -> Seq<char> {
    strip_trailing_spec(
        strip_trailing_spec(
            strip_leading_spec(strip_leading_spec(strip_leading_spec(seg, '<'), '!'), '/'),
            '>',
        ),
        '/',
    )
}

/// The name of a close tag: the segment with its leading `</`, trailing
/// `>` and surrounding whitespace stripped.
pub open spec fn close_name_spec(seg: Seq<char>) -> Seq<char> {
    trim_spec(strip_trailing_spec(strip_leading_pair_spec(seg, '<', '/'), '>'))
}

/// What one `<`-led span piece becomes: a close tag if it begins `</`,
/// an open tag if its words classify it as one, text otherwise.
pub open spec fn classify_spec(seg: Seq<char>) -> TokenModel {
    if seg.len() >= 2 && seg[0] == '<' && seg[1] == '/' {
        TokenModel { kind: KindModel::CloseTag { name: close_name_spec(seg) }, literal: seg }
    } else {
        let words = split_ws_spec(open_body_spec(seg));
        if words_are_tag_spec(words) {
            TokenModel {
                kind: KindModel::OpenTag {
                    name: words[0],
                    attributes: attrs_of_words_spec(words.drop_first()),
                },
                literal: seg,
            }
        } else {
            text_token_spec(seg)
        }
    }
}

/// The tokens of one buffered span, unwound at its last `<`: everything
/// before the first `<` is text, and each `<`-led piece is classified.
pub open spec fn span_tokens_spec(span: Seq<char>) -> Seq<TokenModel>
    decreases span.len(),
    via span_tokens_spec_decreases
{
    match rfind_char_spec(span, '<') {
        None => if span.len() == 0 {
            Seq::empty()
        } else {
            seq![text_token_spec(span)]
        },
        Some(j) => span_tokens_spec(span.take(j)) + seq![classify_spec(span.skip(j))],
    }
}

#[via_fn]
proof fn span_tokens_spec_decreases(span: Seq<char>) {
    lemma_rfind_char(span, '<');
}

/// The tokens of a whole character stream: spans are cut at each `>`,
/// and characters left at the end of input are flushed as text.
pub open spec fn tokenize_spec(s: Seq<char>) -> Seq<TokenModel>
    decreases s.len(),
    via tokenize_spec_decreases
{
    if s.len() == 0 {
        Seq::empty()
    } else {
        match find_char_spec(s, '>') {
            None => seq![text_token_spec(s)],
            Some(i) => span_tokens_spec(s.take(i + 1)) + tokenize_spec(s.skip(i + 1)),
        }
    }
}

#[via_fn]
proof fn tokenize_spec_decreases(s: Seq<char>) {
    lemma_find_char(s, '>');
}

/// The key and value of one attribute word.
fn attr_of_word(w: &Vec<char>) -> (kv: (Vec<char>, Vec<char>))
    ensures
        kv.0@ == attr_key_spec(w@),
        kv.1@ == attr_value_spec(w@),
{
    match find_char(w, '=') {
        None => (clone_chars(w), Vec::new()),
        Some(i) => {
            let n = w.len();
            let key = subrange_vec(w, 0, i);
            let rest = subrange_vec(w, i + 1, n);
            proof {
                assert(w@.subrange(0, i as int) =~= w@.take(i as int));
                assert(w@.subrange(i + 1int, w@.len() as int) =~= w@.skip(i + 1int));
            }
            let value = strip_trailing(&strip_leading(&rest, '"'), '"');
            (key, value)
        },
    }
}

/// The attribute map of the words after the tag name.
fn attrs_of_words(words: &Vec<Vec<char>>) -> (m: AttrMap)
    requires
        words@.len() >= 1,
    ensures
        m@ == attrs_of_words_spec(words.deep_view().drop_first()),
{
    let ghost ws = words.deep_view().drop_first();
    let mut m = AttrMap::new();
    proof {
        assert(ws.subrange(0, 0) =~= Seq::<Seq<char>>::empty());
    }
    let mut i: usize = 1;
    while i < words.len()
        invariant
            1 <= i <= words@.len(),
            ws == words.deep_view().drop_first(),
            m@ == attrs_of_words_spec(ws.subrange(0, i - 1int)),
        decreases words@.len() - i,
    {
        let kv = attr_of_word(&words[i]);
        proof {
            assert(words.deep_view()[i as int] == words@[i as int]@);
            assert(ws[i - 1int] == words.deep_view()[i as int]);
            let pre = ws.subrange(0, i as int);
            assert(pre.drop_last() =~= ws.subrange(0, i - 1int));
            assert(pre.last() == ws[i - 1int]);
        }
        m.insert(kv.0, kv.1);
        i = i + 1;
    }
    proof {
        assert(ws.subrange(0, words@.len() - 1int) =~= ws);
    }
    m
}

/// Whether the words classify the span as a tag.
fn words_are_tag(words: &Vec<Vec<char>>) -> (r: bool)
    ensures
        r == words_are_tag_spec(words.deep_view()),
{
    if words.len() == 0 {
        return false;
    }
    let mut i: usize = 0;
    while i < words.len()
        invariant
            0 <= i <= words@.len(),
            forall|k: int| 0 <= k < i ==> word_is_tag_like_spec(#[trigger] words.deep_view()[k]),
        decreases words@.len() - i,
    {
        proof {
            assert(words.deep_view()[i as int] == words@[i as int]@);
        }
        if !has_eq_quote(&words[i]) && !all_alpha(&words[i]) {
            return false;
        }
        i = i + 1;
    }
    true
}

/// What one `<`-led span piece becomes.
fn classify(seg: Vec<char>) -> (t: Token)
    ensures
        t@ == classify_spec(seg@),
{
    if seg.len() >= 2 && seg[0] == '<' && seg[1] == '/' {
        let name = trim(&strip_trailing(&strip_leading_pair(&seg, '<', '/'), '>'));
        Token { kind: Kind::CloseTag { name }, literal: seg }
    } else {
        let body = strip_trailing(
            &strip_trailing(
                &strip_leading(&strip_leading(&strip_leading(&seg, '<'), '!'), '/'),
                '>',
            ),
            '/',
        );
        let words = split_whitespace(&body);
        if words_are_tag(&words) {
            proof {
                assert(words.deep_view()[0] == words@[0]@);
            }
            let name = clone_chars(&words[0]);
            let attributes = attrs_of_words(&words);
            Token { kind: Kind::OpenTag { name, attributes }, literal: seg }
        } else {
            let content = clone_chars(&seg);
            Token { kind: Kind::Text(content), literal: seg }
        }
    }
}

/// The tokens of one buffered span.
fn span_tokens(span: Vec<char>) -> (r: Vec<Token>)
    ensures
        r.deep_view() == span_tokens_spec(span@),
    decreases span@.len(),
{
    proof {
        lemma_rfind_char(span@, '<');
    }
    match rfind_char(&span, '<') {
        None => {
            if span.len() == 0 {
                let r: Vec<Token> = Vec::new();
                proof {
                    assert(r.deep_view() =~~= span_tokens_spec(span@));
                }
                r
            } else {
                let content = clone_chars(&span);
                let mut r: Vec<Token> = Vec::new();
                r.push(Token { kind: Kind::Text(content), literal: span });
                proof {
                    assert(r.deep_view() =~~= span_tokens_spec(span@));
                }
                r
            }
        },
        Some(j) => {
            let head = subrange_vec(&span, 0, j);
            let seg = subrange_vec(&span, j, span.len());
            proof {
                assert(head@ =~= span@.take(j as int));
                assert(seg@ =~= span@.skip(j as int));
            }
            let mut r = span_tokens(head);
            let t = classify(seg);
            r.push(t);
            proof {
                assert(r.deep_view() =~~= span_tokens_spec(span@));
            }
            r
        },
    }
}

/// Tokenizer converts a character stream into a token stream.
pub struct Tokenizer {
    source: Vec<char>,
}

impl View for Tokenizer {
    type V = Seq<char>;

    closed spec fn view(&self) -> Seq<char> {
        self.source@
    }
}

impl Tokenizer {
    /// A tokenizer over the given characters.
    pub fn new(source: Vec<char>) -> (t: Tokenizer)
        ensures
            t@ == source@,
    {
        Tokenizer { source }
    }

    /// All tokens of the source, in order.
    pub fn tokens(&self) -> (r: Vec<Token>)
        ensures
            r.deep_view() == tokenize_spec(self@),
    {
        let ghost s = self@;
        let v = &self.source;
        let mut out: Vec<Token> = Vec::new();
        let mut pos: usize = 0;
        proof {
            assert(s.skip(0) =~= s);
            assert(out.deep_view() + tokenize_spec(s) =~~= tokenize_spec(s));
        }
        while pos < v.len()
            invariant
                0 <= pos <= s.len(),
                s == self@,
                v == &self.source,
                tokenize_spec(s) =~~= out.deep_view() + tokenize_spec(s.skip(pos as int)),
            decreases s.len() - pos,
        {
            let ghost rest = s.skip(pos as int);
            proof {
                lemma_find_char(rest, '>');
            }
            let mut j: usize = pos;
            while j < v.len() && v[j] != '>'
                invariant
                    pos <= j <= s.len(),
                    s == v@,
                    forall|k: int| pos <= k < j ==> s[k] != '>',
                decreases s.len() - j,
            {
                j = j + 1;
            }
            if j == v.len() {
                proof {
                    assert forall|k: int| 0 <= k < rest.len() implies rest[k] != '>' by {
                        assert(s[pos + k] != '>');
                    }
                    assert(find_char_spec(rest, '>') is None);
                }
                let content = subrange_vec(v, pos, v.len());
                let literal = subrange_vec(v, pos, v.len());
                out.push(Token { kind: Kind::Text(content), literal });
                proof {
                    assert(s.subrange(pos as int, s.len() as int) =~= rest);
                    assert(tokenize_spec(rest) =~~= seq![text_token_spec(rest)]);
                    assert(s.skip(s.len() as int) =~= Seq::<char>::empty());
                    assert(tokenize_spec(s) =~~= out.deep_view() + tokenize_spec(
                        s.skip(s.len() as int),
                    ));
                }
                pos = v.len();
            } else {
                proof {
                    assert(rest[j - pos] == '>');
                    assert forall|k: int| 0 <= k < j - pos implies rest[k] != '>' by {
                        assert(s[pos + k] != '>');
                    }
                    if let Some(f) = find_char_spec(rest, '>') {
                        assert(!(f < j - pos) && !(j - pos < f));
                    }
                    assert(find_char_spec(rest, '>') == Some(j - pos as int));
                }
                let span = subrange_vec(v, pos, j + 1);
                proof {
                    assert(span@ =~= rest.take(j - pos + 1int));
                }
                let mut toks = span_tokens(span);
                let ghost out0 = out.deep_view();
                let ghost toks0 = toks.deep_view();
                out.append(&mut toks);
                proof {
                    assert(out.deep_view() =~~= out0 + toks0);
                    assert(rest.skip(j - pos + 1int) =~= s.skip(j + 1int));
                    assert(tokenize_spec(rest) == span_tokens_spec(rest.take(j - pos + 1int))
                        + tokenize_spec(rest.skip(j - pos + 1int)));
                    assert(tokenize_spec(s) =~~= out.deep_view() + tokenize_spec(
                        s.skip(j + 1int),
                    ));
                }
                pos = j + 1;
            }
        }
        proof {
            assert(s.skip(pos as int) =~= Seq::<char>::empty());
            assert(out.deep_view() + tokenize_spec(s.skip(pos as int)) =~~= out.deep_view());
        }
        out
    }

    /// The tokenizer's output with adjacent text tokens merged, ready for
    /// the parser.
    pub fn merged(self) -> (m: TextMerger)
        ensures
            m@ == merge_spec(tokenize_spec(self@)),
    {
        let toks = self.tokens();
        TextMerger { tokens: merge(toks) }
    }
}

/// TextMerger merges adjacent text tokens into one text token.
pub struct TextMerger {
    tokens: Vec<Token>,
}

impl View for TextMerger {
    type V = Seq<TokenModel>;

    closed spec fn view(&self) -> Seq<TokenModel> {
        self.tokens.deep_view()
    }
}

impl TextMerger {
    /// The merged tokens, in order.
    pub fn into_tokens(self) -> (r: Vec<Token>)
        ensures
            r.deep_view() == self@,
    {
        self.tokens
    }
}

/// Merge every run of adjacent text tokens into a single text token.
fn merge(toks: Vec<Token>) -> (r: Vec<Token>)
    ensures
        r.deep_view() == merge_spec(toks.deep_view()),
{
    let ghost orig = toks.deep_view();
    let mut rest = toks;
    let mut out: Vec<Token> = Vec::new();
    proof {
        assert(out.deep_view() + merge_spec(orig) =~~= merge_spec(orig));
    }
    while rest.len() > 0
        invariant
            merge_spec(orig) =~~= out.deep_view() + merge_spec(rest.deep_view()),
        decreases rest@.len(),
    {
        let ghost len0 = rest@.len();
        let ghost rest0 = rest.deep_view();
        let t = rest.remove(0);
        proof {
            assert(rest.deep_view() =~~= rest0.drop_first());
        }
        match t.kind {
            Kind::Text(content) => {
                let mut content = content;
                let mut literal = t.literal;
                proof {
                    assert(seq![TokenModel { kind: KindModel::Text(content@), literal: literal@ }]
                        + rest.deep_view() =~~= rest0);
                }
                loop
                    invariant
                        rest@.len() < len0,
                        merge_spec(orig) =~~= out.deep_view() + merge_spec(
                            seq![
                                TokenModel { kind: KindModel::Text(content@), literal: literal@ },
                            ] + rest.deep_view(),
                        ),
                    ensures
                        rest@.len() < len0,
                        rest@.len() > 0 ==> !(rest.deep_view()[0].kind is Text),
                        merge_spec(orig) =~~= out.deep_view() + merge_spec(
                            seq![
                                TokenModel { kind: KindModel::Text(content@), literal: literal@ },
                            ] + rest.deep_view(),
                        ),
                    decreases rest@.len(),
                {
                    let more = rest.len() > 0 && match &rest[0].kind {
                        Kind::Text(_) => true,
                        _ => false,
                    };
                    if !more {
                        proof {
                            if rest@.len() > 0 {
                                assert(rest.deep_view()[0] == rest@[0]@);
                            }
                        }
                        break ;
                    }
                    let ghost cur = seq![
                        TokenModel { kind: KindModel::Text(content@), literal: literal@ },
                    ] + rest.deep_view();
                    let ghost inner0 = rest.deep_view();
                    let n = rest.remove(0);
                    proof {
                        assert(inner0[0] == n@);
                        assert(rest.deep_view() =~~= inner0.drop_first());
                    }
                    let mut ncontent = match n.kind {
                        Kind::Text(c) => c,
                        _ => Vec::new(),
                    };
                    let mut nliteral = n.literal;
                    content.append(&mut ncontent);
                    literal.append(&mut nliteral);
                    proof {
                        let merged = TokenModel {
                            kind: KindModel::Text(content@),
                            literal: literal@,
                        };
                        assert(cur[0].kind is Text && cur[1].kind is Text);
                        assert(merged == merge_two_spec(cur[0], cur[1]));
                        assert(seq![merged] + rest.deep_view() =~~= seq![
                            merge_two_spec(cur[0], cur[1]),
                        ] + cur.skip(2));
                        assert(merge_spec(cur) == merge_spec(seq![merged] + rest.deep_view()));
                    }
                }
                let ghost cur = seq![
                    TokenModel { kind: KindModel::Text(content@), literal: literal@ },
                ] + rest.deep_view();
                let ghost out0 = out.deep_view();
                out.push(Token { kind: Kind::Text(content), literal });
                proof {
                    assert(cur.len() >= 2 ==> !(cur[1].kind is Text));
                    assert(merge_spec(cur) == seq![cur[0]] + merge_spec(cur.drop_first()));
                    assert(cur.drop_first() =~~= rest.deep_view());
                    assert(out.deep_view() =~~= out0 + seq![cur[0]]);
                    assert(out.deep_view() + merge_spec(rest.deep_view()) =~~= merge_spec(orig));
                }
            },
            Kind::OpenTag { name, attributes } => {
                let ghost out0 = out.deep_view();
                proof {
                    assert(rest0[0].kind is OpenTag);
                    assert(merge_spec(rest0) == seq![rest0[0]] + merge_spec(rest0.drop_first()));
                }
                out.push(Token { kind: Kind::OpenTag { name, attributes }, literal: t.literal });
                proof {
                    assert(out.deep_view() =~~= out0 + seq![rest0[0]]);
                    assert(out.deep_view() + merge_spec(rest.deep_view()) =~~= merge_spec(orig));
                }
            },
            Kind::CloseTag { name } => {
                let ghost out0 = out.deep_view();
                proof {
                    assert(rest0[0].kind is CloseTag);
                    assert(merge_spec(rest0) == seq![rest0[0]] + merge_spec(rest0.drop_first()));
                }
                out.push(Token { kind: Kind::CloseTag { name }, literal: t.literal });
                proof {
                    assert(out.deep_view() =~~= out0 + seq![rest0[0]]);
                    assert(out.deep_view() + merge_spec(rest.deep_view()) =~~= merge_spec(orig));
                }
            },
        }
    }
    proof {
        assert(rest.deep_view() =~~= Seq::<TokenModel>::empty());
        assert(out.deep_view() + merge_spec(rest.deep_view()) =~~= out.deep_view());
    }
    out
}

impl Token {
    /// A copy of the token.
    pub fn to_owned(&self) -> (t: Token)
        ensures
            t@ == self@,
    {
        let kind = match &self.kind {
            Kind::OpenTag { name, attributes } => Kind::OpenTag {
                name: clone_chars(name),
                attributes: attributes.duplicate(),
            },
            Kind::CloseTag { name } => Kind::CloseTag { name: clone_chars(name) },
            Kind::Text(content) => Kind::Text(clone_chars(content)),
        };
        Token { kind, literal: clone_chars(&self.literal) }
    }
}

/// The content of a text token.
pub open spec fn text_content_spec(t: TokenModel) -> Seq<char> {
    match t.kind {
        KindModel::Text(s) => s,
        _ => Seq::empty(),
    }
}

/// Two adjacent text tokens merged into one: contents and literals are
/// concatenated.
pub open spec fn merge_two_spec(a: TokenModel, b: TokenModel) -> TokenModel {
    TokenModel {
        kind: KindModel::Text(text_content_spec(a) + text_content_spec(b)),
        literal: a.literal + b.literal,
    }
}

/// The token stream with every run of adjacent text tokens merged into
/// a single text token.
pub open spec fn merge_spec(toks: Seq<TokenModel>) -> Seq<TokenModel>
    decreases toks.len(),
{
    if toks.len() == 0 {
        Seq::empty()
    } else if toks.len() >= 2 && toks[0].kind is Text && toks[1].kind is Text {
        merge_spec(seq![merge_two_spec(toks[0], toks[1])] + toks.skip(2))
    } else {
        seq![toks[0]] + merge_spec(toks.drop_first())
    }
}

} // verus!
