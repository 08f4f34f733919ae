//! A forgiving HTML parser: a tokenizer that classifies raw character
//! spans into tags and text, a merger that coalesces adjacent text runs,
//! a tree builder that recovers from unbalanced tags by promoting would-be
//! children to siblings, and a mutable tree that can be rewritten during a
//! depth-first traversal and rendered back to markup.

pub mod attrs;
pub mod chars;
pub mod inline;
pub mod parse;
pub mod render;
pub mod roundtrip;
pub mod token;
pub mod traverse;

pub use attrs::AttrMap;
pub use inline::is_text_resource;
pub use inline::resource_link;
pub use inline::rewrite_binary;
pub use inline::rewrite_text;
pub use parse::Dom;
pub use parse::Node;
pub use parse::ParseError;
pub use parse::Parser;
pub use token::Kind;
pub use token::TextMerger;
pub use token::Token;
pub use token::Tokenizer;
pub use traverse::Visitor;
