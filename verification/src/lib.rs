//! A markdown to HTML converter: a lexer that splits the source into tokens, a
//! parser that builds the document tree from them, and a renderer that writes
//! the tree as an HTML page.
use vstd::prelude::*;

pub mod ast;
pub mod converter;
pub mod grammar;
pub mod lexer;
pub mod parser;
pub mod text;

use crate::converter::page_html;
use crate::lexer::{spec_lex, Lexer};
use crate::parser::Parser;

verus! {

/// The HTML page of the markdown source `input`, if the parser returns on its tokens.
pub open spec fn markdown_html(input: Seq<char>) -> Option<Seq<char>> {
    match grammar::parse_tokens(spec_lex(input)) {
        Some(doc) => Some(page_html(doc)),
        None => None,
    }
}

/// The HTML page of the markdown source `input`, or `None` where the parser would
/// not return on its tokens (it would panic or loop forever).
pub fn try_to_html(input: &str) -> (html: Option<String>)
    requires
        input@.len() <= usize::MAX / 4,
    ensures
        match html {
            Some(h) => markdown_html(input@) == Some(h@),
            None => markdown_html(input@) is None,
        },
{
    let mut lexer = Lexer::new(String::from_str(input));
    assert(lexer.remaining() =~= input@);
    let tokens = lexer.lex();
    let mut parser = Parser::new(tokens);
    match parser.try_parse() {
        Some(ast) => Some(converter::to_html(ast)),
        None => None,
    }
}

/// The HTML page of the markdown source `input`.
pub fn to_html(input: &str) -> (html: String)
    requires
        input@.len() <= usize::MAX / 4,
        markdown_html(input@) is Some,
    ensures
        markdown_html(input@) == Some(html@),
{
    let mut lexer = Lexer::new(String::from_str(input));
    assert(lexer.remaining() =~= input@);
    let tokens = lexer.lex();
    let mut parser = Parser::new(tokens);
    let ast = parser.parse();
    converter::to_html(ast)
}

} // verus!
