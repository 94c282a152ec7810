use from_md::ast::{BlockNode, InlineNode, ListItem};
use from_md::lexer::{Lexer, Token};
use from_md::parser::Parser;

fn lex(input: &str) -> Vec<Token> {
    let mut lexer = Lexer::new(input.to_string());
    lexer.lex()
}

fn parse(src: &str) -> Vec<BlockNode> {
    Parser::new(lex(src)).parse()
}

fn txt(s: &str) -> InlineNode {
    InlineNode::Text(s.to_string())
}

fn paragraph(nodes: Vec<InlineNode>) -> BlockNode {
    BlockNode::Paragraph(nodes)
}

fn bq(blocks: Vec<BlockNode>) -> BlockNode {
    BlockNode::BlockQuote(blocks)
}

// --- Basic ---

#[test]
fn test_single_line_blockquote() {
    assert_eq!(parse("> foo"), vec![bq(vec![paragraph(vec![txt("foo")])])]);
}

#[test]
fn test_multiline_blockquote() {
    assert_eq!(
        parse("> foo\n> bar"),
        vec![bq(vec![paragraph(vec![txt("foo"), txt("bar")]),])]
    );
}

#[test]
fn test_blockquote_without_space_still_parses() {
    // `>foo` with no space — still valid
    assert_eq!(parse(">foo"), vec![bq(vec![paragraph(vec![txt("foo")])])]);
}

// --- Nested ---

#[test]
fn test_nested_blockquote() {
    assert_eq!(
        parse("> > nested"),
        vec![bq(vec![bq(vec![paragraph(vec![txt("nested")])])])]
    );
}

#[test]
fn test_three_levels_deep() {
    assert_eq!(
        parse("> > > deep"),
        vec![bq(vec![bq(vec![bq(vec![paragraph(vec![txt("deep")])])])])]
    );
}

#[test]
fn test_outer_then_nested_then_outer() {
    // the critical case — inner must not steal the last line
    assert_eq!(
        parse("> outer\n> > nested\n> back"),
        vec![bq(vec![
            paragraph(vec![txt("outer")]),
            bq(vec![paragraph(vec![txt("nested")])]),
            paragraph(vec![txt("back")]),
        ])]
    );
}

// --- Block content inside ---

#[test]
fn test_blockquote_with_heading() {
    assert_eq!(
        parse("> ## heading"),
        vec![bq(vec![BlockNode::Heading {
            level: 2,
            content: vec![txt("heading")],
        }])]
    );
}

#[test]
fn test_blockquote_with_list() {
    assert_eq!(
        parse("> - item"),
        vec![bq(vec![BlockNode::UnorderedList(vec![ListItem(vec![
            paragraph(vec![txt("item")])
        ])])])]
    );
}

#[test]
fn test_blockquote_with_bold() {
    assert_eq!(
        parse("> **bold**"),
        vec![bq(vec![paragraph(vec![InlineNode::Bold(vec![txt(
            "bold"
        )])])])]
    );
}

// --- Boundaries ---

#[test]
fn test_blockquote_ends_at_blank_line() {
    assert_eq!(
        parse("> foo\n\nbar"),
        vec![
            bq(vec![paragraph(vec![txt("foo")])]),
            paragraph(vec![txt("bar")]),
        ]
    );
}

#[test]
fn test_blockquote_followed_by_heading() {
    assert_eq!(
        parse("> foo\n## heading"),
        vec![
            bq(vec![paragraph(vec![txt("foo")])]),
            BlockNode::Heading {
                level: 2,
                content: vec![txt("heading")]
            },
        ]
    );
}
#[test]
fn test_empty_blockquote_line() {
    // `>` with nothing after — nothing to render
    let result = parse(">");
    assert!(result.is_empty() || matches!(result[0], BlockNode::BlockQuote(_)));
}
