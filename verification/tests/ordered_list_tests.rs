use from_md::ast::{BlockNode, InlineNode, ListItem};
use from_md::lexer::{Lexer, Token};
use from_md::parser::Parser;

fn lex(input: &str) -> Vec<Token> {
    let mut lexer = Lexer::new(input.to_string());
    lexer.lex()
}

fn parse(src: &str) -> Vec<BlockNode> {
    let tokens = lex(src);
    Parser::new(tokens).parse()
}

fn txt(s: &str) -> InlineNode {
    InlineNode::Text(s.to_string())
}

fn paragraph(nodes: Vec<InlineNode>) -> BlockNode {
    BlockNode::Paragraph(nodes)
}

fn item(blocks: Vec<BlockNode>) -> ListItem {
    ListItem(blocks)
}

// --- Basic Ordered Lists ---

#[test]
fn test_single_ordered_item() {
    assert_eq!(
        parse("1. foo"),
        vec![BlockNode::OrderedList(vec![item(vec![paragraph(vec![
            txt("foo")
        ])])])]
    );
}

#[test]
fn test_multiple_ordered_items() {
    // Note: In Markdown, the numbers don't have to be sequential (1, 2, 3)
    // but the parser should group them into one List.
    assert_eq!(
        parse("1. foo\n2. bar\n3. baz"),
        vec![BlockNode::OrderedList(vec![
            item(vec![paragraph(vec![txt("foo")])]),
            item(vec![paragraph(vec![txt("bar")])]),
            item(vec![paragraph(vec![txt("baz")])]),
        ])]
    );
}

#[test]
fn test_ordered_marker_without_space_is_paragraph() {
    // "1.foo" is not a list item in standard Markdown; it needs a space.
    assert_eq!(
        parse("1.foo"),
        vec![paragraph(vec![txt("1"), txt("."), txt("foo")])]
    );
}

// --- Nesting ---

#[test]
fn test_nested_ordered_list() {
    assert_eq!(
        parse("1. foo\n  1. bar"),
        vec![BlockNode::OrderedList(vec![item(vec![
            paragraph(vec![txt("foo")]),
            BlockNode::OrderedList(vec![item(vec![paragraph(vec![txt("bar")])])]),
        ])])]
    );
}

#[test]
fn test_mixed_list_nesting() {
    // An unordered list inside an ordered list
    assert_eq!(
        parse("1. foo\n  - bar"),
        vec![BlockNode::OrderedList(vec![item(vec![
            paragraph(vec![txt("foo")]),
            BlockNode::UnorderedList(vec![item(vec![paragraph(vec![txt("bar")])])]),
        ])])]
    );
}

// --- Boundaries ---

#[test]
fn test_ordered_list_interrupted_by_paragraph() {
    assert_eq!(
        parse("1. foo\n\nbar"),
        vec![
            BlockNode::OrderedList(vec![item(vec![paragraph(vec![txt("foo")])])]),
            paragraph(vec![txt("bar")]),
        ]
    );
}

#[test]
fn test_ordered_list_with_continuation_text() {
    // Indented text on the next line belongs to the list item
    assert_eq!(
        parse("1. foo\n   bar"),
        vec![BlockNode::OrderedList(vec![item(vec![paragraph(vec![
            txt("foo"),
            txt("bar")
        ]),])])]
    );
}
