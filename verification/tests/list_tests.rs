use from_md::ast::{BlockNode, InlineNode, ListItem};
use from_md::lexer::{Lexer, Token};
use from_md::parser::Parser;

fn lex(input: &str) -> Vec<Token> {
    let mut lexer = Lexer::new(input.to_string());
    lexer.lex()
}

fn parse(src: &str) -> Vec<BlockNode> {
    let tokens = lex(src);
    Parser::new(tokens).parse()
}

fn txt(s: &str) -> InlineNode {
    InlineNode::Text(s.to_string())
}

fn paragraph(nodes: Vec<InlineNode>) -> BlockNode {
    BlockNode::Paragraph(nodes)
}

fn item(blocks: Vec<BlockNode>) -> ListItem {
    ListItem(blocks)
}

// --- Basic lists ---

#[test]
fn test_single_item_list() {
    assert_eq!(
        parse("- foo"),
        vec![BlockNode::UnorderedList(vec![item(vec![paragraph(vec![
            txt("foo")
        ])])])]
    );
}

#[test]
fn test_multiple_items() {
    assert_eq!(
        parse("- foo\n- bar\n- baz"),
        vec![BlockNode::UnorderedList(vec![
            item(vec![paragraph(vec![txt("foo")])]),
            item(vec![paragraph(vec![txt("bar")])]),
            item(vec![paragraph(vec![txt("baz")])]),
        ])]
    );
}

#[test]
fn test_dash_without_space_is_paragraph() {
    assert_eq!(parse("-foo"), vec![paragraph(vec![txt("-"), txt("foo")])]);
}

#[test]
fn test_lone_dash_is_paragraph() {
    assert_eq!(parse("-"), vec![paragraph(vec![txt("-")])]);
}

// --- Inline content inside items ---

#[test]
fn test_item_with_bold() {
    assert_eq!(
        parse("- **bold**"),
        vec![BlockNode::UnorderedList(vec![item(vec![paragraph(vec![
            InlineNode::Bold(vec![txt("bold")])
        ])])])]
    );
}

#[test]
fn test_item_with_italic() {
    assert_eq!(
        parse("- *italic*"),
        vec![BlockNode::UnorderedList(vec![item(vec![paragraph(vec![
            InlineNode::Italics(vec![txt("italic")])
        ])])])]
    );
}

#[test]
fn test_item_with_linebreak() {
    assert_eq!(
        parse("- hello<br/>world"),
        vec![BlockNode::UnorderedList(vec![item(vec![paragraph(vec![
            txt("hello"),
            InlineNode::LineBreak,
            txt("world"),
        ])])])]
    );
}

// --- Nested lists ---

#[test]
fn test_nested_list_one_level() {
    assert_eq!(
        parse("- foo\n  - bar"),
        vec![BlockNode::UnorderedList(vec![item(vec![
            paragraph(vec![txt("foo")]),
            BlockNode::UnorderedList(vec![item(vec![paragraph(vec![txt("bar")])])]),
        ])])]
    );
}

#[test]
fn test_nested_list_two_levels() {
    assert_eq!(
        parse("- foo\n  - bar\n    - baz"),
        vec![BlockNode::UnorderedList(vec![item(vec![
            paragraph(vec![txt("foo")]),
            BlockNode::UnorderedList(vec![item(vec![
                paragraph(vec![txt("bar")]),
                BlockNode::UnorderedList(vec![item(vec![paragraph(vec![txt("baz")])])]),
            ])]),
        ])])]
    );
}

#[test]
fn test_nested_then_back_to_top() {
    assert_eq!(
        parse("- foo\n  - bar\n- baz"),
        vec![BlockNode::UnorderedList(vec![
            item(vec![
                paragraph(vec![txt("foo")]),
                BlockNode::UnorderedList(vec![item(vec![paragraph(vec![txt("bar")])])]),
            ]),
            item(vec![paragraph(vec![txt("baz")])]),
        ])]
    );
}

// --- Nested block content ---

#[test]
fn test_item_with_nested_heading() {
    assert_eq!(
        parse("- foo\n  ## heading"),
        vec![BlockNode::UnorderedList(vec![item(vec![
            paragraph(vec![txt("foo")]),
            BlockNode::Heading {
                level: 2,
                content: vec![txt("heading")]
            },
        ])])]
    );
}

#[test]
fn test_item_continuation_paragraph() {
    // second indented line that isn't a list marker becomes another paragraph
    assert_eq!(
        parse("- foo\n  bar"),
        vec![BlockNode::UnorderedList(vec![item(vec![paragraph(vec![
            txt("foo"),
            txt("bar")
        ]),])])]
    );
}

// --- List boundaries ---

#[test]
fn test_list_ends_at_blank_line() {
    assert_eq!(
        parse("- foo\n\n## heading"),
        vec![
            BlockNode::UnorderedList(vec![item(vec![paragraph(vec![txt("foo")])])]),
            BlockNode::Heading {
                level: 2,
                content: vec![txt("heading")]
            },
        ]
    );
}

#[test]
fn test_list_ends_at_eof() {
    let result = parse("- foo\n- bar");
    assert_eq!(result.len(), 1);
    assert!(matches!(result[0], BlockNode::UnorderedList(_)));
}

#[test]
fn test_list_followed_by_paragraph() {
    assert_eq!(
        parse("- foo\n\nhello"),
        vec![
            BlockNode::UnorderedList(vec![item(vec![paragraph(vec![txt("foo")])])]),
            paragraph(vec![txt("hello")]),
        ]
    );
}

#[test]
fn test_non_indented_content_ends_item() {
    // second line at indent 0 is not part of the list item
    assert_eq!(
        parse("- foo\nbar"),
        vec![BlockNode::UnorderedList(vec![item(vec![paragraph(vec![
            txt("foo"),
            txt("bar")
        ])])]),]
    );
}
