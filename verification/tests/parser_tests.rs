use from_md::ast::{BlockNode, InlineNode, ListItem};
use from_md::lexer::{Lexer, Token};
use from_md::parser::Parser;

fn lex(input: &str) -> Vec<Token> {
    let mut lexer = Lexer::new(input.to_string());
    lexer.lex()
}

fn parse_from_string(src: &str) -> Vec<BlockNode> {
    let tokens = lex(src);
    println!("{:#?}", tokens);
    Parser::new(tokens).parse()
}
#[test]
fn test_linebreak() {
    // Valid <br>
    assert_eq!(
        parse_from_string("<br>"),
        vec![BlockNode::Paragraph(vec![InlineNode::LineBreak])]
    );

    // Valid self-closing <br/>
    assert_eq!(
        parse_from_string("<br/>"),
        vec![BlockNode::Paragraph(vec![InlineNode::LineBreak])]
    );

    // Invalid tag — falls back to literal text
    assert_eq!(
        parse_from_string("<hello>"),
        vec![BlockNode::Paragraph(vec![
            InlineNode::Text("<".to_string()),
            InlineNode::Text("hello".to_string()),
            InlineNode::Text(">".to_string()),
        ])]
    );

    // Inline within a paragraph
    assert_eq!(
        parse_from_string("hello<br/>world"),
        vec![BlockNode::Paragraph(vec![
            InlineNode::Text("hello".to_string()),
            InlineNode::LineBreak,
            InlineNode::Text("world".to_string()),
        ])]
    );
}
#[test]
fn test_heading() {
    assert_eq!(
        parse_from_string("#hello"),
        vec![BlockNode::Paragraph(vec![
            InlineNode::Text(String::from("#")),
            InlineNode::Text(String::from("hello"))
        ])]
    );

    assert_eq!(
        parse_from_string("## hello"),
        vec![BlockNode::Heading {
            level: 2,
            content: vec![InlineNode::Text("hello".to_string())]
        }]
    );
}

fn txt(s: &str) -> InlineNode {
    InlineNode::Text(s.to_string())
}

#[test]
fn test_italics_parsing() {
    // Basic italics: *content*
    assert_eq!(
        parse_from_string("*italics*"),
        vec![BlockNode::Paragraph(vec![InlineNode::Italics(vec![txt(
            "italics"
        )])])]
    );
}

#[test]
fn test_bold_parsing() {
    // Basic bold: **content**
    assert_eq!(
        parse_from_string("**bold**"),
        vec![BlockNode::Paragraph(vec![InlineNode::Bold(vec![txt(
            "bold"
        )])])]
    );
}

#[test]
fn test_nested_emphasis() {
    // Nested: **bold and *italics***
    assert_eq!(
        parse_from_string("**bold and *italics* asdf**"),
        vec![BlockNode::Paragraph(vec![InlineNode::Bold(vec![
            txt("bold and "),
            InlineNode::Italics(vec![txt("italics")]),
            txt(" asdf"),
        ])])]
    );
}

#[test]
fn test_unmatched_stars() {
    // Following your pattern where unmatched/invalid syntax falls back to literal text.
    // If your parser treats each character as a separate Text node on failure:
    assert_eq!(
        parse_from_string("**text"),
        vec![BlockNode::Paragraph(vec![txt("*"), txt("*"), txt("text"),])]
    );
}

#[test]
fn test_mixed_with_linebreaks() {
    // Ensuring stars and linebreaks play nice together
    assert_eq!(
        parse_from_string("*italics*<br/>***bold** *and this is not bold*"),
        vec![BlockNode::Paragraph(vec![
            InlineNode::Italics(vec![txt("italics")]),
            InlineNode::LineBreak,
            InlineNode::Text(String::from("*")),
            InlineNode::Bold(vec![txt("bold")]),
            InlineNode::Text(String::from(" ")),
            InlineNode::Italics(vec![txt("and this is not bold")]),
        ])]
    );
}

#[test]
fn test_empty_emphasis() {
    // Edge case: what happens with **** or **?
    // Usually these are treated as literal text or empty nodes.
    assert_eq!(
        parse_from_string("****"),
        vec![BlockNode::Paragraph(vec![
            InlineNode::Bold(vec![]) // Or txt("*"), txt("*"), txt("*"), txt("*") depending on your parser
        ])]
    );
}

#[test]
fn test_simple_link() {
    assert_eq!(
        parse_from_string("[hello](https://example.com)"),
        vec![BlockNode::Paragraph(vec![InlineNode::Link {
            href: "https://example.com".to_string(),
            title: None,
            children: vec![txt("hello")],
        }])]
    );
}

#[test]
fn test_link_with_title() {
    assert_eq!(
        parse_from_string(r#"[hello](https://example.com "my title")"#),
        vec![BlockNode::Paragraph(vec![InlineNode::Link {
            href: "https://example.com".to_string(),
            title: Some("my title".to_string()),
            children: vec![txt("hello")],
        }])]
    );
}

#[test]
fn test_link_with_bold_text() {
    assert_eq!(
        parse_from_string("[**bold**](https://example.com)"),
        vec![BlockNode::Paragraph(vec![InlineNode::Link {
            href: "https://example.com".to_string(),
            title: None,
            children: vec![InlineNode::Bold(vec![txt("bold")])],
        }])]
    );
}

#[test]
fn test_unclosed_bracket_is_literal() {
    assert_eq!(
        parse_from_string("[hello"),
        vec![BlockNode::Paragraph(vec![txt("["), txt("hello"),])]
    );
}

#[test]
fn test_bracket_without_paren_is_literal() {
    assert_eq!(
        parse_from_string("[hello] world"),
        vec![BlockNode::Paragraph(vec![
            txt("["),
            txt("hello"),
            txt("]"),
            txt(" world"),
        ])]
    );
}
