use from_md::ast::{BlockNode, InlineNode, ListItem};
use from_md::lexer::{Lexer, Token};
use from_md::parser::Parser;

fn lex(input: &str) -> Vec<Token> {
    let mut lexer = Lexer::new(input.to_string());
    lexer.lex()
}

fn parse_from_string(src: &str) -> Vec<BlockNode> {
    Parser::new(lex(src)).parse()
}
#[test]
fn test_simple_codeblock() {
    assert_eq!(
        parse_from_string("```\nhello\n```"),
        vec![BlockNode::CodeBlock {
            language: None,
            code: "hello\n".to_string(),
        }]
    );
}

#[test]
fn test_codeblock_with_language() {
    assert_eq!(
        parse_from_string("```rust\nlet x = 1;\n```"),
        vec![BlockNode::CodeBlock {
            language: Some("rust".to_string()),
            code: "let x = 1;\n".to_string(),
        }]
    );
}

#[test]
fn test_codeblock_preserves_symbols() {
    assert_eq!(
        parse_from_string("```\n# not a heading\n**not bold**\n```"),
        vec![BlockNode::CodeBlock {
            language: None,
            code: "# not a heading\n**not bold**\n".to_string(),
        }]
    );
}

#[test]
fn test_unclosed_fence_is_paragraph() {
    let result = parse_from_string("```\nhello");
    assert!(matches!(result[0], BlockNode::Paragraph(_)));
}

#[test]
fn test_codeblock_multiline() {
    assert_eq!(
        parse_from_string("```\nline1\nline2\nline3\n```"),
        vec![BlockNode::CodeBlock {
            language: None,
            code: "line1\nline2\nline3\n".to_string(),
        }]
    );
}
