use from_md::lexer::{Lexer, Token};

fn lex(input: &str) -> Vec<Token> {
    let mut lexer = Lexer::new(input.to_string());
    lexer.lex()
}

#[test]
fn test_empty_input() {
    let tokens = lex("");
    assert_eq!(tokens, vec![Token::EOF]);
}

#[test]
fn test_single_symbols() {
    let tokens = lex("#=* -<>.\n\t");

    assert_eq!(
        tokens,
        vec![
            Token::Hash,
            Token::Equals,
            Token::Star,
            Token::Text(" ".to_string()), // space becomes text
            Token::Dash,
            Token::LessThan,
            Token::GreaterThan,
            Token::Period,
            Token::NewLine,
            Token::Indent(4),
            Token::EOF,
        ]
    );
}

#[test]
fn test_simple_text() {
    let tokens = lex("hello");

    assert_eq!(tokens, vec![Token::Text("hello".to_string()), Token::EOF]);
}

#[test]
fn test_text_with_symbols() {
    let tokens = lex("hi#there");

    assert_eq!(
        tokens,
        vec![
            Token::Text("hi".to_string()),
            Token::Hash,
            Token::Text("there".to_string()),
            Token::EOF,
        ]
    );
}

#[test]
fn test_mixed_tokens() {
    let tokens = lex("a=b*c-d");

    assert_eq!(
        tokens,
        vec![
            Token::Text("a".to_string()),
            Token::Equals,
            Token::Text("b".to_string()),
            Token::Star,
            Token::Text("c".to_string()),
            Token::Dash,
            Token::Text("d".to_string()),
            Token::EOF,
        ]
    );
}

#[test]
fn test_newlines_and_tabs() {
    let tokens = lex("a\nb\tc");

    assert_eq!(
        tokens,
        vec![
            Token::Text("a".to_string()),
            Token::NewLine,
            Token::Text("b".to_string()),
            Token::Tab,
            Token::Text("c".to_string()),
            Token::EOF,
        ]
    );
}

#[test]
fn test_consecutive_symbols() {
    let tokens = lex("###");

    assert_eq!(
        tokens,
        vec![Token::Hash, Token::Hash, Token::Hash, Token::EOF,]
    );
}

#[test]
fn test_text_stops_at_symbol() {
    let tokens = lex("abc#def");

    assert_eq!(
        tokens,
        vec![
            Token::Text("abc".to_string()),
            Token::Hash,
            Token::Text("def".to_string()),
            Token::EOF,
        ]
    );
}

#[test]
fn test_period_in_text_breaks() {
    let tokens = lex("hello.world");

    assert_eq!(
        tokens,
        vec![
            Token::Text("hello".to_string()),
            Token::Period,
            Token::Text("world".to_string()),
            Token::EOF,
        ]
    );
}

#[test]
fn test_single_newline() {
    let tokens = lex("a\nb");
    assert_eq!(
        tokens,
        vec![
            Token::Text("a".to_string()),
            Token::NewLine,
            Token::Text("b".to_string()),
            Token::EOF,
        ]
    );
}

#[test]
fn test_double_newline_is_blank_line() {
    let tokens = lex("a\n\nb");
    assert_eq!(
        tokens,
        vec![
            Token::Text("a".to_string()),
            Token::LineBreak,
            Token::Text("b".to_string()),
            Token::EOF,
        ]
    );
}

#[test]
fn test_triple_newline_collapses_to_blank_line() {
    let tokens = lex("a\n\n\nb");
    assert_eq!(
        tokens,
        vec![
            Token::Text("a".to_string()),
            Token::LineBreak,
            Token::Text("b".to_string()),
            Token::EOF,
        ]
    );
}

#[test]
fn test_trailing_newline() {
    let tokens = lex("a\n");
    assert_eq!(
        tokens,
        vec![Token::Text("a".to_string()), Token::NewLine, Token::EOF,]
    );
}

#[test]
fn test_trailing_blank_line() {
    let tokens = lex("a\n\n");
    assert_eq!(
        tokens,
        vec![Token::Text("a".to_string()), Token::LineBreak, Token::EOF,]
    );
}

// --- Indentation ---

#[test]
fn test_indent_two_spaces() {
    let tokens = lex("a\n  b");
    assert_eq!(
        tokens,
        vec![
            Token::Text("a".to_string()),
            Token::NewLine,
            Token::Indent(2),
            Token::Text("b".to_string()),
            Token::EOF,
        ]
    );
}

#[test]
fn test_indent_four_spaces() {
    let tokens = lex("a\n    b");
    assert_eq!(
        tokens,
        vec![
            Token::Text("a".to_string()),
            Token::NewLine,
            Token::Indent(4),
            Token::Text("b".to_string()),
            Token::EOF,
        ]
    );
}

#[test]
fn test_indent_tab_equals_four_spaces() {
    let tokens = lex("a\n\tb");
    assert_eq!(
        tokens,
        vec![
            Token::Text("a".to_string()),
            Token::NewLine,
            Token::Indent(4),
            Token::Text("b".to_string()),
            Token::EOF,
        ]
    );
}

#[test]
fn test_indent_tab_after_space() {
    // space puts us at column 1, tab advances to column 4 = Indent(4)
    let tokens = lex("a\n \tb");
    assert_eq!(
        tokens,
        vec![
            Token::Text("a".to_string()),
            Token::NewLine,
            Token::Indent(4),
            Token::Text("b".to_string()),
            Token::EOF,
        ]
    );
}

#[test]
fn test_no_indent_token_for_zero_spaces() {
    // a newline with no following whitespace should not emit Indent at all
    let tokens = lex("a\nb");
    assert!(!tokens.contains(&Token::Indent(0)));
}

// --- Indentation after blank line ---

#[test]
fn test_indent_after_blank_line() {
    let tokens = lex("a\n\n  b");
    assert_eq!(
        tokens,
        vec![
            Token::Text("a".to_string()),
            Token::LineBreak,
            Token::Indent(2),
            Token::Text("b".to_string()),
            Token::EOF,
        ]
    );
}

// --- Nested list indentation ---

#[test]
fn test_increasing_indent_levels() {
    let tokens = lex("a\n  b\n    c");
    assert_eq!(
        tokens,
        vec![
            Token::Text("a".to_string()),
            Token::NewLine,
            Token::Indent(2),
            Token::Text("b".to_string()),
            Token::NewLine,
            Token::Indent(4),
            Token::Text("c".to_string()),
            Token::EOF,
        ]
    );
}

#[test]
fn test_dedent() {
    let tokens = lex("a\n    b\n  c\nd");
    assert_eq!(
        tokens,
        vec![
            Token::Text("a".to_string()),
            Token::NewLine,
            Token::Indent(4),
            Token::Text("b".to_string()),
            Token::NewLine,
            Token::Indent(2),
            Token::Text("c".to_string()),
            Token::NewLine,
            Token::Text("d".to_string()),
            Token::EOF,
        ]
    );
}
