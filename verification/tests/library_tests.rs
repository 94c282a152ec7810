use from_md::ast::{BlockNode, InlineNode, ListItem};
use from_md::converter::{escape, to_html as render, HTML_HEAD, HTML_TAIL};
use from_md::lexer::{Lexer, Token};
use from_md::parser::Parser;
use from_md::{to_html, try_to_html};

fn lex(input: &str) -> Vec<Token> {
    Lexer::new(input.to_string()).lex()
}

fn parse(src: &str) -> Vec<BlockNode> {
    Parser::new(lex(src)).parse()
}

fn txt(s: &str) -> InlineNode {
    InlineNode::Text(s.to_string())
}

fn is_special(c: char) -> bool {
    "#=*-<>.\n\t`[]()".contains(c)
}

#[test]
fn stream_shape_holds_for_mixed_input() {
    let tokens = lex("# Title\n\n\n  - item *x*\n\t1. [a](b)\n`c`");
    assert_eq!(tokens.last(), Some(&Token::EOF));
    assert_eq!(tokens.iter().filter(|t| **t == Token::EOF).count(), 1);
    for (i, t) in tokens.iter().enumerate() {
        match t {
            Token::Indent(n) => {
                assert!(*n > 0);
                assert!(matches!(tokens[i - 1], Token::NewLine | Token::LineBreak));
            }
            Token::Text(s) => {
                assert!(!s.is_empty());
                assert!(!s.chars().any(is_special));
            }
            Token::NewLine | Token::LineBreak => {
                assert!(!matches!(tokens[i + 1], Token::NewLine | Token::LineBreak));
            }
            _ => {}
        }
    }
}

#[test]
fn line_roundtrip_gives_back_source() {
    let src = "a *b* [c](d \"e\") `f` <br/> #g =h- i.j\tk";
    let tokens = lex(src);
    let back: String = tokens.iter().map(|t| t.to_string()).collect();
    assert_eq!(back, src);
}

#[test]
fn new_token_kinds_are_lexed() {
    assert_eq!(
        lex("`[]()"),
        vec![
            Token::Backtick,
            Token::OpenBracket,
            Token::CloseBracket,
            Token::OpenParen,
            Token::CloseParen,
            Token::EOF
        ]
    );
}

#[test]
fn tab_indent_goes_to_next_stop() {
    assert_eq!(
        lex("a\n  \t \tb"),
        vec![
            Token::Text("a".to_string()),
            Token::NewLine,
            Token::Indent(8),
            Token::Text("b".to_string()),
            Token::EOF
        ]
    );
}

#[test]
fn token_text_of_indent() {
    assert_eq!(Token::Indent(3).to_string(), "   ");
    assert_eq!(Token::EOF.to_string(), "");
    assert_eq!(Token::LineBreak.to_string(), "\n");
}

#[test]
fn heading_levels_stay_within_six() {
    assert_eq!(
        parse("###### six"),
        vec![BlockNode::Heading { level: 6, content: vec![txt("six")] }]
    );
    assert_eq!(
        parse("####### seven"),
        vec![BlockNode::Paragraph(vec![
            txt("#"),
            txt("#"),
            txt("#"),
            txt("#"),
            txt("#"),
            txt("#"),
            txt("#"),
            txt(" seven")
        ])]
    );
}

#[test]
fn empty_item_is_refused() {
    assert!(Parser::new(lex("- ")).try_parse().is_none());
    assert!(Parser::new(lex("1. ")).try_parse().is_none());
    assert!(try_to_html("- ").is_none());
}

#[test]
fn too_many_hashes_are_refused() {
    let src = "#".repeat(256);
    assert!(Parser::new(lex(&src)).try_parse().is_none());
    let src = "#".repeat(255);
    assert!(Parser::new(lex(&src)).try_parse().is_some());
}

#[test]
fn empty_input_is_empty_document() {
    assert_eq!(parse(""), vec![]);
    assert_eq!(Parser::new(vec![]).try_parse(), Some(vec![]));
}

#[test]
fn parse_reads_to_end() {
    let mut p = Parser::new(lex("a\n\n- b\n> c\n```\nd\n```"));
    let doc = p.try_parse().unwrap();
    assert_eq!(doc.len(), 4);
}

#[test]
fn inline_code_and_fallback() {
    assert_eq!(
        parse("x `a*b` y"),
        vec![BlockNode::Paragraph(vec![
            txt("x "),
            InlineNode::Code("a*b".to_string()),
            txt(" y")
        ])]
    );
    assert_eq!(parse("`a"), vec![BlockNode::Paragraph(vec![txt("`"), txt("a")])]);
}

#[test]
fn escape_writes_entities() {
    assert_eq!(escape("a<b&c>"), "a&lt;b&amp;c&gt;");
    assert_eq!(escape("plain"), "plain");
    assert!(!escape("<<>>").contains('<'));
}

#[test]
fn empty_document_is_head_and_tail() {
    assert_eq!(render(vec![]), format!("{}{}", HTML_HEAD, HTML_TAIL));
}

fn body(doc: Vec<BlockNode>) -> String {
    let page = render(doc);
    page[HTML_HEAD.len()..page.len() - HTML_TAIL.len()].to_string()
}

#[test]
fn render_blocks_exactly() {
    assert_eq!(
        body(vec![BlockNode::Heading { level: 2, content: vec![txt("a<b")] }]),
        "<h2>a&lt;b</h2>"
    );
    assert_eq!(
        body(vec![BlockNode::Heading { level: 123, content: vec![] }]),
        "<h123></h123>"
    );
    assert_eq!(
        body(vec![BlockNode::UnorderedList(vec![ListItem(vec![BlockNode::Paragraph(vec![
            txt("x")
        ])])])]),
        "<ul><li><p>x</p></li></ul>"
    );
    assert_eq!(
        body(vec![BlockNode::OrderedList(vec![
            ListItem(vec![]),
            ListItem(vec![BlockNode::BlockQuote(vec![])])
        ])]),
        "<ol><li></li><li><blockquote></blockquote></li></ol>"
    );
    assert_eq!(
        body(vec![BlockNode::CodeBlock { language: Some("rust".to_string()), code: "a<b\n".to_string() }]),
        "<pre><code class=\"language-rust\">a&lt;b\n</code></pre>"
    );
    assert_eq!(
        body(vec![BlockNode::CodeBlock { language: None, code: String::new() }]),
        "<pre><code></code></pre>"
    );
}

#[test]
fn render_inlines_exactly() {
    assert_eq!(
        body(vec![BlockNode::Paragraph(vec![
            InlineNode::Bold(vec![txt("b")]),
            InlineNode::Italics(vec![txt("i")]),
            InlineNode::LineBreak,
            InlineNode::Code("c&".to_string()),
            InlineNode::Link {
                href: "h".to_string(),
                title: Some("t\"".to_string()),
                children: vec![txt("l")]
            },
            InlineNode::Image { src: "s".to_string(), alt: "a".to_string(), title: None },
        ])]),
        "<p><strong>b</strong><em>i</em><br><code>c&amp;</code><a href=\"h\" title=\"t\"\">l</a><img src=\"s\" alt=\"a\"></p>"
    );
}

#[test]
fn markdown_to_page() {
    let page = to_html("# Hi\n\n*x* & y");
    assert_eq!(
        page,
        format!("{}<h1>Hi</h1><p><em>x</em> &amp; y</p>{}", HTML_HEAD, HTML_TAIL)
    );
    assert_eq!(try_to_html("# Hi\n\n*x* & y"), Some(page));
}

#[test]
fn demo_document_converts() {
    let md = r#"
# Title

This is a paragraph with *italic* and **bold** text. However, this is ***another*** one of them.

- Item 1
    - Nested item
        1. First ordered Item
        2. Second ordered item
            1. Nested ordered list
- Item 2
- ## This is another list item but a heading this time
- Wow continuing the list

## New List
1. First ordered item
2. Second ordered item

## A paragraph
hello world 1. is this real
hello world 1. is this real

> # hello world 
>> sdfsd
>  woop
> hello

[hellow **world**](https://github.com/Tsundere-Musume "github")

```rust
    hello world
    new world
```
This is an `inline code` and ``block``.

![A mushroom-head robot drinking bubble tea](https://raw.githubusercontent.com/Codecademy/docs/main/media/codey.jpg)
"#;
    let page = try_to_html(md);
    assert!(page.is_some());
}

fn para(s: &str) -> BlockNode {
    BlockNode::Paragraph(vec![txt(s)])
}

#[test]
fn blank_line_ends_nested_unordered_list() {
    assert_eq!(
        parse("- foo\n  - bar\n\nhello"),
        vec![
            BlockNode::UnorderedList(vec![ListItem(vec![
                para("foo"),
                BlockNode::UnorderedList(vec![ListItem(vec![para("bar")])]),
            ])]),
            para("hello"),
        ]
    );
}

#[test]
fn blank_line_ends_nested_ordered_list() {
    assert_eq!(
        parse("1. foo\n  1. bar\n\nhello"),
        vec![
            BlockNode::OrderedList(vec![ListItem(vec![
                para("foo"),
                BlockNode::OrderedList(vec![ListItem(vec![para("bar")])]),
            ])]),
            para("hello"),
        ]
    );
}

#[test]
fn blank_line_closes_every_open_block() {
    let a = "- foo\n  - bar";
    let b = "hello";
    let mut joined = parse(a);
    joined.extend(parse(b));
    assert_eq!(parse(&format!("{}\n\n{}", a, b)), joined);
}

#[test]
fn no_tab_after_line_end_and_no_adjacent_texts() {
    let tokens = lex("a\n\tb\n\n\t\tc d#e");
    for i in 0..tokens.len() - 1 {
        if matches!(tokens[i], Token::NewLine | Token::LineBreak) {
            assert!(tokens[i + 1] != Token::Tab);
        }
        if matches!(tokens[i], Token::Text(_)) {
            assert!(!matches!(tokens[i + 1], Token::Text(_)));
        }
    }
}

#[test]
fn line_start_counts_columns_with_tab_stops() {
    assert_eq!(
        lex("\n\n\t  x"),
        vec![Token::LineBreak, Token::Indent(6), Token::Text("x".to_string()), Token::EOF]
    );
    assert_eq!(lex("\nx"), vec![Token::NewLine, Token::Text("x".to_string()), Token::EOF]);
}

#[test]
fn multi_line_roundtrip_gives_back_source() {
    let src = "# a\n  - b *c*\n    1. d\ne.f";
    let back: String = lex(src).iter().map(|t| t.to_string()).collect();
    assert_eq!(back, src);
}

#[test]
fn line_end_counts_follow_newline_runs() {
    let tokens = lex("a\nb\n\n\nc\n");
    assert_eq!(tokens.iter().filter(|t| **t == Token::NewLine).count(), 2);
    assert_eq!(tokens.iter().filter(|t| **t == Token::LineBreak).count(), 1);
}

#[test]
fn escaped_text_reads_back() {
    let src = "a<&>b &amp; c";
    let out = escape(src);
    assert_eq!(out, "a&lt;&amp;&gt;b &amp;amp; c");
    let back = out.replace("&lt;", "<").replace("&gt;", ">").replace("&amp;", "&");
    assert_eq!(back, src);
}

#[test]
fn unclosed_star_and_backtick_are_literal() {
    assert_eq!(parse("*a"), vec![BlockNode::Paragraph(vec![txt("*"), txt("a")])]);
    assert_eq!(parse("`a"), vec![BlockNode::Paragraph(vec![txt("`"), txt("a")])]);
    assert_eq!(parse("[a"), vec![BlockNode::Paragraph(vec![txt("["), txt("a")])]);
}

#[test]
fn empty_quote_yields_no_block() {
    assert_eq!(parse(">"), vec![]);
    assert_eq!(parse("> a"), vec![BlockNode::BlockQuote(vec![para("a")])]);
}

#[test]
fn blank_line_after_nested_list_starts_afresh() {
    let a = "- foo\n  - bar";
    let b = "- baz\n- qux";
    let mut joined = parse(a);
    joined.extend(parse(b));
    assert_eq!(parse(&format!("{}\n\n{}", a, b)), joined);
    assert_eq!(
        parse(b),
        vec![BlockNode::UnorderedList(vec![
            ListItem(vec![para("baz")]),
            ListItem(vec![para("qux")]),
        ])]
    );
}

#[test]
fn blank_line_ends_quote_holding_a_list() {
    assert_eq!(
        parse("> - a\n\n> b"),
        vec![
            BlockNode::BlockQuote(vec![BlockNode::UnorderedList(vec![ListItem(vec![para("a")])])]),
            BlockNode::BlockQuote(vec![para("b")]),
        ]
    );
}

#[test]
fn fence_keeps_its_lines_verbatim() {
    assert_eq!(
        parse("```\n# a *b*\n1. c\n```"),
        vec![BlockNode::CodeBlock { language: None, code: "# a *b*\n1. c\n".to_string() }]
    );
}

#[test]
fn quote_line_led_by_a_tab_text_goes_on() {
    let tokens = vec![
        Token::GreaterThan,
        Token::GreaterThan,
        Token::Text("x".to_string()),
        Token::NewLine,
        Token::Text("\t".to_string()),
        Token::GreaterThan,
        Token::Text("y".to_string()),
        Token::EOF,
    ];
    assert_eq!(
        Parser::new(tokens).try_parse(),
        Some(vec![BlockNode::BlockQuote(vec![
            BlockNode::BlockQuote(vec![para("x")]),
            BlockNode::Paragraph(vec![txt("\t"), txt(">"), txt("y")]),
        ])])
    );
}

#[test]
fn unclosed_double_star_and_incomplete_links_are_literal() {
    assert_eq!(
        parse("**text"),
        vec![BlockNode::Paragraph(vec![txt("*"), txt("*"), txt("text")])]
    );
    assert_eq!(
        parse("[a] b"),
        vec![BlockNode::Paragraph(vec![txt("["), txt("a"), txt("]"), txt(" b")])]
    );
    assert_eq!(
        parse("[a](b"),
        vec![BlockNode::Paragraph(vec![txt("["), txt("a"), txt("]"), txt("("), txt("b")])]
    );
}

#[test]
fn fence_source_gives_language_and_body() {
    assert_eq!(
        parse("```rust\nlet x = 1;\n  *y* #z\n```"),
        vec![BlockNode::CodeBlock {
            language: Some("rust".to_string()),
            code: "let x = 1;\n  *y* #z\n".to_string(),
        }]
    );
    assert_eq!(
        parse("```\n```"),
        vec![BlockNode::CodeBlock { language: None, code: String::new() }]
    );
}
