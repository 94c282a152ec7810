use vstd::prelude::*;

use crate::ast::{
    block_view, blocks_view, inlines_view, item_view, items_view, opt_str_view,
    BlockNode, BlockV, InlineNode, InlineV, ListItem,
};
use crate::text::{collect_chars, push_char};

verus! {

/// The page around the rendered document, up to the start of its body.
pub const HTML_HEAD: &'static str = r#"<!DOCTYPE html>
<html lang="en">
<head>
<meta charset="UTF-8">
<meta name="viewport" content="width=device-width, initial-scale=1.0">
<style>
  :root {
    --bg:          #0d1117;
    --surface:     #161b22;
    --border:      #30363d;
    --text:        #e6edf3;
    --text-muted:  #8b949e;
    --accent:      #58a6ff;
    --accent-hover:#79c0ff;
    --code-bg:     #1f2428;
    --quote-bar:   #3d444d;
  }

  * { box-sizing: border-box; margin: 0; padding: 0; }

  body {
    background: var(--bg);
    color: var(--text);
    font-family: -apple-system, BlinkMacSystemFont, "Segoe UI", sans-serif;
    font-size: 16px;
    line-height: 1.7;
    max-width: 780px;
    margin: 0 auto;
    padding: 2rem 1.5rem;
  }

  h1, h2, h3, h4, h5, h6 {
    color: var(--text);
    font-weight: 600;
    line-height: 1.25;
    margin: 1.5rem 0 0.75rem;
    padding-bottom: 0.3rem;
    border-bottom: 1px solid var(--border);
  }
  h1 { font-size: 2rem; }
  h2 { font-size: 1.5rem; }
  h3 { font-size: 1.25rem; }
  h4, h5, h6 { font-size: 1rem; border-bottom: none; }

  p {
    margin: 0.75rem 0;
    color: var(--text);
  }

  strong { color: var(--text); font-weight: 600; }
  em     { color: var(--text-muted); font-style: italic; }

  a {
    color: var(--accent);
    text-decoration: none;
    border-bottom: 1px solid transparent;
    transition: color 0.15s ease, border-color 0.15s ease;
  }
  a:hover {
    color: var(--accent-hover);
    border-bottom-color: var(--accent-hover);
  }
  a:visited {
    color: var(--text-muted);
  }
  a:visited:hover {
    color: var(--accent);
    border-bottom-color: var(--accent);
  }

  /* links inside headings inherit heading size but keep accent color */
  h1 a, h2 a, h3 a, h4 a, h5 a, h6 a {
    color: var(--accent);
    border-bottom: none;
  }

  /* links inside blockquotes are slightly dimmed */
  blockquote a {
    color: var(--text-muted);
  }
  blockquote a:hover {
    color: var(--accent);
  }

  ul, ol {
    margin: 0.75rem 0;
    padding-left: 1.5rem;
  }
  li {
    margin: 0.25rem 0;
    color: var(--text);
  }
  li > ul, li > ol {
    margin: 0.25rem 0;
  }

  blockquote {
    margin: 1rem 0;
    padding: 0.5rem 1rem;
    border-left: 4px solid var(--quote-bar);
    background: var(--surface);
    border-radius: 0 6px 6px 0;
    color: var(--text-muted);
  }
  blockquote blockquote {
    margin-top: 0.5rem;
    border-left-color: var(--accent);
  }

  br { display: block; margin: 0.25rem 0; }
</style>
</head>
<body>
"#;

/// The page after the rendered document.
pub const HTML_TAIL: &'static str = "\n</body>\n</html>";

/// The HTML text of the character `c`: `&`, `<` and `>` become entities.
pub open spec fn escaped_char(c: char) -> Seq<char> {
    if c == '&' {
        "&amp;"@
    } else if c == '<' {
        "&lt;"@
    } else if c == '>' {
        "&gt;"@
    } else {
        seq![c]
    }
}

/// The HTML text of `s`.
pub open spec fn escaped(s: Seq<char>) -> Seq<char>
    decreases s.len(),
{
    if s.len() == 0 {
        seq![]
    } else {
        escaped(s.drop_last()) + escaped_char(s.last())
    }
}

/// The decimal digit `d` (below ten).
pub open spec fn digit_char(d: nat) -> char {
    if d == 0 {
        '0'
    } else if d == 1 {
        '1'
    } else if d == 2 {
        '2'
    } else if d == 3 {
        '3'
    } else if d == 4 {
        '4'
    } else if d == 5 {
        '5'
    } else if d == 6 {
        '6'
    } else if d == 7 {
        '7'
    } else if d == 8 {
        '8'
    } else {
        '9'
    }
}

/// The decimal numeral of `n`.
pub open spec fn decimal(n: nat) -> Seq<char>
    decreases n,
{
    if n < 10 {
        seq![digit_char(n)]
    } else {
        decimal(n / 10) + seq![digit_char(n % 10)]
    }
}

pub open spec fn title_attr(title: Option<Seq<char>>) -> Seq<char> {
    match title {
        Some(t) => " title=\""@ + escaped(t) + "\""@,
        None => seq![],
    }
}

pub open spec fn language_attr(language: Option<Seq<char>>) -> Seq<char> {
    match language {
        Some(l) => " class=\"language-"@ + escaped(l) + "\""@,
        None => seq![],
    }
}

/// The HTML of an inline element.
pub open spec fn inline_html(n: InlineV) -> Seq<char>
    decreases n,
{
    match n {
        InlineV::Text(t) => escaped(t),
        InlineV::Italics(c) => "<em>"@ + inlines_html(c) + "</em>"@,
        InlineV::Bold(c) => "<strong>"@ + inlines_html(c) + "</strong>"@,
        InlineV::LineBreak => "<br>"@,
        InlineV::Link { href, title, children } => "<a href=\""@ + escaped(href) + "\""@ + title_attr(
            title,
        ) + ">"@ + inlines_html(children) + "</a>"@,
        InlineV::Image { src, alt, title } => "<img src=\""@ + escaped(src) + "\" alt=\""@ + escaped(
            alt,
        ) + "\""@ + title_attr(title) + ">"@,
        InlineV::Code(c) => "<code>"@ + escaped(c) + "</code>"@,
    }
}

/// The HTML of a sequence of inline elements.
pub open spec fn inlines_html(s: Seq<InlineV>) -> Seq<char>
    decreases s,
{
    if s.len() == 0 {
        seq![]
    } else {
        inlines_html(s.subrange(0, s.len() - 1)) + inline_html(s[s.len() - 1])
    }
}

/// The HTML of a block.
pub open spec fn block_html(b: BlockV) -> Seq<char>
    decreases b,
{
    match b {
        BlockV::Paragraph(c) => "<p>"@ + inlines_html(c) + "</p>"@,
        BlockV::BlockQuote(bs) => "<blockquote>"@ + blocks_html(bs) + "</blockquote>"@,
        BlockV::OrderedList(items) => "<ol>"@ + items_html(items) + "</ol>"@,
        BlockV::UnorderedList(items) => "<ul>"@ + items_html(items) + "</ul>"@,
        BlockV::Heading { level, content } => "<h"@ + decimal(level as nat) + ">"@ + inlines_html(
            content,
        ) + "</h"@ + decimal(level as nat) + ">"@,
        BlockV::CodeBlock { language, code } => "<pre><code"@ + language_attr(language) + ">"@
            + escaped(code) + "</code></pre>"@,
    }
}

/// The HTML of a sequence of blocks.
pub open spec fn blocks_html(s: Seq<BlockV>) -> Seq<char>
    decreases s,
{
    if s.len() == 0 {
        seq![]
    } else {
        blocks_html(s.subrange(0, s.len() - 1)) + block_html(s[s.len() - 1])
    }
}

/// The HTML of the items of a list, each in `<li>`.
pub open spec fn items_html(s: Seq<Seq<BlockV>>) -> Seq<char>
    decreases s,
{
    if s.len() == 0 {
        seq![]
    } else {
        items_html(s.subrange(0, s.len() - 1)) + "<li>"@ + blocks_html(s[s.len() - 1])
            + "</li>"@
    }
}

/// The whole HTML page of a document.
pub open spec fn page_html(doc: Seq<BlockV>) -> Seq<char> {
    HTML_HEAD@ + blocks_html(doc) + HTML_TAIL@
}

} // verus!

verus! {

/// `text` with `&`, `<` and `>` written as entities.
pub fn escape(text: &str) -> (out: String)
    ensures
        out@ == escaped(text@),
{
    let chars = collect_chars(text);
    let mut out = String::new();
    let mut i: usize = 0;
    while i < chars.len()
        invariant
            chars@ == text@,
            i <= chars.len(),
            out@ == escaped(text@.take(i as int)),
        decreases chars.len() - i,
    {
        let c = chars[i];
        if c == '&' {
            out.append("&amp;");
        } else if c == '<' {
            out.append("&lt;");
        } else if c == '>' {
            out.append("&gt;");
        } else {
            push_char(&mut out, c);
        }
        assert(text@.take(i + 1).drop_last() =~= text@.take(i as int));
        i += 1;
    }
    assert(text@.take(i as int) =~= text@);
    out
}

fn digit(d: u8) -> (c: char)
    requires
        d < 10,
    ensures
        c == digit_char(d as nat),
{
    if d == 0 {
        '0'
    } else if d == 1 {
        '1'
    } else if d == 2 {
        '2'
    } else if d == 3 {
        '3'
    } else if d == 4 {
        '4'
    } else if d == 5 {
        '5'
    } else if d == 6 {
        '6'
    } else if d == 7 {
        '7'
    } else if d == 8 {
        '8'
    } else {
        '9'
    }
}

/// Appends the decimal numeral of `n`.
fn push_decimal(out: &mut String, n: u8)
    ensures
        final(out)@ == old(out)@ + decimal(n as nat),
{
    if n >= 100 {
        push_char(out, digit(n / 100));
        push_char(out, digit(n / 10 % 10));
        push_char(out, digit(n % 10));
        assert(decimal((n / 100) as nat) == seq![digit_char((n / 100) as nat)]);
        assert(decimal((n / 10) as nat) =~= seq![digit_char((n / 100) as nat), digit_char((n / 10 % 10) as nat)]);
    } else if n >= 10 {
        push_char(out, digit(n / 10));
        push_char(out, digit(n % 10));
        assert(decimal((n / 10) as nat) == seq![digit_char((n / 10) as nat)]);
    } else {
        push_char(out, digit(n));
    }
    assert(final(out)@ =~= old(out)@ + decimal(n as nat));
}

/// Appends the ` title="..."` attribute of a link or an image, where it has a title.
fn push_title(out: &mut String, title: &Option<String>)
    ensures
        final(out)@ == old(out)@ + title_attr(opt_str_view(*title)),
{
    match title {
        Some(t) => {
            out.append(" title=\"");
            let e = escape(t.as_str());
            out.append(e.as_str());
            out.append("\"");
        },
        None => {},
    }
}

/// The HTML of a sequence of inline elements.
fn render_inlines(nodes: &Vec<InlineNode>) -> (output: String)
    ensures
        output@ == inlines_html(inlines_view(*nodes)),
    decreases nodes,
{
    let mut output = String::new();
    let ghost v = inlines_view(*nodes);
    let mut i: usize = 0;
    while i < nodes.len()
        invariant
            v == inlines_view(*nodes),
            i <= nodes.len(),
            output@ == inlines_html(v.subrange(0, i as int)),
        decreases nodes.len() - i,
    {
        let ghost before = output@;
        match &nodes[i] {
            InlineNode::Text(text) => {
                let e = escape(text.as_str());
                output.append(e.as_str());
            },
            InlineNode::Italics(children) => {
                proof {
                    assert(decreases_to!(*nodes => nodes@[i as int]));
                }
                output.append("<em>");
                let inner = render_inlines(children);
                output.append(inner.as_str());
                output.append("</em>");
            },
            InlineNode::Bold(children) => {
                proof {
                    assert(decreases_to!(*nodes => nodes@[i as int]));
                }
                output.append("<strong>");
                let inner = render_inlines(children);
                output.append(inner.as_str());
                output.append("</strong>");
            },
            InlineNode::LineBreak => output.append("<br>"),
            InlineNode::Link { href, title, children } => {
                proof {
                    assert(decreases_to!(*nodes => nodes@[i as int]));
                }
                output.append("<a href=\"");
                let e = escape(href.as_str());
                output.append(e.as_str());
                output.append("\"");
                push_title(&mut output, title);
                output.append(">");
                let inner = render_inlines(children);
                output.append(inner.as_str());
                output.append("</a>");
            },
            InlineNode::Image { src, alt, title } => {
                output.append("<img src=\"");
                let e = escape(src.as_str());
                output.append(e.as_str());
                output.append("\" alt=\"");
                let a = escape(alt.as_str());
                output.append(a.as_str());
                output.append("\"");
                push_title(&mut output, title);
                output.append(">");
            },
            InlineNode::Code(code) => {
                output.append("<code>");
                let e = escape(code.as_str());
                output.append(e.as_str());
                output.append("</code>");
            },
        }
        assert(v.subrange(0, i + 1).subrange(0, i as int) =~= v.subrange(0, i as int));
        assert(output@ =~= before + inline_html(v[i as int]));
        i += 1;
    }
    assert(v.subrange(0, i as int) =~= v);
    output
}

} // verus!

verus! {

/// The HTML of a block.
fn render_node(node: &BlockNode) -> (output: String)
    ensures
        output@ == block_html(block_view(*node)),
    decreases node,
{
    match node {
        BlockNode::Paragraph(inline_nodes) => {
            let mut output = String::new();
            output.append("<p>");
            let inner = render_inlines(inline_nodes);
            output.append(inner.as_str());
            output.append("</p>");
            output
        },
        BlockNode::BlockQuote(block_nodes) => {
            let mut output = String::new();
            output.append("<blockquote>");
            let ghost v = blocks_view(*block_nodes);
            let mut i: usize = 0;
            while i < block_nodes.len()
                invariant
                    v == blocks_view(*block_nodes),
                    *node is BlockQuote,
                    (*node)->BlockQuote_0 == *block_nodes,
                    i <= block_nodes.len(),
                    output@ == "<blockquote>"@ + blocks_html(v.subrange(0, i as int)),
                decreases block_nodes.len() - i,
            {
                proof {
                    assert(decreases_to!(*block_nodes => block_nodes@[i as int]));
                    assert(*block_nodes == (*node)->BlockQuote_0);
                    assert(decreases_to!(*node => (*node)->BlockQuote_0));
                    assert(decreases_to!(*node => block_nodes@[i as int]));
                }
                let inner = render_node(&block_nodes[i]);
                output.append(inner.as_str());
                assert(v.subrange(0, i + 1).subrange(0, i as int) =~= v.subrange(0, i as int));
                i += 1;
            }
            assert(v.subrange(0, i as int) =~= v);
            output.append("</blockquote>");
            output
        },
        BlockNode::OrderedList(list_items) => {
            let mut output = String::new();
            output.append("<ol>");
            let inner = render_list_items(list_items);
            output.append(inner.as_str());
            output.append("</ol>");
            output
        },
        BlockNode::UnorderedList(list_items) => {
            let mut output = String::new();
            output.append("<ul>");
            let inner = render_list_items(list_items);
            output.append(inner.as_str());
            output.append("</ul>");
            output
        },
        BlockNode::Heading { level, content } => {
            let mut output = String::new();
            output.append("<h");
            push_decimal(&mut output, *level);
            output.append(">");
            let inner = render_inlines(content);
            output.append(inner.as_str());
            output.append("</h");
            push_decimal(&mut output, *level);
            output.append(">");
            output
        },
        BlockNode::CodeBlock { language, code } => {
            let mut output = String::new();
            output.append("<pre><code");
            match language {
                Some(l) => {
                    output.append(" class=\"language-");
                    let e = escape(l.as_str());
                    output.append(e.as_str());
                    output.append("\"");
                },
                None => {},
            }
            output.append(">");
            let e = escape(code.as_str());
            output.append(e.as_str());
            output.append("</code></pre>");
            output
        },
    }
}

/// The HTML of the items of a list, each in `<li>`.
fn render_list_items(items: &Vec<ListItem>) -> (output: String)
    ensures
        output@ == items_html(items_view(*items)),
    decreases items,
{
    let mut output = String::new();
    let ghost v = items_view(*items);
    let mut i: usize = 0;
    while i < items.len()
        invariant
            v == items_view(*items),
            i <= items.len(),
            output@ == items_html(v.subrange(0, i as int)),
        decreases items.len() - i,
    {
        proof {
            assert(decreases_to!(*items => items@[i as int]));
        }
        output.append("<li>");
        let inner = render_list_item(&items[i]);
        output.append(inner.as_str());
        output.append("</li>");
        assert(v.subrange(0, i + 1).subrange(0, i as int) =~= v.subrange(0, i as int));
        i += 1;
    }
    assert(v.subrange(0, i as int) =~= v);
    output
}

/// The HTML of the blocks of one list item.
fn render_list_item(item: &ListItem) -> (result: String)
    ensures
        result@ == blocks_html(item_view(*item)),
    decreases item,
{
    let mut result = String::new();
    let ghost v = item_view(*item);
    let mut i: usize = 0;
    while i < item.0.len()
        invariant
            v == blocks_view(item.0),
            i <= item.0.len(),
            result@ == blocks_html(v.subrange(0, i as int)),
        decreases item.0.len() - i,
    {
        proof {
            assert(decreases_to!(item.0 => item.0@[i as int]));
        }
        let inner = render_node(&item.0[i]);
        result.append(inner.as_str());
        assert(v.subrange(0, i + 1).subrange(0, i as int) =~= v.subrange(0, i as int));
        i += 1;
    }
    assert(v.subrange(0, i as int) =~= v);
    result
}

/// The HTML page of a document: a fixed head with its style sheet, the HTML of
/// each block in order, and a fixed tail.
pub fn to_html(ast: Vec<BlockNode>) -> (page: String)
    ensures
        page@ == page_html(blocks_view(ast)),
{
    let mut page = String::from_str(HTML_HEAD);
    let ghost v = blocks_view(ast);
    let mut i: usize = 0;
    while i < ast.len()
        invariant
            v == blocks_view(ast),
            i <= ast.len(),
            page@ == HTML_HEAD@ + blocks_html(v.subrange(0, i as int)),
        decreases ast.len() - i,
    {
        let body = render_node(&ast[i]);
        page.append(body.as_str());
        assert(v.subrange(0, i + 1).subrange(0, i as int) =~= v.subrange(0, i as int));
        i += 1;
    }
    assert(v.subrange(0, i as int) =~= v);
    page.append(HTML_TAIL);
    page
}

} // verus!

verus! {

/// Escaped text holds no `<` and no `>`: no text of the document can open or close
/// an HTML tag.
pub proof fn law_escaped_has_no_tags(s: Seq<char>)
    ensures
        forall|i: int| 0 <= i < escaped(s).len() ==> #[trigger] escaped(s)[i] != '<' && escaped(s)[i] != '>',
    decreases s.len(),
{
    reveal_strlit("&amp;");
    reveal_strlit("&lt;");
    reveal_strlit("&gt;");
    if s.len() > 0 {
        law_escaped_has_no_tags(s.drop_last());
        let a = escaped(s.drop_last());
        let b = escaped_char(s.last());
        assert forall|i: int| 0 <= i < escaped(s).len() implies #[trigger] escaped(s)[i] != '<' && escaped(s)[i] != '>' by {
            if i >= a.len() {
                assert(escaped(s)[i] == b[i - a.len()]);
            } else {
                assert(escaped(s)[i] == a[i]);
            }
        }
    }
}

/// Text without `&`, `<` and `>` is written as it is.
pub proof fn law_plain_text_unchanged(s: Seq<char>)
    requires
        forall|i: int| 0 <= i < s.len() ==> #[trigger] s[i] != '&' && s[i] != '<' && s[i] != '>',
    ensures
        escaped(s) == s,
    decreases s.len(),
{
    if s.len() > 0 {
        law_plain_text_unchanged(s.drop_last());
        assert(s =~= s.drop_last().push(s.last()));
    }
}


/// The text whose HTML text is `t`: `&amp;`, `&lt;` and `&gt;` stand for `&`, `<` and `>`.
pub open spec fn unescaped(t: Seq<char>) -> Seq<char>
    decreases t.len(),
{
    if t.len() == 0 {
        seq![]
    } else if t.len() >= 5 && t.take(5) == "&amp;"@ {
        seq!['&'] + unescaped(t.skip(5))
    } else if t.len() >= 4 && t.take(4) == "&lt;"@ {
        seq!['<'] + unescaped(t.skip(4))
    } else if t.len() >= 4 && t.take(4) == "&gt;"@ {
        seq!['>'] + unescaped(t.skip(4))
    } else {
        seq![t[0]] + unescaped(t.drop_first())
    }
}

proof fn lemma_escaped_concat(a: Seq<char>, b: Seq<char>)
    ensures
        escaped(a + b) == escaped(a) + escaped(b),
    decreases b.len(),
{
    if b.len() == 0 {
        assert(a + b =~= a);
        assert(escaped(a) + escaped(b) =~= escaped(a));
    } else {
        lemma_escaped_concat(a, b.drop_last());
        assert((a + b).drop_last() =~= a + b.drop_last());
        assert(escaped(a) + escaped(b) =~= escaped(a) + escaped(b.drop_last()) + escaped_char(
            b.last(),
        ));
    }
}

#[verifier::spinoff_prover]
#[verifier::rlimit(30)]
proof fn lemma_unescaped_char(c: char, rest: Seq<char>)
    ensures
        unescaped(escaped_char(c) + rest) == seq![c] + unescaped(rest),
{
    reveal_strlit("&amp;");
    reveal_strlit("&lt;");
    reveal_strlit("&gt;");
    let t = escaped_char(c) + rest;
    if c == '&' {
        assert(t.take(5) =~= "&amp;"@);
        assert(t.skip(5) =~= rest);
    } else if c == '<' {
        assert(t[1] == 'l');
        if t.len() >= 5 {
            assert(t.take(5)[1] != "&amp;"@[1]);
        }
        assert(t.take(4) =~= "&lt;"@);
        assert(t.skip(4) =~= rest);
    } else if c == '>' {
        assert(t[1] == 'g');
        if t.len() >= 5 {
            assert(t.take(5)[1] != "&amp;"@[1]);
        }
        assert(t.take(4)[1] != "&lt;"@[1]);
        assert(t.take(4) =~= "&gt;"@);
        assert(t.skip(4) =~= rest);
    } else {
        assert(t[0] == c);
        if t.len() >= 5 {
            assert(t.take(5)[0] != "&amp;"@[0]);
        }
        if t.len() >= 4 {
            assert(t.take(4)[0] != "&lt;"@[0]);
            assert(t.take(4)[0] != "&gt;"@[0]);
        }
        assert(t.drop_first() =~= rest);
    }
}

/// Escaping loses nothing: reading the entities back gives the text that was escaped.
#[verifier::spinoff_prover]
#[verifier::rlimit(30)]
pub proof fn law_unescape_escaped(s: Seq<char>)
    ensures
        unescaped(escaped(s)) == s,
    decreases s.len(),
{
    if s.len() > 0 {
        let c = s[0];
        let r = s.drop_first();
        assert(s =~= seq![c] + r);
        lemma_escaped_concat(seq![c], r);
        assert(escaped(seq![c]) =~= escaped_char(c)) by {
            assert(seq![c].drop_last() =~= Seq::<char>::empty());
            assert(escaped(seq![c].drop_last()) == Seq::<char>::empty());
            assert(seq![c].last() == c);
        }
        lemma_unescaped_char(c, escaped(r));
        law_unescape_escaped(r);
        assert(seq![c] + r == s);
    }
}

} // verus!
