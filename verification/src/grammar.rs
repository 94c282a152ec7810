//! The meaning of the parser, as functions on a mathematical parser state.
//!
//! Each function takes the state at the call and gives `None` where the parser
//! cannot return (it would panic, or a loop would make no progress), or the state
//! after the call together with what the call yields.
use vstd::prelude::*;

use crate::ast::{BlockV, InlineV};
use crate::lexer::{
    body_tokens, fence_source, info_tokens, is_ascii_alnum, lemma_fence_tokens, no_blank_lines,
    spec_lex, tab_free_indents, token_text, tokens_text, TokenV,
};
use crate::text::{
    all_blank, all_digits, all_spaces, ends_with, find_char, is_br, is_white_space, repeat_char, starts_with,
    strip_both, strip_end, trim, trim_start,
};

verus! {

/// The state of a parser: its tokens, its cursor and the indentation of the current line.
pub struct PState {
    pub toks: Seq<TokenV>,
    pub pos: nat,
    pub indent: nat,
}

/// What a parsing step gives: nothing where the parser cannot return, else the
/// state after the step and what it yields.
pub type Res<X> = Option<(PState, X)>;

/// Where an inline run stops (besides a line end or the end of input).
#[derive(Clone, Copy)]
pub enum Stop {
    /// At `]`.
    Bracket,
    /// At `*`.
    Star,
    /// At `**`.
    DoubleStar,
}

/// The number of tokens from the cursor to the end.
pub open spec fn rem(s: PState) -> nat {
    if s.pos <= s.toks.len() {
        (s.toks.len() - s.pos) as nat
    } else {
        0
    }
}

pub open spec fn peek(s: PState) -> TokenV {
    if s.pos < s.toks.len() {
        s.toks[s.pos as int]
    } else {
        TokenV::EOF
    }
}

pub open spec fn peek_next(s: PState) -> TokenV {
    if s.pos + 1 < s.toks.len() {
        s.toks[s.pos + 1int]
    } else {
        TokenV::EOF
    }
}

pub open spec fn at_end(s: PState) -> bool {
    s.pos >= s.toks.len() || s.toks[s.pos as int] is EOF
}

/// The cursor moves past the current token (it never moves past the end).
pub open spec fn consume(s: PState) -> PState {
    if s.pos < s.toks.len() {
        PState { pos: s.pos + 1, ..s }
    } else {
        s
    }
}

pub open spec fn with_pos(s: PState, p: nat) -> PState {
    PState { pos: p, ..s }
}

pub open spec fn with_indent(s: PState, n: nat) -> PState {
    PState { indent: n, ..s }
}

/// The token at the cursor becomes the text `t`.
pub open spec fn with_text(s: PState, t: Seq<char>) -> PState {
    if s.pos < s.toks.len() {
        PState { toks: s.toks.update(s.pos as int, TokenV::Text(t)), ..s }
    } else {
        s
    }
}

pub open spec fn is_spaced_text(t: TokenV) -> bool {
    t is Text && starts_with(t->Text_0, ' ')
}

pub open spec fn stop_at(stop: Stop, a: TokenV, b: TokenV) -> bool {
    match stop {
        Stop::Bracket => a is CloseBracket,
        Stop::Star => a is Star,
        Stop::DoubleStar => a is Star && b is Star,
    }
}

/// The number of `` ` `` tokens from position `p` on.
pub open spec fn count_backticks(toks: Seq<TokenV>, p: int) -> nat
    decreases toks.len() - p,
{
    if 0 <= p < toks.len() && toks[p] is Backtick {
        1 + count_backticks(toks, p + 1)
    } else {
        0
    }
}

/// The number of `>` tokens from position `p` on, over texts of spaces and tabs.
pub open spec fn count_gt(toks: Seq<TokenV>, p: int) -> nat
    decreases toks.len() - p,
{
    if 0 <= p < toks.len() {
        match toks[p] {
            TokenV::GreaterThan => 1 + count_gt(toks, p + 1),
            TokenV::Text(t) => if all_blank(t) {
                count_gt(toks, p + 1)
            } else {
                0
            },
            _ => 0,
        }
    } else {
        0
    }
}

/// Steps over `n` backticks; where one is missing the cursor goes back to `start`.
pub open spec fn consume_backticks_from(s: PState, n: nat, start: nat) -> (PState, bool)
    decreases n,
{
    if n == 0 {
        (s, true)
    } else if !(peek(s) is Backtick) {
        (with_pos(s, start), false)
    } else {
        consume_backticks_from(consume(s), (n - 1) as nat, start)
    }
}

pub open spec fn consume_backticks(s: PState, n: nat) -> (PState, bool) {
    consume_backticks_from(s, n, s.pos)
}

/// Steps over `left` more `>` tokens and the texts of spaces among them.
pub open spec fn consume_gts(s: PState, left: nat) -> PState
    decreases rem(s),
{
    if left == 0 {
        s
    } else {
        match peek(s) {
            TokenV::GreaterThan => consume_gts(consume(s), (left - 1) as nat),
            TokenV::Text(t) => if all_spaces(t) {
                consume_gts(consume(s), left)
            } else {
                s
            },
            _ => s,
        }
    }
}

/// Steps over indentation tokens.
pub open spec fn skip_indents(s: PState) -> PState
    decreases rem(s),
{
    if peek(s) is Indent {
        skip_indents(consume(s))
    } else {
        s
    }
}

/// Steps to the next `NewLine` or the end.
pub open spec fn skip_line(s: PState) -> PState
    decreases rem(s),
{
    if peek(s) is NewLine || peek(s) is EOF {
        s
    } else {
        skip_line(consume(s))
    }
}

/// Counts the `#` tokens at the cursor and steps over them.
pub open spec fn count_hashes(s: PState, count: nat) -> (PState, nat)
    decreases rem(s),
{
    if peek(s) is Hash {
        count_hashes(consume(s), count + 1)
    } else {
        (s, count)
    }
}

/// Does a block start at the cursor?
pub open spec fn starts_block(s: PState) -> bool {
    match peek(s) {
        TokenV::Hash | TokenV::Dash | TokenV::GreaterThan | TokenV::LineBreak | TokenV::EOF
        | TokenV::Backtick => true,
        TokenV::Text(c) => all_digits(c) && peek_next(s) is Period,
        _ => false,
    }
}

/// The text token at the cursor loses its leading white space; if nothing is
/// left, the cursor steps over it.
pub open spec fn trim_marker_text(s: PState) -> PState {
    match peek(s) {
        TokenV::Text(c) => {
            let t = trim_start(c);
            let s1 = with_text(s, t);
            if t.len() == 0 {
                consume(s1)
            } else {
                s1
            }
        },
        _ => s,
    }
}

/// As `trim_marker_text`, for a text that starts with a space; the cursor must be on a token.
pub open spec fn trim_quote_text(s: PState) -> Option<PState> {
    if s.pos >= s.toks.len() {
        None
    } else {
        match s.toks[s.pos as int] {
            TokenV::Text(c) => if starts_with(c, ' ') {
                Some(trim_marker_text(s))
            } else {
                Some(s)
            },
            _ => Some(s),
        }
    }
}

/// `<br>`, `<br/>` and their spellings in other cases, else a literal `<`.
pub open spec fn parse_linebreak(s: PState) -> Res<Option<InlineV>> {
    let s1 = consume(s);
    let br = match peek(s1) {
        TokenV::Text(tag) => is_br(trim(strip_end(trim(tag), '/'))) && peek_next(s1) is GreaterThan,
        _ => false,
    };
    if br {
        Some((consume(consume(s1)), Some(InlineV::LineBreak)))
    } else {
        Some((s1, Some(InlineV::Text(seq!['<']))))
    }
}

/// The text of a code span up to its closing run of `count` backticks, if the line has one.
pub open spec fn code_span(s: PState, count: nat, code: Seq<char>) -> Option<(PState, Seq<char>)>
    decreases rem(s),
{
    match peek(s) {
        TokenV::EOF | TokenV::NewLine | TokenV::LineBreak => None,
        TokenV::Backtick if count_backticks(s.toks, s.pos as int) == count => Some(
            (consume_backticks(s, count).0, code),
        ),
        t => code_span(consume(s), count, code + token_text(t)),
    }
}

/// An inline code span, or a literal backtick where it is not closed on its line.
pub open spec fn parse_inline_code(s: PState) -> Res<Option<InlineV>> {
    let start = s.pos;
    let count = count_backticks(s.toks, s.pos as int);
    let s1 = consume_backticks(s, count).0;
    match code_span(s1, count, seq![]) {
        Some((s2, code)) => Some((s2, Some(InlineV::Code(code)))),
        None => Some((consume(with_pos(s1, start)), Some(InlineV::Text(seq!['`'])))),
    }
}

/// The target of a link: the text up to `)` or a line end, where a space ends the
/// address and may start a title in double quotes.
pub open spec fn link_target(s: PState, href: Seq<char>, title: Option<Seq<char>>) -> (
    PState,
    Seq<char>,
    Option<Seq<char>>,
)
    decreases rem(s),
{
    if at_end(s) || peek(s) is CloseParen || peek(s) is NewLine || peek(s) is LineBreak {
        (s, href, title)
    } else {
        match peek(s) {
            TokenV::Text(t) => match find_char(t, ' ') {
                Some(i) => {
                    let rest = trim(t.skip(i + 1int));
                    let title1 = if starts_with(rest, '"') && ends_with(rest, '"') {
                        Some(strip_both(rest, '"'))
                    } else {
                        title
                    };
                    (consume(s), href + t.take(i as int), title1)
                },
                None => link_target(consume(s), href + t, title),
            },
            TokenV::Period | TokenV::Dash | TokenV::Hash => link_target(
                consume(s),
                href + token_text(peek(s)),
                title,
            ),
            _ => link_target(consume(s), href, title),
        }
    }
}

/// One inline element at the cursor.
pub open spec fn parse_inline(s: PState) -> Res<Option<InlineV>>
    decreases rem(s), 2nat,
{
    match peek(s) {
        TokenV::Text(c) => Some((consume(s), Some(InlineV::Text(c)))),
        TokenV::Hash | TokenV::Equals | TokenV::GreaterThan | TokenV::Dash | TokenV::Period
        | TokenV::Tab => Some((consume(s), Some(InlineV::Text(token_text(peek(s)))))),
        TokenV::LessThan => parse_linebreak(s),
        TokenV::Star => parse_star(s),
        TokenV::NewLine => Some((s, Some(InlineV::Text(seq!['\n'])))),
        TokenV::Backtick => parse_inline_code(s),
        TokenV::EOF => Some((s, None)),
        TokenV::Indent(n) => Some((consume(s), Some(InlineV::Text(repeat_char(' ', n))))),
        TokenV::LineBreak => Some((consume(s), Some(InlineV::LineBreak))),
        TokenV::OpenBracket => parse_link(s),
        TokenV::CloseBracket | TokenV::OpenParen | TokenV::CloseParen => Some(
            (consume(s), Some(InlineV::Text(token_text(peek(s))))),
        ),
    }
}

/// Emphasis: `*...*` is italics, `**...**` bold, an unclosed star a literal `*`.
pub open spec fn parse_star(s: PState) -> Res<Option<InlineV>>
    decreases rem(s), 1nat,
{
    let start = s.pos;
    let s1 = consume(s);
    let bold = peek(s1) is Star;
    let s2 = if bold {
        consume(s1)
    } else {
        s1
    };
    if rem(s2) < rem(s) {
        match parse_inline_until(
            s2,
            if bold {
                Stop::DoubleStar
            } else {
                Stop::Star
            },
        ) {
            None => None,
            Some((s3, content)) => {
                let closed = if bold {
                    peek(s3) is Star && peek_next(s3) is Star
                } else {
                    peek(s3) is Star
                };
                if !closed {
                    Some((consume(with_pos(s3, start)), Some(InlineV::Text(seq!['*']))))
                } else {
                    let s4 = consume(s3);
                    if bold {
                        Some((consume(s4), Some(InlineV::Bold(content))))
                    } else {
                        Some((s4, Some(InlineV::Italics(content))))
                    }
                }
            },
        }
    } else {
        None
    }
}

/// A link `[children](href "title")`, or a literal `[` where it is not complete.
pub open spec fn parse_link(s: PState) -> Res<Option<InlineV>>
    decreases rem(s), 1nat,
{
    let start = s.pos;
    let s1 = consume(s);
    if rem(s1) < rem(s) {
        match parse_inline_until(s1, Stop::Bracket) {
            None => None,
            Some((s2, children)) => {
                if !(peek(s2) is CloseBracket) {
                    Some((consume(with_pos(s2, start)), Some(InlineV::Text(seq!['[']))))
                } else {
                    let s3 = consume(s2);
                    if !(peek(s3) is OpenParen) {
                        Some((consume(with_pos(s3, start)), Some(InlineV::Text(seq!['[']))))
                    } else {
                        let s4 = consume(s3);
                        let (s5, href, title) = link_target(s4, seq![], None);
                        if !(peek(s5) is CloseParen) {
                            Some((consume(with_pos(s5, start)), Some(InlineV::Text(seq!['[']))))
                        } else {
                            Some(
                                (
                                    consume(s5),
                                    Some(InlineV::Link { href, title, children }),
                                ),
                            )
                        }
                    }
                }
            },
        }
    } else {
        None
    }
}

/// Inline elements up to a line end, the end of input, or the stop.
pub open spec fn parse_inline_until(s: PState, stop: Stop) -> Res<Seq<InlineV>>
    decreases rem(s), 4nat,
{
    inline_until_from(s, stop, seq![])
}

pub open spec fn inline_until_from(s: PState, stop: Stop, nodes: Seq<InlineV>) -> Res<Seq<InlineV>>
    decreases rem(s), 3nat,
{
    if at_end(s) || peek(s) is NewLine || stop_at(stop, peek(s), peek_next(s)) {
        Some((s, nodes))
    } else {
        match parse_inline(s) {
            None => None,
            Some((s1, n)) => {
                let nodes1 = match n {
                    Some(n) => nodes.push(n),
                    None => nodes,
                };
                if rem(s1) < rem(s) {
                    inline_until_from(s1, stop, nodes1)
                } else {
                    None
                }
            },
        }
    }
}

/// Inline elements up to a line end or the end of input.
pub open spec fn parse_inline_until_newline(s: PState) -> Res<Seq<InlineV>> {
    inline_line_from(s, seq![])
}

pub open spec fn inline_line_from(s: PState, out: Seq<InlineV>) -> Res<Seq<InlineV>>
    decreases rem(s),
{
    if at_end(s) || peek(s) is NewLine || peek(s) is LineBreak {
        Some((s, out))
    } else {
        match parse_inline(s) {
            None => None,
            Some((s1, n)) => match n {
                None => None,
                Some(n) => if rem(s1) < rem(s) {
                    inline_line_from(s1, out.push(n))
                } else {
                    None
                },
            },
        }
    }
}

/// A paragraph: lines of inline elements, until a line starts a block.
pub open spec fn parse_paragraph(s: PState) -> Res<BlockV> {
    match paragraph_from(s, seq![]) {
        None => None,
        Some((s1, r)) => Some((s1, BlockV::Paragraph(r))),
    }
}

pub open spec fn paragraph_from(s: PState, acc: Seq<InlineV>) -> Res<Seq<InlineV>>
    decreases rem(s),
{
    match parse_inline_until_newline(s) {
        None => None,
        Some((s1, r)) => {
            let acc1 = acc + r;
            if at_end(s1) || !(peek(s1) is NewLine) {
                Some((s1, acc1))
            } else {
                let s3 = skip_indents(consume(s1));
                if starts_block(s3) {
                    Some((s1, acc1))
                } else if rem(s3) < rem(s) {
                    paragraph_from(s3, acc1)
                } else {
                    None
                }
            }
        },
    }
}

/// A paragraph, as a parsed block.
pub open spec fn paragraph_block(s: PState) -> Res<Option<BlockV>> {
    match parse_paragraph(s) {
        None => None,
        Some((s1, p)) => Some((s1, Some(p))),
    }
}

/// A heading `# ...` (one to six `#` and a space), else a paragraph.
pub open spec fn parse_hash(s: PState) -> Res<Option<BlockV>> {
    let (s1, count) = count_hashes(s, 0);
    if count > 255 {
        None
    } else {
        let heading = match peek(s1) {
            TokenV::Text(c) => (starts_with(c, ' ') || starts_with(c, '\t')) && count < 7,
            _ => false,
        };
        if heading {
            let s2 = with_text(s1, trim_start(peek(s1)->Text_0));
            match parse_inline_until_newline(s2) {
                None => None,
                Some((s3, content)) => Some(
                    (s3, Some(BlockV::Heading { level: count as u8, content })),
                ),
            }
        } else {
            paragraph_block(with_pos(s1, s.pos))
        }
    }
}

/// The code of a fenced block up to a closing fence of at least `opening` backticks.
pub open spec fn fence_body(s: PState, opening: nat, code: Seq<char>) -> Option<(PState, Seq<char>)>
    decreases rem(s),
{
    match peek(s) {
        TokenV::EOF => None,
        TokenV::Backtick if count_backticks(s.toks, s.pos as int) >= opening => Some(
            (skip_line(consume_backticks(s, opening).0), code),
        ),
        t => fence_body(consume(s), opening, code + token_text(t)),
    }
}

/// A fenced code block (three or more backticks), else a paragraph.
pub open spec fn parse_backtick(s: PState) -> Res<Option<BlockV>> {
    let start = s.pos;
    let opening = count_backticks(s.toks, s.pos as int);
    if opening < 3 {
        paragraph_block(s)
    } else {
        let s1 = consume_backticks(s, opening).0;
        let (s2, language) = match peek(s1) {
            TokenV::Text(t) => (consume(s1), Some(trim(t))),
            _ => (s1, None),
        };
        let s3 = skip_line(s2);
        if !(peek(s3) is NewLine) {
            paragraph_block(with_pos(s3, start))
        } else {
            let s4 = consume(s3);
            match fence_body(s4, opening, seq![]) {
                None => paragraph_block(with_pos(s4, start)),
                Some((s5, code)) => Some((s5, Some(BlockV::CodeBlock { language, code }))),
            }
        }
    }
}

/// After a list item: the state, and whether the list goes on. A blank line
/// ends the list and is left where it is, so that it also ends every item and
/// block around the list; the document loop then steps over it and starts the
/// next line at the left margin.
pub open spec fn list_next(s: PState, il: nat) -> (PState, bool) {
    match peek(s) {
        TokenV::NewLine => match peek_next(s) {
            TokenV::Indent(n) => if n == il {
                (consume(consume(s)), true)
            } else if il == 0 {
                (consume(s), true)
            } else {
                (s, false)
            },
            _ => if il == 0 {
                (consume(s), true)
            } else {
                (s, false)
            },
        },
        _ => (s, false),
    }
}

/// The lines of a paragraph inside a block quote of the given depth.
pub open spec fn quote_paragraph(s: PState, depth: nat) -> Res<Seq<InlineV>> {
    match parse_inline_until_newline(s) {
        None => None,
        Some((s1, inline)) => quote_lines_from(s1, depth, inline),
    }
}

pub open spec fn quote_lines_from(s: PState, depth: nat, inline: Seq<InlineV>) -> Res<Seq<InlineV>>
    decreases rem(s),
{
    if !(peek(s) is NewLine) {
        Some((s, inline))
    } else {
        let s1 = consume(s);
        if count_gt(s1.toks, s1.pos as int) != depth {
            Some((s1, inline))
        } else {
            let saved = s1.pos;
            let s2 = consume_gts(consume(s1), depth);
            match trim_quote_text(s2) {
                None => None,
                Some(s3) => if starts_block(s3) {
                    Some((with_pos(s3, saved), inline))
                } else {
                    match parse_inline_until_newline(s3) {
                        None => None,
                        Some((s4, more)) => if rem(s4) < rem(s) {
                            quote_lines_from(s4, depth, inline + more)
                        } else {
                            None
                        },
                    }
                },
            }
        }
    }
}

/// The measure by which nested block quotes at one cursor position terminate.
pub open spec fn quote_measure(s: PState, depth: nat, at: bool) -> nat {
    let g = count_gt(s.toks, s.pos as int);
    let d: nat = if g >= depth {
        (2 * (g - depth)) as nat
    } else {
        0
    };
    if at {
        d + 1
    } else {
        d
    }
}

/// One block at the cursor, or nothing where the cursor is on a line end,
/// an indentation or the end.
pub open spec fn parse_block(s: PState) -> Res<Option<BlockV>>
    decreases rem(s), 6nat, 0nat,
{
    match peek(s) {
        TokenV::Hash => parse_hash(s),
        TokenV::Dash => parse_unordered_list(s),
        TokenV::Star | TokenV::LessThan => paragraph_block(s),
        TokenV::GreaterThan => parse_blockquote(s),
        TokenV::OpenBracket => paragraph_block(s),
        TokenV::Backtick => parse_backtick(s),
        TokenV::Text(c) => if all_digits(c) && peek_next(s) is Period {
            parse_ordered_list(s)
        } else {
            paragraph_block(s)
        },
        TokenV::NewLine | TokenV::LineBreak => Some((consume(with_indent(s, 0)), None)),
        TokenV::Indent(n) => Some((consume(with_indent(s, n)), None)),
        TokenV::Equals | TokenV::Tab | TokenV::Period => paragraph_block(s),
        TokenV::EOF => Some((s, None)),
        TokenV::CloseBracket | TokenV::OpenParen | TokenV::CloseParen => paragraph_block(s),
    }
}

pub open spec fn parse_blockquote(s: PState) -> Res<Option<BlockV>>
    decreases rem(s), 5nat, 0nat,
{
    parse_blockquote_at(s, 1)
}

/// A block quote of the given depth: its lines start with that many `>`.
pub open spec fn parse_blockquote_at(s: PState, depth: nat) -> Res<Option<BlockV>>
    decreases rem(s), 4nat, quote_measure(s, depth, true),
{
    match quote_from(s, depth, seq![]) {
        None => None,
        Some((s1, blocks)) => Some(
            (
                s1,
                if blocks.len() == 0 {
                    None
                } else {
                    Some(BlockV::BlockQuote(blocks))
                },
            ),
        ),
    }
}

pub open spec fn quote_from(s: PState, depth: nat, blocks: Seq<BlockV>) -> Res<Seq<BlockV>>
    decreases rem(s), 4nat, quote_measure(s, depth, false),
{
    let g = count_gt(s.toks, s.pos as int);
    if g < depth {
        Some((s, blocks))
    } else if g > depth {
        match parse_blockquote_at(s, depth + 1) {
            None => None,
            Some((s1, inner)) => {
                let blocks1 = match inner {
                    Some(b) => blocks.push(b),
                    None => blocks,
                };
                if rem(s1) < rem(s) {
                    quote_from(s1, depth, blocks1)
                } else {
                    None
                }
            },
        }
    } else {
        let s1 = consume_gts(s, depth);
        match trim_quote_text(s1) {
            None => None,
            Some(s2) => {
                if peek(s2) is EOF || peek(s2) is LineBreak {
                    Some((s2, blocks))
                } else {
                    let step: Res<Seq<BlockV>> = if starts_block(s2) {
                        if rem(s2) >= rem(s) {
                            None
                        } else {
                            match parse_block(s2) {
                            None => None,
                            Some((s3, b)) => Some(
                                (
                                    s3,
                                    match b {
                                        Some(b) => blocks.push(b),
                                        None => blocks,
                                    },
                                ),
                            ),
                            }
                        }
                    } else {
                        match quote_paragraph(s2, depth) {
                            None => None,
                            Some((s3, inline)) => Some(
                                (
                                    s3,
                                    if inline.len() > 0 {
                                        blocks.push(BlockV::Paragraph(inline))
                                    } else {
                                        blocks
                                    },
                                ),
                            ),
                        }
                    };
                    match step {
                        None => None,
                        Some((s3, blocks1)) => {
                            let s4 = if peek(s3) is NewLine {
                                consume(s3)
                            } else {
                                s3
                            };
                            if rem(s4) < rem(s) {
                                quote_from(s4, depth, blocks1)
                            } else {
                                None
                            }
                        },
                    }
                }
            },
        }
    }
}

/// A bulleted list, where the dash is followed by a space; else a paragraph.
pub open spec fn parse_unordered_list(s: PState) -> Res<Option<BlockV>>
    decreases rem(s), 5nat, 0nat,
{
    let current_indent = s.indent;
    if !is_spaced_text(peek_next(s)) {
        paragraph_block(s)
    } else {
        parse_unordered_list_at(s, current_indent)
    }
}

pub open spec fn parse_unordered_list_at(s: PState, il: nat) -> Res<Option<BlockV>>
    decreases rem(s), 4nat, 0nat,
{
    let ci = s.indent;
    match unordered_items_from(s, il, ci, seq![]) {
        None => None,
        Some((s1, items)) => Some(
            (
                s1,
                if items.len() == 0 {
                    None
                } else {
                    Some(BlockV::UnorderedList(items))
                },
            ),
        ),
    }
}

pub open spec fn unordered_items_from(s: PState, il: nat, ci: nat, items: Seq<Seq<BlockV>>) -> Res<
    Seq<Seq<BlockV>>,
>
    decreases rem(s), 3nat, 0nat,
{
    let start = s.pos;
    if !(peek(s) is Dash) {
        Some((s, items))
    } else {
        let s1 = consume(s);
        if !is_spaced_text(peek(s1)) {
            Some((with_pos(s1, start), items))
        } else {
            let s2 = trim_marker_text(s1);
            if rem(s2) < rem(s) {
                match parse_list_item(s2, ci) {
                    None => None,
                    Some((s3, it)) => match it {
                        None => None,
                        Some(item) => {
                            let items1 = items.push(item);
                            let (s4, more) = list_next(s3, il);
                            if !more {
                                Some((s4, items1))
                            } else if rem(s4) < rem(s) {
                                unordered_items_from(s4, il, ci, items1)
                            } else {
                                None
                            }
                        },
                    },
                }
            } else {
                None
            }
        }
    }
}

/// A numbered list, where `N.` is followed by a space; else a paragraph.
pub open spec fn parse_ordered_list(s: PState) -> Res<Option<BlockV>>
    decreases rem(s), 5nat, 0nat,
{
    let start = s.pos;
    let current_indent = s.indent;
    let s1 = consume(s);
    if !is_spaced_text(peek_next(s1)) {
        paragraph_block(with_pos(s1, start))
    } else {
        parse_ordered_list_at(with_pos(s1, start), current_indent)
    }
}

pub open spec fn parse_ordered_list_at(s: PState, il: nat) -> Res<Option<BlockV>>
    decreases rem(s), 4nat, 0nat,
{
    let ci = s.indent;
    match ordered_items_from(s, il, ci, seq![]) {
        None => None,
        Some((s1, items)) => Some(
            (
                s1,
                if items.len() == 0 {
                    None
                } else {
                    Some(BlockV::OrderedList(items))
                },
            ),
        ),
    }
}

pub open spec fn ordered_items_from(s: PState, il: nat, ci: nat, items: Seq<Seq<BlockV>>) -> Res<
    Seq<Seq<BlockV>>,
>
    decreases rem(s), 3nat, 0nat,
{
    let start = s.pos;
    let marker = match peek(s) {
        TokenV::Text(c) => all_digits(c),
        _ => false,
    } && peek_next(s) is Period;
    if !marker {
        Some((s, items))
    } else {
        let s1 = consume(consume(s));
        if !is_spaced_text(peek(s1)) {
            Some((with_pos(s1, start), items))
        } else {
            let s2 = trim_marker_text(s1);
            if rem(s2) < rem(s) {
                match parse_list_item(s2, ci) {
                    None => None,
                    Some((s3, it)) => match it {
                        None => None,
                        Some(item) => {
                            let items1 = items.push(item);
                            let (s4, more) = list_next(s3, il);
                            if !more {
                                Some((s4, items1))
                            } else if rem(s4) < rem(s) {
                                ordered_items_from(s4, il, ci, items1)
                            } else {
                                None
                            }
                        },
                    },
                }
            } else {
                None
            }
        }
    }
}

/// A list item: the blocks of its first line, then of each line indented deeper
/// than `il`. An item with an empty first line is nothing.
pub open spec fn parse_list_item(s: PState, il: nat) -> Res<Option<Seq<BlockV>>>
    decreases rem(s), 9nat, 0nat,
{
    match parse_until_newline(s) {
        None => None,
        Some((s1, first)) => if first.len() == 0 {
            Some((s1, None))
        } else if rem(s1) <= rem(s) {
            match item_lines_from(s1, il, first) {
                None => None,
                Some((s2, blocks)) => Some((s2, Some(blocks))),
            }
        } else {
            None
        },
    }
}

pub open spec fn item_lines_from(s: PState, il: nat, blocks: Seq<BlockV>) -> Res<Seq<BlockV>>
    decreases rem(s), 7nat, 0nat,
{
    if !(peek(s) is NewLine) {
        Some((s, blocks))
    } else {
        let s0 = with_indent(s, 0);
        match peek_next(s0) {
            TokenV::Indent(n) if n > il => {
                let s1 = consume(consume(with_indent(s0, n)));
                if peek(s1) is EOF || peek(s1) is LineBreak {
                    Some((s1, blocks))
                } else if rem(s1) < rem(s) {
                    match parse_until_newline(s1) {
                        None => None,
                        Some((s2, bs)) => if rem(s2) < rem(s) {
                            item_lines_from(s2, il, blocks + bs)
                        } else {
                            None
                        },
                    }
                } else {
                    None
                }
            },
            _ => Some((s0, blocks)),
        }
    }
}

/// Blocks up to a line end or the end of input; every step must yield a block.
pub open spec fn parse_until_newline(s: PState) -> Res<Seq<BlockV>>
    decreases rem(s), 8nat, 0nat,
{
    blocks_line_from(s, seq![])
}

pub open spec fn blocks_line_from(s: PState, out: Seq<BlockV>) -> Res<Seq<BlockV>>
    decreases rem(s), 7nat, 0nat,
{
    if at_end(s) || peek(s) is NewLine || peek(s) is LineBreak {
        Some((s, out))
    } else {
        match parse_block(s) {
            None => None,
            Some((s1, b)) => match b {
                None => None,
                Some(b) => if rem(s1) < rem(s) {
                    blocks_line_from(s1, out.push(b))
                } else {
                    None
                },
            },
        }
    }
}

/// The blocks of the whole input from the cursor on.
pub open spec fn parse_from(s: PState, acc: Seq<BlockV>) -> Res<Seq<BlockV>>
    decreases rem(s),
{
    if at_end(s) {
        Some((s, acc))
    } else {
        match parse_block(s) {
            None => None,
            Some((s1, b)) => {
                let acc1 = match b {
                    Some(b) => acc.push(b),
                    None => acc,
                };
                if rem(s1) < rem(s) {
                    parse_from(s1, acc1)
                } else {
                    None
                }
            },
        }
    }
}

/// The state of a new parser over `toks`.
pub open spec fn initial(toks: Seq<TokenV>) -> PState {
    PState { toks, pos: 0, indent: 0 }
}

/// The document that the tokens `toks` parse to, if the parser returns on them.
pub open spec fn parse_tokens(toks: Seq<TokenV>) -> Option<Seq<BlockV>> {
    match parse_from(initial(toks), seq![]) {
        Some((_, blocks)) => Some(blocks),
        None => None,
    }
}

} // verus!

verus! {

/// The parser reads its whole input: where it returns, its cursor is at the end
/// of the tokens (past the last one or on `EOF`).
pub proof fn law_parse_reads_to_end(s: PState, acc: Seq<BlockV>)
    ensures
        parse_from(s, acc) matches Some((s1, _)) ==> at_end(s1),
    decreases rem(s),
{
    if !at_end(s) {
        if let Some((s1, b)) = parse_block(s) {
            let acc1 = match b {
                Some(b) => acc.push(b),
                None => acc,
            };
            if rem(s1) < rem(s) {
                law_parse_reads_to_end(s1, acc1);
            }
        }
    }
}

} // verus!

verus! {

/// A block as the parser builds it: a heading has a level from one to six; a
/// list has at least one item and each item at least one block; a block quote
/// holds at least one block; and so for the blocks inside.
pub open spec fn wf_block(b: BlockV) -> bool
    decreases b,
{
    match b {
        BlockV::Heading { level, content } => 1 <= level <= 6,
        BlockV::Paragraph(_) => true,
        BlockV::BlockQuote(bs) => bs.len() > 0 && forall|i: int|
            0 <= i < bs.len() ==> wf_block(#[trigger] bs[i]),
        BlockV::OrderedList(items) => items.len() > 0 && forall|i: int|
            0 <= i < items.len() ==> (#[trigger] items[i]).len() > 0 && forall|j: int|
                0 <= j < items[i].len() ==> wf_block(#[trigger] items[i][j]),
        BlockV::UnorderedList(items) => items.len() > 0 && forall|i: int|
            0 <= i < items.len() ==> (#[trigger] items[i]).len() > 0 && forall|j: int|
                0 <= j < items[i].len() ==> wf_block(#[trigger] items[i][j]),
        BlockV::CodeBlock { language, code } => true,
    }
}

pub open spec fn wf_blocks(bs: Seq<BlockV>) -> bool {
    forall|i: int| 0 <= i < bs.len() ==> wf_block(#[trigger] bs[i])
}

pub open spec fn wf_items(items: Seq<Seq<BlockV>>) -> bool {
    forall|i: int|
        0 <= i < items.len() ==> (#[trigger] items[i]).len() > 0 && wf_blocks(items[i])
}

} // verus!

verus! {

pub open spec fn wf_opt_block(b: Option<BlockV>) -> bool {
    match b {
        Some(b) => wf_block(b),
        None => true,
    }
}

proof fn lemma_wf_push(bs: Seq<BlockV>, b: BlockV)
    requires
        wf_blocks(bs),
        wf_block(b),
    ensures
        wf_blocks(bs.push(b)),
{
    assert forall|i: int| 0 <= i < bs.push(b).len() implies wf_block(#[trigger] bs.push(b)[i]) by {
        if i < bs.len() {
            assert(bs.push(b)[i] == bs[i]);
        }
    }
}

proof fn lemma_wf_concat(a: Seq<BlockV>, b: Seq<BlockV>)
    requires
        wf_blocks(a),
        wf_blocks(b),
    ensures
        wf_blocks(a + b),
{
    assert forall|i: int| 0 <= i < (a + b).len() implies wf_block(#[trigger] (a + b)[i]) by {
        if i < a.len() {
            assert((a + b)[i] == a[i]);
        } else {
            assert((a + b)[i] == b[i - a.len()]);
        }
    }
}

proof fn lemma_hash_wf(s: PState)
    requires
        peek(s) is Hash,
    ensures
        parse_hash(s) matches Some((_, b)) ==> wf_opt_block(b),
{
    lemma_count_hashes_from(consume(s), 1);
}

/// Counting hashes never lowers the count it started from.
pub proof fn lemma_count_hashes_from(s: PState, count: nat)
    ensures
        count_hashes(s, count).1 >= count,
    decreases rem(s),
{
    if peek(s) is Hash {
        lemma_count_hashes_from(consume(s), count + 1);
    }
}

proof fn lemma_block_wf(s: PState)
    ensures
        parse_block(s) matches Some((_, b)) ==> wf_opt_block(b),
    decreases rem(s), 6nat, 0nat,
{
    match peek(s) {
        TokenV::Hash => lemma_hash_wf(s),
        TokenV::Dash => lemma_unordered_wf(s),
        TokenV::GreaterThan => lemma_blockquote_at_wf(s, 1),
        TokenV::Text(c) => if all_digits(c) && peek_next(s) is Period {
            lemma_ordered_wf(s);
        },
        _ => {},
    }
}

proof fn lemma_unordered_wf(s: PState)
    ensures
        parse_unordered_list(s) matches Some((_, b)) ==> wf_opt_block(b),
    decreases rem(s), 5nat, 0nat,
{
    if is_spaced_text(peek_next(s)) {
        lemma_unordered_items_wf(s, s.indent, s.indent, seq![]);
    }
}

proof fn lemma_ordered_wf(s: PState)
    ensures
        parse_ordered_list(s) matches Some((_, b)) ==> wf_opt_block(b),
    decreases rem(s), 5nat, 0nat,
{
    let s0 = with_pos(consume(s), s.pos);
    if is_spaced_text(peek_next(consume(s))) {
        lemma_ordered_items_wf(s0, s.indent, s0.indent, seq![]);
    }
}

proof fn lemma_unordered_items_wf(s: PState, il: nat, ci: nat, items: Seq<Seq<BlockV>>)
    requires
        wf_items(items),
    ensures
        unordered_items_from(s, il, ci, items) matches Some((_, r)) ==> wf_items(r),
    decreases rem(s), 3nat, 0nat,
{
    if peek(s) is Dash {
        let s1 = consume(s);
        if is_spaced_text(peek(s1)) {
            let s2 = trim_marker_text(s1);
            if rem(s2) < rem(s) {
                lemma_list_item_wf(s2, ci);
                if let Some((s3, Some(item))) = parse_list_item(s2, ci) {
                    let items1 = items.push(item);
                    assert(wf_items(items1)) by {
                        assert forall|i: int| 0 <= i < items1.len() implies (#[trigger] items1[i]).len()
                            > 0 && wf_blocks(items1[i]) by {
                            if i < items.len() {
                                assert(items1[i] == items[i]);
                            }
                        }
                    }
                    let (s4, more) = list_next(s3, il);
                    if more && rem(s4) < rem(s) {
                        lemma_unordered_items_wf(s4, il, ci, items1);
                    }
                }
            }
        }
    }
}

proof fn lemma_ordered_items_wf(s: PState, il: nat, ci: nat, items: Seq<Seq<BlockV>>)
    requires
        wf_items(items),
    ensures
        ordered_items_from(s, il, ci, items) matches Some((_, r)) ==> wf_items(r),
    decreases rem(s), 3nat, 0nat,
{
    let marker = match peek(s) {
        TokenV::Text(c) => all_digits(c),
        _ => false,
    } && peek_next(s) is Period;
    if marker {
        let s1 = consume(consume(s));
        if is_spaced_text(peek(s1)) {
            let s2 = trim_marker_text(s1);
            if rem(s2) < rem(s) {
                lemma_list_item_wf(s2, ci);
                if let Some((s3, Some(item))) = parse_list_item(s2, ci) {
                    let items1 = items.push(item);
                    assert(wf_items(items1)) by {
                        assert forall|i: int| 0 <= i < items1.len() implies (#[trigger] items1[i]).len()
                            > 0 && wf_blocks(items1[i]) by {
                            if i < items.len() {
                                assert(items1[i] == items[i]);
                            }
                        }
                    }
                    let (s4, more) = list_next(s3, il);
                    if more && rem(s4) < rem(s) {
                        lemma_ordered_items_wf(s4, il, ci, items1);
                    }
                }
            }
        }
    }
}

proof fn lemma_list_item_wf(s: PState, il: nat)
    ensures
        parse_list_item(s, il) matches Some((_, Some(blocks))) ==> blocks.len() > 0 && wf_blocks(
            blocks,
        ),
    decreases rem(s), 9nat, 0nat,
{
    lemma_blocks_line_wf(s, seq![]);
    if let Some((s1, first)) = parse_until_newline(s) {
        if first.len() > 0 && rem(s1) <= rem(s) {
            lemma_item_lines_wf(s1, il, first);
        }
    }
}

proof fn lemma_item_lines_wf(s: PState, il: nat, blocks: Seq<BlockV>)
    requires
        blocks.len() > 0,
        wf_blocks(blocks),
    ensures
        item_lines_from(s, il, blocks) matches Some((_, r)) ==> r.len() > 0 && wf_blocks(r),
    decreases rem(s), 7nat, 0nat,
{
    if peek(s) is NewLine {
        let s0 = with_indent(s, 0);
        if let TokenV::Indent(n) = peek_next(s0) {
            if n > il {
                let s1 = consume(consume(with_indent(s0, n)));
                if !(peek(s1) is EOF || peek(s1) is LineBreak) && rem(s1) < rem(s) {
                    lemma_blocks_line_wf(s1, seq![]);
                    if let Some((s2, bs)) = parse_until_newline(s1) {
                        if rem(s2) < rem(s) {
                            lemma_wf_concat(blocks, bs);
                            lemma_item_lines_wf(s2, il, blocks + bs);
                        }
                    }
                }
            }
        }
    }
}

proof fn lemma_blocks_line_wf(s: PState, out: Seq<BlockV>)
    requires
        wf_blocks(out),
    ensures
        blocks_line_from(s, out) matches Some((_, r)) ==> wf_blocks(r),
    decreases rem(s), 7nat, 0nat,
{
    if !(at_end(s) || peek(s) is NewLine || peek(s) is LineBreak) {
        lemma_block_wf(s);
        if let Some((s1, Some(b))) = parse_block(s) {
            if rem(s1) < rem(s) {
                lemma_wf_push(out, b);
                lemma_blocks_line_wf(s1, out.push(b));
            }
        }
    }
}

proof fn lemma_blockquote_at_wf(s: PState, depth: nat)
    ensures
        parse_blockquote_at(s, depth) matches Some((_, b)) ==> wf_opt_block(b),
    decreases rem(s), 4nat, quote_measure(s, depth, true),
{
    lemma_quote_from_wf(s, depth, seq![]);
}

proof fn lemma_quote_from_wf(s: PState, depth: nat, blocks: Seq<BlockV>)
    requires
        wf_blocks(blocks),
    ensures
        quote_from(s, depth, blocks) matches Some((_, r)) ==> wf_blocks(r),
    decreases rem(s), 4nat, quote_measure(s, depth, false),
{
    let g = count_gt(s.toks, s.pos as int);
    if g > depth {
        lemma_blockquote_at_wf(s, depth + 1);
        if let Some((s1, inner)) = parse_blockquote_at(s, depth + 1) {
            let blocks1 = match inner {
                Some(b) => blocks.push(b),
                None => blocks,
            };
            if let Some(b) = inner {
                lemma_wf_push(blocks, b);
            }
            if rem(s1) < rem(s) {
                lemma_quote_from_wf(s1, depth, blocks1);
            }
        }
    } else if g == depth {
        let s1 = consume_gts(s, depth);
        if let Some(s2) = trim_quote_text(s1) {
            if !(peek(s2) is EOF || peek(s2) is LineBreak) {
                if starts_block(s2) && rem(s2) < rem(s) {
                    lemma_block_wf(s2);
                    if let Some((s3, b)) = parse_block(s2) {
                        let blocks1 = match b {
                            Some(b) => blocks.push(b),
                            None => blocks,
                        };
                        if let Some(b) = b {
                            lemma_wf_push(blocks, b);
                        }
                        let s4 = if peek(s3) is NewLine {
                            consume(s3)
                        } else {
                            s3
                        };
                        if rem(s4) < rem(s) {
                            lemma_quote_from_wf(s4, depth, blocks1);
                        }
                    }
                } else if !starts_block(s2) {
                    if let Some((s3, inline)) = quote_paragraph(s2, depth) {
                        let blocks1 = if inline.len() > 0 {
                            blocks.push(BlockV::Paragraph(inline))
                        } else {
                            blocks
                        };
                        if inline.len() > 0 {
                            lemma_wf_push(blocks, BlockV::Paragraph(inline));
                        }
                        let s4 = if peek(s3) is NewLine {
                            consume(s3)
                        } else {
                            s3
                        };
                        if rem(s4) < rem(s) {
                            lemma_quote_from_wf(s4, depth, blocks1);
                        }
                    }
                }
            }
        }
    }
}

proof fn lemma_parse_from_wf(s: PState, acc: Seq<BlockV>)
    requires
        wf_blocks(acc),
    ensures
        parse_from(s, acc) matches Some((_, r)) ==> wf_blocks(r),
    decreases rem(s),
{
    if !at_end(s) {
        lemma_block_wf(s);
        if let Some((s1, b)) = parse_block(s) {
            let acc1 = match b {
                Some(b) => acc.push(b),
                None => acc,
            };
            if let Some(b) = b {
                lemma_wf_push(acc, b);
            }
            if rem(s1) < rem(s) {
                lemma_parse_from_wf(s1, acc1);
            }
        }
    }
}

/// Every document the parser builds is well formed (`wf_block`): each heading has a
/// level from one to six, each list and each list item, and each block quote,
/// holds something, down to the innermost block.
pub proof fn law_documents_well_formed(toks: Seq<TokenV>)
    ensures
        parse_tokens(toks) matches Some(doc) ==> wf_blocks(doc),
{
    lemma_parse_from_wf(initial(toks), seq![]);
}

} // verus!

verus! {

/// The state `b` has the tokens and the indentation of `a`: only the cursor differs.
pub open spec fn same_tokens(a: PState, b: PState) -> bool {
    a.toks == b.toks && a.indent == b.indent
}

proof fn lemma_consume_backticks_keeps(s: PState, n: nat, start: nat)
    ensures
        same_tokens(s, consume_backticks_from(s, n, start).0),
        start <= s.pos ==> start <= consume_backticks_from(s, n, start).0.pos,
    decreases n,
{
    if n > 0 && peek(s) is Backtick {
        lemma_consume_backticks_keeps(consume(s), (n - 1) as nat, start);
    }
}

proof fn lemma_code_span_keeps(s: PState, count: nat, code: Seq<char>)
    ensures
        code_span(s, count, code) matches Some((s1, _)) ==> same_tokens(s, s1),
    decreases rem(s),
{
    match peek(s) {
        TokenV::EOF | TokenV::NewLine | TokenV::LineBreak => {},
        TokenV::Backtick if count_backticks(s.toks, s.pos as int) == count => {
            lemma_consume_backticks_keeps(s, count, s.pos);
        },
        t => {
            if s.pos < s.toks.len() {
                lemma_code_span_keeps(consume(s), count, code + token_text(t));
            }
        },
    }
}

proof fn lemma_link_target_keeps(s: PState, href: Seq<char>, title: Option<Seq<char>>)
    ensures
        same_tokens(s, link_target(s, href, title).0),
    decreases rem(s),
{
    if !(at_end(s) || peek(s) is CloseParen || peek(s) is NewLine || peek(s) is LineBreak) {
        match peek(s) {
            TokenV::Text(t) => match find_char(t, ' ') {
                Some(i) => {},
                None => lemma_link_target_keeps(consume(s), href + t, title),
            },
            TokenV::Period | TokenV::Dash | TokenV::Hash => lemma_link_target_keeps(
                consume(s),
                href + token_text(peek(s)),
                title,
            ),
            _ => lemma_link_target_keeps(consume(s), href, title),
        }
    }
}

proof fn lemma_inline_keeps(s: PState)
    ensures
        parse_inline(s) matches Some((s1, _)) ==> same_tokens(s, s1),
    decreases rem(s), 2nat,
{
    match peek(s) {
        TokenV::Star => lemma_star_keeps(s),
        TokenV::OpenBracket => lemma_link_keeps(s),
        TokenV::Backtick => {
            let count = count_backticks(s.toks, s.pos as int);
            lemma_consume_backticks_keeps(s, count, s.pos);
            let s1 = consume_backticks(s, count).0;
            lemma_code_span_keeps(s1, count, seq![]);
        },
        _ => {},
    }
}

proof fn lemma_star_keeps(s: PState)
    ensures
        parse_star(s) matches Some((s1, _)) ==> same_tokens(s, s1),
    decreases rem(s), 1nat,
{
    let s1 = consume(s);
    let bold = peek(s1) is Star;
    let s2 = if bold {
        consume(s1)
    } else {
        s1
    };
    if rem(s2) < rem(s) {
        let stop = if bold {
            Stop::DoubleStar
        } else {
            Stop::Star
        };
        lemma_inline_until_keeps(s2, stop, seq![]);
    }
}

proof fn lemma_link_keeps(s: PState)
    ensures
        parse_link(s) matches Some((s1, _)) ==> same_tokens(s, s1),
    decreases rem(s), 1nat,
{
    let s1 = consume(s);
    if rem(s1) < rem(s) {
        lemma_inline_until_keeps(s1, Stop::Bracket, seq![]);
        if let Some((s2, children)) = parse_inline_until(s1, Stop::Bracket) {
            let s4 = consume(consume(s2));
            lemma_link_target_keeps(s4, seq![], None);
        }
    }
}

proof fn lemma_inline_until_keeps(s: PState, stop: Stop, nodes: Seq<InlineV>)
    ensures
        inline_until_from(s, stop, nodes) matches Some((s1, _)) ==> same_tokens(s, s1),
    decreases rem(s), 3nat,
{
    if !(at_end(s) || peek(s) is NewLine || stop_at(stop, peek(s), peek_next(s))) {
        lemma_inline_keeps(s);
        if let Some((s1, n)) = parse_inline(s) {
            let nodes1 = match n {
                Some(n) => nodes.push(n),
                None => nodes,
            };
            if rem(s1) < rem(s) {
                lemma_inline_until_keeps(s1, stop, nodes1);
            }
        }
    }
}

/// Where the text of a link opened at `s` ends: the state after scanning its
/// inline elements up to `]`, a line end or the end of input.
pub open spec fn link_text_end(s: PState) -> Option<PState> {
    match parse_inline_until(consume(s), Stop::Bracket) {
        Some((s2, _)) => Some(s2),
        None => None,
    }
}

/// A link whose text ends at `s2` is complete: the text stops at `]`, `(`
/// follows directly, and the target stops at `)` (not at a line end or the end).
pub open spec fn link_complete(s2: PState) -> bool {
    &&& peek(s2) is CloseBracket
    &&& peek(consume(s2)) is OpenParen
    &&& peek(link_target(consume(consume(s2)), seq![], None).0) is CloseParen
}

/// An unfinished link is a literal `[`: the link rule yields a link exactly
/// where the link is complete, and otherwise the text `[` with the cursor one
/// token on.
pub proof fn law_unclosed_link_is_literal(s: PState)
    requires
        peek(s) is OpenBracket,
    ensures
        parse_link(s) matches Some((s1, Some(n))) ==> link_text_end(s) matches Some(s2) && (
        n is Link <==> link_complete(s2)) && (!link_complete(s2) ==> n == InlineV::Text(
            seq!['['],
        ) && s1 == consume(s)),
{
    lemma_link_keeps(s);
    let s1 = consume(s);
    if rem(s1) < rem(s) {
        lemma_inline_until_keeps(s1, Stop::Bracket, seq![]);
        if let Some((s2, children)) = parse_inline_until(s1, Stop::Bracket) {
            assert(with_pos(s2, s.pos) == s);
            let s3 = consume(s2);
            assert(with_pos(s3, s.pos) == s);
            let s4 = consume(s3);
            lemma_link_target_keeps(s4, seq![], None);
            let s5 = link_target(s4, seq![], None).0;
            assert(with_pos(s5, s.pos) == s);
        }
    }
}

/// Where the emphasis opened at `s` ends: the state after scanning its inline
/// elements up to its closing star (or star pair), a line end or the end of input.
pub open spec fn emphasis_end(s: PState) -> Option<PState> {
    let s1 = consume(s);
    let bold = peek(s1) is Star;
    let s2 = if bold {
        consume(s1)
    } else {
        s1
    };
    let stop = if bold {
        Stop::DoubleStar
    } else {
        Stop::Star
    };
    match parse_inline_until(s2, stop) {
        Some((s3, _)) => Some(s3),
        None => None,
    }
}

/// The emphasis opened at `s` and scanned up to `s3` is closed there: by a star
/// pair for bold (`**`), by a star for italics.
pub open spec fn emphasis_closed(s: PState, s3: PState) -> bool {
    if peek(consume(s)) is Star {
        peek(s3) is Star && peek_next(s3) is Star
    } else {
        peek(s3) is Star
    }
}

/// An unclosed star is a literal `*`: the emphasis rule yields bold or italics
/// exactly where the emphasis is closed on its line, and otherwise the text `*`
/// with the cursor one token on.
pub proof fn law_unclosed_star_is_literal(s: PState)
    requires
        peek(s) is Star,
    ensures
        parse_star(s) matches Some((s1, Some(n))) ==> emphasis_end(s) matches Some(s3) && ((
        n is Bold || n is Italics) <==> emphasis_closed(s, s3)) && (!emphasis_closed(s, s3) ==> n
            == InlineV::Text(seq!['*']) && s1 == consume(s)),
{
    let s1 = consume(s);
    let bold = peek(s1) is Star;
    let s2 = if bold {
        consume(s1)
    } else {
        s1
    };
    if rem(s2) < rem(s) {
        let stop = if bold {
            Stop::DoubleStar
        } else {
            Stop::Star
        };
        lemma_inline_until_keeps(s2, stop, seq![]);
        if let Some((s3, content)) = parse_inline_until(s2, stop) {
            assert(with_pos(s3, s.pos) == s);
        }
    }
}

/// An unclosed code span is a literal backtick: where the code rule does not
/// yield code, it yields the text `` ` `` and the cursor stands one token on.
pub proof fn law_unclosed_code_is_literal(s: PState)
    requires
        peek(s) is Backtick,
    ensures
        parse_inline_code(s) matches Some((s1, Some(n))) ==> n is Code || (n == InlineV::Text(
            seq!['`'],
        ) && s1 == consume(s)),
{
    let count = count_backticks(s.toks, s.pos as int);
    lemma_consume_backticks_keeps(s, count, s.pos);
    let s1 = consume_backticks(s, count).0;
    assert(with_pos(s1, s.pos) == s);
}

/// The block quote rule never yields an empty quote: it yields a quote that holds
/// at least one block, or nothing.
pub proof fn law_blockquote_never_empty(s: PState, depth: nat)
    ensures
        parse_blockquote_at(s, depth) matches Some((_, Some(b))) ==> b matches BlockV::BlockQuote(
            bs,
        ) && bs.len() > 0,
{
}


proof fn lemma_unordered_items_grow(s: PState, il: nat, ci: nat, items: Seq<Seq<BlockV>>)
    ensures
        unordered_items_from(s, il, ci, items) matches Some((_, r)) ==> r.len() >= items.len(),
    decreases rem(s),
{
    if peek(s) is Dash {
        let s1 = consume(s);
        if is_spaced_text(peek(s1)) {
            let s2 = trim_marker_text(s1);
            if rem(s2) < rem(s) {
                if let Some((s3, Some(item))) = parse_list_item(s2, ci) {
                    let (s4, more) = list_next(s3, il);
                    if more && rem(s4) < rem(s) {
                        lemma_unordered_items_grow(s4, il, ci, items.push(item));
                    }
                }
            }
        }
    }
}

proof fn lemma_ordered_items_grow(s: PState, il: nat, ci: nat, items: Seq<Seq<BlockV>>)
    ensures
        ordered_items_from(s, il, ci, items) matches Some((_, r)) ==> r.len() >= items.len(),
    decreases rem(s),
{
    let marker = match peek(s) {
        TokenV::Text(c) => all_digits(c),
        _ => false,
    } && peek_next(s) is Period;
    if marker {
        let s1 = consume(consume(s));
        if is_spaced_text(peek(s1)) {
            let s2 = trim_marker_text(s1);
            if rem(s2) < rem(s) {
                if let Some((s3, Some(item))) = parse_list_item(s2, ci) {
                    let (s4, more) = list_next(s3, il);
                    if more && rem(s4) < rem(s) {
                        lemma_ordered_items_grow(s4, il, ci, items.push(item));
                    }
                }
            }
        }
    }
}

/// One step of the document loop: a line end resets the indentation, an
/// indentation sets it, each stepping one token on and yielding nothing; at the
/// end nothing moves; every other token starts a block, and only a block quote
/// (whose lines may hold nothing) can yield no block there.
#[verifier::spinoff_prover]
#[verifier::rlimit(30)]
pub proof fn law_block_step(s: PState)
    ensures
        peek(s) is NewLine || peek(s) is LineBreak ==> parse_block(s) == Some(
            (consume(with_indent(s, 0)), None::<BlockV>),
        ),
        peek(s) matches TokenV::Indent(n) ==> parse_block(s) == Some(
            (consume(with_indent(s, n)), None::<BlockV>),
        ),
        peek(s) is EOF ==> parse_block(s) == Some((s, None::<BlockV>)),
        parse_block(s) matches Some((_, None)) ==> peek(s) is NewLine || peek(s) is LineBreak
            || peek(s) is Indent || peek(s) is EOF || peek(s) is GreaterThan,
{
    match peek(s) {
        TokenV::Dash => {
            if is_spaced_text(peek_next(s)) {
                let s1 = consume(s);
                assert(peek(s1) == peek_next(s));
                let s2 = trim_marker_text(s1);
                if rem(s2) < rem(s) {
                    if let Some((s3, Some(item))) = parse_list_item(s2, s.indent) {
                        let (s4, more) = list_next(s3, s.indent);
                        if more && rem(s4) < rem(s) {
                            lemma_unordered_items_grow(s4, s.indent, s.indent, seq![item]);
                        }
                    }
                }
            }
        },
        TokenV::Text(c) => {
            if all_digits(c) && peek_next(s) is Period {
                let s0 = consume(s);
                if is_spaced_text(peek_next(s0)) {
                    assert(with_pos(s0, s.pos) == s);
                    let s1 = consume(consume(s));
                    assert(peek(s1) == peek_next(s0));
                    let s2 = trim_marker_text(s1);
                    if rem(s2) < rem(s) {
                        if let Some((s3, Some(item))) = parse_list_item(s2, s.indent) {
                            let (s4, more) = list_next(s3, s.indent);
                            if more && rem(s4) < rem(s) {
                                lemma_ordered_items_grow(s4, s.indent, s.indent, seq![item]);
                            }
                        }
                    }
                }
            }
        },
        _ => {},
    }
}


proof fn lemma_skip_line_keeps(s: PState)
    ensures
        same_tokens(s, skip_line(s)),
        s.pos <= skip_line(s).pos,
    decreases rem(s),
{
    if !(peek(s) is NewLine || peek(s) is EOF) {
        lemma_skip_line_keeps(consume(s));
    }
}

#[verifier::spinoff_prover]
#[verifier::rlimit(30)]
proof fn lemma_fence_body_verbatim(s: PState, opening: nat, code: Seq<char>)
    requires
        s.pos <= s.toks.len(),
    ensures
        fence_body(s, opening, code) matches Some((_, c)) ==> exists|e: int|
            s.pos <= e <= s.toks.len() && c == code + tokens_text(s.toks.subrange(s.pos as int, e))
                && count_backticks(s.toks, e) >= opening,
    decreases rem(s),
{
    let p = s.pos as int;
    match peek(s) {
        TokenV::EOF => {},
        TokenV::Backtick if count_backticks(s.toks, p) >= opening => {
            assert(s.toks.subrange(p, p) =~= Seq::<TokenV>::empty());
            assert(tokens_text(Seq::<TokenV>::empty()) == Seq::<char>::empty());
            assert(code + tokens_text(s.toks.subrange(p, p)) =~= code);
        },
        t => {
            let s1 = consume(s);
            lemma_fence_body_verbatim(s1, opening, code + token_text(t));
            if let Some((_, c)) = fence_body(s1, opening, code + token_text(t)) {
                let e = choose|e: int|
                    s1.pos <= e <= s1.toks.len() && c == code + token_text(t) + tokens_text(
                        s1.toks.subrange(s1.pos as int, e),
                    ) && count_backticks(s1.toks, e) >= opening;
                let whole = s.toks.subrange(p, e);
                assert(whole.drop_first() =~= s.toks.subrange(p + 1, e));
                assert(whole[0] == t);
                assert(c == code + tokens_text(whole));
            }
        },
    }
}

/// A fenced code block keeps its lines verbatim: its code is the source text of
/// the tokens from the line after the opening fence up to a closing fence at
/// least as long as the opening one; nothing inside is parsed.
#[verifier::spinoff_prover]
#[verifier::rlimit(30)]
pub proof fn law_fence_verbatim(s: PState)
    requires
        s.pos <= s.toks.len(),
    ensures
        parse_backtick(s) matches Some((_, Some(BlockV::CodeBlock { language, code }))) ==> exists|
            a: int,
            e: int,
        |
            s.pos < a <= e <= s.toks.len() && s.toks[a - 1] is NewLine && code == tokens_text(
                s.toks.subrange(a, e),
            ) && count_backticks(s.toks, e) >= count_backticks(s.toks, s.pos as int),
{
    let start = s.pos;
    let opening = count_backticks(s.toks, s.pos as int);
    if opening >= 3 {
        lemma_consume_backticks_keeps(s, opening, s.pos);
        let s1 = consume_backticks(s, opening).0;
        let (s2, language) = match peek(s1) {
            TokenV::Text(t) => (consume(s1), Some(trim(t))),
            _ => (s1, None),
        };
        lemma_skip_line_keeps(s2);
        let s3 = skip_line(s2);
        if peek(s3) is NewLine {
            let s4 = consume(s3);
            lemma_fence_body_verbatim(s4, opening, seq![]);
            if let Some((s5, code)) = fence_body(s4, opening, seq![]) {
                let e = choose|e: int|
                    s4.pos <= e <= s4.toks.len() && code == seq![] + tokens_text(
                        s4.toks.subrange(s4.pos as int, e),
                    ) && count_backticks(s4.toks, e) >= opening;
                assert(seq![] + tokens_text(s4.toks.subrange(s4.pos as int, e)) =~= tokens_text(
                    s4.toks.subrange(s4.pos as int, e),
                ));
                assert(s.toks[s4.pos - 1] is NewLine);
                let a = s4.pos as int;
                assert(s.pos < a <= e <= s.toks.len() && s.toks[a - 1] is NewLine && code
                    == tokens_text(s.toks.subrange(a, e)) && count_backticks(s.toks, e)
                    >= opening);
            }
        }
    }
}


/// The cursor moved no further back: the tokens left at `b` are no more than at `a`.
pub open spec fn no_back(a: PState, b: PState) -> bool {
    rem(b) <= rem(a)
}

proof fn lemma_consume_backticks_exact(s: PState, n: nat, start: nat)
    requires
        count_backticks(s.toks, s.pos as int) >= n,
    ensures
        consume_backticks_from(s, n, start) == (with_pos(s, s.pos + n), true),
    decreases n,
{
    if n == 0 {
        assert(with_pos(s, s.pos + n) == s);
    } else {
        assert(s.toks[s.pos as int] is Backtick);
        lemma_consume_backticks_exact(consume(s), (n - 1) as nat, start);
    }
}

proof fn lemma_code_span_le(s: PState, count: nat, code: Seq<char>)
    ensures
        code_span(s, count, code) matches Some((s1, _)) ==> s.pos <= s1.pos,
    decreases rem(s),
{
    match peek(s) {
        TokenV::EOF | TokenV::NewLine | TokenV::LineBreak => {},
        TokenV::Backtick if count_backticks(s.toks, s.pos as int) == count => {
            lemma_consume_backticks_keeps(s, count, s.pos);
        },
        t => {
            if s.pos < s.toks.len() {
                lemma_code_span_le(consume(s), count, code + token_text(t));
            }
        },
    }
}

proof fn lemma_link_target_le(s: PState, href: Seq<char>, title: Option<Seq<char>>)
    ensures
        s.pos <= link_target(s, href, title).0.pos,
    decreases rem(s),
{
    if !(at_end(s) || peek(s) is CloseParen || peek(s) is NewLine || peek(s) is LineBreak) {
        match peek(s) {
            TokenV::Text(t) => match find_char(t, ' ') {
                Some(i) => {},
                None => lemma_link_target_le(consume(s), href + t, title),
            },
            TokenV::Period | TokenV::Dash | TokenV::Hash => lemma_link_target_le(
                consume(s),
                href + token_text(peek(s)),
                title,
            ),
            _ => lemma_link_target_le(consume(s), href, title),
        }
    }
}

proof fn lemma_inline_until_le(s: PState, stop: Stop, nodes: Seq<InlineV>)
    ensures
        inline_until_from(s, stop, nodes) matches Some((s1, _)) ==> no_back(s, s1),
    decreases rem(s),
{
    if !(at_end(s) || peek(s) is NewLine || stop_at(stop, peek(s), peek_next(s))) {
        if let Some((s1, n)) = parse_inline(s) {
            let nodes1 = match n {
                Some(n) => nodes.push(n),
                None => nodes,
            };
            if rem(s1) < rem(s) {
                lemma_inline_until_le(s1, stop, nodes1);
            }
        }
    }
}

proof fn lemma_inline_line_le(s: PState, out: Seq<InlineV>)
    ensures
        inline_line_from(s, out) matches Some((s1, _)) ==> no_back(s, s1) && (!(at_end(s)
            || peek(s) is NewLine || peek(s) is LineBreak) ==> rem(s1) < rem(s)),
    decreases rem(s),
{
    if !(at_end(s) || peek(s) is NewLine || peek(s) is LineBreak) {
        if let Some((s1, Some(n))) = parse_inline(s) {
            if rem(s1) < rem(s) {
                lemma_inline_line_le(s1, out.push(n));
            }
        }
    }
}

/// One inline element: nothing exactly at the end of input, where the cursor
/// stays; on every other token but a line end the cursor moves on.
pub proof fn law_inline_step(s: PState)
    ensures
        parse_inline(s) matches Some((s1, n)) ==> (n is None <==> peek(s) is EOF) && (peek(
            s,
        ) is EOF ==> s1 == s) && (!(peek(s) is EOF) && !(peek(s) is NewLine) ==> rem(s1) < rem(
            s,
        )),
{
    match peek(s) {
        TokenV::Star => {
            lemma_star_keeps(s);
            let s1 = consume(s);
            let bold = peek(s1) is Star;
            let s2 = if bold {
                consume(s1)
            } else {
                s1
            };
            if rem(s2) < rem(s) {
                let stop = if bold {
                    Stop::DoubleStar
                } else {
                    Stop::Star
                };
                lemma_inline_until_le(s2, stop, seq![]);
                lemma_inline_until_keeps(s2, stop, seq![]);
                if let Some((s3, content)) = parse_inline_until(s2, stop) {
                    assert(with_pos(s3, s.pos) == s);
                }
            }
        },
        TokenV::OpenBracket => {
            let s1 = consume(s);
            if rem(s1) < rem(s) {
                lemma_inline_until_le(s1, Stop::Bracket, seq![]);
                lemma_inline_until_keeps(s1, Stop::Bracket, seq![]);
                if let Some((s2, children)) = parse_inline_until(s1, Stop::Bracket) {
                    assert(with_pos(s2, s.pos) == s);
                    let s3 = consume(s2);
                    assert(with_pos(s3, s.pos) == s);
                    let s4 = consume(s3);
                    lemma_link_target_keeps(s4, seq![], None);
                    lemma_link_target_le(s4, seq![], None);
                    let s5 = link_target(s4, seq![], None).0;
                    assert(with_pos(s5, s.pos) == s);
                }
            }
        },
        TokenV::Backtick => {
            let count = count_backticks(s.toks, s.pos as int);
            assert(count >= 1);
            lemma_consume_backticks_exact(s, count, s.pos);
            let s1 = consume_backticks(s, count).0;
            lemma_code_span_keeps(s1, count, seq![]);
            lemma_code_span_le(s1, count, seq![]);
            assert(with_pos(s1, s.pos) == s);
        },
        _ => {},
    }
}


proof fn lemma_paragraph_le(s: PState, acc: Seq<InlineV>)
    ensures
        paragraph_from(s, acc) matches Some((s1, _)) ==> no_back(s, s1) && (!(at_end(s) || peek(
            s,
        ) is NewLine || peek(s) is LineBreak) ==> rem(s1) < rem(s)),
    decreases rem(s),
{
    lemma_inline_line_le(s, seq![]);
    if let Some((s1, r)) = parse_inline_until_newline(s) {
        if !(at_end(s1) || !(peek(s1) is NewLine)) {
            let s3 = skip_indents(consume(s1));
            if !starts_block(s3) && rem(s3) < rem(s) {
                lemma_paragraph_le(s3, acc + r);
            }
        }
    }
}

proof fn lemma_blocks_line_le(s: PState, out: Seq<BlockV>)
    ensures
        blocks_line_from(s, out) matches Some((s1, _)) ==> no_back(s, s1),
    decreases rem(s),
{
    if !(at_end(s) || peek(s) is NewLine || peek(s) is LineBreak) {
        if let Some((s1, Some(b))) = parse_block(s) {
            if rem(s1) < rem(s) {
                lemma_blocks_line_le(s1, out.push(b));
            }
        }
    }
}

proof fn lemma_item_lines_le(s: PState, il: nat, blocks: Seq<BlockV>)
    ensures
        item_lines_from(s, il, blocks) matches Some((s1, _)) ==> no_back(s, s1),
    decreases rem(s),
{
    if peek(s) is NewLine {
        let s0 = with_indent(s, 0);
        if let TokenV::Indent(n) = peek_next(s0) {
            if n > il {
                let s1 = consume(consume(with_indent(s0, n)));
                if !(peek(s1) is EOF || peek(s1) is LineBreak) && rem(s1) < rem(s) {
                    if let Some((s2, bs)) = parse_until_newline(s1) {
                        if rem(s2) < rem(s) {
                            lemma_item_lines_le(s2, il, blocks + bs);
                        }
                    }
                }
            }
        }
    }
}

proof fn lemma_list_item_le(s: PState, il: nat)
    ensures
        parse_list_item(s, il) matches Some((s1, _)) ==> no_back(s, s1),
{
    lemma_blocks_line_le(s, seq![]);
    if let Some((s1, first)) = parse_until_newline(s) {
        lemma_item_lines_le(s1, il, first);
    }
}

proof fn lemma_unordered_items_le(s: PState, il: nat, ci: nat, items: Seq<Seq<BlockV>>)
    ensures
        unordered_items_from(s, il, ci, items) matches Some((s1, _)) ==> no_back(s, s1) && (
        peek(s) is Dash && is_spaced_text(peek_next(s)) ==> rem(s1) < rem(s)),
    decreases rem(s),
{
    if peek(s) is Dash {
        let s1 = consume(s);
        assert(with_pos(s1, s.pos) == s);
        assert(peek(s1) == peek_next(s));
        if is_spaced_text(peek(s1)) {
            let s2 = trim_marker_text(s1);
            if rem(s2) < rem(s) {
                lemma_list_item_le(s2, ci);
                if let Some((s3, Some(item))) = parse_list_item(s2, ci) {
                    let (s4, more) = list_next(s3, il);
                    if more && rem(s4) < rem(s) {
                        lemma_unordered_items_le(s4, il, ci, items.push(item));
                    }
                }
            }
        }
    }
}

proof fn lemma_ordered_items_le(s: PState, il: nat, ci: nat, items: Seq<Seq<BlockV>>)
    ensures
        ordered_items_from(s, il, ci, items) matches Some((s1, _)) ==> no_back(s, s1) && (
        (match peek(s) {
            TokenV::Text(c) => all_digits(c),
            _ => false,
        }) && peek_next(s) is Period && is_spaced_text(peek_next(consume(s))) ==> rem(s1) < rem(
            s,
        )),
    decreases rem(s),
{
    let marker = match peek(s) {
        TokenV::Text(c) => all_digits(c),
        _ => false,
    } && peek_next(s) is Period;
    if marker {
        let s1 = consume(consume(s));
        assert(with_pos(s1, s.pos) == s);
        assert(peek(s1) == peek_next(consume(s)));
        if is_spaced_text(peek(s1)) {
            let s2 = trim_marker_text(s1);
            if rem(s2) < rem(s) {
                lemma_list_item_le(s2, ci);
                if let Some((s3, Some(item))) = parse_list_item(s2, ci) {
                    let (s4, more) = list_next(s3, il);
                    if more && rem(s4) < rem(s) {
                        lemma_ordered_items_le(s4, il, ci, items.push(item));
                    }
                }
            }
        }
    }
}

proof fn lemma_consume_gts_le(s: PState, left: nat)
    ensures
        no_back(s, consume_gts(s, left)),
        left > 0 && peek(s) is GreaterThan ==> rem(consume_gts(s, left)) < rem(s),
    decreases rem(s),
{
    if left > 0 {
        match peek(s) {
            TokenV::GreaterThan => lemma_consume_gts_le(consume(s), (left - 1) as nat),
            TokenV::Text(t) => if all_spaces(t) {
                lemma_consume_gts_le(consume(s), left);
            },
            _ => {},
        }
    }
}

proof fn lemma_quote_from_le(s: PState, depth: nat, blocks: Seq<BlockV>)
    ensures
        quote_from(s, depth, blocks) matches Some((s1, _)) ==> no_back(s, s1) && (0 < depth
            <= count_gt(s.toks, s.pos as int) && peek(s) is GreaterThan ==> rem(s1) < rem(s)),
    decreases rem(s),
{
    let g = count_gt(s.toks, s.pos as int);
    if g > depth {
        if let Some((s1, inner)) = parse_blockquote_at(s, depth + 1) {
            let blocks1 = match inner {
                Some(b) => blocks.push(b),
                None => blocks,
            };
            if rem(s1) < rem(s) {
                lemma_quote_from_le(s1, depth, blocks1);
            }
        }
    } else if g == depth {
        let s1 = consume_gts(s, depth);
        lemma_consume_gts_le(s, depth);
        if let Some(s2) = trim_quote_text(s1) {
            if !(peek(s2) is EOF || peek(s2) is LineBreak) {
                let step: Res<Seq<BlockV>> = if starts_block(s2) {
                    if rem(s2) >= rem(s) {
                        None
                    } else {
                        match parse_block(s2) {
                            None => None,
                            Some((s3, b)) => Some(
                                (
                                    s3,
                                    match b {
                                        Some(b) => blocks.push(b),
                                        None => blocks,
                                    },
                                ),
                            ),
                        }
                    }
                } else {
                    match quote_paragraph(s2, depth) {
                        None => None,
                        Some((s3, inline)) => Some(
                            (
                                s3,
                                if inline.len() > 0 {
                                    blocks.push(BlockV::Paragraph(inline))
                                } else {
                                    blocks
                                },
                            ),
                        ),
                    }
                };
                if let Some((s3, blocks1)) = step {
                    let s4 = if peek(s3) is NewLine {
                        consume(s3)
                    } else {
                        s3
                    };
                    if rem(s4) < rem(s) {
                        lemma_quote_from_le(s4, depth, blocks1);
                    }
                }
            }
        }
    }
}

proof fn lemma_count_hashes_keeps(s: PState, count: nat)
    ensures
        same_tokens(s, count_hashes(s, count).0),
        s.pos <= count_hashes(s, count).0.pos,
        peek(s) is Hash ==> rem(count_hashes(s, count).0) < rem(s),
    decreases rem(s),
{
    if peek(s) is Hash {
        lemma_count_hashes_keeps(consume(s), count + 1);
    }
}

proof fn lemma_fence_body_keeps(s: PState, opening: nat, code: Seq<char>)
    ensures
        fence_body(s, opening, code) matches Some((s1, _)) ==> same_tokens(s, s1) && s.pos
            <= s1.pos,
    decreases rem(s),
{
    match peek(s) {
        TokenV::EOF => {},
        TokenV::Backtick if count_backticks(s.toks, s.pos as int) >= opening => {
            lemma_consume_backticks_keeps(s, opening, s.pos);
            lemma_skip_line_keeps(consume_backticks(s, opening).0);
        },
        t => {
            if s.pos < s.toks.len() {
                lemma_fence_body_keeps(consume(s), opening, code + token_text(t));
            }
        },
    }
}

/// One step of the document loop moves the cursor on at every token but the
/// end of input: fewer tokens are left after it.
pub proof fn law_block_progress(s: PState)
    ensures
        parse_block(s) matches Some((s1, _)) ==> peek(s) is EOF || rem(s1) < rem(s),
{
    if !(peek(s) is EOF) {
        assert(s.pos < s.toks.len());
        lemma_paragraph_le(s, seq![]);
        match peek(s) {
            TokenV::Hash => {
                lemma_count_hashes_keeps(s, 0);
                let (s1, count) = count_hashes(s, 0);
                assert(with_pos(s1, s.pos) == s);
                let s2 = with_text(s1, trim_start(peek(s1)->Text_0));
                lemma_inline_line_le(s2, seq![]);
            },
            TokenV::Dash => {
                lemma_unordered_items_le(s, s.indent, s.indent, seq![]);
            },
            TokenV::GreaterThan => {
                lemma_quote_from_le(s, 1, seq![]);
            },
            TokenV::Text(c) => {
                if all_digits(c) && peek_next(s) is Period {
                    let s1 = consume(s);
                    assert(with_pos(s1, s.pos) == s);
                    lemma_ordered_items_le(s, s.indent, s.indent, seq![]);
                }
            },
            TokenV::Backtick => {
                let opening = count_backticks(s.toks, s.pos as int);
                if opening >= 3 {
                    lemma_consume_backticks_exact(s, opening, s.pos);
                    let s1 = consume_backticks(s, opening).0;
                    let (s2, language) = match peek(s1) {
                        TokenV::Text(t) => (consume(s1), Some(trim(t))),
                        _ => (s1, None),
                    };
                    lemma_skip_line_keeps(s2);
                    let s3 = skip_line(s2);
                    assert(with_pos(s3, s.pos) == s);
                    if peek(s3) is NewLine {
                        let s4 = consume(s3);
                        assert(with_pos(s4, s.pos) == s);
                        lemma_fence_body_keeps(s4, opening, seq![]);
                    }
                }
            },
            _ => {},
        }
    }
}


proof fn lemma_fence_collect(s: PState, m: int, opening: nat, code: Seq<char>)
    requires
        s.pos <= m < s.toks.len(),
        opening > 0,
        forall|i: int| s.pos <= i < m ==> !(#[trigger] s.toks[i] is Backtick) && !(s.toks[i] is EOF),
        count_backticks(s.toks, m) >= opening,
    ensures
        fence_body(s, opening, code) == Some(
            (
                skip_line(consume_backticks(with_pos(s, m as nat), opening).0),
                code + tokens_text(s.toks.subrange(s.pos as int, m)),
            ),
        ),
    decreases m - s.pos,
{
    let p = s.pos as int;
    if p == m {
        assert(with_pos(s, m as nat) == s);
        assert(s.toks.subrange(p, m) =~= Seq::<TokenV>::empty());
        assert(tokens_text(Seq::<TokenV>::empty()) == Seq::<char>::empty());
        assert(code + tokens_text(s.toks.subrange(p, m)) =~= code);
    } else {
        let t = s.toks[p];
        assert(!(t is Backtick) && !(t is EOF));
        let s1 = consume(s);
        lemma_fence_collect(s1, m, opening, code + token_text(t));
        assert(with_pos(s1, m as nat) == with_pos(s, m as nat));
        let whole = s.toks.subrange(p, m);
        assert(whole.drop_first() =~= s.toks.subrange(p + 1, m));
        assert(whole[0] == t);
        assert(code + token_text(t) + tokens_text(s1.toks.subrange(p + 1, m)) =~= code
            + tokens_text(whole));
    }
}

proof fn lemma_trim_alnum(info: Seq<char>)
    requires
        forall|i: int| 0 <= i < info.len() ==> is_ascii_alnum(#[trigger] info[i]),
    ensures
        trim(info) == info,
{
    if info.len() > 0 {
        assert(is_ascii_alnum(info[0]));
        assert(is_ascii_alnum(info[info.len() - 1]));
        assert(!is_white_space(info[0]));
        assert(!is_white_space(info.last()));
    }
    assert(info.skip(0) =~= info);
    assert(info.take(info.len() as int) =~= info);
}

/// A fenced code block read from its source: three backticks, an info string
/// of ASCII letters and digits, a newline, a body of whole lines without
/// backticks, without blank lines and without tabs in their leading blanks, and
/// three closing backticks, is a document of one code block whose language is
/// the info string (none where it is empty) and whose code is the body verbatim.
#[verifier::spinoff_prover]
#[verifier::rlimit(60)]
pub proof fn law_fence_source(info: Seq<char>, body: Seq<char>)
    requires
        forall|i: int| 0 <= i < info.len() ==> is_ascii_alnum(#[trigger] info[i]),
        body.len() > 0 ==> body.last() == '\n',
        forall|i: int| 0 <= i < body.len() ==> #[trigger] body[i] != '`',
        no_blank_lines(seq!['\n'] + body),
        tab_free_indents(seq!['\n'] + body),
    ensures
        parse_tokens(spec_lex(fence_source(info, body))) == Some(
            seq![
                BlockV::CodeBlock {
                    language: if info.len() == 0 {
                        None
                    } else {
                        Some(info)
                    },
                    code: body,
                },
            ],
        ),
{
    lemma_fence_tokens(info, body);
    let l = body_tokens(body);
    let it = info_tokens(info);
    let b = TokenV::Backtick;
    let e = TokenV::EOF;
    let toks = seq![b, b, b] + it + l.drop_last() + seq![b, b, b, e];
    let a: int = 3int + it.len();
    let m: int = a + l.len() - 1;
    assert(toks.len() == m + 4);
    assert(toks[0] == b && toks[1] == b && toks[2] == b);
    assert(forall|j: int| 0 <= j < l.len() - 1 ==> toks[a + j] == l[j]);
    assert(toks[a] == l[0]);
    assert(toks[m] == b && toks[m + 1] == b && toks[m + 2] == b && toks[m + 3] == e);
    if it.len() > 0 {
        assert(toks[3] == TokenV::Text(info));
    }
    let s0 = initial(toks);
    // the opening fence
    assert(count_backticks(toks, 3) == 0);
    assert(count_backticks(toks, 2) == 1);
    assert(count_backticks(toks, 1) == 2);
    assert(count_backticks(toks, 0) == 3);
    lemma_consume_backticks_exact(s0, 3, 0);
    let s1 = consume_backticks(s0, 3).0;
    assert(s1 == with_pos(s0, 3));
    lemma_trim_alnum(info);
    let language: Option<Seq<char>> = if info.len() == 0 {
        None
    } else {
        Some(info)
    };
    let s2 = if info.len() == 0 {
        s1
    } else {
        consume(s1)
    };
    assert(s2.pos == a);
    assert(peek(s2) is NewLine);
    assert(skip_line(s2) == s2);
    let s4 = consume(s2);
    assert(s4.pos == a + 1);
    // the body and the closing fence
    assert(count_backticks(toks, m + 3) == 0);
    assert(count_backticks(toks, m + 2) == 1);
    assert(count_backticks(toks, m + 1) == 2);
    assert(count_backticks(toks, m) == 3);
    assert forall|i: int| s4.pos <= i < m implies !(#[trigger] s4.toks[i] is Backtick) && !(
    s4.toks[i] is EOF) by {
        assert(toks[a + (i - a)] == l[i - a]);
    }
    lemma_fence_collect(s4, m, 3, seq![]);
    lemma_consume_backticks_exact(with_pos(s4, m as nat), 3, m as nat);
    let s5 = with_pos(s4, (m + 3) as nat);
    assert(peek(s5) is EOF);
    assert(skip_line(s5) == s5);
    assert(toks.subrange(a + 1, m) =~= l.subrange(1, l.len() - 1));
    assert(seq![] + tokens_text(toks.subrange(a + 1, m)) =~= body);
    assert(fence_body(s4, 3, seq![]) == Some((s5, body)));
    assert(parse_backtick(s0) == Some((s5, Some(BlockV::CodeBlock { language, code: body }))));
    assert(parse_block(s0) == parse_backtick(s0));
    assert(at_end(s5));
    assert(parse_from(s5, seq![BlockV::CodeBlock { language, code: body }]) == Some(
        (s5, seq![BlockV::CodeBlock { language, code: body }]),
    ));
    assert(seq![].push(BlockV::CodeBlock { language, code: body }) =~= seq![
        BlockV::CodeBlock { language, code: body },
    ]);
}


/// A number of any length followed by a period starts a block (a numbered list
/// item, or a paragraph where no space follows the period).
pub proof fn law_numbered_marker_starts_block(s: PState)
    requires
        peek(s) matches TokenV::Text(c) && c.len() > 0 && forall|i: int|
            0 <= i < c.len() ==> '0' <= #[trigger] c[i] && c[i] <= '9',
        peek_next(s) is Period,
    ensures
        starts_block(s),
{
}

/// A character sequence without spaces.
pub open spec fn spaceless(t: Seq<char>) -> bool {
    forall|i: int| 0 <= i < t.len() ==> #[trigger] t[i] != ' '
}

/// A token that may stand in a link address without ending it: a text without
/// spaces, a period, a dash or a hash.
pub open spec fn address_token(t: TokenV) -> bool {
    ||| t matches TokenV::Text(x) && spaceless(x)
    ||| t is Period
    ||| t is Dash
    ||| t is Hash
}

proof fn lemma_find_space_none(t: Seq<char>)
    requires
        spaceless(t),
    ensures
        find_char(t, ' ') is None,
    decreases t.len(),
{
    if t.len() > 0 {
        assert(spaceless(t.drop_first())) by {
            assert forall|i: int| 0 <= i < t.drop_first().len() implies #[trigger] t.drop_first()[i]
                != ' ' by {
                assert(t.drop_first()[i] == t[i + 1]);
            }
        }
        lemma_find_space_none(t.drop_first());
    }
}

proof fn lemma_link_address(s: PState, e: int, href: Seq<char>, title: Option<Seq<char>>)
    requires
        s.pos <= e < s.toks.len(),
        forall|i: int| s.pos <= i < e ==> address_token(#[trigger] s.toks[i]),
        s.toks[e] is CloseParen,
    ensures
        link_target(s, href, title) == (
            with_pos(s, e as nat),
            href + tokens_text(s.toks.subrange(s.pos as int, e)),
            title,
        ),
    decreases e - s.pos,
{
    let p = s.pos as int;
    if p == e {
        assert(with_pos(s, e as nat) == s);
        assert(s.toks.subrange(p, e) =~= Seq::<TokenV>::empty());
        assert(tokens_text(Seq::<TokenV>::empty()) == Seq::<char>::empty());
        assert(href + tokens_text(s.toks.subrange(p, e)) =~= href);
    } else {
        let t = s.toks[p];
        assert(address_token(t));
        let s1 = consume(s);
        let whole = s.toks.subrange(p, e);
        assert(whole.drop_first() =~= s.toks.subrange(p + 1, e));
        assert(whole[0] == t);
        assert(with_pos(s1, e as nat) == with_pos(s, e as nat));
        match t {
            TokenV::Text(x) => {
                lemma_find_space_none(x);
                lemma_link_address(s1, e, href + x, title);
                assert(href + x + tokens_text(s.toks.subrange(p + 1, e)) =~= href + tokens_text(
                    whole,
                ));
            },
            _ => {
                lemma_link_address(s1, e, href + token_text(t), title);
                assert(href + token_text(t) + tokens_text(s.toks.subrange(p + 1, e)) =~= href
                    + tokens_text(whole));
            },
        }
    }
}

/// The address of a complete link is its source text: where the text of a link
/// is followed by `(`, then by texts without spaces, periods, dashes and hashes,
/// then by `)`, the link's address is the source text of those tokens and it
/// has no title.
pub proof fn law_link_address(s: PState, e: int)
    requires
        peek(s) is OpenBracket,
        link_text_end(s) matches Some(s2) && peek(s2) is CloseBracket && s2.pos + 1int < e
            < s.toks.len() && s.toks[s2.pos + 1int] is OpenParen && (forall|i: int|
            s2.pos + 2int <= i < e ==> address_token(#[trigger] s.toks[i])) && s.toks[e] is CloseParen,
    ensures
        parse_link(s) matches Some((_, Some(InlineV::Link { href, title, children }))) && href
            == tokens_text(s.toks.subrange(link_text_end(s)->0.pos + 2int, e)) && title is None,
{
    let s1 = consume(s);
    lemma_inline_until_keeps(s1, Stop::Bracket, seq![]);
    let s2 = link_text_end(s)->0;
    let s3 = consume(s2);
    let s4 = consume(s3);
    assert(s4.pos == s2.pos + 2int);
    lemma_link_address(s4, e, seq![], None);
    assert(seq![] + tokens_text(s.toks.subrange(s2.pos + 2int, e)) =~= tokens_text(
        s.toks.subrange(s2.pos + 2int, e),
    ));
}

/// A line end right after another line end: the cursor is on a `NewLine` that
/// directly follows a `NewLine`, or not on a `NewLine` at all.
pub open spec fn not_at_line_close(s: PState) -> bool {
    !(peek(s) is NewLine) || (0 < s.pos && s.toks[s.pos - 1] is NewLine)
}

proof fn lemma_quote_at_close(s: PState, depth: nat)
    requires
        not_at_line_close(s),
    ensures
        parse_blockquote_at(s, depth) matches Some((s1, _)) ==> not_at_line_close(s1),
    decreases rem(s), 4nat, quote_measure(s, depth, true),
{
    lemma_quote_from_close(s, depth, seq![]);
}

proof fn lemma_quote_from_close(s: PState, depth: nat, blocks: Seq<BlockV>)
    requires
        not_at_line_close(s),
    ensures
        quote_from(s, depth, blocks) matches Some((s1, _)) ==> not_at_line_close(s1),
    decreases rem(s), 4nat, quote_measure(s, depth, false),
{
    let g = count_gt(s.toks, s.pos as int);
    if g > depth {
        lemma_quote_at_close(s, depth + 1);
        if let Some((s1, inner)) = parse_blockquote_at(s, depth + 1) {
            let blocks1 = match inner {
                Some(b) => blocks.push(b),
                None => blocks,
            };
            if rem(s1) < rem(s) {
                lemma_quote_from_close(s1, depth, blocks1);
            }
        }
    } else if g == depth {
        let s1 = consume_gts(s, depth);
        if let Some(s2) = trim_quote_text(s1) {
            if !(peek(s2) is EOF || peek(s2) is LineBreak) {
                let step: Res<Seq<BlockV>> = if starts_block(s2) {
                    if rem(s2) >= rem(s) {
                        None
                    } else {
                        match parse_block(s2) {
                            None => None,
                            Some((s3, b)) => Some(
                                (
                                    s3,
                                    match b {
                                        Some(b) => blocks.push(b),
                                        None => blocks,
                                    },
                                ),
                            ),
                        }
                    }
                } else {
                    match quote_paragraph(s2, depth) {
                        None => None,
                        Some((s3, inline)) => Some(
                            (
                                s3,
                                if inline.len() > 0 {
                                    blocks.push(BlockV::Paragraph(inline))
                                } else {
                                    blocks
                                },
                            ),
                        ),
                    }
                };
                if let Some((s3, blocks1)) = step {
                    let s4 = if peek(s3) is NewLine {
                        consume(s3)
                    } else {
                        s3
                    };
                    if rem(s4) < rem(s) {
                        lemma_quote_from_close(s4, depth, blocks1);
                    }
                }
            }
        }
    }
}

/// A block quote reads every line that opens with its markers: it never stops at
/// the line end that closes one of its lines (where it stops on a `NewLine`, that
/// `NewLine` directly follows another one), so the next line, if it has the
/// quote's markers, belongs to the same quote.
pub proof fn law_quote_reads_whole_lines(s: PState, depth: nat)
    requires
        peek(s) is GreaterThan,
    ensures
        parse_blockquote_at(s, depth) matches Some((s1, _)) ==> !(peek(s1) is NewLine) || (0
            < s1.pos && s1.toks[s1.pos - 1] is NewLine),
{
    lemma_quote_at_close(s, depth);
}


/// An item ends before a line indented no deeper than the item: where the
/// item's first line is the one text `t` and the next line is indented by at
/// most `il` and opens with a dash, the item is the paragraph `t` and stops at
/// that line end (the indentation starts afresh), leaving the next line to the
/// list around it.
pub proof fn law_item_leaves_shallower_lines(s: PState, il: nat, t: Seq<char>, n: nat)
    requires
        s.pos + 3 < s.toks.len(),
        s.toks[s.pos as int] == TokenV::Text(t),
        s.toks[s.pos + 1int] is NewLine,
        s.toks[s.pos + 2int] == TokenV::Indent(n),
        n <= il,
        s.toks[s.pos + 3int] is Dash,
    ensures
        parse_list_item(s, il) == Some(
            (
                with_indent(consume(s), 0),
                Some(seq![BlockV::Paragraph(seq![InlineV::Text(t)])]),
            ),
        ),
{
    let s1 = consume(s);
    assert(peek(s) == TokenV::Text(t));
    assert(peek(s1) is NewLine);
    assert(parse_inline(s) == Some((s1, Some(InlineV::Text(t)))));
    assert(inline_line_from(s1, seq![InlineV::Text(t)]) == Some((s1, seq![InlineV::Text(t)])));
    assert(inline_line_from(s, seq![]) == Some((s1, seq![InlineV::Text(t)]))) by {
        assert(seq![].push(InlineV::Text(t)) =~= seq![InlineV::Text(t)]);
    }
    let c1 = consume(s1);
    assert(peek(c1) == TokenV::Indent(n));
    let c2 = consume(c1);
    assert(peek(c2) is Dash);
    assert(skip_indents(c2) == c2);
    assert(skip_indents(c1) == c2);
    assert(starts_block(c2));
    assert(seq![] + seq![InlineV::Text(t)] =~= seq![InlineV::Text(t)]);
    let para = BlockV::Paragraph(seq![InlineV::Text(t)]);
    assert(paragraph_from(s, seq![]) == Some((s1, seq![InlineV::Text(t)])));
    assert(paragraph_block(s) == Some((s1, Some(para))));
    assert(!all_digits(t) || !(peek_next(s) is Period));
    assert(parse_block(s) == Some((s1, Some(para))));
    assert(blocks_line_from(s1, seq![para]) == Some((s1, seq![para])));
    assert(seq![].push(para) =~= seq![para]);
    assert(blocks_line_from(s, seq![]) == Some((s1, seq![para])));
    let s0 = with_indent(s1, 0);
    assert(peek_next(s0) == TokenV::Indent(n));
    assert(item_lines_from(s1, il, seq![para]) == Some((s0, seq![para])));
}

/// The cursor goes from `a` to `b` over the same tokens, passing no `NewLine`.
pub open spec fn passes_no_newline(a: PState, b: PState) -> bool {
    &&& a.toks == b.toks
    &&& a.pos <= b.pos
    &&& forall|i: int| a.pos <= i < b.pos ==> !(#[trigger] a.toks[i] is NewLine)
}

proof fn lemma_pnl_trans(a: PState, b: PState, c: PState)
    requires
        passes_no_newline(a, b),
        passes_no_newline(b, c),
    ensures
        passes_no_newline(a, c),
{
    assert forall|i: int| a.pos <= i < c.pos implies !(#[trigger] a.toks[i] is NewLine) by {
        if i >= b.pos {
            assert(b.toks[i] == a.toks[i]);
        }
    }
}

proof fn lemma_pnl_consume(s: PState)
    requires
        !(peek(s) is NewLine),
    ensures
        passes_no_newline(s, consume(s)),
{
}

proof fn lemma_pnl_backticks(s: PState, n: nat)
    requires
        count_backticks(s.toks, s.pos as int) >= n,
    ensures
        passes_no_newline(s, with_pos(s, s.pos + n)),
    decreases n,
{
    if n > 0 {
        assert(s.toks[s.pos as int] is Backtick);
        lemma_pnl_backticks(consume(s), (n - 1) as nat);
        lemma_pnl_consume(s);
        assert(with_pos(consume(s), consume(s).pos + (n - 1) as nat) == with_pos(s, s.pos + n));
        lemma_pnl_trans(s, consume(s), with_pos(s, s.pos + n));
    } else {
        assert(with_pos(s, s.pos + n) == s);
    }
}

proof fn lemma_pnl_code_span(s: PState, count: nat, code: Seq<char>)
    ensures
        code_span(s, count, code) matches Some((s1, _)) ==> passes_no_newline(s, s1),
    decreases rem(s),
{
    match peek(s) {
        TokenV::EOF | TokenV::NewLine | TokenV::LineBreak => {},
        TokenV::Backtick if count_backticks(s.toks, s.pos as int) == count => {
            lemma_consume_backticks_exact(s, count, s.pos);
            lemma_pnl_backticks(s, count);
        },
        t => {
            if s.pos < s.toks.len() {
                lemma_pnl_code_span(consume(s), count, code + token_text(t));
                lemma_pnl_consume(s);
                if let Some((s1, _)) = code_span(consume(s), count, code + token_text(t)) {
                    lemma_pnl_trans(s, consume(s), s1);
                }
            }
        },
    }
}

proof fn lemma_pnl_link_target(s: PState, href: Seq<char>, title: Option<Seq<char>>)
    ensures
        passes_no_newline(s, link_target(s, href, title).0),
    decreases rem(s),
{
    if !(at_end(s) || peek(s) is CloseParen || peek(s) is NewLine || peek(s) is LineBreak) {
        lemma_pnl_consume(s);
        match peek(s) {
            TokenV::Text(t) => match find_char(t, ' ') {
                Some(i) => {},
                None => {
                    lemma_pnl_link_target(consume(s), href + t, title);
                    lemma_pnl_trans(s, consume(s), link_target(consume(s), href + t, title).0);
                },
            },
            TokenV::Period | TokenV::Dash | TokenV::Hash => {
                let h = href + token_text(peek(s));
                lemma_pnl_link_target(consume(s), h, title);
                lemma_pnl_trans(s, consume(s), link_target(consume(s), h, title).0);
            },
            _ => {
                lemma_pnl_link_target(consume(s), href, title);
                lemma_pnl_trans(s, consume(s), link_target(consume(s), href, title).0);
            },
        }
    }
}

proof fn lemma_pnl_inline(s: PState)
    ensures
        parse_inline(s) matches Some((s1, _)) ==> passes_no_newline(s, s1),
    decreases rem(s), 2nat,
{
    match peek(s) {
        TokenV::Star => lemma_pnl_star(s),
        TokenV::OpenBracket => lemma_pnl_link(s),
        TokenV::Backtick => {
            let count = count_backticks(s.toks, s.pos as int);
            lemma_consume_backticks_exact(s, count, s.pos);
            let s1 = consume_backticks(s, count).0;
            lemma_pnl_backticks(s, count);
            lemma_pnl_code_span(s1, count, seq![]);
            if let Some((s2, _)) = code_span(s1, count, seq![]) {
                lemma_pnl_trans(s, s1, s2);
            }
            assert(with_pos(s1, s.pos) == s);
            lemma_pnl_consume(s);
        },
        TokenV::LessThan => {
            let s1 = consume(s);
            lemma_pnl_consume(s);
            if let TokenV::Text(tag) = peek(s1) {
                lemma_pnl_consume(s1);
                lemma_pnl_trans(s, s1, consume(s1));
                if peek_next(s1) is GreaterThan {
                    lemma_pnl_consume(consume(s1));
                    lemma_pnl_trans(s, consume(s1), consume(consume(s1)));
                }
            }
        },
        TokenV::NewLine | TokenV::EOF => {},
        _ => lemma_pnl_consume(s),
    }
}

proof fn lemma_pnl_star(s: PState)
    requires
        peek(s) is Star,
    ensures
        parse_star(s) matches Some((s1, _)) ==> passes_no_newline(s, s1),
    decreases rem(s), 1nat,
{
    let s1 = consume(s);
    let bold = peek(s1) is Star;
    let s2 = if bold {
        consume(s1)
    } else {
        s1
    };
    if rem(s2) < rem(s) {
        lemma_pnl_consume(s);
        if bold {
            lemma_pnl_consume(s1);
            lemma_pnl_trans(s, s1, s2);
        }
        let stop = if bold {
            Stop::DoubleStar
        } else {
            Stop::Star
        };
        lemma_pnl_inline_until(s2, stop, seq![]);
        lemma_inline_until_keeps(s2, stop, seq![]);
        if let Some((s3, content)) = parse_inline_until(s2, stop) {
            lemma_pnl_trans(s, s2, s3);
            assert(with_pos(s3, s.pos) == s);
            let s4 = consume(s3);
            if peek(s3) is Star {
                lemma_pnl_consume(s3);
                lemma_pnl_trans(s, s3, s4);
                if peek_next(s3) is Star {
                    lemma_pnl_consume(s4);
                    lemma_pnl_trans(s, s4, consume(s4));
                }
            }
        }
    }
}

proof fn lemma_pnl_link(s: PState)
    requires
        peek(s) is OpenBracket,
    ensures
        parse_link(s) matches Some((s1, _)) ==> passes_no_newline(s, s1),
    decreases rem(s), 1nat,
{
    let s1 = consume(s);
    if rem(s1) < rem(s) {
        lemma_pnl_consume(s);
        lemma_pnl_inline_until(s1, Stop::Bracket, seq![]);
        lemma_inline_until_keeps(s1, Stop::Bracket, seq![]);
        if let Some((s2, children)) = parse_inline_until(s1, Stop::Bracket) {
            lemma_pnl_trans(s, s1, s2);
            assert(with_pos(s2, s.pos) == s);
            let s3 = consume(s2);
            if peek(s2) is CloseBracket {
                lemma_pnl_consume(s2);
                lemma_pnl_trans(s, s2, s3);
                assert(with_pos(s3, s.pos) == s);
                if peek(s3) is OpenParen {
                    let s4 = consume(s3);
                    lemma_pnl_consume(s3);
                    lemma_pnl_trans(s, s3, s4);
                    lemma_pnl_link_target(s4, seq![], None);
                    lemma_link_target_keeps(s4, seq![], None);
                    let s5 = link_target(s4, seq![], None).0;
                    lemma_pnl_trans(s, s4, s5);
                    assert(with_pos(s5, s.pos) == s);
                    if peek(s5) is CloseParen {
                        lemma_pnl_consume(s5);
                        lemma_pnl_trans(s, s5, consume(s5));
                    }
                }
            }
        }
    }
}

proof fn lemma_pnl_inline_until(s: PState, stop: Stop, nodes: Seq<InlineV>)
    ensures
        inline_until_from(s, stop, nodes) matches Some((s1, _)) ==> passes_no_newline(s, s1),
    decreases rem(s), 3nat,
{
    if !(at_end(s) || peek(s) is NewLine || stop_at(stop, peek(s), peek_next(s))) {
        lemma_pnl_inline(s);
        if let Some((s1, n)) = parse_inline(s) {
            let nodes1 = match n {
                Some(n) => nodes.push(n),
                None => nodes,
            };
            if rem(s1) < rem(s) {
                lemma_pnl_inline_until(s1, stop, nodes1);
                if let Some((s2, _)) = inline_until_from(s1, stop, nodes1) {
                    lemma_pnl_trans(s, s1, s2);
                }
            }
        }
    }
}

proof fn lemma_pnl_inline_line(s: PState, out: Seq<InlineV>)
    ensures
        inline_line_from(s, out) matches Some((s1, _)) ==> passes_no_newline(s, s1) && (at_end(
            s1,
        ) || peek(s1) is NewLine || peek(s1) is LineBreak),
    decreases rem(s),
{
    if !(at_end(s) || peek(s) is NewLine || peek(s) is LineBreak) {
        lemma_pnl_inline(s);
        if let Some((s1, Some(n))) = parse_inline(s) {
            if rem(s1) < rem(s) {
                lemma_pnl_inline_line(s1, out.push(n));
                if let Some((s2, _)) = inline_line_from(s1, out.push(n)) {
                    lemma_pnl_trans(s, s1, s2);
                }
            }
        }
    }
}

proof fn lemma_hashes_run(s: PState, count: nat)
    ensures
        count_hashes(s, count).0.toks == s.toks,
        s.pos <= count_hashes(s, count).0.pos,
        forall|i: int|
            s.pos <= i < count_hashes(s, count).0.pos ==> #[trigger] s.toks[i] is Hash,
        !(peek(count_hashes(s, count).0) is Hash),
    decreases rem(s),
{
    if peek(s) is Hash {
        lemma_hashes_run(consume(s), count + 1);
    }
}

/// A heading holds its own line only: where the heading rule yields a heading,
/// no `NewLine` lies between the heading's first `#` and where it stops, and it
/// stops at the end of its line (a `NewLine`, a `LineBreak` or the end).
pub proof fn law_heading_is_one_line(s: PState)
    requires
        peek(s) is Hash,
    ensures
        parse_hash(s) matches Some((s3, Some(BlockV::Heading { level, content }))) ==> (forall|
            i: int|
            s.pos <= i < s3.pos ==> !(#[trigger] s3.toks[i] is NewLine)) && (at_end(s3) || peek(
            s3,
        ) is NewLine || peek(s3) is LineBreak),
{
    lemma_hashes_run(s, 0);
    let (s1, count) = count_hashes(s, 0);
    if count <= 255 {
        if let TokenV::Text(c) = peek(s1) {
            if (starts_with(c, ' ') || starts_with(c, '\t')) && count < 7 {
                let s2 = with_text(s1, trim_start(c));
                assert(s1.pos < s1.toks.len());
                lemma_pnl_inline_line(s2, seq![]);
                if let Some((s3, content)) = parse_inline_until_newline(s2) {
                    assert forall|i: int| s.pos <= i < s3.pos implies !(
                    #[trigger] s3.toks[i] is NewLine) by {
                        if i < s1.pos {
                            assert(s3.toks[i] == s.toks[i]);
                        } else if i == s1.pos {
                            assert(s3.toks[i] is Text);
                        }
                    }
                }
            }
        }
    }
}


proof fn lemma_last_item(s: PState, il: nat, t: Seq<char>)
    requires
        s.pos + 1 < s.toks.len(),
        s.toks[s.pos as int] == TokenV::Text(t),
        s.toks[s.pos + 1int] is EOF,
    ensures
        parse_list_item(s, il) == Some(
            (consume(s), Some(seq![BlockV::Paragraph(seq![InlineV::Text(t)])])),
        ),
{
    let s1 = consume(s);
    assert(peek(s) == TokenV::Text(t));
    assert(at_end(s1));
    assert(parse_inline(s) == Some((s1, Some(InlineV::Text(t)))));
    assert(inline_line_from(s1, seq![InlineV::Text(t)]) == Some((s1, seq![InlineV::Text(t)])));
    assert(seq![].push(InlineV::Text(t)) =~= seq![InlineV::Text(t)]);
    assert(inline_line_from(s, seq![]) == Some((s1, seq![InlineV::Text(t)])));
    assert(seq![] + seq![InlineV::Text(t)] =~= seq![InlineV::Text(t)]);
    let para = BlockV::Paragraph(seq![InlineV::Text(t)]);
    assert(paragraph_from(s, seq![]) == Some((s1, seq![InlineV::Text(t)])));
    assert(paragraph_block(s) == Some((s1, Some(para))));
    assert(parse_block(s) == Some((s1, Some(para))));
    assert(blocks_line_from(s1, seq![para]) == Some((s1, seq![para])));
    assert(seq![].push(para) =~= seq![para]);
    assert(blocks_line_from(s, seq![]) == Some((s1, seq![para])));
    assert(item_lines_from(s1, il, seq![para]) == Some((s1, seq![para])));
}

/// Items at the list's own indentation are siblings: a nested list (at
/// indentation `il > 0`) of two dash lines, the second indented by exactly
/// `il`, is one list of two items, each the paragraph of its line.
#[verifier::spinoff_prover]
#[verifier::rlimit(60)]
pub proof fn law_siblings_share_a_list(s: PState, x: Seq<char>, y: Seq<char>)
    requires
        s.pos + 6 < s.toks.len(),
        s.indent > 0,
        s.toks[s.pos as int] is Dash,
        s.toks[s.pos + 1int] == TokenV::Text(x),
        starts_with(x, ' '),
        trim_start(x).len() > 0,
        s.toks[s.pos + 2int] is NewLine,
        s.toks[s.pos + 3int] == TokenV::Indent(s.indent),
        s.toks[s.pos + 4int] is Dash,
        s.toks[s.pos + 5int] == TokenV::Text(y),
        starts_with(y, ' '),
        trim_start(y).len() > 0,
        s.toks[s.pos + 6int] is EOF,
    ensures
        parse_unordered_list_at(s, s.indent) matches Some((_, Some(b))) && b
            == BlockV::UnorderedList(
            seq![
                seq![BlockV::Paragraph(seq![InlineV::Text(trim_start(x))])],
                seq![BlockV::Paragraph(seq![InlineV::Text(trim_start(y))])],
            ],
        ),
{
    let il = s.indent;
    let p = s.pos as int;
    let tx = trim_start(x);
    let ty = trim_start(y);
    let item1 = seq![BlockV::Paragraph(seq![InlineV::Text(tx)])];
    let item2 = seq![BlockV::Paragraph(seq![InlineV::Text(ty)])];
    // the first item
    let a1 = consume(s);
    assert(peek(a1) == TokenV::Text(x));
    let a2 = trim_marker_text(a1);
    assert(a2 == with_text(a1, tx));
    assert(a2.toks[p + 1] == TokenV::Text(tx));
    assert(a2.toks[p + 2] == s.toks[p + 2]);
    assert(a2.toks[p + 3] == s.toks[p + 3]);
    assert(a2.toks[p + 4] == s.toks[p + 4]);
    law_item_leaves_shallower_lines(a2, il, tx, il);
    let a3 = with_indent(consume(a2), 0);
    assert(parse_list_item(a2, il) == Some((a3, Some(item1))));
    assert(peek(a3) is NewLine);
    assert(peek_next(a3) == TokenV::Indent(il));
    let a4 = consume(consume(a3));
    assert(list_next(a3, il) == (a4, true));
    assert(a4.pos == p + 4);
    // the second item
    let b1 = consume(a4);
    assert(peek(a4) is Dash);
    assert(b1.toks[p + 5] == s.toks[p + 5]);
    assert(peek(b1) == TokenV::Text(y));
    let b2 = trim_marker_text(b1);
    assert(b2 == with_text(b1, ty));
    assert(b2.toks[p + 6] == s.toks[p + 6]);
    lemma_last_item(b2, il, ty);
    let b3 = consume(b2);
    assert(parse_list_item(b2, il) == Some((b3, Some(item2))));
    assert(list_next(b3, il) == (b3, false));
    assert(seq![item1].push(item2) =~= seq![item1, item2]);
    assert(unordered_items_from(a4, il, il, seq![item1]) == Some((b3, seq![item1, item2])));
    assert(seq![].push(item1) =~= seq![item1]);
    assert(unordered_items_from(s, il, il, seq![]) == Some((b3, seq![item1, item2])));
}


/// A heading's level is the number of `#` that open it: where the heading rule
/// yields a heading of level `level`, the `level` tokens from the cursor are `#`
/// and the next one is not.
pub proof fn law_heading_level_counts_hashes(s: PState)
    requires
        peek(s) is Hash,
    ensures
        parse_hash(s) matches Some((_, Some(BlockV::Heading { level, content }))) ==> 1 <= level
            && s.pos + level < s.toks.len() && (forall|i: int|
            s.pos <= i < s.pos + level ==> #[trigger] s.toks[i] is Hash) && !(s.toks[s.pos
            + level] is Hash),
{
    lemma_hashes_run(s, 0);
    lemma_count_hashes_keeps(s, 0);
    lemma_count_hashes_count(s, 0);
}

proof fn lemma_count_hashes_count(s: PState, count: nat)
    ensures
        count_hashes(s, count).1 == count + (count_hashes(s, count).0.pos - s.pos),
    decreases rem(s),
{
    if peek(s) is Hash {
        lemma_count_hashes_count(consume(s), count + 1);
    }
}

/// Two stars make bold and one star italics: where the emphasis rule yields bold,
/// the token after the first star is a star; where it yields italics, it is not.
pub proof fn law_emphasis_kind(s: PState)
    ensures
        parse_star(s) matches Some((_, Some(n))) ==> (n is Bold ==> peek_next(s) is Star) && (
        n is Italics ==> !(peek_next(s) is Star)),
{
}


proof fn lemma_code_span_verbatim(s: PState, count: nat, code: Seq<char>)
    requires
        s.pos <= s.toks.len(),
    ensures
        code_span(s, count, code) matches Some((_, c)) ==> exists|e: int|
            s.pos <= e < s.toks.len() && c == code + tokens_text(s.toks.subrange(s.pos as int, e))
                && count_backticks(s.toks, e) == count,
    decreases rem(s),
{
    let p = s.pos as int;
    match peek(s) {
        TokenV::EOF | TokenV::NewLine | TokenV::LineBreak => {},
        TokenV::Backtick if count_backticks(s.toks, p) == count => {
            assert(s.toks.subrange(p, p) =~= Seq::<TokenV>::empty());
            assert(tokens_text(Seq::<TokenV>::empty()) == Seq::<char>::empty());
            assert(code + tokens_text(s.toks.subrange(p, p)) =~= code);
        },
        t => {
            let s1 = consume(s);
            lemma_code_span_verbatim(s1, count, code + token_text(t));
            if let Some((_, c)) = code_span(s1, count, code + token_text(t)) {
                let e = choose|e: int|
                    s1.pos <= e < s1.toks.len() && c == code + token_text(t) + tokens_text(
                        s1.toks.subrange(s1.pos as int, e),
                    ) && count_backticks(s1.toks, e) == count;
                let whole = s.toks.subrange(p, e);
                assert(whole.drop_first() =~= s.toks.subrange(p + 1, e));
                assert(whole[0] == t);
                assert(c == code + tokens_text(whole));
            }
        },
    }
}

/// Inline code keeps its text verbatim: where a run of `n` backticks opens code,
/// its text is the source text of the tokens after that run, up to a run of
/// exactly `n` backticks on the same line.
pub proof fn law_code_span_verbatim(s: PState)
    requires
        peek(s) is Backtick,
    ensures
        parse_inline_code(s) matches Some((_, Some(InlineV::Code(code)))) ==> exists|e: int|
            s.pos + count_backticks(s.toks, s.pos as int) <= e < s.toks.len() && code
                == tokens_text(
                s.toks.subrange(s.pos + count_backticks(s.toks, s.pos as int) as int, e),
            ) && #[trigger] count_backticks(s.toks, e) == count_backticks(s.toks, s.pos as int),
{
    let count = count_backticks(s.toks, s.pos as int);
    lemma_consume_backticks_exact(s, count, s.pos);
    let s1 = consume_backticks(s, count).0;
    lemma_backticks_fit(s.toks, s.pos as int);
    lemma_code_span_verbatim(s1, count, seq![]);
    if let Some((_, c)) = code_span(s1, count, seq![]) {
        let e = choose|e: int|
            s1.pos <= e < s1.toks.len() && c == seq![] + tokens_text(
                s1.toks.subrange(s1.pos as int, e),
            ) && count_backticks(s1.toks, e) == count;
        assert(seq![] + tokens_text(s1.toks.subrange(s1.pos as int, e)) =~= tokens_text(
            s1.toks.subrange(s1.pos as int, e),
        ));
    }
}

proof fn lemma_backticks_fit(toks: Seq<TokenV>, p: int)
    requires
        0 <= p,
    ensures
        p + count_backticks(toks, p) <= toks.len() || count_backticks(toks, p) == 0,
    decreases toks.len() - p,
{
    if 0 <= p < toks.len() && toks[p] is Backtick {
        lemma_backticks_fit(toks, p + 1);
    }
}

} // verus!
