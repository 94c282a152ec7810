use vstd::prelude::*;

use crate::ast::{
    block_view, blocks_view, inline_view, inlines_view, item_view, items_view, opt_block_view,
    opt_inline_view, opt_item_view, opt_str_view, BlockNode, BlockV, InlineNode, InlineV, ListItem,
};
use crate::grammar;
use crate::grammar::{PState, Stop};
use crate::lexer::{tokens_view, Token, TokenV};
use crate::text::{
    all_blank_exec, all_digits_exec, all_spaces_exec, char_string, ends_with_exec, is_br_exec,
    is_empty_exec, repeat_string, split_once_exec, starts_with_exec, strip_both_exec,
    strip_end_exec, trim_exec, trim_start_exec,
};

verus! {

/// Builds the document tree from a sequence of tokens.
pub struct Parser {
    tokens: Vec<Token>,
    position: usize,
    valid: bool,
    indent_level: usize,
}

impl View for Parser {
    type V = PState;

    closed spec fn view(&self) -> PState {
        PState {
            toks: tokens_view(self.tokens@),
            pos: self.position as nat,
            indent: self.indent_level as nat,
        }
    }
}

/// The state `b` comes after `a`: same tokens count, cursor not moved back.
pub open spec fn moved_on(a: PState, b: PState) -> bool {
    b.toks.len() == a.toks.len() && a.pos <= b.pos && b.pos <= b.toks.len()
}

/// The cursor is on a token or just past the last one.
pub open spec fn placed(s: PState) -> bool {
    s.pos <= s.toks.len()
}

impl Parser {
    /// A parser at the start of `tokens`.
    pub fn new(tokens: Vec<Token>) -> (p: Parser)
        ensures
            p@ == grammar::initial(tokens_view(tokens@)),
    {
        Parser { tokens, position: 0, valid: true, indent_level: 0 }
    }

    fn peek(&self) -> (t: &Token)
        ensures
            t@ == grammar::peek(self@),
    {
        if self.position < self.tokens.len() {
            &self.tokens[self.position]
        } else {
            &Token::EOF
        }
    }

    fn peek_next(&self) -> (t: &Token)
        ensures
            t@ == grammar::peek_next(self@),
    {
        if self.position < self.tokens.len() && self.position + 1 < self.tokens.len() {
            &self.tokens[self.position + 1]
        } else {
            &Token::EOF
        }
    }

    fn end(&self) -> (b: bool)
        ensures
            b == grammar::at_end(self@),
    {
        self.position >= self.tokens.len() || matches!(self.tokens[self.position], Token::EOF)
    }

    fn consume(&mut self)
        requires
            placed(old(self)@),
        ensures
            final(self)@ == grammar::consume(old(self)@),
            moved_on(old(self)@, final(self)@),
    {
        if self.position < self.tokens.len() {
            self.position += 1;
        }
    }

    /// The cursor moves back to `pos`, a place it has been before.
    fn reset_to(&mut self, pos: usize)
        requires
            placed(old(self)@),
            pos <= old(self)@.pos,
        ensures
            final(self)@ == grammar::with_pos(old(self)@, pos as nat),
    {
        self.position = pos;
    }

    fn count_leading_backticks(&self) -> (count: usize)
        requires
            placed(self@),
        ensures
            count == grammar::count_backticks(self@.toks, self@.pos as int),
    {
        let mut count: usize = 0;
        let mut pos = self.position;
        while pos < self.tokens.len() && matches!(self.tokens[pos], Token::Backtick)
            invariant
                self.position <= pos <= self.tokens.len(),
                count == pos - self.position,
                grammar::count_backticks(self@.toks, self@.pos as int) == count
                    + grammar::count_backticks(self@.toks, pos as int),
            decreases self.tokens.len() - pos,
        {
            count += 1;
            pos += 1;
        }
        count
    }

    fn consume_backticks(&mut self, total: usize) -> (ok: bool)
        requires
            placed(old(self)@),
        ensures
            (final(self)@, ok) == grammar::consume_backticks(old(self)@, total as nat),
            moved_on(old(self)@, final(self)@),
            final(self)@ == grammar::with_pos(old(self)@, final(self)@.pos),
    {
        let mut count = total;
        let start = self.position;
        while count > 0
            invariant
                start == old(self)@.pos,
                start <= self@.pos,
                moved_on(old(self)@, self@),
                self@ == grammar::with_pos(old(self)@, self@.pos),
                grammar::consume_backticks_from(self@, count as nat, start as nat)
                    == grammar::consume_backticks(old(self)@, total as nat),
            decreases count,
        {
            if !matches!(self.peek(), Token::Backtick) {
                self.reset_to(start);
                return false;
            }
            self.consume();
            count -= 1;
        }
        true
    }

    fn count_leading_gt(&self) -> (count: usize)
        requires
            placed(self@),
        ensures
            count == grammar::count_gt(self@.toks, self@.pos as int),
    {
        let mut count: usize = 0;
        let mut pos = self.position;
        while pos < self.tokens.len()
            invariant
                self.position <= pos <= self.tokens.len(),
                count <= pos - self.position,
                grammar::count_gt(self@.toks, self@.pos as int) == count + grammar::count_gt(
                    self@.toks,
                    pos as int,
                ),
            ensures
                grammar::count_gt(self@.toks, self@.pos as int) == count,
            decreases self.tokens.len() - pos,
        {
            match &self.tokens[pos] {
                Token::GreaterThan => {
                    count += 1;
                    pos += 1;
                },
                Token::Text(s) => {
                    if all_blank_exec(s.as_str()) {
                        pos += 1;
                    } else {
                        break;
                    }
                },
                _ => break,
            }
        }
        count
    }

    fn consume_gts(&mut self, count: usize)
        requires
            placed(old(self)@),
        ensures
            final(self)@ == grammar::consume_gts(old(self)@, count as nat),
            moved_on(old(self)@, final(self)@),
            final(self)@ == grammar::with_pos(old(self)@, final(self)@.pos),
    {
        let mut consumed: usize = 0;
        while consumed < count
            invariant
                consumed <= count,
                moved_on(old(self)@, self@),
                self@ == grammar::with_pos(old(self)@, self@.pos),
                grammar::consume_gts(self@, (count - consumed) as nat) == grammar::consume_gts(
                    old(self)@,
                    count as nat,
                ),
            ensures
                self@ == grammar::consume_gts(old(self)@, count as nat),
            decreases grammar::rem(self@), count - consumed,
        {
            let step = match self.peek() {
                Token::GreaterThan => 1usize,
                Token::Text(s) => if all_spaces_exec(s.as_str()) {
                    0usize
                } else {
                    2usize
                },
                _ => 2usize,
            };
            if step == 2 {
                break;
            }
            self.consume();
            consumed += step;
        }
    }

    fn starts_block(&self) -> (b: bool)
        ensures
            b == grammar::starts_block(self@),
    {
        match self.peek() {
            Token::Hash | Token::Dash | Token::GreaterThan | Token::LineBreak | Token::EOF
            | Token::Backtick => true,
            Token::Text(content) => all_digits_exec(content.as_str()) && matches!(
                self.peek_next(),
                Token::Period
            ),
            _ => false,
        }
    }
}

fn stop_at(stop: Stop, a: &Token, b: &Token) -> (r: bool)
    ensures
        r == grammar::stop_at(stop, a@, b@),
{
    match stop {
        Stop::Bracket => matches!(a, Token::CloseBracket),
        Stop::Star => matches!(a, Token::Star),
        Stop::DoubleStar => matches!(a, Token::Star) && matches!(b, Token::Star),
    }
}

impl Parser {
    fn parse_linebreak(&mut self) -> (r: Option<InlineNode>)
        requires
            placed(old(self)@),
        ensures
            grammar::parse_linebreak(old(self)@) == Some((final(self)@, opt_inline_view(r))),
            moved_on(old(self)@, final(self)@),
    {
        self.consume();
        let br = match self.peek() {
            Token::Text(tag_name) => {
                let t1 = trim_exec(tag_name.as_str());
                let t2 = strip_end_exec(t1.as_str(), '/');
                let t3 = trim_exec(t2.as_str());
                is_br_exec(t3.as_str()) && matches!(self.peek_next(), Token::GreaterThan)
            },
            _ => false,
        };
        if br {
            self.consume();
            self.consume();
            return Some(InlineNode::LineBreak);
        }
        Some(InlineNode::Text(char_string('<')))
    }

    fn parse_inline_code(&mut self) -> (r: Option<InlineNode>)
        requires
            placed(old(self)@),
        ensures
            grammar::parse_inline_code(old(self)@) == Some((final(self)@, opt_inline_view(r))),
            moved_on(old(self)@, final(self)@),
    {
        let start = self.position;
        let count = self.count_leading_backticks();
        self.consume_backticks(count);
        let ghost s1 = self@;
        let mut code = String::new();
        loop
            invariant_except_break
                grammar::code_span(self@, count as nat, code@) == grammar::code_span(
                    s1,
                    count as nat,
                    seq![],
                ),
            invariant
                start == old(self)@.pos,
                count == grammar::count_backticks(old(self)@.toks, start as int),
                s1 == grammar::consume_backticks(old(self)@, count as nat).0,
                moved_on(old(self)@, s1),
                moved_on(s1, self@),
                self@ == grammar::with_pos(s1, self@.pos),
            ensures
                moved_on(s1, self@),
                grammar::code_span(s1, count as nat, seq![]) == Some((self@, code@)),
            decreases grammar::rem(self@),
        {
            let ghost cur = self@;
            let close = match self.peek() {
                Token::EOF | Token::NewLine | Token::LineBreak => 0usize,
                Token::Backtick => if self.count_leading_backticks() == count {
                    1usize
                } else {
                    2usize
                },
                _ => 2usize,
            };
            if close == 0 {
                self.reset_to(start);
                self.consume();
                return Some(InlineNode::Text(char_string('`')));
            } else if close == 1 {
                self.consume_backticks(count);
                break;
            } else {
                let t = self.peek().to_string();
                code.append(t.as_str());
                self.consume();
            }
        }
        Some(InlineNode::Code(code))
    }

    fn parse_link(&mut self) -> (r: Option<Option<InlineNode>>)
        requires
            placed(old(self)@),
            grammar::peek(old(self)@) is OpenBracket,
        ensures
            match r {
                Some(n) => grammar::parse_link(old(self)@) == Some((final(self)@, opt_inline_view(n)))
                    && moved_on(old(self)@, final(self)@),
                None => grammar::parse_link(old(self)@) is None,
            },
        decreases grammar::rem(old(self)@), 1nat,
    {
        let start = self.position;
        self.consume();
        let children = match self.parse_inline_until(Stop::Bracket) {
            Some(c) => c,
            None => return None,
        };
        if !matches!(self.peek(), Token::CloseBracket) {
            self.reset_to(start);
            self.consume();
            return Some(Some(InlineNode::Text(char_string('['))));
        }
        self.consume();
        if !matches!(self.peek(), Token::OpenParen) {
            self.reset_to(start);
            self.consume();
            return Some(Some(InlineNode::Text(char_string('['))));
        }
        self.consume();
        let ghost s4 = self@;
        let mut title: Option<String> = None;
        let mut href = String::new();
        loop
            invariant_except_break
                grammar::link_target(self@, href@, opt_str_view(title)) == grammar::link_target(
                    s4,
                    seq![],
                    None,
                ),
            invariant
                moved_on(s4, self@),
                moved_on(old(self)@, s4),
                start == old(self)@.pos,
                self@ == grammar::with_pos(s4, self@.pos),
            ensures
                moved_on(s4, self@),
                grammar::link_target(s4, seq![], None) == (self@, href@, opt_str_view(title)),
            decreases grammar::rem(self@),
        {
            if self.end() || matches!(
                self.peek(),
                Token::CloseParen | Token::NewLine | Token::LineBreak
            ) {
                break;
            }
            let kind = match self.peek() {
                Token::Text(_) => 0usize,
                Token::Period | Token::Dash | Token::Hash => 1usize,
                _ => 2usize,
            };
            if kind == 0 {
                let split = match self.peek() {
                    Token::Text(s) => split_once_exec(s.as_str(), ' '),
                    _ => None,
                };
                match split {
                    Some((url, rest)) => {
                        href.append(url.as_str());
                        let rest = trim_exec(rest.as_str());
                        if starts_with_exec(rest.as_str(), '"') && ends_with_exec(rest.as_str(), '"') {
                            title = Some(strip_both_exec(rest.as_str(), '"'));
                        }
                        self.consume();
                        break;
                    },
                    None => {
                        let whole = self.peek().to_string();
                        href.append(whole.as_str());
                        self.consume();
                    },
                }
            } else if kind == 1 {
                let t = self.peek().to_string();
                href.append(t.as_str());
                self.consume();
            } else {
                self.consume();
            }
        }
        if !matches!(self.peek(), Token::CloseParen) {
            self.reset_to(start);
            self.consume();
            return Some(Some(InlineNode::Text(char_string('['))));
        }
        self.consume();
        Some(Some(InlineNode::Link { href, title, children }))
    }

    fn parse_star(&mut self) -> (r: Option<Option<InlineNode>>)
        requires
            placed(old(self)@),
            grammar::peek(old(self)@) is Star,
        ensures
            match r {
                Some(n) => grammar::parse_star(old(self)@) == Some((final(self)@, opt_inline_view(n)))
                    && moved_on(old(self)@, final(self)@),
                None => grammar::parse_star(old(self)@) is None,
            },
        decreases grammar::rem(old(self)@), 1nat,
    {
        let start = self.position;
        self.consume();
        let bold = matches!(self.peek(), Token::Star);
        if bold {
            self.consume()
        }
        let content = match self.parse_inline_until(
            if bold {
                Stop::DoubleStar
            } else {
                Stop::Star
            },
        ) {
            Some(c) => c,
            None => return None,
        };
        let closed = if bold {
            matches!(self.peek(), Token::Star) && matches!(self.peek_next(), Token::Star)
        } else {
            matches!(self.peek(), Token::Star)
        };
        if !closed {
            self.reset_to(start);
            self.consume();
            return Some(Some(InlineNode::Text(char_string('*'))));
        }
        self.consume();
        if bold {
            self.consume();
            Some(Some(InlineNode::Bold(content)))
        } else {
            Some(Some(InlineNode::Italics(content)))
        }
    }

    fn parse_inline(&mut self) -> (r: Option<Option<InlineNode>>)
        requires
            placed(old(self)@),
        ensures
            match r {
                Some(n) => grammar::parse_inline(old(self)@) == Some((final(self)@, opt_inline_view(n)))
                    && moved_on(old(self)@, final(self)@),
                None => grammar::parse_inline(old(self)@) is None,
            },
        decreases grammar::rem(old(self)@), 2nat,
    {
        let kind = match self.peek() {
            Token::Text(_) => 0usize,
            Token::Hash | Token::Equals | Token::GreaterThan | Token::Dash | Token::Period
            | Token::Tab | Token::CloseBracket | Token::OpenParen | Token::CloseParen => 1usize,
            Token::LessThan => 2usize,
            Token::Star => 3usize,
            Token::NewLine => 4usize,
            Token::Backtick => 5usize,
            Token::EOF => 6usize,
            Token::Indent(_) => 7usize,
            Token::LineBreak => 8usize,
            Token::OpenBracket => 9usize,
        };
        if kind == 0 || kind == 1 {
            let content = self.peek().to_string();
            self.consume();
            Some(Some(InlineNode::Text(content)))
        } else if kind == 2 {
            Some(self.parse_linebreak())
        } else if kind == 3 {
            self.parse_star()
        } else if kind == 4 {
            Some(Some(InlineNode::Text(char_string('\n'))))
        } else if kind == 5 {
            Some(self.parse_inline_code())
        } else if kind == 6 {
            Some(None)
        } else if kind == 7 {
            let count = match self.peek() {
                Token::Indent(n) => *n,
                _ => 0,
            };
            self.consume();
            Some(Some(InlineNode::Text(repeat_string(' ', count))))
        } else if kind == 8 {
            self.consume();
            Some(Some(InlineNode::LineBreak))
        } else {
            self.parse_link()
        }
    }

    fn parse_inline_until(&mut self, stop: Stop) -> (r: Option<Vec<InlineNode>>)
        requires
            placed(old(self)@),
        ensures
            match r {
                Some(v) => grammar::parse_inline_until(old(self)@, stop) == Some(
                    (final(self)@, inlines_view(v)),
                ) && moved_on(old(self)@, final(self)@),
                None => grammar::parse_inline_until(old(self)@, stop) is None,
            },
        decreases grammar::rem(old(self)@), 4nat,
    {
        let mut nodes = Vec::new();
        assert(inlines_view(nodes) =~= Seq::<InlineV>::empty());
        loop
            invariant
                moved_on(old(self)@, self@),
                grammar::inline_until_from(self@, stop, inlines_view(nodes))
                    == grammar::parse_inline_until(old(self)@, stop),
            ensures
                moved_on(old(self)@, self@),
                grammar::parse_inline_until(old(self)@, stop) == Some((self@, inlines_view(nodes))),
            decreases grammar::rem(self@),
        {
            if self.end() || matches!(self.peek(), Token::NewLine) || stop_at(
                stop,
                self.peek(),
                self.peek_next(),
            ) {
                break;
            }
            let before = self.position;
            let ghost nv = inlines_view(nodes);
            match self.parse_inline() {
                None => return None,
                Some(n) => {
                    if let Some(node) = n {
                        nodes.push(node);
                        assert(inlines_view(nodes) =~= nv.push(inline_view(node)));
                    }
                },
            }
            if self.position <= before {
                return None;
            }
        }
        Some(nodes)
    }
}

impl Parser {
    /// The token at the cursor becomes the text `t`.
    fn set_text(&mut self, t: String)
        requires
            placed(old(self)@),
            old(self)@.pos < old(self)@.toks.len(),
        ensures
            final(self)@ == grammar::with_text(old(self)@, t@),
            moved_on(old(self)@, final(self)@),
    {
        let ghost t_view = t@;
        self.tokens.set(self.position, Token::Text(t));
        assert(tokens_view(self.tokens@) =~= old(self)@.toks.update(
            self.position as int,
            TokenV::Text(t_view),
        ));
    }

    /// The text at the cursor loses its leading white space; a text left empty is stepped over.
    fn trim_marker(&mut self)
        requires
            placed(old(self)@),
        ensures
            final(self)@ == grammar::trim_marker_text(old(self)@),
            moved_on(old(self)@, final(self)@),
    {
        let trimmed = match self.peek() {
            Token::Text(content) => Some(trim_start_exec(content.as_str())),
            _ => None,
        };
        if let Some(t) = trimmed {
            let empty = is_empty_exec(t.as_str());
            self.set_text(t);
            if empty {
                self.consume();
            }
        }
    }

    /// As `trim_marker`, for a text that starts with a space. False where the
    /// cursor is past the last token (there is no token to look at).
    fn trim_quote(&mut self) -> (ok: bool)
        requires
            placed(old(self)@),
        ensures
            match grammar::trim_quote_text(old(self)@) {
                Some(s) => ok && final(self)@ == s && moved_on(old(self)@, final(self)@),
                None => !ok,
            },
    {
        if self.position >= self.tokens.len() {
            return false;
        }
        let spaced = match &self.tokens[self.position] {
            Token::Text(content) => starts_with_exec(content.as_str(), ' '),
            _ => false,
        };
        if spaced {
            self.trim_marker();
        }
        true
    }

    fn parse_inline_until_newline(&mut self) -> (r: Option<Vec<InlineNode>>)
        requires
            placed(old(self)@),
        ensures
            match r {
                Some(v) => grammar::parse_inline_until_newline(old(self)@) == Some(
                    (final(self)@, inlines_view(v)),
                ) && moved_on(old(self)@, final(self)@),
                None => grammar::parse_inline_until_newline(old(self)@) is None,
            },
    {
        let mut out = Vec::new();
        assert(inlines_view(out) =~= Seq::<InlineV>::empty());
        loop
            invariant
                moved_on(old(self)@, self@),
                grammar::inline_line_from(self@, inlines_view(out))
                    == grammar::parse_inline_until_newline(old(self)@),
            ensures
                moved_on(old(self)@, self@),
                grammar::parse_inline_until_newline(old(self)@) == Some(
                    (self@, inlines_view(out)),
                ),
            decreases grammar::rem(self@),
        {
            if self.end() || matches!(self.peek(), Token::NewLine | Token::LineBreak) {
                break;
            }
            let before = self.position;
            let ghost ov = inlines_view(out);
            match self.parse_inline() {
                Some(Some(result)) => {
                    out.push(result);
                    assert(inlines_view(out) =~= ov.push(inline_view(result)));
                },
                _ => return None,
            }
            if self.position <= before {
                return None;
            }
        }
        Some(out)
    }

    fn parse_paragraph(&mut self) -> (r: Option<BlockNode>)
        requires
            placed(old(self)@),
        ensures
            match r {
                Some(b) => grammar::parse_paragraph(old(self)@) == Some((final(self)@, block_view(b)))
                    && moved_on(old(self)@, final(self)@),
                None => grammar::parse_paragraph(old(self)@) is None,
            },
    {
        let mut result = Vec::new();
        assert(inlines_view(result) =~= Seq::<InlineV>::empty());
        loop
            invariant_except_break
                grammar::paragraph_from(self@, inlines_view(result)) == grammar::paragraph_from(
                    old(self)@,
                    seq![],
                ),
            invariant
                moved_on(old(self)@, self@),
            ensures
                grammar::paragraph_from(old(self)@, seq![]) == Some((self@, inlines_view(result))),
            decreases grammar::rem(self@),
        {
            let ghost cur = self@;
            let ghost acc = inlines_view(result);
            let mut line = match self.parse_inline_until_newline() {
                Some(l) => l,
                None => return None,
            };
            let ghost lv = inlines_view(line);
            result.append(&mut line);
            assert(inlines_view(result) =~= acc + lv);
            if self.end() || !matches!(self.peek(), Token::NewLine) {
                break;
            }
            let start = self.position;
            let ghost s1 = self@;
            self.consume();
            let ghost s2 = self@;
            while matches!(self.peek(), Token::Indent(_))
                invariant
                    grammar::skip_indents(self@) == grammar::skip_indents(s2),
                    moved_on(s2, self@),
                    self@ == grammar::with_pos(s2, self@.pos),
                decreases grammar::rem(self@),
            {
                self.consume();
            }
            if self.starts_block() {
                self.reset_to(start);
                break;
            }
        }
        Some(BlockNode::Paragraph(result))
    }

    fn paragraph_block(&mut self) -> (r: Option<Option<BlockNode>>)
        requires
            placed(old(self)@),
        ensures
            match r {
                Some(b) => grammar::paragraph_block(old(self)@) == Some(
                    (final(self)@, opt_block_view(b)),
                ) && moved_on(old(self)@, final(self)@),
                None => grammar::paragraph_block(old(self)@) is None,
            },
    {
        match self.parse_paragraph() {
            Some(p) => Some(Some(p)),
            None => None,
        }
    }

    fn parse_hash(&mut self) -> (r: Option<Option<BlockNode>>)
        requires
            placed(old(self)@),
        ensures
            match r {
                Some(b) => grammar::parse_hash(old(self)@) == Some((final(self)@, opt_block_view(b)))
                    && moved_on(old(self)@, final(self)@),
                None => grammar::parse_hash(old(self)@) is None,
            },
    {
        let start = self.position;
        let mut count: u8 = 0;
        while matches!(self.peek(), Token::Hash)
            invariant
                grammar::count_hashes(self@, count as nat) == grammar::count_hashes(old(self)@, 0),
                moved_on(old(self)@, self@),
                self@ == grammar::with_pos(old(self)@, self@.pos),
                start == old(self)@.pos,
            decreases grammar::rem(self@),
        {
            if count == 255 {
                proof {
                    grammar::lemma_count_hashes_from(grammar::consume(self@), 256);
                }
                return None;
            }
            count += 1;
            self.consume();
        }
        let heading = match self.peek() {
            Token::Text(content) => (starts_with_exec(content.as_str(), ' ') || starts_with_exec(
                content.as_str(),
                '\t',
            )) && count < 7,
            _ => false,
        };
        if heading {
            let trimmed = match self.peek() {
                Token::Text(content) => trim_start_exec(content.as_str()),
                _ => String::new(),
            };
            self.set_text(trimmed);
            let content = match self.parse_inline_until_newline() {
                Some(c) => c,
                None => return None,
            };
            return Some(Some(BlockNode::Heading { level: count, content }));
        }
        self.reset_to(start);
        self.paragraph_block()
    }
}

impl Parser {
    /// Steps to the next `NewLine` or the end.
    fn skip_line(&mut self)
        requires
            placed(old(self)@),
        ensures
            final(self)@ == grammar::skip_line(old(self)@),
            moved_on(old(self)@, final(self)@),
            final(self)@ == grammar::with_pos(old(self)@, final(self)@.pos),
    {
        while !matches!(self.peek(), Token::NewLine | Token::EOF)
            invariant
                grammar::skip_line(self@) == grammar::skip_line(old(self)@),
                moved_on(old(self)@, self@),
                self@ == grammar::with_pos(old(self)@, self@.pos),
            decreases grammar::rem(self@),
        {
            self.consume();
        }
    }

    fn parse_backtick(&mut self) -> (r: Option<Option<BlockNode>>)
        requires
            placed(old(self)@),
        ensures
            match r {
                Some(b) => grammar::parse_backtick(old(self)@) == Some(
                    (final(self)@, opt_block_view(b)),
                ) && moved_on(old(self)@, final(self)@),
                None => grammar::parse_backtick(old(self)@) is None,
            },
    {
        let start = self.position;
        let opening = self.count_leading_backticks();
        if opening < 3 {
            return self.paragraph_block();
        }
        self.consume_backticks(opening);
        let language = match self.peek() {
            Token::Text(s) => Some(trim_exec(s.as_str())),
            _ => None,
        };
        if language.is_some() {
            self.consume();
        }
        self.skip_line();
        if !matches!(self.peek(), Token::NewLine) {
            self.reset_to(start);
            return self.paragraph_block();
        }
        let ghost s3 = self@;
        self.consume();
        let ghost s4 = self@;
        assert(grammar::parse_backtick(old(self)@) == match grammar::fence_body(s4, opening as nat, seq![]) {
            None => grammar::paragraph_block(grammar::with_pos(s4, start as nat)),
            Some((s5, code)) => Some((s5, Some(BlockV::CodeBlock { language: opt_str_view(language), code }))),
        });
        let mut code = String::new();
        loop
            invariant_except_break
                grammar::fence_body(self@, opening as nat, code@) == grammar::fence_body(
                    s4,
                    opening as nat,
                    seq![],
                ),
            invariant
                moved_on(old(self)@, s4),
                moved_on(s4, self@),
                self@ == grammar::with_pos(s4, self@.pos),
                start == old(self)@.pos,
                opening == grammar::count_backticks(old(self)@.toks, old(self)@.pos as int),
                grammar::parse_backtick(old(self)@) == match grammar::fence_body(
                    s4,
                    opening as nat,
                    seq![],
                ) {
                    None => grammar::paragraph_block(grammar::with_pos(s4, start as nat)),
                    Some((s5, code)) => Some(
                        (
                            s5,
                            Some(BlockV::CodeBlock { language: opt_str_view(language), code }),
                        ),
                    ),
                },
            ensures
                grammar::fence_body(s4, opening as nat, seq![]) == Some((self@, code@)),
            decreases grammar::rem(self@),
        {
            let kind = match self.peek() {
                Token::EOF => 0usize,
                Token::Backtick => if self.count_leading_backticks() >= opening {
                    1usize
                } else {
                    2usize
                },
                _ => 2usize,
            };
            if kind == 0 {
                self.reset_to(start);
                return self.paragraph_block();
            } else if kind == 1 {
                self.consume_backticks(opening);
                self.skip_line();
                break;
            } else {
                let t = self.peek().to_string();
                code.append(t.as_str());
                self.consume();
            }
        }
        Some(Some(BlockNode::CodeBlock { language, code }))
    }
}

impl Parser {
    /// After a list item: steps over the line end (and an indentation of
    /// `indent_level`) where the list goes on, and tells whether it does. A
    /// blank line ends the list and stays for the blocks around it to see.
    fn list_next(&mut self, indent_level: usize) -> (more: bool)
        requires
            placed(old(self)@),
        ensures
            (final(self)@, more) == grammar::list_next(old(self)@, indent_level as nat),
            moved_on(old(self)@, final(self)@),
            more ==> final(self)@.pos > old(self)@.pos,
    {
        match self.peek() {
            Token::NewLine => {
                let same_indent = match self.peek_next() {
                    Token::Indent(n) => *n == indent_level,
                    _ => false,
                };
                if same_indent {
                    self.consume();
                } else if indent_level != 0 {
                    return false;
                }
                self.consume();
                true
            },
            _ => false,
        }
    }

    fn parse_unordered_list(&mut self) -> (r: Option<Option<BlockNode>>)
        requires
            placed(old(self)@),
        ensures
            match r {
                Some(b) => grammar::parse_unordered_list(old(self)@) == Some(
                    (final(self)@, opt_block_view(b)),
                ) && moved_on(old(self)@, final(self)@),
                None => grammar::parse_unordered_list(old(self)@) is None,
            },
        decreases grammar::rem(old(self)@), 5nat, 0nat,
    {
        let current_indent = self.indent_level;
        let spaced = match self.peek_next() {
            Token::Text(s) => starts_with_exec(s.as_str(), ' '),
            _ => false,
        };
        if !spaced {
            self.paragraph_block()
        } else {
            self.parse_unordered_list_at(current_indent)
        }
    }

    #[verifier::spinoff_prover]
    #[verifier::rlimit(50)]
    fn parse_unordered_list_at(&mut self, indent_level: usize) -> (r: Option<Option<BlockNode>>)
        requires
            placed(old(self)@),
        ensures
            match r {
                Some(b) => grammar::parse_unordered_list_at(old(self)@, indent_level as nat) == Some(
                    (final(self)@, opt_block_view(b)),
                ) && moved_on(old(self)@, final(self)@),
                None => grammar::parse_unordered_list_at(old(self)@, indent_level as nat) is None,
            },
        decreases grammar::rem(old(self)@), 4nat, 0nat,
    {
        let current_indent = self.indent_level;
        let mut items: Vec<ListItem> = Vec::new();
        assert(items_view(items) =~= Seq::<Seq<BlockV>>::empty());
        loop
            invariant_except_break
                grammar::unordered_items_from(
                    self@,
                    indent_level as nat,
                    current_indent as nat,
                    items_view(items),
                ) == grammar::unordered_items_from(
                    old(self)@,
                    indent_level as nat,
                    current_indent as nat,
                    seq![],
                ),
            invariant
                moved_on(old(self)@, self@),
                current_indent == old(self)@.indent,
            ensures
                grammar::unordered_items_from(
                    old(self)@,
                    indent_level as nat,
                    current_indent as nat,
                    seq![],
                ) == Some((self@, items_view(items))),
            decreases grammar::rem(self@),
        {
            let start = self.position;
            if !matches!(self.peek(), Token::Dash) {
                break;
            }
            self.consume();
            let spaced = match self.peek() {
                Token::Text(t) => starts_with_exec(t.as_str(), ' '),
                _ => false,
            };
            if !spaced {
                self.reset_to(start);
                break;
            }
            self.trim_marker();
            let item = match self.parse_list_item(current_indent) {
                Some(Some(item)) => item,
                _ => return None,
            };
            let ghost iv = items_view(items);
            items.push(item);
            assert(items_view(items) =~= iv.push(item_view(item)));
            if !self.list_next(indent_level) {
                break;
            }
        }
        if items.is_empty() {
            Some(None)
        } else {
            Some(Some(BlockNode::UnorderedList(items)))
        }
    }

    fn parse_ordered_list(&mut self) -> (r: Option<Option<BlockNode>>)
        requires
            placed(old(self)@),
        ensures
            match r {
                Some(b) => grammar::parse_ordered_list(old(self)@) == Some(
                    (final(self)@, opt_block_view(b)),
                ) && moved_on(old(self)@, final(self)@),
                None => grammar::parse_ordered_list(old(self)@) is None,
            },
        decreases grammar::rem(old(self)@), 5nat, 0nat,
    {
        let start = self.position;
        let current_indent = self.indent_level;
        self.consume();
        let spaced = match self.peek_next() {
            Token::Text(s) => starts_with_exec(s.as_str(), ' '),
            _ => false,
        };
        self.reset_to(start);
        if !spaced {
            self.paragraph_block()
        } else {
            self.parse_ordered_list_at(current_indent)
        }
    }

    #[verifier::spinoff_prover]
    #[verifier::rlimit(50)]
    fn parse_ordered_list_at(&mut self, indent_level: usize) -> (r: Option<Option<BlockNode>>)
        requires
            placed(old(self)@),
        ensures
            match r {
                Some(b) => grammar::parse_ordered_list_at(old(self)@, indent_level as nat) == Some(
                    (final(self)@, opt_block_view(b)),
                ) && moved_on(old(self)@, final(self)@),
                None => grammar::parse_ordered_list_at(old(self)@, indent_level as nat) is None,
            },
        decreases grammar::rem(old(self)@), 4nat, 0nat,
    {
        let current_indent = self.indent_level;
        let mut items: Vec<ListItem> = Vec::new();
        assert(items_view(items) =~= Seq::<Seq<BlockV>>::empty());
        loop
            invariant_except_break
                grammar::ordered_items_from(
                    self@,
                    indent_level as nat,
                    current_indent as nat,
                    items_view(items),
                ) == grammar::ordered_items_from(
                    old(self)@,
                    indent_level as nat,
                    current_indent as nat,
                    seq![],
                ),
            invariant
                moved_on(old(self)@, self@),
                current_indent == old(self)@.indent,
            ensures
                grammar::ordered_items_from(
                    old(self)@,
                    indent_level as nat,
                    current_indent as nat,
                    seq![],
                ) == Some((self@, items_view(items))),
            decreases grammar::rem(self@),
        {
            let start = self.position;
            let marker = match self.peek() {
                Token::Text(content) => all_digits_exec(content.as_str()),
                _ => false,
            } && matches!(self.peek_next(), Token::Period);
            if !marker {
                break;
            }
            self.consume();
            self.consume();
            let spaced = match self.peek() {
                Token::Text(t) => starts_with_exec(t.as_str(), ' '),
                _ => false,
            };
            if !spaced {
                self.reset_to(start);
                break;
            }
            self.trim_marker();
            let item = match self.parse_list_item(current_indent) {
                Some(Some(item)) => item,
                _ => return None,
            };
            let ghost iv = items_view(items);
            items.push(item);
            assert(items_view(items) =~= iv.push(item_view(item)));
            if !self.list_next(indent_level) {
                break;
            }
        }
        if items.is_empty() {
            Some(None)
        } else {
            Some(Some(BlockNode::OrderedList(items)))
        }
    }

    #[verifier::spinoff_prover]
    #[verifier::rlimit(50)]
    fn parse_list_item(&mut self, indent_level: usize) -> (r: Option<Option<ListItem>>)
        requires
            placed(old(self)@),
        ensures
            match r {
                Some(it) => grammar::parse_list_item(old(self)@, indent_level as nat) == Some(
                    (final(self)@, opt_item_view(it)),
                ) && moved_on(old(self)@, final(self)@),
                None => grammar::parse_list_item(old(self)@, indent_level as nat) is None,
            },
        decreases grammar::rem(old(self)@), 9nat, 0nat,
    {
        let first_line = match self.parse_until_newline() {
            Some(f) => f,
            None => return None,
        };
        if first_line.is_empty() {
            return Some(None);
        }
        let ghost s1 = self@;
        let ghost fv = blocks_view(first_line);
        let mut blocks = first_line;
        loop
            invariant_except_break
                grammar::item_lines_from(self@, indent_level as nat, blocks_view(blocks))
                    == grammar::item_lines_from(s1, indent_level as nat, fv),
            invariant
                moved_on(old(self)@, s1),
                moved_on(s1, self@),
                fv.len() > 0,
                grammar::parse_list_item(old(self)@, indent_level as nat) == match grammar::item_lines_from(
                    s1,
                    indent_level as nat,
                    fv,
                ) {
                    None => None,
                    Some((s2, b)) => Some((s2, Some(b))),
                },
            ensures
                grammar::item_lines_from(s1, indent_level as nat, fv) == Some(
                    (self@, blocks_view(blocks)),
                ),
            decreases grammar::rem(self@),
        {
            if !matches!(self.peek(), Token::NewLine) {
                break;
            }
            self.indent_level = 0;
            let deeper = match self.peek_next() {
                Token::Indent(n) => *n > indent_level,
                _ => false,
            };
            if !deeper {
                break;
            }
            let new_indent = match self.peek_next() {
                Token::Indent(n) => *n,
                _ => 0,
            };
            self.indent_level = new_indent;
            self.consume();
            self.consume();
            if matches!(self.peek(), Token::EOF | Token::LineBreak) {
                break;
            }
            let mut more = match self.parse_until_newline() {
                Some(m) => m,
                None => return None,
            };
            let ghost bv = blocks_view(blocks);
            let ghost mv = blocks_view(more);
            blocks.append(&mut more);
            assert(blocks_view(blocks) =~= bv + mv);
        }
        Some(Some(ListItem(blocks)))
    }

    fn parse_until_newline(&mut self) -> (r: Option<Vec<BlockNode>>)
        requires
            placed(old(self)@),
        ensures
            match r {
                Some(v) => grammar::parse_until_newline(old(self)@) == Some(
                    (final(self)@, blocks_view(v)),
                ) && moved_on(old(self)@, final(self)@),
                None => grammar::parse_until_newline(old(self)@) is None,
            },
        decreases grammar::rem(old(self)@), 8nat, 0nat,
    {
        let mut out = Vec::new();
        assert(blocks_view(out) =~= Seq::<BlockV>::empty());
        loop
            invariant
                moved_on(old(self)@, self@),
                grammar::blocks_line_from(self@, blocks_view(out)) == grammar::parse_until_newline(
                    old(self)@,
                ),
            ensures
                moved_on(old(self)@, self@),
                grammar::parse_until_newline(old(self)@) == Some((self@, blocks_view(out))),
            decreases grammar::rem(self@),
        {
            if self.end() || matches!(self.peek(), Token::NewLine | Token::LineBreak) {
                break;
            }
            let before = self.position;
            let ghost ov = blocks_view(out);
            match self.parse_block() {
                Some(Some(result)) => {
                    out.push(result);
                    assert(blocks_view(out) =~= ov.push(block_view(result)));
                },
                _ => return None,
            }
            if self.position <= before {
                return None;
            }
        }
        Some(out)
    }
}

impl Parser {
    fn parse_blockquote(&mut self) -> (r: Option<Option<BlockNode>>)
        requires
            placed(old(self)@),
        ensures
            match r {
                Some(b) => grammar::parse_blockquote(old(self)@) == Some(
                    (final(self)@, opt_block_view(b)),
                ) && moved_on(old(self)@, final(self)@),
                None => grammar::parse_blockquote(old(self)@) is None,
            },
        decreases grammar::rem(old(self)@), 5nat, 0nat,
    {
        self.parse_blockquote_at(1)
    }

    #[verifier::spinoff_prover]
    #[verifier::rlimit(50)]
    fn parse_blockquote_at(&mut self, depth: usize) -> (r: Option<Option<BlockNode>>)
        requires
            placed(old(self)@),
        ensures
            match r {
                Some(b) => grammar::parse_blockquote_at(old(self)@, depth as nat) == Some(
                    (final(self)@, opt_block_view(b)),
                ) && moved_on(old(self)@, final(self)@),
                None => grammar::parse_blockquote_at(old(self)@, depth as nat) is None,
            },
        decreases grammar::rem(old(self)@), 4nat, grammar::quote_measure(
            old(self)@,
            depth as nat,
            true,
        ),
    {
        let mut blocks: Vec<BlockNode> = vec![];
        assert(blocks_view(blocks) =~= Seq::<BlockV>::empty());
        loop
            invariant_except_break
                grammar::quote_from(self@, depth as nat, blocks_view(blocks)) == grammar::quote_from(
                    old(self)@,
                    depth as nat,
                    seq![],
                ),
                grammar::rem(self@) < grammar::rem(old(self)@) || self@ == old(self)@,
            invariant
                moved_on(old(self)@, self@),
            ensures
                grammar::quote_from(old(self)@, depth as nat, seq![]) == Some(
                    (self@, blocks_view(blocks)),
                ),
            decreases grammar::rem(self@),
        {
            let loop_start = self.position;
            let gt_count = self.count_leading_gt();
            if gt_count < depth {
                break;
            }
            let ghost bv = blocks_view(blocks);
            if gt_count > depth {
                match self.parse_blockquote_at(depth + 1) {
                    Some(inner) => {
                        if let Some(inner) = inner {
                            blocks.push(inner);
                            assert(blocks_view(blocks) =~= bv.push(block_view(inner)));
                        }
                    },
                    None => return None,
                }
                if self.position <= loop_start {
                    return None;
                }
                continue;
            }
            self.consume_gts(depth);
            if !self.trim_quote() {
                return None;
            }
            if matches!(self.peek(), Token::EOF | Token::LineBreak) {
                break;
            }
            if self.starts_block() {
                if self.position <= loop_start {
                    return None;
                }
                match self.parse_block() {
                    Some(block) => {
                        if let Some(block) = block {
                            blocks.push(block);
                            assert(blocks_view(blocks) =~= bv.push(block_view(block)));
                        }
                    },
                    None => return None,
                }
            } else {
                let inline = match self.quote_paragraph(depth) {
                    Some(inline) => inline,
                    None => return None,
                };
                if !inline.is_empty() {
                    let ghost iv = inlines_view(inline);
                    blocks.push(BlockNode::Paragraph(inline));
                    assert(blocks_view(blocks) =~= bv.push(BlockV::Paragraph(iv)));
                }
            }
            if matches!(self.peek(), Token::NewLine) {
                self.consume();
            }
            if self.position <= loop_start {
                return None;
            }
        }
        if blocks.is_empty() {
            Some(None)
        } else {
            Some(Some(BlockNode::BlockQuote(blocks)))
        }
    }

    /// The lines of a paragraph inside a block quote: each following line that
    /// starts with `depth` markers and does not start a block joins it.
    fn quote_paragraph(&mut self, depth: usize) -> (r: Option<Vec<InlineNode>>)
        requires
            placed(old(self)@),
        ensures
            match r {
                Some(v) => grammar::quote_paragraph(old(self)@, depth as nat) == Some(
                    (final(self)@, inlines_view(v)),
                ) && moved_on(old(self)@, final(self)@),
                None => grammar::quote_paragraph(old(self)@, depth as nat) is None,
            },
    {
        let mut inline = match self.parse_inline_until_newline() {
            Some(v) => v,
            None => return None,
        };
        let ghost s1 = self@;
        let ghost first = inlines_view(inline);
        loop
            invariant_except_break
                grammar::quote_lines_from(self@, depth as nat, inlines_view(inline))
                    == grammar::quote_lines_from(s1, depth as nat, first),
            invariant
                moved_on(old(self)@, s1),
                moved_on(s1, self@),
                grammar::quote_paragraph(old(self)@, depth as nat) == grammar::quote_lines_from(
                    s1,
                    depth as nat,
                    first,
                ),
            ensures
                grammar::quote_lines_from(s1, depth as nat, first) == Some(
                    (self@, inlines_view(inline)),
                ),
            decreases grammar::rem(self@),
        {
            if !matches!(self.peek(), Token::NewLine) {
                break;
            }
            self.consume();
            if self.count_leading_gt() != depth {
                break;
            }
            let saved = self.position;
            self.consume();
            self.consume_gts(depth);
            if !self.trim_quote() {
                return None;
            }
            if self.starts_block() {
                self.reset_to(saved);
                break;
            }
            let mut more = match self.parse_inline_until_newline() {
                Some(m) => m,
                None => return None,
            };
            let ghost iv = inlines_view(inline);
            let ghost mv = inlines_view(more);
            inline.append(&mut more);
            assert(inlines_view(inline) =~= iv + mv);
        }
        Some(inline)
    }

    fn parse_block(&mut self) -> (r: Option<Option<BlockNode>>)
        requires
            placed(old(self)@),
        ensures
            match r {
                Some(b) => grammar::parse_block(old(self)@) == Some((final(self)@, opt_block_view(b)))
                    && moved_on(old(self)@, final(self)@),
                None => grammar::parse_block(old(self)@) is None,
            },
        decreases grammar::rem(old(self)@), 6nat, 0nat,
    {
        let kind = match self.peek() {
            Token::Hash => 0usize,
            Token::Dash => 1usize,
            Token::Star | Token::LessThan => 2usize,
            Token::GreaterThan => 3usize,
            Token::OpenBracket => 2usize,
            Token::Backtick => 4usize,
            Token::Text(content) => if all_digits_exec(content.as_str()) && matches!(
                self.peek_next(),
                Token::Period
            ) {
                5usize
            } else {
                2usize
            },
            Token::NewLine | Token::LineBreak => 6usize,
            Token::Indent(_) => 7usize,
            Token::Equals | Token::Tab | Token::Period => 2usize,
            Token::EOF => 8usize,
            Token::CloseBracket | Token::OpenParen | Token::CloseParen => 2usize,
        };
        if kind == 0 {
            self.parse_hash()
        } else if kind == 1 {
            self.parse_unordered_list()
        } else if kind == 2 {
            self.paragraph_block()
        } else if kind == 3 {
            self.parse_blockquote()
        } else if kind == 4 {
            self.parse_backtick()
        } else if kind == 5 {
            self.parse_ordered_list()
        } else if kind == 6 {
            self.indent_level = 0;
            self.consume();
            Some(None)
        } else if kind == 7 {
            let n = match self.peek() {
                Token::Indent(n) => *n,
                _ => 0,
            };
            self.indent_level = n;
            self.consume();
            Some(None)
        } else {
            Some(None)
        }
    }

    /// The document of the tokens from the cursor on, or `None` where the parser
    /// would not return on them (it would panic or loop forever).
    pub fn try_parse(&mut self) -> (r: Option<Vec<BlockNode>>)
        requires
            placed(old(self)@),
        ensures
            match r {
                Some(v) => grammar::parse_from(old(self)@, seq![]) == Some(
                    (final(self)@, blocks_view(v)),
                ),
                None => grammar::parse_from(old(self)@, seq![]) is None,
            },
    {
        let mut result = Vec::new();
        assert(blocks_view(result) =~= Seq::<BlockV>::empty());
        loop
            invariant
                moved_on(old(self)@, self@),
                grammar::parse_from(self@, blocks_view(result)) == grammar::parse_from(
                    old(self)@,
                    seq![],
                ),
            ensures
                grammar::parse_from(old(self)@, seq![]) == Some((self@, blocks_view(result))),
            decreases grammar::rem(self@),
        {
            if self.end() {
                break;
            }
            let before = self.position;
            let ghost rv = blocks_view(result);
            match self.parse_block() {
                Some(Some(block)) => {
                    result.push(block);
                    assert(blocks_view(result) =~= rv.push(block_view(block)));
                },
                Some(None) => {},
                None => return None,
            }
            if self.position <= before {
                return None;
            }
        }
        Some(result)
    }

    /// The document of the tokens from the cursor on.
    pub fn parse(&mut self) -> (blocks: Vec<BlockNode>)
        requires
            placed(old(self)@),
            grammar::parse_from(old(self)@, seq![]) is Some,
        ensures
            grammar::parse_from(old(self)@, seq![]) == Some((final(self)@, blocks_view(blocks))),
    {
        match self.try_parse() {
            Some(blocks) => blocks,
            None => Vec::new(),
        }
    }
}

} // verus!
