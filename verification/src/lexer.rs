use vstd::prelude::*;

use crate::text::{char_string, collect_chars, push_char, repeat_char, repeat_string};

verus! {

/// A lexical token of markdown source.
#[derive(Debug, PartialEq, PartialOrd)]
pub enum Token {
    Hash,
    Equals,
    Star,
    Dash,
    LessThan,
    GreaterThan,
    Period,
    NewLine,
    Tab,
    EOF,
    Indent(usize),
    LineBreak,
    Text(String),
    Backtick,
    OpenBracket,
    CloseBracket,
    OpenParen,
    CloseParen,
}

/// The mathematical value of a `Token`.
pub enum TokenV {
    Hash,
    Equals,
    Star,
    Dash,
    LessThan,
    GreaterThan,
    Period,
    NewLine,
    Tab,
    EOF,
    Indent(nat),
    LineBreak,
    Text(Seq<char>),
    Backtick,
    OpenBracket,
    CloseBracket,
    OpenParen,
    CloseParen,
}

impl View for Token {
    type V = TokenV;

    open spec fn view(&self) -> TokenV {
        match self {
            Token::Hash => TokenV::Hash,
            Token::Equals => TokenV::Equals,
            Token::Star => TokenV::Star,
            Token::Dash => TokenV::Dash,
            Token::LessThan => TokenV::LessThan,
            Token::GreaterThan => TokenV::GreaterThan,
            Token::Period => TokenV::Period,
            Token::NewLine => TokenV::NewLine,
            Token::Tab => TokenV::Tab,
            Token::EOF => TokenV::EOF,
            Token::Indent(n) => TokenV::Indent(*n as nat),
            Token::LineBreak => TokenV::LineBreak,
            Token::Text(s) => TokenV::Text(s@),
            Token::Backtick => TokenV::Backtick,
            Token::OpenBracket => TokenV::OpenBracket,
            Token::CloseBracket => TokenV::CloseBracket,
            Token::OpenParen => TokenV::OpenParen,
            Token::CloseParen => TokenV::CloseParen,
        }
    }
}

/// The values of a sequence of tokens.
pub open spec fn tokens_view(v: Seq<Token>) -> Seq<TokenV> {
    v.map_values(|t: Token| t@)
}

/// The source text a token stands for.
pub open spec fn token_text(t: TokenV) -> Seq<char> {
    match t {
        TokenV::Hash => seq!['#'],
        TokenV::Equals => seq!['='],
        TokenV::Star => seq!['*'],
        TokenV::Dash => seq!['-'],
        TokenV::LessThan => seq!['<'],
        TokenV::GreaterThan => seq!['>'],
        TokenV::Period => seq!['.'],
        TokenV::NewLine => seq!['\n'],
        TokenV::Tab => seq!['\t'],
        TokenV::EOF => seq![],
        TokenV::Indent(n) => repeat_char(' ', n),
        TokenV::LineBreak => seq!['\n'],
        TokenV::Text(s) => s,
        TokenV::Backtick => seq!['`'],
        TokenV::OpenBracket => seq!['['],
        TokenV::CloseBracket => seq![']'],
        TokenV::OpenParen => seq!['('],
        TokenV::CloseParen => seq![')'],
    }
}

impl Token {
    /// The source text this token stands for.
    pub fn to_string(&self) -> (s: String)
        ensures
            s@ == token_text(self@),
    {
        match self {
            Token::Hash => char_string('#'),
            Token::Equals => char_string('='),
            Token::Star => char_string('*'),
            Token::Dash => char_string('-'),
            Token::LessThan => char_string('<'),
            Token::GreaterThan => char_string('>'),
            Token::Period => char_string('.'),
            Token::NewLine => char_string('\n'),
            Token::Tab => char_string('\t'),
            Token::EOF => String::new(),
            Token::Text(s) => s.clone(),
            Token::Indent(times) => repeat_string(' ', *times),
            Token::LineBreak => char_string('\n'),
            Token::Backtick => char_string('`'),
            Token::OpenBracket => char_string('['),
            Token::CloseBracket => char_string(']'),
            Token::OpenParen => char_string('('),
            Token::CloseParen => char_string(')'),
        }
    }
}

} // verus!

verus! {

/// The characters that end a run of text and stand for tokens of their own.
pub open spec fn is_special(c: char) -> bool {
    ||| c == '#'
    ||| c == '='
    ||| c == '*'
    ||| c == '-'
    ||| c == '<'
    ||| c == '>'
    ||| c == '.'
    ||| c == '\n'
    ||| c == '\t'
    ||| c == '`'
    ||| c == '['
    ||| c == ']'
    ||| c == '('
    ||| c == ')'
}

/// The token of a special character other than a newline.
pub open spec fn symbol_token(c: char) -> TokenV {
    if c == '#' {
        TokenV::Hash
    } else if c == '=' {
        TokenV::Equals
    } else if c == '*' {
        TokenV::Star
    } else if c == '-' {
        TokenV::Dash
    } else if c == '<' {
        TokenV::LessThan
    } else if c == '>' {
        TokenV::GreaterThan
    } else if c == '.' {
        TokenV::Period
    } else if c == '\t' {
        TokenV::Tab
    } else if c == '`' {
        TokenV::Backtick
    } else if c == '[' {
        TokenV::OpenBracket
    } else if c == ']' {
        TokenV::CloseBracket
    } else if c == '(' {
        TokenV::OpenParen
    } else {
        TokenV::CloseParen
    }
}

/// The number of leading characters of `s` that are not special.
pub open spec fn text_run(s: Seq<char>) -> nat
    decreases s.len(),
{
    if s.len() == 0 || is_special(s[0]) {
        0
    } else {
        1 + text_run(s.drop_first())
    }
}

/// The number of leading newlines of `s`.
pub open spec fn newline_run(s: Seq<char>) -> nat
    decreases s.len(),
{
    if s.len() == 0 || s[0] != '\n' {
        0
    } else {
        1 + newline_run(s.drop_first())
    }
}

/// The number of leading spaces and tabs of `s`.
pub open spec fn blank_run(s: Seq<char>) -> nat
    decreases s.len(),
{
    if s.len() == 0 || (s[0] != ' ' && s[0] != '\t') {
        0
    } else {
        1 + blank_run(s.drop_first())
    }
}

/// The column reached from column `w` by one more space or tab (tab stops every four columns).
pub open spec fn indent_step(w: nat, c: char) -> nat {
    if c == '\t' {
        (w + 4 - w % 4) as nat
    } else {
        w + 1
    }
}

/// The column reached after the blanks `s`, starting at column 0.
pub open spec fn indent_width(s: Seq<char>) -> nat
    decreases s.len(),
{
    if s.len() == 0 {
        0
    } else {
        indent_step(indent_width(s.drop_last()), s.last())
    }
}

/// What follows a newline: the tokens emitted for it and how many characters
/// of `r` (the text after that newline) they take.
pub open spec fn newline_tokens(r: Seq<char>) -> (Seq<TokenV>, nat) {
    let (first, k) = if r.len() > 0 && r[0] == '\n' {
        (TokenV::LineBreak, newline_run(r))
    } else {
        (TokenV::NewLine, 0nat)
    };
    let w = blank_run(r.skip(k as int));
    let width = indent_width(r.skip(k as int).take(w as int));
    if width > 0 {
        (seq![first, TokenV::Indent(width)], k + w)
    } else {
        (seq![first], k + w)
    }
}

/// One step of lexing a non-empty input: the tokens for its start and how many characters they take.
pub open spec fn lex_step(s: Seq<char>) -> (Seq<TokenV>, nat) {
    let c = s[0];
    if c == '\n' {
        let (toks, n) = newline_tokens(s.drop_first());
        (toks, n + 1)
    } else if is_special(c) {
        (seq![symbol_token(c)], 1nat)
    } else {
        let n = text_run(s.drop_first()) + 1;
        (seq![TokenV::Text(s.take(n as int))], n)
    }
}

/// The tokens of the source text `s`, ended by `EOF`.
pub open spec fn spec_lex(s: Seq<char>) -> Seq<TokenV>
    decreases s.len(),
{
    if s.len() == 0 {
        seq![TokenV::EOF]
    } else {
        let (toks, n) = lex_step(s);
        if 0 < n <= s.len() {
            toks + spec_lex(s.skip(n as int))
        } else {
            toks
        }
    }
}

pub proof fn lemma_text_run_le(s: Seq<char>)
    ensures
        text_run(s) <= s.len(),
    decreases s.len(),
{
    if s.len() > 0 && !is_special(s[0]) {
        lemma_text_run_le(s.drop_first());
    }
}

pub proof fn lemma_newline_run_le(s: Seq<char>)
    ensures
        newline_run(s) <= s.len(),
    decreases s.len(),
{
    if s.len() > 0 && s[0] == '\n' {
        lemma_newline_run_le(s.drop_first());
    }
}

pub proof fn lemma_blank_run_le(s: Seq<char>)
    ensures
        blank_run(s) <= s.len(),
    decreases s.len(),
{
    if s.len() > 0 && (s[0] == ' ' || s[0] == '\t') {
        lemma_blank_run_le(s.drop_first());
    }
}

pub proof fn lemma_indent_width_le(s: Seq<char>)
    ensures
        indent_width(s) <= 4 * s.len(),
        s.len() > 0 ==> indent_width(s) > 0,
    decreases s.len(),
{
    if s.len() > 0 {
        lemma_indent_width_le(s.drop_last());
    }
}

/// A lexing step takes at least one character and no more than there are.
pub proof fn lemma_lex_step_len(s: Seq<char>)
    requires
        s.len() > 0,
    ensures
        0 < lex_step(s).1 <= s.len(),
{
    let c = s[0];
    let r = s.drop_first();
    if c == '\n' {
        lemma_newline_run_le(r);
        let k = if r.len() > 0 && r[0] == '\n' { newline_run(r) } else { 0nat };
        lemma_blank_run_le(r.skip(k as int));
    } else if !is_special(c) {
        lemma_text_run_le(r);
    }
}

} // verus!

verus! {

/// Splits markdown source into tokens.
pub struct Lexer {
    src: Vec<char>,
    position: usize,
    last: char,
}

/// What one lexing step yields: a single token, or the tokens of a line start.
pub enum LexerOutput {
    Token(Token),
    Tokens(Vec<Token>),
}

/// The tokens a lexing step yields, as values.
pub open spec fn output_view(o: LexerOutput) -> Seq<TokenV> {
    match o {
        LexerOutput::Token(t) => seq![t@],
        LexerOutput::Tokens(v) => tokens_view(v@),
    }
}

pub fn is_special_char(c: char) -> (b: bool)
    ensures
        b == is_special(c),
{
    c == '#' || c == '=' || c == '*' || c == '-' || c == '<' || c == '>' || c == '.' || c == '\n'
        || c == '\t' || c == '`' || c == '[' || c == ']' || c == '(' || c == ')'
}

impl Lexer {
    #[verifier::type_invariant]
    closed spec fn inv(self) -> bool {
        &&& self.position <= self.src.len()
        &&& self.src.len() <= usize::MAX / 4
    }

    /// The whole source text.
    pub closed spec fn source(&self) -> Seq<char> {
        self.src@
    }

    /// How many characters of the source have been read.
    pub closed spec fn pos(&self) -> nat {
        self.position as nat
    }

    /// The character read last.
    pub closed spec fn last_char(&self) -> char {
        self.last
    }

    /// The source text not yet read.
    pub open spec fn remaining(&self) -> Seq<char> {
        self.source().skip(self.pos() as int)
    }

    /// A lexer at the start of `src`. A `Vec<char>` of the source takes four bytes
    /// per character, so a source that fits in memory meets the bound on its length.
    pub fn new(src: String) -> (l: Self)
        requires
            src@.len() <= usize::MAX / 4,
        ensures
            l.source() == src@,
            l.pos() == 0,
    {
        Lexer { src: collect_chars(src.as_str()), position: 0, last: '\0' }
    }

    /// The tokens of the source not yet read, ended by `EOF`.
    pub fn lex(&mut self) -> (tokens: Vec<Token>)
        ensures
            tokens_view(tokens@) == spec_lex(old(self).remaining()),
            final(self).source() == old(self).source(),
            final(self).pos() == old(self).source().len(),
    {
        let mut tokens = Vec::new();
        loop
            invariant
                self.source() == old(self).source(),
                tokens_view(tokens@) + spec_lex(self.remaining()) == spec_lex(old(self).remaining()),
            ensures
                self.source() == old(self).source(),
                tokens_view(tokens@) + spec_lex(self.remaining()) == spec_lex(old(self).remaining()),
                self.pos() == self.source().len(),
            decreases self.source().len() - self.pos(),
        {
            proof {
                use_type_invariant(&*self);
            }
            let ghost before = self.remaining();
            let ghost tv = tokens_view(tokens@);
            match self.next() {
                Some(LexerOutput::Token(t)) => {
                    proof {
                        lemma_lex_step_len(before);
                        assert(before.skip(lex_step(before).1 as int) =~= self.remaining());
                    }
                    tokens.push(t);
                    assert(tokens_view(tokens@) =~= tv + seq![t@]);
                },
                Some(LexerOutput::Tokens(t)) => {
                    proof {
                        lemma_lex_step_len(before);
                        assert(before.skip(lex_step(before).1 as int) =~= self.remaining());
                    }
                    let mut t = t;
                    let ghost tt = t@;
                    tokens.append(&mut t);
                    assert(tokens_view(tokens@) =~= tv + tokens_view(tt));
                },
                None => {
                    proof {
                        use_type_invariant(&*self);
                    }
                    break;
                },
            }
        }
        let ghost tv = tokens_view(tokens@);
        tokens.push(Token::EOF);
        assert(self.remaining() =~= Seq::<char>::empty());
        assert(tokens_view(tokens@) =~= tv + seq![TokenV::EOF]);
        tokens
    }

    fn next(&mut self) -> (out: Option<LexerOutput>)
        ensures
            final(self).source() == old(self).source(),
            match out {
                None => old(self).pos() == old(self).source().len() && final(self).pos() == old(
                    self,
                ).pos(),
                Some(o) => old(self).pos() < old(self).source().len() && output_view(o) == lex_step(
                    old(self).remaining(),
                ).0 && final(self).pos() == old(self).pos() + lex_step(old(self).remaining()).1,
            },
    {
        proof {
            use_type_invariant(&*self);
        }
        let ghost rem = self.remaining();
        if let Some(c) = self.advance() {
            assert(rem[0] == c);
            assert(self.remaining() =~= rem.drop_first());
            let token = match c {
                '#' => LexerOutput::Token(Token::Hash),
                '=' => LexerOutput::Token(Token::Equals),
                '*' => LexerOutput::Token(Token::Star),
                '-' => LexerOutput::Token(Token::Dash),
                '<' => LexerOutput::Token(Token::LessThan),
                '>' => LexerOutput::Token(Token::GreaterThan),
                '.' => LexerOutput::Token(Token::Period),
                '\n' => LexerOutput::Tokens(self.handle_newlines()),
                '\t' => LexerOutput::Token(Token::Tab),
                '`' => LexerOutput::Token(Token::Backtick),
                '[' => LexerOutput::Token(Token::OpenBracket),
                ']' => LexerOutput::Token(Token::CloseBracket),
                '(' => LexerOutput::Token(Token::OpenParen),
                ')' => LexerOutput::Token(Token::CloseParen),
                _ => {
                    let t = self.get_text();
                    proof {
                        use_type_invariant(&*self);
                    }
                    assert(rem.take(text_run(rem.drop_first()) + 1int) =~= self.source().subrange(
                        old(self).pos() as int,
                        self.pos() as int,
                    ));
                    LexerOutput::Token(t)
                },
            };
            Some(token)
        } else {
            None
        }
    }

    fn advance(&mut self) -> (c: Option<char>)
        ensures
            final(self).source() == old(self).source(),
            old(self).pos() < old(self).source().len() ==> c == Some(old(self).source()[old(
                self,
            ).pos() as int]) && final(self).pos() == old(self).pos() + 1 && final(self).last_char()
                == old(self).source()[old(self).pos() as int],
            old(self).pos() >= old(self).source().len() ==> c is None && final(self).pos() == old(
                self,
            ).pos(),
    {
        proof {
            use_type_invariant(&*self);
        }
        if self.end() {
            None
        } else {
            let c = self.src[self.position];
            self.last = c;
            self.position += 1;
            Some(c)
        }
    }

    fn peek(&self) -> (c: Option<char>)
        ensures
            self.pos() < self.source().len() ==> c == Some(self.source()[self.pos() as int]),
            self.pos() >= self.source().len() ==> c is None,
    {
        if self.end() {
            None
        } else {
            let c = self.src[self.position];
            Some(c)
        }
    }

    fn get_text(&mut self) -> (t: Token)
        requires
            old(self).pos() > 0,
            old(self).last_char() == old(self).source()[old(self).pos() - 1],
            !is_special(old(self).last_char()),
        ensures
            final(self).source() == old(self).source(),
            final(self).pos() == old(self).pos() + text_run(old(self).remaining()),
            t@ == TokenV::Text(
                old(self).source().subrange(old(self).pos() - 1, final(self).pos() as int),
            ),
    {
        proof {
            use_type_invariant(&*self);
        }
        let ghost p0 = self.pos();
        let mut content = char_string(self.last);
        assert(content@ =~= self.source().subrange(p0 - 1, p0 as int));
        loop
            invariant
                self.source() == old(self).source(),
                p0 == old(self).pos(),
                0 < p0 <= self.pos() <= self.source().len(),
                content@ == self.source().subrange(p0 - 1, self.pos() as int),
                text_run(old(self).remaining()) == (self.pos() - p0) + text_run(self.remaining()),
            ensures
                self.source() == old(self).source(),
                0 < p0 <= self.pos() <= self.source().len(),
                content@ == self.source().subrange(p0 - 1, self.pos() as int),
                text_run(old(self).remaining()) == (self.pos() - p0),
            decreases self.source().len() - self.pos(),
        {
            proof {
                use_type_invariant(&*self);
            }
            let ghost rem = self.remaining();
            match self.peek() {
                Some(c) => {
                    if is_special_char(c) {
                        assert(rem[0] == c);
                        break;
                    }
                    push_char(&mut content, c);
                    self.advance();
                    assert(rem.drop_first() =~= self.remaining());
                    assert(content@ =~= self.source().subrange(p0 - 1, self.pos() as int));
                },
                None => {
                    assert(rem.len() == 0);
                    break;
                },
            }
        }
        Token::Text(content)
    }

    fn handle_newlines(&mut self) -> (result: Vec<Token>)
        ensures
            final(self).source() == old(self).source(),
            old(self).pos() <= final(self).pos(),
            newline_tokens(old(self).remaining()) == (
                tokens_view(result@),
                (final(self).pos() - old(self).pos()) as nat,
            ),
    {
        proof {
            use_type_invariant(&*self);
        }
        let ghost r = self.remaining();
        let ghost p0 = self.pos();
        let mut result = Vec::new();
        let blank_line = match self.peek() {
            Some(c) => c == '\n',
            None => false,
        };
        if blank_line {
            result.push(Token::LineBreak);
            loop
                invariant
                    self.source() == old(self).source(),
                    p0 <= self.pos() <= self.source().len(),
                    newline_run(r) == (self.pos() - p0) + newline_run(self.remaining()),
                    r == self.source().skip(p0 as int),
                ensures
                    self.source() == old(self).source(),
                    p0 <= self.pos() <= self.source().len(),
                    newline_run(r) == (self.pos() - p0),
                decreases self.source().len() - self.pos(),
            {
                proof {
                    use_type_invariant(&*self);
                }
                let ghost rem = self.remaining();
                let more = match self.peek() {
                    Some(c) => c == '\n',
                    None => false,
                };
                if !more {
                    break;
                }
                self.advance();
                assert(rem.drop_first() =~= self.remaining());
            }
        } else {
            result.push(Token::NewLine);
        }
        let ghost k = (self.pos() - p0) as nat;
        let ghost p1 = self.pos();
        assert(r.skip(k as int) =~= self.remaining());
        let mut spaces = 0_usize;
        loop
            invariant
                self.source() == old(self).source(),
                p1 <= self.pos() <= self.source().len(),
                self.source().len() <= usize::MAX / 4,
                spaces == indent_width(self.source().subrange(p1 as int, self.pos() as int)),
                spaces <= 4 * (self.pos() - p1),
                blank_run(self.source().skip(p1 as int)) == (self.pos() - p1) + blank_run(
                    self.remaining(),
                ),
            ensures
                self.source() == old(self).source(),
                p1 <= self.pos() <= self.source().len(),
                spaces == indent_width(self.source().subrange(p1 as int, self.pos() as int)),
                blank_run(self.source().skip(p1 as int)) == (self.pos() - p1),
            decreases self.source().len() - self.pos(),
        {
            proof {
                use_type_invariant(&*self);
            }
            let ghost rem = self.remaining();
            let ghost sub = self.source().subrange(p1 as int, self.pos() as int);
            match self.peek() {
                Some(c) => {
                    if c == ' ' {
                        spaces += 1;
                    } else if c == '\t' {
                        spaces += 4 - spaces % 4;
                    } else {
                        break;
                    }
                },
                None => break,
            };
            self.advance();
            assert(rem.drop_first() =~= self.remaining());
            assert(self.source().subrange(p1 as int, self.pos() as int).drop_last() =~= sub);
        }
        proof {
            lemma_blank_run_le(self.remaining());
            assert(r.skip(k as int).take((self.pos() - p1) as int) =~= self.source().subrange(
                p1 as int,
                self.pos() as int,
            ));
            lemma_indent_width_le(self.source().subrange(p1 as int, self.pos() as int));
        }
        let ghost tv = tokens_view(result@);
        if spaces > 0 {
            result.push(Token::Indent(spaces));
            assert(tokens_view(result@) =~= tv.push(TokenV::Indent(spaces as nat)));
        }
        proof {
            if blank_line {
                assert(tv =~= seq![TokenV::LineBreak]);
            } else {
                assert(tv =~= seq![TokenV::NewLine]);
            }
        }
        result
    }

    fn end(&self) -> (b: bool)
        ensures
            b == (self.pos() >= self.source().len()),
    {
        self.position >= self.src.len()
    }
}

} // verus!

verus! {

/// A token that ends a line.
pub open spec fn is_line_token(t: TokenV) -> bool {
    t is NewLine || t is LineBreak
}

proof fn lemma_text_run_plain(s: Seq<char>, j: int)
    requires
        0 <= j < text_run(s),
    ensures
        j < s.len(),
        !is_special(s[j]),
    decreases s.len(),
{
    if j > 0 {
        lemma_text_run_plain(s.drop_first(), j - 1);
    }
}

proof fn lemma_text_run_max(s: Seq<char>)
    ensures
        text_run(s) <= s.len(),
        text_run(s) < s.len() ==> is_special(s[text_run(s) as int]),
    decreases s.len(),
{
    if s.len() > 0 && !is_special(s[0]) {
        lemma_text_run_max(s.drop_first());
    }
}

proof fn lemma_blank_run_plain(s: Seq<char>, j: int)
    requires
        0 <= j < blank_run(s),
    ensures
        j < s.len(),
        s[j] == ' ' || s[j] == '\t',
    decreases s.len(),
{
    if j > 0 {
        lemma_blank_run_plain(s.drop_first(), j - 1);
    }
}

proof fn lemma_blank_run_max(s: Seq<char>)
    ensures
        blank_run(s) <= s.len(),
        blank_run(s) < s.len() ==> s[blank_run(s) as int] != ' ' && s[blank_run(s) as int] != '\t',
    decreases s.len(),
{
    if s.len() > 0 && (s[0] == ' ' || s[0] == '\t') {
        lemma_blank_run_max(s.drop_first());
    }
}

proof fn lemma_newline_run_max(s: Seq<char>)
    ensures
        newline_run(s) <= s.len(),
        newline_run(s) < s.len() ==> s[newline_run(s) as int] != '\n',
    decreases s.len(),
{
    if s.len() > 0 && s[0] == '\n' {
        lemma_newline_run_max(s.drop_first());
    }
}

proof fn lemma_first_token(s: Seq<char>)
    ensures
        spec_lex(s).len() > 0,
        !(spec_lex(s)[0] is Indent),
        is_line_token(spec_lex(s)[0]) <==> (s.len() > 0 && s[0] == '\n'),
        spec_lex(s)[0] is EOF <==> s.len() == 0,
        spec_lex(s)[0] is Tab <==> (s.len() > 0 && s[0] == '\t'),
        spec_lex(s)[0] is Text ==> s.len() > 0 && !is_special(s[0]),
{
    if s.len() > 0 {
        lemma_lex_step_len(s);
    }
}

/// The properties every token stream of the lexer has (see `law_token_stream_shape`).
pub open spec fn stream_shape(ts: Seq<TokenV>) -> bool {
    &&& ts.len() > 0
    &&& ts.last() is EOF
    &&& forall|i: int| 0 <= i < ts.len() - 1 ==> !(#[trigger] ts[i] is EOF)
    &&& forall|i: int|
        0 <= i < ts.len() && #[trigger] ts[i] is Indent ==> ts[i]->Indent_0 > 0 && i > 0
            && is_line_token(ts[i - 1])
    &&& forall|i: int|
        0 <= i < ts.len() && #[trigger] ts[i] is Text ==> ts[i]->Text_0.len() > 0 && forall|j: int|
            0 <= j < ts[i]->Text_0.len() ==> !is_special(#[trigger] ts[i]->Text_0[j])
    &&& forall|i: int|
        0 <= i < ts.len() - 1 && is_line_token(#[trigger] ts[i]) ==> !is_line_token(ts[i + 1])
            && !(ts[i + 1] is Tab)
    &&& forall|i: int| 0 <= i < ts.len() - 1 && #[trigger] ts[i] is Text ==> !(ts[i + 1] is Text)
}

/// The shape of every token stream that the lexer yields: it ends with `EOF`,
/// which occurs nowhere else; an `Indent` always counts at least one column and
/// directly follows the end of a line; a `Text` is never empty and holds no
/// special character, and no two texts are adjacent (a text runs up to the next
/// special character); no two line ends are adjacent (a run of blank lines
/// becomes one `LineBreak`); and no `Tab` follows a line end (the blanks that
/// start a line become an `Indent`).
#[verifier::spinoff_prover]
#[verifier::rlimit(60)]
pub proof fn law_token_stream_shape(s: Seq<char>)
    ensures
        stream_shape(spec_lex(s)),
    decreases s.len(),
{
    if s.len() == 0 {
        return;
    }
    lemma_lex_step_len(s);
    let (toks, n) = lex_step(s);
    let rest = s.skip(n as int);
    law_token_stream_shape(rest);
    lemma_first_token(rest);
    let r = spec_lex(rest);
    let ts = spec_lex(s);
    assert(ts == toks + r);
    let c = s[0];
    if c == '\n' {
        let rr = s.drop_first();
        let k = if rr.len() > 0 && rr[0] == '\n' { newline_run(rr) } else { 0nat };
        lemma_newline_run_max(rr);
        lemma_blank_run_max(rr.skip(k as int));
        let w = blank_run(rr.skip(k as int));
        lemma_indent_width_le(rr.skip(k as int).take(w as int));
        if w == 0 {
            assert(rest =~= rr.skip(k as int));
            if rest.len() > 0 {
                assert(rest[0] == rr[k as int]);
            }
        }
    } else if !is_special(c) {
        let tr = text_run(s.drop_first());
        lemma_text_run_max(s.drop_first());
        if rest.len() > 0 {
            assert(rest[0] == s.drop_first()[tr as int]);
        }
        assert forall|j: int| 0 <= j < s.take(tr + 1int).len() implies !is_special(#[trigger] s.take(tr + 1int)[j]) by {
            if j > 0 {
                lemma_text_run_plain(s.drop_first(), j - 1);
            }
        }
    }
    assert forall|i: int|
        0 <= i < ts.len() && #[trigger] ts[i] is Indent implies ts[i]->Indent_0 > 0 && i > 0
            && is_line_token(ts[i - 1]) by {
        if i >= toks.len() {
            assert(ts[i] == r[i - toks.len()]);
            if i > toks.len() {
                assert(ts[i - 1] == r[i - 1 - toks.len()]);
            }
        }
    }
    assert forall|i: int| 0 <= i < ts.len() - 1 && #[trigger] ts[i] is Text implies !(ts[i
        + 1] is Text) by {
        if i >= toks.len() {
            assert(ts[i] == r[i - toks.len()]);
            assert(ts[i + 1] == r[i + 1 - toks.len()]);
        } else if i + 1 == toks.len() {
            assert(ts[i + 1] == r[0]);
        }
    }
    assert forall|i: int| 0 <= i < ts.len() - 1 && is_line_token(#[trigger] ts[i]) implies !is_line_token(
        ts[i + 1],
    ) && !(ts[i + 1] is Tab) by {
        if i >= toks.len() {
            assert(ts[i] == r[i - toks.len()]);
            assert(ts[i + 1] == r[i + 1 - toks.len()]);
        } else if i + 1 == toks.len() {
            assert(ts[i + 1] == r[0]);
        }
    }
    assert forall|i: int|
        0 <= i < ts.len() && #[trigger] ts[i] is Text implies ts[i]->Text_0.len() > 0 && forall|j: int|
            0 <= j < ts[i]->Text_0.len() ==> !is_special(#[trigger] ts[i]->Text_0[j]) by {
        if i >= toks.len() {
            assert(ts[i] == r[i - toks.len()]);
        }
    }
    assert forall|i: int| 0 <= i < ts.len() - 1 implies !(#[trigger] ts[i] is EOF) by {
        if i >= toks.len() {
            assert(ts[i] == r[i - toks.len()]);
        }
    }
}

} // verus!

verus! {

/// The source text a sequence of tokens stands for.
pub open spec fn tokens_text(ts: Seq<TokenV>) -> Seq<char>
    decreases ts.len(),
{
    if ts.len() == 0 {
        seq![]
    } else {
        token_text(ts[0]) + tokens_text(ts.drop_first())
    }
}


proof fn lemma_newline_run_prefix(k: nat, t: Seq<char>)
    ensures
        newline_run(repeat_char('\n', k) + t) == k + newline_run(t),
    decreases k,
{
    if k > 0 {
        let u = repeat_char('\n', k) + t;
        assert(u.drop_first() =~= repeat_char('\n', (k - 1) as nat) + t);
        lemma_newline_run_prefix((k - 1) as nat, t);
    } else {
        assert(repeat_char('\n', k) + t =~= t);
    }
}

proof fn lemma_blank_run_prefix(w: Seq<char>, t: Seq<char>)
    requires
        forall|i: int| 0 <= i < w.len() ==> w[i] == ' ' || w[i] == '\t',
    ensures
        blank_run(w + t) == w.len() + blank_run(t),
    decreases w.len(),
{
    if w.len() > 0 {
        assert((w + t).drop_first() =~= w.drop_first() + t);
        lemma_blank_run_prefix(w.drop_first(), t);
    } else {
        assert(w + t =~= t);
    }
}

/// A line end as the lexer reads it: a newline, `k` more newlines and the blanks
/// `w` that follow become one `LineBreak` (where `k > 0`) or `NewLine`, then an
/// `Indent` of the column the blanks reach, with tab stops every four columns
/// (where that column is not 0); lexing goes on with the rest `r`.
#[verifier::spinoff_prover]
#[verifier::rlimit(30)]
pub proof fn law_line_start(k: nat, w: Seq<char>, r: Seq<char>)
    requires
        forall|i: int| 0 <= i < w.len() ==> w[i] == ' ' || w[i] == '\t',
        r.len() > 0 ==> r[0] != ' ' && r[0] != '\t',
        w.len() == 0 && r.len() > 0 ==> r[0] != '\n',
    ensures
        spec_lex(seq!['\n'] + repeat_char('\n', k) + w + r) == seq![
            if k > 0 {
                TokenV::LineBreak
            } else {
                TokenV::NewLine
            },
        ] + (if indent_width(w) > 0 {
            seq![TokenV::Indent(indent_width(w))]
        } else {
            Seq::<TokenV>::empty()
        }) + spec_lex(r),
{
    let rr = repeat_char('\n', k) + (w + r);
    let s = seq!['\n'] + repeat_char('\n', k) + w + r;
    assert(s =~= seq!['\n'] + rr);
    assert(s.drop_first() =~= rr);
    lemma_newline_run_prefix(k, w + r);
    lemma_blank_run_prefix(w, r);
    assert(newline_run(w + r) == 0) by {
        if w.len() > 0 {
            assert((w + r)[0] == w[0]);
        } else if r.len() > 0 {
            assert(w + r =~= r);
        }
    }
    assert(blank_run(r) == 0);
    if k > 0 {
        assert(rr[0] == '\n');
    } else {
        assert(rr =~= w + r);
        if rr.len() > 0 {
            if w.len() > 0 {
                assert(rr[0] == w[0]);
            } else {
                assert(rr[0] == r[0]);
            }
        }
    }
    assert(rr.skip(k as int) =~= w + r);
    assert((w + r).take(w.len() as int) =~= w);
    lemma_lex_step_len(s);
    assert(s.skip(1 + k + w.len() as int) =~= r);
}

/// No blank line: a newline is never followed by another.
pub open spec fn no_blank_lines(s: Seq<char>) -> bool {
    forall|i: int| 0 <= i < s.len() - 1 && #[trigger] s[i] == '\n' ==> s[i + 1] != '\n'
}

/// No tab among the blanks that start a line: between a newline and a later
/// tab there is something other than a space.
pub open spec fn tab_free_indents(s: Seq<char>) -> bool {
    forall|i: int, j: int|
        #![trigger s[i], s[j]]
        0 <= i < j < s.len() && s[i] == '\n' && s[j] == '\t' ==> exists|m: int|
            i < m < j && #[trigger] s[m] != ' '
}

proof fn lemma_tokens_text_concat(a: Seq<TokenV>, b: Seq<TokenV>)
    ensures
        tokens_text(a + b) == tokens_text(a) + tokens_text(b),
    decreases a.len(),
{
    if a.len() == 0 {
        assert(a + b =~= b);
        assert(tokens_text(a) + tokens_text(b) =~= tokens_text(b));
    } else {
        assert((a + b).drop_first() =~= a.drop_first() + b);
        lemma_tokens_text_concat(a.drop_first(), b);
        assert((a + b)[0] == a[0]);
        assert(tokens_text(a + b) =~= token_text(a[0]) + (tokens_text(a.drop_first())
            + tokens_text(b)));
    }
}

proof fn lemma_spaces_width(t: Seq<char>)
    requires
        forall|i: int| 0 <= i < t.len() ==> t[i] == ' ',
    ensures
        indent_width(t) == t.len(),
    decreases t.len(),
{
    if t.len() > 0 {
        lemma_spaces_width(t.drop_last());
    }
}

/// The blanks after the newline that starts `s` are all spaces, up to `j`.
proof fn lemma_lead_spaces(s: Seq<char>, w: nat, j: nat)
    requires
        s.len() > 0,
        s[0] == '\n',
        tab_free_indents(s),
        1 + w <= s.len(),
        forall|m: int| 0 <= m < w ==> #[trigger] s[1 + m] == ' ' || s[1 + m] == '\t',
        j <= w,
    ensures
        forall|m: int| 0 <= m < j ==> #[trigger] s[1 + m] == ' ',
    decreases j,
{
    if j > 0 {
        lemma_lead_spaces(s, w, (j - 1) as nat);
        let jj = j as int;
        if s[jj] == '\t' {
            assert(s[0] == '\n' && s[jj] == '\t');
            let m = choose|m: int| 0 < m < jj && #[trigger] s[m] != ' ';
            assert(s[1 + (m - 1)] == ' ');
            assert(false);
        }
        assert(s[1 + (jj - 1)] == ' ');
    }
}

/// The lexer loses nothing of a source without blank lines and without tabs in
/// the blanks that start a line: the texts of its tokens, put together, give
/// back that source.
#[verifier::spinoff_prover]
#[verifier::rlimit(30)]
pub proof fn law_roundtrip(s: Seq<char>)
    requires
        no_blank_lines(s),
        tab_free_indents(s),
    ensures
        tokens_text(spec_lex(s)) == s,
    decreases s.len(),
{
    if s.len() == 0 {
        assert(tokens_text(seq![TokenV::EOF].drop_first()) == Seq::<char>::empty());
        return;
    }
    lemma_lex_step_len(s);
    let (toks, n) = lex_step(s);
    let rest = s.skip(n as int);
    assert forall|i: int| 0 <= i < rest.len() - 1 && #[trigger] rest[i] == '\n' implies rest[i
        + 1] != '\n' by {
        assert(s[i + n] == '\n');
    }
    assert forall|i: int, j: int|
        #![trigger rest[i], rest[j]]
        0 <= i < j < rest.len() && rest[i] == '\n' && rest[j] == '\t' implies exists|m: int|
            i < m < j && #[trigger] rest[m] != ' ' by {
        assert(s[i + n] == '\n' && s[j + n] == '\t');
        let m = choose|m: int| i + n < m < j + n && #[trigger] s[m] != ' ';
        assert(rest[m - n] != ' ');
    }
    law_roundtrip(rest);
    let ts = spec_lex(s);
    assert(ts == toks + spec_lex(rest));
    lemma_tokens_text_concat(toks, spec_lex(rest));
    let c = s[0];
    if c == '\n' {
        let rr = s.drop_first();
        if rr.len() > 0 {
            assert(s[0] == '\n');
            assert(rr[0] == s[1]);
        }
        lemma_blank_run_max(rr);
        let w = blank_run(rr);
        assert forall|m: int| 0 <= m < w implies #[trigger] s[1 + m] == ' ' || s[1 + m] == '\t' by {
            lemma_blank_run_plain(rr, m);
        }
        lemma_lead_spaces(s, w, w);
        let blanks = rr.take(w as int);
        assert forall|m: int| 0 <= m < blanks.len() implies blanks[m] == ' ' by {
            assert(blanks[m] == s[1 + m]);
        }
        lemma_spaces_width(blanks);
        assert(rr.skip(0) =~= rr);
        let e = Seq::<TokenV>::empty();
        assert(tokens_text(e) == Seq::<char>::empty());
        if w > 0 {
            assert(toks == seq![TokenV::NewLine, TokenV::Indent(w)]);
            assert(token_text(TokenV::Indent(w)) =~= blanks);
            let t1 = seq![TokenV::Indent(w)];
            assert(t1.drop_first() =~= e);
            assert(tokens_text(t1) =~= blanks);
            assert(toks.drop_first() =~= t1);
            assert(tokens_text(toks) =~= seq!['\n'] + blanks);
        } else {
            assert(toks == seq![TokenV::NewLine]);
            assert(toks.drop_first() =~= e);
            assert(tokens_text(toks) =~= seq!['\n']);
        }
        assert(s =~= seq!['\n'] + blanks + rest);
    } else {
        assert(toks.len() == 1);
        assert(tokens_text(toks) =~= token_text(toks[0])) by {
            assert(toks.drop_first() =~= Seq::<TokenV>::empty());
            assert(tokens_text(Seq::<TokenV>::empty()) == Seq::<char>::empty());
        }
        if is_special(c) {
            assert(token_text(toks[0]) =~= s.take(1));
        } else {
            lemma_text_run_le(s.drop_first());
        }
        assert(s =~= s.take(n as int) + rest);
    }
}

/// The number of maximal runs of newlines in `s`: of runs of exactly one
/// newline where `single`, else of runs of two or more.
pub open spec fn newline_runs(s: Seq<char>, single: bool) -> nat
    decreases s.len(),
{
    if s.len() == 0 {
        0
    } else if s[0] == '\n' {
        proof {
            lemma_newline_run_le(s);
        }
        let k = newline_run(s);
        (if (k == 1) == single {
            1nat
        } else {
            0nat
        }) + newline_runs(s.skip(k as int), single)
    } else {
        newline_runs(s.drop_first(), single)
    }
}

/// The number of tokens of `ts` equal to `t`.
pub open spec fn count_tokens(ts: Seq<TokenV>, t: TokenV) -> nat
    decreases ts.len(),
{
    if ts.len() == 0 {
        0
    } else {
        (if ts[0] == t {
            1nat
        } else {
            0nat
        }) + count_tokens(ts.drop_first(), t)
    }
}

proof fn lemma_count_tokens_concat(a: Seq<TokenV>, b: Seq<TokenV>, t: TokenV)
    ensures
        count_tokens(a + b, t) == count_tokens(a, t) + count_tokens(b, t),
    decreases a.len(),
{
    if a.len() == 0 {
        assert(a + b =~= b);
    } else {
        assert((a + b).drop_first() =~= a.drop_first() + b);
        lemma_count_tokens_concat(a.drop_first(), b, t);
        assert((a + b)[0] == a[0]);
    }
}

/// Skipping characters that are not newlines leaves the runs of newlines as they are.
proof fn lemma_runs_skip_plain(s: Seq<char>, j: int, single: bool)
    requires
        0 <= j <= s.len(),
        forall|i: int| 0 <= i < j ==> #[trigger] s[i] != '\n',
    ensures
        newline_runs(s, single) == newline_runs(s.skip(j), single),
    decreases j,
{
    if j == 0 {
        assert(s.skip(0) =~= s);
    } else {
        assert(s[0] != '\n');
        lemma_runs_skip_plain(s.drop_first(), j - 1, single);
        assert(s.drop_first().skip(j - 1) =~= s.skip(j));
    }
}

proof fn lemma_text_run_plain_all(s: Seq<char>)
    ensures
        text_run(s) <= s.len(),
        forall|j: int| 0 <= j < text_run(s) ==> #[trigger] s[j] != '\n',
{
    lemma_text_run_le(s);
    assert forall|j: int| 0 <= j < text_run(s) implies #[trigger] s[j] != '\n' by {
        lemma_text_run_plain(s, j);
    }
}

/// The lexer turns each run of exactly one newline into a `NewLine` and each run
/// of two or more into a `LineBreak`, and makes no other line ends.
#[verifier::spinoff_prover]
#[verifier::rlimit(30)]
pub proof fn law_line_end_counts(s: Seq<char>)
    ensures
        count_tokens(spec_lex(s), TokenV::NewLine) == newline_runs(s, true),
        count_tokens(spec_lex(s), TokenV::LineBreak) == newline_runs(s, false),
    decreases s.len(),
{
    if s.len() == 0 {
        let e = seq![TokenV::EOF];
        assert(spec_lex(s) == e);
        assert(e.drop_first() =~= Seq::<TokenV>::empty());
        assert(count_tokens(Seq::<TokenV>::empty(), TokenV::NewLine) == 0);
        assert(count_tokens(Seq::<TokenV>::empty(), TokenV::LineBreak) == 0);
        return;
    }
    lemma_lex_step_len(s);
    let (toks, n) = lex_step(s);
    let rest = s.skip(n as int);
    law_line_end_counts(rest);
    assert(spec_lex(s) == toks + spec_lex(rest));
    lemma_count_tokens_concat(toks, spec_lex(rest), TokenV::NewLine);
    lemma_count_tokens_concat(toks, spec_lex(rest), TokenV::LineBreak);
    let e = Seq::<TokenV>::empty();
    let c = s[0];
    if c == '\n' {
        let rr = s.drop_first();
        lemma_newline_run_max(rr);
        let k = newline_run(rr);
        assert(newline_run(s) == 1 + k);
        assert(rr.len() > 0 && rr[0] == '\n' ==> k > 0);
        let first = if k > 0 {
            TokenV::LineBreak
        } else {
            TokenV::NewLine
        };
        let t = rr.skip(k as int);
        lemma_blank_run_max(t);
        let w = blank_run(t);
        assert forall|i: int| 0 <= i < w implies #[trigger] t[i] != '\n' by {
            lemma_blank_run_plain(t, i);
        }
        lemma_runs_skip_plain(t, w as int, true);
        lemma_runs_skip_plain(t, w as int, false);
        assert(s.skip(1 + k as int) =~= t);
        assert(t.skip(w as int) =~= rest);
        assert(toks[0] == first);
        assert(count_tokens(e, TokenV::NewLine) == 0);
        assert(count_tokens(e, TokenV::LineBreak) == 0);
        if toks.len() == 2 {
            assert(toks.drop_first().drop_first() =~= e);
            assert(toks.drop_first()[0] is Indent);
            assert(count_tokens(toks.drop_first(), TokenV::NewLine) == 0);
            assert(count_tokens(toks.drop_first(), TokenV::LineBreak) == 0);
        } else {
            assert(toks.drop_first() =~= e);
        }
        assert(count_tokens(toks, TokenV::NewLine) == if k > 0 { 0nat } else { 1nat });
        assert(count_tokens(toks, TokenV::LineBreak) == if k > 0 { 1nat } else { 0nat });
        assert(newline_runs(s, true) == (if k == 0 { 1nat } else { 0nat }) + newline_runs(t, true));
        assert(newline_runs(s, false) == (if k == 0 { 0nat } else { 1nat }) + newline_runs(t, false));
    } else {
        assert(toks.len() == 1);
        assert(toks.drop_first() =~= e);
        assert(count_tokens(e, TokenV::NewLine) == 0);
        assert(count_tokens(e, TokenV::LineBreak) == 0);
        assert(count_tokens(toks, TokenV::NewLine) == 0);
        assert(count_tokens(toks, TokenV::LineBreak) == 0);
        if is_special(c) {
            assert(s.drop_first() == s.skip(1));
        } else {
            lemma_text_run_plain_all(s.drop_first());
            assert forall|i: int| 0 <= i < n implies #[trigger] s[i] != '\n' by {
                if i > 0 {
                    assert(s[i] == s.drop_first()[i - 1]);
                }
            }
            lemma_runs_skip_plain(s, n as int, true);
            lemma_runs_skip_plain(s, n as int, false);
        }
    }
}


proof fn lemma_text_run_split(x: Seq<char>, y: Seq<char>)
    requires
        y.len() > 0,
        is_special(y[0]),
    ensures
        text_run(x + y) == text_run(x),
    decreases x.len(),
{
    if x.len() == 0 {
        assert(x + y =~= y);
    } else {
        assert((x + y)[0] == x[0]);
        if !is_special(x[0]) {
            assert((x + y).drop_first() =~= x.drop_first() + y);
            lemma_text_run_split(x.drop_first(), y);
        }
    }
}

proof fn lemma_newline_run_split(x: Seq<char>, y: Seq<char>)
    requires
        y.len() > 0,
        y[0] != '\n' || (x.len() > 0 && x.last() != '\n'),
    ensures
        newline_run(x + y) == newline_run(x),
    decreases x.len(),
{
    if x.len() == 0 {
        assert(x + y =~= y);
    } else {
        assert((x + y)[0] == x[0]);
        if x[0] == '\n' {
            assert((x + y).drop_first() =~= x.drop_first() + y);
            if x.len() > 1 {
                assert(x.drop_first().last() == x.last());
            }
            lemma_newline_run_split(x.drop_first(), y);
        }
    }
}

proof fn lemma_blank_run_split(x: Seq<char>, y: Seq<char>)
    requires
        y.len() > 0,
        y[0] != ' ',
        y[0] != '\t',
    ensures
        blank_run(x + y) == blank_run(x),
    decreases x.len(),
{
    if x.len() == 0 {
        assert(x + y =~= y);
    } else {
        assert((x + y)[0] == x[0]);
        if x[0] == ' ' || x[0] == '\t' {
            assert((x + y).drop_first() =~= x.drop_first() + y);
            lemma_blank_run_split(x.drop_first(), y);
        }
    }
}

/// Lexing splits before a special character other than a tab, unless that
/// character is a newline right after a newline: the tokens of `x + y` are
/// those of `x` without its `EOF`, then those of `y`.
pub proof fn law_lex_split(x: Seq<char>, y: Seq<char>)
    requires
        y.len() > 0,
        is_special(y[0]),
        y[0] != '\t',
        y[0] == '\n' && x.len() > 0 ==> x.last() != '\n',
    ensures
        spec_lex(x + y) == spec_lex(x).drop_last() + spec_lex(y),
    decreases x.len(),
{
    if x.len() == 0 {
        assert(x + y =~= y);
        assert(spec_lex(x).drop_last() =~= Seq::<TokenV>::empty());
        assert(spec_lex(x).drop_last() + spec_lex(y) =~= spec_lex(y));
        return;
    }
    lemma_lex_step_len(x);
    let xy = x + y;
    lemma_lex_step_len(xy);
    assert(xy[0] == x[0]);
    assert(xy.drop_first() =~= x.drop_first() + y);
    let c = x[0];
    let r = x.drop_first();
    if c == '\n' {
        if r.len() > 0 {
            assert(r.last() == x.last());
        }
        lemma_newline_run_split(r, y);
        let k = if r.len() > 0 && r[0] == '\n' { newline_run(r) } else { 0nat };
        assert((r + y).len() > 0 && (r + y)[0] == '\n' <==> r.len() > 0 && r[0] == '\n') by {
            if r.len() == 0 {
                assert(r + y =~= y);
                if y[0] == '\n' {
                    assert(x.last() == '\n');
                }
            } else {
                assert((r + y)[0] == r[0]);
            }
        }
        lemma_newline_run_le(r);
        assert((r + y).skip(k as int) =~= r.skip(k as int) + y);
        lemma_blank_run_split(r.skip(k as int), y);
        lemma_blank_run_le(r.skip(k as int));
        let w = blank_run(r.skip(k as int));
        assert((r.skip(k as int) + y).take(w as int) =~= r.skip(k as int).take(w as int));
        assert(lex_step(xy) == lex_step(x));
    } else if !is_special(c) {
        lemma_text_run_split(r, y);
        lemma_text_run_le(r);
        let n = text_run(r) + 1;
        assert(xy.take(n as int) =~= x.take(n as int));
        assert(lex_step(xy) == lex_step(x));
    }
    let (toks, n) = lex_step(x);
    assert(xy.skip(n as int) =~= x.skip(n as int) + y);
    if x.skip(n as int).len() > 0 {
        assert(x.skip(n as int).last() == x.last());
    }
    law_lex_split(x.skip(n as int), y);
    lemma_first_token(x.skip(n as int));
    assert(spec_lex(x) == toks + spec_lex(x.skip(n as int)));
    assert(spec_lex(xy) == toks + spec_lex(x.skip(n as int) + y));
    assert(spec_lex(x).drop_last() =~= toks + spec_lex(x.skip(n as int)).drop_last());
}


/// The source of a fenced code block: three backticks, the info string, a
/// newline, the body, and three closing backticks.
pub open spec fn fence_source(info: Seq<char>, body: Seq<char>) -> Seq<char> {
    seq!['`', '`', '`'] + info + seq!['\n'] + body + seq!['`', '`', '`']
}

pub open spec fn is_ascii_alnum(c: char) -> bool {
    ||| ('a' <= c && c <= 'z')
    ||| ('A' <= c && c <= 'Z')
    ||| ('0' <= c && c <= '9')
}

/// The tokens of an info string: one text, or none for an empty one.
pub open spec fn info_tokens(info: Seq<char>) -> Seq<TokenV> {
    if info.len() == 0 {
        Seq::<TokenV>::empty()
    } else {
        seq![TokenV::Text(info)]
    }
}

/// The tokens of a fence's body with the newline that opens it.
pub open spec fn body_tokens(body: Seq<char>) -> Seq<TokenV> {
    spec_lex(seq!['\n'] + body)
}

proof fn lemma_lex_symbol_first(c: char, rest: Seq<char>)
    requires
        is_special(c),
        c != '\n',
    ensures
        spec_lex(seq![c] + rest) == seq![symbol_token(c)] + spec_lex(rest),
{
    let s = seq![c] + rest;
    assert(s[0] == c);
    assert(s.skip(1) =~= rest);
}

proof fn lemma_text_run_full(s: Seq<char>)
    requires
        forall|i: int| 0 <= i < s.len() ==> !is_special(#[trigger] s[i]),
    ensures
        text_run(s) == s.len(),
    decreases s.len(),
{
    if s.len() > 0 {
        assert(!is_special(s[0]));
        lemma_text_run_full(s.drop_first());
    }
}

proof fn lemma_no_backtick_tokens(x: Seq<char>)
    requires
        forall|i: int| 0 <= i < x.len() ==> #[trigger] x[i] != '`',
    ensures
        forall|i: int| 0 <= i < spec_lex(x).len() ==> !(#[trigger] spec_lex(x)[i] is Backtick),
    decreases x.len(),
{
    if x.len() > 0 {
        lemma_lex_step_len(x);
        let (toks, n) = lex_step(x);
        let rest = x.skip(n as int);
        assert forall|i: int| 0 <= i < rest.len() implies #[trigger] rest[i] != '`' by {
            assert(rest[i] == x[i + n]);
        }
        lemma_no_backtick_tokens(rest);
        assert(spec_lex(x) == toks + spec_lex(rest));
        assert(x[0] != '`');
        assert forall|i: int| 0 <= i < spec_lex(x).len() implies !(#[trigger] spec_lex(x)[i] is Backtick) by {
            if i >= toks.len() {
                assert(spec_lex(x)[i] == spec_lex(rest)[i - toks.len()]);
            }
        }
    }
}

proof fn lemma_three_backticks(rest: Seq<char>)
    ensures
        spec_lex(seq!['`', '`', '`'] + rest) == seq![
            TokenV::Backtick,
            TokenV::Backtick,
            TokenV::Backtick,
        ] + spec_lex(rest),
{
    lemma_lex_symbol_first('`', seq!['`'] + (seq!['`'] + rest));
    lemma_lex_symbol_first('`', seq!['`'] + rest);
    lemma_lex_symbol_first('`', rest);
    assert(seq!['`', '`', '`'] + rest =~= seq!['`'] + (seq!['`'] + (seq!['`'] + rest)));
    assert(seq![TokenV::Backtick] + (seq![TokenV::Backtick] + (seq![TokenV::Backtick] + spec_lex(
        rest,
    ))) =~= seq![TokenV::Backtick, TokenV::Backtick, TokenV::Backtick] + spec_lex(rest));
}

proof fn lemma_info_tokens(info: Seq<char>, z: Seq<char>)
    requires
        forall|i: int| 0 <= i < info.len() ==> is_ascii_alnum(#[trigger] info[i]),
        z.len() > 0,
        z[0] == '\n',
    ensures
        spec_lex(info + z) == info_tokens(info) + spec_lex(z),
{
    if info.len() == 0 {
        assert(info + z =~= z);
        assert(info_tokens(info) + spec_lex(z) =~= spec_lex(z));
    } else {
        law_lex_split(info, z);
        assert forall|i: int| 0 <= i < info.drop_first().len() implies !is_special(
            #[trigger] info.drop_first()[i],
        ) by {
            assert(is_ascii_alnum(info[i + 1]));
        }
        lemma_text_run_full(info.drop_first());
        assert(is_ascii_alnum(info[0]));
        assert(!is_special(info[0]));
        lemma_lex_step_len(info);
        assert(info.take(info.len() as int) =~= info);
        assert(lex_step(info) == (seq![TokenV::Text(info)], info.len()));
        assert(info.skip(info.len() as int) =~= Seq::<char>::empty());
        assert(spec_lex(Seq::<char>::empty()) == seq![TokenV::EOF]);
        assert(spec_lex(info) == seq![TokenV::Text(info)] + seq![TokenV::EOF]);
        assert(spec_lex(info).drop_last() =~= info_tokens(info));
    }
}

proof fn lemma_body_shape(body: Seq<char>)
    requires
        forall|i: int| 0 <= i < body.len() ==> #[trigger] body[i] != '`',
        no_blank_lines(seq!['\n'] + body),
    ensures
        body_tokens(body).len() >= 2,
        body_tokens(body)[0] is NewLine,
        body_tokens(body).last() is EOF,
        forall|i: int|
            0 <= i < body_tokens(body).len() - 1 ==> !(#[trigger] body_tokens(body)[i] is Backtick)
                && !(body_tokens(body)[i] is EOF),
{
    let x = seq!['\n'] + body;
    let l = spec_lex(x);
    lemma_lex_step_len(x);
    let (toks, n) = lex_step(x);
    assert(body.len() > 0 ==> body[0] != '\n') by {
        if body.len() > 0 {
            assert(x[0] == '\n');
            assert(x[1] == body[0]);
        }
    }
    assert(x.drop_first() =~= body);
    assert(toks[0] is NewLine);
    assert(l == toks + spec_lex(x.skip(n as int)));
    lemma_first_token(x.skip(n as int));
    assert(l[0] is NewLine);
    law_token_stream_shape(x);
    assert(l.len() >= 2) by {
        assert(l[0] is NewLine);
        assert(l.last() is EOF);
    }
    assert forall|i: int| 0 <= i < x.len() implies #[trigger] x[i] != '`' by {
        if i > 0 {
            assert(x[i] == body[i - 1]);
        }
    }
    lemma_no_backtick_tokens(x);
}

proof fn lemma_body_text(body: Seq<char>)
    requires
        body_tokens(body).len() >= 2,
        body_tokens(body)[0] is NewLine,
        body_tokens(body).last() is EOF,
        no_blank_lines(seq!['\n'] + body),
        tab_free_indents(seq!['\n'] + body),
    ensures
        tokens_text(body_tokens(body).subrange(1, body_tokens(body).len() - 1)) == body,
{
    let x = seq!['\n'] + body;
    let l = spec_lex(x);
    let e = TokenV::EOF;
    law_roundtrip(x);
    let mid = l.subrange(1, l.len() - 1);
    assert(l =~= seq![l[0]] + mid + seq![e]);
    lemma_tokens_text_concat(seq![l[0]] + mid, seq![e]);
    lemma_tokens_text_concat(seq![l[0]], mid);
    let none = Seq::<TokenV>::empty();
    assert(tokens_text(none) == Seq::<char>::empty());
    assert(seq![e].drop_first() =~= none);
    assert(seq![e][0] == e);
    assert(tokens_text(seq![e]) == token_text(e) + tokens_text(none));
    assert(tokens_text(seq![e]) =~= Seq::<char>::empty());
    assert(seq![l[0]].drop_first() =~= none);
    assert(seq![l[0]][0] == l[0]);
    assert(tokens_text(seq![l[0]]) == token_text(l[0]) + tokens_text(none));
    assert(tokens_text(seq![l[0]]) =~= seq!['\n']);
    let front = seq![l[0]] + mid;
    assert(tokens_text(front) == seq!['\n'] + tokens_text(mid));
    assert(tokens_text(l) == tokens_text(front) + tokens_text(seq![e]));
    assert(tokens_text(l) =~= seq!['\n'] + tokens_text(mid));
    assert(x =~= seq!['\n'] + tokens_text(mid));
    assert(x.drop_first() =~= body);
    assert((seq!['\n'] + tokens_text(mid)).drop_first() =~= tokens_text(mid));
    assert(tokens_text(mid) =~= body);
}

/// How a fenced code block is lexed: its three backticks, the text of its info
/// string, the tokens of its body after the opening newline (a `NewLine` first,
/// no backtick, no `EOF`, and their texts give back the body), then the three
/// closing backticks and `EOF`.
pub proof fn lemma_fence_tokens(info: Seq<char>, body: Seq<char>)
    requires
        forall|i: int| 0 <= i < info.len() ==> is_ascii_alnum(#[trigger] info[i]),
        body.len() > 0 ==> body.last() == '\n',
        forall|i: int| 0 <= i < body.len() ==> #[trigger] body[i] != '`',
        no_blank_lines(seq!['\n'] + body),
        tab_free_indents(seq!['\n'] + body),
    ensures
        spec_lex(fence_source(info, body)) == seq![
            TokenV::Backtick,
            TokenV::Backtick,
            TokenV::Backtick,
        ] + info_tokens(info) + body_tokens(body).drop_last() + seq![
            TokenV::Backtick,
            TokenV::Backtick,
            TokenV::Backtick,
            TokenV::EOF,
        ],
        body_tokens(body).len() >= 2,
        body_tokens(body)[0] is NewLine,
        forall|i: int|
            0 <= i < body_tokens(body).len() - 1 ==> !(#[trigger] body_tokens(body)[i] is Backtick)
                && !(body_tokens(body)[i] is EOF),
        tokens_text(body_tokens(body).subrange(1, body_tokens(body).len() - 1)) == body,
{
    let bt = seq!['`', '`', '`'];
    let x = seq!['\n'] + body;
    let l = spec_lex(x);
    lemma_three_backticks(Seq::<char>::empty());
    assert(bt + Seq::<char>::empty() =~= bt);
    assert(spec_lex(Seq::<char>::empty()) == seq![TokenV::EOF]);
    let tail = seq![TokenV::Backtick, TokenV::Backtick, TokenV::Backtick, TokenV::EOF];
    assert(spec_lex(bt) =~= tail);
    assert(x.len() > 0 && x.last() == '\n');
    law_lex_split(x, bt);
    let z = x + bt;
    assert(z[0] == '\n');
    lemma_info_tokens(info, z);
    let iz = info + z;
    lemma_three_backticks(iz);
    assert(fence_source(info, body) =~= bt + iz);
    lemma_body_shape(body);
    lemma_body_text(body);
    assert(spec_lex(fence_source(info, body)) =~= seq![
        TokenV::Backtick,
        TokenV::Backtick,
        TokenV::Backtick,
    ] + info_tokens(info) + l.drop_last() + tail);
}


/// A blank line between two sources is one `LineBreak` between their tokens:
/// where `a` does not end with a newline and `b` does not start with a blank or
/// a newline, the tokens of `a`, a blank line and `b` are those of `a` without
/// its `EOF`, a `LineBreak`, then those of `b`.
pub proof fn law_blank_line_tokens(a: Seq<char>, b: Seq<char>)
    requires
        a.len() > 0 ==> a.last() != '\n',
        b.len() > 0 ==> b[0] != ' ' && b[0] != '\t' && b[0] != '\n',
    ensures
        spec_lex(a + seq!['\n', '\n'] + b) == spec_lex(a).drop_last() + seq![TokenV::LineBreak]
            + spec_lex(b),
{
    let y = seq!['\n', '\n'] + b;
    assert(a + seq!['\n', '\n'] + b =~= a + y);
    law_lex_split(a, y);
    law_line_start(1, Seq::<char>::empty(), b);
    assert(seq!['\n'] + repeat_char('\n', 1) + Seq::<char>::empty() + b =~= y);
    assert(indent_width(Seq::<char>::empty()) == 0);
    assert(seq![TokenV::LineBreak] + Seq::<TokenV>::empty() + spec_lex(b) =~= seq![
        TokenV::LineBreak,
    ] + spec_lex(b));
    assert(spec_lex(a).drop_last() + spec_lex(y) =~= spec_lex(a).drop_last() + seq![
        TokenV::LineBreak,
    ] + spec_lex(b));
}

} // verus!
