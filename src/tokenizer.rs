use vstd::prelude::*;

verus! {

/// A half-open range `start..end` of character positions in the source text.
#[derive(Clone, Copy, Debug, PartialEq, Eq, Structural)]
pub struct Span {
    pub start: usize,
    pub end: usize,
}

/// One lexical unit of the source. Numbers and identifiers refer back to the
/// source by position and carry the line they stand on.
#[derive(Clone, Copy, Debug, PartialEq, Eq, Structural)]
pub enum Token {
    LeftParen,
    RightParen,
    Plus,
    Minus,
    Star,
    Slash,
    Power,
    Percent,
    StatementEnd,
    Equals,
    PlusEquals,
    MinusEquals,
    StarEquals,
    SlashEquals,
    ArgSeperator,
    FnCall(Span),
    Number(Span, usize),
    Identifier(Span, usize),
    /// A character that the lexical grammar does not accept, with its line.
    Unrecognized(char, usize),
    EOF,
}

pub open spec fn spec_is_digit(c: char) -> bool {
    '0' <= c <= '9'
}

pub open spec fn spec_is_ident_start(c: char) -> bool {
    ('a' <= c <= 'z') || ('A' <= c <= 'Z') || c == '_'
}

pub open spec fn spec_is_alphanumeric(c: char) -> bool {
    spec_is_digit(c) || spec_is_ident_start(c)
}

pub open spec fn spec_is_number_char(c: char) -> bool {
    spec_is_digit(c) || c == '.'
}

/// How many characters from position `j` on continue an identifier.
pub open spec fn ident_run(s: Seq<char>, j: int) -> nat
    decreases s.len() - j,
{
    if 0 <= j < s.len() && spec_is_alphanumeric(s[j]) {
        1 + ident_run(s, j + 1)
    } else {
        0
    }
}

/// How many characters from position `j` on continue a number.
pub open spec fn number_run(s: Seq<char>, j: int) -> nat
    decreases s.len() - j,
{
    if 0 <= j < s.len() && spec_is_number_char(s[j]) {
        1 + number_run(s, j + 1)
    } else {
        0
    }
}

/// The token of a character that stands alone.
pub open spec fn single_char_token(c: char) -> Option<Token> {
    if c == '%' {
        Some(Token::Percent)
    } else if c == '(' {
        Some(Token::LeftParen)
    } else if c == ')' {
        Some(Token::RightParen)
    } else if c == '=' {
        Some(Token::Equals)
    } else if c == ',' {
        Some(Token::ArgSeperator)
    } else if c == '^' {
        Some(Token::Power)
    } else {
        None
    }
}

/// For an operator that may take a following `=`: the plain token and the
/// compound-assignment token.
pub open spec fn operator_tokens(c: char) -> Option<(Token, Token)> {
    if c == '+' {
        Some((Token::Plus, Token::PlusEquals))
    } else if c == '-' {
        Some((Token::Minus, Token::MinusEquals))
    } else if c == '*' {
        Some((Token::Star, Token::StarEquals))
    } else if c == '/' {
        Some((Token::Slash, Token::SlashEquals))
    } else {
        None
    }
}

pub open spec fn is_blank(c: char) -> bool {
    c == ' ' || c == '\t' || c == '\r'
}

/// What the character at position `i` gives: a token (or none, for a blank
/// or a newline right after a statement end), the position after it, and the
/// line there.
pub open spec fn scan_step(s: Seq<char>, i: int, line: usize, after_end: bool) -> (
    Option<Token>,
    int,
    usize,
) {
    let c = s[i];
    if is_blank(c) {
        (None, i + 1, line)
    } else if c == '\n' {
        (if after_end { None } else { Some(Token::StatementEnd) }, i + 1, (line + 1) as usize)
    } else if c == ';' {
        (Some(Token::StatementEnd), i + 1, line)
    } else if spec_is_ident_start(c) {
        let e = i + 1 + ident_run(s, i + 1);
        (Some(Token::Identifier(Span { start: i as usize, end: e as usize }, line)), e, line)
    } else if spec_is_digit(c) {
        let e = i + 1 + number_run(s, i + 1);
        (Some(Token::Number(Span { start: i as usize, end: e as usize }, line)), e, line)
    } else if operator_tokens(c) is Some {
        let (plain, compound) = operator_tokens(c)->0;
        if i + 1 < s.len() && s[i + 1] == '=' {
            (Some(compound), i + 2, line)
        } else {
            (Some(plain), i + 1, line)
        }
    } else if single_char_token(c) is Some {
        (single_char_token(c), i + 1, line)
    } else {
        (Some(Token::Unrecognized(c, line)), i + 1, line)
    }
}

/// Whether the statement-end state holds after `t` was (or was not) produced.
pub open spec fn ends_after(t: Option<Token>, after_end: bool) -> bool {
    match t {
        Some(t) => t == Token::StatementEnd,
        None => after_end,
    }
}

/// The tokens of `s` from position `i` on, on line `line`; `after_end` tells
/// whether the last token produced was a statement end, so that a run of
/// newlines gives one statement end. The sequence ends with `EOF`.
pub open spec fn scan(s: Seq<char>, i: int, line: usize, after_end: bool) -> Seq<Token>
    decreases s.len() - i,
{
    if i < 0 || i >= s.len() {
        seq![Token::EOF]
    } else {
        let (t, j, next_line) = scan_step(s, i, line, after_end);
        let rest = if i < j <= s.len() {
            scan(s, j, next_line, ends_after(t, after_end))
        } else {
            seq![Token::EOF]
        };
        match t {
            Some(t) => seq![t] + rest,
            None => rest,
        }
    }
}

/// The line each token of `scan(s, i, line, after_end)` starts on; a
/// statement end made by a newline stands on the line that newline ends.
pub open spec fn scan_lines(s: Seq<char>, i: int, line: usize, after_end: bool) -> Seq<usize>
    decreases s.len() - i,
{
    if i < 0 || i >= s.len() {
        seq![line]
    } else {
        let (t, j, next_line) = scan_step(s, i, line, after_end);
        let rest = if i < j <= s.len() {
            scan_lines(s, j, next_line, ends_after(t, after_end))
        } else {
            seq![next_line]
        };
        match t {
            Some(_) => seq![line] + rest,
            None => rest,
        }
    }
}

/// The line of each token of a whole source text.
pub open spec fn token_lines(s: Seq<char>) -> Seq<usize> {
    scan_lines(s, 0, 1, false)
}

/// The token sequence of a whole source text.
pub open spec fn tokens_of(s: Seq<char>) -> Seq<Token> {
    scan(s, 0, 1, false)
}

proof fn lemma_ident_run_bound(s: Seq<char>, j: int)
    requires
        0 <= j <= s.len(),
    ensures
        j + ident_run(s, j) <= s.len(),
    decreases s.len() - j,
{
    if j < s.len() && spec_is_alphanumeric(s[j]) {
        lemma_ident_run_bound(s, j + 1);
    }
}

proof fn lemma_number_run_bound(s: Seq<char>, j: int)
    requires
        0 <= j <= s.len(),
    ensures
        j + number_run(s, j) <= s.len(),
    decreases s.len() - j,
{
    if j < s.len() && spec_is_number_char(s[j]) {
        lemma_number_run_bound(s, j + 1);
    }
}

proof fn lemma_push_then_concat(a: Seq<Token>, t: Token, b: Seq<Token>)
    ensures
        a + (seq![t] + b) == a.push(t) + b,
{
    assert(a + (seq![t] + b) =~= a.push(t) + b);
}

/// The characters of `source`, in order.
pub fn chars_of(source: &str) -> (r: Vec<char>)
    ensures
        r@ == source@,
{
    let mut out: Vec<char> = Vec::new();
    for c in it: source.chars()
        invariant
            it.seq() == source@,
            out@ == it.seq().take(it.index() as int),
    {
        out.push(c);
        proof {
            assert(out@ == it.seq().take(it.index() + 1));
        }
    }
    proof {
        assert(out@ == source@);
    }
    out
}

/// Whether the last token of `ts` ends a statement.
pub open spec fn ends_statement(ts: Seq<Token>) -> bool {
    ts.len() > 0 && ts.last() == Token::StatementEnd
}

/// The tokens of `source`, ending with `EOF`.
pub fn tokens_from_text(source: &str) -> (r: Vec<Token>)
    requires
        source@.len() < usize::MAX,
    ensures
        r@ == tokens_of(source@),
{
    let mut tk = Tokenizer::new(source);
    tk.tokenize();
    tk.tokens
}

/// The tokens of `source`, ending with `EOF`, and the line each stands on.
pub fn tokens_and_lines_from_text(source: &str) -> (r: (Vec<Token>, Vec<usize>))
    requires
        source@.len() < usize::MAX,
    ensures
        r.0@ == tokens_of(source@),
        r.1@ == token_lines(source@),
        r.0@.len() == r.1@.len(),
{
    let mut tk = Tokenizer::new(source);
    tk.tokenize();
    (tk.tokens, tk.lines)
}

/// A single forward scan over the characters of a source text.
pub struct Tokenizer {
    chars: Vec<char>,
    current_idx: usize,
    line_num: usize,
    tokens: Vec<Token>,
    lines: Vec<usize>,
}

impl Tokenizer {
    pub closed spec fn source(&self) -> Seq<char> {
        self.chars@
    }

    pub closed spec fn produced(&self) -> Seq<Token> {
        self.tokens@
    }

    /// The line of each token produced.
    pub closed spec fn produced_lines(&self) -> Seq<usize> {
        self.lines@
    }

    /// Nothing scanned yet.
    pub closed spec fn at_start(&self) -> bool {
        &&& self.current_idx == 0
        &&& self.line_num == 1
        &&& self.tokens@.len() == 0
        &&& self.lines@.len() == 0
        &&& self.chars@.len() < usize::MAX
    }

    pub fn new(source_text: &str) -> (r: Self)
        requires
            source_text@.len() < usize::MAX,
        ensures
            r.source() == source_text@,
            r.at_start(),
    {
        Tokenizer {
            chars: chars_of(source_text),
            current_idx: 0,
            line_num: 1,
            tokens: Vec::new(),
            lines: Vec::new(),
        }
    }

    /// Scans the rest of a number whose first digit is just behind the
    /// current position.
    fn parse_number(&mut self) -> (t: Token)
        requires
            1 <= old(self).current_idx <= old(self).chars@.len(),
        ensures
            final(self).chars == old(self).chars,
            final(self).line_num == old(self).line_num,
            final(self).tokens == old(self).tokens,
            final(self).lines == old(self).lines,
            final(self).current_idx == old(self).current_idx + number_run(
                old(self).chars@,
                old(self).current_idx as int,
            ),
            t == Token::Number(
                Span { start: (old(self).current_idx - 1) as usize, end: final(self).current_idx },
                old(self).line_num,
            ),
    {
        let start = self.current_idx - 1;
        while self.current_idx < self.chars.len() && (is_digit(self.chars[self.current_idx])
            || self.chars[self.current_idx] == '.')
            invariant
                self.chars == old(self).chars,
                self.line_num == old(self).line_num,
                self.tokens == old(self).tokens,
                self.lines == old(self).lines,
                old(self).current_idx <= self.current_idx <= self.chars@.len(),
                old(self).current_idx + number_run(self.chars@, old(self).current_idx as int)
                    == self.current_idx + number_run(self.chars@, self.current_idx as int),
            decreases self.chars@.len() - self.current_idx,
        {
            self.current_idx = self.current_idx + 1;
        }
        Token::Number(Span { start, end: self.current_idx }, self.line_num)
    }

    /// Scans the rest of an identifier whose first character is just behind
    /// the current position.
    fn parse_identifier(&mut self) -> (t: Token)
        requires
            1 <= old(self).current_idx <= old(self).chars@.len(),
        ensures
            final(self).chars == old(self).chars,
            final(self).line_num == old(self).line_num,
            final(self).tokens == old(self).tokens,
            final(self).lines == old(self).lines,
            final(self).current_idx == old(self).current_idx + ident_run(
                old(self).chars@,
                old(self).current_idx as int,
            ),
            t == Token::Identifier(
                Span { start: (old(self).current_idx - 1) as usize, end: final(self).current_idx },
                old(self).line_num,
            ),
    {
        let start = self.current_idx - 1;
        while self.current_idx < self.chars.len() && is_alphanumeric(self.chars[self.current_idx])
            invariant
                self.chars == old(self).chars,
                self.line_num == old(self).line_num,
                self.tokens == old(self).tokens,
                self.lines == old(self).lines,
                old(self).current_idx <= self.current_idx <= self.chars@.len(),
                old(self).current_idx + ident_run(self.chars@, old(self).current_idx as int)
                    == self.current_idx + ident_run(self.chars@, self.current_idx as int),
            decreases self.chars@.len() - self.current_idx,
        {
            self.current_idx = self.current_idx + 1;
        }
        Token::Identifier(Span { start, end: self.current_idx }, self.line_num)
    }

    /// For `+ - * /`: the compound token when a `=` follows, else the plain one.
    fn operator(&mut self, plain: Token, compound: Token) -> (t: Token)
        requires
            old(self).current_idx <= old(self).chars@.len(),
        ensures
            final(self).chars == old(self).chars,
            final(self).line_num == old(self).line_num,
            final(self).tokens == old(self).tokens,
            final(self).lines == old(self).lines,
            ({
                let s = old(self).chars@;
                let i = old(self).current_idx as int;
                if i < s.len() && s[i] == '=' {
                    t == compound && final(self).current_idx == i + 1
                } else {
                    t == plain && final(self).current_idx == i
                }
            }),
    {
        if self.current_idx < self.chars.len() && self.chars[self.current_idx] == '=' {
            self.current_idx = self.current_idx + 1;
            compound
        } else {
            plain
        }
    }

    /// Consumes the character at the current position and whatever belongs
    /// to the same token; returns that token, or `None` where the character
    /// gives none (a blank, or a newline right after a statement end).
    fn next_token(&mut self, after_end: bool) -> (r: Option<Token>)
        requires
            old(self).current_idx < old(self).chars@.len() < usize::MAX,
            1 <= old(self).line_num <= old(self).current_idx + 1,
        ensures
            final(self).chars == old(self).chars,
            final(self).tokens == old(self).tokens,
            final(self).lines == old(self).lines,
            old(self).current_idx < final(self).current_idx <= final(self).chars@.len(),
            1 <= final(self).line_num <= final(self).current_idx + 1,
            (r, final(self).current_idx as int, final(self).line_num) == scan_step(
                old(self).chars@,
                old(self).current_idx as int,
                old(self).line_num,
                after_end,
            ),
    {
        let ghost s = self.chars@;
        let ghost i = self.current_idx as int;
        let ghost line0 = self.line_num;
        let ch = self.chars[self.current_idx];
        self.current_idx = self.current_idx + 1;
        if ch == ' ' || ch == '\t' || ch == '\r' {
            return None;
        }
        let token: Token;
        if ch == '\n' {
            self.line_num = self.line_num + 1;
            if after_end {
                return None;
            }
            token = Token::StatementEnd;
        } else if ch == ';' {
            token = Token::StatementEnd;
        } else if is_alphanumeric(ch) && !is_digit(ch) {
            proof {
                lemma_ident_run_bound(s, i + 1);
            }
            token = self.parse_identifier();
        } else if is_digit(ch) {
            proof {
                lemma_number_run_bound(s, i + 1);
            }
            token = self.parse_number();
        } else if ch == '+' {
            token = self.operator(Token::Plus, Token::PlusEquals);
        } else if ch == '-' {
            token = self.operator(Token::Minus, Token::MinusEquals);
        } else if ch == '*' {
            token = self.operator(Token::Star, Token::StarEquals);
        } else if ch == '/' {
            token = self.operator(Token::Slash, Token::SlashEquals);
        } else if ch == '%' {
            token = Token::Percent;
        } else if ch == '(' {
            token = Token::LeftParen;
        } else if ch == ')' {
            token = Token::RightParen;
        } else if ch == '=' {
            token = Token::Equals;
        } else if ch == ',' {
            token = Token::ArgSeperator;
        } else if ch == '^' {
            token = Token::Power;
        } else {
            token = Token::Unrecognized(ch, self.line_num);
        }
        Some(token)
    }

    /// Scans the whole source from the start.
    pub fn tokenize(&mut self)
        requires
            old(self).at_start(),
        ensures
            final(self).source() == old(self).source(),
            final(self).produced() == tokens_of(old(self).source()),
            final(self).produced_lines() == token_lines(old(self).source()),
            final(self).produced().len() == final(self).produced_lines().len(),
    {
        let ghost s = self.chars@;
        while self.current_idx < self.chars.len()
            invariant
                self.chars@ == s,
                self.current_idx <= s.len() < usize::MAX,
                1 <= self.line_num <= self.current_idx + 1,
                tokens_of(s) == self.tokens@ + scan(
                    s,
                    self.current_idx as int,
                    self.line_num,
                    ends_statement(self.tokens@),
                ),
                token_lines(s) == self.lines@ + scan_lines(
                    s,
                    self.current_idx as int,
                    self.line_num,
                    ends_statement(self.tokens@),
                ),
                self.tokens@.len() == self.lines@.len(),
            decreases s.len() - self.current_idx,
        {
            let after_end = self.tokens.len() > 0 && self.tokens[self.tokens.len() - 1]
                == Token::StatementEnd;
            let ghost before = self.tokens@;
            let ghost i = self.current_idx as int;
            let ghost line = self.line_num;
            let line_here = self.line_num;
            let ghost before_lines = self.lines@;
            let next = self.next_token(after_end);
            let ghost rest = scan(s, self.current_idx as int, self.line_num, ends_after(next, after_end));
            let ghost rest_lines = scan_lines(
                s,
                self.current_idx as int,
                self.line_num,
                ends_after(next, after_end),
            );
            assert(scan(s, i, line, after_end) == match next {
                Some(t) => seq![t] + rest,
                None => rest,
            });
            assert(scan_lines(s, i, line, after_end) == match next {
                Some(_) => seq![line] + rest_lines,
                None => rest_lines,
            });
            match next {
                Some(token) => {
                    self.tokens.push(token);
                    self.lines.push(line_here);
                    proof {
                        lemma_push_then_concat(before, token, rest);
                        assert(before_lines + (seq![line] + rest_lines) =~= self.lines@ + rest_lines);
                        assert(self.tokens@.last() == token);
                    }
                },
                None => {},
            }
        }
        let ghost before = self.tokens@;
        let ghost before_lines = self.lines@;
        self.tokens.push(Token::EOF);
        self.lines.push(self.line_num);
        proof {
            assert(before + seq![Token::EOF] =~= self.tokens@);
            assert(before_lines + seq![self.line_num] =~= self.lines@);
        }
    }
}

/// Whether `ch` may continue an identifier: a letter, a digit or `_`.
pub fn is_alphanumeric(ch: char) -> (r: bool)
    ensures
        r == spec_is_alphanumeric(ch),
{
    ('0' <= ch && ch <= '9') || ('a' <= ch && ch <= 'z') || ('A' <= ch && ch <= 'Z') || ch == '_'
}

/// Whether `ch` is a decimal digit.
pub fn is_digit(ch: char) -> (r: bool)
    ensures
        r == spec_is_digit(ch),
{
    '0' <= ch && ch <= '9'
}

} // verus!
