use crate::tokenizer::{Span, Token};
use vstd::prelude::*;

verus! {

/// A syntax tree node. An operation holds its operator token and its
/// operands in source order: two for a binary operator, one for a unary
/// sign, one per argument for a function call (`Token::FnCall`).
#[derive(Debug)]
pub enum AstNode {
    Ident(Span),
    Number(Span),
    Op(Token, Vec<AstNode>),
}

/// The mathematical form of a syntax tree.
pub ghost enum Ast {
    Ident(Span),
    Number(Span),
    Op(Token, Seq<Ast>),
}

/// The tree that an `AstNode` stands for.
pub open spec fn ast_of(n: AstNode) -> Ast
    decreases n,
{
    match n {
        AstNode::Ident(s) => Ast::Ident(s),
        AstNode::Number(s) => Ast::Number(s),
        AstNode::Op(t, children) => Ast::Op(
            t,
            Seq::new(
                children@.len(),
                |i: int|
                    if 0 <= i < children@.len() {
                        ast_of(children@[i])
                    } else {
                        Ast::Number(Span { start: 0, end: 0 })
                    },
            ),
        ),
    }
}

pub proof fn lemma_ast_of_op(t: Token, children: Vec<AstNode>)
    ensures
        ast_of(AstNode::Op(t, children)) == Ast::Op(
            t,
            children@.map_values(|n: AstNode| ast_of(n)),
        ),
{
    let a = ast_of(AstNode::Op(t, children));
    assert(a->Op_1 =~= children@.map_values(|n: AstNode| ast_of(n)));
}

/// How strongly a prefix `+` or `-` binds its operand: tighter than every
/// binary operator but power, so `-3 + 4` is `(-3) + 4` and `-2 ^ 2` is
/// `-(2 ^ 2)`.
pub const PREFIX_PRECEDENCE: u8 = 6;

pub open spec fn prefix_prec(t: Token) -> Option<u8> {
    match t {
        Token::Plus | Token::Minus => Some(PREFIX_PRECEDENCE),
        _ => None,
    }
}

/// Left and right binding strength of each binary operator; higher binds
/// tighter. The parser goes on with an operator while its left strength is
/// at least the current minimum and parses its right operand with the right
/// strength as the new minimum, so equal strengths group to the right and a
/// right strength one above the left groups to the left. Assignment (plain and
/// compound) is the loosest and groups to the right; `%` binds like `*` and
/// `/`; `^` is the tightest and groups to the right.
pub open spec fn infix_prec(t: Token) -> Option<(u8, u8)> {
    match t {
        Token::Equals | Token::PlusEquals | Token::MinusEquals | Token::StarEquals
        | Token::SlashEquals => Some((1, 1)),
        Token::Plus | Token::Minus => Some((3, 4)),
        Token::Star | Token::Slash | Token::Percent => Some((5, 6)),
        Token::Power => Some((7, 7)),
        _ => None,
    }
}

/// Tokens before which an expression ends without being consumed.
pub open spec fn ends_expression(t: Token) -> bool {
    t == Token::EOF || t == Token::StatementEnd || t == Token::RightParen || t
        == Token::ArgSeperator
}

pub open spec fn ends_statement(t: Token) -> bool {
    t == Token::EOF || t == Token::StatementEnd
}

/// The token at position `p`; past the end, `EOF`.
pub open spec fn tok(t: Seq<Token>, p: int) -> Token {
    if 0 <= p < t.len() {
        t[p]
    } else {
        Token::EOF
    }
}

/// How many tokens remain from position `p` on.
pub open spec fn remaining(t: Seq<Token>, p: int) -> nat {
    if p < t.len() {
        (t.len() - p) as nat
    } else {
        0
    }
}

/// How deeply a statement may nest: each expression inside another, and
/// each binary operator applied, takes one level. A statement that needs more
/// is rejected at the token where the limit is reached, so parsing and every
/// walk over a tree stay within a bounded depth.
pub const MAX_NESTING: usize = 256;

/// An expression of minimum binding strength `m` from position `p`, with
/// `d` levels of nesting left: the tree and the position after it, or the
/// position of the token where the grammar cannot go on.
pub open spec fn pexpr(t: Seq<Token>, p: int, m: u8, d: nat) -> Result<(Ast, int), int>
    decreases remaining(t, p), 1nat,
{
    let tk = tok(t, p);
    if d == 0 {
        Err(p)
    } else {
        let e = (d - 1) as nat;
        match tk {
            Token::Number(sp, _) => pinfix(t, Ast::Number(sp), p + 1, m, e),
            Token::Identifier(sp, _) => {
                if tok(t, p + 1) == Token::LeftParen {
                    match pargs(t, p + 2, e) {
                        Ok((args, q)) => if p < q {
                            pinfix(t, Ast::Op(Token::FnCall(sp), args), q, m, e)
                        } else {
                            Err(q)
                        },
                        Err(e) => Err(e),
                    }
                } else {
                    pinfix(t, Ast::Ident(sp), p + 1, m, e)
                }
            },
            Token::LeftParen => match pexpr(t, p + 1, 0, e) {
                Ok((inner, q)) => if tok(t, q) == Token::RightParen && p < q {
                    pinfix(t, inner, q + 1, m, e)
                } else {
                    Err(q)
                },
                Err(e) => Err(e),
            },
            Token::Plus | Token::Minus => match pexpr(t, p + 1, prefix_prec(tk)->0, e) {
                Ok((operand, q)) => if p < q {
                    pinfix(t, Ast::Op(tk, seq![operand]), q, m, e)
                } else {
                    Err(q)
                },
                Err(e) => Err(e),
            },
            _ => Err(p),
        }
    }
}

/// The binary operators that follow `left`, from position `p` on, with `d`
/// levels of nesting left.
pub open spec fn pinfix(t: Seq<Token>, left: Ast, p: int, m: u8, d: nat) -> Result<(Ast, int), int>
    decreases remaining(t, p), 0nat,
{
    let tk = tok(t, p);
    match infix_prec(tk) {
        None => if ends_expression(tk) {
            Ok((left, p))
        } else {
            Err(p)
        },
        Some((lp, rp)) => if lp < m {
            Ok((left, p))
        } else if d == 0 {
            Err(p)
        } else {
            match pexpr(t, p + 1, rp, (d - 1) as nat) {
                Ok((right, q)) => if p < q {
                    pinfix(t, Ast::Op(tk, seq![left, right]), q, m, (d - 1) as nat)
                } else {
                    Err(q)
                },
                Err(e) => Err(e),
            }
        },
    }
}

/// The arguments of a call, from just after its `(`: the arguments and the
/// position after the closing `)`.
pub open spec fn pargs(t: Seq<Token>, p: int, d: nat) -> Result<(Seq<Ast>, int), int>
    decreases remaining(t, p), 3nat,
{
    if tok(t, p) == Token::RightParen {
        Ok((seq![], p + 1))
    } else {
        pargs_more(t, p, seq![], d)
    }
}

/// Arguments from position `p` on, after the arguments `acc`.
pub open spec fn pargs_more(t: Seq<Token>, p: int, acc: Seq<Ast>, d: nat) -> Result<
    (Seq<Ast>, int),
    int,
>
    decreases remaining(t, p), 2nat,
{
    match pexpr(t, p, 0, d) {
        Ok((a, q)) => if tok(t, q) == Token::ArgSeperator && p < q {
            pargs_more(t, q + 1, acc.push(a), d)
        } else if tok(t, q) == Token::RightParen {
            Ok((acc.push(a), q + 1))
        } else {
            Err(q)
        },
        Err(e) => Err(e),
    }
}

/// Why a statement was rejected, with the line it stands on.
#[derive(Clone, Copy, Debug, PartialEq, Eq, Structural)]
pub enum SyntaxError {
    /// A character that the lexical grammar does not accept.
    UnrecognizedCharacter { ch: char, line: usize },
    /// A token where the grammar cannot go on.
    UnexpectedToken { token: Token, line: usize },
    /// An assignment whose target is not a variable name.
    InvalidAssignment { line: usize },
    /// A number with more than one decimal point.
    MalformedNumber { line: usize },
}

/// The line a token records, if any.
pub open spec fn token_line(t: Token) -> Option<usize> {
    match t {
        Token::Number(_, l) => Some(l),
        Token::Identifier(_, l) => Some(l),
        Token::Unrecognized(_, l) => Some(l),
        _ => None,
    }
}

/// The line of the nearest token at or before position `p` that records
/// one; 1 where there is none.
pub open spec fn line_at(t: Seq<Token>, p: int) -> usize
    decreases p + 1,
{
    if p < 0 {
        1
    } else if p < t.len() && token_line(t[p]) is Some {
        token_line(t[p])->0
    } else {
        line_at(t, p - 1)
    }
}

/// The line of the token at position `p` (past the end, of the last token).
/// Where `ls` gives one line per token it is read there; otherwise it is the
/// line of the nearest token at or before `p` that records one.
pub open spec fn token_line_at(t: Seq<Token>, ls: Seq<usize>, p: int) -> usize {
    if ls.len() == t.len() && t.len() > 0 {
        if p < 0 {
            ls[0]
        } else if p < ls.len() {
            ls[p]
        } else {
            ls.last()
        }
    } else {
        line_at(t, p)
    }
}

/// The diagnostic for a statement that cannot go on at position `e`.
pub open spec fn diagnose(t: Seq<Token>, ls: Seq<usize>, e: int) -> SyntaxError {
    match tok(t, e) {
        Token::Unrecognized(ch, line) => SyntaxError::UnrecognizedCharacter { ch, line },
        other => SyntaxError::UnexpectedToken { token: other, line: token_line_at(t, ls, e) },
    }
}

pub open spec fn is_assign_op(t: Token) -> bool {
    t == Token::Equals || t == Token::PlusEquals || t == Token::MinusEquals || t
        == Token::StarEquals || t == Token::SlashEquals
}

/// A tree that may stand as a statement: every assignment in it, at the
/// top or nested (`a = b = 1`, `(x = 2) * 3`), writes to a variable name.
pub open spec fn valid_statement(a: Ast) -> bool
    decreases a,
{
    match a {
        Ast::Op(t, ch) => {
            &&& (is_assign_op(t) ==> ch.len() == 2 && ch[0] is Ident)
            &&& forall|i: int| 0 <= i < ch.len() ==> valid_statement(ch[i])
        },
        _ => true,
    }
}

/// The first position at or after `p` that ends a statement.
pub open spec fn skip_statement(t: Seq<Token>, p: int) -> int
    decreases remaining(t, p),
{
    if ends_statement(tok(t, p)) {
        p
    } else {
        skip_statement(t, p + 1)
    }
}

/// The statements from position `p` on, each a tree or the diagnostic that
/// rejected it, with diagnostic lines taken from `ls` (see `token_line_at`). A rejected statement is dropped up to its end, and parsing
/// goes on with the next one.
pub open spec fn pstmts(t: Seq<Token>, ls: Seq<usize>, p: int) -> Seq<Result<Ast, SyntaxError>>
    decreases remaining(t, p),
{
    let tk = tok(t, p);
    if tk == Token::EOF {
        seq![]
    } else if tk == Token::StatementEnd {
        pstmts(t, ls, p + 1)
    } else {
        let (res, q) = match pexpr(t, p, 0, MAX_NESTING as nat) {
            Ok((a, q)) => if !ends_statement(tok(t, q)) {
                (Err(diagnose(t, ls, q)), skip_statement(t, q))
            } else if !valid_statement(a) {
                (Err(SyntaxError::InvalidAssignment { line: token_line_at(t, ls, p) }), q)
            } else {
                (Ok(a), q)
            },
            Err(e) => (Err(diagnose(t, ls, e)), skip_statement(t, e)),
        };
        seq![res] + if p < q {
            pstmts(t, ls, q)
        } else {
            seq![]
        }
    }
}

pub open spec fn stmt_view(r: Result<AstNode, SyntaxError>) -> Result<Ast, SyntaxError> {
    match r {
        Ok(n) => Ok(ast_of(n)),
        Err(e) => Err(e),
    }
}

/// Where no binary operator follows, or one that binds too loosely.
proof fn lemma_pinfix_stop(t: Seq<Token>, left: Ast, p: int, m: u8, d: nat)
    requires
        match infix_prec(tok(t, p)) {
            None => true,
            Some((lp, _)) => lp < m,
        },
    ensures
        pinfix(t, left, p, m, d) == if infix_prec(tok(t, p)) is None && !ends_expression(
            tok(t, p),
        ) {
            Err::<(Ast, int), int>(p)
        } else {
            Ok((left, p))
        },
{
}

/// Where a binary operator binds tightly enough to go on.
proof fn lemma_pinfix_step(t: Seq<Token>, left: Ast, p: int, m: u8, d: nat)
    requires
        infix_prec(tok(t, p)) matches Some((lp, _)) && lp >= m,
    ensures
        ({
            let rp = match infix_prec(tok(t, p)) {
                Some((_, rp)) => rp,
                None => 0,
            };
            pinfix(t, left, p, m, d) == if d == 0 {
                Err(p)
            } else {
                match pexpr(t, p + 1, rp, (d - 1) as nat) {
                    Ok((right, q)) => if p < q {
                        pinfix(t, Ast::Op(tok(t, p), seq![left, right]), q, m, (d - 1) as nat)
                    } else {
                        Err(q)
                    },
                    Err(e) => Err(e),
                }
            }
        }),
{
}

proof fn lemma_line_at_past_end(t: Seq<Token>, p: int)
    requires
        p >= t.len(),
    ensures
        line_at(t, p) == line_at(t, t.len() - 1),
    decreases p - t.len(),
{
    if p - 1 >= t.len() {
        lemma_line_at_past_end(t, p - 1);
    }
}

proof fn lemma_skip_statement(t: Seq<Token>, q: int)
    requires
        0 <= q <= t.len(),
    ensures
        q <= skip_statement(t, q) <= t.len(),
        !ends_statement(tok(t, q)) ==> q < skip_statement(t, q),
    decreases remaining(t, q),
{
    if !ends_statement(tok(t, q)) {
        lemma_skip_statement(t, q + 1);
    }
}

/// The shape every tree from the parser has: a binary operator has two
/// operands, a prefix sign one, and every operand has that shape too.
pub open spec fn arity_ok(a: Ast) -> bool
    decreases a,
{
    match a {
        Ast::Op(t, ch) => {
            &&& (t is FnCall || (ch.len() == 1 && prefix_prec(t) is Some) || (ch.len() == 2
                && infix_prec(t) is Some))
            &&& forall|i: int| 0 <= i < ch.len() ==> arity_ok(ch[i])
        },
        _ => true,
    }
}

pub open spec fn all_arity_ok(s: Seq<Ast>) -> bool {
    forall|i: int| 0 <= i < s.len() ==> arity_ok(s[i])
}

proof fn lemma_pexpr_arity(t: Seq<Token>, p: int, m: u8, d: nat)
    ensures
        pexpr(t, p, m, d) matches Ok((a, _)) ==> arity_ok(a),
    decreases remaining(t, p), 1nat,
{
    let tk = tok(t, p);
    if d > 0 {
        let e = (d - 1) as nat;
        match tk {
            Token::Number(sp, _) => lemma_pinfix_arity(t, Ast::Number(sp), p + 1, m, e),
            Token::Identifier(sp, _) => {
                if tok(t, p + 1) == Token::LeftParen {
                    lemma_pargs_arity(t, p + 2, e);
                    match pargs(t, p + 2, e) {
                        Ok((args, q)) => if p < q {
                            lemma_pinfix_arity(t, Ast::Op(Token::FnCall(sp), args), q, m, e);
                        },
                        Err(_) => {},
                    }
                } else {
                    lemma_pinfix_arity(t, Ast::Ident(sp), p + 1, m, e);
                }
            },
            Token::LeftParen => {
                lemma_pexpr_arity(t, p + 1, 0, e);
                match pexpr(t, p + 1, 0, e) {
                    Ok((inner, q)) => if tok(t, q) == Token::RightParen && p < q {
                        lemma_pinfix_arity(t, inner, q + 1, m, e);
                    },
                    Err(_) => {},
                }
            },
            Token::Plus | Token::Minus => {
                lemma_pexpr_arity(t, p + 1, prefix_prec(tk)->0, e);
                match pexpr(t, p + 1, prefix_prec(tk)->0, e) {
                    Ok((operand, q)) => if p < q {
                        let a = Ast::Op(tk, seq![operand]);
                        assert(a->Op_1[0] == operand);
                        lemma_pinfix_arity(t, a, q, m, e);
                    },
                    Err(_) => {},
                }
            },
            _ => {},
        }
    }
}

proof fn lemma_pinfix_arity(t: Seq<Token>, left: Ast, p: int, m: u8, d: nat)
    ensures
        arity_ok(left) ==> (pinfix(t, left, p, m, d) matches Ok((a, _)) ==> arity_ok(a)),
    decreases remaining(t, p), 0nat,
{
    let tk = tok(t, p);
    match infix_prec(tk) {
        None => {},
        Some((lp, rp)) => if lp >= m && d > 0 {
            let e = (d - 1) as nat;
            lemma_pexpr_arity(t, p + 1, rp, e);
            match pexpr(t, p + 1, rp, e) {
                Ok((right, q)) => if p < q {
                    let a = Ast::Op(tk, seq![left, right]);
                    assert(a->Op_1[0] == left && a->Op_1[1] == right);
                    lemma_pinfix_arity(t, a, q, m, e);
                },
                Err(_) => {},
            }
        },
    }
}

proof fn lemma_pargs_arity(t: Seq<Token>, p: int, d: nat)
    ensures
        pargs(t, p, d) matches Ok((args, _)) ==> all_arity_ok(args),
    decreases remaining(t, p), 3nat,
{
    if tok(t, p) != Token::RightParen {
        lemma_pargs_more_arity(t, p, seq![], d);
    }
}

proof fn lemma_pargs_more_arity(t: Seq<Token>, p: int, acc: Seq<Ast>, d: nat)
    ensures
        all_arity_ok(acc) ==> (pargs_more(t, p, acc, d) matches Ok((args, _)) ==> all_arity_ok(
            args,
        )),
    decreases remaining(t, p), 2nat,
{
    lemma_pexpr_arity(t, p, 0, d);
    match pexpr(t, p, 0, d) {
        Ok((a, q)) => {
            if all_arity_ok(acc) {
                assert(all_arity_ok(acc.push(a)));
            }
            if tok(t, q) == Token::ArgSeperator && p < q {
                lemma_pargs_more_arity(t, q + 1, acc.push(a), d);
            }
        },
        Err(_) => {},
    }
}

/// Every statement the parser accepts is a tree of the right shape that may
/// stand as a statement.
pub proof fn parsed_statements_are_well_formed(t: Seq<Token>, ls: Seq<usize>, p: int)
    ensures
        forall|i: int|
            0 <= i < pstmts(t, ls, p).len() ==> (#[trigger] pstmts(t, ls, p)[i] matches Ok(a)
                ==> arity_ok(a) && valid_statement(a)),
    decreases remaining(t, p),
{
    let tk = tok(t, p);
    if tk == Token::EOF {
    } else if tk == Token::StatementEnd {
        parsed_statements_are_well_formed(t, ls, p + 1);
    } else {
        lemma_pexpr_arity(t, p, 0, MAX_NESTING as nat);
        let q = match pexpr(t, p, 0, MAX_NESTING as nat) {
            Ok((a, q)) => if !ends_statement(tok(t, q)) {
                skip_statement(t, q)
            } else {
                q
            },
            Err(e) => skip_statement(t, e),
        };
        if p < q {
            parsed_statements_are_well_formed(t, ls, q);
        }
    }
}

/// What a parse step returned, with the position after it, in the form of
/// `pexpr`.
pub open spec fn expr_outcome(r: Result<AstNode, usize>, q: usize) -> Result<(Ast, int), int> {
    match r {
        Ok(n) => Ok((ast_of(n), q as int)),
        Err(e) => Err(e as int),
    }
}

pub open spec fn args_outcome(r: Result<Vec<AstNode>, usize>, q: usize) -> Result<(Seq<Ast>, int), int> {
    match r {
        Ok(v) => Ok((v@.map_values(|n: AstNode| ast_of(n)), q as int)),
        Err(e) => Err(e as int),
    }
}

/// A cursor over a token sequence.
pub struct Parser {
    tokens: Vec<Token>,
    lines: Vec<usize>,
    current_idx: usize,
}

impl Parser {
    pub closed spec fn tokens(&self) -> Seq<Token> {
        self.tokens@
    }

    /// The line of each token, where the parser was given them.
    pub closed spec fn lines(&self) -> Seq<usize> {
        self.lines@
    }

    pub closed spec fn position(&self) -> int {
        self.current_idx as int
    }

    pub closed spec fn wf(&self) -> bool {
        self.current_idx <= self.tokens@.len()
    }

    pub fn new(tokens: Vec<Token>) -> (r: Self)
        ensures
            r.tokens() == tokens@,
            r.lines() == Seq::<usize>::empty(),
            r.position() == 0,
            r.wf(),
    {
        Parser { tokens, lines: Vec::new(), current_idx: 0 }
    }

    /// A parser whose diagnostics give the line of the offending token, read
    /// from `lines` (one per token, as `tokens_and_lines_from_text` gives).
    pub fn with_lines(tokens: Vec<Token>, lines: Vec<usize>) -> (r: Self)
        ensures
            r.tokens() == tokens@,
            r.lines() == lines@,
            r.position() == 0,
            r.wf(),
    {
        Parser { tokens, lines, current_idx: 0 }
    }

    /// The token at the cursor; past the end, `EOF`.
    fn get_current_token(&self) -> (r: Token)
        ensures
            r == tok(self.tokens@, self.current_idx as int),
    {
        if self.current_idx < self.tokens.len() {
            self.tokens[self.current_idx]
        } else {
            Token::EOF
        }
    }

    fn advance(&mut self)
        requires
            old(self).current_idx < old(self).tokens.len(),
        ensures
            final(self).tokens@ == old(self).tokens@,
            final(self).lines@ == old(self).lines@,
            final(self).current_idx == old(self).current_idx + 1,
    {
        self.current_idx = self.current_idx + 1;
    }

    /// Moves past the token at the cursor if it is `token`; otherwise the
    /// error is the cursor's position.
    fn expect(&mut self, token: Token) -> (r: Result<(), usize>)
        requires
            old(self).wf(),
            token != Token::EOF,
        ensures
            final(self).tokens@ == old(self).tokens@,
            final(self).lines@ == old(self).lines@,
            final(self).wf(),
            tok(old(self).tokens@, old(self).current_idx as int) == token ==> r is Ok
                && final(self).current_idx == old(self).current_idx + 1,
            tok(old(self).tokens@, old(self).current_idx as int) != token ==> r == Err::<
                (),
                usize,
            >(old(self).current_idx) && final(self).current_idx == old(self).current_idx,
    {
        if self.get_current_token() == token {
            self.advance();
            Ok(())
        } else {
            Err(self.current_idx)
        }
    }

    /// Every statement of the token sequence, from the cursor on: its tree,
    /// or the diagnostic that rejected it.
    pub fn parse(self) -> (r: Vec<Result<AstNode, SyntaxError>>)
        requires
            self.wf(),
        ensures
            r@.map_values(|x: Result<AstNode, SyntaxError>| stmt_view(x)) == pstmts(
                self.tokens(),
                self.lines(),
                self.position(),
            ),
            forall|i: int|
                0 <= i < r@.len() ==> (#[trigger] r@[i] matches Ok(n) ==> arity_ok(ast_of(n))
                    && valid_statement(ast_of(n))),
    {
        let mut this = self;
        let ghost t = this.tokens@;
        let ghost ls = this.lines@;
        let ghost first = this.current_idx as int;
        let mut statements: Vec<Result<AstNode, SyntaxError>> = Vec::new();
        loop
            invariant
                this.tokens@ == t,
                this.lines@ == ls,
                ls == self.lines(),
                t == self.tokens(),
                first == self.position(),
                this.wf(),
                pstmts(t, ls, first) == statements@.map_values(
                    |x: Result<AstNode, SyntaxError>| stmt_view(x),
                ) + pstmts(t, ls, this.current_idx as int),
            decreases t.len() - this.current_idx,
        {
            let ghost p = this.current_idx as int;
            let ghost done = statements@.map_values(|x: Result<AstNode, SyntaxError>| stmt_view(x));
            let tk = this.get_current_token();
            if tk == Token::EOF {
                proof {
                    assert(done + pstmts(t, ls, p) =~= done);
                    parsed_statements_are_well_formed(t, ls, first);
                    assert forall|i: int|
                        0 <= i < statements@.len() implies (#[trigger] statements@[i] matches Ok(
                        n,
                    ) ==> arity_ok(ast_of(n)) && valid_statement(ast_of(n))) by {
                        assert(done[i] == stmt_view(statements@[i]));
                        assert(pstmts(t, ls, first)[i] == done[i]);
                    }
                }
                return statements;
            }
            if tk == Token::StatementEnd {
                this.advance();
                continue;
            }
            let start = this.current_idx;
            let res: Result<AstNode, SyntaxError> = match this.parse_expr(0, MAX_NESTING) {
                Ok(node) => {
                    let next = this.get_current_token();
                    if next != Token::EOF && next != Token::StatementEnd {
                        proof {
                            lemma_skip_statement(t, this.current_idx as int);
                        }
                        let d = this.diagnose(this.current_idx);
                        this.skip_statement();
                        Err(d)
                    } else if !is_valid_statement(&node) {
                        Err(SyntaxError::InvalidAssignment { line: this.line_of_token(start) })
                    } else {
                        Ok(node)
                    }
                },
                Err(e) => {
                    proof {
                        lemma_skip_statement(t, e as int);
                    }
                    let d = this.diagnose(e);
                    this.current_idx = e;
                    this.skip_statement();
                    Err(d)
                },
            };
            let ghost item = stmt_view(res);
            statements.push(res);
            proof {
                assert(statements@.map_values(|x: Result<AstNode, SyntaxError>| stmt_view(x))
                    =~= done.push(item));
                assert(done + pstmts(t, ls, p) =~= done.push(item) + pstmts(t, ls, this.current_idx as int));
            }
        }
    }

    /// Moves the cursor to the first token at or after it that ends a
    /// statement.
    fn skip_statement(&mut self)
        requires
            old(self).wf(),
        ensures
            final(self).tokens@ == old(self).tokens@,
            final(self).lines@ == old(self).lines@,
            final(self).wf(),
            final(self).current_idx == skip_statement(
                old(self).tokens@,
                old(self).current_idx as int,
            ),
    {
        let ghost t = self.tokens@;
        let ghost p = self.current_idx as int;
        loop
            invariant
                self.tokens@ == t,
                self.lines@ == old(self).lines@,
                self.wf(),
                p <= self.current_idx,
                skip_statement(t, p) == skip_statement(t, self.current_idx as int),
            ensures
                self.tokens@ == t,
                self.lines@ == old(self).lines@,
                self.wf(),
                skip_statement(t, p) == self.current_idx,
            decreases t.len() - self.current_idx,
        {
            let tk = self.get_current_token();
            if tk == Token::EOF || tk == Token::StatementEnd {
                break;
            }
            self.advance();
        }
    }

    /// The line of the nearest token at or before position `p` that records
    /// one.
    fn line_at(&self, p: usize) -> (r: usize)
        ensures
            r == line_at(self.tokens@, p as int),
    {
        let mut i = p;
        if i >= self.tokens.len() {
            proof {
                lemma_line_at_past_end(self.tokens@, p as int);
            }
            if self.tokens.len() == 0 {
                assert(line_at(self.tokens@, -1) == 1);
                return 1;
            }
            i = self.tokens.len() - 1;
        }
        loop
            invariant
                i < self.tokens@.len(),
                line_at(self.tokens@, p as int) == line_at(self.tokens@, i as int),
            decreases i,
        {
            match self.tokens[i] {
                Token::Number(_, l) | Token::Identifier(_, l) | Token::Unrecognized(_, l) => {
                    return l;
                },
                _ => {},
            }
            if i == 0 {
                assert(line_at(self.tokens@, -1) == 1);
                return 1;
            }
            i = i - 1;
        }
    }

    /// The line of the token at position `p`.
    fn line_of_token(&self, p: usize) -> (r: usize)
        ensures
            r == token_line_at(self.tokens@, self.lines@, p as int),
    {
        let n = self.tokens.len();
        if self.lines.len() == n && n > 0 {
            if p < n {
                self.lines[p]
            } else {
                self.lines[n - 1]
            }
        } else {
            self.line_at(p)
        }
    }

    /// The diagnostic for a statement that cannot go on at position `e`.
    fn diagnose(&self, e: usize) -> (r: SyntaxError)
        ensures
            r == diagnose(self.tokens@, self.lines@, e as int),
    {
        let tk = if e < self.tokens.len() {
            self.tokens[e]
        } else {
            Token::EOF
        };
        match tk {
            Token::Unrecognized(ch, line) => SyntaxError::UnrecognizedCharacter { ch, line },
            other => SyntaxError::UnexpectedToken { token: other, line: self.line_of_token(e) },
        }
    }

    /// An expression of minimum binding strength `minimum_precedence` at
    /// the cursor, with `depth` levels of nesting left.
    fn parse_expr(&mut self, minimum_precedence: u8, depth: usize) -> (r: Result<AstNode, usize>)
        requires
            old(self).wf(),
        ensures
            final(self).tokens@ == old(self).tokens@,
            final(self).lines@ == old(self).lines@,
            final(self).wf(),
            expr_outcome(r, final(self).current_idx) == pexpr(
                old(self).tokens@,
                old(self).current_idx as int,
                minimum_precedence,
                depth as nat,
            ),
            old(self).current_idx <= final(self).current_idx,
            r is Ok ==> old(self).current_idx < final(self).current_idx,
            r matches Err(e) ==> old(self).current_idx <= e <= old(self).tokens@.len(),
        decreases remaining(old(self).tokens@, old(self).current_idx as int), 1nat,
    {
        let ghost t = self.tokens@;
        let ghost p = self.current_idx as int;
        if depth == 0 {
            return Err(self.current_idx);
        }
        let mut budget = depth - 1;
        let tk = self.get_current_token();
        let mut left: AstNode;
        match tk {
            Token::Number(sp, _) => {
                self.advance();
                left = AstNode::Number(sp);
            },
            Token::Identifier(sp, _) => {
                self.advance();
                if self.get_current_token() == Token::LeftParen {
                    self.advance();
                    let args = match self.parse_args(budget) {
                        Ok(args) => args,
                        Err(e) => {
                            return Err(e);
                        },
                    };
                    proof {
                        lemma_ast_of_op(Token::FnCall(sp), args);
                    }
                    left = AstNode::Op(Token::FnCall(sp), args);
                } else {
                    left = AstNode::Ident(sp);
                }
            },
            Token::LeftParen => {
                self.advance();
                left = match self.parse_expr(0, budget) {
                    Ok(inner) => inner,
                    Err(e) => {
                        return Err(e);
                    },
                };
                match self.expect(Token::RightParen) {
                    Ok(()) => {},
                    Err(e) => {
                        return Err(e);
                    },
                }
            },
            Token::Plus | Token::Minus => {
                let strength = match prefix_precedence(tk) {
                    Some(strength) => strength,
                    None => PREFIX_PRECEDENCE,
                };
                self.advance();
                let operand = match self.parse_expr(strength, budget) {
                    Ok(operand) => operand,
                    Err(e) => {
                        return Err(e);
                    },
                };
                let ghost operand_ast = ast_of(operand);
                let children = vec![operand];
                proof {
                    lemma_ast_of_op(tk, children);
                    assert(children@.map_values(|n: AstNode| ast_of(n)) =~= seq![operand_ast]);
                }
                left = AstNode::Op(tk, children);
            },
            _ => {
                return Err(self.current_idx);
            },
        }
        let mut result: Result<AstNode, usize> = Err(0);
        loop
            invariant_except_break
                pexpr(t, p, minimum_precedence, depth as nat) == pinfix(
                    t,
                    ast_of(left),
                    self.current_idx as int,
                    minimum_precedence,
                    budget as nat,
                ),
            invariant
                self.tokens@ == t,
                t == old(self).tokens@,
                self.lines@ == old(self).lines@,
                p == old(self).current_idx,
                p < self.current_idx <= t.len(),
            ensures
                self.tokens@ == t,
                self.lines@ == old(self).lines@,
                p < self.current_idx <= t.len(),
                expr_outcome(result, self.current_idx) == pexpr(t, p, minimum_precedence, depth as nat),
                result matches Err(e) ==> p <= e <= t.len(),
            decreases t.len() - self.current_idx,
        {
            let op = self.get_current_token();
            match infix_precedence(op) {
                None => {
                    if op == Token::EOF || op == Token::StatementEnd || op == Token::RightParen
                        || op == Token::ArgSeperator {
                        proof {
                            lemma_pinfix_stop(t, ast_of(left), self.current_idx as int, minimum_precedence, budget as nat);
                        }
                        result = Ok(left);
                    } else {
                        proof {
                            lemma_pinfix_stop(t, ast_of(left), self.current_idx as int, minimum_precedence, budget as nat);
                        }
                        result = Err(self.current_idx);
                    }
                    break;
                },
                Some((left_prec, right_prec)) => {
                    if left_prec < minimum_precedence {
                        proof {
                            lemma_pinfix_stop(t, ast_of(left), self.current_idx as int, minimum_precedence, budget as nat);
                        }
                        result = Ok(left);
                        break;
                    }
                    proof {
                        lemma_pinfix_step(t, ast_of(left), self.current_idx as int, minimum_precedence, budget as nat);
                    }
                    if budget == 0 {
                        result = Err(self.current_idx);
                        break;
                    }
                    budget = budget - 1;
                    self.advance();
                    match self.parse_expr(right_prec, budget) {
                        Ok(right) => {
                            let ghost pair = seq![ast_of(left), ast_of(right)];
                            let children = vec![left, right];
                            proof {
                                lemma_ast_of_op(op, children);
                                assert(children@.map_values(|n: AstNode| ast_of(n)) =~= pair);
                            }
                            left = AstNode::Op(op, children);
                        },
                        Err(e) => {
                            result = Err(e);
                            break;
                        },
                    }
                },
            }
        }
        result
    }

    /// The arguments of a call whose `(` is just behind the cursor, up to
    /// and past the closing `)`.
    fn parse_args(&mut self, depth: usize) -> (r: Result<Vec<AstNode>, usize>)
        requires
            old(self).wf(),
        ensures
            final(self).tokens@ == old(self).tokens@,
            final(self).lines@ == old(self).lines@,
            final(self).wf(),
            args_outcome(r, final(self).current_idx) == pargs(
                old(self).tokens@,
                old(self).current_idx as int,
                depth as nat,
            ),
            old(self).current_idx <= final(self).current_idx,
            r is Ok ==> old(self).current_idx < final(self).current_idx,
            r matches Err(e) ==> old(self).current_idx <= e <= old(self).tokens@.len(),
        decreases remaining(old(self).tokens@, old(self).current_idx as int), 3nat,
    {
        let ghost t = self.tokens@;
        let ghost p = self.current_idx as int;
        let mut args: Vec<AstNode> = Vec::new();
        if self.get_current_token() == Token::RightParen {
            self.advance();
            proof {
                assert(args@.map_values(|n: AstNode| ast_of(n)) =~= seq![]);
            }
            return Ok(args);
        }
        assert(args@.map_values(|n: AstNode| ast_of(n)) =~= seq![]);
        let mut result: Result<Vec<AstNode>, usize> = Err(0);
        loop
            invariant_except_break
                pargs(t, p, depth as nat) == pargs_more(
                    t,
                    self.current_idx as int,
                    args@.map_values(|n: AstNode| ast_of(n)),
                    depth as nat,
                ),
            invariant
                self.tokens@ == t,
                t == old(self).tokens@,
                self.lines@ == old(self).lines@,
                p == old(self).current_idx,
                p <= self.current_idx <= t.len(),
            ensures
                self.tokens@ == t,
                self.lines@ == old(self).lines@,
                p <= self.current_idx <= t.len(),
                args_outcome(result, self.current_idx) == pargs(t, p, depth as nat),
                result is Ok ==> p < self.current_idx,
                result matches Err(e) ==> p <= e <= t.len(),
            decreases t.len() - self.current_idx,
        {
            let arg = match self.parse_expr(0, depth) {
                Ok(arg) => arg,
                Err(e) => {
                    result = Err(e);
                    break;
                },
            };
            let ghost before = args@.map_values(|n: AstNode| ast_of(n));
            let ghost arg_ast = ast_of(arg);
            args.push(arg);
            proof {
                assert(args@.map_values(|n: AstNode| ast_of(n)) =~= before.push(arg_ast));
            }
            let sep = self.get_current_token();
            if sep == Token::ArgSeperator {
                self.advance();
            } else if sep == Token::RightParen {
                self.advance();
                result = Ok(args);
                break;
            } else {
                result = Err(self.current_idx);
                break;
            }
        }
        result
    }
}

/// Whether every assignment in a tree writes to a variable name.
pub fn is_valid_statement(n: &AstNode) -> (r: bool)
    ensures
        r == valid_statement(ast_of(*n)),
    decreases n,
{
    match n {
        AstNode::Op(t, children) => {
            proof {
                lemma_ast_of_op(*t, *children);
            }
            if is_assignment(*t) && !(children.len() == 2 && matches!(children[0], AstNode::Ident(_))) {
                return false;
            }
            let mut i: usize = 0;
            while i < children.len()
                invariant
                    *n == AstNode::Op(*t, *children),
                    is_assign_op(*t) ==> children@.len() == 2 && ast_of(children@[0]) is Ident,
                    ast_of(*n) == Ast::Op(*t, children@.map_values(|c: AstNode| ast_of(c))),
                    i <= children@.len(),
                    forall|j: int| 0 <= j < i ==> valid_statement(ast_of(children@[j])),
                decreases children@.len() - i,
            {
                proof {
                    assert(decreases_to!(*n => *children));
                    assert(decreases_to!(*children => children@));
                    assert(decreases_to!(children@ => children@[i as int]));
                    assert(decreases_to!(*n => children@[i as int]));
                }
                if !is_valid_statement(&children[i]) {
                    assert(ast_of(*n)->Op_1[i as int] == ast_of(children@[i as int]));
                    return false;
                }
                i = i + 1;
            }
            proof {
                let ch = ast_of(*n)->Op_1;
                assert forall|j: int| 0 <= j < ch.len() implies valid_statement(ch[j]) by {
                    assert(ch[j] == ast_of(children@[j]));
                }
            }
            true
        },
        _ => true,
    }
}

/// Whether a token assigns: `=` or a compound assignment.
pub fn is_assignment(t: Token) -> (r: bool)
    ensures
        r == is_assign_op(t),
{
    match t {
        Token::Equals | Token::PlusEquals | Token::MinusEquals | Token::StarEquals
        | Token::SlashEquals => true,
        _ => false,
    }
}

/// How strongly a prefix operator binds its operand.
pub fn prefix_precedence(tok: Token) -> (r: Option<u8>)
    ensures
        r == prefix_prec(tok),
{
    match tok {
        Token::Plus | Token::Minus => Some(PREFIX_PRECEDENCE),
        _ => None,
    }
}

/// Left and right binding strength of a binary operator.
pub fn infix_precedence(tok: Token) -> (r: Option<(u8, u8)>)
    ensures
        r == infix_prec(tok),
{
    match tok {
        Token::Equals | Token::PlusEquals | Token::MinusEquals | Token::StarEquals
        | Token::SlashEquals => Some((1, 1)),
        Token::Plus | Token::Minus => Some((3, 4)),
        Token::Star | Token::Slash | Token::Percent => Some((5, 6)),
        Token::Power => Some((7, 7)),
        _ => None,
    }
}

} // verus!
