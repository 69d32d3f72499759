use crate::compiler::{lower, Compiler, Context, Instruction};
use crate::environment::Environment;
use crate::interpreter::{
    runs, self_assignment_code_keeps_bindings, statement_code_keeps_stack_balanced, text_of, EvalError, Primitive, Vm,
};
use crate::parser::{
    arity_ok, ast_of, pexpr, pinfix, MAX_NESTING, pstmts, stmt_view, tok, valid_statement, Ast, AstNode, Parser,
    SyntaxError,
};
use crate::tokenizer::{
    chars_of, ident_run, scan, scan_step, spec_is_alphanumeric, spec_is_ident_start,
    token_lines, tokens_and_lines_from_text, tokens_of,
    Span, Token,
};
use vstd::prelude::*;

verus! {

/// What one statement gave.
#[derive(Clone, Copy, Debug)]
pub enum Outcome<V> {
    /// An expression statement and its value.
    Value(V),
    /// An assignment: it stored a value and gives none.
    Stored,
    /// The statement was rejected before it ran.
    Syntax(SyntaxError),
    /// The statement stopped while it ran.
    Eval(EvalError),
}

/// A run that ran short of operands or left more than one value: a fault of
/// the code, never of what the user wrote.
pub open spec fn stack_fault<V>(o: Outcome<V>) -> bool {
    o matches Outcome::Eval(e) && (e is StackUnderflow || e is UnbalancedStack)
}

/// How often `c` occurs in `s`.
pub open spec fn count_char(s: Seq<char>, c: char) -> nat
    decreases s.len(),
{
    if s.len() == 0 {
        0
    } else {
        count_char(s.drop_last(), c) + if s.last() == c {
            1nat
        } else {
            0nat
        }
    }
}

/// A number literal with at most one decimal point.
pub open spec fn literal_ok(text: Seq<char>) -> bool {
    count_char(text, '.') <= 1
}

/// The line that position `pos` of `src` stands on.
pub open spec fn line_of(src: Seq<char>, pos: int) -> nat {
    1 + count_char(src.take(if pos <= src.len() { pos } else { src.len() as int }), '\n')
}

/// The first number literal of a tree, in source order, that has more than
/// one decimal point.
pub open spec fn bad_literal(src: Seq<char>, a: Ast) -> Option<Span>
    decreases a, 0int,
{
    match a {
        Ast::Number(sp) => if literal_ok(text_of(src, sp)) {
            None
        } else {
            Some(sp)
        },
        Ast::Ident(_) => None,
        Ast::Op(_, ch) => bad_literal_in(src, ch, 0),
    }
}

pub open spec fn bad_literal_in(src: Seq<char>, ch: Seq<Ast>, k: int) -> Option<Span>
    decreases ch, ch.len() - k,
{
    if 0 <= k < ch.len() {
        match bad_literal(src, ch[k]) {
            Some(sp) => Some(sp),
            None => bad_literal_in(src, ch, k + 1),
        }
    } else {
        None
    }
}

/// The outcome of a run of the machine.
pub open spec fn outcome_of<V>(res: Result<Option<V>, EvalError>) -> Outcome<V> {
    match res {
        Ok(Some(v)) => Outcome::Value(v),
        Ok(None) => Outcome::Stored,
        Err(e) => Outcome::Eval(e),
    }
}

/// Whether statement `stmt` of source `src`, run with bindings `env`, may
/// give `out` and leave `env_out`: a rejected statement gives its
/// diagnostic, as does a tree with a malformed number; any other runs its
/// code.
pub open spec fn statement_runs<V, F: Fn(Primitive<V>) -> V>(
    eval: F,
    src: Seq<char>,
    stmt: Result<Ast, SyntaxError>,
    env: Map<Seq<char>, V>,
    out: Outcome<V>,
    env_out: Map<Seq<char>, V>,
) -> bool {
    match stmt {
        Err(e) => out == Outcome::<V>::Syntax(e) && env_out == env,
        Ok(a) => match bad_literal(src, a) {
            Some(sp) => out == Outcome::<V>::Syntax(
                SyntaxError::MalformedNumber { line: line_of(src, sp.start as int) as usize },
            ) && env_out == env,
            None => exists|res: Result<Option<V>, EvalError>|
                runs(eval, src, lower(a, Context::Statement), 0, seq![], env, res, env_out) && out
                    == outcome_of(res),
        },
    }
}

/// Whether running the statements `stmts` in order may give the outcomes
/// `outs`, where `envs[k]` holds the bindings statement `k` starts from and
/// `envs[k + 1]` those it leaves.
pub open spec fn session_trace<V, F: Fn(Primitive<V>) -> V>(
    eval: F,
    src: Seq<char>,
    stmts: Seq<Result<Ast, SyntaxError>>,
    envs: Seq<Map<Seq<char>, V>>,
    outs: Seq<Outcome<V>>,
) -> bool {
    &&& outs.len() == stmts.len()
    &&& envs.len() == stmts.len() + 1
    &&& forall|k: int|
        0 <= k < stmts.len() ==> #[trigger] statement_runs(
            eval,
            src,
            stmts[k],
            envs[k],
            outs[k],
            envs[k + 1],
        )
}

proof fn lemma_count_char_bound(s: Seq<char>, c: char)
    ensures
        count_char(s, c) <= s.len(),
    decreases s.len(),
{
    if s.len() > 0 {
        lemma_count_char_bound(s.drop_last(), c);
    }
}

/// How often `c` occurs among the first `upto` characters of `s`.
pub fn count_in_prefix(s: &Vec<char>, c: char, upto: usize) -> (r: usize)
    requires
        upto <= s@.len(),
    ensures
        r == count_char(s@.take(upto as int), c),
{
    let mut n: usize = 0;
    let mut i: usize = 0;
    while i < upto
        invariant
            i <= upto <= s@.len(),
            n == count_char(s@.take(i as int), c),
            n <= i,
        decreases upto - i,
    {
        proof {
            assert(s@.take(i + 1).drop_last() =~= s@.take(i as int));
        }
        if s[i] == c {
            n = n + 1;
        }
        i = i + 1;
    }
    n
}

/// The line that position `pos` of the source stands on.
pub fn line_of_position(src: &Vec<char>, pos: usize) -> (r: usize)
    requires
        src@.len() < usize::MAX,
    ensures
        r == line_of(src@, pos as int),
{
    let upto = if pos <= src.len() {
        pos
    } else {
        src.len()
    };
    proof {
        lemma_count_char_bound(src@.take(upto as int), '\n');
    }
    1 + count_in_prefix(src, '\n', upto)
}

/// The first number literal of a tree, in source order, that has more than
/// one decimal point.
pub fn find_bad_literal(src: &Vec<char>, node: &AstNode) -> (r: Option<Span>)
    ensures
        r == bad_literal(src@, ast_of(*node)),
    decreases node,
{
    match node {
        AstNode::Number(sp) => {
            let text = crate::interpreter::name_of(src, *sp);
            if count_in_prefix(&text, '.', text.len()) <= 1 {
                assert(text@.take(text@.len() as int) =~= text@);
                None
            } else {
                assert(text@.take(text@.len() as int) =~= text@);
                Some(*sp)
            }
        },
        AstNode::Ident(_) => None,
        AstNode::Op(t, children) => {
            let ghost ch = children@.map_values(|c: AstNode| ast_of(c));
            proof {
                crate::parser::lemma_ast_of_op(*t, *children);
                assert(decreases_to!(*node => *children));
                assert(decreases_to!(*children => children@));
            }
            let mut k: usize = 0;
            while k < children.len()
                invariant
                    k <= children@.len() == ch.len(),
                    decreases_to!(*node => children@),
                    ch == children@.map_values(|c: AstNode| ast_of(c)),
                    bad_literal(src@, ast_of(*node)) == bad_literal_in(src@, ch, k as int),
                decreases children@.len() - k,
            {
                proof {
                    assert(decreases_to!(children@ => children@[k as int]));
                }
                match find_bad_literal(src, &children[k]) {
                    Some(sp) => {
                        return Some(sp);
                    },
                    None => {},
                }
                k = k + 1;
            }
            None
        },
    }
}

/// Runs one statement: reports a rejected statement or a malformed number,
/// or else lowers the tree and runs its code with the bindings of `env`.
pub fn run_statement<V: Copy, F: Fn(Primitive<V>) -> V>(
    stmt: Result<AstNode, SyntaxError>,
    source: &Vec<char>,
    env: &mut Environment<V>,
    eval: &F,
) -> (r: Outcome<V>)
    requires
        old(env).wf(),
        source@.len() < usize::MAX,
        forall|p: Primitive<V>| eval.requires((p,)),
    ensures
        final(env).wf(),
        statement_runs(*eval, source@, stmt_view(stmt), old(env)@, r, final(env)@),
        stmt matches Ok(n) && arity_ok(ast_of(n)) && valid_statement(ast_of(n)) ==> !stack_fault(
            r,
        ),
{
    match stmt {
        Err(e) => Outcome::Syntax(e),
        Ok(node) => {
            match find_bad_literal(source, &node) {
                Some(sp) => Outcome::Syntax(
                    SyntaxError::MalformedNumber { line: line_of_position(source, sp.start) },
                ),
                None => {
                    let ghost a = ast_of(node);
                    let ops = Compiler::new().compile(node);
                    let code_len = ops.len();
                    assert(ops@ =~= lower(a, Context::Statement));
                    let vm = Vm::new(ops);
                    let ghost env_before = env@;
                    let res = vm.interpret(source, env, eval);
                    let out = match res {
                        Ok(Some(v)) => Outcome::Value(v),
                        Ok(None) => Outcome::Stored,
                        Err(e) => Outcome::Eval(e),
                    };
                    assert(runs(*eval, source@, lower(a, Context::Statement), 0, seq![], env_before, res, env@)
                        && out == outcome_of(res));
                    proof {
                        if arity_ok(a) && valid_statement(a) {
                            assert(lower(a, Context::Statement).len() == code_len);
                            statement_code_keeps_stack_balanced(
                                *eval,
                                source@,
                                a,
                                env_before,
                                res,
                                env@,
                            );
                        }
                    }
                    out
                },
            }
        },
    }
}

/// Runs every statement of a source text in order against `env`, and
/// gives the outcome of each. A rejected or failing statement does not stop
/// the ones after it.
pub fn run_source<V: Copy, F: Fn(Primitive<V>) -> V>(
    source: &str,
    env: &mut Environment<V>,
    eval: &F,
) -> (r: Vec<Outcome<V>>)
    requires
        old(env).wf(),
        source@.len() < usize::MAX,
        forall|p: Primitive<V>| eval.requires((p,)),
    ensures
        final(env).wf(),
        exists|envs: Seq<Map<Seq<char>, V>>|
            session_trace(*eval, source@, pstmts(tokens_of(source@), token_lines(source@), 0), envs, r@) && envs[0]
                == old(env)@ && envs.last() == final(env)@,
        forall|k: int| 0 <= k < r@.len() ==> !stack_fault(#[trigger] r@[k]),
{
    let chars = chars_of(source);
    let (tokens, lines) = tokens_and_lines_from_text(source);
    let statements = Parser::with_lines(tokens, lines).parse();
    let ghost stmts = pstmts(tokens_of(source@), token_lines(source@), 0);
    let ghost env0 = env@;
    assert(statements@.map_values(|x: Result<AstNode, SyntaxError>| stmt_view(x)) == stmts);
    let ghost n = stmts.len();
    let mut outs: Vec<Outcome<V>> = Vec::new();
    let ghost mut envs: Seq<Map<Seq<char>, V>> = seq![env@];
    for stmt in it: statements.into_iter()
        invariant
            it.seq() == statements@,
            stmts == statements@.map_values(|x: Result<AstNode, SyntaxError>| stmt_view(x)),
            n == stmts.len(),
            chars@ == source@,
            source@.len() < usize::MAX,
            env.wf(),
            forall|p: Primitive<V>| eval.requires((p,)),
            outs@.len() == it.index(),
            forall|j: int| 0 <= j < it.index() ==> !stack_fault(#[trigger] outs@[j]),
            forall|i: int|
                0 <= i < statements@.len() ==> (#[trigger] statements@[i] matches Ok(n) ==> arity_ok(
                    ast_of(n),
                ) && valid_statement(ast_of(n))),
            envs.len() == it.index() + 1,
            envs[0] == old(env)@,
            envs.last() == env@,
            forall|k: int|
                0 <= k < it.index() ==> #[trigger] statement_runs(
                    *eval,
                    source@,
                    stmts[k],
                    envs[k],
                    outs@[k],
                    envs[k + 1],
                ),
    {
        let ghost k = it.index() as int;
        assert(stmt == statements@[k]);
        let out = run_statement(stmt, &chars, env, eval);
        outs.push(out);
        proof {
            envs = envs.push(env@);
        }
    }
    assert(session_trace(*eval, source@, stmts, envs, outs@));
    outs
}

/// A variable name: a letter or `_`, then letters, digits and `_`.
pub open spec fn is_identifier(v: Seq<char>) -> bool {
    &&& v.len() >= 1
    &&& spec_is_ident_start(v[0])
    &&& forall|i: int| 0 <= i < v.len() ==> spec_is_alphanumeric(v[i])
}

/// The source text `v = v`.
pub open spec fn self_assignment_text(v: Seq<char>) -> Seq<char> {
    v + seq![' ', '=', ' '] + v
}

proof fn lemma_ident_run_to(s: Seq<char>, j: int, end: int)
    requires
        0 <= j <= end <= s.len(),
        forall|i: int| j <= i < end ==> spec_is_alphanumeric(s[i]),
        end == s.len() || !spec_is_alphanumeric(s[end]),
    ensures
        ident_run(s, j) == end - j,
    decreases end - j,
{
    if j < end {
        lemma_ident_run_to(s, j + 1, end);
    }
}

proof fn lemma_self_assignment_tokens(v: Seq<char>)
    requires
        is_identifier(v),
        2 * v.len() + 3 <= usize::MAX,
    ensures
        tokens_of(self_assignment_text(v)) == seq![
            Token::Identifier(Span { start: 0, end: v.len() as usize }, 1),
            Token::Equals,
            Token::Identifier(
                Span { start: (v.len() + 3) as usize, end: (2 * v.len() + 3) as usize },
                1,
            ),
            Token::EOF,
        ],
{
    let s = self_assignment_text(v);
    let n = v.len() as int;
    assert(s.len() == 2 * n + 3);
    assert(forall|i: int| 0 <= i < n ==> s[i] == v[i]);
    assert(forall|i: int| 0 <= i < n ==> s[n + 3 + i] == v[i]);
    assert(s[n] == ' ' && s[n + 1] == '=' && s[n + 2] == ' ');
    assert forall|i: int| n + 3 <= i < 2 * n + 3 implies spec_is_alphanumeric(s[i]) by {
        assert(s[i] == v[i - n - 3]);
    }
    lemma_ident_run_to(s, 1, n);
    lemma_ident_run_to(s, n + 4, 2 * n + 3);
    let t2 = Token::Identifier(Span { start: (n + 3) as usize, end: (2 * n + 3) as usize }, 1);
    assert(s[n + 3] == v[0]);
    assert(spec_is_ident_start(s[n + 3]));
    assert(scan_step(s, n + 3, 1, false) == (Some(t2), 2 * n + 3, 1usize));
    assert(scan(s, 2 * n + 3, 1, false) == seq![Token::EOF]);
    assert(scan(s, n + 3, 1, false) =~= seq![t2, Token::EOF]);
    assert(scan(s, n + 2, 1, false) == scan(s, n + 3, 1, false));
    assert(scan(s, n + 1, 1, false) =~= seq![Token::Equals] + scan(s, n + 2, 1, false));
    assert(scan(s, n, 1, false) == scan(s, n + 1, 1, false));
    let t1 = Token::Identifier(Span { start: 0, end: n as usize }, 1);
    assert(scan(s, 0, 1, false) =~= seq![t1] + scan(s, n, 1, false));
    assert(tokens_of(s) =~= seq![t1, Token::Equals, t2, Token::EOF]);
}

/// The tree of `v = v`, with the spans of its two names.
pub open spec fn self_assignment_tree(v: Seq<char>) -> Ast {
    Ast::Op(
        Token::Equals,
        seq![
            Ast::Ident(Span { start: 0, end: v.len() as usize }),
            Ast::Ident(Span { start: (v.len() + 3) as usize, end: (2 * v.len() + 3) as usize }),
        ],
    )
}

proof fn lemma_self_assignment_parse(v: Seq<char>)
    requires
        is_identifier(v),
        2 * v.len() + 3 <= usize::MAX,
    ensures
        pstmts(tokens_of(self_assignment_text(v)), token_lines(self_assignment_text(v)), 0) == seq![
            Ok::<Ast, SyntaxError>(self_assignment_tree(v)),
        ],
{
    lemma_self_assignment_tokens(v);
    let t = tokens_of(self_assignment_text(v));
    let n = v.len();
    let sp0 = Span { start: 0, end: n as usize };
    let sp1 = Span { start: (n + 3) as usize, end: (2 * n + 3) as usize };
    assert(tok(t, 3) == Token::EOF);
    let m = MAX_NESTING as nat;
    assert(pinfix(t, Ast::Ident(sp1), 3, 1, (m - 3) as nat) == Ok::<(Ast, int), int>(
        (Ast::Ident(sp1), 3),
    ));
    assert(pexpr(t, 2, 1, (m - 2) as nat) == Ok::<(Ast, int), int>((Ast::Ident(sp1), 3)));
    let tree = self_assignment_tree(v);
    assert(pinfix(t, tree, 3, 0, (m - 2) as nat) == Ok::<(Ast, int), int>((tree, 3)));
    assert(pinfix(t, Ast::Ident(sp0), 1, 0, (m - 1) as nat) == Ok::<(Ast, int), int>((tree, 3)));
    assert(pexpr(t, 0, 0, m) == Ok::<(Ast, int), int>((tree, 3)));
    assert(tree->Op_1[0] == Ast::Ident(sp0) && tree->Op_1[1] == Ast::Ident(sp1));
    assert(valid_statement(Ast::Ident(sp0)) && valid_statement(Ast::Ident(sp1)));
    assert(valid_statement(tree));
    let ls = token_lines(self_assignment_text(v));
    assert(pstmts(t, ls, 3) == Seq::<Result<Ast, SyntaxError>>::empty());
    assert(pstmts(t, ls, 0) =~= seq![Ok::<Ast, SyntaxError>(tree)]);
}

/// Running the statement `v = v` leaves every binding as it was, for every
/// variable name `v`: where `v` is bound it stores back the value it holds,
/// and where it is not, reading it fails before anything is stored.
#[verifier::rlimit(40)]
pub proof fn self_assignment_keeps_bindings<V, F: Fn(Primitive<V>) -> V>(
    eval: F,
    v: Seq<char>,
    envs: Seq<Map<Seq<char>, V>>,
    outs: Seq<Outcome<V>>,
)
    requires
        is_identifier(v),
        2 * v.len() + 3 <= usize::MAX,
        session_trace(
            eval,
            self_assignment_text(v),
            pstmts(tokens_of(self_assignment_text(v)), token_lines(self_assignment_text(v)), 0),
            envs,
            outs,
        ),
    ensures
        outs.len() == 1,
        envs.last() == envs[0],
        envs[0].contains_key(v) ==> outs[0] == Outcome::<V>::Stored,
        !envs[0].contains_key(v) ==> outs[0] is Eval,
{
    let src = self_assignment_text(v);
    let n = v.len();
    lemma_self_assignment_parse(v);
    let tree = self_assignment_tree(v);
    let sp0 = Span { start: 0, end: n as usize };
    let sp1 = Span { start: (n + 3) as usize, end: (2 * n + 3) as usize };
    let stmts = pstmts(tokens_of(src), token_lines(src), 0);
    assert(stmts[0] == Ok::<Ast, SyntaxError>(tree));
    assert(statement_runs(eval, src, stmts[0], envs[0], outs[0], envs[1]));
    assert(text_of(src, sp0) =~= v);
    assert(text_of(src, sp1) =~= v);
    lemma_no_bad_literal(src, sp0, sp1);
    let ops = lower(tree, Context::Statement);
    let res = choose|res: Result<Option<V>, EvalError>|
        runs(eval, src, ops, 0, seq![], envs[0], res, envs[1]) && outs[0] == outcome_of(res);
    self_assignment_code_keeps_bindings(eval, src, sp0, sp1, envs[0], res, envs[1]);
}

proof fn lemma_no_bad_literal(src: Seq<char>, sp0: Span, sp1: Span)
    ensures
        bad_literal(src, Ast::Op(Token::Equals, seq![Ast::Ident(sp0), Ast::Ident(sp1)])) is None,
{
    let ch = seq![Ast::Ident(sp0), Ast::Ident(sp1)];
    assert(ch[0] == Ast::Ident(sp0));
    assert(ch[1] == Ast::Ident(sp1));
    assert(bad_literal(src, ch[1]) is None);
    assert(bad_literal_in(src, ch, 2) is None);
    assert(bad_literal_in(src, ch, 1) is None);
    assert(bad_literal(src, ch[0]) is None);
    assert(bad_literal_in(src, ch, 0) is None);
}

} // verus!
