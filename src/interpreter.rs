use crate::compiler::{binary_instruction, is_compound, lower, lower_args, Context, Instruction};
use crate::parser::{arity_ok, infix_prec, is_assign_op, valid_statement, Ast};
use crate::tokenizer::Token;
use crate::environment::Environment;
use crate::tokenizer::Span;
use vstd::prelude::*;

verus! {

#[derive(Clone, Copy, Debug, PartialEq, Eq, Structural)]
pub enum BinaryOp {
    Add,
    Sub,
    Mul,
    Div,
    Rem,
    Pow,
}

/// The built-in functions; each takes one argument.
#[derive(Clone, Copy, Debug, PartialEq, Eq, Structural)]
pub enum Builtin {
    Sin,
    Cos,
    Sqrt,
}

/// A piece of arithmetic the machine hands to its number system: the value
/// of a literal (by its place in the source), or an operation on values.
#[derive(Clone, Copy, Debug)]
pub enum Primitive<V> {
    Literal(Span),
    Negate(V),
    Binary(BinaryOp, V, V),
    Call(Builtin, V),
}

/// Why a run of the machine stopped.
#[derive(Clone, Copy, Debug, PartialEq, Eq, Structural)]
pub enum EvalError {
    /// A variable was read before any value was stored in it.
    UndefinedVariable { name: Span },
    /// A call of a name that is not a built-in function.
    UnknownFunction { name: Span },
    /// A built-in function called with the wrong number of arguments.
    ArityMismatch { name: Span, expected: usize, found: usize },
    /// An instruction found fewer operands on the stack than it takes.
    StackUnderflow,
    /// The code ended with more than one value on the stack.
    UnbalancedStack { depth: usize },
}

/// The source characters a span covers; nothing where it does not fit.
pub open spec fn text_of(src: Seq<char>, sp: Span) -> Seq<char> {
    if sp.start <= sp.end <= src.len() {
        src.subrange(sp.start as int, sp.end as int)
    } else {
        seq![]
    }
}

/// The built-in function of a name.
pub open spec fn builtin_of(name: Seq<char>) -> Option<Builtin> {
    if name == seq!['s', 'i', 'n'] {
        Some(Builtin::Sin)
    } else if name == seq!['c', 'o', 's'] {
        Some(Builtin::Cos)
    } else if name == seq!['s', 'q', 'r', 't'] {
        Some(Builtin::Sqrt)
    } else {
        None
    }
}

pub open spec fn binary_op_of(i: Instruction) -> Option<BinaryOp> {
    match i {
        Instruction::Add => Some(BinaryOp::Add),
        Instruction::Sub => Some(BinaryOp::Sub),
        Instruction::Mult => Some(BinaryOp::Mul),
        Instruction::Div => Some(BinaryOp::Div),
        Instruction::Mod => Some(BinaryOp::Rem),
        Instruction::Pow => Some(BinaryOp::Pow),
        _ => None,
    }
}

/// What the machine reports once the code is used up with `stack` left.
pub open spec fn final_result<V>(stack: Seq<V>) -> Result<Option<V>, EvalError> {
    if stack.len() == 0 {
        Ok(None)
    } else if stack.len() == 1 {
        Ok(Some(stack[0]))
    } else {
        Err(EvalError::UnbalancedStack { depth: stack.len() as usize })
    }
}

/// Whether running `ops` from instruction `i`, with `stack` and bindings
/// `env`, may end with result `res` and bindings `env_out`, where `eval`
/// gives the value of each piece of arithmetic. A binary operator pops its
/// right operand first, then its left one.
pub open spec fn runs<V, F: Fn(Primitive<V>) -> V>(
    eval: F,
    src: Seq<char>,
    ops: Seq<Instruction>,
    i: int,
    stack: Seq<V>,
    env: Map<Seq<char>, V>,
    res: Result<Option<V>, EvalError>,
    env_out: Map<Seq<char>, V>,
) -> bool
    decreases ops.len() - i,
{
    if i < 0 || i >= ops.len() {
        res == final_result(stack) && env_out == env
    } else {
        let n = stack.len();
        match ops[i] {
            Instruction::GetVal(sp) => {
                let k = text_of(src, sp);
                if env.contains_key(k) {
                    runs(eval, src, ops, i + 1, stack.push(env[k]), env, res, env_out)
                } else {
                    res == Err::<Option<V>, EvalError>(EvalError::UndefinedVariable { name: sp })
                        && env_out == env
                }
            },
            Instruction::Assign(sp) => if n < 1 {
                res == Err::<Option<V>, EvalError>(EvalError::StackUnderflow) && env_out == env
            } else {
                runs(
                    eval,
                    src,
                    ops,
                    i + 1,
                    stack.drop_last(),
                    env.insert(text_of(src, sp), stack.last()),
                    res,
                    env_out,
                )
            },
            Instruction::PushConstant(sp) => exists|v: V|
                eval.ensures((Primitive::Literal(sp),), v) && runs(
                    eval,
                    src,
                    ops,
                    i + 1,
                    stack.push(v),
                    env,
                    res,
                    env_out,
                ),
            Instruction::Negate => if n < 1 {
                res == Err::<Option<V>, EvalError>(EvalError::StackUnderflow) && env_out == env
            } else {
                exists|v: V|
                    eval.ensures((Primitive::Negate(stack.last()),), v) && runs(
                        eval,
                        src,
                        ops,
                        i + 1,
                        stack.drop_last().push(v),
                        env,
                        res,
                        env_out,
                    )
            },
            Instruction::CallFn(sp, argc) => match builtin_of(text_of(src, sp)) {
                None => res == Err::<Option<V>, EvalError>(EvalError::UnknownFunction { name: sp })
                    && env_out == env,
                Some(b) => if argc != 1 {
                    res == Err::<Option<V>, EvalError>(
                        EvalError::ArityMismatch { name: sp, expected: 1, found: argc },
                    ) && env_out == env
                } else if n < 1 {
                    res == Err::<Option<V>, EvalError>(EvalError::StackUnderflow) && env_out
                        == env
                } else {
                    exists|v: V|
                        eval.ensures((Primitive::Call(b, stack.last()),), v) && runs(
                            eval,
                            src,
                            ops,
                            i + 1,
                            stack.drop_last().push(v),
                            env,
                            res,
                            env_out,
                        )
                },
            },
            _ => {
                let op = binary_op_of(ops[i])->0;
                if n < 2 {
                    res == Err::<Option<V>, EvalError>(EvalError::StackUnderflow) && env_out
                        == env
                } else {
                    exists|v: V|
                        eval.ensures((Primitive::Binary(op, stack[n - 2], stack[n - 1]),), v)
                            && runs(
                            eval,
                            src,
                            ops,
                            i + 1,
                            stack.drop_last().drop_last().push(v),
                            env,
                            res,
                            env_out,
                        )
                }
            },
        }
    }
}

/// The characters a span covers in the source; nothing where it does not fit.
pub fn name_of(source: &Vec<char>, sp: Span) -> (r: Vec<char>)
    ensures
        r@ == text_of(source@, sp),
{
    let mut out: Vec<char> = Vec::new();
    if sp.start <= sp.end && sp.end <= source.len() {
        let mut i = sp.start;
        while i < sp.end
            invariant
                sp.start <= i <= sp.end <= source@.len(),
                out@ == source@.subrange(sp.start as int, i as int),
            decreases sp.end - i,
        {
            out.push(source[i]);
            i = i + 1;
            proof {
                assert(out@ =~= source@.subrange(sp.start as int, i as int));
            }
        }
    } else {
        assert(out@ =~= text_of(source@, sp));
    }
    out
}

/// The built-in function of a name, if there is one.
pub fn builtin_named(name: &Vec<char>) -> (r: Option<Builtin>)
    ensures
        r == builtin_of(name@),
{
    let n = name.len();
    if n == 3 && name[0] == 's' && name[1] == 'i' && name[2] == 'n' {
        assert(name@ =~= seq!['s', 'i', 'n']);
        Some(Builtin::Sin)
    } else if n == 3 && name[0] == 'c' && name[1] == 'o' && name[2] == 's' {
        assert(name@ =~= seq!['c', 'o', 's']);
        Some(Builtin::Cos)
    } else if n == 4 && name[0] == 's' && name[1] == 'q' && name[2] == 'r' && name[3] == 't' {
        assert(name@ =~= seq!['s', 'q', 'r', 't']);
        Some(Builtin::Sqrt)
    } else {
        None
    }
}

/// A stack machine over one statement's code.
pub struct Vm {
    ops: Vec<Instruction>,
}

impl Vm {
    pub closed spec fn code(&self) -> Seq<Instruction> {
        self.ops@
    }

    pub fn new(ops: Vec<Instruction>) -> (r: Vm)
        ensures
            r.code() == ops@,
    {
        Vm { ops }
    }

    /// Runs the code from the start on an empty stack, reading and writing
    /// the bindings of `env`, with `eval` doing the arithmetic. The result
    /// is the one value left on the stack, none where the stack ends empty,
    /// or the error that stopped the run.
    pub fn interpret<V: Copy, F: Fn(Primitive<V>) -> V>(
        &self,
        source: &Vec<char>,
        env: &mut Environment<V>,
        eval: &F,
    ) -> (r: Result<Option<V>, EvalError>)
        requires
            old(env).wf(),
            forall|p: Primitive<V>| eval.requires((p,)),
        ensures
            final(env).wf(),
            runs(*eval, source@, self.code(), 0, seq![], old(env)@, r, final(env)@),
    {
        let ghost src = source@;
        let ghost ops = self.ops@;
        let ghost env0 = env@;
        let mut stack: Vec<V> = Vec::new();
        let mut i: usize = 0;
        let mut result: Result<Option<V>, EvalError> = Ok(None);
        loop
            invariant_except_break
                i <= ops.len(),
                forall|res: Result<Option<V>, EvalError>, eo: Map<Seq<char>, V>|
                    #[trigger] runs(*eval, src, ops, i as int, stack@, env@, res, eo) ==> runs(
                        *eval,
                        src,
                        ops,
                        0,
                        seq![],
                        env0,
                        res,
                        eo,
                    ),
            invariant
                env.wf(),
                src == source@,
                ops == self.ops@,
                env0 == old(env)@,
                forall|p: Primitive<V>| eval.requires((p,)),
            ensures
                env.wf(),
                runs(*eval, src, ops, 0, seq![], env0, result, env@),
            decreases ops.len() - i,
        {
            let ghost s0 = stack@;
            let ghost e0 = env@;
            if i >= self.ops.len() {
                result = if stack.len() == 0 {
                    Ok(None)
                } else if stack.len() == 1 {
                    Ok(Some(stack[0]))
                } else {
                    Err(EvalError::UnbalancedStack { depth: stack.len() })
                };
                assert(runs(*eval, src, ops, i as int, s0, e0, result, env@));
                break;
            }
            match self.ops[i] {
                Instruction::GetVal(sp) => {
                    let name = name_of(source, sp);
                    match env.get(&name) {
                        Some(v) => {
                            stack.push(v);
                            proof {
                                assert forall|
                                    res: Result<Option<V>, EvalError>,
                                    eo: Map<Seq<char>, V>,
                                |
                                    #[trigger] runs(*eval, src, ops, i + 1, stack@, env@, res, eo) implies runs(
                                    *eval,
                                    src,
                                    ops,
                                    i as int,
                                    s0,
                                    e0,
                                    res,
                                    eo,
                                ) by {
                                    assert(s0.push(v) == stack@);
                                }
                            }
                        },
                        None => {
                            result = Err(EvalError::UndefinedVariable { name: sp });
                            assert(runs(*eval, src, ops, i as int, s0, e0, result, env@));
                            break;
                        },
                    }
                },
                Instruction::Assign(sp) => {
                    match stack.pop() {
                        Some(v) => {
                            let name = name_of(source, sp);
                            env.set(name, v);
                            proof {
                                assert forall|
                                    res: Result<Option<V>, EvalError>,
                                    eo: Map<Seq<char>, V>,
                                |
                                    #[trigger] runs(*eval, src, ops, i + 1, stack@, env@, res, eo) implies runs(
                                    *eval,
                                    src,
                                    ops,
                                    i as int,
                                    s0,
                                    e0,
                                    res,
                                    eo,
                                ) by {
                                    assert(s0.drop_last() == stack@);
                                }
                            }
                        },
                        None => {
                            result = Err(EvalError::StackUnderflow);
                            assert(runs(*eval, src, ops, i as int, s0, e0, result, env@));
                            break;
                        },
                    }
                },
                Instruction::PushConstant(sp) => {
                    let v = eval(Primitive::Literal(sp));
                    stack.push(v);
                    proof {
                        assert forall|res: Result<Option<V>, EvalError>, eo: Map<Seq<char>, V>|
                            #[trigger] runs(*eval, src, ops, i + 1, stack@, env@, res, eo) implies runs(
                            *eval,
                            src,
                            ops,
                            i as int,
                            s0,
                            e0,
                            res,
                            eo,
                        ) by {
                            assert(eval.ensures((Primitive::Literal(sp),), v));
                            assert(s0.push(v) == stack@);
                        }
                    }
                },
                Instruction::Negate => {
                    match stack.pop() {
                        Some(a) => {
                            let v = eval(Primitive::Negate(a));
                            stack.push(v);
                            proof {
                                assert forall|
                                    res: Result<Option<V>, EvalError>,
                                    eo: Map<Seq<char>, V>,
                                |
                                    #[trigger] runs(*eval, src, ops, i + 1, stack@, env@, res, eo) implies runs(
                                    *eval,
                                    src,
                                    ops,
                                    i as int,
                                    s0,
                                    e0,
                                    res,
                                    eo,
                                ) by {
                                    assert(eval.ensures((Primitive::Negate(a),), v));
                                    assert(s0.drop_last().push(v) == stack@);
                                }
                            }
                        },
                        None => {
                            result = Err(EvalError::StackUnderflow);
                            assert(runs(*eval, src, ops, i as int, s0, e0, result, env@));
                            break;
                        },
                    }
                },
                Instruction::CallFn(sp, argc) => {
                    let name = name_of(source, sp);
                    match builtin_named(&name) {
                        None => {
                            result = Err(EvalError::UnknownFunction { name: sp });
                            assert(runs(*eval, src, ops, i as int, s0, e0, result, env@));
                            break;
                        },
                        Some(b) => {
                            if argc != 1 {
                                result = Err(
                                    EvalError::ArityMismatch { name: sp, expected: 1, found: argc },
                                );
                                assert(runs(*eval, src, ops, i as int, s0, e0, result, env@));
                                break;
                            }
                            match stack.pop() {
                                Some(a) => {
                                    let v = eval(Primitive::Call(b, a));
                                    stack.push(v);
                                    proof {
                                        assert forall|
                                            res: Result<Option<V>, EvalError>,
                                            eo: Map<Seq<char>, V>,
                                        |
                                            #[trigger] runs(
                                                *eval,
                                                src,
                                                ops,
                                                i + 1,
                                                stack@,
                                                env@,
                                                res,
                                                eo,
                                            ) implies runs(
                                            *eval,
                                            src,
                                            ops,
                                            i as int,
                                            s0,
                                            e0,
                                            res,
                                            eo,
                                        ) by {
                                            assert(eval.ensures((Primitive::Call(b, a),), v));
                                            assert(s0.drop_last().push(v) == stack@);
                                        }
                                    }
                                },
                                None => {
                                    result = Err(EvalError::StackUnderflow);
                                    assert(runs(*eval, src, ops, i as int, s0, e0, result, env@));
                                    break;
                                },
                            }
                        },
                    }
                },
                _ => {
                    let op = match self.ops[i] {
                        Instruction::Add => BinaryOp::Add,
                        Instruction::Sub => BinaryOp::Sub,
                        Instruction::Mult => BinaryOp::Mul,
                        Instruction::Div => BinaryOp::Div,
                        Instruction::Mod => BinaryOp::Rem,
                        _ => BinaryOp::Pow,
                    };
                    if stack.len() < 2 {
                        result = Err(EvalError::StackUnderflow);
                        assert(runs(*eval, src, ops, i as int, s0, e0, result, env@));
                        break;
                    }
                    let rhs = stack.pop().unwrap();
                    let lhs = stack.pop().unwrap();
                    let v = eval(Primitive::Binary(op, lhs, rhs));
                    stack.push(v);
                    proof {
                        assert forall|res: Result<Option<V>, EvalError>, eo: Map<Seq<char>, V>|
                            #[trigger] runs(*eval, src, ops, i + 1, stack@, env@, res, eo) implies runs(
                            *eval,
                            src,
                            ops,
                            i as int,
                            s0,
                            e0,
                            res,
                            eo,
                        ) by {
                            assert(eval.ensures((Primitive::Binary(op, lhs, rhs),), v));
                            assert(s0.drop_last().drop_last().push(v) == stack@);
                        }
                    }
                },
            }
            i = i + 1;
        }
        result
    }
}

/// `code` stands in `ops` from position `i` on.
pub open spec fn code_at(ops: Seq<Instruction>, i: int, code: Seq<Instruction>) -> bool {
    &&& 0 <= i
    &&& i + code.len() <= ops.len()
    &&& ops.subrange(i, i + code.len()) == code
}

/// An error that comes from what the code names, not from the stack.
pub open spec fn naming_error<V>(res: Result<Option<V>, EvalError>) -> bool {
    res matches Err(e) && (e is UndefinedVariable || e is UnknownFunction || e is ArityMismatch)
}

proof fn lemma_code_at_split(ops: Seq<Instruction>, i: int, a: Seq<Instruction>, b: Seq<Instruction>)
    requires
        code_at(ops, i, a + b),
    ensures
        code_at(ops, i, a),
        code_at(ops, i + a.len(), b),
{
    assert(ops.subrange(i, i + a.len()) =~= (a + b).subrange(0, a.len() as int));
    assert(ops.subrange(i + a.len(), i + a.len() + b.len()) =~= (a + b).subrange(
        a.len() as int,
        (a.len() + b.len()) as int,
    ));
    assert((a + b).subrange(0, a.len() as int) =~= a);
    assert((a + b).subrange(a.len() as int, (a.len() + b.len()) as int) =~= b);
}

proof fn lemma_code_at_first(ops: Seq<Instruction>, i: int, code: Seq<Instruction>)
    requires
        code_at(ops, i, code),
        code.len() > 0,
    ensures
        ops[i] == code[0],
{
    assert(ops.subrange(i, i + code.len())[0] == ops[i]);
}

proof fn lemma_lower_len(e: Ast, ctx: Context)
    requires
        arity_ok(e),
    ensures
        lower(e, ctx).len() >= 1,
    decreases e,
{
    match e {
        Ast::Op(t, ch) => {
            if !(t is FnCall) {
                assert(arity_ok(ch[0]));
                lemma_lower_len(ch[0], Context::Value);
                if ch.len() == 2 {
                    assert(arity_ok(ch[1]));
                    lemma_lower_len(ch[1], Context::Value);
                }
            }
        },
        _ => {},
    }
}

proof fn lemma_args_len(ch: Seq<Ast>, k: nat)
    requires
        k <= ch.len(),
        forall|j: int| 0 <= j < ch.len() ==> arity_ok(ch[j]),
    ensures
        lower_args(ch).take(k as int).flatten().len() >= k,
    decreases k,
{
    if k > 0 {
        let parts = lower_args(ch);
        lemma_args_len(ch, (k - 1) as nat);
        assert(parts.take(k as int) =~= parts.take(k - 1).push(parts[k - 1]));
        parts.take(k - 1).lemma_flatten_push(parts[k - 1]);
        lemma_lower_len(ch[ch.len() - k], Context::Value);
    }
}

/// A run from instruction `j` with one more value on `stack` than it had,
/// and some bindings, may give `res` and `eo`.
pub open spec fn pushed<V, F: Fn(Primitive<V>) -> V>(
    eval: F,
    src: Seq<char>,
    ops: Seq<Instruction>,
    j: int,
    stack: Seq<V>,
    res: Result<Option<V>, EvalError>,
    eo: Map<Seq<char>, V>,
) -> bool {
    exists|v: V, env2: Map<Seq<char>, V>| runs(eval, src, ops, j, stack.push(v), env2, res, eo)
}

/// Where the code of an expression stands in `ops` from `i`, running it
/// either stops with an error of naming, or gets past it with one more value
/// on the stack.
proof fn lemma_expr_pushes_one<V, F: Fn(Primitive<V>) -> V>(
    eval: F,
    src: Seq<char>,
    ops: Seq<Instruction>,
    i: int,
    e: Ast,
    stack: Seq<V>,
    env: Map<Seq<char>, V>,
    res: Result<Option<V>, EvalError>,
    eo: Map<Seq<char>, V>,
)
    requires
        ops.len() <= usize::MAX,
        valid_statement(e),
        arity_ok(e),
        code_at(ops, i, lower(e, Context::Value)),
        runs(eval, src, ops, i, stack, env, res, eo),
    ensures
        naming_error(res) || pushed(eval, src, ops, i + lower(e, Context::Value).len(), stack, res, eo),
    decreases e, 1nat,
{
    let code = lower(e, Context::Value);
    match e {
        Ast::Ident(sp) => {
            lemma_code_at_first(ops, i, code);
            let k = text_of(src, sp);
            assert(code =~= seq![Instruction::GetVal(sp)]);
            assert(ops[i] == Instruction::GetVal(sp));
            if env.contains_key(k) {
                assert(runs(eval, src, ops, i + code.len(), stack.push(env[k]), env, res, eo));
            }
        },
        Ast::Number(sp) => {
            lemma_code_at_first(ops, i, code);
            assert(code =~= seq![Instruction::PushConstant(sp)]);
            assert(ops[i] == Instruction::PushConstant(sp));
            let v = choose|v: V|
                eval.ensures((Primitive::Literal(sp),), v) && runs(
                    eval,
                    src,
                    ops,
                    i + 1,
                    stack.push(v),
                    env,
                    res,
                    eo,
                );
            assert(runs(eval, src, ops, i + code.len(), stack.push(v), env, res, eo));
        },
        Ast::Op(t, ch) => {
            assert(forall|j: int| 0 <= j < ch.len() ==> valid_statement(ch[j]) && arity_ok(ch[j]));
            if t is FnCall {
                let n = ch.len();
                let args = lower_args(ch).flatten();
                let call = seq![Instruction::CallFn(t->FnCall_0, n as usize)];
                assert(code == args + call);
                lemma_code_at_split(ops, i, args, call);
                assert(lower_args(ch).take(n as int) =~= lower_args(ch));
                lemma_args_push(eval, src, ops, i, ch, n, stack, env, res, eo);
                if !naming_error(res) {
                    let (vs, env2) = choose|vs: Seq<V>, env2: Map<Seq<char>, V>|
                        vs.len() == n && #[trigger] runs(eval, src, ops, i + args.len(), stack + vs, env2, res, eo);
                    let j = i + args.len();
                    lemma_code_at_first(ops, j, call);
                    lemma_args_len(ch, n);
                    assert(n as usize == n);
                    if builtin_of(text_of(src, t->FnCall_0)) is Some && n == 1 {
                        let b = builtin_of(text_of(src, t->FnCall_0))->0;
                        let top = (stack + vs).last();
                        let v = choose|v: V|
                            eval.ensures((Primitive::Call(b, top),), v) && runs(
                                eval,
                                src,
                                ops,
                                j + 1,
                                (stack + vs).drop_last().push(v),
                                env2,
                                res,
                                eo,
                            );
                        assert((stack + vs).drop_last() =~= stack);
                        assert(code.len() == args.len() + 1);
                        assert(runs(eval, src, ops, i + code.len(), stack.push(v), env2, res, eo));
                    }
                }
            } else if ch.len() == 1 {
                let inner = lower(ch[0], Context::Value);
                let tail = if t == Token::Minus {
                    seq![Instruction::Negate]
                } else {
                    seq![]
                };
                assert(code == inner + tail);
                lemma_code_at_split(ops, i, inner, tail);
                lemma_expr_pushes_one(eval, src, ops, i, ch[0], stack, env, res, eo);
                if !naming_error(res) && t == Token::Minus {
                    let (v1, env1) = choose|v: V, env1: Map<Seq<char>, V>|
                        #[trigger] runs(eval, src, ops, i + inner.len(), stack.push(v), env1, res, eo);
                    let j = i + inner.len();
                    lemma_code_at_first(ops, j, tail);
                    assert(stack.push(v1).drop_last() =~= stack);
                    let v = choose|v: V|
                        eval.ensures((Primitive::Negate(v1),), v) && runs(
                            eval,
                            src,
                            ops,
                            j + 1,
                            stack.push(v1).drop_last().push(v),
                            env1,
                            res,
                            eo,
                        );
                    assert(runs(eval, src, ops, i + code.len(), stack.push(v), env1, res, eo));
                }
                if t != Token::Minus {
                    assert(code =~= inner);
                }
            } else if is_assign_op(t) {
                let target = ch[0]->Ident_0;
                let k = text_of(src, target);
                let store_load = seq![Instruction::Assign(target), Instruction::GetVal(target)];
                let value = if t == Token::Equals {
                    lower(ch[1], Context::Value)
                } else {
                    lower(ch[0], Context::Value) + lower(ch[1], Context::Value) + binary_instruction(t)
                };
                assert(lower(ch[0], Context::Assignable) == seq![Instruction::Assign(target)]);
                assert(lower(ch[0], Context::Value) == seq![Instruction::GetVal(target)]);
                assert(code =~= value + store_load);
                lemma_code_at_split(ops, i, value, store_load);
                if t == Token::Equals {
                    lemma_expr_pushes_one(eval, src, ops, i, ch[1], stack, env, res, eo);
                } else {
                    lemma_binary_pushes_one(eval, src, ops, i, e, stack, env, res, eo);
                }
                if !naming_error(res) {
                    let j = i + value.len();
                    let (v, env1) = choose|v: V, env1: Map<Seq<char>, V>|
                        #[trigger] runs(eval, src, ops, j, stack.push(v), env1, res, eo);
                    lemma_code_at_first(ops, j, store_load);
                    assert(ops.subrange(j, j + 2)[1] == ops[j + 1]);
                    assert(ops[j + 1] == Instruction::GetVal(target));
                    assert(stack.push(v).drop_last() =~= stack);
                    let env2 = env1.insert(k, v);
                    assert(runs(eval, src, ops, j + 1, stack, env2, res, eo));
                    assert(runs(eval, src, ops, j + 2, stack.push(v), env2, res, eo));
                    assert(runs(eval, src, ops, i + code.len(), stack.push(v), env2, res, eo));
                }
            } else {
                assert(binary_instruction(t).len() == 1);
                assert(code == lower(ch[0], Context::Value) + lower(ch[1], Context::Value)
                    + binary_instruction(t));
                lemma_binary_pushes_one(eval, src, ops, i, e, stack, env, res, eo);
            }
        },
    }
}

/// The operands of a binary operator, then the operator itself: running that
/// code stops with an error of naming or leaves one more value.
proof fn lemma_binary_pushes_one<V, F: Fn(Primitive<V>) -> V>(
    eval: F,
    src: Seq<char>,
    ops: Seq<Instruction>,
    i: int,
    e: Ast,
    stack: Seq<V>,
    env: Map<Seq<char>, V>,
    res: Result<Option<V>, EvalError>,
    eo: Map<Seq<char>, V>,
)
    requires
        ops.len() <= usize::MAX,
        e is Op,
        e->Op_1.len() == 2,
        binary_instruction(e->Op_0).len() == 1,
        valid_statement(e),
        arity_ok(e),
        code_at(
            ops,
            i,
            lower(e->Op_1[0], Context::Value) + lower(e->Op_1[1], Context::Value)
                + binary_instruction(e->Op_0),
        ),
        runs(eval, src, ops, i, stack, env, res, eo),
    ensures
        naming_error(res) || pushed(
            eval,
            src,
            ops,
            i + lower(e->Op_1[0], Context::Value).len() + lower(e->Op_1[1], Context::Value).len() + 1,
            stack,
            res,
            eo,
        ),
    decreases e, 0nat,
{
    let t = e->Op_0;
    let ch = e->Op_1;
    assert(valid_statement(ch[0]) && arity_ok(ch[0]) && valid_statement(ch[1]) && arity_ok(ch[1]));
    let left = lower(ch[0], Context::Value);
    let right = lower(ch[1], Context::Value);
    let op = binary_instruction(t);
    lemma_code_at_split(ops, i, left + right, op);
    lemma_code_at_split(ops, i, left, right);
    lemma_expr_pushes_one(eval, src, ops, i, ch[0], stack, env, res, eo);
    if !naming_error(res) {
        let (v1, env1) = choose|v: V, env1: Map<Seq<char>, V>|
            #[trigger] runs(eval, src, ops, i + left.len(), stack.push(v), env1, res, eo);
        lemma_expr_pushes_one(eval, src, ops, i + left.len(), ch[1], stack.push(v1), env1, res, eo);
        if !naming_error(res) {
            let j = i + left.len() + right.len();
            let (v2, env2) = choose|v: V, env2: Map<Seq<char>, V>|
                #[trigger] runs(eval, src, ops, j, stack.push(v1).push(v), env2, res, eo);
            assert(binary_op_of(op[0]) is Some);
            lemma_code_at_first(ops, j, op);
            let bop = binary_op_of(ops[j])->0;
            assert(binary_op_of(ops[j]) is Some);
            let s2 = stack.push(v1).push(v2);
            assert(s2.len() == stack.len() + 2);
            assert(s2.drop_last().drop_last() =~= stack);
            assert(s2[s2.len() - 2] == v1 && s2[s2.len() - 1] == v2);
            let v = choose|v: V|
                eval.ensures((Primitive::Binary(bop, v1, v2),), v) && runs(
                    eval,
                    src,
                    ops,
                    j + 1,
                    s2.drop_last().drop_last().push(v),
                    env2,
                    res,
                    eo,
                );
            assert(runs(eval, src, ops, j + 1, stack.push(v), env2, res, eo));
        }
    }
}

/// Running the code of the first `k` arguments of a call, last argument
/// first, either stops with an error of naming or gets past it with `k`
/// more values on the stack.
proof fn lemma_args_push<V, F: Fn(Primitive<V>) -> V>(
    eval: F,
    src: Seq<char>,
    ops: Seq<Instruction>,
    i: int,
    ch: Seq<Ast>,
    k: nat,
    stack: Seq<V>,
    env: Map<Seq<char>, V>,
    res: Result<Option<V>, EvalError>,
    eo: Map<Seq<char>, V>,
)
    requires
        ops.len() <= usize::MAX,
        k <= ch.len(),
        forall|j: int| 0 <= j < ch.len() ==> valid_statement(ch[j]) && arity_ok(ch[j]),
        code_at(ops, i, lower_args(ch).take(k as int).flatten()),
        runs(eval, src, ops, i, stack, env, res, eo),
    ensures
        naming_error(res) || exists|vs: Seq<V>, env2: Map<Seq<char>, V>|
            vs.len() == k && #[trigger] runs(
                eval,
                src,
                ops,
                i + lower_args(ch).take(k as int).flatten().len(),
                stack + vs,
                env2,
                res,
                eo,
            ),
    decreases ch, k,
{
    let parts = lower_args(ch);
    if k == 0 {
        assert(parts.take(0) =~= Seq::<Seq<Instruction>>::empty());
        assert(stack + Seq::<V>::empty() =~= stack);
        assert(runs(eval, src, ops, i, stack + Seq::<V>::empty(), env, res, eo));
    } else {
        let before = parts.take(k - 1);
        let part = parts[k - 1];
        assert(parts.take(k as int) =~= before.push(part));
        before.lemma_flatten_push(part);
        lemma_code_at_split(ops, i, before.flatten(), part);
        lemma_args_push(eval, src, ops, i, ch, (k - 1) as nat, stack, env, res, eo);
        if !naming_error(res) {
            let (vs, env1) = choose|vs: Seq<V>, env1: Map<Seq<char>, V>|
                vs.len() == k - 1 && #[trigger] runs(
                    eval,
                    src,
                    ops,
                    i + before.flatten().len(),
                    stack + vs,
                    env1,
                    res,
                    eo,
                );
            let a = ch[ch.len() - k];
            assert(part == lower(a, Context::Value));
            assert(decreases_to!(ch => a));
            lemma_expr_pushes_one(
                eval,
                src,
                ops,
                i + before.flatten().len(),
                a,
                stack + vs,
                env1,
                res,
                eo,
            );
            if !naming_error(res) {
                let (v, env2) = choose|v: V, env2: Map<Seq<char>, V>|
                    #[trigger] runs(
                        eval,
                        src,
                        ops,
                        i + before.flatten().len() + part.len(),
                        (stack + vs).push(v),
                        env2,
                        res,
                        eo,
                    );
                assert((stack + vs).push(v) =~= stack + vs.push(v));
                assert(vs.push(v).len() == k);
            }
        }
    }
}

/// The operator a compound assignment applies.
pub open spec fn compound_base(t: Token) -> Token {
    match t {
        Token::PlusEquals => Token::Plus,
        Token::MinusEquals => Token::Minus,
        Token::StarEquals => Token::Star,
        _ => Token::Slash,
    }
}

/// A tree whose top is an assignment, plain or compound.
pub open spec fn is_assignment_tree(a: Ast) -> bool {
    a matches Ast::Op(t, _) && is_assign_op(t)
}

/// The code of a statement the parser accepts (see
/// `parsed_statements_are_well_formed`) never runs short of operands and
/// never leaves more than one value behind: a run either stops at a name
/// that is unbound, unknown or called with the wrong number of arguments,
/// or ends with the value of an expression statement, and with no value for
/// an assignment statement.
pub proof fn statement_code_keeps_stack_balanced<V, F: Fn(Primitive<V>) -> V>(
    eval: F,
    src: Seq<char>,
    a: Ast,
    env: Map<Seq<char>, V>,
    res: Result<Option<V>, EvalError>,
    env_out: Map<Seq<char>, V>,
)
    requires
        arity_ok(a),
        valid_statement(a),
        lower(a, Context::Statement).len() <= usize::MAX,
        runs(eval, src, lower(a, Context::Statement), 0, seq![], env, res, env_out),
    ensures
        naming_error(res) || (!is_assignment_tree(a) && res matches Ok(Some(_))) || (
        is_assignment_tree(a) && res == Ok::<Option<V>, EvalError>(None)),
{
    let ops = lower(a, Context::Statement);
    if !is_assignment_tree(a) {
        assert(ops == lower(a, Context::Value));
        assert(ops.subrange(0, ops.len() as int) =~= ops);
        lemma_expr_pushes_one(eval, src, ops, 0, a, seq![], env, res, env_out);
        if !naming_error(res) {
            let (v, env1) = choose|v: V, env1: Map<Seq<char>, V>|
                #[trigger] runs(eval, src, ops, ops.len() as int, Seq::<V>::empty().push(v), env1, res, env_out);
            assert(Seq::<V>::empty().push(v) == seq![v]);
        }
    } else {
        let t = a->Op_0;
        let ch = a->Op_1;
        let target = ch[0]->Ident_0;
        let store = seq![Instruction::Assign(target)];
        assert(valid_statement(ch[1]) && arity_ok(ch[1]) && arity_ok(ch[0]));
        assert(lower(ch[0], Context::Assignable) == store);
        let value = if t == Token::Equals {
            lower(ch[1], Context::Value)
        } else {
            lower(ch[0], Context::Value) + lower(ch[1], Context::Value) + binary_instruction(t)
        };
        assert(ops =~= value + store);
        lemma_code_at_split_whole(ops, value, store);
        if t == Token::Equals {
            lemma_expr_pushes_one(eval, src, ops, 0, ch[1], seq![], env, res, env_out);
        } else {
            assert(is_compound(t));
            assert(binary_instruction(t).len() == 1);
            lemma_binary_pushes_one(eval, src, ops, 0, a, seq![], env, res, env_out);
        }
        if !naming_error(res) {
            let n = value.len() as int;
            let (v, env1) = choose|v: V, env1: Map<Seq<char>, V>|
                #[trigger] runs(eval, src, ops, n, Seq::<V>::empty().push(v), env1, res, env_out);
            assert(Seq::<V>::empty().push(v) == seq![v]);
            lemma_code_at_first(ops, n, store);
            assert(seq![v].drop_last() =~= Seq::<V>::empty());
            assert(runs(
                eval,
                src,
                ops,
                n + 1,
                seq![],
                env1.insert(text_of(src, target), v),
                res,
                env_out,
            ));
        }
    }
}

/// `x op= e` runs exactly as `x = x op e` does, and a run of it that does
/// not stop at a name leaves no value: it only stores.
pub proof fn compound_assignment_runs_as_assignment<V, F: Fn(Primitive<V>) -> V>(
    eval: F,
    src: Seq<char>,
    op_assign: Token,
    x: Span,
    rhs: Ast,
    env: Map<Seq<char>, V>,
    res: Result<Option<V>, EvalError>,
    env_out: Map<Seq<char>, V>,
)
    requires
        is_compound(op_assign),
        arity_ok(rhs),
        valid_statement(rhs),
        lower(Ast::Op(op_assign, seq![Ast::Ident(x), rhs]), Context::Statement).len() <= usize::MAX,
        runs(
            eval,
            src,
            lower(Ast::Op(op_assign, seq![Ast::Ident(x), rhs]), Context::Statement),
            0,
            seq![],
            env,
            res,
            env_out,
        ),
    ensures
        lower(Ast::Op(op_assign, seq![Ast::Ident(x), rhs]), Context::Statement) == lower(
            Ast::Op(
                Token::Equals,
                seq![Ast::Ident(x), Ast::Op(compound_base(op_assign), seq![Ast::Ident(x), rhs])],
            ),
            Context::Statement,
        ),
        naming_error(res) || res == Ok::<Option<V>, EvalError>(None),
{
    let a = Ast::Op(op_assign, seq![Ast::Ident(x), rhs]);
    let inner = Ast::Op(compound_base(op_assign), seq![Ast::Ident(x), rhs]);
    let b = Ast::Op(Token::Equals, seq![Ast::Ident(x), inner]);
    let ch = seq![Ast::Ident(x), rhs];
    assert(ch[0] == Ast::Ident(x) && ch[1] == rhs);
    assert(binary_instruction(compound_base(op_assign)) == binary_instruction(op_assign));
    assert(lower(inner, Context::Value) == lower(Ast::Ident(x), Context::Value) + lower(
        rhs,
        Context::Value,
    ) + binary_instruction(op_assign));
    assert(b->Op_1[1] == inner && b->Op_1[0] == Ast::Ident(x));
    assert(lower(a, Context::Statement) =~= lower(b, Context::Statement));
    assert(valid_statement(Ast::Ident(x)) && arity_ok(Ast::Ident(x)));
    assert(valid_statement(a));
    assert(arity_ok(a));
    statement_code_keeps_stack_balanced(eval, src, a, env, res, env_out);
}

/// The code of `v = v` for a name `v` (two spans of the source with the same
/// text) leaves every binding as it was. Where `v` is bound it stores back
/// the value it holds and gives no value; where it is not, it stops at
/// reading `v`.
pub proof fn self_assignment_code_keeps_bindings<V, F: Fn(Primitive<V>) -> V>(
    eval: F,
    src: Seq<char>,
    target: Span,
    source: Span,
    env: Map<Seq<char>, V>,
    res: Result<Option<V>, EvalError>,
    env_out: Map<Seq<char>, V>,
)
    requires
        text_of(src, target) == text_of(src, source),
        runs(
            eval,
            src,
            lower(
                Ast::Op(Token::Equals, seq![Ast::Ident(target), Ast::Ident(source)]),
                Context::Statement,
            ),
            0,
            seq![],
            env,
            res,
            env_out,
        ),
    ensures
        env_out == env,
        env.contains_key(text_of(src, target)) ==> res == Ok::<Option<V>, EvalError>(None),
        !env.contains_key(text_of(src, target)) ==> res == Err::<Option<V>, EvalError>(
            EvalError::UndefinedVariable { name: source },
        ),
{
    let v = text_of(src, target);
    let ch = seq![Ast::Ident(target), Ast::Ident(source)];
    assert(ch[0] == Ast::Ident(target) && ch[1] == Ast::Ident(source));
    let ops = seq![Instruction::GetVal(source), Instruction::Assign(target)];
    assert(lower(ch[1], Context::Value) == seq![Instruction::GetVal(source)]);
    assert(lower(ch[0], Context::Assignable) == seq![Instruction::Assign(target)]);
    assert(lower(Ast::Op(Token::Equals, ch), Context::Statement) =~= ops);
    if env.contains_key(v) {
        let stack = seq![env[v]];
        assert(Seq::<V>::empty().push(env[v]) == stack);
        assert(runs(eval, src, ops, 1, stack, env, res, env_out));
        assert(stack.drop_last() =~= Seq::<V>::empty());
        assert(runs(eval, src, ops, 2, seq![], env.insert(v, env[v]), res, env_out));
        assert(env.insert(v, env[v]) =~= env);
    }
}

proof fn lemma_code_at_split_whole(ops: Seq<Instruction>, a: Seq<Instruction>, b: Seq<Instruction>)
    requires
        ops == a + b,
    ensures
        code_at(ops, 0, a),
        code_at(ops, a.len() as int, b),
{
    assert(ops.subrange(0, ops.len() as int) =~= ops);
    lemma_code_at_split(ops, 0, a, b);
}

} // verus!
