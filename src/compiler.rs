use crate::parser::{ast_of, lemma_ast_of_op, Ast, AstNode};
use crate::tokenizer::{Span, Token};
use vstd::prelude::*;

verus! {

/// One step of the stack machine. Names and number literals refer to the
/// source text by position.
#[derive(Clone, Copy, Debug, PartialEq, Eq, Structural)]
pub enum Instruction {
    Add,
    Sub,
    Negate,
    Mult,
    Div,
    Mod,
    Pow,
    /// Push the value of a variable.
    GetVal(Span),
    /// Pop a value and store it in a variable.
    Assign(Span),
    /// Push the value of a number literal.
    PushConstant(Span),
    /// Call a built-in function with this many arguments.
    CallFn(Span, usize),
}

/// How a tree position is used: read for its value, named as the variable
/// an assignment writes, or the top of a statement, whose value nobody
/// reads (there an assignment leaves nothing on the stack).
#[derive(Clone, Copy, Debug, PartialEq, Eq, Structural)]
pub enum Context {
    Value,
    Assignable,
    Statement,
}

/// The instruction of a binary operator, or of the operator a compound
/// assignment applies.
pub open spec fn binary_instruction(t: Token) -> Seq<Instruction> {
    match t {
        Token::Plus | Token::PlusEquals => seq![Instruction::Add],
        Token::Minus | Token::MinusEquals => seq![Instruction::Sub],
        Token::Star | Token::StarEquals => seq![Instruction::Mult],
        Token::Slash | Token::SlashEquals => seq![Instruction::Div],
        Token::Percent => seq![Instruction::Mod],
        Token::Power => seq![Instruction::Pow],
        _ => seq![],
    }
}

pub open spec fn is_compound(t: Token) -> bool {
    t == Token::PlusEquals || t == Token::MinusEquals || t == Token::StarEquals || t
        == Token::SlashEquals
}

/// The code of a tree, in execution order. Operands come first, left to
/// right, then the operator, so a binary operator finds its right operand on
/// top of the stack. `x = e` runs `e` and stores into `x`; `x op= e` runs
/// `x op e` and stores into `x`. Where the assignment's value is read (as in
/// `a = b = 1`, whose inner assignment is the value of the outer one), the
/// store is followed by a load of `x`. A call runs its arguments from the
/// last to the first, then calls.
pub open spec fn lower(a: Ast, ctx: Context) -> Seq<Instruction>
    decreases a,
{
    match a {
        Ast::Ident(sp) => if ctx == Context::Assignable {
            seq![Instruction::Assign(sp)]
        } else {
            seq![Instruction::GetVal(sp)]
        },
        Ast::Number(sp) => seq![Instruction::PushConstant(sp)],
        Ast::Op(t, ch) => {
            if t is FnCall {
                lower_args(ch).flatten() + seq![Instruction::CallFn(t->FnCall_0, ch.len() as usize)]
            } else if ch.len() == 1 {
                lower(ch[0], Context::Value) + if t == Token::Minus {
                    seq![Instruction::Negate]
                } else {
                    seq![]
                }
            } else if ch.len() == 2 {
                let read_back = if ctx == Context::Statement {
                    seq![]
                } else {
                    lower(ch[0], Context::Value)
                };
                if t == Token::Equals {
                    lower(ch[1], Context::Value) + lower(ch[0], Context::Assignable) + read_back
                } else if is_compound(t) {
                    lower(ch[0], Context::Value) + lower(ch[1], Context::Value)
                        + binary_instruction(t) + lower(ch[0], Context::Assignable) + read_back
                } else {
                    lower(ch[0], Context::Value) + lower(ch[1], Context::Value)
                        + binary_instruction(t)
                }
            } else {
                seq![]
            }
        },
    }
}

/// The code of the arguments of a call, last argument first.
pub open spec fn lower_args(ch: Seq<Ast>) -> Seq<Seq<Instruction>>
    decreases ch,
{
    Seq::new(
        ch.len(),
        |i: int|
            if 0 <= i < ch.len() {
                lower(ch[ch.len() - 1 - i], Context::Value)
            } else {
                seq![]
            },
    )
}

/// Lowers one tree at a time into stack-machine code.
pub struct Compiler {
    operations: Vec<Instruction>,
}

impl Compiler {
    pub closed spec fn emitted(&self) -> Seq<Instruction> {
        self.operations@
    }

    pub fn new() -> (r: Self)
        ensures
            r.emitted() == Seq::<Instruction>::empty(),
    {
        Compiler { operations: Vec::new() }
    }

    /// The code of one statement's tree, in execution order.
    pub fn compile(self, ast_root: AstNode) -> (r: Vec<Instruction>)
        ensures
            r@ == self.emitted() + lower(ast_of(ast_root), Context::Statement),
    {
        let mut this = self;
        this.compile_ast_node(&ast_root, Context::Statement);
        this.operations
    }

    #[verifier::rlimit(60)]
    fn compile_ast_node(&mut self, node: &AstNode, ctx: Context)
        ensures
            final(self).operations@ == old(self).operations@ + lower(ast_of(*node), ctx),
        decreases node,
    {
        let ghost before = self.operations@;
        match node {
            AstNode::Ident(sp) => {
                if ctx == Context::Assignable {
                    self.operations.push(Instruction::Assign(*sp));
                } else {
                    self.operations.push(Instruction::GetVal(*sp));
                }
                proof {
                    assert(self.operations@ =~= before + lower(ast_of(*node), ctx));
                }
            },
            AstNode::Number(sp) => {
                self.operations.push(Instruction::PushConstant(*sp));
                proof {
                    assert(self.operations@ =~= before + lower(ast_of(*node), ctx));
                }
            },
            AstNode::Op(op_token, children) => {
                let ghost ch = children@.map_values(|c: AstNode| ast_of(c));
                proof {
                    lemma_ast_of_op(*op_token, *children);
                    assert(decreases_to!(*node => *children));
                    assert(decreases_to!(*children => children@));
                }
                let count = children.len();
                match op_token {
                    Token::FnCall(name) => {
                        let mut i = count;
                        while i > 0
                            invariant
                                i <= count == children@.len() == ch.len(),
                                *node == AstNode::Op(*op_token, *children),
                                decreases_to!(*node => children@),
                                ch == children@.map_values(|c: AstNode| ast_of(c)),
                                self.operations@ == before + lower_args(ch).take(
                                    count - i,
                                ).flatten(),
                            decreases i,
                        {
                            let ghost part = lower_args(ch)[count - i];
                            proof {
                                assert(decreases_to!(children@ => children@[i - 1]));
                                assert(lower_args(ch).take(count - i + 1) =~= lower_args(ch).take(
                                    count - i,
                                ).push(part));
                                lower_args(ch).take(count - i).lemma_flatten_push(part);
                            }
                            self.compile_ast_node(&children[i - 1], Context::Value);
                            i = i - 1;
                        }
                        self.operations.push(Instruction::CallFn(*name, count));
                        proof {
                            assert(lower_args(ch).take(count as int) =~= lower_args(ch));
                            assert(self.operations@ =~= before + lower(ast_of(*node), ctx));
                        }
                    },
                    _ => {
                        proof {
                            if count >= 1 {
                                assert(decreases_to!(children@ => children@[0]));
                            }
                            if count >= 2 {
                                assert(decreases_to!(children@ => children@[1]));
                            }
                        }
                        if count == 1 {
                            self.compile_ast_node(&children[0], Context::Value);
                            if *op_token == Token::Minus {
                                self.operations.push(Instruction::Negate);
                            }
                        } else if count == 2 {
                            if *op_token == Token::Equals {
                                self.compile_ast_node(&children[1], Context::Value);
                                self.compile_ast_node(&children[0], Context::Assignable);
                                if ctx != Context::Statement {
                                    self.compile_ast_node(&children[0], Context::Value);
                                }
                            } else {
                                self.compile_ast_node(&children[0], Context::Value);
                                self.compile_ast_node(&children[1], Context::Value);
                                self.push_op(*op_token);
                                if is_compound_assignment(*op_token) {
                                    self.compile_ast_node(&children[0], Context::Assignable);
                                    if ctx != Context::Statement {
                                        self.compile_ast_node(&children[0], Context::Value);
                                    }
                                }
                            }
                        }
                        proof {
                            assert(self.operations@ =~= before + lower(ast_of(*node), ctx));
                        }
                    },
                }
            },
        }
    }

    /// Emits the instruction of a binary operator.
    fn push_op(&mut self, op_token: Token)
        ensures
            final(self).operations@ == old(self).operations@ + binary_instruction(op_token),
    {
        let ghost before = self.operations@;
        match op_token {
            Token::Plus | Token::PlusEquals => self.operations.push(Instruction::Add),
            Token::Minus | Token::MinusEquals => self.operations.push(Instruction::Sub),
            Token::Star | Token::StarEquals => self.operations.push(Instruction::Mult),
            Token::Slash | Token::SlashEquals => self.operations.push(Instruction::Div),
            Token::Percent => self.operations.push(Instruction::Mod),
            Token::Power => self.operations.push(Instruction::Pow),
            _ => {},
        }
        proof {
            assert(self.operations@ =~= before + binary_instruction(op_token));
        }
    }
}

/// Whether a token is one of `+= -= *= /=`.
pub fn is_compound_assignment(t: Token) -> (r: bool)
    ensures
        r == is_compound(t),
{
    match t {
        Token::PlusEquals | Token::MinusEquals | Token::StarEquals | Token::SlashEquals => true,
        _ => false,
    }
}

} // verus!
