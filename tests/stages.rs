use bc_r::compiler::{Compiler, Instruction};
use bc_r::environment::Environment;
use bc_r::interpreter::{BinaryOp, EvalError, Primitive, Vm};
use bc_r::parser::{infix_precedence, prefix_precedence, AstNode, Parser, SyntaxError};
use bc_r::tokenizer::{
    is_alphanumeric, is_digit, tokens_and_lines_from_text, tokens_from_text, Span, Token,
};

fn sp(start: usize, end: usize) -> Span {
    Span { start, end }
}

fn statements(src: &str) -> Vec<Result<AstNode, SyntaxError>> {
    Parser::new(tokens_from_text(src)).parse()
}

fn code(src: &str) -> Vec<Instruction> {
    let mut stmts = statements(src);
    assert_eq!(stmts.len(), 1);
    let ast = stmts.remove(0).expect("parses");
    Compiler::new().compile(ast)
}

#[test]
fn tokens_with_compound_operator_and_blank_lines() {
    assert_eq!(
        tokens_from_text("x += 1\n\n2;3"),
        vec![
            Token::Identifier(sp(0, 1), 1),
            Token::PlusEquals,
            Token::Number(sp(5, 6), 1),
            Token::StatementEnd,
            Token::Number(sp(8, 9), 3),
            Token::StatementEnd,
            Token::Number(sp(10, 11), 3),
            Token::EOF,
        ]
    );
}

#[test]
fn tokens_of_compound_assignments() {
    assert_eq!(
        tokens_from_text("a1_b*=c-=d/=e"),
        vec![
            Token::Identifier(sp(0, 4), 1),
            Token::StarEquals,
            Token::Identifier(sp(6, 7), 1),
            Token::MinusEquals,
            Token::Identifier(sp(9, 10), 1),
            Token::SlashEquals,
            Token::Identifier(sp(12, 13), 1),
            Token::EOF,
        ]
    );
}

#[test]
fn tokens_of_operators_and_punctuation() {
    assert_eq!(
        tokens_from_text("(+-*/%^=,)"),
        vec![
            Token::LeftParen,
            Token::Plus,
            Token::Minus,
            Token::Star,
            Token::Slash,
            Token::Percent,
            Token::Power,
            Token::Equals,
            Token::ArgSeperator,
            Token::RightParen,
            Token::EOF,
        ]
    );
}

#[test]
fn number_with_several_dots_is_one_token() {
    assert_eq!(
        tokens_from_text("1.2.3"),
        vec![Token::Number(sp(0, 5), 1), Token::EOF]
    );
}

#[test]
fn unrecognized_character_becomes_a_token() {
    assert_eq!(
        tokens_from_text("\n\t@"),
        vec![Token::StatementEnd, Token::Unrecognized('@', 2), Token::EOF]
    );
}

#[test]
fn empty_source_has_only_end_of_input() {
    assert_eq!(tokens_from_text(""), vec![Token::EOF]);
    assert_eq!(tokens_from_text(" \r\t"), vec![Token::EOF]);
}

#[test]
fn character_classes() {
    assert!(is_digit('0') && is_digit('9') && !is_digit('a') && !is_digit('.'));
    assert!(is_alphanumeric('_') && is_alphanumeric('Z') && is_alphanumeric('5'));
    assert!(!is_alphanumeric('-') && !is_alphanumeric(' '));
}

#[test]
fn precedence_table() {
    assert_eq!(infix_precedence(Token::Equals), Some((1, 1)));
    assert_eq!(infix_precedence(Token::MinusEquals), Some((1, 1)));
    assert_eq!(infix_precedence(Token::Plus), Some((3, 4)));
    assert_eq!(infix_precedence(Token::Percent), Some((5, 6)));
    assert_eq!(infix_precedence(Token::Slash), Some((5, 6)));
    assert_eq!(infix_precedence(Token::Power), Some((7, 7)));
    assert_eq!(infix_precedence(Token::RightParen), None);
    assert_eq!(prefix_precedence(Token::Minus), Some(6));
    assert_eq!(prefix_precedence(Token::Star), None);
}

#[test]
fn call_tree_keeps_arguments_in_source_order() {
    let stmts = statements("f(a, b)");
    assert_eq!(stmts.len(), 1);
    match &stmts[0] {
        Ok(AstNode::Op(Token::FnCall(name), args)) => {
            assert_eq!(*name, sp(0, 1));
            assert_eq!(args.len(), 2);
            assert!(matches!(args[0], AstNode::Ident(s) if s == sp(2, 3)));
            assert!(matches!(args[1], AstNode::Ident(s) if s == sp(5, 6)));
        }
        other => panic!("{other:?}"),
    }
}

#[test]
fn power_tree_groups_to_the_right() {
    let stmts = statements("2^3^2");
    match &stmts[0] {
        Ok(AstNode::Op(Token::Power, ch)) => {
            assert!(matches!(ch[0], AstNode::Number(s) if s == sp(0, 1)));
            assert!(matches!(&ch[1], AstNode::Op(Token::Power, _)));
        }
        other => panic!("{other:?}"),
    }
}

#[test]
fn call_arguments_run_last_first() {
    assert_eq!(
        code("f(a, b)"),
        vec![
            Instruction::GetVal(sp(5, 6)),
            Instruction::GetVal(sp(2, 3)),
            Instruction::CallFn(sp(0, 1), 2),
        ]
    );
}

#[test]
fn binary_code_runs_left_operand_first() {
    assert_eq!(
        code("1 - 2"),
        vec![
            Instruction::PushConstant(sp(0, 1)),
            Instruction::PushConstant(sp(4, 5)),
            Instruction::Sub,
        ]
    );
}

#[test]
fn compound_assignment_code() {
    assert_eq!(
        code("x -= 3"),
        vec![
            Instruction::GetVal(sp(0, 1)),
            Instruction::PushConstant(sp(5, 6)),
            Instruction::Sub,
            Instruction::Assign(sp(0, 1)),
        ]
    );
}

#[test]
fn assignment_code_stores_without_loading_target() {
    assert_eq!(
        code("x = -y"),
        vec![
            Instruction::GetVal(sp(5, 6)),
            Instruction::Negate,
            Instruction::Assign(sp(0, 1)),
        ]
    );
    assert_eq!(code("+y"), vec![Instruction::GetVal(sp(1, 2))]);
}

#[test]
fn chained_assignment_tree_groups_to_the_right() {
    let stmts = statements("a = b = 3 + 1");
    assert_eq!(stmts.len(), 1);
    match &stmts[0] {
        Ok(AstNode::Op(Token::Equals, ch)) => {
            assert!(matches!(ch[0], AstNode::Ident(s) if s == sp(0, 1)));
            match &ch[1] {
                AstNode::Op(Token::Equals, inner) => {
                    assert!(matches!(inner[0], AstNode::Ident(s) if s == sp(4, 5)));
                    assert!(matches!(&inner[1], AstNode::Op(Token::Plus, _)));
                }
                other => panic!("{other:?}"),
            }
        }
        other => panic!("{other:?}"),
    }
}

#[test]
fn inner_assignment_code_reads_back_its_value() {
    assert_eq!(
        code("a = b = 4"),
        vec![
            Instruction::PushConstant(sp(8, 9)),
            Instruction::Assign(sp(4, 5)),
            Instruction::GetVal(sp(4, 5)),
            Instruction::Assign(sp(0, 1)),
        ]
    );
}

#[test]
fn other_operators_code() {
    assert_eq!(
        code("a*b/c%d^e"),
        vec![
            Instruction::GetVal(sp(0, 1)),
            Instruction::GetVal(sp(2, 3)),
            Instruction::Mult,
            Instruction::GetVal(sp(4, 5)),
            Instruction::Div,
            Instruction::GetVal(sp(6, 7)),
            Instruction::GetVal(sp(8, 9)),
            Instruction::Pow,
            Instruction::Mod,
        ]
    );
}

#[test]
fn parse_errors_name_the_token_and_line() {
    let stmts = statements("1 +\n* 2\n3");
    assert_eq!(stmts.len(), 3);
    assert!(matches!(
        stmts[0],
        Err(SyntaxError::UnexpectedToken { token: Token::StatementEnd, line: 1 })
    ));
    assert!(matches!(
        stmts[1],
        Err(SyntaxError::UnexpectedToken { token: Token::Star, line: 1 })
    ));
    assert!(stmts[2].is_ok());
}

#[test]
fn unclosed_call_is_a_parse_error() {
    let stmts = statements("sqrt(4\n5");
    assert_eq!(stmts.len(), 2);
    assert!(matches!(
        stmts[0],
        Err(SyntaxError::UnexpectedToken { token: Token::StatementEnd, .. })
    ));
    assert!(stmts[1].is_ok());
}

fn integer_arithmetic(src: &str) -> impl Fn(Primitive<i64>) -> i64 {
    let chars: Vec<char> = src.chars().collect();
    move |p: Primitive<i64>| match p {
        Primitive::Literal(s) => chars[s.start..s.end]
            .iter()
            .collect::<String>()
            .parse()
            .unwrap_or(0),
        Primitive::Negate(v) => -v,
        Primitive::Binary(op, a, b) => match op {
            BinaryOp::Add => a + b,
            BinaryOp::Sub => a - b,
            BinaryOp::Mul => a * b,
            BinaryOp::Div => a / b,
            BinaryOp::Rem => a % b,
            BinaryOp::Pow => a.pow(b as u32),
        },
        Primitive::Call(_, v) => v,
    }
}

#[test]
fn machine_pops_right_operand_first() {
    let src = "10 - 4 - 3";
    let chars: Vec<char> = src.chars().collect();
    let mut env = Environment::new();
    let eval = integer_arithmetic(src);
    let r = Vm::new(code(src)).interpret(&chars, &mut env, &eval);
    assert_eq!(r, Ok(Some(3)));
    let src = "2 ^ 3 ^ 2";
    let chars: Vec<char> = src.chars().collect();
    let eval = integer_arithmetic(src);
    let r = Vm::new(code(src)).interpret(&chars, &mut env, &eval);
    assert_eq!(r, Ok(Some(512)));
}

#[test]
fn machine_reports_stack_faults() {
    let chars: Vec<char> = "5".chars().collect();
    let mut env: Environment<i64> = Environment::new();
    let eval = integer_arithmetic("5");
    let under = Vm::new(vec![Instruction::Add]).interpret(&chars, &mut env, &eval);
    assert_eq!(under, Err(EvalError::StackUnderflow));
    let two = vec![Instruction::PushConstant(sp(0, 1)), Instruction::PushConstant(sp(0, 1))];
    let r = Vm::new(two).interpret(&chars, &mut env, &eval);
    assert_eq!(r, Err(EvalError::UnbalancedStack { depth: 2 }));
    let r = Vm::new(vec![]).interpret(&chars, &mut env, &eval);
    assert_eq!(r, Ok(None));
}

#[test]
fn machine_stores_and_loads() {
    let src = "q";
    let chars: Vec<char> = src.chars().collect();
    let mut env: Environment<i64> = Environment::new();
    let eval = |_: Primitive<i64>| 9;
    let store = vec![Instruction::PushConstant(sp(0, 1)), Instruction::Assign(sp(0, 1))];
    assert_eq!(Vm::new(store).interpret(&chars, &mut env, &eval), Ok(None));
    let load = vec![Instruction::GetVal(sp(0, 1))];
    assert_eq!(Vm::new(load).interpret(&chars, &mut env, &eval), Ok(Some(9)));
}

#[test]
fn environment_binds_and_overwrites() {
    let mut env: Environment<i64> = Environment::new();
    let a: Vec<char> = "alpha".chars().collect();
    let b: Vec<char> = "beta".chars().collect();
    assert_eq!(env.get(&a), None);
    env.set(a.clone(), 1);
    env.set(b.clone(), 2);
    env.set(a.clone(), 3);
    assert_eq!(env.get(&a), Some(3));
    assert_eq!(env.get(&b), Some(2));
    let c: Vec<char> = "alph".chars().collect();
    assert_eq!(env.get(&c), None);
}

#[test]
fn spans_count_characters_not_bytes() {
    assert_eq!(
        tokens_from_text("é x"),
        vec![
            Token::Unrecognized('é', 1),
            Token::Identifier(sp(2, 3), 1),
            Token::EOF,
        ]
    );
}

#[test]
fn every_token_has_its_line() {
    let (tokens, lines) = tokens_and_lines_from_text("x = 1\n\n)");
    assert_eq!(
        tokens,
        vec![
            Token::Identifier(sp(0, 1), 1),
            Token::Equals,
            Token::Number(sp(4, 5), 1),
            Token::StatementEnd,
            Token::RightParen,
            Token::EOF,
        ]
    );
    assert_eq!(lines, vec![1, 1, 1, 1, 3, 3]);
}

#[test]
fn diagnostics_name_the_line_of_the_offending_token() {
    let (tokens, lines) = tokens_and_lines_from_text("1 +\n* 2\n3\n)");
    let stmts = Parser::with_lines(tokens, lines).parse();
    assert_eq!(stmts.len(), 4);
    assert!(matches!(
        stmts[0],
        Err(SyntaxError::UnexpectedToken { token: Token::StatementEnd, line: 1 })
    ));
    assert!(matches!(
        stmts[1],
        Err(SyntaxError::UnexpectedToken { token: Token::Star, line: 2 })
    ));
    assert!(stmts[2].is_ok());
    assert!(matches!(
        stmts[3],
        Err(SyntaxError::UnexpectedToken { token: Token::RightParen, line: 4 })
    ));
}
