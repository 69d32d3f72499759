use bc_r::environment::Environment;
use bc_r::interpreter::{BinaryOp, Builtin, EvalError, Primitive};
use bc_r::parser::SyntaxError;
use bc_r::session::{run_source, Outcome};

/// Double-precision arithmetic over the literals of `src`.
fn arithmetic(src: &str) -> impl Fn(Primitive<f64>) -> f64 {
    let chars: Vec<char> = src.chars().collect();
    move |p: Primitive<f64>| match p {
        Primitive::Literal(sp) => chars[sp.start..sp.end]
            .iter()
            .collect::<String>()
            .parse()
            .unwrap_or(f64::NAN),
        Primitive::Negate(v) => -v,
        Primitive::Binary(op, a, b) => match op {
            BinaryOp::Add => a + b,
            BinaryOp::Sub => a - b,
            BinaryOp::Mul => a * b,
            BinaryOp::Div => a / b,
            BinaryOp::Rem => a % b,
            BinaryOp::Pow => a.powf(b),
        },
        Primitive::Call(f, v) => match f {
            Builtin::Sin => v.sin(),
            Builtin::Cos => v.cos(),
            Builtin::Sqrt => v.sqrt(),
        },
    }
}

fn run(src: &str, env: &mut Environment<f64>) -> Vec<Outcome<f64>> {
    let eval = arithmetic(src);
    run_source(src, env, &eval)
}

fn values(src: &str) -> Vec<Option<f64>> {
    let mut env = Environment::new();
    run(src, &mut env)
        .into_iter()
        .map(|o| match o {
            Outcome::Value(v) => Some(v),
            _ => None,
        })
        .collect()
}

fn single(src: &str) -> f64 {
    let v = values(src);
    assert_eq!(v.len(), 1, "{src}");
    v[0].expect(src)
}

#[test]
fn multiplication_binds_tighter_than_addition() {
    assert_eq!(single("3 + 4 * 2"), 11.0);
}

#[test]
fn power_groups_to_the_right() {
    assert_eq!(single("2 ^ 3 ^ 2"), 512.0);
}

#[test]
fn division_groups_to_the_left() {
    assert_eq!(single("8 / 4 / 2"), 1.0);
    assert_eq!(single("10 - 4 - 3"), 3.0);
}

#[test]
fn environment_persists_across_statements() {
    let mut env = Environment::new();
    let first = run("x = 5", &mut env);
    assert!(matches!(first[..], [Outcome::Stored]));
    let second = run("x + 1", &mut env);
    assert!(matches!(second[..], [Outcome::Value(v)] if v == 6.0));
}

#[test]
fn compound_assignment_updates_variable() {
    let mut env = Environment::new();
    run("x = 10", &mut env);
    let r = run("x -= 3", &mut env);
    assert!(matches!(r[..], [Outcome::Stored]));
    let r = run("x", &mut env);
    assert!(matches!(r[..], [Outcome::Value(v)] if v == 7.0));
}

#[test]
fn all_compound_assignments() {
    assert_eq!(
        values("a = 6\na += 2\na\na *= 3\na\na /= 4\na\na -= 1\na"),
        vec![None, None, Some(8.0), None, Some(24.0), None, Some(6.0), None, Some(5.0)]
    );
}

#[test]
fn unary_minus() {
    assert_eq!(single("-(-5)"), 5.0);
    assert_eq!(single("-3 + 4"), 1.0);
    assert_eq!(single("+7"), 7.0);
    assert_eq!(single("-2 ^ 2"), -4.0);
    assert_eq!(single("2 ^ -1"), 0.5);
}

#[test]
fn builtin_functions() {
    assert_eq!(single("sqrt(16)"), 4.0);
    assert_eq!(single("sin(0)"), 0.0);
    assert_eq!(single("cos(0)"), 1.0);
    assert_eq!(single("sqrt(9) + sqrt(16) * 2"), 11.0);
}

#[test]
fn unknown_function_then_session_continues() {
    let mut env = Environment::new();
    let r = run("foo(1)\n2 + 2", &mut env);
    assert_eq!(r.len(), 2);
    match r[0] {
        Outcome::Eval(EvalError::UnknownFunction { name }) => {
            assert_eq!((name.start, name.end), (0, 3));
        }
        other => panic!("{other:?}"),
    }
    assert!(matches!(r[1], Outcome::Value(v) if v == 4.0));
    let later = run("sqrt(4)", &mut env);
    assert!(matches!(later[..], [Outcome::Value(v)] if v == 2.0));
}

#[test]
fn unmatched_paren_is_reported_and_later_lines_run() {
    let r = {
        let mut env = Environment::new();
        run("1 + 2)\n3 + 4\nx = 2\nx * 5", &mut env)
    };
    assert_eq!(r.len(), 4);
    assert!(matches!(
        r[0],
        Outcome::Syntax(SyntaxError::UnexpectedToken { line: 1, .. })
    ));
    assert!(matches!(r[1], Outcome::Value(v) if v == 7.0));
    assert!(matches!(r[2], Outcome::Stored));
    assert!(matches!(r[3], Outcome::Value(v) if v == 10.0));
}

#[test]
fn missing_close_paren_is_reported() {
    let r = values("(1 + 2\n5");
    assert_eq!(r, vec![None, Some(5.0)]);
}

#[test]
fn self_assignment_keeps_value() {
    let mut env = Environment::new();
    run("v = 42", &mut env);
    let r = run("v = v", &mut env);
    assert!(matches!(r[..], [Outcome::Stored]));
    let name: Vec<char> = "v".chars().collect();
    assert_eq!(env.get(&name), Some(42.0));
}

#[test]
fn self_assignment_of_unbound_name_fails_and_binds_nothing() {
    let mut env: Environment<f64> = Environment::new();
    let r = run("w = w", &mut env);
    assert!(matches!(
        r[..],
        [Outcome::Eval(EvalError::UndefinedVariable { .. })]
    ));
    let name: Vec<char> = "w".chars().collect();
    assert_eq!(env.get(&name), None);
}

#[test]
fn undefined_variable_is_an_error() {
    let r = run("y + 1", &mut Environment::new());
    match r[..] {
        [Outcome::Eval(EvalError::UndefinedVariable { name })] => {
            assert_eq!((name.start, name.end), (0, 1));
        }
        ref other => panic!("{other:?}"),
    }
}

#[test]
fn modulo_binds_like_multiplication() {
    assert_eq!(single("7 % 4"), 3.0);
    assert_eq!(single("1 + 7 % 4"), 4.0);
    assert_eq!(single("2 * 7 % 4"), 2.0);
}

#[test]
fn semicolons_separate_statements() {
    assert_eq!(values("1; 2;3"), vec![Some(1.0), Some(2.0), Some(3.0)]);
}

#[test]
fn blank_lines_give_no_statements() {
    assert_eq!(values("\n\n1\n\n\n2\n"), vec![Some(1.0), Some(2.0)]);
}

#[test]
fn decimal_numbers() {
    assert_eq!(single("1.5 * 2"), 3.0);
    assert_eq!(single("2."), 2.0);
}

#[test]
fn malformed_number_is_a_syntax_error() {
    let r = run("1\n1.2.3 + 1\n4", &mut Environment::new());
    assert_eq!(r.len(), 3);
    assert!(matches!(
        r[1],
        Outcome::Syntax(SyntaxError::MalformedNumber { line: 2 })
    ));
    assert!(matches!(r[2], Outcome::Value(v) if v == 4.0));
}

#[test]
fn unrecognized_character_is_reported_and_later_lines_run() {
    let r = run("1 # 2\n3", &mut Environment::new());
    assert_eq!(r.len(), 2);
    assert!(matches!(
        r[0],
        Outcome::Syntax(SyntaxError::UnrecognizedCharacter { ch: '#', line: 1 })
    ));
    assert!(matches!(r[1], Outcome::Value(v) if v == 3.0));
}

#[test]
fn arity_mismatch_is_an_error() {
    let r = run("sin(1, 2)\nsqrt()", &mut Environment::new());
    assert!(matches!(
        r[0],
        Outcome::Eval(EvalError::ArityMismatch { expected: 1, found: 2, .. })
    ));
    assert!(matches!(
        r[1],
        Outcome::Eval(EvalError::ArityMismatch { expected: 1, found: 0, .. })
    ));
}

#[test]
fn assignment_to_non_variable_is_rejected() {
    let r = run("1 = 2\n(a + 1) = 2\nx += 1 = 2\n4", &mut Environment::new());
    assert_eq!(r.len(), 4);
    for o in &r[..3] {
        assert!(matches!(o, Outcome::Syntax(SyntaxError::InvalidAssignment { line: _ })));
    }
    assert!(matches!(r[3], Outcome::Value(v) if v == 4.0));
}

#[test]
fn chained_assignment_stores_every_name() {
    let mut env = Environment::new();
    let r = run("a = b = 3 + 1\nx = y = 3", &mut env);
    assert!(matches!(r[..], [Outcome::Stored, Outcome::Stored]));
    for (name, value) in [("a", 4.0), ("b", 4.0), ("x", 3.0), ("y", 3.0)] {
        let key: Vec<char> = name.chars().collect();
        assert_eq!(env.get(&key), Some(value), "{name}");
    }
}

#[test]
fn assignment_inside_expression_gives_its_value() {
    let mut env = Environment::new();
    let r = run("(x = 1) + 2\nx\nz = (w -= 0) * 2", &mut env);
    assert!(matches!(r[0], Outcome::Value(v) if v == 3.0));
    assert!(matches!(r[1], Outcome::Value(v) if v == 1.0));
    assert!(matches!(r[2], Outcome::Eval(EvalError::UndefinedVariable { .. })));
    let r = run("w = 5\nz = (w -= 1) * 2\nz\nw", &mut env);
    assert!(matches!(r[..], [
        Outcome::Stored,
        Outcome::Stored,
        Outcome::Value(z),
        Outcome::Value(w),
    ] if z == 8.0 && w == 4.0));
}

#[test]
fn eval_error_leaves_bindings_intact() {
    let mut env = Environment::new();
    run("a = 3", &mut env);
    let r = run("a = a + nope", &mut env);
    assert!(matches!(r[..], [Outcome::Eval(EvalError::UndefinedVariable { .. })]));
    let r = run("a", &mut env);
    assert!(matches!(r[..], [Outcome::Value(v)] if v == 3.0));
}

#[test]
fn division_by_zero_gives_infinity() {
    assert_eq!(single("1 / 0"), f64::INFINITY);
    assert!(single("0 / 0").is_nan());
}

#[test]
fn self_assignment_of_long_name_keeps_value() {
    let mut env = Environment::new();
    run("alpha_1 = 2.5\nalpha_1 = alpha_1\nalpha_1", &mut env);
    let name: Vec<char> = "alpha_1".chars().collect();
    assert_eq!(env.get(&name), Some(2.5));
}

#[test]
fn undefined_name_after_unicode_text() {
    let mut env = Environment::new();
    let r = run("ü = 1\nq", &mut env);
    assert!(matches!(
        r[0],
        Outcome::Syntax(SyntaxError::UnrecognizedCharacter { ch: 'ü', line: 1 })
    ));
    match r[1] {
        Outcome::Eval(EvalError::UndefinedVariable { name }) => {
            assert_eq!((name.start, name.end), (6, 7));
        }
        other => panic!("{other:?}"),
    }
}

#[test]
fn moderate_nesting_is_accepted() {
    let src = format!("{}1{}", "(".repeat(100), ")".repeat(100));
    assert_eq!(single(&src), 1.0);
    let chain = vec!["1"; 200].join(" + ");
    assert_eq!(single(&chain), 200.0);
}

#[test]
fn too_deep_nesting_is_a_parse_error_and_later_lines_run() {
    let src = format!("{}1{}\n-{}2\n7", "(".repeat(5000), ")".repeat(5000), "-".repeat(5000));
    let r = run(&src, &mut Environment::new());
    assert_eq!(r.len(), 3);
    assert!(matches!(r[0], Outcome::Syntax(SyntaxError::UnexpectedToken { .. })));
    assert!(matches!(r[1], Outcome::Syntax(SyntaxError::UnexpectedToken { .. })));
    assert!(matches!(r[2], Outcome::Value(v) if v == 7.0));
}

#[test]
fn too_long_operator_chain_is_a_parse_error() {
    let chain = vec!["1"; 5000].join("+");
    let r = run(&chain, &mut Environment::new());
    assert!(matches!(r[..], [Outcome::Syntax(SyntaxError::UnexpectedToken { .. })]));
}

#[test]
fn stray_paren_on_its_own_line_is_reported_on_that_line() {
    let r = run("1\n)\n2", &mut Environment::new());
    assert_eq!(r.len(), 3);
    assert!(matches!(r[0], Outcome::Value(v) if v == 1.0));
    assert!(matches!(
        r[1],
        Outcome::Syntax(SyntaxError::UnexpectedToken { line: 2, .. })
    ));
    assert!(matches!(r[2], Outcome::Value(v) if v == 2.0));
}
