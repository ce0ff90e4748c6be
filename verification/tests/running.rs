use std::collections::HashMap;
use toy_jit::ast::Expr;
use toy_jit::builder::FunctionIR;
use toy_jit::ir::{BinaryOp, IntCC, Op};
use toy_jit::jit::JIT;

fn lit(text: &str) -> Expr {
    Expr::Literal(text.to_string())
}

fn num(n: i32) -> Expr {
    Expr::Literal(n.to_string())
}

fn id(name: &str) -> Expr {
    Expr::Identifier(name.to_string())
}

fn assign(name: &str, value: Expr) -> Expr {
    Expr::Assign(name.to_string(), Box::new(value))
}

fn add(lhs: Expr, rhs: Expr) -> Expr {
    Expr::Add(Box::new(lhs), Box::new(rhs))
}

fn sub(lhs: Expr, rhs: Expr) -> Expr {
    Expr::Sub(Box::new(lhs), Box::new(rhs))
}

fn mul(lhs: Expr, rhs: Expr) -> Expr {
    Expr::Mul(Box::new(lhs), Box::new(rhs))
}

fn div(lhs: Expr, rhs: Expr) -> Expr {
    Expr::Div(Box::new(lhs), Box::new(rhs))
}

fn names(list: &[&str]) -> Vec<String> {
    list.iter().map(|s| s.to_string()).collect()
}

fn lower(params: &[&str], the_return: &str, stmts: Vec<Expr>) -> FunctionIR {
    JIT::new().translate(names(params), the_return.to_string(), stmts).unwrap()
}

/// What a value holds while a function runs.
#[derive(Clone, Copy, Debug, PartialEq)]
enum Datum {
    Int(i32),
    Bool(bool),
}

/// Why a run ended without a result.
#[derive(Debug, PartialEq)]
enum Trap {
    DivisionByZero,
    OutOfSteps,
    Stuck,
}

/// Whether a step defines a value.
fn defines(op: &Op) -> bool {
    matches!(
        op,
        Op::AppendBlockParam(_, _)
            | Op::UseVar(_)
            | Op::Iconst(_)
            | Op::Binary(_, _, _)
            | Op::Compare(_, _, _)
            | Op::Bint(_)
            | Op::Call(_, _)
    )
}

/// The handle of the value that the step at position `at` defines: values
/// are numbered in the order of the steps that define them.
fn handle_at(ops: &[Op], at: usize) -> usize {
    ops[..at].iter().filter(|op| defines(op)).count()
}

/// The parameters that a block had when the step at position `at` was
/// taken.
fn params_at(ops: &[Op], at: usize, block: usize) -> Vec<usize> {
    (0..at)
        .filter(|k| matches!(&ops[*k], Op::AppendBlockParam(b, _) if b.0 == block))
        .map(|k| handle_at(ops, k))
        .collect()
}

/// The position at which a block's instructions begin.
fn start_of(ops: &[Op], block: usize) -> Option<usize> {
    ops.iter().position(|op| matches!(op, Op::SwitchToBlock(b) if b.0 == block)).map(|j| j + 1)
}

/// The function that an imported function stands for.
fn callee_of(ops: &[Op], callee: usize) -> Option<usize> {
    ops.iter()
        .filter_map(|op| match op {
            Op::ImportFunction(func, _) => Some(func.0),
            _ => None,
        })
        .nth(callee)
}

/// Runs a function on arguments, step by step through its listing. Steps
/// that only shape the block graph do nothing. Variables are cells that
/// `DefVar` writes and `UseVar` reads. A jump or a taken branch goes on at
/// the first instruction of its target and hands its arguments to the
/// target's parameters. `call` stands for the functions of the module, by
/// handle.
fn run_with(
    function: &FunctionIR,
    args: &[i32],
    call: &dyn Fn(usize, &[i32]) -> i32,
) -> Result<i32, Trap> {
    let ops = &function.ops;
    let mut values: HashMap<usize, Datum> = HashMap::new();
    let mut cells: HashMap<usize, Datum> = HashMap::new();
    if function.signature.params.len() != args.len() {
        return Err(Trap::Stuck);
    }
    for (value, arg) in args.iter().enumerate() {
        values.insert(value, Datum::Int(*arg));
    }
    let int = |values: &HashMap<usize, Datum>, v: usize| match values.get(&v) {
        Some(Datum::Int(n)) => Ok(*n),
        _ => Err(Trap::Stuck),
    };
    let mut pc = 0;
    let mut steps = 0;
    loop {
        steps += 1;
        if steps > 1_000_000 {
            return Err(Trap::OutOfSteps);
        }
        let op = ops.get(pc).ok_or(Trap::Stuck)?;
        let mut target: Option<(usize, Vec<usize>)> = None;
        let result = match op {
            Op::CreateBlock
            | Op::AppendBlockParam(_, _)
            | Op::SwitchToBlock(_)
            | Op::SealBlock(_)
            | Op::DeclareVar(_, _)
            | Op::ImportFunction(_, _) => None,
            Op::DefVar(var, v) => {
                let datum = *values.get(&v.0).ok_or(Trap::Stuck)?;
                cells.insert(var.0, datum);
                None
            }
            Op::UseVar(var) => Some(*cells.get(&var.0).ok_or(Trap::Stuck)?),
            Op::Iconst(imm) => Some(Datum::Int(*imm)),
            Op::Binary(op, a, b) => {
                let (x, y) = (int(&values, a.0)?, int(&values, b.0)?);
                Some(Datum::Int(match op {
                    BinaryOp::Iadd => x.wrapping_add(y),
                    BinaryOp::Isub => x.wrapping_sub(y),
                    BinaryOp::Imul => x.wrapping_mul(y),
                    BinaryOp::Udiv => {
                        if y == 0 {
                            return Err(Trap::DivisionByZero);
                        }
                        ((x as u32) / (y as u32)) as i32
                    }
                }))
            }
            Op::Compare(cc, a, b) => {
                let (x, y) = (int(&values, a.0)?, int(&values, b.0)?);
                Some(Datum::Bool(match cc {
                    IntCC::Equal => x == y,
                    IntCC::NotEqual => x != y,
                    IntCC::SignedLessThan => x < y,
                    IntCC::SignedLessThanOrEqual => x <= y,
                    IntCC::SignedGreaterThan => x > y,
                    IntCC::SignedGreaterThanOrEqual => x >= y,
                }))
            }
            Op::Bint(v) => match values.get(&v.0) {
                Some(Datum::Bool(truth)) => Some(Datum::Int(if *truth { 1 } else { 0 })),
                _ => return Err(Trap::Stuck),
            },
            Op::Brz(cond, to, jump_args) => {
                let zero = match values.get(&cond.0) {
                    Some(Datum::Int(n)) => *n == 0,
                    Some(Datum::Bool(truth)) => !*truth,
                    None => return Err(Trap::Stuck),
                };
                if zero {
                    target = Some((to.0, jump_args.iter().map(|v| v.0).collect()));
                }
                None
            }
            Op::Jump(to, jump_args) => {
                target = Some((to.0, jump_args.iter().map(|v| v.0).collect()));
                None
            }
            Op::Call(callee, call_args) => {
                let mut passed = vec![];
                for arg in call_args {
                    passed.push(int(&values, arg.0)?);
                }
                let func = callee_of(ops, callee.0).ok_or(Trap::Stuck)?;
                Some(Datum::Int(call(func, &passed)))
            }
            Op::Return(vals) => {
                if vals.len() != 1 {
                    return Err(Trap::Stuck);
                }
                return int(&values, vals[0].0);
            }
        };
        if let Some(datum) = result {
            values.insert(handle_at(ops, pc), datum);
        }
        match target {
            Some((to, passed)) => {
                let params = params_at(ops, pc, to);
                if params.len() != passed.len() {
                    return Err(Trap::Stuck);
                }
                let mut data = vec![];
                for v in &passed {
                    data.push(*values.get(v).ok_or(Trap::Stuck)?);
                }
                for (param, datum) in params.iter().zip(data) {
                    values.insert(*param, datum);
                }
                pc = start_of(ops, to).ok_or(Trap::Stuck)?;
            }
            None => pc += 1,
        }
    }
}

fn run(function: &FunctionIR, args: &[i32]) -> Result<i32, Trap> {
    run_with(function, args, &|_, _| 0)
}

/// The result of `fn f() -> r { r = <expr> }`.
fn value_of(expr: Expr) -> Result<i32, Trap> {
    run(&lower(&[], "r", vec![assign("r", expr)]), &[])
}

/// Direct evaluation of an expression of literals, arithmetic and
/// comparisons.
fn evaluate(expr: &Expr) -> Option<i32> {
    let both = |l: &Expr, r: &Expr| Some((evaluate(l)?, evaluate(r)?));
    let truth = |t: bool| Some(if t { 1 } else { 0 });
    match expr {
        Expr::Literal(text) => text.parse::<i32>().ok(),
        Expr::Add(l, r) => both(l, r).map(|(a, b)| a.wrapping_add(b)),
        Expr::Sub(l, r) => both(l, r).map(|(a, b)| a.wrapping_sub(b)),
        Expr::Mul(l, r) => both(l, r).map(|(a, b)| a.wrapping_mul(b)),
        Expr::Div(l, r) => both(l, r).and_then(|(a, b)| (a as u32).checked_div(b as u32)).map(|q| q as i32),
        Expr::Eq(l, r) => both(l, r).and_then(|(a, b)| truth(a == b)),
        Expr::Ne(l, r) => both(l, r).and_then(|(a, b)| truth(a != b)),
        Expr::Lt(l, r) => both(l, r).and_then(|(a, b)| truth(a < b)),
        Expr::Le(l, r) => both(l, r).and_then(|(a, b)| truth(a <= b)),
        Expr::Gt(l, r) => both(l, r).and_then(|(a, b)| truth(a > b)),
        Expr::Ge(l, r) => both(l, r).and_then(|(a, b)| truth(a >= b)),
        _ => None,
    }
}

const SAMPLES: [i32; 11] =
    [0, 1, -1, 2, 7, -7, 1000, 65536, i32::MAX, i32::MIN, i32::MIN + 1];

#[test]
fn arithmetic_gives_exact_values() {
    assert_eq!(value_of(add(num(2), num(3))), Ok(5));
    assert_eq!(value_of(sub(num(2), num(3))), Ok(-1));
    assert_eq!(value_of(mul(num(6), num(7))), Ok(42));
    assert_eq!(value_of(div(num(42), num(5))), Ok(8));
    assert_eq!(value_of(sub(num(10), sub(num(4), num(1)))), Ok(7));
    assert_eq!(value_of(sub(sub(num(10), num(4)), num(1))), Ok(5));
    assert_eq!(value_of(add(mul(num(2), num(3)), div(num(9), num(2)))), Ok(10));
}

#[test]
fn arithmetic_wraps_around() {
    assert_eq!(value_of(add(num(i32::MAX), num(1))), Ok(i32::MIN));
    assert_eq!(value_of(sub(num(i32::MIN), num(1))), Ok(i32::MAX));
    assert_eq!(value_of(mul(num(65536), num(65536))), Ok(0));
    assert_eq!(value_of(mul(num(i32::MAX), num(2))), Ok(-2));
}

#[test]
fn division_is_unsigned() {
    assert_eq!(value_of(div(num(-1), num(2))), Ok(i32::MAX));
    assert_eq!(value_of(div(num(-8), num(2))), Ok(2147483644));
    assert_eq!(value_of(div(num(8), num(-2))), Ok(0));
    assert_eq!(value_of(div(num(-2), num(-1))), Ok(0));
    assert_eq!(value_of(div(num(-1), num(-2))), Ok(1));
    assert_eq!(value_of(div(num(7), num(7))), Ok(1));
}

#[test]
fn division_by_zero_traps() {
    assert_eq!(value_of(div(num(1), num(0))), Err(Trap::DivisionByZero));
    assert_eq!(value_of(add(num(1), div(num(0), sub(num(3), num(3))))), Err(Trap::DivisionByZero));
}

#[test]
fn compiled_arithmetic_agrees_with_direct_evaluation() {
    for a in SAMPLES {
        for b in SAMPLES {
            for c in [3, -5, i32::MAX] {
                let exprs = [
                    add(num(a), num(b)),
                    sub(num(a), num(b)),
                    mul(num(a), num(b)),
                    div(num(a), num(b)),
                    add(mul(num(a), num(b)), num(c)),
                    mul(sub(num(a), num(c)), add(num(b), num(c))),
                    div(add(num(a), num(b)), sub(num(c), num(b))),
                    sub(num(c), div(mul(num(a), num(a)), num(b))),
                ];
                for expr in exprs {
                    let direct = evaluate(&expr);
                    let compiled = value_of(expr);
                    match direct {
                        Some(n) => assert_eq!(compiled, Ok(n)),
                        None => assert_eq!(compiled, Err(Trap::DivisionByZero)),
                    }
                }
            }
        }
    }
}

#[test]
fn addition_and_multiplication_commute_and_associate() {
    for a in SAMPLES {
        for b in SAMPLES {
            assert_eq!(value_of(add(num(a), num(b))), value_of(add(num(b), num(a))));
            assert_eq!(value_of(mul(num(a), num(b))), value_of(mul(num(b), num(a))));
            for c in SAMPLES {
                assert_eq!(
                    value_of(add(add(num(a), num(b)), num(c))),
                    value_of(add(num(a), add(num(b), num(c))))
                );
                assert_eq!(
                    value_of(mul(mul(num(a), num(b)), num(c))),
                    value_of(mul(num(a), mul(num(b), num(c))))
                );
            }
        }
    }
}

#[test]
fn comparisons_give_exact_values() {
    let both = |a: i32, b: i32| (Box::new(num(a)), Box::new(num(b)));
    assert_eq!(value_of(Expr::Eq(both(3, 3).0, both(3, 3).1)), Ok(1));
    assert_eq!(value_of(Expr::Eq(both(3, 4).0, both(3, 4).1)), Ok(0));
    assert_eq!(value_of(Expr::Ne(both(3, 4).0, both(3, 4).1)), Ok(1));
    assert_eq!(value_of(Expr::Ne(both(3, 3).0, both(3, 3).1)), Ok(0));
    assert_eq!(value_of(Expr::Lt(both(-1, 0).0, both(-1, 0).1)), Ok(1));
    assert_eq!(value_of(Expr::Lt(both(0, -1).0, both(0, -1).1)), Ok(0));
    assert_eq!(value_of(Expr::Le(both(2, 2).0, both(2, 2).1)), Ok(1));
    assert_eq!(value_of(Expr::Le(both(3, 2).0, both(3, 2).1)), Ok(0));
    assert_eq!(value_of(Expr::Gt(both(0, -1).0, both(0, -1).1)), Ok(1));
    assert_eq!(value_of(Expr::Gt(both(i32::MIN, i32::MAX).0, both(i32::MIN, i32::MAX).1)), Ok(0));
    assert_eq!(value_of(Expr::Ge(both(2, 2).0, both(2, 2).1)), Ok(1));
    assert_eq!(value_of(Expr::Ge(both(-3, 2).0, both(-3, 2).1)), Ok(0));
}

#[test]
fn every_comparison_is_zero_or_one() {
    for a in SAMPLES {
        for b in SAMPLES {
            let both = || (Box::new(num(a)), Box::new(num(b)));
            let exprs = [
                Expr::Eq(both().0, both().1),
                Expr::Ne(both().0, both().1),
                Expr::Lt(both().0, both().1),
                Expr::Le(both().0, both().1),
                Expr::Gt(both().0, both().1),
                Expr::Ge(both().0, both().1),
            ];
            for expr in exprs {
                let direct = evaluate(&expr);
                let compiled = value_of(expr);
                assert!(compiled == Ok(0) || compiled == Ok(1));
                assert_eq!(compiled.ok(), direct);
            }
        }
    }
}

#[test]
fn comparisons_compose_with_arithmetic() {
    let less = Expr::Lt(Box::new(num(1)), Box::new(num(2)));
    let equal = Expr::Eq(Box::new(num(1)), Box::new(num(2)));
    assert_eq!(value_of(add(less, mul(equal, num(10)))), Ok(1));
    let nested = Expr::Eq(
        Box::new(Expr::Gt(Box::new(num(5)), Box::new(num(3)))),
        Box::new(num(1)),
    );
    assert_eq!(value_of(nested), Ok(1));
}

#[test]
fn the_identity_function_returns_its_argument() {
    let function = lower(&["a"], "r", vec![assign("r", id("a"))]);
    for x in SAMPLES {
        assert_eq!(run(&function, &[x]), Ok(x));
    }
}

#[test]
fn a_function_without_statements_returns_zero() {
    assert_eq!(run(&lower(&[], "r", vec![]), &[]), Ok(0));
    assert_eq!(run(&lower(&["a", "b"], "r", vec![]), &[5, 6]), Ok(0));
    assert_eq!(run(&lower(&[], "r", vec![add(lit("1"), lit("2"))]), &[]), Ok(0));
}

#[test]
fn a_conditional_returns_one_for_nonzero_and_two_for_zero() {
    let stmts = vec![Expr::IfElse(
        Box::new(id("a")),
        vec![assign("r", lit("1"))],
        vec![assign("r", lit("2"))],
    )];
    let function = lower(&["a"], "r", stmts);
    assert_eq!(run(&function, &[0]), Ok(2));
    for x in SAMPLES {
        if x != 0 {
            assert_eq!(run(&function, &[x]), Ok(1));
        }
    }
}

#[test]
fn a_conditional_has_the_value_of_the_body_that_ran() {
    let value = |a: i32| {
        let stmts = vec![assign(
            "r",
            Expr::IfElse(
                Box::new(id("a")),
                vec![lit("5"), lit("10")],
                vec![lit("20")],
            ),
        )];
        run(&lower(&["a"], "r", stmts), &[a])
    };
    assert_eq!(value(1), Ok(10));
    assert_eq!(value(0), Ok(20));
    let empty = |a: i32| {
        let stmts = vec![
            assign("r", lit("9")),
            assign("r", Expr::IfElse(Box::new(id("a")), vec![], vec![lit("3")])),
        ];
        run(&lower(&["a"], "r", stmts), &[a])
    };
    assert_eq!(empty(1), Ok(0));
    assert_eq!(empty(0), Ok(3));
}

#[test]
fn a_loop_counts_its_argument_down() {
    let stmts = vec![
        assign("r", lit("0")),
        Expr::WhileLoop(
            Box::new(id("a")),
            vec![assign("r", add(id("r"), lit("1"))), assign("a", sub(id("a"), lit("1")))],
        ),
    ];
    let function = lower(&["a"], "r", stmts);
    for n in [0, 1, 2, 3, 10, 100, 1000] {
        assert_eq!(run(&function, &[n]), Ok(n));
    }
}

#[test]
fn a_loop_with_a_zero_condition_does_not_run_its_body() {
    let stmts = vec![
        assign("r", lit("0")),
        Expr::WhileLoop(Box::new(id("a")), vec![assign("r", div(lit("1"), lit("0")))]),
    ];
    let function = lower(&["a"], "r", stmts);
    assert_eq!(run(&function, &[0]), Ok(0));
    assert_eq!(run(&function, &[1]), Err(Trap::DivisionByZero));
}

#[test]
fn a_loop_that_never_ends_runs_out_of_steps() {
    let function = lower(&[], "r", vec![Expr::WhileLoop(Box::new(lit("1")), vec![])]);
    assert_eq!(run(&function, &[]), Err(Trap::OutOfSteps));
}

#[test]
fn an_assignment_in_a_condition_is_seen_by_the_body() {
    let stmts = vec![
        assign("n", id("a")),
        Expr::WhileLoop(
            Box::new(assign("n", sub(id("n"), lit("1")))),
            vec![assign("r", add(id("r"), lit("2")))],
        ),
    ];
    let function = lower(&["a"], "r", stmts);
    assert_eq!(run(&function, &[4]), Ok(6));
    assert_eq!(run(&function, &[1]), Ok(0));
}

#[test]
fn nested_control_flow_computes_a_product() {
    let inner = Expr::WhileLoop(
        Box::new(id("j")),
        vec![assign("r", add(id("r"), lit("1"))), assign("j", sub(id("j"), lit("1")))],
    );
    let stmts = vec![Expr::WhileLoop(
        Box::new(id("a")),
        vec![
            assign("j", id("b")),
            Expr::IfElse(Box::new(Expr::Gt(Box::new(id("b")), Box::new(lit("0")))), vec![inner], vec![]),
            assign("a", sub(id("a"), lit("1"))),
        ],
    )];
    let function = lower(&["a", "b"], "r", stmts);
    assert_eq!(run(&function, &[3, 4]), Ok(12));
    assert_eq!(run(&function, &[0, 4]), Ok(0));
    assert_eq!(run(&function, &[5, 0]), Ok(0));
    assert_eq!(run(&function, &[7, 6]), Ok(42));
}

#[test]
fn a_call_passes_its_arguments_in_order_and_has_the_result() {
    let stmts = vec![assign(
        "r",
        add(
            Expr::Call("first".to_string(), vec![id("a"), lit("10")]),
            Expr::Call("second".to_string(), vec![sub(id("a"), lit("1"))]),
        ),
    )];
    let function = lower(&["a"], "r", stmts);
    let callees = |func: usize, args: &[i32]| match func {
        0 => args[0] * 100 + args[1],
        _ => -args[0],
    };
    assert_eq!(run_with(&function, &[7], &callees), Ok(710 - 6));
}

#[test]
fn a_parameter_named_twice_holds_the_later_argument() {
    let function = lower(&["a", "a"], "r", vec![assign("r", id("a"))]);
    assert_eq!(run(&function, &[1, 2]), Ok(2));
}

#[test]
fn a_result_named_like_a_parameter_starts_at_zero() {
    let function = lower(&["r"], "r", vec![]);
    assert_eq!(run(&function, &[5]), Ok(0));
}
