use toy_jit::ast::Expr;
use toy_jit::builder::FunctionIR;
use toy_jit::ir::{
    BinaryOp, Block, FuncId, FuncRef, IntCC, Linkage, Op, Signature, Type, Value, Variable,
};
use toy_jit::jit::JIT;
use toy_jit::translate::TranslateError;

fn lit(text: &str) -> Expr {
    Expr::Literal(text.to_string())
}

fn id(name: &str) -> Expr {
    Expr::Identifier(name.to_string())
}

fn assign(name: &str, value: Expr) -> Expr {
    Expr::Assign(name.to_string(), Box::new(value))
}

fn add(lhs: Expr, rhs: Expr) -> Expr {
    Expr::Add(Box::new(lhs), Box::new(rhs))
}

fn sub(lhs: Expr, rhs: Expr) -> Expr {
    Expr::Sub(Box::new(lhs), Box::new(rhs))
}

fn call(name: &str, args: Vec<Expr>) -> Expr {
    Expr::Call(name.to_string(), args)
}

fn names(list: &[&str]) -> Vec<String> {
    list.iter().map(|s| s.to_string()).collect()
}

fn lower(params: &[&str], the_return: &str, stmts: Vec<Expr>) -> Result<FunctionIR, TranslateError> {
    JIT::new().translate(names(params), the_return.to_string(), stmts)
}

/// The steps after the prologue of a function without parameters whose
/// result is named `r`, and without the two steps of the return.
fn body_of(stmts: Vec<Expr>) -> Vec<Op> {
    let function = lower(&[], "r", stmts).unwrap();
    let ops = function.ops;
    assert_eq!(
        ops[..5],
        [
            Op::CreateBlock,
            Op::SwitchToBlock(Block(0)),
            Op::Iconst(0),
            Op::DeclareVar(Variable(0), Type::I32),
            Op::DefVar(Variable(0), Value(0)),
        ]
    );
    let mut rest: Vec<Op> = ops.into_iter().skip(5).collect();
    while let Some(Op::DeclareVar(_, _)) = rest.first() {
        rest.remove(0);
    }
    assert_eq!(rest.remove(0), Op::SealBlock(Block(0)));
    let ret = rest.pop().unwrap();
    let read = rest.pop().unwrap();
    assert_eq!(read, Op::UseVar(Variable(0)));
    assert!(matches!(ret, Op::Return(_)));
    rest
}

/// Every jump and branch to a block stands before the block's seal, every
/// block is sealed once, and the count of its predecessors at its seal is
/// the count at the end.
fn seals_are_complete(ops: &[Op]) -> bool {
    let blocks = ops.iter().filter(|op| matches!(op, Op::CreateBlock)).count();
    for block in 0..blocks {
        let target = Block(block);
        let enters = |op: &Op| match op {
            Op::Jump(b, _) => *b == target,
            Op::Brz(_, b, _) => *b == target,
            _ => false,
        };
        let seals: Vec<usize> = ops
            .iter()
            .enumerate()
            .filter(|(_, op)| **op == Op::SealBlock(target))
            .map(|(at, _)| at)
            .collect();
        if seals.len() != 1 {
            return false;
        }
        let before = ops[..seals[0]].iter().filter(|op| enters(op)).count();
        let all = ops.iter().filter(|op| enters(op)).count();
        if before != all {
            return false;
        }
    }
    true
}

#[test]
fn an_empty_function_returns_its_zeroed_result() {
    let function = lower(&[], "r", vec![]).unwrap();
    assert!(function.signature.same_as(&Signature::integers(0)));
    assert_eq!(
        function.ops,
        vec![
            Op::CreateBlock,
            Op::SwitchToBlock(Block(0)),
            Op::Iconst(0),
            Op::DeclareVar(Variable(0), Type::I32),
            Op::DefVar(Variable(0), Value(0)),
            Op::SealBlock(Block(0)),
            Op::UseVar(Variable(0)),
            Op::Return(vec![Value(1)]),
        ]
    );
}

#[test]
fn the_identity_function_binds_its_parameter_to_its_result() {
    let function = lower(&["a"], "r", vec![assign("r", id("a"))]).unwrap();
    assert!(function.signature.same_as(&Signature::integers(1)));
    assert_eq!(
        function.ops,
        vec![
            Op::CreateBlock,
            Op::AppendBlockParam(Block(0), Type::I32),
            Op::SwitchToBlock(Block(0)),
            Op::DeclareVar(Variable(0), Type::I32),
            Op::DefVar(Variable(0), Value(0)),
            Op::Iconst(0),
            Op::DeclareVar(Variable(1), Type::I32),
            Op::DefVar(Variable(1), Value(1)),
            Op::SealBlock(Block(0)),
            Op::UseVar(Variable(0)),
            Op::DefVar(Variable(1), Value(2)),
            Op::UseVar(Variable(1)),
            Op::Return(vec![Value(3)]),
        ]
    );
}

#[test]
fn a_function_has_one_integer_parameter_for_each_name() {
    let function = lower(&["a", "b", "c"], "r", vec![]).unwrap();
    assert_eq!(function.signature.params, vec![Type::I32, Type::I32, Type::I32]);
    assert_eq!(function.signature.results, vec![Type::I32]);
    assert_eq!(
        function.ops[..5],
        [
            Op::CreateBlock,
            Op::AppendBlockParam(Block(0), Type::I32),
            Op::AppendBlockParam(Block(0), Type::I32),
            Op::AppendBlockParam(Block(0), Type::I32),
            Op::SwitchToBlock(Block(0)),
        ]
    );
}

#[test]
fn operands_are_lowered_left_before_right() {
    let body = body_of(vec![sub(lit("7"), add(lit("1"), lit("2")))]);
    assert_eq!(
        body,
        vec![
            Op::Iconst(7),
            Op::Iconst(1),
            Op::Iconst(2),
            Op::Binary(BinaryOp::Iadd, Value(2), Value(3)),
            Op::Binary(BinaryOp::Isub, Value(1), Value(4)),
        ]
    );
}

#[test]
fn each_arithmetic_operator_has_its_instruction() {
    let both = || (Box::new(lit("6")), Box::new(lit("3")));
    let cases = [
        (Expr::Add(both().0, both().1), BinaryOp::Iadd),
        (Expr::Sub(both().0, both().1), BinaryOp::Isub),
        (Expr::Mul(both().0, both().1), BinaryOp::Imul),
        (Expr::Div(both().0, both().1), BinaryOp::Udiv),
    ];
    for (expr, op) in cases {
        assert_eq!(
            body_of(vec![expr]),
            vec![Op::Iconst(6), Op::Iconst(3), Op::Binary(op, Value(1), Value(2))]
        );
    }
}

#[test]
fn each_comparison_is_a_signed_condition_widened_to_an_integer() {
    let both = || (Box::new(lit("6")), Box::new(lit("3")));
    let cases = [
        (Expr::Eq(both().0, both().1), IntCC::Equal),
        (Expr::Ne(both().0, both().1), IntCC::NotEqual),
        (Expr::Lt(both().0, both().1), IntCC::SignedLessThan),
        (Expr::Le(both().0, both().1), IntCC::SignedLessThanOrEqual),
        (Expr::Gt(both().0, both().1), IntCC::SignedGreaterThan),
        (Expr::Ge(both().0, both().1), IntCC::SignedGreaterThanOrEqual),
    ];
    for (expr, cc) in cases {
        assert_eq!(
            body_of(vec![expr]),
            vec![
                Op::Iconst(6),
                Op::Iconst(3),
                Op::Compare(cc, Value(1), Value(2)),
                Op::Bint(Value(3)),
            ]
        );
    }
}

#[test]
fn an_assignment_lowers_its_value_first_and_has_that_value() {
    let body = body_of(vec![assign("x", add(assign("r", lit("5")), lit("1")))]);
    assert_eq!(
        body,
        vec![
            Op::Iconst(5),
            Op::DefVar(Variable(0), Value(1)),
            Op::Iconst(1),
            Op::Binary(BinaryOp::Iadd, Value(1), Value(2)),
            Op::DefVar(Variable(1), Value(3)),
        ]
    );
}

#[test]
fn a_conditional_merges_the_values_of_its_bodies() {
    let body = body_of(vec![Expr::IfElse(
        Box::new(lit("1")),
        vec![lit("10"), lit("11")],
        vec![lit("20")],
    )]);
    assert_eq!(
        body,
        vec![
            Op::Iconst(1),
            Op::CreateBlock,
            Op::CreateBlock,
            Op::AppendBlockParam(Block(2), Type::I32),
            Op::Brz(Value(1), Block(1), vec![]),
            Op::Iconst(0),
            Op::Iconst(10),
            Op::Iconst(11),
            Op::Jump(Block(2), vec![Value(5)]),
            Op::SwitchToBlock(Block(1)),
            Op::SealBlock(Block(1)),
            Op::Iconst(0),
            Op::Iconst(20),
            Op::Jump(Block(2), vec![Value(7)]),
            Op::SwitchToBlock(Block(2)),
            Op::SealBlock(Block(2)),
        ]
    );
}

#[test]
fn an_empty_body_of_a_conditional_has_the_value_zero() {
    let body = body_of(vec![Expr::IfElse(Box::new(lit("1")), vec![], vec![])]);
    assert_eq!(
        body,
        vec![
            Op::Iconst(1),
            Op::CreateBlock,
            Op::CreateBlock,
            Op::AppendBlockParam(Block(2), Type::I32),
            Op::Brz(Value(1), Block(1), vec![]),
            Op::Iconst(0),
            Op::Jump(Block(2), vec![Value(3)]),
            Op::SwitchToBlock(Block(1)),
            Op::SealBlock(Block(1)),
            Op::Iconst(0),
            Op::Jump(Block(2), vec![Value(4)]),
            Op::SwitchToBlock(Block(2)),
            Op::SealBlock(Block(2)),
        ]
    );
}

#[test]
fn the_value_of_a_conditional_is_the_parameter_of_its_merge_block() {
    let body = body_of(vec![add(
        Expr::IfElse(Box::new(lit("1")), vec![lit("2")], vec![lit("3")]),
        lit("4"),
    )]);
    assert_eq!(
        body[body.len() - 2..],
        [Op::Iconst(4), Op::Binary(BinaryOp::Iadd, Value(2), Value(7))]
    );
}

#[test]
fn a_loop_seals_its_header_only_after_the_jump_back() {
    let body = body_of(vec![Expr::WhileLoop(Box::new(lit("1")), vec![lit("5")])]);
    assert_eq!(
        body,
        vec![
            Op::CreateBlock,
            Op::CreateBlock,
            Op::Jump(Block(1), vec![]),
            Op::SwitchToBlock(Block(1)),
            Op::Iconst(1),
            Op::Brz(Value(1), Block(2), vec![]),
            Op::Iconst(5),
            Op::Jump(Block(1), vec![]),
            Op::SwitchToBlock(Block(2)),
            Op::SealBlock(Block(1)),
            Op::SealBlock(Block(2)),
            Op::Iconst(0),
        ]
    );
}

#[test]
fn the_value_of_a_loop_is_zero() {
    let body = body_of(vec![assign("r", Expr::WhileLoop(Box::new(lit("0")), vec![]))]);
    assert_eq!(body[body.len() - 2..], [Op::Iconst(0), Op::DefVar(Variable(0), Value(2))]);
}

#[test]
fn a_call_declares_imports_lowers_its_arguments_and_calls() {
    let mut jit = JIT::new();
    let function = jit
        .translate(names(&[]), "r".to_string(), vec![call("f", vec![lit("1"), lit("2")])])
        .unwrap();
    assert_eq!(
        function.ops[6..10],
        [
            Op::ImportFunction(FuncId(0), Signature::integers(2)),
            Op::Iconst(1),
            Op::Iconst(2),
            Op::Call(FuncRef(0), vec![Value(1), Value(2)]),
        ]
    );
    assert_eq!(jit.module().len(), 1);
    assert_eq!(jit.module().declaration(FuncId(0)).name, "f");
    assert_eq!(jit.module().declaration(FuncId(0)).linkage, Linkage::Export);
    assert!(jit.module().declaration(FuncId(0)).signature.same_as(&Signature::integers(2)));
}

#[test]
fn calling_a_callee_twice_declares_it_once_and_imports_it_twice() {
    let mut jit = JIT::new();
    let function = jit
        .translate(
            names(&[]),
            "r".to_string(),
            vec![call("f", vec![lit("1")]), call("g", vec![]), call("f", vec![lit("2")])],
        )
        .unwrap();
    assert_eq!(
        function.ops[6..14],
        [
            Op::ImportFunction(FuncId(0), Signature::integers(1)),
            Op::Iconst(1),
            Op::Call(FuncRef(0), vec![Value(1)]),
            Op::ImportFunction(FuncId(1), Signature::integers(0)),
            Op::Call(FuncRef(1), vec![]),
            Op::ImportFunction(FuncId(0), Signature::integers(1)),
            Op::Iconst(2),
            Op::Call(FuncRef(2), vec![Value(4)]),
        ]
    );
    assert_eq!(jit.module().len(), 2);
}

#[test]
fn a_call_with_another_number_of_arguments_is_a_conflict() {
    let mut jit = JIT::new();
    let outcome = jit.translate(
        names(&[]),
        "r".to_string(),
        vec![call("f", vec![lit("1")]), call("f", vec![lit("1"), lit("2")])],
    );
    assert_eq!(outcome, Err(TranslateError::IncompatibleDeclaration("f".to_string())));
    assert_eq!(jit.module().len(), 1);
}

#[test]
fn a_malformed_literal_fails_the_lowering() {
    for text in ["", "abc", "12x", "2147483648", "-2147483649", "1.0"] {
        assert_eq!(
            lower(&[], "r", vec![assign("r", lit(text))]),
            Err(TranslateError::MalformedLiteral(text.to_string()))
        );
    }
}

#[test]
fn reading_an_undeclared_name_fails_the_lowering() {
    assert_eq!(
        lower(&["a"], "r", vec![assign("r", id("b"))]),
        Err(TranslateError::UndeclaredIdentifier("b".to_string()))
    );
    assert_eq!(
        lower(&[], "r", vec![id("x")]),
        Err(TranslateError::UndeclaredIdentifier("x".to_string()))
    );
    let nested = Expr::WhileLoop(
        Box::new(lit("1")),
        vec![Expr::IfElse(Box::new(lit("1")), vec![], vec![call("f", vec![id("deep")])])],
    );
    assert_eq!(
        lower(&[], "r", vec![nested]),
        Err(TranslateError::UndeclaredIdentifier("deep".to_string()))
    );
}

#[test]
fn a_name_assigned_later_can_be_read_earlier() {
    assert!(lower(&[], "r", vec![assign("r", id("x")), assign("x", lit("1"))]).is_ok());
}

#[test]
fn an_assignment_lowers_wherever_it_stands() {
    let in_condition = Expr::WhileLoop(Box::new(assign("n", lit("0"))), vec![]);
    let body = body_of(vec![in_condition]);
    assert_eq!(
        body[4..7],
        [Op::Iconst(0), Op::DefVar(Variable(1), Value(1)), Op::Brz(Value(1), Block(2), vec![])]
    );
    let in_operand = add(assign("m", lit("1")), lit("2"));
    assert_eq!(
        body_of(vec![in_operand]),
        vec![
            Op::Iconst(1),
            Op::DefVar(Variable(1), Value(1)),
            Op::Iconst(2),
            Op::Binary(BinaryOp::Iadd, Value(1), Value(2)),
        ]
    );
    let in_argument = call("f", vec![assign("p", lit("7"))]);
    assert!(lower(&[], "r", vec![in_argument]).is_ok());
    let in_assignment = assign("x", assign("y", lit("1")));
    assert_eq!(
        body_of(vec![in_assignment]),
        vec![
            Op::Iconst(1),
            Op::DefVar(Variable(2), Value(1)),
            Op::DefVar(Variable(1), Value(1)),
        ]
    );
}

#[test]
fn no_assignment_fails_for_its_target() {
    let everywhere = vec![
        Expr::IfElse(
            Box::new(assign("c", lit("1"))),
            vec![add(assign("t", lit("1")), assign("u", lit("2")))],
            vec![call("f", vec![assign("e", assign("g", lit("3")))])],
        ),
        Expr::WhileLoop(
            Box::new(Expr::Ne(Box::new(assign("w", lit("0"))), Box::new(lit("0")))),
            vec![assign("b", id("w"))],
        ),
    ];
    assert!(lower(&[], "r", everywhere).is_ok());
}

#[test]
fn the_first_failure_in_order_is_the_one_reported() {
    assert_eq!(
        lower(&[], "r", vec![add(lit("x"), id("y"))]),
        Err(TranslateError::MalformedLiteral("x".to_string()))
    );
    assert_eq!(
        lower(&[], "r", vec![add(id("y"), lit("x"))]),
        Err(TranslateError::UndeclaredIdentifier("y".to_string()))
    );
    assert_eq!(
        lower(&[], "r", vec![assign("q", lit("bad"))]),
        Err(TranslateError::MalformedLiteral("bad".to_string()))
    );
    assert_eq!(
        lower(&[], "r", vec![call("f", vec![]), call("f", vec![lit("bad")])]),
        Err(TranslateError::IncompatibleDeclaration("f".to_string()))
    );
}

#[test]
fn blocks_of_a_conditional_are_sealed_after_their_predecessors() {
    let stmts = vec![Expr::IfElse(
        Box::new(id("a")),
        vec![assign("r", lit("1"))],
        vec![assign("r", lit("2"))],
    )];
    let function = lower(&["a"], "r", stmts).unwrap();
    assert!(seals_are_complete(&function.ops));
    let at = |op: Op| function.ops.iter().position(|o| *o == op).unwrap();
    let last_jump = function
        .ops
        .iter()
        .rposition(|op| matches!(op, Op::Jump(Block(2), _)))
        .unwrap();
    assert!(at(Op::SealBlock(Block(2))) > last_jump);
    assert!(at(Op::SealBlock(Block(1))) > at(Op::Brz(Value(2), Block(1), vec![])));
    assert_eq!(function.ops.iter().filter(|op| matches!(op, Op::Jump(Block(2), _))).count(), 2);
}

#[test]
fn blocks_of_a_loop_are_sealed_after_their_predecessors() {
    let stmts = vec![
        assign("r", lit("0")),
        Expr::WhileLoop(
            Box::new(id("a")),
            vec![assign("r", add(id("r"), lit("1"))), assign("a", sub(id("a"), lit("1")))],
        ),
    ];
    let function = lower(&["a"], "r", stmts).unwrap();
    assert!(seals_are_complete(&function.ops));
    let at = |op: Op| function.ops.iter().position(|o| *o == op).unwrap();
    let back = function.ops.iter().rposition(|op| *op == Op::Jump(Block(1), vec![])).unwrap();
    let first = function.ops.iter().position(|op| *op == Op::Jump(Block(1), vec![])).unwrap();
    assert!(first < back);
    assert!(at(Op::SealBlock(Block(1))) > back);
    assert!(at(Op::SealBlock(Block(2))) > back);
}

#[test]
fn nested_control_flow_is_sealed_after_its_predecessors() {
    let inner_loop = Expr::WhileLoop(
        Box::new(id("a")),
        vec![Expr::IfElse(
            Box::new(id("a")),
            vec![assign("a", sub(id("a"), lit("1")))],
            vec![Expr::WhileLoop(Box::new(lit("0")), vec![])],
        )],
    );
    let stmts = vec![Expr::IfElse(
        Box::new(Expr::IfElse(Box::new(id("a")), vec![lit("1")], vec![lit("0")])),
        vec![inner_loop],
        vec![],
    )];
    let function = lower(&["a"], "r", stmts).unwrap();
    assert!(seals_are_complete(&function.ops));
    let blocks = function.ops.iter().filter(|op| matches!(op, Op::CreateBlock)).count();
    assert_eq!(blocks, 11);
}

#[test]
fn a_seal_before_a_jump_is_noticed() {
    let ops = vec![
        Op::CreateBlock,
        Op::CreateBlock,
        Op::SealBlock(Block(0)),
        Op::SealBlock(Block(1)),
        Op::SwitchToBlock(Block(0)),
        Op::Jump(Block(1), vec![]),
    ];
    assert!(!seals_are_complete(&ops));
}

#[test]
fn compiling_declares_the_function_for_export() {
    let mut jit = JIT::new();
    let compiled = jit
        .compile("double", names(&["a"]), "r".to_string(), vec![assign("r", add(id("a"), id("a")))])
        .unwrap();
    assert_eq!(compiled.id, FuncId(0));
    assert!(compiled.function.signature.same_as(&Signature::integers(1)));
    assert_eq!(jit.module().len(), 1);
    assert_eq!(jit.module().declaration(FuncId(0)).name, "double");
    assert_eq!(jit.module().declaration(FuncId(0)).linkage, Linkage::Export);
    assert!(jit.module().declaration(FuncId(0)).signature.same_as(&Signature::integers(1)));
    let lowered = lower(&["a"], "r", vec![assign("r", add(id("a"), id("a")))]).unwrap();
    assert_eq!(compiled.function, lowered);
}

#[test]
fn a_function_is_declared_after_its_callees() {
    let mut jit = JIT::new();
    let compiled = jit
        .compile("main", names(&[]), "r".to_string(), vec![assign("r", call("helper", vec![lit("1")]))])
        .unwrap();
    assert_eq!(compiled.id, FuncId(1));
    assert_eq!(jit.module().declaration(FuncId(0)).name, "helper");
    assert_eq!(jit.module().declaration(FuncId(1)).name, "main");
    let helper = jit
        .compile("helper", names(&["x"]), "r".to_string(), vec![assign("r", id("x"))])
        .unwrap();
    assert_eq!(helper.id, FuncId(0));
    assert_eq!(jit.module().len(), 2);
}

#[test]
fn a_function_called_with_another_arity_cannot_be_compiled_under_its_name() {
    let mut jit = JIT::new();
    jit.compile("main", names(&[]), "r".to_string(), vec![call("helper", vec![lit("1")])])
        .unwrap();
    let outcome = jit.compile("helper", names(&["x", "y"]), "r".to_string(), vec![]);
    assert_eq!(
        outcome.map(|c| c.id),
        Err(TranslateError::IncompatibleDeclaration("helper".to_string()))
    );
    assert_eq!(jit.module().len(), 2);
}

#[test]
fn a_recursive_call_with_the_functions_own_arity_is_no_conflict() {
    let mut jit = JIT::new();
    let compiled = jit
        .compile("f", names(&["a"]), "r".to_string(), vec![assign("r", call("f", vec![id("a")]))])
        .unwrap();
    assert_eq!(compiled.id, FuncId(0));
    assert_eq!(jit.module().len(), 1);
}

#[test]
fn a_failed_compile_declares_no_function_of_its_name() {
    let mut jit = JIT::new();
    let outcome = jit.compile(
        "broken",
        names(&[]),
        "r".to_string(),
        vec![call("seen", vec![]), assign("r", id("missing"))],
    );
    assert_eq!(
        outcome.map(|c| c.id),
        Err(TranslateError::UndeclaredIdentifier("missing".to_string()))
    );
    assert_eq!(jit.module().len(), 1);
    assert_eq!(jit.module().declaration(FuncId(0)).name, "seen");
}
