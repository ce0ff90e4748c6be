use toy_jit::ast::Expr;
use toy_jit::builder::FunctionBuilder;
use toy_jit::ir::{Block, FuncId, Linkage, Op, Signature, Type, Value, Variable};
use toy_jit::module::{Module, ModuleError};
use toy_jit::variables::{
    declare_variable, declare_variables, declare_variables_in_stmt, VariableTable,
};

fn lit(text: &str) -> Expr {
    Expr::Literal(text.to_string())
}

fn id(name: &str) -> Expr {
    Expr::Identifier(name.to_string())
}

fn assign(name: &str, value: Expr) -> Expr {
    Expr::Assign(name.to_string(), Box::new(value))
}

fn names(list: &[&str]) -> Vec<String> {
    list.iter().map(|s| s.to_string()).collect()
}

/// A builder that stands in an entry block with `arity` parameters.
fn entered(arity: usize) -> (FunctionBuilder, Block) {
    let mut builder = FunctionBuilder::new(Signature::integers(arity));
    let entry = builder.create_block();
    for _ in 0..arity {
        builder.append_block_param(entry, Type::I32);
    }
    builder.switch_to_block(entry);
    (builder, entry)
}

fn table_of(params: &[&str], the_return: &str, stmts: Vec<Expr>) -> (VariableTable, Vec<Op>) {
    let (mut builder, entry) = entered(params.len());
    let table = declare_variables(&mut builder, &names(params), the_return, &stmts, entry);
    builder.seal_block(entry);
    let value = builder.use_var(table.get(the_return).unwrap());
    builder.ins_return(vec![value]);
    (table, builder.finalize().ops)
}

#[test]
fn the_signature_of_the_language_has_integers_only() {
    let signature = Signature::integers(3);
    assert_eq!(signature.params, vec![Type::I32, Type::I32, Type::I32]);
    assert_eq!(signature.results, vec![Type::I32]);
    assert_eq!(Signature::integers(0).params, vec![]);
    assert_eq!(Signature::integers(0).results, vec![Type::I32]);
}

#[test]
fn signatures_are_copied_and_compared_by_their_types() {
    let two = Signature::integers(2);
    assert!(two.same_as(&two.copy()));
    assert!(two.same_as(&Signature::integers(2)));
    assert!(!two.same_as(&Signature::integers(1)));
    assert!(!two.same_as(&Signature::integers(3)));
    let odd = Signature { params: vec![Type::I32, Type::B1], results: vec![Type::I32] };
    assert!(!two.same_as(&odd));
    assert!(odd.same_as(&odd.copy()));
    let none = Signature { params: vec![Type::I32, Type::I32], results: vec![] };
    assert!(!two.same_as(&none));
}

#[test]
fn parameters_come_first_then_the_result_then_assignments() {
    let stmts = vec![assign("x", lit("1")), assign("y", id("x"))];
    let (table, _) = table_of(&["a", "b"], "r", stmts);
    assert_eq!(table.len(), 5);
    assert_eq!(table.get("a"), Some(Variable(0)));
    assert_eq!(table.get("b"), Some(Variable(1)));
    assert_eq!(table.get("r"), Some(Variable(2)));
    assert_eq!(table.get("x"), Some(Variable(3)));
    assert_eq!(table.get("y"), Some(Variable(4)));
    assert_eq!(table.get("z"), None);
}

#[test]
fn a_name_met_again_keeps_its_variable() {
    let stmts = vec![
        assign("a", lit("1")),
        assign("x", lit("2")),
        assign("r", lit("3")),
        assign("x", lit("4")),
    ];
    let (table, _) = table_of(&["a"], "r", stmts);
    assert_eq!(table.len(), 3);
    assert_eq!(table.get("a"), Some(Variable(0)));
    assert_eq!(table.get("r"), Some(Variable(1)));
    assert_eq!(table.get("x"), Some(Variable(2)));
}

#[test]
fn the_bodies_of_conditionals_and_loops_are_searched() {
    let stmts = vec![
        Expr::IfElse(
            Box::new(id("a")),
            vec![assign("t", lit("1"))],
            vec![Expr::WhileLoop(Box::new(id("a")), vec![assign("w", lit("2"))])],
        ),
        Expr::WhileLoop(
            Box::new(id("a")),
            vec![Expr::IfElse(Box::new(id("a")), vec![], vec![assign("e", lit("3"))])],
        ),
    ];
    let (table, _) = table_of(&["a"], "r", stmts);
    assert_eq!(table.len(), 5);
    assert_eq!(table.get("t"), Some(Variable(2)));
    assert_eq!(table.get("w"), Some(Variable(3)));
    assert_eq!(table.get("e"), Some(Variable(4)));
}

#[test]
fn conditions_operands_and_arguments_are_searched() {
    let stmts = vec![
        Expr::IfElse(Box::new(assign("c", lit("1"))), vec![], vec![]),
        Expr::WhileLoop(Box::new(assign("d", lit("1"))), vec![]),
        Expr::Add(Box::new(assign("o", lit("1"))), Box::new(lit("2"))),
        Expr::Call("f".to_string(), vec![assign("g", lit("1"))]),
        assign("x", assign("inner", lit("1"))),
    ];
    let (table, _) = table_of(&[], "r", stmts);
    assert_eq!(table.len(), 7);
    assert_eq!(table.get("r"), Some(Variable(0)));
    assert_eq!(table.get("c"), Some(Variable(1)));
    assert_eq!(table.get("d"), Some(Variable(2)));
    assert_eq!(table.get("o"), Some(Variable(3)));
    assert_eq!(table.get("g"), Some(Variable(4)));
    assert_eq!(table.get("x"), Some(Variable(5)));
    assert_eq!(table.get("inner"), Some(Variable(6)));
    assert_eq!(table.get("f"), None);
}

#[test]
fn an_assignment_in_an_operand_is_declared() {
    let stmts = vec![Expr::Add(Box::new(assign("x", lit("1"))), Box::new(lit("2")))];
    let (table, _) = table_of(&[], "r", stmts);
    assert_eq!(table.len(), 2);
    assert_eq!(table.get("r"), Some(Variable(0)));
    assert_eq!(table.get("x"), Some(Variable(1)));
}

#[test]
fn the_walk_visits_an_expression_before_what_is_inside_it_and_left_before_right() {
    let stmts = vec![
        assign(
            "outer",
            Expr::Sub(
                Box::new(assign("left", assign("deep", lit("1")))),
                Box::new(assign("right", lit("2"))),
            ),
        ),
        Expr::IfElse(
            Box::new(Expr::Lt(Box::new(assign("test", lit("0"))), Box::new(id("left")))),
            vec![assign("then", lit("1"))],
            vec![Expr::Call("f".to_string(), vec![assign("first", lit("1")), assign("second", lit("2"))])],
        ),
        assign("deep", lit("3")),
    ];
    let (table, _) = table_of(&["a"], "r", stmts);
    let order = ["a", "r", "outer", "left", "deep", "right", "test", "then", "first", "second"];
    assert_eq!(table.len(), order.len());
    for (index, name) in order.iter().enumerate() {
        assert_eq!(table.get(name), Some(Variable(index)));
    }
}

#[test]
fn names_that_are_only_read_are_not_declared() {
    let stmts = vec![
        assign("x", id("seen")),
        Expr::WhileLoop(Box::new(id("cond")), vec![Expr::Call("f".to_string(), vec![id("arg")])]),
    ];
    let (table, _) = table_of(&[], "r", stmts);
    assert_eq!(table.len(), 2);
    assert_eq!(table.get("seen"), None);
    assert_eq!(table.get("cond"), None);
    assert_eq!(table.get("arg"), None);
}

#[test]
fn the_pass_binds_parameters_and_zeroes_the_result() {
    let (_, ops) = table_of(&["a", "b"], "r", vec![assign("x", lit("1"))]);
    assert_eq!(
        ops,
        vec![
            Op::CreateBlock,
            Op::AppendBlockParam(Block(0), Type::I32),
            Op::AppendBlockParam(Block(0), Type::I32),
            Op::SwitchToBlock(Block(0)),
            Op::DeclareVar(Variable(0), Type::I32),
            Op::DefVar(Variable(0), Value(0)),
            Op::DeclareVar(Variable(1), Type::I32),
            Op::DefVar(Variable(1), Value(1)),
            Op::Iconst(0),
            Op::DeclareVar(Variable(2), Type::I32),
            Op::DefVar(Variable(2), Value(2)),
            Op::DeclareVar(Variable(3), Type::I32),
            Op::SealBlock(Block(0)),
            Op::UseVar(Variable(2)),
            Op::Return(vec![Value(3)]),
        ]
    );
}

#[test]
fn a_parameter_named_twice_is_one_variable_bound_twice() {
    let (table, ops) = table_of(&["a", "a"], "r", vec![]);
    assert_eq!(table.len(), 2);
    assert_eq!(table.get("a"), Some(Variable(0)));
    assert_eq!(table.get("r"), Some(Variable(1)));
    assert_eq!(
        ops[4..7],
        [
            Op::DeclareVar(Variable(0), Type::I32),
            Op::DefVar(Variable(0), Value(0)),
            Op::DefVar(Variable(0), Value(1)),
        ]
    );
}

#[test]
fn a_result_named_like_a_parameter_shares_its_variable() {
    let (table, ops) = table_of(&["r"], "r", vec![]);
    assert_eq!(table.len(), 1);
    assert_eq!(table.get("r"), Some(Variable(0)));
    assert_eq!(
        ops[3..7],
        [
            Op::DeclareVar(Variable(0), Type::I32),
            Op::DefVar(Variable(0), Value(0)),
            Op::Iconst(0),
            Op::DefVar(Variable(0), Value(1)),
        ]
    );
}

#[test]
fn meeting_a_name_declares_it_once() {
    let (mut builder, _) = entered(0);
    let mut table = VariableTable::new();
    assert_eq!(table.len(), 0);
    assert_eq!(declare_variable(&mut builder, &mut table, "x"), Variable(0));
    assert_eq!(declare_variable(&mut builder, &mut table, "y"), Variable(1));
    assert_eq!(declare_variable(&mut builder, &mut table, "x"), Variable(0));
    assert_eq!(table.len(), 2);
    assert_eq!(table.get("x"), Some(Variable(0)));
    assert_eq!(table.get("y"), Some(Variable(1)));
}

#[test]
fn the_pass_over_one_statement_declares_its_targets() {
    let (mut builder, _) = entered(0);
    let mut table = VariableTable::new();
    declare_variables_in_stmt(&mut builder, &mut table, &id("q"));
    assert_eq!(table.len(), 0);
    declare_variables_in_stmt(&mut builder, &mut table, &assign("q", id("p")));
    assert_eq!(table.len(), 1);
    assert_eq!(table.get("q"), Some(Variable(0)));
    assert_eq!(table.get("p"), None);
}

#[test]
fn a_new_name_is_declared_in_the_module() {
    let mut module = Module::new();
    assert_eq!(module.len(), 0);
    let f = module.declare_function("f", Linkage::Export, Signature::integers(1));
    let g = module.declare_function("g", Linkage::Import, Signature::integers(2));
    assert_eq!(f, Ok(FuncId(0)));
    assert_eq!(g, Ok(FuncId(1)));
    assert_eq!(module.len(), 2);
    assert_eq!(module.declaration(FuncId(0)).name, "f");
    assert_eq!(module.declaration(FuncId(0)).linkage, Linkage::Export);
    assert!(module.declaration(FuncId(0)).signature.same_as(&Signature::integers(1)));
    assert_eq!(module.declaration(FuncId(1)).name, "g");
    assert_eq!(module.declaration(FuncId(1)).linkage, Linkage::Import);
    assert!(module.declaration(FuncId(1)).signature.same_as(&Signature::integers(2)));
}

#[test]
fn declaring_the_same_name_and_signature_again_is_no_conflict() {
    let mut module = Module::new();
    let first = module.declare_function("callee", Linkage::Export, Signature::integers(2));
    let other = module.declare_function("other", Linkage::Export, Signature::integers(0));
    let second = module.declare_function("callee", Linkage::Export, Signature::integers(2));
    let third = module.declare_function("callee", Linkage::Export, Signature::integers(2));
    assert_eq!(first, Ok(FuncId(0)));
    assert_eq!(other, Ok(FuncId(1)));
    assert_eq!(second, Ok(FuncId(0)));
    assert_eq!(third, Ok(FuncId(0)));
    assert_eq!(module.len(), 2);
}

#[test]
fn declaring_a_name_with_another_signature_is_refused() {
    let mut module = Module::new();
    assert_eq!(
        module.declare_function("callee", Linkage::Export, Signature::integers(2)),
        Ok(FuncId(0))
    );
    assert_eq!(
        module.declare_function("callee", Linkage::Export, Signature::integers(3)),
        Err(ModuleError::IncompatibleSignature("callee".to_string()))
    );
    assert_eq!(module.len(), 1);
    assert!(module.declaration(FuncId(0)).signature.same_as(&Signature::integers(2)));
    assert_eq!(
        module.declare_function("callee", Linkage::Export, Signature::integers(2)),
        Ok(FuncId(0))
    );
}
