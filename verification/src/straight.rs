//! Functions without control flow: what their statements denote when they
//! are evaluated directly, what their code computes when it runs from the
//! first step to the last, and that the two agree.

use vstd::prelude::*;
use crate::ast::Expr;
use crate::builder::BuilderState;
use crate::ir::{integer_signature, Block, OpView, Type, Value, Variable};
use crate::literal::literal_value;
use crate::lowering::{
    arithmetic_of,
    condition_of,
    entry_params,
    lower_each,
    lower_expr,
    lower_function,
    open_function,
    Lowering,
};
use crate::module::DeclView;
use crate::names::{at, distinct, lemma_distinct_push};
use crate::semantics::{apply, execute, holds, is_binary, is_comparison, operands, widen, Datum};
use crate::variables::{
    lemma_scan_knows,
    lemma_scan_knows_from,
    targets_known,
    targets_known_from,
    bind_params,
    bind_result,
    declare_name,
    lookup,
    scan_stmt,
    scan_stmts,
    Declaring,
};

verus! {

/// Whether an expression is made of literals that denote numbers, reads of
/// variables, assignments, arithmetic and comparisons alone.
pub open spec fn is_simple(e: Expr) -> bool
    decreases e,
{
    match e {
        Expr::Literal(text) => literal_value(text@) is Some,
        Expr::Identifier(_) => true,
        Expr::Assign(_, rhs) => is_simple(*rhs),
        Expr::Add(lhs, rhs) | Expr::Sub(lhs, rhs) | Expr::Mul(lhs, rhs) | Expr::Div(lhs, rhs) => is_simple(
            *lhs,
        ) && is_simple(*rhs),
        Expr::Eq(lhs, rhs) | Expr::Ne(lhs, rhs) | Expr::Lt(lhs, rhs) | Expr::Le(lhs, rhs) | Expr::Gt(
            lhs,
            rhs,
        ) | Expr::Ge(lhs, rhs) => is_simple(*lhs) && is_simple(*rhs),
        _ => false,
    }
}

/// Whether every expression from position `i` on is simple.
pub open spec fn all_simple(exprs: Seq<Expr>, i: int) -> bool {
    forall|k: int| i <= k < exprs.len() ==> is_simple(#[trigger] exprs[k])
}

/// The variables that hold a number, by name.
pub type Env = Map<Seq<char>, i32>;

/// What a simple expression denotes where the variables hold `env`: its
/// number and what the variables hold afterwards, or nothing where a
/// division by zero is met or a variable is read that holds no number.
pub open spec fn evaluate_in(e: Expr, env: Env) -> Option<(i32, Env)>
    decreases e,
{
    match e {
        Expr::Literal(text) => match literal_value(text@) {
            Some(number) => Some((number, env)),
            None => None,
        },
        Expr::Identifier(name) => if env.dom().contains(name@) {
            Some((env[name@], env))
        } else {
            None
        },
        Expr::Assign(name, rhs) => match evaluate_in(*rhs, env) {
            Some((number, after)) => Some((number, after.insert(name@, number))),
            None => None,
        },
        Expr::Add(lhs, rhs) | Expr::Sub(lhs, rhs) | Expr::Mul(lhs, rhs) | Expr::Div(lhs, rhs) => {
            match evaluate_in(*lhs, env) {
                Some((a, mid)) => match evaluate_in(*rhs, mid) {
                    Some((b, after)) => match apply(arithmetic_of(e), a, b) {
                        Some(number) => Some((number, after)),
                        None => None,
                    },
                    None => None,
                },
                None => None,
            }
        },
        Expr::Eq(lhs, rhs) | Expr::Ne(lhs, rhs) | Expr::Lt(lhs, rhs) | Expr::Le(lhs, rhs) | Expr::Gt(
            lhs,
            rhs,
        ) | Expr::Ge(lhs, rhs) => {
            match evaluate_in(*lhs, env) {
                Some((a, mid)) => match evaluate_in(*rhs, mid) {
                    Some((b, after)) => Some((widen(holds(condition_of(e), a, b)), after)),
                    None => None,
                },
                None => None,
            }
        },
        _ => None,
    }
}

/// What the variables hold after the statements from position `i` on.
pub open spec fn evaluate_each(stmts: Seq<Expr>, i: int, env: Env) -> Option<Env>
    decreases stmts.len() - i,
{
    if 0 <= i < stmts.len() {
        match evaluate_in(stmts[i], env) {
            Some((_, after)) => evaluate_each(stmts, i + 1, after),
            None => None,
        }
    } else {
        Some(env)
    }
}

/// The variables after the parameters from position `i` on got their
/// arguments, in order.
pub open spec fn bind_arguments(params: Seq<Seq<char>>, args: Seq<i32>, i: int, env: Env) -> Env
    decreases params.len() - i,
{
    if 0 <= i < params.len() {
        bind_arguments(params, args, i + 1, env.insert(params[i], args[i]))
    } else {
        env
    }
}

/// What a call of a function of simple statements gives, evaluated
/// directly: the parameters get the arguments, the result's variable gets
/// zero, the statements are evaluated in order, and the result is what the
/// result's variable holds then.
pub open spec fn call_directly(
    params: Seq<Seq<char>>,
    the_return: Seq<char>,
    stmts: Seq<Expr>,
    args: Seq<i32>,
) -> Option<i32> {
    let start = bind_arguments(params, args, 0, Map::empty()).insert(the_return, 0);
    match evaluate_each(stmts, 0, start) {
        Some(env) => Some(env[the_return]),
        None => None,
    }
}

/// A function while its code runs.
pub struct Machine {
    /// The values computed so far, at the positions of their handles.
    pub store: Seq<Datum>,
    /// What the variables hold.
    pub cells: Map<Variable, Datum>,
    /// The arguments that no parameter has taken yet.
    pub args: Seq<i32>,
    /// What the function returned, once it has.
    pub returned: Option<i32>,
}

/// A function at the start of a call.
pub open spec fn called_with(args: Seq<i32>) -> Machine {
    Machine { store: Seq::empty(), cells: Map::empty(), args, returned: None }
}

/// Running one step of a function without control flow, in the order of
/// the listing. A parameter of the entry block takes the next argument; a
/// binding fills a variable's cell and a read takes what the cell holds;
/// computations are as `execute` has them; a return sets the result. Steps
/// that only shape the block graph do nothing. A step that traps, that
/// reads an empty cell or a missing value, or that transfers control or
/// calls has no outcome.
pub open spec fn perform(op: OpView, m: Machine) -> Option<Machine> {
    match op {
        OpView::CreateBlock => Some(m),
        OpView::SwitchToBlock(_) => Some(m),
        OpView::SealBlock(_) => Some(m),
        OpView::DeclareVar(_, _) => Some(m),
        OpView::AppendBlockParam(_, _) => if m.args.len() > 0 {
            Some(Machine { store: m.store.push(Datum::Int(m.args[0])), args: m.args.drop_first(), ..m })
        } else {
            None
        },
        OpView::DefVar(var, v) => if (v.0 as int) < m.store.len() {
            Some(Machine { cells: m.cells.insert(var, m.store[v.0 as int]), ..m })
        } else {
            None
        },
        OpView::UseVar(var) => if m.cells.dom().contains(var) {
            Some(Machine { store: m.store.push(m.cells[var]), ..m })
        } else {
            None
        },
        OpView::Return(vals) => if vals.len() == 1 && (vals[0].0 as int) < m.store.len()
            && m.store[vals[0].0 as int] is Int {
            Some(Machine { returned: Some(m.store[vals[0].0 as int]->Int_0), ..m })
        } else {
            None
        },
        OpView::Iconst(_) | OpView::Binary(_, _, _) | OpView::Compare(_, _, _) | OpView::Bint(_) => {
            match execute(op, m.store) {
                Some(store) => Some(Machine { store, ..m }),
                None => None,
            }
        },
        _ => None,
    }
}

/// Running the steps of a listing in order.
pub open spec fn perform_all(code: Seq<OpView>, m: Machine) -> Option<Machine>
    decreases code.len(),
{
    if code.len() == 0 {
        Some(m)
    } else {
        match perform_all(code.drop_last(), m) {
            Some(before) => perform(code.last(), before),
            None => None,
        }
    }
}

/// Running a listing with one more step is running the listing and then
/// the step.
proof fn lemma_perform_push(code: Seq<OpView>, op: OpView, m: Machine)
    ensures
        perform_all(code.push(op), m) == match perform_all(code, m) {
            Some(before) => perform(op, before),
            None => None,
        },
{
    assert(code.push(op).drop_last() =~= code);
    assert(code.push(op).last() == op);
}

/// The cells hold what the variables hold: a name of the table holds a
/// number exactly where its variable's cell holds the same number; no other
/// name holds a number, and no other cell holds anything.
pub open spec fn agrees(table: Seq<Seq<char>>, env: Env, cells: Map<Variable, Datum>) -> bool {
    &&& forall|i: int|
        0 <= i < table.len() ==> (env.dom().contains(#[trigger] table[i]) <==> cells.dom().contains(
            Variable(i as usize),
        ))
    &&& forall|i: int|
        0 <= i < table.len() && env.dom().contains(#[trigger] table[i]) ==> cells[Variable(
            i as usize,
        )] == Datum::Int(env[table[i]])
    &&& forall|name: Seq<char>| env.dom().contains(name) ==> lookup(table, name) is Some
    &&& forall|var: Variable| cells.dom().contains(var) ==> (var.0 as int) < table.len()
}

/// A name that the table binds stands at its variable's position.
pub(crate) proof fn lemma_lookup_position(table: Seq<Seq<char>>, name: Seq<char>)
    requires
        lookup(table, name) is Some,
        table.len() <= usize::MAX,
    ensures
        0 <= (lookup(table, name)->Some_0.0 as int) < table.len(),
        table[lookup(table, name)->Some_0.0 as int] == name,
{
    let i = choose|i: int| at(table, name, i);
    assert(at(table, name, i));
}

/// Binding a name of the table to a number, in the variables and in its
/// cell, keeps the cells in agreement with the variables.
pub(crate) proof fn lemma_agrees_insert(
    table: Seq<Seq<char>>,
    env: Env,
    cells: Map<Variable, Datum>,
    name: Seq<char>,
    number: i32,
)
    requires
        distinct(table),
        table.len() <= usize::MAX,
        agrees(table, env, cells),
        lookup(table, name) is Some,
    ensures
        agrees(
            table,
            env.insert(name, number),
            cells.insert(lookup(table, name)->Some_0, Datum::Int(number)),
        ),
{
    lemma_lookup_position(table, name);
    let var = lookup(table, name)->Some_0;
    let k = var.0 as int;
    let env2 = env.insert(name, number);
    let cells2 = cells.insert(var, Datum::Int(number));
    assert forall|i: int| 0 <= i < table.len() implies (env2.dom().contains(#[trigger] table[i])
        <==> cells2.dom().contains(Variable(i as usize))) by {
        if i != k {
            if i < k {
                assert(table[i] != table[k]);
            } else {
                assert(table[k] != table[i]);
            }
        }
    }
    assert forall|i: int|
        0 <= i < table.len() && env2.dom().contains(#[trigger] table[i]) implies cells2[Variable(
        i as usize,
    )] == Datum::Int(env2[table[i]]) by {
        if i != k {
            if i < k {
                assert(table[i] != table[k]);
            } else {
                assert(table[k] != table[i]);
            }
        }
    }
}

/// A listing that got stuck stays stuck when steps are added.
proof fn lemma_stuck_stays(code: Seq<OpView>, k: int, m: Machine)
    requires
        0 <= k <= code.len(),
        perform_all(code.take(k), m) is None,
    ensures
        perform_all(code, m) is None,
    decreases code.len() - k,
{
    if k < code.len() {
        assert(code.take(k + 1).drop_last() =~= code.take(k));
        lemma_stuck_stays(code, k + 1, m);
    } else {
        assert(code.take(k) =~= code);
    }
}

/// The steps taken before a lowering are the first steps after it.
pub open spec fn extends(before: Lowering, after: Lowering) -> bool {
    &&& after.variables == before.variables
    &&& before.builder.values.len() <= after.builder.values.len()
    &&& before.builder.code.len() <= after.builder.code.len()
    &&& after.builder.code.take(before.builder.code.len() as int) == before.builder.code
}

/// The lowering of a simple expression only adds steps and values.
proof fn lemma_simple_extends(e: Expr, s: Lowering)
    requires
        is_simple(e),
    ensures
        extends(s, lower_expr(e, s).state),
    decreases e,
{
    let after = lower_expr(e, s).state;
    let n = s.builder.code.len() as int;
    if e is Literal || e is Identifier {
        assert(after.builder.code.take(n) =~= s.builder.code);
    } else if e is Assign {
        let rhs = *e->Assign_1;
        lemma_simple_extends(rhs, s);
        let a = lower_expr(rhs, s).state;
        assert(after.builder.code.take(n) =~= a.builder.code.take(n));
    } else {
        let (lhs, rhs) = operands(e);
        lemma_simple_extends(lhs, s);
        let a = lower_expr(lhs, s).state;
        lemma_simple_extends(rhs, a);
        let b = lower_expr(rhs, a).state;
        assert(b.builder.code.take(n) =~= a.builder.code.take(n)) by {
            assert(b.builder.code.take(a.builder.code.len() as int).take(n)
                =~= b.builder.code.take(n));
        }
        assert(after.builder.code.take(n) =~= b.builder.code.take(n));
    }
}

/// A lowering that only adds steps keeps a stuck listing stuck.
proof fn lemma_extends_stuck(before: Lowering, after: Lowering, m: Machine)
    requires
        extends(before, after),
        perform_all(before.builder.code, m) is None,
    ensures
        perform_all(after.builder.code, m) is None,
{
    lemma_stuck_stays(after.builder.code, before.builder.code.len() as int, m);
}

/// The machine `m` is where running the steps taken so far leads from
/// `start`: it holds one value for each value defined, and its cells hold
/// what the variables hold.
pub open spec fn reached(s: Lowering, start: Machine, m: Machine, env: Env) -> bool {
    &&& perform_all(s.builder.code, start) == Some(m)
    &&& m.store.len() == s.builder.values.len()
    &&& agrees(s.variables, env, m.cells)
}

/// What running the code of a lowered expression must give, for what the
/// expression denotes where the variables hold `env`: where it denotes a
/// number, the machine keeps its values, holds the number at the handle
/// `value`, and holds in its cells what the variables hold afterwards;
/// where it denotes nothing, the code has no outcome.
pub open spec fn computes_in(
    after: Lowering,
    value: Value,
    start: Machine,
    m: Machine,
    denoted: Option<(i32, Env)>,
) -> bool {
    match denoted {
        Some((number, env)) => {
            &&& perform_all(after.builder.code, start) matches Some(next)
            &&& reached(after, start, next, env)
            &&& m.store.len() <= next.store.len()
            &&& forall|i: int| 0 <= i < m.store.len() ==> next.store[i] == m.store[i]
            &&& (value.0 as int) < next.store.len()
            &&& next.store[value.0 as int] == Datum::Int(number)
            &&& next.args == m.args
            &&& next.returned == m.returned
        },
        None => perform_all(after.builder.code, start) is None,
    }
}

/// The code of the operands of a simple expression computes what the
/// operands denote, left before right.
proof fn lemma_operands_compute(e: Expr, s: Lowering, start: Machine, m: Machine, env: Env)
    requires
        is_simple(e),
        is_binary(e),
        targets_known(e, s.variables),
        lower_expr(operands(e).0, s).result is Ok,
        lower_expr(
            operands(e).1,
            lower_expr(operands(e).0, s).state,
        ).result is Ok,
        distinct(s.variables),
        s.variables.len() <= usize::MAX,
        lower_expr(
            operands(e).1,
            lower_expr(operands(e).0, s).state,
        ).state.builder.values.len() <= usize::MAX,
        reached(s, start, m, env),
    ensures
        ({
            let (lhs, rhs) = operands(e);
            let a = lower_expr(lhs, s);
            let b = lower_expr(rhs, a.state);
            match evaluate_in(lhs, env) {
                Some((x, mid)) => match evaluate_in(rhs, mid) {
                    Some((y, after)) => {
                        &&& computes_in(b.state, b.result->Ok_0, start, m, Some((y, after)))
                        &&& perform_all(b.state.builder.code, start)->Some_0.store[a.result->Ok_0.0 as int]
                            == Datum::Int(x)
                        &&& (a.result->Ok_0.0 as int) < perform_all(
                            b.state.builder.code,
                            start,
                        )->Some_0.store.len()
                    },
                    None => perform_all(b.state.builder.code, start) is None,
                },
                None => perform_all(b.state.builder.code, start) is None,
            }
        }),
    decreases e, 0nat,
{
    let (lhs, rhs) = operands(e);
    let a = lower_expr(lhs, s);
    let b = lower_expr(rhs, a.state);
    lemma_simple_extends(lhs, s);
    lemma_simple_extends(rhs, a.state);
    law_simple_agrees(lhs, s, start, m, env);
    if evaluate_in(lhs, env) is Some {
        let (x, mid) = evaluate_in(lhs, env)->Some_0;
        let m1 = perform_all(a.state.builder.code, start)->Some_0;
        law_simple_agrees(rhs, a.state, start, m1, mid);
    } else {
        lemma_extends_stuck(a.state, b.state, start);
    }
}

/// The code of a simple expression computes what the expression denotes.
///
/// For every expression made of literals, reads of variables, assignments,
/// arithmetic and comparisons whose lowering succeeds, the table holding the
/// targets of its assignments: where running the
/// steps taken before it leads to a machine whose cells hold what the
/// variables hold, running the steps after it leads to a machine that
/// holds the expression's number at the handle that the lowering returns,
/// and whose cells hold what the variables hold after the expression. Where
/// direct evaluation meets a division by zero or a variable that holds no
/// number, the code has no outcome.
pub proof fn law_simple_agrees(e: Expr, s: Lowering, start: Machine, m: Machine, env: Env)
    requires
        is_simple(e),
        targets_known(e, s.variables),
        lower_expr(e, s).result is Ok,
        distinct(s.variables),
        s.variables.len() <= usize::MAX,
        lower_expr(e, s).state.builder.values.len() <= usize::MAX,
        reached(s, start, m, env),
    ensures
        computes_in(
            lower_expr(e, s).state,
            lower_expr(e, s).result->Ok_0,
            start,
            m,
            evaluate_in(e, env),
        ),
    decreases e, 1nat,
{
    lemma_simple_extends(e, s);
    match e {
        Expr::Literal(text) => {
            let imm = literal_value(text@)->Some_0;
            lemma_perform_push(s.builder.code, OpView::Iconst(imm), start);
        },
        Expr::Identifier(name) => {
            let var = lookup(s.variables, name@)->Some_0;
            lemma_lookup_position(s.variables, name@);
            lemma_perform_push(s.builder.code, OpView::UseVar(var), start);
        },
        Expr::Assign(name, rhs) => {
            let assigned = lower_expr(*rhs, s);
            lemma_simple_extends(*rhs, s);
            law_simple_agrees(*rhs, s, start, m, env);
            let var = lookup(s.variables, name@)->Some_0;
            let v = assigned.result->Ok_0;
            lemma_perform_push(assigned.state.builder.code, OpView::DefVar(var, v), start);
            if evaluate_in(*rhs, env) is Some {
                let (number, env1) = evaluate_in(*rhs, env)->Some_0;
                let m1 = perform_all(assigned.state.builder.code, start)->Some_0;
                lemma_agrees_insert(s.variables, env1, m1.cells, name@, number);
            }
        },
        _ => {
            let (lhs, rhs) = operands(e);
            let a = lower_expr(lhs, s);
            let b = lower_expr(rhs, a.state);
            lemma_simple_extends(lhs, s);
            lemma_simple_extends(rhs, a.state);
            lemma_operands_compute(e, s, start, m, env);
            if is_comparison(e) {
                let compare = OpView::Compare(condition_of(e), a.result->Ok_0, b.result->Ok_0);
                let bint = OpView::Bint(b.state.builder.next_value());
                lemma_perform_push(b.state.builder.code, compare, start);
                lemma_perform_push(b.state.builder.code.push(compare), bint, start);
            } else {
                let op = OpView::Binary(arithmetic_of(e), a.result->Ok_0, b.result->Ok_0);
                lemma_perform_push(b.state.builder.code, op, start);
            }
        },
    }
}

/// The lowering of simple statements only adds steps and values.
proof fn lemma_each_extends(exprs: Seq<Expr>, i: int, s: Lowering, done: Seq<Value>)
    requires
        all_simple(exprs, i),
    ensures
        extends(s, lower_each(exprs, i, s, done).state),
    decreases exprs.len() - i,
{
    let n = s.builder.code.len() as int;
    if 0 <= i < exprs.len() {
        let next = lower_expr(exprs[i], s);
        lemma_simple_extends(exprs[i], s);
        if next.result is Ok {
            lemma_each_extends(exprs, i + 1, next.state, done.push(next.result->Ok_0));
            let after = lower_each(exprs, i, s, done).state;
            assert(after.builder.code.take(n) =~= next.state.builder.code.take(n)) by {
                assert(after.builder.code.take(next.state.builder.code.len() as int).take(n)
                    =~= after.builder.code.take(n));
            }
        }
    } else {
        assert(s.builder.code.take(n) =~= s.builder.code);
    }
}

/// What the variables hold is only added to by evaluation.
proof fn lemma_evaluation_keeps(e: Expr, env: Env, name: Seq<char>)
    requires
        evaluate_in(e, env) is Some,
        env.dom().contains(name),
    ensures
        evaluate_in(e, env)->Some_0.1.dom().contains(name),
    decreases e,
{
    match e {
        Expr::Assign(_, rhs) => {
            lemma_evaluation_keeps(*rhs, env, name);
        },
        Expr::Add(lhs, rhs) | Expr::Sub(lhs, rhs) | Expr::Mul(lhs, rhs) | Expr::Div(lhs, rhs) => {
            lemma_evaluation_keeps(*lhs, env, name);
            lemma_evaluation_keeps(*rhs, evaluate_in(*lhs, env)->Some_0.1, name);
        },
        Expr::Eq(lhs, rhs) | Expr::Ne(lhs, rhs) | Expr::Lt(lhs, rhs) | Expr::Le(lhs, rhs) | Expr::Gt(
            lhs,
            rhs,
        ) | Expr::Ge(lhs, rhs) => {
            lemma_evaluation_keeps(*lhs, env, name);
            lemma_evaluation_keeps(*rhs, evaluate_in(*lhs, env)->Some_0.1, name);
        },
        _ => {},
    }
}

/// What the variables hold is only added to by the evaluation of
/// statements.
proof fn lemma_evaluation_keeps_each(stmts: Seq<Expr>, i: int, env: Env, name: Seq<char>)
    requires
        evaluate_each(stmts, i, env) is Some,
        env.dom().contains(name),
    ensures
        evaluate_each(stmts, i, env)->Some_0.dom().contains(name),
    decreases stmts.len() - i,
{
    if 0 <= i < stmts.len() {
        lemma_evaluation_keeps(stmts[i], env, name);
        lemma_evaluation_keeps_each(stmts, i + 1, evaluate_in(stmts[i], env)->Some_0.1, name);
    }
}

/// The code of simple statements computes what the statements denote.
proof fn lemma_statements_agree(
    stmts: Seq<Expr>,
    i: int,
    s: Lowering,
    done: Seq<Value>,
    start: Machine,
    m: Machine,
    env: Env,
)
    requires
        0 <= i <= stmts.len(),
        all_simple(stmts, i),
        targets_known_from(stmts, i, s.variables),
        lower_each(stmts, i, s, done).result is Ok,
        distinct(s.variables),
        s.variables.len() <= usize::MAX,
        lower_each(stmts, i, s, done).state.builder.values.len() <= usize::MAX,
        reached(s, start, m, env),
    ensures
        ({
            let after = lower_each(stmts, i, s, done).state;
            match evaluate_each(stmts, i, env) {
                Some(held) => {
                    &&& perform_all(after.builder.code, start) matches Some(next)
                    &&& reached(after, start, next, held)
                    &&& next.args == m.args
                    &&& next.returned == m.returned
                },
                None => perform_all(after.builder.code, start) is None,
            }
        }),
    decreases stmts.len() - i,
{
    if i < stmts.len() {
        let next = lower_expr(stmts[i], s);
        let rest = done.push(next.result->Ok_0);
        lemma_simple_extends(stmts[i], s);
        lemma_each_extends(stmts, i + 1, next.state, rest);
        law_simple_agrees(stmts[i], s, start, m, env);
        if evaluate_in(stmts[i], env) is Some {
            let m1 = perform_all(next.state.builder.code, start)->Some_0;
            let env1 = evaluate_in(stmts[i], env)->Some_0.1;
            lemma_statements_agree(stmts, i + 1, next.state, rest, start, m1, env1);
        } else {
            lemma_extends_stuck(next.state, lower_each(stmts, i + 1, next.state, rest).state, start);
        }
    }
}

/// A table that got one more name agrees with the variables and cells that
/// the table agreed with before.
proof fn lemma_agrees_grows(
    table: Seq<Seq<char>>,
    env: Env,
    cells: Map<Variable, Datum>,
    name: Seq<char>,
)
    requires
        agrees(table, env, cells),
        lookup(table, name) is None,
        table.len() < usize::MAX,
    ensures
        agrees(table.push(name), env, cells),
{
    let longer = table.push(name);
    assert forall|other: Seq<char>| env.dom().contains(other) implies lookup(
        longer,
        other,
    ) is Some by {
        let i = choose|i: int| at(table, other, i);
        assert(at(table, other, i));
        assert(at(longer, other, i));
    }
    assert forall|i: int| 0 <= i < longer.len() implies (env.dom().contains(#[trigger] longer[i])
        <==> cells.dom().contains(Variable(i as usize))) by {
        if i < table.len() {
            assert(longer[i] == table[i]);
        }
    }
    assert forall|i: int|
        0 <= i < longer.len() && env.dom().contains(#[trigger] longer[i]) implies cells[Variable(
        i as usize,
    )] == Datum::Int(env[longer[i]]) by {
        if i < table.len() {
            assert(longer[i] == table[i]);
        }
    }
}

/// The arguments as values.
pub open spec fn numbers(args: Seq<i32>) -> Seq<Datum> {
    Seq::new(args.len(), |i: int| Datum::Int(args[i]))
}

/// The state of the prologue of a call: running the steps taken so far
/// leads to a machine in which every parameter has taken its argument, the
/// store holds the arguments first, and the cells hold what the variables
/// hold.
pub open spec fn bound(d: Declaring, start: Machine, args: Seq<i32>, env: Env) -> bool {
    &&& perform_all(d.builder.code, start) matches Some(m)
    &&& m.store.len() == d.builder.values.len()
    &&& args.len() <= m.store.len()
    &&& forall|i: int| 0 <= i < args.len() ==> m.store[i] == Datum::Int(args[i])
    &&& m.args.len() == 0
    &&& m.returned is None
    &&& agrees(d.table, env, m.cells)
    &&& distinct(d.table)
}

/// Meeting a name runs as a step that does nothing.
proof fn lemma_declare_name_runs(
    d: Declaring,
    name: Seq<char>,
    start: Machine,
    args: Seq<i32>,
    env: Env,
)
    requires
        bound(d, start, args, env),
        d.table.len() < usize::MAX,
    ensures
        bound(declare_name(d, name), start, args, env),
        perform_all(declare_name(d, name).builder.code, start) == perform_all(
            d.builder.code,
            start,
        ),
        declare_name(d, name).builder.values == d.builder.values,
        lookup(declare_name(d, name).table, name) is Some,
        d.table.len() <= declare_name(d, name).table.len() <= d.table.len() + 1,
{
    if lookup(d.table, name) is None {
        let m = perform_all(d.builder.code, start)->Some_0;
        let op = OpView::DeclareVar(Variable(d.table.len() as usize), Type::I32);
        lemma_perform_push(d.builder.code, op, start);
        lemma_agrees_grows(d.table, env, m.cells, name);
        lemma_distinct_push(d.table, name);
        assert(at(d.table.push(name), name, d.table.len() as int));
    }
}

/// Binding a name of the table to a value that holds a number runs as the
/// filling of the name's cell.
proof fn lemma_binding_runs(
    d: Declaring,
    name: Seq<char>,
    value: Value,
    number: i32,
    start: Machine,
    args: Seq<i32>,
    env: Env,
)
    requires
        bound(d, start, args, env),
        d.table.len() <= usize::MAX,
        lookup(d.table, name) is Some,
        (value.0 as int) < d.builder.values.len(),
        perform_all(d.builder.code, start)->Some_0.store[value.0 as int] == Datum::Int(number),
    ensures
        bound(
            Declaring {
                builder: d.builder.step(OpView::DefVar(lookup(d.table, name)->Some_0, value)),
                ..d
            },
            start,
            args,
            env.insert(name, number),
        ),
        d.builder.step(OpView::DefVar(lookup(d.table, name)->Some_0, value)).values
            == d.builder.values,
{
    let m = perform_all(d.builder.code, start)->Some_0;
    let var = lookup(d.table, name)->Some_0;
    lemma_perform_push(d.builder.code, OpView::DefVar(var, value), start);
    lemma_agrees_insert(d.table, env, m.cells, name, number);
}

/// Binding the parameters runs as the filling of their cells with the
/// arguments.
proof fn lemma_bind_params_runs(
    params: Seq<Seq<char>>,
    i: int,
    d: Declaring,
    entry: Seq<Value>,
    start: Machine,
    args: Seq<i32>,
    env: Env,
)
    requires
        0 <= i <= params.len(),
        params.len() == args.len(),
        args.len() < usize::MAX,
        entry.len() == params.len(),
        forall|k: int| 0 <= k < entry.len() ==> entry[k] == Value(k as usize),
        bound(d, start, args, env),
        d.table.len() <= i,
    ensures
        bound(
            bind_params(params, i, d, entry),
            start,
            args,
            bind_arguments(params, args, i, env),
        ),
        bind_params(params, i, d, entry).builder.values == d.builder.values,
        bind_params(params, i, d, entry).table.len() <= params.len(),
    decreases params.len() - i,
{
    if i < params.len() {
        let met = declare_name(d, params[i]);
        lemma_declare_name_runs(d, params[i], start, args, env);
        let var = lookup(met.table, params[i])->Some_0;
        lemma_binding_runs(met, params[i], entry[i], args[i], start, args, env);
        let next = Declaring { builder: met.builder.step(OpView::DefVar(var, entry[i])), ..met };
        lemma_bind_params_runs(
            params,
            i + 1,
            next,
            entry,
            start,
            args,
            env.insert(params[i], args[i]),
        );
    }
}

/// Binding the name of the result runs as the filling of its cell with
/// zero.
proof fn lemma_bind_result_runs(
    the_return: Seq<char>,
    d: Declaring,
    start: Machine,
    args: Seq<i32>,
    env: Env,
)
    requires
        bound(d, start, args, env),
        d.table.len() < usize::MAX,
        d.builder.values.len() < usize::MAX,
    ensures
        bound(bind_result(the_return, d), start, args, env.insert(the_return, 0)),
        lookup(bind_result(the_return, d).table, the_return) is Some,
        bind_result(the_return, d).builder.values.len() == d.builder.values.len() + 1,
        d.table.len() <= bind_result(the_return, d).table.len() <= d.table.len() + 1,
{
    let zero = d.builder.next_value();
    let zeroed = Declaring { builder: d.builder.step(OpView::Iconst(0)), ..d };
    lemma_perform_push(d.builder.code, OpView::Iconst(0), start);
    assert(bound(zeroed, start, args, env));
    let met = declare_name(zeroed, the_return);
    lemma_declare_name_runs(zeroed, the_return, start, args, env);
    lemma_binding_runs(met, the_return, zero, 0, start, args, env);
}

/// The pass over an expression runs as steps that do nothing.
proof fn lemma_scan_runs(e: Expr, d: Declaring, start: Machine, args: Seq<i32>, env: Env)
    requires
        bound(d, start, args, env),
        scan_stmt(e, d).table.len() <= usize::MAX,
    ensures
        bound(scan_stmt(e, d), start, args, env),
        scan_stmt(e, d).builder.values == d.builder.values,
    decreases e, 1nat,
{
    lemma_scan_knows(e, d);
    match e {
        Expr::Literal(_) => {},
        Expr::Identifier(_) => {},
        Expr::Assign(name, rhs) => {
            let met = declare_name(d, name@);
            lemma_scan_knows(*rhs, met);
            if lookup(d.table, name@) is None {
                lemma_declare_name_runs(d, name@, start, args, env);
            }
            lemma_scan_runs(*rhs, met, start, args, env);
        },
        Expr::IfElse(condition, then_body, else_body) => {
            let tested = scan_stmt(*condition, d);
            let half = scan_stmts(then_body@, 0, tested);
            lemma_scan_knows_from(else_body@, 0, half);
            lemma_scan_knows_from(then_body@, 0, tested);
            lemma_scan_runs(*condition, d, start, args, env);
            lemma_scan_runs_each(then_body@, 0, tested, start, args, env);
            lemma_scan_runs_each(else_body@, 0, half, start, args, env);
        },
        Expr::WhileLoop(condition, body) => {
            let tested = scan_stmt(*condition, d);
            lemma_scan_knows_from(body@, 0, tested);
            lemma_scan_runs(*condition, d, start, args, env);
            lemma_scan_runs_each(body@, 0, tested, start, args, env);
        },
        Expr::Call(_, calls) => {
            lemma_scan_runs_each(calls@, 0, d, start, args, env);
        },
        _ => {
            let (lhs, rhs) = operands(e);
            let half = scan_stmt(lhs, d);
            lemma_scan_knows(rhs, half);
            lemma_scan_runs(lhs, d, start, args, env);
            lemma_scan_runs(rhs, half, start, args, env);
        },
    }
}

/// The pass over expressions runs as steps that do nothing.
proof fn lemma_scan_runs_each(
    stmts: Seq<Expr>,
    i: int,
    d: Declaring,
    start: Machine,
    args: Seq<i32>,
    env: Env,
)
    requires
        bound(d, start, args, env),
        scan_stmts(stmts, i, d).table.len() <= usize::MAX,
    ensures
        bound(scan_stmts(stmts, i, d), start, args, env),
        scan_stmts(stmts, i, d).builder.values == d.builder.values,
    decreases stmts, stmts.len() - i,
{
    if 0 <= i < stmts.len() {
        let next = scan_stmt(stmts[i], d);
        lemma_scan_knows_from(stmts, i + 1, next);
        lemma_scan_runs(stmts[i], d, start, args, env);
        lemma_scan_runs_each(stmts, i + 1, next, start, args, env);
    }
}

/// The parameters of the entry block run as the taking of the arguments.
pub(crate) proof fn lemma_entry_runs(arity: nat, args: Seq<i32>, k: nat)
    requires
        k <= args.len() <= usize::MAX,
    ensures
        ({
            let created = BuilderState::new(integer_signature(arity)).step(OpView::CreateBlock);
            let b = entry_params(created, Block(0), k);
            &&& perform_all(b.code, called_with(args)) matches Some(m)
            &&& m.store =~= numbers(args.take(k as int))
            &&& m.cells =~= Map::<Variable, Datum>::empty()
            &&& m.args =~= args.skip(k as int)
            &&& m.returned is None
            &&& b.values.len() == k
            &&& b.blocks.len() == 1
            &&& b.variables =~= Map::<Variable, Type>::empty()
            &&& b.block(Block(0)).params =~= Seq::new(k, |i: int| Value(i as usize))
        }),
    decreases k,
{
    let created = BuilderState::new(integer_signature(arity)).step(OpView::CreateBlock);
    let start = called_with(args);
    if k == 0 {
        lemma_perform_push(Seq::empty(), OpView::CreateBlock, start);
        assert(created.code =~= Seq::<OpView>::empty().push(OpView::CreateBlock));
    } else {
        let before = entry_params(created, Block(0), (k - 1) as nat);
        lemma_entry_runs(arity, args, (k - 1) as nat);
        let op = OpView::AppendBlockParam(Block(0), Type::I32);
        lemma_perform_push(before.code, op, start);
        let m0 = perform_all(before.code, start)->Some_0;
        let m = perform(op, m0)->Some_0;
        assert(m.store =~= numbers(args.take(k as int)));
        assert(m.args =~= args.skip(k as int));
    }
}

/// What the variables hold when the statements of a call begin: the
/// parameters their arguments, the result's variable zero.
pub open spec fn bound_at_entry(
    params: Seq<Seq<char>>,
    the_return: Seq<char>,
    args: Seq<i32>,
) -> Env {
    bind_arguments(params, args, 0, Map::empty()).insert(the_return, 0)
}

/// The steps before the statements of a function run as the taking of the
/// arguments, the filling of the parameters' cells with them and of the
/// result's cell with zero.
pub(crate) proof fn lemma_prologue_runs(
    module: Seq<DeclView>,
    params: Seq<Seq<char>>,
    the_return: Seq<char>,
    stmts: Seq<Expr>,
    args: Seq<i32>,
)
    requires
        args.len() == params.len(),
        params.len() < usize::MAX,
        open_function(module, params, the_return, stmts).builder.values.len() <= usize::MAX,
        open_function(module, params, the_return, stmts).variables.len() <= usize::MAX,
    ensures
        ({
            let opened = open_function(module, params, the_return, stmts);
            let start = called_with(args);
            &&& perform_all(opened.builder.code, start) matches Some(m)
            &&& reached(opened, start, m, bound_at_entry(params, the_return, args))
            &&& m.args.len() == 0
            &&& m.returned is None
            &&& args.len() <= m.store.len()
            &&& forall|i: int| 0 <= i < args.len() ==> m.store[i] == Datum::Int(args[i])
            &&& distinct(opened.variables)
            &&& lookup(opened.variables, the_return) is Some
        }),
{
    let start = called_with(args);
    let entry_block = Block(0);
    let created = BuilderState::new(integer_signature(params.len())).step(OpView::CreateBlock);
    let with_params = entry_params(created, entry_block, params.len());
    let entered = with_params.step(OpView::SwitchToBlock(entry_block));
    let opened = open_function(module, params, the_return, stmts);
    let d0 = Declaring { builder: entered, table: Seq::empty() };
    let entry = entered.block(entry_block).params;
    let d1 = bind_params(params, 0, d0, entry);
    let d2 = bind_result(the_return, d1);
    let d3 = scan_stmts(stmts, 0, d2);
    assert(opened.variables == d3.table);
    assert(opened.builder == d3.builder.step(OpView::SealBlock(entry_block)));
    lemma_scan_knows_from(stmts, 0, d2);
    lemma_entry_runs(params.len(), args, params.len());
    lemma_perform_push(with_params.code, OpView::SwitchToBlock(entry_block), start);
    assert(args.take(args.len() as int) =~= args);
    assert(bound(d0, start, args, Map::empty()));
    lemma_bind_params_runs(params, 0, d0, entry, start, args, Map::empty());
    let env1 = bind_arguments(params, args, 0, Map::empty());
    lemma_bind_result_runs(the_return, d1, start, args, env1);
    let env2 = env1.insert(the_return, 0);
    lemma_scan_runs_each(stmts, 0, d2, start, args, env2);
    lemma_perform_push(d3.builder.code, OpView::SealBlock(entry_block), start);
    crate::scope::lemma_scan_names_each(stmts, 0, d2, crate::scope::any_name());
}

/// The variable table of a function holds the target of every assignment
/// in its statements.
pub(crate) proof fn lemma_table_knows(
    module: Seq<DeclView>,
    params: Seq<Seq<char>>,
    the_return: Seq<char>,
    stmts: Seq<Expr>,
)
    ensures
        targets_known_from(
            stmts,
            0,
            open_function(module, params, the_return, stmts).variables,
        ),
{
    let entry_block = Block(0);
    let created = BuilderState::new(integer_signature(params.len())).step(OpView::CreateBlock);
    let entered = entry_params(created, entry_block, params.len()).step(
        OpView::SwitchToBlock(entry_block),
    );
    let d0 = Declaring { builder: entered, table: Seq::empty() };
    let d1 = bind_params(params, 0, d0, entered.block(entry_block).params);
    let d2 = bind_result(the_return, d1);
    lemma_scan_knows_from(stmts, 0, d2);
}

/// The code of a function of simple statements computes what a call of the
/// function gives when it is evaluated directly.
///
/// For every function whose statements are made of literals, reads of
/// variables, assignments, arithmetic and comparisons and whose lowering
/// succeeds, and for every list of as many arguments as it has parameters:
/// running the function's steps from the first to the last returns the
/// number that the result's variable holds after the statements were
/// evaluated in order, the parameters holding the arguments and the result's
/// variable zero at the start. Where direct evaluation meets a division by
/// zero or a variable that holds no number, the code has no outcome.
pub proof fn law_simple_function_agrees(
    module: Seq<DeclView>,
    params: Seq<Seq<char>>,
    the_return: Seq<char>,
    stmts: Seq<Expr>,
    args: Seq<i32>,
)
    requires
        all_simple(stmts, 0),
        args.len() == params.len(),
        params.len() < usize::MAX,
        lower_function(module, params, the_return, stmts).result is Ok,
        lower_function(module, params, the_return, stmts).state.builder.values.len()
            <= usize::MAX,
        open_function(module, params, the_return, stmts).variables.len() <= usize::MAX,
    ensures
        match call_directly(params, the_return, stmts, args) {
            Some(number) => perform_all(
                lower_function(module, params, the_return, stmts).state.builder.code,
                called_with(args),
            ) matches Some(m) && m.returned == Some(number),
            None => perform_all(
                lower_function(module, params, the_return, stmts).state.builder.code,
                called_with(args),
            ) is None,
        },
{
    let start = called_with(args);
    let opened = open_function(module, params, the_return, stmts);
    let body = lower_each(stmts, 0, opened, Seq::empty());
    lemma_each_extends(stmts, 0, opened, Seq::empty());
    lemma_prologue_runs(module, params, the_return, stmts, args);
    lemma_table_knows(module, params, the_return, stmts);
    let env2 = bound_at_entry(params, the_return, args);
    let m3 = perform_all(opened.builder.code, start)->Some_0;
    lemma_statements_agree(stmts, 0, opened, Seq::empty(), start, m3, env2);
    let var = lookup(opened.variables, the_return)->Some_0;
    let read = OpView::UseVar(var);
    let value = body.state.builder.next_value();
    let ret = OpView::Return(seq![value]);
    lemma_perform_push(body.state.builder.code, read, start);
    lemma_perform_push(body.state.builder.code.push(read), ret, start);
    lemma_lookup_position(opened.variables, the_return);
    if evaluate_each(stmts, 0, env2) is Some {
        lemma_evaluation_keeps_each(stmts, 0, env2, the_return);
    }
}

} // verus!
