//! Names and failures: which names a function's variable table can hold,
//! and what in a function each failure of its lowering points at.

use vstd::prelude::*;
use crate::ast::Expr;
use crate::builder::BuilderState;
use crate::ir::{integer_signature, Block, Linkage, OpView, Value};
use crate::names::at;
use crate::semantics::{is_binary, operands};
use crate::literal::literal_value;
use crate::lowering::{
    entry_params,
    last_or,
    lower_each,
    lower_expr,
    lower_function,
    open_conditional,
    open_function,
    open_loop,
    turn_conditional,
    Failure,
    Lowering,
};
use crate::module::{declare, DeclView};
use crate::variables::{
    lemma_lookup_kept,
    lemma_scan_knows,
    lemma_scan_knows_from,
    targets_known,
    targets_known_from,
    bind_params,
    bind_result,
    declare_all,
    declare_name,
    lookup,
    scan_stmt,
    scan_stmts,
    Declaring,
};

verus! {

/// Whether `p` holds of the expression or of an expression inside it.
pub open spec fn occurs(e: Expr, p: spec_fn(Expr) -> bool) -> bool
    decreases e, 1nat,
{
    p(e) || match e {
        Expr::Literal(_) => false,
        Expr::Identifier(_) => false,
        Expr::Assign(_, rhs) => occurs(*rhs, p),
        Expr::Add(lhs, rhs) | Expr::Sub(lhs, rhs) | Expr::Mul(lhs, rhs) | Expr::Div(lhs, rhs) => occurs(
            *lhs,
            p,
        ) || occurs(*rhs, p),
        Expr::Eq(lhs, rhs) | Expr::Ne(lhs, rhs) | Expr::Lt(lhs, rhs) | Expr::Le(lhs, rhs) | Expr::Gt(
            lhs,
            rhs,
        ) | Expr::Ge(lhs, rhs) => occurs(*lhs, p) || occurs(*rhs, p),
        Expr::IfElse(condition, then_body, else_body) => occurs(*condition, p) || occurs_from(
            then_body@,
            0,
            p,
        ) || occurs_from(else_body@, 0, p),
        Expr::WhileLoop(condition, body) => occurs(*condition, p) || occurs_from(body@, 0, p),
        Expr::Call(_, args) => occurs_from(args@, 0, p),
    }
}

/// Whether `p` holds somewhere in the expressions from position `i` on.
pub open spec fn occurs_from(exprs: Seq<Expr>, i: int, p: spec_fn(Expr) -> bool) -> bool
    decreases exprs, exprs.len() - i,
{
    if 0 <= i < exprs.len() {
        occurs(exprs[i], p) || occurs_from(exprs, i + 1, p)
    } else {
        false
    }
}

/// Being a read of `name`.
pub open spec fn read_of(name: Seq<char>) -> spec_fn(Expr) -> bool {
    |e: Expr| e is Identifier && e->Identifier_0@ == name
}

/// Being an assignment to `name`.
pub open spec fn assignment_to(name: Seq<char>) -> spec_fn(Expr) -> bool {
    |e: Expr| e is Assign && e->Assign_0@ == name
}

/// Being a literal with the text `text`, which denotes no number.
pub open spec fn malformed(text: Seq<char>) -> spec_fn(Expr) -> bool {
    |e: Expr| e is Literal && e->Literal_0@ == text && literal_value(text) is None
}

/// Being a call of `name`.
pub open spec fn call_of(name: Seq<char>) -> spec_fn(Expr) -> bool {
    |e: Expr| e is Call && e->Call_0@ == name
}

/// What a failure points at in the expressions from position `i` on: a
/// literal that denotes no number; a name that is read and that the table
/// does not hold; a callee.
pub open spec fn points_at(
    failure: Failure,
    exprs: Seq<Expr>,
    i: int,
    table: Seq<Seq<char>>,
) -> bool {
    match failure {
        Failure::MalformedLiteral(text) => occurs_from(exprs, i, malformed(text)),
        Failure::UndeclaredIdentifier(name) => lookup(table, name) is None && occurs_from(
            exprs,
            i,
            read_of(name),
        ),
        Failure::IncompatibleDeclaration(name) => occurs_from(exprs, i, call_of(name)),
    }
}

/// What a failure points at in one expression.
pub open spec fn points_into(failure: Failure, e: Expr, table: Seq<Seq<char>>) -> bool {
    match failure {
        Failure::MalformedLiteral(text) => occurs(e, malformed(text)),
        Failure::UndeclaredIdentifier(name) => lookup(table, name) is None && occurs(
            e,
            read_of(name),
        ),
        Failure::IncompatibleDeclaration(name) => occurs(e, call_of(name)),
    }
}

/// Lowering an expression leaves the variable table as it is.
pub(crate) proof fn lemma_table_fixed(e: Expr, s: Lowering)
    ensures
        lower_expr(e, s).state.variables == s.variables,
    decreases e, 1nat,
{
    match e {
        Expr::Literal(_) => {},
        Expr::Identifier(_) => {},
        Expr::Assign(_, rhs) => {
            lemma_table_fixed(*rhs, s);
        },
        Expr::Add(lhs, rhs) | Expr::Sub(lhs, rhs) | Expr::Mul(lhs, rhs) | Expr::Div(lhs, rhs) => {
            lemma_table_fixed(*lhs, s);
            lemma_table_fixed(*rhs, lower_expr(*lhs, s).state);
        },
        Expr::Eq(lhs, rhs) | Expr::Ne(lhs, rhs) | Expr::Lt(lhs, rhs) | Expr::Le(lhs, rhs) | Expr::Gt(
            lhs,
            rhs,
        ) | Expr::Ge(lhs, rhs) => {
            lemma_table_fixed(*lhs, s);
            lemma_table_fixed(*rhs, lower_expr(*lhs, s).state);
        },
        Expr::IfElse(condition, then_body, else_body) => {
            let tested = lower_expr(*condition, s);
            lemma_table_fixed(*condition, s);
            let opened = open_conditional(tested.state, tested.result->Ok_0);
            let then_part = lower_each(then_body@, 0, opened, Seq::empty());
            lemma_table_fixed_each(then_body@, 0, opened, Seq::empty());
            let turned = turn_conditional(
                then_part.state,
                tested.state.builder.next_block(),
                Block((tested.state.builder.blocks.len() + 1) as usize),
                last_or(
                    then_part.result->Ok_0,
                    Value((tested.state.builder.values.len() + 1) as usize),
                ),
            );
            lemma_table_fixed_each(else_body@, 0, turned, Seq::empty());
        },
        Expr::WhileLoop(condition, body) => {
            let opened = open_loop(s);
            let tested = lower_expr(*condition, opened);
            lemma_table_fixed(*condition, opened);
            let branched = tested.state.emit(
                OpView::Brz(
                    tested.result->Ok_0,
                    Block((s.builder.blocks.len() + 1) as usize),
                    Seq::empty(),
                ),
            );
            lemma_table_fixed_each(body@, 0, branched, Seq::empty());
        },
        Expr::Call(name, args) => {
            let signature = integer_signature(args@.len());
            let declared = declare(s.module, name@, Linkage::Export, signature);
            let imported = Lowering { module: declared.decls, ..s }.emit(
                OpView::ImportFunction(declared.id->Some_0, signature),
            );
            lemma_table_fixed_each(args@, 0, imported, Seq::empty());
        },
    }
}

/// Lowering expressions in order leaves the variable table as it is.
pub(crate) proof fn lemma_table_fixed_each(
    exprs: Seq<Expr>,
    i: int,
    s: Lowering,
    done: Seq<Value>,
)
    ensures
        lower_each(exprs, i, s, done).state.variables == s.variables,
    decreases exprs, exprs.len() - i,
{
    if 0 <= i < exprs.len() {
        let next = lower_expr(exprs[i], s);
        lemma_table_fixed(exprs[i], s);
        if next.result is Ok {
            lemma_table_fixed_each(exprs, i + 1, next.state, done.push(next.result->Ok_0));
        }
    }
}

/// A read of a name that the table does not hold makes the lowering fail.
pub(crate) proof fn lemma_read_fails(e: Expr, s: Lowering, name: Seq<char>)
    requires
        lookup(s.variables, name) is None,
        occurs(e, read_of(name)),
    ensures
        lower_expr(e, s).result is Err,
    decreases e, 1nat,
{
    let p = read_of(name);
    match e {
        Expr::Literal(_) => {},
        Expr::Identifier(_) => {},
        Expr::Assign(_, rhs) => {
            lemma_read_fails(*rhs, s, name);
        },
        Expr::Add(lhs, rhs) | Expr::Sub(lhs, rhs) | Expr::Mul(lhs, rhs) | Expr::Div(lhs, rhs) => {
            lemma_table_fixed(*lhs, s);
            if occurs(*lhs, p) {
                lemma_read_fails(*lhs, s, name);
            } else {
                lemma_read_fails(*rhs, lower_expr(*lhs, s).state, name);
            }
        },
        Expr::Eq(lhs, rhs) | Expr::Ne(lhs, rhs) | Expr::Lt(lhs, rhs) | Expr::Le(lhs, rhs) | Expr::Gt(
            lhs,
            rhs,
        ) | Expr::Ge(lhs, rhs) => {
            lemma_table_fixed(*lhs, s);
            if occurs(*lhs, p) {
                lemma_read_fails(*lhs, s, name);
            } else {
                lemma_read_fails(*rhs, lower_expr(*lhs, s).state, name);
            }
        },
        Expr::IfElse(condition, then_body, else_body) => {
            let tested = lower_expr(*condition, s);
            lemma_table_fixed(*condition, s);
            let opened = open_conditional(tested.state, tested.result->Ok_0);
            let then_part = lower_each(then_body@, 0, opened, Seq::empty());
            lemma_table_fixed_each(then_body@, 0, opened, Seq::empty());
            let turned = turn_conditional(
                then_part.state,
                tested.state.builder.next_block(),
                Block((tested.state.builder.blocks.len() + 1) as usize),
                last_or(
                    then_part.result->Ok_0,
                    Value((tested.state.builder.values.len() + 1) as usize),
                ),
            );
            if occurs(*condition, p) {
                lemma_read_fails(*condition, s, name);
            } else if occurs_from(then_body@, 0, p) {
                lemma_read_fails_each(then_body@, 0, opened, Seq::empty(), name);
            } else {
                lemma_read_fails_each(else_body@, 0, turned, Seq::empty(), name);
            }
        },
        Expr::WhileLoop(condition, body) => {
            let opened = open_loop(s);
            let tested = lower_expr(*condition, opened);
            lemma_table_fixed(*condition, opened);
            let branched = tested.state.emit(
                OpView::Brz(
                    tested.result->Ok_0,
                    Block((s.builder.blocks.len() + 1) as usize),
                    Seq::empty(),
                ),
            );
            if occurs(*condition, p) {
                lemma_read_fails(*condition, opened, name);
            } else {
                lemma_read_fails_each(body@, 0, branched, Seq::empty(), name);
            }
        },
        Expr::Call(callee, args) => {
            let signature = integer_signature(args@.len());
            let declared = declare(s.module, callee@, Linkage::Export, signature);
            let imported = Lowering { module: declared.decls, ..s }.emit(
                OpView::ImportFunction(declared.id->Some_0, signature),
            );
            lemma_read_fails_each(args@, 0, imported, Seq::empty(), name);
        },
    }
}

/// A read of a name that the table does not hold, somewhere in the
/// expressions from position `i` on, makes their lowering fail.
pub(crate) proof fn lemma_read_fails_each(
    exprs: Seq<Expr>,
    i: int,
    s: Lowering,
    done: Seq<Value>,
    name: Seq<char>,
)
    requires
        lookup(s.variables, name) is None,
        occurs_from(exprs, i, read_of(name)),
    ensures
        lower_each(exprs, i, s, done).result is Err,
    decreases exprs, exprs.len() - i,
{
    if 0 <= i < exprs.len() {
        let next = lower_expr(exprs[i], s);
        lemma_table_fixed(exprs[i], s);
        if occurs(exprs[i], read_of(name)) {
            lemma_read_fails(exprs[i], s, name);
        } else if next.result is Ok {
            lemma_read_fails_each(exprs, i + 1, next.state, done.push(next.result->Ok_0), name);
        }
    }
}

/// A failure of the lowering of an expression points into the expression.
pub(crate) proof fn lemma_failure_points(e: Expr, s: Lowering)
    ensures
        lower_expr(e, s).result matches Err(failure) ==> points_into(failure, e, s.variables),
    decreases e, 1nat,
{
    match e {
        Expr::Literal(_) => {},
        Expr::Identifier(_) => {},
        Expr::Assign(_, rhs) => {
            lemma_failure_points(*rhs, s);
        },
        Expr::Add(lhs, rhs) | Expr::Sub(lhs, rhs) | Expr::Mul(lhs, rhs) | Expr::Div(lhs, rhs) => {
            lemma_table_fixed(*lhs, s);
            lemma_failure_points(*lhs, s);
            lemma_failure_points(*rhs, lower_expr(*lhs, s).state);
        },
        Expr::Eq(lhs, rhs) | Expr::Ne(lhs, rhs) | Expr::Lt(lhs, rhs) | Expr::Le(lhs, rhs) | Expr::Gt(
            lhs,
            rhs,
        ) | Expr::Ge(lhs, rhs) => {
            lemma_table_fixed(*lhs, s);
            lemma_failure_points(*lhs, s);
            lemma_failure_points(*rhs, lower_expr(*lhs, s).state);
        },
        Expr::IfElse(condition, then_body, else_body) => {
            let tested = lower_expr(*condition, s);
            lemma_table_fixed(*condition, s);
            let opened = open_conditional(tested.state, tested.result->Ok_0);
            let then_part = lower_each(then_body@, 0, opened, Seq::empty());
            lemma_table_fixed_each(then_body@, 0, opened, Seq::empty());
            let turned = turn_conditional(
                then_part.state,
                tested.state.builder.next_block(),
                Block((tested.state.builder.blocks.len() + 1) as usize),
                last_or(
                    then_part.result->Ok_0,
                    Value((tested.state.builder.values.len() + 1) as usize),
                ),
            );
            lemma_failure_points(*condition, s);
            lemma_failure_points_each(then_body@, 0, opened, Seq::empty());
            lemma_failure_points_each(else_body@, 0, turned, Seq::empty());
        },
        Expr::WhileLoop(condition, body) => {
            let opened = open_loop(s);
            let tested = lower_expr(*condition, opened);
            lemma_table_fixed(*condition, opened);
            let branched = tested.state.emit(
                OpView::Brz(
                    tested.result->Ok_0,
                    Block((s.builder.blocks.len() + 1) as usize),
                    Seq::empty(),
                ),
            );
            lemma_failure_points(*condition, opened);
            lemma_failure_points_each(body@, 0, branched, Seq::empty());
        },
        Expr::Call(callee, args) => {
            let signature = integer_signature(args@.len());
            let declared = declare(s.module, callee@, Linkage::Export, signature);
            let imported = Lowering { module: declared.decls, ..s }.emit(
                OpView::ImportFunction(declared.id->Some_0, signature),
            );
            lemma_failure_points_each(args@, 0, imported, Seq::empty());
        },
    }
}

/// A failure of the lowering of the expressions from position `i` on
/// points into them.
pub(crate) proof fn lemma_failure_points_each(
    exprs: Seq<Expr>,
    i: int,
    s: Lowering,
    done: Seq<Value>,
)
    ensures
        lower_each(exprs, i, s, done).result matches Err(failure) ==> points_at(
            failure,
            exprs,
            i,
            s.variables,
        ),
    decreases exprs, exprs.len() - i,
{
    if 0 <= i < exprs.len() {
        let next = lower_expr(exprs[i], s);
        lemma_table_fixed(exprs[i], s);
        lemma_failure_points(exprs[i], s);
        if next.result is Ok {
            lemma_failure_points_each(exprs, i + 1, next.state, done.push(next.result->Ok_0));
        }
    }
}

/// Every name of the table satisfies `ok`.
pub open spec fn all_names(table: Seq<Seq<char>>, ok: spec_fn(Seq<char>) -> bool) -> bool {
    forall|k: int| 0 <= k < table.len() ==> ok(#[trigger] table[k])
}

/// A name that the table holds is one of its entries.
proof fn lemma_lookup_entry(table: Seq<Seq<char>>, name: Seq<char>)
    ensures
        lookup(table, name) is Some <==> exists|k: int| 0 <= k < table.len() && table[k] == name,
{
    if lookup(table, name) is Some {
        let k = choose|k: int| at(table, name, k);
        assert(0 <= k < table.len() && table[k] == name);
    }
    if exists|k: int| 0 <= k < table.len() && table[k] == name {
        let k = choose|k: int| 0 <= k < table.len() && table[k] == name;
        assert(at(table, name, k));
    }
}

/// Meeting a name that satisfies `ok` keeps a table of such names one.
proof fn lemma_declare_name_ok(d: Declaring, name: Seq<char>, ok: spec_fn(Seq<char>) -> bool)
    requires
        all_names(d.table, ok),
        ok(name),
    ensures
        all_names(declare_name(d, name).table, ok),
        lookup(declare_name(d, name).table, name) is Some,
        forall|other: Seq<char>|
            lookup(d.table, other) is Some ==> lookup(declare_name(d, name).table, other) is Some,
{
    let after = declare_name(d, name).table;
    lemma_lookup_entry(d.table, name);
    lemma_lookup_entry(after, name);
    if lookup(d.table, name) is None {
        assert(after[d.table.len() as int] == name);
    }
    assert forall|other: Seq<char>| lookup(d.table, other) is Some implies lookup(
        after,
        other,
    ) is Some by {
        lemma_lookup_entry(d.table, other);
        lemma_lookup_entry(after, other);
        let k = choose|k: int| 0 <= k < d.table.len() && d.table[k] == other;
        assert(after[k] == other);
    }
}

/// What is found in an expression inside an expression is found in the
/// expression.
pub(crate) proof fn lemma_found_inside(e: Expr, p: spec_fn(Expr) -> bool)
    ensures
        e is Assign ==> (occurs(*e->Assign_1, p) ==> occurs(e, p)),
        e is IfElse ==> (occurs(*e->IfElse_0, p) || occurs_from(e->IfElse_1@, 0, p) || occurs_from(
            e->IfElse_2@,
            0,
            p,
        ) ==> occurs(e, p)),
        e is WhileLoop ==> (occurs(*e->WhileLoop_0, p) || occurs_from(e->WhileLoop_1@, 0, p)
            ==> occurs(e, p)),
        e is Call ==> (occurs_from(e->Call_1@, 0, p) ==> occurs(e, p)),
        is_binary(e) ==> (occurs(operands(e).0, p) || occurs(
            operands(e).1,
            p,
        ) ==> occurs(e, p)),
        p(e) ==> occurs(e, p),
{
}

/// The pass over an expression adds only names that the expression assigns
/// to, and keeps the names that the table holds.
proof fn lemma_scan_names(e: Expr, d: Declaring, ok: spec_fn(Seq<char>) -> bool)
    requires
        all_names(d.table, ok),
        forall|name: Seq<char>| occurs(e, assignment_to(name)) ==> #[trigger] ok(name),
    ensures
        all_names(scan_stmt(e, d).table, ok),
        forall|other: Seq<char>|
            lookup(d.table, other) is Some ==> lookup(scan_stmt(e, d).table, other) is Some,
    decreases e, 0nat,
{
    assert forall|other: Seq<char>| lookup(d.table, other) is Some implies lookup(
        scan_stmt(e, d).table,
        other,
    ) is Some by {
        lemma_scan_knows(e, d);
        lemma_lookup_kept(d.table, scan_stmt(e, d).table, other);
    }
    match e {
        Expr::Literal(_) => {},
        Expr::Identifier(_) => {},
        Expr::Assign(name, rhs) => {
            assert(occurs(e, assignment_to(name@)));
            lemma_declare_name_ok(d, name@, ok);
            assert forall|other: Seq<char>|
                occurs(*rhs, assignment_to(other)) implies #[trigger] ok(other) by {
                lemma_found_inside(e, assignment_to(other));
            }
            lemma_scan_names(*rhs, declare_name(d, name@), ok);
        },
        Expr::IfElse(condition, then_body, else_body) => {
            assert forall|name: Seq<char>|
                occurs(*condition, assignment_to(name)) implies #[trigger] ok(name) by {
                lemma_found_inside(e, assignment_to(name));
            }
            assert forall|name: Seq<char>|
                occurs_from(then_body@, 0, assignment_to(name)) implies #[trigger] ok(name) by {
                lemma_found_inside(e, assignment_to(name));
            }
            assert forall|name: Seq<char>|
                occurs_from(else_body@, 0, assignment_to(name)) implies #[trigger] ok(name) by {
                lemma_found_inside(e, assignment_to(name));
            }
            let tested = scan_stmt(*condition, d);
            lemma_scan_names(*condition, d, ok);
            lemma_scan_names_each(then_body@, 0, tested, ok);
            lemma_scan_names_each(else_body@, 0, scan_stmts(then_body@, 0, tested), ok);
        },
        Expr::WhileLoop(condition, body) => {
            assert forall|name: Seq<char>|
                occurs(*condition, assignment_to(name)) implies #[trigger] ok(name) by {
                lemma_found_inside(e, assignment_to(name));
            }
            assert forall|name: Seq<char>|
                occurs_from(body@, 0, assignment_to(name)) implies #[trigger] ok(name) by {
                lemma_found_inside(e, assignment_to(name));
            }
            lemma_scan_names(*condition, d, ok);
            lemma_scan_names_each(body@, 0, scan_stmt(*condition, d), ok);
        },
        Expr::Call(_, args) => {
            assert forall|name: Seq<char>|
                occurs_from(args@, 0, assignment_to(name)) implies #[trigger] ok(name) by {
                lemma_found_inside(e, assignment_to(name));
            }
            lemma_scan_names_each(args@, 0, d, ok);
        },
        _ => {
            let (lhs, rhs) = operands(e);
            assert forall|name: Seq<char>|
                occurs(lhs, assignment_to(name)) implies #[trigger] ok(name) by {
                lemma_found_inside(e, assignment_to(name));
            }
            assert forall|name: Seq<char>|
                occurs(rhs, assignment_to(name)) implies #[trigger] ok(name) by {
                lemma_found_inside(e, assignment_to(name));
            }
            lemma_scan_names(lhs, d, ok);
            lemma_scan_names(rhs, scan_stmt(lhs, d), ok);
        },
    }
}

/// The pass over statements adds only names that the statements assign to,
/// and keeps the names that the table holds.
pub(crate) proof fn lemma_scan_names_each(
    stmts: Seq<Expr>,
    i: int,
    d: Declaring,
    ok: spec_fn(Seq<char>) -> bool,
)
    requires
        all_names(d.table, ok),
        forall|name: Seq<char>| occurs_from(stmts, i, assignment_to(name)) ==> #[trigger] ok(name),
    ensures
        all_names(scan_stmts(stmts, i, d).table, ok),
        forall|other: Seq<char>|
            lookup(d.table, other) is Some ==> lookup(scan_stmts(stmts, i, d).table, other) is Some,
    decreases stmts, stmts.len() - i,
{
    if 0 <= i < stmts.len() {
        assert forall|name: Seq<char>|
            occurs(stmts[i], assignment_to(name)) implies #[trigger] ok(name) by {
            assert(occurs_from(stmts, i, assignment_to(name)));
        }
        assert forall|name: Seq<char>|
            occurs_from(stmts, i + 1, assignment_to(name)) implies #[trigger] ok(name) by {
            assert(occurs_from(stmts, i, assignment_to(name)));
        }
        lemma_scan_names(stmts[i], d, ok);
        lemma_scan_names_each(stmts, i + 1, scan_stmt(stmts[i], d), ok);
    }
}

/// Binding the parameters adds only parameters, and afterwards the table
/// holds every parameter from position `i` on and what it held.
proof fn lemma_bind_params_names(
    params: Seq<Seq<char>>,
    i: int,
    d: Declaring,
    entry_params: Seq<Value>,
    ok: spec_fn(Seq<char>) -> bool,
)
    requires
        0 <= i,
        all_names(d.table, ok),
        forall|k: int| 0 <= k < params.len() ==> ok(#[trigger] params[k]),
    ensures
        all_names(bind_params(params, i, d, entry_params).table, ok),
        forall|k: int|
            i <= k < params.len() ==> lookup(
                bind_params(params, i, d, entry_params).table,
                #[trigger] params[k],
            ) is Some,
        forall|other: Seq<char>|
            lookup(d.table, other) is Some ==> lookup(
                bind_params(params, i, d, entry_params).table,
                other,
            ) is Some,
    decreases params.len() - i,
{
    if i < params.len() {
        let met = declare_name(d, params[i]);
        lemma_declare_name_ok(d, params[i], ok);
        let var = lookup(met.table, params[i])->Some_0;
        let bound = Declaring {
            builder: met.builder.step(OpView::DefVar(var, entry_params[i])),
            ..met
        };
        lemma_bind_params_names(params, i + 1, bound, entry_params, ok);
    }
}

/// Every name.
pub open spec fn any_name() -> spec_fn(Seq<char>) -> bool {
    |name: Seq<char>| true
}

/// A table that holds the target of every assignment in an expression
/// holds every name that the expression assigns to.
pub(crate) proof fn lemma_known_covers(e: Expr, table: Seq<Seq<char>>, name: Seq<char>)
    requires
        targets_known(e, table),
        occurs(e, assignment_to(name)),
    ensures
        lookup(table, name) is Some,
    decreases e, 1nat,
{
    let p = assignment_to(name);
    if !p(e) {
        match e {
            Expr::Literal(_) => {},
            Expr::Identifier(_) => {},
            Expr::Assign(_, rhs) => {
                lemma_known_covers(*rhs, table, name);
            },
            Expr::IfElse(condition, then_body, else_body) => {
                if occurs(*condition, p) {
                    lemma_known_covers(*condition, table, name);
                } else if occurs_from(then_body@, 0, p) {
                    lemma_known_covers_from(then_body@, 0, table, name);
                } else {
                    lemma_known_covers_from(else_body@, 0, table, name);
                }
            },
            Expr::WhileLoop(condition, body) => {
                if occurs(*condition, p) {
                    lemma_known_covers(*condition, table, name);
                } else {
                    lemma_known_covers_from(body@, 0, table, name);
                }
            },
            Expr::Call(_, args) => {
                lemma_known_covers_from(args@, 0, table, name);
            },
            _ => {
                let (lhs, rhs) = operands(e);
                if occurs(lhs, p) {
                    lemma_known_covers(lhs, table, name);
                } else {
                    lemma_known_covers(rhs, table, name);
                }
            },
        }
    }
}

/// A table that holds the target of every assignment in a list of
/// expressions holds every name that one of them assigns to.
pub(crate) proof fn lemma_known_covers_from(
    exprs: Seq<Expr>,
    i: int,
    table: Seq<Seq<char>>,
    name: Seq<char>,
)
    requires
        targets_known_from(exprs, i, table),
        occurs_from(exprs, i, assignment_to(name)),
    ensures
        lookup(table, name) is Some,
    decreases exprs, exprs.len() - i,
{
    if 0 <= i < exprs.len() {
        if occurs(exprs[i], assignment_to(name)) {
            lemma_known_covers(exprs[i], table, name);
        } else {
            lemma_known_covers_from(exprs, i + 1, table, name);
        }
    }
}

/// The variable table holds the target of every assignment in the
/// function, at any depth: in a statement, in the body of a conditional or
/// a loop, in a condition, in an operand, in the right-hand side of another
/// assignment, in the argument of a call.
pub proof fn law_table_covers_assignments(
    builder: BuilderState,
    params: Seq<Seq<char>>,
    the_return: Seq<char>,
    stmts: Seq<Expr>,
    entry_block: Block,
    name: Seq<char>,
)
    requires
        occurs_from(stmts, 0, assignment_to(name)),
    ensures
        lookup(declare_all(builder, params, the_return, stmts, entry_block).table, name) is Some,
        targets_known_from(
            stmts,
            0,
            declare_all(builder, params, the_return, stmts, entry_block).table,
        ),
{
    let start = Declaring { builder, table: Seq::empty() };
    let bound = bind_params(params, 0, start, builder.block(entry_block).params);
    let named = bind_result(the_return, bound);
    lemma_scan_knows_from(stmts, 0, named);
    lemma_known_covers_from(stmts, 0, scan_stmts(stmts, 0, named).table, name);
}

/// Whether an expression is made of literals, reads of variables,
/// arithmetic and comparisons alone.
pub open spec fn is_straight(e: Expr) -> bool
    decreases e,
{
    match e {
        Expr::Literal(_) => true,
        Expr::Identifier(_) => true,
        Expr::Add(lhs, rhs) | Expr::Sub(lhs, rhs) | Expr::Mul(lhs, rhs) | Expr::Div(lhs, rhs) => is_straight(
            *lhs,
        ) && is_straight(*rhs),
        Expr::Eq(lhs, rhs) | Expr::Ne(lhs, rhs) | Expr::Lt(lhs, rhs) | Expr::Le(lhs, rhs) | Expr::Gt(
            lhs,
            rhs,
        ) | Expr::Ge(lhs, rhs) => is_straight(*lhs) && is_straight(*rhs),
        _ => false,
    }
}

/// An expression made of literals, reads of variables, arithmetic and
/// comparisons is lowered within the current block: where an instruction
/// can be added before the lowering, one can be added after it; it creates
/// no block and leaves the current block the current one, keeps the steps
/// taken before it, and where it succeeds adds at least one step.
pub proof fn law_straight_stays_in_block(e: Expr, s: Lowering)
    requires
        is_straight(e),
        s.builder.can_emit(),
    ensures
        lower_expr(e, s).state.builder.can_emit(),
        lower_expr(e, s).state.builder.current == s.builder.current,
        lower_expr(e, s).state.builder.blocks.len() == s.builder.blocks.len(),
        s.builder.code.len() <= lower_expr(e, s).state.builder.code.len(),
        forall|i: int|
            0 <= i < s.builder.code.len() ==> lower_expr(e, s).state.builder.code[i]
                == s.builder.code[i],
        lower_expr(e, s).result is Ok ==> s.builder.code.len() < lower_expr(
            e,
            s,
        ).state.builder.code.len(),
    decreases e,
{
    if e is Literal || e is Identifier {
    } else {
        let (lhs, rhs) = match e {
            Expr::Add(lhs, rhs) | Expr::Sub(lhs, rhs) | Expr::Mul(lhs, rhs) | Expr::Div(lhs, rhs) => (
                *lhs,
                *rhs,
            ),
            Expr::Eq(lhs, rhs) | Expr::Ne(lhs, rhs) | Expr::Lt(lhs, rhs) | Expr::Le(lhs, rhs) | Expr::Gt(
                lhs,
                rhs,
            ) | Expr::Ge(lhs, rhs) => (*lhs, *rhs),
            _ => (e, e),
        };
        let a = lower_expr(lhs, s);
        let b = lower_expr(rhs, a.state);
        law_straight_stays_in_block(lhs, s);
        law_straight_stays_in_block(rhs, a.state);
        let after = lower_expr(e, s).state.builder;
        assert(after.current == s.builder.current);
        assert(after.blocks.len() == s.builder.blocks.len());
        assert forall|i: int| 0 <= i < s.builder.code.len() implies after.code[i]
            == s.builder.code[i] by {
            assert(b.state.builder.code[i] == a.state.builder.code[i]);
        }
    }
}

/// A name that is a parameter, the name of the result, or the target of an
/// assignment somewhere among the statements.
pub open spec fn introduced(
    params: Seq<Seq<char>>,
    the_return: Seq<char>,
    stmts: Seq<Expr>,
) -> spec_fn(Seq<char>) -> bool {
    |name: Seq<char>|
        params.contains(name) || name == the_return || occurs_from(stmts, 0, assignment_to(name))
}

/// The variable table holds every parameter and the name of the result,
/// and holds no name but parameters, the name of the result, and targets of
/// assignments among the statements.
pub proof fn law_table_names(
    builder: BuilderState,
    params: Seq<Seq<char>>,
    the_return: Seq<char>,
    stmts: Seq<Expr>,
    entry_block: Block,
)
    ensures
        all_names(
            declare_all(builder, params, the_return, stmts, entry_block).table,
            introduced(params, the_return, stmts),
        ),
        forall|k: int|
            0 <= k < params.len() ==> lookup(
                declare_all(builder, params, the_return, stmts, entry_block).table,
                #[trigger] params[k],
            ) is Some,
        lookup(declare_all(builder, params, the_return, stmts, entry_block).table, the_return) is Some,
{
    let ok = introduced(params, the_return, stmts);
    let start = Declaring { builder, table: Seq::empty() };
    let entry_params = builder.block(entry_block).params;
    let bound = bind_params(params, 0, start, entry_params);
    lemma_bind_params_names(params, 0, start, entry_params, ok);
    let zeroed = Declaring { builder: bound.builder.step(OpView::Iconst(0)), ..bound };
    lemma_declare_name_ok(zeroed, the_return, ok);
    let named = bind_result(the_return, bound);
    assert(named.table == declare_name(zeroed, the_return).table);
    lemma_scan_names_each(stmts, 0, named, ok);
    let table = declare_all(builder, params, the_return, stmts, entry_block).table;
    assert forall|k: int| 0 <= k < params.len() implies lookup(table, #[trigger] params[k]) is Some by {
        assert(lookup(bound.table, params[k]) is Some);
        assert(lookup(named.table, params[k]) is Some);
    }
}

/// The variable table holds exactly the names that the function
/// introduces: its parameters, the name of its result, and the targets of
/// the assignments in its statements, at any depth. A name that is only
/// read is not among them.
pub proof fn law_table_holds_what_is_introduced(
    builder: BuilderState,
    params: Seq<Seq<char>>,
    the_return: Seq<char>,
    stmts: Seq<Expr>,
    entry_block: Block,
)
    ensures
        forall|name: Seq<char>|
            (#[trigger] lookup(
                declare_all(builder, params, the_return, stmts, entry_block).table,
                name,
            )) is Some <==> (params.contains(name) || name == the_return || occurs_from(
                stmts,
                0,
                assignment_to(name),
            )),
{
    let table = declare_all(builder, params, the_return, stmts, entry_block).table;
    let ok = introduced(params, the_return, stmts);
    law_table_names(builder, params, the_return, stmts, entry_block);
    assert forall|name: Seq<char>| (#[trigger] lookup(table, name)) is Some <==> (params.contains(
        name,
    ) || name == the_return || occurs_from(stmts, 0, assignment_to(name))) by {
        lemma_lookup_entry(table, name);
        if lookup(table, name) is Some {
            let k = choose|k: int| 0 <= k < table.len() && table[k] == name;
            assert(ok(table[k]));
        }
        if occurs_from(stmts, 0, assignment_to(name)) {
            law_table_covers_assignments(builder, params, the_return, stmts, entry_block, name);
        }
        if params.contains(name) {
            let k = choose|k: int| 0 <= k < params.len() && params[k] == name;
            assert(lookup(table, params[k]) is Some);
        }
    }
}

/// A function that reads a name which is no parameter, not the name of the
/// result, and nowhere the target of an assignment cannot be lowered: the
/// lowering fails. Its failure points at a literal among the statements
/// that denotes no number, at a callee among them, or at a name that is read
/// among them and that the variable table does not hold.
pub proof fn law_undeclared_read_fails(
    module: Seq<DeclView>,
    params: Seq<Seq<char>>,
    the_return: Seq<char>,
    stmts: Seq<Expr>,
    name: Seq<char>,
)
    requires
        occurs_from(stmts, 0, read_of(name)),
        !params.contains(name),
        name != the_return,
        !occurs_from(stmts, 0, assignment_to(name)),
    ensures
        lower_function(module, params, the_return, stmts).result is Err,
        points_at(
            lower_function(module, params, the_return, stmts).result->Err_0,
            stmts,
            0,
            open_function(module, params, the_return, stmts).variables,
        ),
        lookup(open_function(module, params, the_return, stmts).variables, name) is None,
{
    let start = open_function(module, params, the_return, stmts);
    let table = start.variables;
    let ok = introduced(params, the_return, stmts);
    assert(!ok(name));
    assert(all_names(table, ok)) by {
        let entry_block = Block(0);
        let entered = entry_params(
            BuilderState::new(integer_signature(params.len())).step(
                OpView::CreateBlock,
            ),
            entry_block,
            params.len(),
        ).step(OpView::SwitchToBlock(entry_block));
        law_table_names(entered, params, the_return, stmts, entry_block);
    }
    lemma_lookup_entry(table, name);
    lemma_read_fails_each(stmts, 0, start, Seq::empty(), name);
    lemma_failure_points_each(stmts, 0, start, Seq::empty());
}

/// The lowering of a function fails for an undeclared name only where the
/// name is read among the statements and is no parameter, not the name of
/// the result, and nowhere the target of an assignment: no assignment fails
/// for its target.
pub proof fn law_undeclared_is_read_and_never_introduced(
    module: Seq<DeclView>,
    params: Seq<Seq<char>>,
    the_return: Seq<char>,
    stmts: Seq<Expr>,
    name: Seq<char>,
)
    requires
        lower_function(module, params, the_return, stmts).result == Err::<(), Failure>(
            Failure::UndeclaredIdentifier(name),
        ),
    ensures
        occurs_from(stmts, 0, read_of(name)),
        !params.contains(name),
        name != the_return,
        !occurs_from(stmts, 0, assignment_to(name)),
{
    let start = open_function(module, params, the_return, stmts);
    let entry_block = Block(0);
    let entered = entry_params(
        BuilderState::new(integer_signature(params.len())).step(OpView::CreateBlock),
        entry_block,
        params.len(),
    ).step(OpView::SwitchToBlock(entry_block));
    lemma_failure_points_each(stmts, 0, start, Seq::empty());
    law_table_names(entered, params, the_return, stmts, entry_block);
    if occurs_from(stmts, 0, assignment_to(name)) {
        law_table_covers_assignments(entered, params, the_return, stmts, entry_block, name);
    }
    if params.contains(name) {
        let k = choose|k: int| 0 <= k < params.len() && params[k] == name;
        assert(lookup(start.variables, params[k]) is Some);
    }
}

} // verus!
