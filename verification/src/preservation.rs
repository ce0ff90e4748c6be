//! The code of a lowered function computes what the function denotes: a
//! run of the listing, following its jumps and branches, returns the number
//! that a call of the function denotes.

use vstd::prelude::*;
use crate::ast::Expr;
use crate::builder::{replay, well_formed, BuilderState};
use crate::growth::{
    bare,
    covers,
    grows,
    lemma_close_conditional_grows,
    lemma_covers_at,
    lemma_covers_bare,
    lemma_covers_before,
    lemma_emit2_grows,
    lemma_emit3_grows,
    lemma_emit4_grows,
    lemma_emit_grows,
    lemma_grows_facts,
    lemma_grows_on,
    lemma_grows_same,
    lemma_handle_defined,
    lemma_lowering_grows,
    lemma_lowering_grows_each,
    lemma_placed_after,
    lemma_placed_facts,
    lemma_prologue_grows,
    placed,
};
use crate::ir::{integer_signature, Block, OpView, SignatureView, Type, Value, Variable};
use crate::literal::literal_value;
use crate::lowering::{
    arithmetic_of,
    close_conditional,
    close_loop,
    condition_of,
    entry_params,
    last_or,
    lower_each,
    lower_expr,
    lower_function,
    open_conditional,
    open_function,
    open_loop,
    turn_conditional,
    Lowering,
};
use crate::machine::{
    comes_back,
    define,
    entered_with,
    enters,
    handle_at,
    is_zero,
    kept,
    leads,
    lemma_binding_step,
    lemma_follow_one,
    lemma_follow_plain,
    lemma_kept_insert,
    lemma_kept_number,
    lemma_kept_on,
    lemma_kept_same,
    lemma_leads_here,
    lemma_leads_on,
    lemma_leads_step,
    lemma_leads_to_return,
    lemma_legal_at,
    lemma_merge_params,
    lemma_plain_jump_runs,
    lemma_skip_runs,
    lemma_skips_run,
    number_of,
    step,
    Outcome,
    State,
};
use crate::meaning::{denotes, eval, eval_each, lemma_eval_keeps_each};
use crate::module::DeclView;
use crate::names::distinct;
use crate::semantics::{apply, holds, is_binary, is_comparison, operands, widen, Datum};
use crate::straight::{
    lemma_table_knows,
    agrees,
    bound_at_entry,
    called_with,
    lemma_agrees_insert,
    lemma_entry_runs,
    lemma_lookup_position,
    lemma_prologue_runs,
    perform,
    perform_all,
    Env,
    Machine,
};

use crate::variables::{lookup, targets_known, targets_known_from};

verus! {

/// The cells hold what the variables hold.
#[verifier::opaque]
pub open spec fn tuned(table: Seq<Seq<char>>, env: Env, cells: Map<Variable, Datum>) -> bool {
    agrees(table, env, cells)
}

/// The cell of a name that holds a number holds the number.
pub(crate) proof fn lemma_tuned_read(
    table: Seq<Seq<char>>,
    env: Env,
    cells: Map<Variable, Datum>,
    name: Seq<char>,
)
    requires
        tuned(table, env, cells),
        table.len() <= usize::MAX,
        lookup(table, name) is Some,
        env.dom().contains(name),
    ensures
        cells.dom().contains(lookup(table, name)->Some_0),
        cells[lookup(table, name)->Some_0] == Datum::Int(env[name]),
{
    reveal(tuned);
    lemma_lookup_position(table, name);
}

/// Binding a name to a number, in the variables and in its cell, keeps the
/// cells in tune.
pub(crate) proof fn lemma_tuned_insert(
    table: Seq<Seq<char>>,
    env: Env,
    cells: Map<Variable, Datum>,
    name: Seq<char>,
    number: i32,
)
    requires
        tuned(table, env, cells),
        distinct(table),
        table.len() <= usize::MAX,
        lookup(table, name) is Some,
    ensures
        tuned(
            table,
            env.insert(name, number),
            cells.insert(lookup(table, name)->Some_0, Datum::Int(number)),
        ),
{
    reveal(tuned);
    lemma_agrees_insert(table, env, cells, name, number);
}

/// The run of a step that defines a value, at a placed state.
pub(crate) proof fn lemma_define_runs(
    code: Seq<OpView>,
    s: Lowering,
    st: State,
    datum: Datum,
) -> (to: State)
    requires
        placed(code, s),
        s.builder.values.len() < usize::MAX,
        st.pc == s.builder.code.len(),
        step(s.builder.signature, code, st) == define(s.builder.signature, code, st, datum),
    ensures
        leads(s.builder.signature, code, st, to),
        to == (State {
            pc: st.pc + 1,
            values: st.values.insert(s.builder.next_value(), datum),
            ..st
        }),
        kept(st, to, s.builder.values.len()),
        number_of(to, s.builder.next_value()) == (if datum is Int {
            Some(datum->Int_0)
        } else {
            None
        }),
{
    lemma_placed_facts(code, s);
    let to = State { pc: st.pc + 1, values: st.values.insert(s.builder.next_value(), datum), ..st };
    lemma_leads_step(s.builder.signature, code, st, to);
    lemma_kept_insert(st, to, s.builder.next_value(), datum, s.builder.values.len());
    to
}

/// What the run of a lowered expression must reach from the state `from`:
/// the position after the expression's last step, cells that hold what the
/// variables hold after the expression, the expression's number at its
/// handle, and the values defined before the expression as they were.
pub open spec fn arrives(
    from: State,
    to: State,
    s: Lowering,
    after: Lowering,
    value: Value,
    denoted: (i32, Env),
) -> bool {
    &&& to.pc == after.builder.code.len()
    &&& tuned(s.variables, denoted.1, to.cells)
    &&& number_of(to, value) == Some(denoted.0)
    &&& kept(from, to, s.builder.values.len())
}

/// A run is about to take the first step of a lowered expression: the
/// lowering is placed in the listing and succeeds, the table holds the
/// targets of the expression's assignments, the expression denotes a
/// number, and the cells hold what the variables hold.
pub open spec fn ready(
    e: Expr,
    s: Lowering,
    code: Seq<OpView>,
    st: State,
    env: Env,
    fuel: nat,
) -> bool {
    &&& placed(code, s)
    &&& targets_known(e, s.variables)
    &&& lower_expr(e, s).result is Ok
    &&& covers(code, lower_expr(e, s).state)
    &&& lower_expr(e, s).state.builder.values.len() <= usize::MAX
    &&& eval(e, env, fuel) is Some
    &&& st.pc == s.builder.code.len()
    &&& tuned(s.variables, env, st.cells)
}

/// A run has taken the steps of a lowered expression.
pub open spec fn run_through(
    e: Expr,
    s: Lowering,
    code: Seq<OpView>,
    st: State,
    env: Env,
    fuel: nat,
    to: State,
) -> bool {
    &&& leads(s.builder.signature, code, st, to)
    &&& arrives(
        st,
        to,
        s,
        lower_expr(e, s).state,
        lower_expr(e, s).result->Ok_0,
        eval(e, env, fuel)->Some_0,
    )
}

/// The run of a lowered literal.
proof fn lemma_literal_runs(
    e: Expr,
    s: Lowering,
    code: Seq<OpView>,
    st: State,
    env: Env,
    fuel: nat,
) -> (to: State)
    requires
        e is Literal,
        ready(e, s, code, st, env, fuel),
    ensures
        run_through(e, s, code, st, env, fuel, to),
{
    let imm = literal_value(e->Literal_0@)->Some_0;
    let lowered = lower_expr(e, s);
    lemma_covers_at(code, lowered.state, st.pc);
    let to = lemma_define_runs(code, s, st, Datum::Int(imm));
    to
}

/// The run of a lowered read of a variable.
proof fn lemma_identifier_runs(
    e: Expr,
    s: Lowering,
    code: Seq<OpView>,
    st: State,
    env: Env,
    fuel: nat,
) -> (to: State)
    requires
        e is Identifier,
        ready(e, s, code, st, env, fuel),
    ensures
        run_through(e, s, code, st, env, fuel, to),
{
    let name = e->Identifier_0@;
    let var = lookup(s.variables, name)->Some_0;
    let lowered = lower_expr(e, s);
    lemma_placed_facts(code, s);
    lemma_covers_at(code, lowered.state, st.pc);
    lemma_tuned_read(s.variables, env, st.cells, name);
    let to = lemma_define_runs(code, s, st, st.cells[var]);
    to
}

/// The run of a lowered assignment.
proof fn lemma_assign_runs(
    e: Expr,
    s: Lowering,
    code: Seq<OpView>,
    st: State,
    env: Env,
    fuel: nat,
) -> (to: State)
    requires
        e is Assign,
        ready(e, s, code, st, env, fuel),
    ensures
        run_through(e, s, code, st, env, fuel, to),
    decreases fuel, e, 0nat,
{
    let name = e->Assign_0@;
    let rhs = *e->Assign_1;
    let signature = s.builder.signature;
    let lowered = lower_expr(e, s);
    let assigned = lower_expr(rhs, s);
    let var = lookup(s.variables, name)->Some_0;
    let v = assigned.result->Ok_0;
    let op = OpView::DefVar(var, v);
    lemma_placed_facts(code, s);
    lemma_lowering_grows(rhs, s);
    lemma_emit_grows(assigned.state, op);
    lemma_grows_facts(s, assigned.state);
    lemma_grows_facts(assigned.state, lowered.state);
    lemma_covers_before(code, assigned.state, lowered.state);
    let mid = lemma_expr_runs(rhs, s, code, st, env, fuel);
    let x = eval(rhs, env, fuel)->Some_0;
    lemma_covers_at(code, lowered.state, mid.pc);
    let to = lemma_binding_step(signature, code, mid, var, v);
    lemma_leads_on(signature, code, st, mid, to);
    lemma_tuned_insert(s.variables, x.1, mid.cells, name, x.0);
    lemma_kept_same(mid, to, s.builder.values.len());
    lemma_kept_on(st, mid, to, s.builder.values.len(), s.builder.values.len());
    to
}

/// The run of the operands of a lowered expression with two operands, left
/// before right.
proof fn lemma_operands_run(
    e: Expr,
    s: Lowering,
    code: Seq<OpView>,
    st: State,
    env: Env,
    fuel: nat,
) -> (to: State)
    requires
        is_binary(e),
        ready(e, s, code, st, env, fuel),
    ensures
        ({
            let a = lower_expr(operands(e).0, s);
            let b = lower_expr(operands(e).1, a.state);
            let x = eval(operands(e).0, env, fuel)->Some_0;
            let y = eval(operands(e).1, x.1, fuel)->Some_0;
            &&& eval(operands(e).0, env, fuel) is Some
            &&& eval(operands(e).1, x.1, fuel) is Some
            &&& a.result is Ok
            &&& b.result is Ok
            &&& leads(s.builder.signature, code, st, to)
            &&& arrives(st, to, s, b.state, b.result->Ok_0, y)
            &&& number_of(to, a.result->Ok_0) == Some(x.0)
            &&& placed(code, b.state)
            &&& b.state.variables == s.variables
            &&& s.builder.values.len() <= b.state.builder.values.len()
            &&& b.state.builder.signature == s.builder.signature
        }),
    decreases fuel, e, 0nat,
{
    let (lhs, rhs) = operands(e);
    let lowered = lower_expr(e, s);
    let a = lower_expr(lhs, s);
    let b = lower_expr(rhs, a.state);
    lemma_lowering_grows(lhs, s);
    lemma_lowering_grows(rhs, a.state);
    lemma_lowering_grows(e, s);
    lemma_grows_on(s, a.state, b.state);
    lemma_grows_facts(s, a.state);
    lemma_grows_facts(a.state, b.state);
    if is_comparison(e) {
        let compare = OpView::Compare(condition_of(e), a.result->Ok_0, b.result->Ok_0);
        let bint = OpView::Bint(b.state.builder.next_value());
        lemma_emit2_grows(b.state, compare, bint);
    } else {
        lemma_emit_grows(
            b.state,
            OpView::Binary(arithmetic_of(e), a.result->Ok_0, b.result->Ok_0),
        );
    }
    lemma_grows_facts(b.state, lowered.state);
    lemma_covers_before(code, b.state, lowered.state);
    lemma_covers_before(code, a.state, b.state);
    lemma_placed_after(code, s, a.state);
    lemma_placed_after(code, s, b.state);
    lemma_handle_defined(lhs, s);
    let mid = lemma_expr_runs(lhs, s, code, st, env, fuel);
    let x = eval(lhs, env, fuel)->Some_0;
    let to = lemma_expr_runs(rhs, a.state, code, mid, x.1, fuel);
    lemma_leads_on(s.builder.signature, code, st, mid, to);
    lemma_kept_on(st, mid, to, s.builder.values.len(), a.state.builder.values.len());
    lemma_kept_number(mid, to, a.state.builder.values.len(), a.result->Ok_0);
    to
}

/// The run of a lowered arithmetic expression.
proof fn lemma_arithmetic_runs(
    e: Expr,
    s: Lowering,
    code: Seq<OpView>,
    st: State,
    env: Env,
    fuel: nat,
) -> (to: State)
    requires
        e is Add || e is Sub || e is Mul || e is Div,
        ready(e, s, code, st, env, fuel),
    ensures
        run_through(e, s, code, st, env, fuel, to),
    decreases fuel, e, 1nat,
{
    let signature = s.builder.signature;
    let lowered = lower_expr(e, s);
    let a = lower_expr(operands(e).0, s);
    let b = lower_expr(operands(e).1, a.state);
    let x = eval(operands(e).0, env, fuel)->Some_0;
    let y = eval(operands(e).1, x.1, fuel)->Some_0;
    let mid = lemma_operands_run(e, s, code, st, env, fuel);
    let number = apply(arithmetic_of(e), x.0, y.0)->Some_0;
    lemma_covers_at(code, lowered.state, mid.pc);
    let to = lemma_define_runs(code, b.state, mid, Datum::Int(number));
    lemma_leads_on(signature, code, st, mid, to);
    lemma_kept_on(st, mid, to, s.builder.values.len(), b.state.builder.values.len());
    to
}

/// The run of a lowered comparison.
proof fn lemma_comparison_runs(
    e: Expr,
    s: Lowering,
    code: Seq<OpView>,
    st: State,
    env: Env,
    fuel: nat,
) -> (to: State)
    requires
        is_comparison(e),
        ready(e, s, code, st, env, fuel),
    ensures
        run_through(e, s, code, st, env, fuel, to),
    decreases fuel, e, 1nat,
{
    let signature = s.builder.signature;
    let lowered = lower_expr(e, s);
    let a = lower_expr(operands(e).0, s);
    let b = lower_expr(operands(e).1, a.state);
    let x = eval(operands(e).0, env, fuel)->Some_0;
    let y = eval(operands(e).1, x.1, fuel)->Some_0;
    let compare = OpView::Compare(condition_of(e), a.result->Ok_0, b.result->Ok_0);
    let bint = OpView::Bint(b.state.builder.next_value());
    let truth = holds(condition_of(e), x.0, y.0);
    let mid = lemma_operands_run(e, s, code, st, env, fuel);
    lemma_emit_grows(b.state, compare);
    lemma_emit_grows(b.state.emit(compare), bint);
    lemma_grows_facts(b.state, b.state.emit(compare));
    lemma_covers_before(code, b.state.emit(compare), lowered.state);
    lemma_placed_after(code, b.state, b.state.emit(compare));
    lemma_covers_at(code, lowered.state, mid.pc);
    let compared = lemma_define_runs(code, b.state, mid, Datum::Bool(truth));
    lemma_covers_at(code, lowered.state, compared.pc);
    let to = lemma_define_runs(code, b.state.emit(compare), compared, Datum::Int(widen(truth)));
    lemma_leads_on(signature, code, st, mid, compared);
    lemma_leads_on(signature, code, st, compared, to);
    lemma_kept_on(st, mid, compared, s.builder.values.len(), b.state.builder.values.len());
    lemma_kept_on(
        st,
        compared,
        to,
        s.builder.values.len(),
        b.state.emit(compare).builder.values.len(),
    );
    to
}

/// The code of a lowered expression, run from its first step in a state
/// whose cells hold what the variables hold, arrives after its last step
/// with the expression's number at its handle.
pub(crate) proof fn lemma_expr_runs(
    e: Expr,
    s: Lowering,
    code: Seq<OpView>,
    st: State,
    env: Env,
    fuel: nat,
) -> (to: State)
    requires
        ready(e, s, code, st, env, fuel),
    ensures
        run_through(e, s, code, st, env, fuel, to),
    decreases fuel, e, 2nat,
{
    match e {
        Expr::Literal(_) => lemma_literal_runs(e, s, code, st, env, fuel),
        Expr::Identifier(_) => lemma_identifier_runs(e, s, code, st, env, fuel),
        Expr::Assign(_, _) => lemma_assign_runs(e, s, code, st, env, fuel),
        Expr::Add(_, _) => lemma_arithmetic_runs(e, s, code, st, env, fuel),
        Expr::Sub(_, _) => lemma_arithmetic_runs(e, s, code, st, env, fuel),
        Expr::Mul(_, _) => lemma_arithmetic_runs(e, s, code, st, env, fuel),
        Expr::Div(_, _) => lemma_arithmetic_runs(e, s, code, st, env, fuel),
        Expr::IfElse(_, _, _) => lemma_conditional_runs(e, s, code, st, env, fuel),
        Expr::WhileLoop(_, _) => lemma_loop_runs(e, s, code, st, env, fuel),
        Expr::Call(_, _) => st,
        _ => lemma_comparison_runs(e, s, code, st, env, fuel),
    }
}

/// The run of lowered expressions in order, from position `i` on, after
/// those before it gave the values `done`, the last of which holds `last`.
proof fn lemma_each_runs(
    stmts: Seq<Expr>,
    i: int,
    s: Lowering,
    done: Seq<Value>,
    code: Seq<OpView>,
    st: State,
    env: Env,
    fuel: nat,
    last: i32,
) -> (to: State)
    requires
        0 <= i <= stmts.len(),
        placed(code, s),
        targets_known_from(stmts, i, s.variables),
        lower_each(stmts, i, s, done).result is Ok,
        covers(code, lower_each(stmts, i, s, done).state),
        lower_each(stmts, i, s, done).state.builder.values.len() <= usize::MAX,
        eval_each(stmts, i, env, fuel, last) is Some,
        st.pc == s.builder.code.len(),
        tuned(s.variables, env, st.cells),
        done.len() > 0 ==> number_of(st, done.last()) == Some(last),
    ensures
        ({
            let after = lower_each(stmts, i, s, done);
            let values = after.result->Ok_0;
            let out = eval_each(stmts, i, env, fuel, last)->Some_0;
            &&& leads(s.builder.signature, code, st, to)
            &&& to.pc == after.state.builder.code.len()
            &&& tuned(s.variables, out.1, to.cells)
            &&& kept(st, to, s.builder.values.len())
            &&& done.len() <= values.len()
            &&& values.len() > 0 ==> number_of(to, values.last()) == Some(out.0)
            &&& values.len() == 0 ==> out.0 == last
        }),
    decreases fuel, stmts, stmts.len() - i,
{
    let signature = s.builder.signature;
    if i < stmts.len() {
        let next = lower_expr(stmts[i], s);
        let rest = done.push(next.result->Ok_0);
        let after = lower_each(stmts, i + 1, next.state, rest);
        assert(next.result is Ok);
        assert(lower_each(stmts, i, s, done) == after);
        assert(eval(stmts[i], env, fuel) is Some);
        let x = eval(stmts[i], env, fuel)->Some_0;
        assert(eval_each(stmts, i, env, fuel, last) == eval_each(stmts, i + 1, x.1, fuel, x.0));
        lemma_lowering_grows(stmts[i], s);
        lemma_lowering_grows_each(stmts, i + 1, next.state, rest);
        lemma_grows_facts(s, next.state);
        lemma_grows_facts(next.state, after.state);
        lemma_covers_before(code, next.state, after.state);
        lemma_placed_after(code, s, next.state);
        let mid = lemma_expr_runs(stmts[i], s, code, st, env, fuel);
        assert(rest.last() == next.result->Ok_0);
        let to = lemma_each_runs(stmts, i + 1, next.state, rest, code, mid, x.1, fuel, x.0);
        lemma_leads_on(signature, code, st, mid, to);
        lemma_kept_on(st, mid, to, s.builder.values.len(), next.state.builder.values.len());
        to
    } else {
        lemma_leads_here(signature, code, st);
        lemma_kept_same(st, st, s.builder.values.len());
        st
    }
}

/// The states that the lowering of a conditional goes through, and the
/// handles it gives out.
pub struct Branching {
    pub tested: Lowering,
    pub created: Lowering,
    pub branched: Lowering,
    pub opened: Lowering,
    pub then_part: Lowering,
    pub zeroing: Lowering,
    pub turned: Lowering,
    pub else_part: Lowering,
    pub closed: Lowering,
    pub condition: Value,
    pub else_block: Block,
    pub merge_block: Block,
    pub merged: Value,
    pub then_zero: Value,
    pub then_value: Value,
    pub else_zero: Value,
    pub else_value: Value,
}

/// The lowering of a conditional, taken apart.
pub open spec fn branching(e: Expr, s: Lowering) -> Branching {
    let tested = lower_expr(*e->IfElse_0, s);
    let condition = tested.result->Ok_0;
    let else_block = tested.state.builder.next_block();
    let merge_block = Block((tested.state.builder.blocks.len() + 1) as usize);
    let merged = tested.state.builder.next_value();
    let then_zero = Value((tested.state.builder.values.len() + 1) as usize);
    let created = tested.state.emit(OpView::CreateBlock).emit(OpView::CreateBlock);
    let branched = created.emit(OpView::AppendBlockParam(merge_block, Type::I32)).emit(
        OpView::Brz(condition, else_block, Seq::empty()),
    );
    let opened = open_conditional(tested.state, condition);
    let then_part = lower_each(e->IfElse_1@, 0, opened, Seq::empty());
    let then_value = last_or(then_part.result->Ok_0, then_zero);
    let zeroing = then_part.state.emit(OpView::Jump(merge_block, seq![then_value])).emit(
        OpView::SwitchToBlock(else_block),
    ).emit(OpView::SealBlock(else_block));
    let turned = turn_conditional(then_part.state, else_block, merge_block, then_value);
    let else_zero = then_part.state.builder.next_value();
    let else_part = lower_each(e->IfElse_2@, 0, turned, Seq::empty());
    let else_value = last_or(else_part.result->Ok_0, else_zero);
    let closed = close_conditional(else_part.state, merge_block, else_value);
    Branching {
        tested: tested.state,
        created,
        branched,
        opened,
        then_part: then_part.state,
        zeroing,
        turned,
        else_part: else_part.state,
        closed,
        condition,
        else_block,
        merge_block,
        merged,
        then_zero,
        then_value,
        else_zero,
        else_value,
    }
}

/// A state of the lowering of a conditional is placed in the listing and
/// has the table and the signature of the state the lowering began in.
pub open spec fn settled(code: Seq<OpView>, s: Lowering, x: Lowering) -> bool {
    &&& placed(code, x)
    &&& x.variables == s.variables
    &&& x.builder.signature == s.builder.signature
    &&& s.builder.values.len() <= x.builder.values.len()
    &&& x.builder.values.len() <= usize::MAX
}

/// Where the steps of a conditional stand in the listing.
pub open spec fn branching_laid_out(code: Seq<OpView>, s: Lowering, b: Branching) -> bool {
    let k0 = b.tested.builder.code.len() as int;
    let k1 = b.then_part.builder.code.len() as int;
    let k2 = b.else_part.builder.code.len() as int;
    &&& settled(code, s, b.tested)
    &&& settled(code, s, b.created)
    &&& settled(code, s, b.branched)
    &&& settled(code, s, b.opened)
    &&& settled(code, s, b.then_part)
    &&& settled(code, s, b.zeroing)
    &&& settled(code, s, b.turned)
    &&& settled(code, s, b.else_part)
    &&& settled(code, s, b.closed)
    &&& b.created.builder.code.len() == k0 + 2
    &&& b.branched.builder.code.len() == k0 + 4
    &&& b.opened.builder.code.len() == k0 + 5
    &&& b.zeroing.builder.code.len() == k1 + 3
    &&& b.turned.builder.code.len() == k1 + 4
    &&& b.closed.builder.code.len() == k2 + 3
    &&& k2 + 3 <= code.len()
    &&& code[k0] == OpView::CreateBlock
    &&& code[k0 + 1] == OpView::CreateBlock
    &&& code[k0 + 2] == OpView::AppendBlockParam(b.merge_block, Type::I32)
    &&& code[k0 + 3] == OpView::Brz(b.condition, b.else_block, Seq::empty())
    &&& code[k0 + 4] == OpView::Iconst(0)
    &&& code[k1] == OpView::Jump(b.merge_block, seq![b.then_value])
    &&& code[k1 + 1] == OpView::SwitchToBlock(b.else_block)
    &&& code[k1 + 2] == OpView::SealBlock(b.else_block)
    &&& code[k1 + 3] == OpView::Iconst(0)
    &&& code[k2] == OpView::Jump(b.merge_block, seq![b.else_value])
    &&& code[k2 + 1] == OpView::SwitchToBlock(b.merge_block)
    &&& code[k2 + 2] == OpView::SealBlock(b.merge_block)
    &&& b.created.builder.values.len() == b.tested.builder.values.len()
    &&& b.branched.builder.values.len() == b.tested.builder.values.len() + 1
    &&& b.opened.builder.values.len() == b.tested.builder.values.len() + 2
    &&& b.zeroing.builder.values.len() == b.then_part.builder.values.len()
    &&& b.turned.builder.values.len() == b.then_part.builder.values.len() + 1
    &&& b.opened.builder.values.len() <= b.then_part.builder.values.len()
    &&& b.turned.builder.values.len() <= b.else_part.builder.values.len()
    &&& k0 + 5 <= k1
    &&& k1 + 4 <= k2
    &&& b.merged == b.created.builder.next_value()
    &&& b.then_zero == b.branched.builder.next_value()
    &&& b.else_zero == b.zeroing.builder.next_value()
}

/// A state that grew out of a placed state into a covered state is settled.
proof fn lemma_settled(
    code: Seq<OpView>,
    s: Lowering,
    before: Lowering,
    x: Lowering,
    after: Lowering,
)
    requires
        settled(code, s, before),
        grows(before, x),
        grows(x, after),
        covers(code, after),
        after.builder.values.len() <= usize::MAX,
    ensures
        settled(code, s, x),
        covers(code, x),
{
    lemma_covers_before(code, x, after);
    lemma_placed_after(code, before, x);
    lemma_grows_facts(before, x);
    lemma_grows_facts(x, after);
}

/// The steps of a conditional stand in the listing where the lowering put
/// them.
proof fn lemma_branching_laid_out(e: Expr, s: Lowering, code: Seq<OpView>)
    requires
        e is IfElse,
        placed(code, s),
        lower_expr(e, s).result is Ok,
        covers(code, lower_expr(e, s).state),
        lower_expr(e, s).state.builder.values.len() <= usize::MAX,
    ensures
        branching_laid_out(code, s, branching(e, s)),
        lower_expr(e, s).state == branching(e, s).closed,
        lower_expr(e, s).result->Ok_0 == branching(e, s).merged,
        lower_expr(*e->IfElse_0, s).result is Ok,
        lower_each(e->IfElse_1@, 0, branching(e, s).opened, Seq::empty()).result is Ok,
        lower_each(e->IfElse_2@, 0, branching(e, s).turned, Seq::empty()).result is Ok,
{
    let b = branching(e, s);
    let k0 = b.tested.builder.code.len() as int;
    let k1 = b.then_part.builder.code.len() as int;
    let k2 = b.else_part.builder.code.len() as int;
    let append = OpView::AppendBlockParam(b.merge_block, Type::I32);
    let brz = OpView::Brz(b.condition, b.else_block, Seq::empty());
    let jump_then = OpView::Jump(b.merge_block, seq![b.then_value]);
    lemma_grows_same(s);
    lemma_lowering_grows(*e->IfElse_0, s);
    lemma_emit2_grows(b.tested, OpView::CreateBlock, OpView::CreateBlock);
    lemma_emit2_grows(b.created, append, brz);
    lemma_emit_grows(b.branched, OpView::Iconst(0));
    lemma_lowering_grows_each(e->IfElse_1@, 0, b.opened, Seq::empty());
    lemma_emit3_grows(
        b.then_part,
        jump_then,
        OpView::SwitchToBlock(b.else_block),
        OpView::SealBlock(b.else_block),
    );
    lemma_emit_grows(b.zeroing, OpView::Iconst(0));
    lemma_lowering_grows_each(e->IfElse_2@, 0, b.turned, Seq::empty());
    lemma_close_conditional_grows(b.else_part, b.merge_block, b.else_value);
    // From the last state back to the first.
    lemma_grows_on(b.zeroing, b.turned, b.else_part);
    lemma_grows_on(b.zeroing, b.else_part, b.closed);
    lemma_grows_on(b.turned, b.else_part, b.closed);
    lemma_grows_on(b.then_part, b.zeroing, b.closed);
    lemma_grows_on(b.opened, b.then_part, b.closed);
    lemma_grows_on(b.branched, b.opened, b.closed);
    lemma_grows_on(b.created, b.branched, b.closed);
    lemma_grows_on(b.tested, b.created, b.closed);
    lemma_placed_facts(code, s);
    lemma_grows_facts(s, s);
    lemma_grows_facts(b.else_part, b.closed);
    lemma_grows_facts(b.turned, b.else_part);
    lemma_grows_facts(b.zeroing, b.turned);
    lemma_grows_facts(b.then_part, b.zeroing);
    lemma_grows_facts(b.opened, b.then_part);
    lemma_grows_facts(b.branched, b.opened);
    lemma_grows_facts(b.created, b.branched);
    lemma_grows_facts(b.tested, b.created);
    lemma_grows_facts(s, b.tested);
    lemma_settled(code, s, s, b.tested, b.closed);
    lemma_settled(code, s, b.tested, b.created, b.closed);
    lemma_settled(code, s, b.created, b.branched, b.closed);
    lemma_settled(code, s, b.branched, b.opened, b.closed);
    lemma_settled(code, s, b.opened, b.then_part, b.closed);
    lemma_settled(code, s, b.then_part, b.zeroing, b.closed);
    lemma_settled(code, s, b.zeroing, b.turned, b.closed);
    lemma_settled(code, s, b.turned, b.else_part, b.closed);
    lemma_grows_same(b.closed);
    lemma_settled(code, s, b.else_part, b.closed, b.closed);
    lemma_covers_at(code, b.opened, k0);
    lemma_covers_at(code, b.opened, k0 + 1);
    lemma_covers_at(code, b.opened, k0 + 2);
    lemma_covers_at(code, b.opened, k0 + 3);
    lemma_covers_at(code, b.opened, k0 + 4);
    lemma_covers_at(code, b.turned, k1);
    lemma_covers_at(code, b.turned, k1 + 1);
    lemma_covers_at(code, b.turned, k1 + 2);
    lemma_covers_at(code, b.turned, k1 + 3);
    lemma_covers_at(code, b.closed, k2);
    lemma_covers_at(code, b.closed, k2 + 1);
    lemma_covers_at(code, b.closed, k2 + 2);
}

/// A run stands at the branch of a conditional: the condition has been
/// computed and holds `test`, and the cells hold what the variables hold
/// after it.
pub open spec fn at_branch(
    e: Expr,
    s: Lowering,
    code: Seq<OpView>,
    env: Env,
    fuel: nat,
    m: State,
) -> bool {
    let b = branching(e, s);
    let test = eval(*e->IfElse_0, env, fuel)->Some_0;
    &&& e is IfElse
    &&& targets_known(e, s.variables)
    &&& branching_laid_out(code, s, b)
    &&& lower_each(e->IfElse_1@, 0, b.opened, Seq::empty()).result is Ok
    &&& lower_each(e->IfElse_2@, 0, b.turned, Seq::empty()).result is Ok
    &&& eval(*e->IfElse_0, env, fuel) is Some
    &&& m.pc == b.tested.builder.code.len() + 3
    &&& number_of(m, b.condition) == Some(test.0)
    &&& tuned(s.variables, test.1, m.cells)
}

/// A run has taken a body of a conditional and stands after the
/// conditional with what the body denotes at the conditional's handle.
pub open spec fn merged_with(
    e: Expr,
    s: Lowering,
    code: Seq<OpView>,
    m: State,
    to: State,
    denoted: (i32, Env),
) -> bool {
    let b = branching(e, s);
    &&& leads(s.builder.signature, code, m, to)
    &&& to.pc == b.closed.builder.code.len()
    &&& tuned(s.variables, denoted.1, to.cells)
    &&& number_of(to, b.merged) == Some(denoted.0)
    &&& kept(m, to, b.tested.builder.values.len())
}

/// The jump from the end of a body of a conditional to the merge block,
/// and the step that seals the merge block.
proof fn lemma_merge_runs(
    e: Expr,
    s: Lowering,
    code: Seq<OpView>,
    m: State,
    pc: int,
    value: Value,
) -> (to: State)
    requires
        e is IfElse,
        branching_laid_out(code, s, branching(e, s)),
        m.pc == pc,
        number_of(m, value) is Some,
        pc == branching(e, s).then_part.builder.code.len() || pc == branching(
            e,
            s,
        ).else_part.builder.code.len(),
        code[pc] == OpView::Jump(branching(e, s).merge_block, seq![value]),
    ensures
        leads(s.builder.signature, code, m, to),
        to.pc == branching(e, s).closed.builder.code.len(),
        to.cells == m.cells,
        number_of(to, branching(e, s).merged) == number_of(m, value),
        kept(m, to, branching(e, s).tested.builder.values.len()),
{
    let b = branching(e, s);
    let signature = s.builder.signature;
    let k0 = b.tested.builder.code.len() as int;
    let k2 = b.else_part.builder.code.len() as int;
    lemma_placed_facts(code, b.created);
    lemma_merge_params(signature, code, k0 + 2, pc, b.merge_block);
    assert(enters(code, b.merge_block, k2 + 1));
    lemma_follow_one(signature, code, m, b.merge_block, k2 + 1, b.merged, value);
    let landed = State { pc: k2 + 2, values: m.values.insert(b.merged, m.values[value]), ..m };
    lemma_leads_step(signature, code, m, landed);
    let to = lemma_skip_runs(signature, code, landed);
    lemma_leads_on(signature, code, m, landed, to);
    lemma_kept_insert(m, landed, b.merged, m.values[value], b.tested.builder.values.len());
    lemma_kept_same(landed, to, b.tested.builder.values.len());
    lemma_kept_on(
        m,
        landed,
        to,
        b.tested.builder.values.len(),
        b.tested.builder.values.len(),
    );
    to
}

/// The run of a conditional whose condition is not zero.
proof fn lemma_then_runs(e: Expr, s: Lowering, code: Seq<OpView>, env: Env, fuel: nat, m: State) -> (to:
    State)
    requires
        at_branch(e, s, code, env, fuel, m),
        eval(*e->IfElse_0, env, fuel)->Some_0.0 != 0,
        eval_each(e->IfElse_1@, 0, eval(*e->IfElse_0, env, fuel)->Some_0.1, fuel, 0) is Some,
    ensures
        merged_with(
            e,
            s,
            code,
            m,
            to,
            eval_each(e->IfElse_1@, 0, eval(*e->IfElse_0, env, fuel)->Some_0.1, fuel, 0)->Some_0,
        ),
    decreases fuel, e, 0nat,
{
    let b = branching(e, s);
    let signature = s.builder.signature;
    let test = eval(*e->IfElse_0, env, fuel)->Some_0;
    let body = e->IfElse_1@;
    let then_part = lower_each(body, 0, b.opened, Seq::empty());
    let bound = b.tested.builder.values.len();
    // The branch is not taken.
    let fell = State { pc: m.pc + 1, ..m };
    lemma_leads_step(signature, code, m, fell);
    lemma_kept_same(m, fell, bound);
    // The zero that stands for an empty body.
    let zeroed = lemma_define_runs(code, b.branched, fell, Datum::Int(0));
    lemma_leads_on(signature, code, m, fell, zeroed);
    lemma_kept_on(m, fell, zeroed, bound, b.branched.builder.values.len());
    // The body.
    lemma_placed_facts(code, b.then_part);
    let ran = lemma_each_runs(body, 0, b.opened, Seq::empty(), code, zeroed, test.1, fuel, 0);
    lemma_leads_on(signature, code, m, zeroed, ran);
    lemma_kept_on(m, zeroed, ran, bound, b.opened.builder.values.len());
    if then_part.result->Ok_0.len() == 0 {
        lemma_kept_number(zeroed, ran, b.opened.builder.values.len(), b.then_zero);
    }
    // The jump to the merge block.
    let to = lemma_merge_runs(e, s, code, ran, ran.pc, b.then_value);
    lemma_leads_on(signature, code, m, ran, to);
    lemma_kept_on(m, ran, to, bound, bound);
    to
}

/// The run of a conditional whose condition is zero.
proof fn lemma_else_runs(e: Expr, s: Lowering, code: Seq<OpView>, env: Env, fuel: nat, m: State) -> (to:
    State)
    requires
        at_branch(e, s, code, env, fuel, m),
        eval(*e->IfElse_0, env, fuel)->Some_0.0 == 0,
        eval_each(e->IfElse_2@, 0, eval(*e->IfElse_0, env, fuel)->Some_0.1, fuel, 0) is Some,
    ensures
        merged_with(
            e,
            s,
            code,
            m,
            to,
            eval_each(e->IfElse_2@, 0, eval(*e->IfElse_0, env, fuel)->Some_0.1, fuel, 0)->Some_0,
        ),
    decreases fuel, e, 0nat,
{
    let b = branching(e, s);
    let signature = s.builder.signature;
    let test = eval(*e->IfElse_0, env, fuel)->Some_0;
    let body = e->IfElse_2@;
    let else_part = lower_each(body, 0, b.turned, Seq::empty());
    let bound = b.tested.builder.values.len();
    let k1 = b.then_part.builder.code.len() as int;
    // The branch is taken: the else block has no parameters.
    lemma_placed_facts(code, b.tested);
    lemma_legal_at(signature, code, m.pc);
    assert(enters(code, b.else_block, k1 + 1));
    lemma_follow_plain(signature, code, m, b.else_block, k1 + 1);
    let landed = State { pc: k1 + 2, ..m };
    lemma_leads_step(signature, code, m, landed);
    lemma_kept_same(m, landed, bound);
    // The step that seals the else block.
    let sealed = lemma_skip_runs(signature, code, landed);
    lemma_leads_on(signature, code, m, landed, sealed);
    lemma_kept_same(m, sealed, bound);
    // The zero that stands for an empty body.
    let zeroed = lemma_define_runs(code, b.zeroing, sealed, Datum::Int(0));
    lemma_leads_on(signature, code, m, sealed, zeroed);
    lemma_kept_on(m, sealed, zeroed, bound, b.zeroing.builder.values.len());
    // The body.
    lemma_placed_facts(code, b.else_part);
    let ran = lemma_each_runs(body, 0, b.turned, Seq::empty(), code, zeroed, test.1, fuel, 0);
    lemma_leads_on(signature, code, m, zeroed, ran);
    lemma_kept_on(m, zeroed, ran, bound, b.turned.builder.values.len());
    if else_part.result->Ok_0.len() == 0 {
        lemma_kept_number(zeroed, ran, b.turned.builder.values.len(), b.else_zero);
    }
    // The jump to the merge block.
    let to = lemma_merge_runs(e, s, code, ran, ran.pc, b.else_value);
    lemma_leads_on(signature, code, m, ran, to);
    lemma_kept_on(m, ran, to, bound, bound);
    to
}

/// The run of a lowered conditional.
proof fn lemma_conditional_runs(
    e: Expr,
    s: Lowering,
    code: Seq<OpView>,
    st: State,
    env: Env,
    fuel: nat,
) -> (to: State)
    requires
        e is IfElse,
        ready(e, s, code, st, env, fuel),
    ensures
        run_through(e, s, code, st, env, fuel, to),
    decreases fuel, e, 1nat,
{
    let b = branching(e, s);
    let signature = s.builder.signature;
    let condition = *e->IfElse_0;
    let bound = s.builder.values.len();
    lemma_branching_laid_out(e, s, code);
    lemma_placed_facts(code, b.tested);
    let test = eval(condition, env, fuel)->Some_0;
    // The condition.
    let tested = lemma_expr_runs(condition, s, code, st, env, fuel);
    // The steps that create the blocks and the parameter.
    let m1 = lemma_skip_runs(signature, code, tested);
    let m2 = lemma_skip_runs(signature, code, m1);
    let m3 = lemma_skip_runs(signature, code, m2);
    lemma_leads_on(signature, code, st, tested, m1);
    lemma_leads_on(signature, code, st, m1, m2);
    lemma_leads_on(signature, code, st, m2, m3);
    lemma_kept_same(tested, m3, bound);
    lemma_kept_on(st, tested, m3, bound, bound);
    // The body that the condition chooses.
    let to = if test.0 != 0 {
        lemma_then_runs(e, s, code, env, fuel, m3)
    } else {
        lemma_else_runs(e, s, code, env, fuel, m3)
    };
    lemma_leads_on(signature, code, st, m3, to);
    lemma_kept_on(st, m3, to, bound, b.tested.builder.values.len());
    to
}

/// The states that the lowering of a loop goes through, and the handles
/// it gives out.
pub struct Looping {
    pub created: Lowering,
    pub opened: Lowering,
    pub tested: Lowering,
    pub branched: Lowering,
    pub looped: Lowering,
    pub sealed: Lowering,
    pub closed: Lowering,
    pub header_block: Block,
    pub exit_block: Block,
    pub condition: Value,
    pub zero: Value,
}

/// The lowering of a loop, taken apart.
pub open spec fn looping(e: Expr, s: Lowering) -> Looping {
    let header_block = s.builder.next_block();
    let exit_block = Block((s.builder.blocks.len() + 1) as usize);
    let created = s.emit(OpView::CreateBlock).emit(OpView::CreateBlock);
    let opened = open_loop(s);
    let tested = lower_expr(*e->WhileLoop_0, opened);
    let condition = tested.result->Ok_0;
    let branched = tested.state.emit(OpView::Brz(condition, exit_block, Seq::empty()));
    let looped = lower_each(e->WhileLoop_1@, 0, branched, Seq::empty());
    let sealed = looped.state.emit(OpView::Jump(header_block, Seq::empty())).emit(
        OpView::SwitchToBlock(exit_block),
    ).emit(OpView::SealBlock(header_block)).emit(OpView::SealBlock(exit_block));
    let closed = close_loop(looped.state, header_block, exit_block);
    Looping {
        created,
        opened,
        tested: tested.state,
        branched,
        looped: looped.state,
        sealed,
        closed: closed.state,
        header_block,
        exit_block,
        condition,
        zero: closed.result->Ok_0,
    }
}

/// Where the steps of a loop stand in the listing.
pub open spec fn looping_laid_out(code: Seq<OpView>, s: Lowering, l: Looping) -> bool {
    let k0 = s.builder.code.len() as int;
    let kt = l.tested.builder.code.len() as int;
    let kl = l.looped.builder.code.len() as int;
    &&& settled(code, s, s)
    &&& settled(code, s, l.created)
    &&& settled(code, s, l.opened)
    &&& settled(code, s, l.tested)
    &&& settled(code, s, l.branched)
    &&& settled(code, s, l.looped)
    &&& settled(code, s, l.sealed)
    &&& settled(code, s, l.closed)
    &&& l.created.builder.code.len() == k0 + 2
    &&& l.opened.builder.code.len() == k0 + 4
    &&& l.branched.builder.code.len() == kt + 1
    &&& l.sealed.builder.code.len() == kl + 4
    &&& l.closed.builder.code.len() == kl + 5
    &&& k0 + 4 <= kt
    &&& kt + 1 <= kl
    &&& kl + 5 <= code.len()
    &&& code[k0] == OpView::CreateBlock
    &&& code[k0 + 1] == OpView::CreateBlock
    &&& code[k0 + 2] == OpView::Jump(l.header_block, Seq::empty())
    &&& code[k0 + 3] == OpView::SwitchToBlock(l.header_block)
    &&& code[kt] == OpView::Brz(l.condition, l.exit_block, Seq::empty())
    &&& code[kl] == OpView::Jump(l.header_block, Seq::empty())
    &&& code[kl + 1] == OpView::SwitchToBlock(l.exit_block)
    &&& code[kl + 2] == OpView::SealBlock(l.header_block)
    &&& code[kl + 3] == OpView::SealBlock(l.exit_block)
    &&& code[kl + 4] == OpView::Iconst(0)
    &&& l.opened.builder.values.len() == s.builder.values.len()
    &&& l.branched.builder.values.len() == l.tested.builder.values.len()
    &&& l.tested.builder.values.len() <= l.looped.builder.values.len()
    &&& l.sealed.builder.values.len() == l.looped.builder.values.len()
    &&& l.closed.builder.values.len() == l.looped.builder.values.len() + 1
    &&& l.zero == l.sealed.builder.next_value()
}

/// The steps of a loop stand in the listing where the lowering put them.
proof fn lemma_looping_laid_out(e: Expr, s: Lowering, code: Seq<OpView>)
    requires
        e is WhileLoop,
        placed(code, s),
        lower_expr(e, s).result is Ok,
        covers(code, lower_expr(e, s).state),
        lower_expr(e, s).state.builder.values.len() <= usize::MAX,
    ensures
        looping_laid_out(code, s, looping(e, s)),
        lower_expr(e, s).state == looping(e, s).closed,
        lower_expr(e, s).result->Ok_0 == looping(e, s).zero,
        lower_expr(*e->WhileLoop_0, looping(e, s).opened).result is Ok,
        lower_each(e->WhileLoop_1@, 0, looping(e, s).branched, Seq::empty()).result is Ok,
{
    let l = looping(e, s);
    let k0 = s.builder.code.len() as int;
    let kt = l.tested.builder.code.len() as int;
    let kl = l.looped.builder.code.len() as int;
    let jump = OpView::Jump(l.header_block, Seq::empty());
    let brz = OpView::Brz(l.condition, l.exit_block, Seq::empty());
    lemma_grows_same(s);
    lemma_emit2_grows(s, OpView::CreateBlock, OpView::CreateBlock);
    lemma_emit2_grows(l.created, jump, OpView::SwitchToBlock(l.header_block));
    lemma_lowering_grows(*e->WhileLoop_0, l.opened);
    lemma_emit_grows(l.tested, brz);
    lemma_lowering_grows_each(e->WhileLoop_1@, 0, l.branched, Seq::empty());
    lemma_emit4_grows(
        l.looped,
        jump,
        OpView::SwitchToBlock(l.exit_block),
        OpView::SealBlock(l.header_block),
        OpView::SealBlock(l.exit_block),
    );
    lemma_emit_grows(l.sealed, OpView::Iconst(0));
    lemma_grows_on(l.looped, l.sealed, l.closed);
    lemma_grows_on(l.branched, l.looped, l.closed);
    lemma_grows_on(l.tested, l.branched, l.closed);
    lemma_grows_on(l.opened, l.tested, l.closed);
    lemma_grows_on(l.created, l.opened, l.closed);
    lemma_grows_on(s, l.created, l.closed);
    lemma_placed_facts(code, s);
    lemma_grows_facts(s, s);
    lemma_grows_facts(l.sealed, l.closed);
    lemma_grows_facts(l.looped, l.sealed);
    lemma_grows_facts(l.branched, l.looped);
    lemma_grows_facts(l.tested, l.branched);
    lemma_grows_facts(l.opened, l.tested);
    lemma_grows_facts(l.created, l.opened);
    lemma_grows_facts(s, l.created);
    lemma_grows_facts(s, l.closed);
    lemma_settled(code, s, s, s, l.closed);
    lemma_settled(code, s, s, l.created, l.closed);
    lemma_settled(code, s, l.created, l.opened, l.closed);
    lemma_settled(code, s, l.opened, l.tested, l.closed);
    lemma_settled(code, s, l.tested, l.branched, l.closed);
    lemma_settled(code, s, l.branched, l.looped, l.closed);
    lemma_settled(code, s, l.looped, l.sealed, l.closed);
    lemma_grows_same(l.closed);
    lemma_settled(code, s, l.sealed, l.closed, l.closed);
    lemma_covers_at(code, l.opened, k0);
    lemma_covers_at(code, l.opened, k0 + 1);
    lemma_covers_at(code, l.opened, k0 + 2);
    lemma_covers_at(code, l.opened, k0 + 3);
    lemma_covers_at(code, l.branched, kt);
    lemma_covers_at(code, l.closed, kl);
    lemma_covers_at(code, l.closed, kl + 1);
    lemma_covers_at(code, l.closed, kl + 2);
    lemma_covers_at(code, l.closed, kl + 3);
    lemma_covers_at(code, l.closed, kl + 4);
}

/// A run stands at the head of a loop: the cells hold what the variables
/// hold, and the loop denotes a number from there.
pub open spec fn at_head(
    e: Expr,
    s: Lowering,
    code: Seq<OpView>,
    env: Env,
    fuel: nat,
    h: State,
) -> bool {
    let l = looping(e, s);
    &&& e is WhileLoop
    &&& targets_known(e, s.variables)
    &&& looping_laid_out(code, s, l)
    &&& lower_expr(*e->WhileLoop_0, l.opened).result is Ok
    &&& lower_each(e->WhileLoop_1@, 0, l.branched, Seq::empty()).result is Ok
    &&& eval(e, env, fuel) is Some
    &&& h.pc == l.opened.builder.code.len()
    &&& tuned(s.variables, env, h.cells)
}

/// A run has left a loop.
pub open spec fn left_loop(
    e: Expr,
    s: Lowering,
    code: Seq<OpView>,
    h: State,
    to: State,
    denoted: (i32, Env),
) -> bool {
    let l = looping(e, s);
    &&& leads(s.builder.signature, code, h, to)
    &&& to.pc == l.closed.builder.code.len()
    &&& tuned(s.variables, denoted.1, to.cells)
    &&& number_of(to, l.zero) == Some(denoted.0)
    &&& kept(h, to, s.builder.values.len())
}

/// The way out of a loop whose condition is zero.
proof fn lemma_exit_runs(e: Expr, s: Lowering, code: Seq<OpView>, m: State) -> (to: State)
    requires
        e is WhileLoop,
        looping_laid_out(code, s, looping(e, s)),
        m.pc == looping(e, s).tested.builder.code.len(),
        m.values.dom().contains(looping(e, s).condition),
        is_zero(m.values[looping(e, s).condition]),
    ensures
        leads(s.builder.signature, code, m, to),
        to.pc == looping(e, s).closed.builder.code.len(),
        to.cells == m.cells,
        number_of(to, looping(e, s).zero) == Some(0i32),
        kept(m, to, looping(e, s).tested.builder.values.len()),
{
    let l = looping(e, s);
    let signature = s.builder.signature;
    let kl = l.looped.builder.code.len() as int;
    let bound = l.tested.builder.values.len();
    lemma_placed_facts(code, l.tested);
    assert(enters(code, l.exit_block, kl + 1));
    let landed = lemma_plain_jump_runs(signature, code, m, l.exit_block, kl + 1);
    let m1 = lemma_skip_runs(signature, code, landed);
    let m2 = lemma_skip_runs(signature, code, m1);
    lemma_leads_on(signature, code, m, landed, m1);
    lemma_leads_on(signature, code, m, m1, m2);
    lemma_kept_same(m, m2, bound);
    let to = lemma_define_runs(code, l.sealed, m2, Datum::Int(0));
    lemma_leads_on(signature, code, m, m2, to);
    lemma_kept_on(m, m2, to, bound, l.sealed.builder.values.len());
    to
}

/// The run of a loop from its head.
proof fn lemma_head_runs(e: Expr, s: Lowering, code: Seq<OpView>, env: Env, fuel: nat, h: State) -> (to:
    State)
    requires
        at_head(e, s, code, env, fuel, h),
    ensures
        left_loop(e, s, code, h, to, eval(e, env, fuel)->Some_0),
    decreases fuel, e, 0nat,
{
    let l = looping(e, s);
    let signature = s.builder.signature;
    let condition = *e->WhileLoop_0;
    let body = e->WhileLoop_1@;
    let bound = s.builder.values.len();
    let k0 = s.builder.code.len() as int;
    lemma_placed_facts(code, l.tested);
    lemma_placed_facts(code, l.looped);
    // The condition.
    let test = eval(condition, env, fuel)->Some_0;
    let tested = lemma_expr_runs(condition, l.opened, code, h, env, fuel);
    if test.0 == 0 {
        let to = lemma_exit_runs(e, s, code, tested);
        lemma_leads_on(signature, code, h, tested, to);
        lemma_kept_on(h, tested, to, bound, l.tested.builder.values.len());
        to
    } else {
        // The branch is not taken.
        let fell = State { pc: tested.pc + 1, ..tested };
        lemma_leads_step(signature, code, tested, fell);
        lemma_leads_on(signature, code, h, tested, fell);
        lemma_kept_same(tested, fell, bound);
        lemma_kept_on(h, tested, fell, bound, bound);
        // The body.
        let ran = lemma_each_runs(body, 0, l.branched, Seq::empty(), code, fell, test.1, fuel, 0);
        let looped = eval_each(body, 0, test.1, fuel, 0)->Some_0;
        lemma_leads_on(signature, code, h, fell, ran);
        lemma_kept_on(h, fell, ran, bound, l.branched.builder.values.len());
        // The jump back to the head.
        assert(enters(code, l.header_block, k0 + 3));
        let back = lemma_plain_jump_runs(signature, code, ran, l.header_block, k0 + 3);
        lemma_leads_on(signature, code, h, ran, back);
        lemma_kept_same(ran, back, bound);
        lemma_kept_on(h, ran, back, bound, bound);
        // The loop again, with less fuel.
        let to = lemma_head_runs(e, s, code, looped.1, (fuel - 1) as nat, back);
        lemma_leads_on(signature, code, h, back, to);
        lemma_kept_on(h, back, to, bound, bound);
        to
    }
}

/// The run of a lowered loop.
proof fn lemma_loop_runs(
    e: Expr,
    s: Lowering,
    code: Seq<OpView>,
    st: State,
    env: Env,
    fuel: nat,
) -> (to: State)
    requires
        e is WhileLoop,
        ready(e, s, code, st, env, fuel),
    ensures
        run_through(e, s, code, st, env, fuel, to),
    decreases fuel, e, 1nat,
{
    let l = looping(e, s);
    let signature = s.builder.signature;
    let bound = s.builder.values.len();
    let k0 = s.builder.code.len() as int;
    lemma_looping_laid_out(e, s, code);
    lemma_placed_facts(code, s);
    // The steps that create the blocks, and the jump to the head.
    let m1 = lemma_skip_runs(signature, code, st);
    let m2 = lemma_skip_runs(signature, code, m1);
    lemma_leads_on(signature, code, st, m1, m2);
    assert(enters(code, l.header_block, k0 + 3));
    let head = lemma_plain_jump_runs(signature, code, m2, l.header_block, k0 + 3);
    lemma_leads_on(signature, code, st, m2, head);
    lemma_kept_same(st, head, bound);
    // The loop.
    let to = lemma_head_runs(e, s, code, env, fuel, head);
    lemma_leads_on(signature, code, st, head, to);
    lemma_kept_on(st, head, to, bound, bound);
    to
}

/// A run from the first step of a listing to the last agrees with a run
/// that follows jumps: the cells are the same, and every value of the store
/// is held by the value with its position as handle.
pub open spec fn mirrors(m: Machine, st: State, k: int) -> bool {
    &&& st.pc == k
    &&& st.cells == m.cells
    &&& m.args.len() == 0
    &&& m.returned is None
    &&& forall|v: Value|
        (v.0 as int) < m.store.len() ==> #[trigger] st.values.dom().contains(v) && st.values[v]
            == m.store[v.0 as int]
}

/// Where a listing has an outcome when its steps are run in order, none of
/// them a return, a run that follows jumps takes the same steps: on such a
/// listing the two ways of running agree.
proof fn lemma_runs_agree(
    signature: SignatureView,
    code: Seq<OpView>,
    start: Machine,
    k1: int,
    k2: int,
    st1: State,
) -> (st2: State)
    requires
        well_formed(signature, code),
        0 <= k1 <= k2 <= code.len(),
        perform_all(code.take(k1), start) is Some,
        mirrors(perform_all(code.take(k1), start)->Some_0, st1, k1),
        perform_all(code.take(k1), start)->Some_0.store.len() == replay(
            signature,
            code.take(k1),
        ).values.len(),
        perform_all(code.take(k2), start) is Some,
        perform_all(code.take(k2), start)->Some_0.returned is None,
        replay(signature, code.take(k2)).values.len() <= usize::MAX,
    ensures
        leads(signature, code, st1, st2),
        mirrors(perform_all(code.take(k2), start)->Some_0, st2, k2),
        perform_all(code.take(k2), start)->Some_0.store.len() == replay(
            signature,
            code.take(k2),
        ).values.len(),
    decreases k2 - k1,
{
    if k1 == k2 {
        lemma_leads_here(signature, code, st1);
        st1
    } else {
        let prev = k2 - 1;
        let op = code[prev];
        assert(code.take(k2).drop_last() =~= code.take(prev));
        assert(code.take(k2).last() == op);
        lemma_legal_at(signature, code, prev);
        let before = perform_all(code.take(prev), start)->Some_0;
        let after = perform_all(code.take(k2), start)->Some_0;
        assert(perform(op, before) == Some(after));
        let mid = lemma_runs_agree(signature, code, start, k1, prev, st1);
        let state = replay(signature, code.take(prev));
        let defined = Value(before.store.len() as usize);
        assert(handle_at(signature, code, prev) == defined);
        let st2 = match step(signature, code, mid) {
            Outcome::Running(next) => next,
            _ => mid,
        };
        match op {
            OpView::CreateBlock => {
                assert(step(signature, code, mid) is Running);
            },
            OpView::AppendBlockParam(_, _) => {
                assert(step(signature, code, mid) is Running);
            },
            OpView::SwitchToBlock(_) => {
                assert(step(signature, code, mid) is Running);
            },
            OpView::SealBlock(_) => {
                assert(step(signature, code, mid) is Running);
            },
            OpView::DeclareVar(_, _) => {
                assert(step(signature, code, mid) is Running);
            },
            OpView::ImportFunction(_, _) => {
                assert(step(signature, code, mid) is Running);
            },
            OpView::DefVar(var, v) => {
                assert(mid.values.dom().contains(v));
                assert(step(signature, code, mid) is Running);
            },
            OpView::UseVar(var) => {
                assert(step(signature, code, mid) is Running);
            },
            OpView::Iconst(_) => {
                assert(step(signature, code, mid) is Running);
            },
            OpView::Binary(_, a, b) => {
                assert(state.is_integer(a) && state.is_integer(b));
                assert(mid.values.dom().contains(a));
                assert(mid.values.dom().contains(b));
                assert(step(signature, code, mid) is Running);
            },
            OpView::Compare(_, a, b) => {
                assert(state.is_integer(a) && state.is_integer(b));
                assert(mid.values.dom().contains(a));
                assert(mid.values.dom().contains(b));
                assert(step(signature, code, mid) is Running);
            },
            OpView::Bint(v) => {
                assert(state.has_value(v));
                assert(mid.values.dom().contains(v));
                assert(step(signature, code, mid) is Running);
            },
            OpView::Brz(_, _, _) => {
                assert(false);
            },
            OpView::Jump(_, _) => {
                assert(false);
            },
            OpView::Call(_, _) => {
                assert(false);
            },
            OpView::Return(_) => {
                assert(false);
            },
        }
        assert(step(signature, code, mid) == Outcome::Running(st2));
        lemma_leads_step(signature, code, mid, st2);
        lemma_leads_on(signature, code, st1, mid, st2);
        assert forall|v: Value| (v.0 as int) < after.store.len() implies #[trigger] st2.values.dom().contains(
            v,
        ) && st2.values[v] == after.store[v.0 as int] by {
            if v.0 < before.store.len() {
                assert(mid.values.dom().contains(v));
                assert(v != defined);
            }
        }
        st2
    }
}

/// The code of a lowered function computes what the function denotes.
///
/// For every function without calls whose lowering succeeds and gives a
/// well-formed listing, for every list of as many arguments as it has
/// parameters, and for every amount of fuel on which a call of the function
/// denotes a number: a run of the listing that starts at its first step
/// with the arguments in the entry block's parameters, and that follows
/// jumps and branches, returns that number after finitely many steps.
pub proof fn law_function_computes(
    module: Seq<DeclView>,
    params: Seq<Seq<char>>,
    the_return: Seq<char>,
    stmts: Seq<Expr>,
    args: Seq<i32>,
    fuel: nat,
)
    requires
        args.len() == params.len(),
        params.len() < usize::MAX,
        lower_function(module, params, the_return, stmts).result is Ok,
        well_formed(
            integer_signature(params.len()),
            lower_function(module, params, the_return, stmts).state.builder.code,
        ),
        lower_function(module, params, the_return, stmts).state.builder.values.len()
            <= usize::MAX,
        open_function(module, params, the_return, stmts).variables.len() <= usize::MAX,
        denotes(params, the_return, stmts, args, fuel) is Some,
    ensures
        comes_back(
            integer_signature(params.len()),
            lower_function(module, params, the_return, stmts).state.builder.code,
            entered_with(args),
            denotes(params, the_return, stmts, args, fuel)->Some_0,
        ),
{
    let signature = integer_signature(params.len());
    let lowered = lower_function(module, params, the_return, stmts);
    let code = lowered.state.builder.code;
    let opened = open_function(module, params, the_return, stmts);
    let body = lower_each(stmts, 0, opened, Seq::empty());
    let created = BuilderState::new(signature).step(OpView::CreateBlock);
    let with_params = entry_params(created, Block(0), params.len());
    let var = lookup(opened.variables, the_return)->Some_0;
    let read = OpView::UseVar(var);
    let value = body.state.builder.next_value();
    let ret = OpView::Return(seq![value]);
    let env = bound_at_entry(params, the_return, args);
    let start = called_with(args);
    let st0 = entered_with(args);
    // How the states of the lowering stand in the listing.
    lemma_prologue_grows(module, params, the_return, stmts);
    lemma_lowering_grows_each(stmts, 0, opened, Seq::empty());
    lemma_emit_grows(body.state, read);
    lemma_emit_grows(body.state.emit(read), ret);
    lemma_grows_on(body.state, body.state.emit(read), lowered.state);
    lemma_grows_on(opened, body.state, lowered.state);
    lemma_grows_facts(opened, body.state);
    lemma_grows_facts(body.state, body.state.emit(read));
    lemma_grows_facts(body.state, lowered.state);
    assert(covers(code, lowered.state)) by {
        reveal(covers);
    }
    lemma_covers_before(code, body.state.emit(read), lowered.state);
    lemma_grows_on(body.state, body.state.emit(read), lowered.state);
    lemma_covers_before(code, body.state, lowered.state);
    lemma_covers_before(code, opened, lowered.state);
    lemma_covers_bare(code, opened);
    lemma_covers_before(code, bare(with_params), bare(opened.builder));
    // The steps before the statements.
    lemma_prologue_runs(module, params, the_return, stmts, args);
    lemma_table_knows(module, params, the_return, stmts);
    lemma_entry_runs(params.len(), args, params.len());
    let k1 = params.len() + 1;
    let k2 = opened.builder.code.len() as int;
    assert(code.take(k1 as int) =~= with_params.code) by {
        reveal(covers);
    }
    assert(code.take(k2) =~= opened.builder.code) by {
        reveal(covers);
    }
    assert forall|i: int| 0 <= i < k1 implies (#[trigger] code[i]) is CreateBlock || code[i]
        is AppendBlockParam by {
        lemma_covers_at(code, bare(with_params), i);
        assert(with_params.code[i] is CreateBlock || with_params.code[i] is AppendBlockParam);
    }
    let st1 = lemma_skips_run(signature, code, st0, k1 as int);
    let m1 = perform_all(with_params.code, start)->Some_0;
    assert(args.take(args.len() as int) =~= args);
    assert(mirrors(m1, st1, k1 as int));
    let st2 = lemma_runs_agree(signature, code, start, k1 as int, k2, st1);
    lemma_leads_on(signature, code, st0, st1, st2);
    // The statements.
    assert(placed(code, opened)) by {
        reveal(placed);
    }
    assert(tuned(opened.variables, env, st2.cells)) by {
        reveal(tuned);
    }
    let st3 = lemma_each_runs(stmts, 0, opened, Seq::empty(), code, st2, env, fuel, 0);
    lemma_leads_on(signature, code, st0, st2, st3);
    let out = eval_each(stmts, 0, env, fuel, 0)->Some_0;
    // The read of the result's variable, and the return.
    lemma_placed_after(code, opened, body.state);
    lemma_eval_keeps_each(stmts, 0, env, fuel, 0, the_return);
    lemma_tuned_read(opened.variables, out.1, st3.cells, the_return);
    lemma_covers_at(code, lowered.state, st3.pc);
    lemma_covers_at(code, lowered.state, st3.pc + 1);
    let st4 = lemma_define_runs(code, body.state, st3, st3.cells[var]);
    lemma_leads_on(signature, code, st0, st3, st4);
    lemma_leads_to_return(signature, code, st0, st4, out.1[the_return]);
}

/// The listing computes what the function denotes: for every list of as
/// many arguments as the function has parameters and every amount of fuel
/// on which a call denotes a number, a run of the listing with those
/// arguments returns that number.
pub open spec fn computes(
    signature: SignatureView,
    code: Seq<OpView>,
    params: Seq<Seq<char>>,
    the_return: Seq<char>,
    stmts: Seq<Expr>,
) -> bool {
    forall|args: Seq<i32>, fuel: nat|
        args.len() == params.len() && (#[trigger] denotes(
            params,
            the_return,
            stmts,
            args,
            fuel,
        )) is Some ==> comes_back(
            signature,
            code,
            entered_with(args),
            denotes(params, the_return, stmts, args, fuel)->Some_0,
        )
}

/// The well-formed listing of a lowered function computes what the
/// function denotes.
pub proof fn law_lowering_preserves_meaning(
    module: Seq<DeclView>,
    params: Seq<Seq<char>>,
    the_return: Seq<char>,
    stmts: Seq<Expr>,
)
    requires
        params.len() < usize::MAX,
        lower_function(module, params, the_return, stmts).result is Ok,
        well_formed(
            integer_signature(params.len()),
            lower_function(module, params, the_return, stmts).state.builder.code,
        ),
        lower_function(module, params, the_return, stmts).state.builder.values.len()
            <= usize::MAX,
        open_function(module, params, the_return, stmts).variables.len() <= usize::MAX,
    ensures
        computes(
            integer_signature(params.len()),
            lower_function(module, params, the_return, stmts).state.builder.code,
            params,
            the_return,
            stmts,
        ),
{
    assert forall|args: Seq<i32>, fuel: nat|
        args.len() == params.len() && (#[trigger] denotes(
            params,
            the_return,
            stmts,
            args,
            fuel,
        )) is Some implies comes_back(
        integer_signature(params.len()),
        lower_function(module, params, the_return, stmts).state.builder.code,
        entered_with(args),
        denotes(params, the_return, stmts, args, fuel)->Some_0,
    ) by {
        law_function_computes(module, params, the_return, stmts, args, fuel);
    }
}

} // verus!
