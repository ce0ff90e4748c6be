//! How the states of a lowering grow into one another, and how they stand
//! in the listing of the whole function.

use vstd::prelude::*;
use crate::ast::Expr;
use crate::builder::{replay, well_formed, BuilderState};
use crate::ir::{integer_signature, Block, Linkage, OpView, SignatureView, Type, Value, Variable};
use crate::literal::literal_value;
use crate::lowering::{
    arithmetic_of,
    close_conditional,
    close_loop,
    condition_of,
    entry_params,
    last_or,
    lower_each,
    lower_expr,
    open_conditional,
    open_function,
    open_loop,
    turn_conditional,
    Lowering,
};

use crate::module::{declare, DeclView};
use crate::names::distinct;
use crate::semantics::operands;
use crate::variables::{
    bind_params,
    bind_result,
    declare_name,
    lookup,
    scan_stmt,
    scan_stmts,
    Declaring,
};

verus! {

/// Replaying a listing with one more step is replaying the listing and
/// taking the step.
pub(crate) proof fn lemma_replay_push(signature: SignatureView, code: Seq<OpView>, op: OpView)
    ensures
        replay(signature, code.push(op)) == replay(signature, code).step(op),
{
    assert(code.push(op).drop_last() =~= code);
    assert(code.push(op).last() == op);
}

/// What every lowering does to its state: it keeps the variable table and
/// the signature, keeps the steps taken and adds to them, adds to the
/// values, and where the construction was the replay of its steps, it is
/// so afterwards.
#[verifier::opaque]
pub open spec fn grows(before: Lowering, after: Lowering) -> bool {
    &&& after.variables == before.variables
    &&& after.builder.signature == before.builder.signature
    &&& before.builder.values.len() <= after.builder.values.len()
    &&& before.builder.code.len() <= after.builder.code.len()
    &&& forall|i: int|
        0 <= i < before.builder.code.len() ==> after.builder.code[i] == before.builder.code[i]
    &&& before.builder == replay(before.builder.signature, before.builder.code)
        ==> after.builder == replay(after.builder.signature, after.builder.code)
}

/// One step grows a state.
pub(crate) proof fn lemma_emit_grows(s: Lowering, op: OpView)
    ensures
        grows(s, s.emit(op)),
{
    reveal(grows);
    lemma_replay_push(s.builder.signature, s.builder.code, op);
}

/// Growth after growth is growth.
pub(crate) proof fn lemma_grows_on(a: Lowering, b: Lowering, c: Lowering)
    requires
        grows(a, b),
        grows(b, c),
    ensures
        grows(a, c),
{
    reveal(grows);
    assert forall|i: int| 0 <= i < a.builder.code.len() implies c.builder.code[i]
        == a.builder.code[i] by {
        assert(b.builder.code[i] == a.builder.code[i]);
    }
}

/// A state grows into itself.
pub(crate) proof fn lemma_grows_same(s: Lowering)
    ensures
        grows(s, s),
{
    reveal(grows);
}

/// A state grows into the state with other declarations.
pub(crate) proof fn lemma_grows_declared(s: Lowering, module: Seq<DeclView>)
    ensures
        grows(s, Lowering { module, ..s }),
{
    reveal(grows);
}

/// What growth keeps and what it adds to.
pub(crate) proof fn lemma_grows_facts(before: Lowering, after: Lowering)
    requires
        grows(before, after),
    ensures
        after.variables == before.variables,
        after.builder.signature == before.builder.signature,
        before.builder.values.len() <= after.builder.values.len(),
        before.builder.code.len() <= after.builder.code.len(),
{
    reveal(grows);
}

/// Two steps grow a state.
pub(crate) proof fn lemma_emit2_grows(s: Lowering, a: OpView, b: OpView)
    ensures
        grows(s, s.emit(a).emit(b)),
{
    lemma_emit_grows(s, a);
    lemma_emit_grows(s.emit(a), b);
    lemma_grows_on(s, s.emit(a), s.emit(a).emit(b));
}

/// Three steps grow a state.
pub(crate) proof fn lemma_emit3_grows(s: Lowering, a: OpView, b: OpView, c: OpView)
    ensures
        grows(s, s.emit(a).emit(b).emit(c)),
{
    lemma_emit2_grows(s, a, b);
    lemma_emit_grows(s.emit(a).emit(b), c);
    lemma_grows_on(s, s.emit(a).emit(b), s.emit(a).emit(b).emit(c));
}

/// Four steps grow a state.
pub(crate) proof fn lemma_emit4_grows(s: Lowering, a: OpView, b: OpView, c: OpView, d: OpView)
    ensures
        grows(s, s.emit(a).emit(b).emit(c).emit(d)),
{
    lemma_emit3_grows(s, a, b, c);
    lemma_emit_grows(s.emit(a).emit(b).emit(c), d);
    lemma_grows_on(s, s.emit(a).emit(b).emit(c), s.emit(a).emit(b).emit(c).emit(d));
}

/// Five steps grow a state.
proof fn lemma_emit5_grows(s: Lowering, a: OpView, b: OpView, c: OpView, d: OpView, e: OpView)
    ensures
        grows(s, s.emit(a).emit(b).emit(c).emit(d).emit(e)),
{
    lemma_emit4_grows(s, a, b, c, d);
    lemma_emit_grows(s.emit(a).emit(b).emit(c).emit(d), e);
    lemma_grows_on(
        s,
        s.emit(a).emit(b).emit(c).emit(d),
        s.emit(a).emit(b).emit(c).emit(d).emit(e),
    );
}

/// The start of a conditional grows a state.
pub(crate) proof fn lemma_open_conditional_grows(s: Lowering, condition: Value)
    ensures
        grows(s, open_conditional(s, condition)),
{
    let else_block = s.builder.next_block();
    let merge_block = Block((s.builder.blocks.len() + 1) as usize);
    lemma_emit5_grows(
        s,
        OpView::CreateBlock,
        OpView::CreateBlock,
        OpView::AppendBlockParam(merge_block, Type::I32),
        OpView::Brz(condition, else_block, Seq::empty()),
        OpView::Iconst(0),
    );
}

/// The turn of a conditional grows a state.
pub(crate) proof fn lemma_turn_conditional_grows(
    s: Lowering,
    else_block: Block,
    merge_block: Block,
    then_value: Value,
)
    ensures
        grows(s, turn_conditional(s, else_block, merge_block, then_value)),
{
    lemma_emit4_grows(
        s,
        OpView::Jump(merge_block, seq![then_value]),
        OpView::SwitchToBlock(else_block),
        OpView::SealBlock(else_block),
        OpView::Iconst(0),
    );
}

/// The end of a conditional grows a state.
pub(crate) proof fn lemma_close_conditional_grows(s: Lowering, merge_block: Block, else_value: Value)
    ensures
        grows(s, close_conditional(s, merge_block, else_value)),
{
    lemma_emit3_grows(
        s,
        OpView::Jump(merge_block, seq![else_value]),
        OpView::SwitchToBlock(merge_block),
        OpView::SealBlock(merge_block),
    );
}

/// The start of a loop grows a state.
pub(crate) proof fn lemma_open_loop_grows(s: Lowering)
    ensures
        grows(s, open_loop(s)),
{
    let header_block = s.builder.next_block();
    lemma_emit4_grows(
        s,
        OpView::CreateBlock,
        OpView::CreateBlock,
        OpView::Jump(header_block, Seq::empty()),
        OpView::SwitchToBlock(header_block),
    );
}

/// The end of a loop grows a state.
pub(crate) proof fn lemma_close_loop_grows(s: Lowering, header_block: Block, exit_block: Block)
    ensures
        grows(s, close_loop(s, header_block, exit_block).state),
{
    lemma_emit5_grows(
        s,
        OpView::Jump(header_block, Seq::empty()),
        OpView::SwitchToBlock(exit_block),
        OpView::SealBlock(header_block),
        OpView::SealBlock(exit_block),
        OpView::Iconst(0),
    );
}

/// The lowering of an expression grows its state.
pub(crate) proof fn lemma_lowering_grows(e: Expr, s: Lowering)
    ensures
        grows(s, lower_expr(e, s).state),
    decreases e, 1nat,
{
    lemma_grows_same(s);
    match e {
        Expr::Literal(text) => {
            if literal_value(text@) is Some {
                lemma_emit_grows(s, OpView::Iconst(literal_value(text@)->Some_0));
            }
        },
        Expr::Identifier(name) => {
            if lookup(s.variables, name@) is Some {
                lemma_emit_grows(
                    s,
                    OpView::UseVar(lookup(s.variables, name@)->Some_0),
                );
            }
        },
        Expr::Assign(name, rhs) => {
            let assigned = lower_expr(*rhs, s);
            lemma_lowering_grows(*rhs, s);
            if assigned.result is Ok {
                let op = OpView::DefVar(
                    lookup(s.variables, name@)->Some_0,
                    assigned.result->Ok_0,
                );
                lemma_emit_grows(assigned.state, op);
                lemma_grows_on(s, assigned.state, assigned.state.emit(op));
            }
        },
        Expr::Add(lhs, rhs) | Expr::Sub(lhs, rhs) | Expr::Mul(lhs, rhs) | Expr::Div(lhs, rhs) => {
            let a = lower_expr(*lhs, s);
            let b = lower_expr(*rhs, a.state);
            lemma_lowering_grows(*lhs, s);
            lemma_lowering_grows(*rhs, a.state);
            lemma_grows_on(s, a.state, b.state);
            let op = OpView::Binary(arithmetic_of(e), a.result->Ok_0, b.result->Ok_0);
            lemma_emit_grows(b.state, op);
            lemma_grows_on(s, b.state, b.state.emit(op));
        },
        Expr::Eq(lhs, rhs) | Expr::Ne(lhs, rhs) | Expr::Lt(lhs, rhs) | Expr::Le(lhs, rhs) | Expr::Gt(
            lhs,
            rhs,
        ) | Expr::Ge(lhs, rhs) => {
            let a = lower_expr(*lhs, s);
            let b = lower_expr(*rhs, a.state);
            lemma_lowering_grows(*lhs, s);
            lemma_lowering_grows(*rhs, a.state);
            lemma_grows_on(s, a.state, b.state);
            let compare = OpView::Compare(condition_of(e), a.result->Ok_0, b.result->Ok_0);
            let bint = OpView::Bint(b.state.builder.next_value());
            lemma_emit2_grows(b.state, compare, bint);
            lemma_grows_on(s, b.state, b.state.emit(compare).emit(bint));
        },
        Expr::IfElse(condition, then_body, else_body) => {
            let tested = lower_expr(*condition, s);
            lemma_lowering_grows(*condition, s);
            let else_block = tested.state.builder.next_block();
            let merge_block = Block((tested.state.builder.blocks.len() + 1) as usize);
            let then_zero = Value((tested.state.builder.values.len() + 1) as usize);
            let opened = open_conditional(tested.state, tested.result->Ok_0);
            lemma_open_conditional_grows(tested.state, tested.result->Ok_0);
            lemma_grows_on(s, tested.state, opened);
            let then_part = lower_each(then_body@, 0, opened, Seq::empty());
            lemma_lowering_grows_each(then_body@, 0, opened, Seq::empty());
            lemma_grows_on(s, opened, then_part.state);
            let turned = turn_conditional(
                then_part.state,
                else_block,
                merge_block,
                last_or(then_part.result->Ok_0, then_zero),
            );
            lemma_turn_conditional_grows(
                then_part.state,
                else_block,
                merge_block,
                last_or(then_part.result->Ok_0, then_zero),
            );
            lemma_grows_on(s, then_part.state, turned);
            let else_part = lower_each(else_body@, 0, turned, Seq::empty());
            lemma_lowering_grows_each(else_body@, 0, turned, Seq::empty());
            lemma_grows_on(s, turned, else_part.state);
            let else_zero = then_part.state.builder.next_value();
            let closed = close_conditional(
                else_part.state,
                merge_block,
                last_or(else_part.result->Ok_0, else_zero),
            );
            lemma_close_conditional_grows(
                else_part.state,
                merge_block,
                last_or(else_part.result->Ok_0, else_zero),
            );
            lemma_grows_on(s, else_part.state, closed);
        },
        Expr::WhileLoop(condition, body) => {
            let header_block = s.builder.next_block();
            let exit_block = Block((s.builder.blocks.len() + 1) as usize);
            let opened = open_loop(s);
            lemma_open_loop_grows(s);
            let tested = lower_expr(*condition, opened);
            lemma_lowering_grows(*condition, opened);
            lemma_grows_on(s, opened, tested.state);
            let brz = OpView::Brz(tested.result->Ok_0, exit_block, Seq::empty());
            let branched = tested.state.emit(brz);
            lemma_emit_grows(tested.state, brz);
            lemma_grows_on(s, tested.state, branched);
            let looped = lower_each(body@, 0, branched, Seq::empty());
            lemma_lowering_grows_each(body@, 0, branched, Seq::empty());
            lemma_grows_on(s, branched, looped.state);
            lemma_close_loop_grows(looped.state, header_block, exit_block);
            lemma_grows_on(s, looped.state, close_loop(looped.state, header_block, exit_block).state);
        },
        Expr::Call(name, args) => {
            let signature = integer_signature(args@.len());
            let declared = declare(s.module, name@, Linkage::Export, signature);
            let import = OpView::ImportFunction(declared.id->Some_0, signature);
            let renamed = Lowering { module: declared.decls, ..s };
            let imported = renamed.emit(import);
            lemma_grows_declared(s, declared.decls);
            lemma_emit_grows(renamed, import);
            lemma_grows_on(s, renamed, imported);
            let passed = lower_each(args@, 0, imported, Seq::empty());
            lemma_lowering_grows_each(args@, 0, imported, Seq::empty());
            lemma_grows_on(s, imported, passed.state);
            let call = OpView::Call(s.builder.next_func_ref(), passed.result->Ok_0);
            lemma_emit_grows(passed.state, call);
            lemma_grows_on(s, passed.state, passed.state.emit(call));
        },
    }
}

/// The lowering of expressions in order grows its state.
pub(crate) proof fn lemma_lowering_grows_each(exprs: Seq<Expr>, i: int, s: Lowering, done: Seq<Value>)
    ensures
        grows(s, lower_each(exprs, i, s, done).state),
    decreases exprs, exprs.len() - i,
{
    lemma_grows_same(s);
    if 0 <= i < exprs.len() {
        let next = lower_expr(exprs[i], s);
        lemma_lowering_grows(exprs[i], s);
        if next.result is Ok {
            lemma_lowering_grows_each(exprs, i + 1, next.state, done.push(next.result->Ok_0));
            lemma_grows_on(
                s,
                next.state,
                lower_each(exprs, i + 1, next.state, done.push(next.result->Ok_0)).state,
            );
        }
    }
}

/// The steps of a lowering state are the first steps of the listing.
#[verifier::opaque]
pub open spec fn covers(code: Seq<OpView>, s: Lowering) -> bool {
    &&& s.builder.code.len() <= code.len()
    &&& forall|i: int| 0 <= i < s.builder.code.len() ==> code[i] == s.builder.code[i]
}

/// A point in the lowering of a function whose whole listing is `code`:
/// the listing is well formed, the construction is the replay of its steps,
/// which are the first steps of the listing, and the variable table is free
/// of duplicates and not longer than a handle can count.
#[verifier::opaque]
pub open spec fn placed(code: Seq<OpView>, s: Lowering) -> bool {
    &&& well_formed(s.builder.signature, code)
    &&& s.builder == replay(s.builder.signature, s.builder.code)
    &&& covers(code, s)
    &&& distinct(s.variables)
    &&& s.variables.len() <= usize::MAX
}

/// A step of a covered state is the step of the listing at its position.
pub(crate) proof fn lemma_covers_at(code: Seq<OpView>, s: Lowering, k: int)
    requires
        covers(code, s),
        0 <= k < s.builder.code.len(),
    ensures
        k < code.len(),
        code[k] == s.builder.code[k],
{
    reveal(covers);
}

/// A listing that covers a state covers the states that grew into it.
pub(crate) proof fn lemma_covers_before(code: Seq<OpView>, before: Lowering, after: Lowering)
    requires
        grows(before, after),
        covers(code, after),
    ensures
        covers(code, before),
{
    reveal(covers);
    reveal(grows);
    assert forall|i: int| 0 <= i < before.builder.code.len() implies code[i]
        == before.builder.code[i] by {
        assert(after.builder.code[i] == before.builder.code[i]);
    }
}

/// A state that a placed state grew into, and that the listing covers, is
/// placed.
pub(crate) proof fn lemma_placed_after(code: Seq<OpView>, before: Lowering, after: Lowering)
    requires
        placed(code, before),
        grows(before, after),
        covers(code, after),
    ensures
        placed(code, after),
{
    reveal(placed);
    reveal(grows);
}

/// What placement gives.
pub(crate) proof fn lemma_placed_facts(code: Seq<OpView>, s: Lowering)
    requires
        placed(code, s),
    ensures
        well_formed(s.builder.signature, code),
        covers(code, s),
        distinct(s.variables),
        s.variables.len() <= usize::MAX,
        s.builder.code.len() <= code.len(),
        replay(s.builder.signature, code.take(s.builder.code.len() as int)) == s.builder,
{
    reveal(placed);
    reveal(covers);
    assert(code.take(s.builder.code.len() as int) =~= s.builder.code);
}

/// The handle of a lowered expression is that of a value which the
/// lowering or an earlier one defined.
pub(crate) proof fn lemma_handle_defined(e: Expr, s: Lowering)
    requires
        lower_expr(e, s).result is Ok,
        lower_expr(e, s).state.builder.values.len() <= usize::MAX,
    ensures
        (lower_expr(e, s).result->Ok_0.0 as int) < lower_expr(e, s).state.builder.values.len(),
    decreases e,
{
    match e {
        Expr::Assign(_, rhs) => {
            lemma_handle_defined(*rhs, s);
        },
        Expr::IfElse(condition, then_body, else_body) => {
            let tested = lower_expr(*condition, s);
            let opened = open_conditional(tested.state, tested.result->Ok_0);
            let then_part = lower_each(then_body@, 0, opened, Seq::empty());
            lemma_lowering_grows_each(then_body@, 0, opened, Seq::empty());
            lemma_grows_facts(opened, then_part.state);
            let else_block = tested.state.builder.next_block();
            let merge_block = Block((tested.state.builder.blocks.len() + 1) as usize);
            let then_zero = Value((tested.state.builder.values.len() + 1) as usize);
            let then_value = last_or(then_part.result->Ok_0, then_zero);
            let turned = turn_conditional(then_part.state, else_block, merge_block, then_value);
            lemma_turn_conditional_grows(then_part.state, else_block, merge_block, then_value);
            lemma_grows_facts(then_part.state, turned);
            let else_part = lower_each(else_body@, 0, turned, Seq::empty());
            lemma_lowering_grows_each(else_body@, 0, turned, Seq::empty());
            lemma_grows_facts(turned, else_part.state);
            let else_value = last_or(else_part.result->Ok_0, then_part.state.builder.next_value());
            lemma_close_conditional_grows(else_part.state, merge_block, else_value);
            lemma_grows_facts(
                else_part.state,
                close_conditional(else_part.state, merge_block, else_value),
            );
        },
        _ => {},
    }
}

/// A construction taken as a state of a lowering, without a table and
/// without declarations.
pub open spec fn bare(builder: BuilderState) -> Lowering {
    Lowering { builder, variables: Seq::empty(), module: Seq::empty() }
}

/// Whether a listing covers a state depends on the state's steps alone.
pub(crate) proof fn lemma_covers_bare(code: Seq<OpView>, s: Lowering)
    ensures
        covers(code, s) == covers(code, bare(s.builder)),
{
    reveal(covers);
}

/// The entry block's parameters grow the construction by one step each,
/// none of which does anything when it runs.
proof fn lemma_entry_grows(created: BuilderState, k: nat)
    ensures
        grows(bare(created), bare(entry_params(created, Block(0), k))),
        entry_params(created, Block(0), k).code.len() == created.code.len() + k,
        forall|i: int|
            created.code.len() <= i < created.code.len() + k ==> (#[trigger] entry_params(
                created,
                Block(0),
                k,
            ).code[i]) is AppendBlockParam,
    decreases k,
{
    if k == 0 {
        lemma_grows_same(bare(created));
    } else {
        let before = entry_params(created, Block(0), (k - 1) as nat);
        let op = OpView::AppendBlockParam(Block(0), Type::I32);
        lemma_entry_grows(created, (k - 1) as nat);
        lemma_emit_grows(bare(before), op);
        lemma_grows_on(bare(created), bare(before), bare(before).emit(op));
    }
}

/// Meeting a name grows the construction.
proof fn lemma_declare_name_grows(d: Declaring, name: Seq<char>)
    ensures
        grows(bare(d.builder), bare(declare_name(d, name).builder)),
{
    if lookup(d.table, name) is Some {
        lemma_grows_same(bare(d.builder));
    } else {
        lemma_emit_grows(
            bare(d.builder),
            OpView::DeclareVar(Variable(d.table.len() as usize), Type::I32),
        );
    }
}

/// Binding the parameters grows the construction.
proof fn lemma_bind_params_grows(params: Seq<Seq<char>>, i: int, d: Declaring, entry: Seq<Value>)
    ensures
        grows(bare(d.builder), bare(bind_params(params, i, d, entry).builder)),
    decreases params.len() - i,
{
    if 0 <= i < params.len() {
        let met = declare_name(d, params[i]);
        let var = lookup(met.table, params[i])->Some_0;
        let op = OpView::DefVar(var, entry[i]);
        let next = Declaring { builder: met.builder.step(op), ..met };
        lemma_declare_name_grows(d, params[i]);
        lemma_emit_grows(bare(met.builder), op);
        lemma_grows_on(bare(d.builder), bare(met.builder), bare(next.builder));
        lemma_bind_params_grows(params, i + 1, next, entry);
        lemma_grows_on(
            bare(d.builder),
            bare(next.builder),
            bare(bind_params(params, i, d, entry).builder),
        );
    } else {
        lemma_grows_same(bare(d.builder));
    }
}

/// Binding the name of the result grows the construction.
proof fn lemma_bind_result_grows(the_return: Seq<char>, d: Declaring)
    ensures
        grows(bare(d.builder), bare(bind_result(the_return, d).builder)),
{
    let zero = d.builder.next_value();
    let zeroed = Declaring { builder: d.builder.step(OpView::Iconst(0)), ..d };
    let met = declare_name(zeroed, the_return);
    let var = lookup(met.table, the_return)->Some_0;
    let op = OpView::DefVar(var, zero);
    lemma_emit_grows(bare(d.builder), OpView::Iconst(0));
    lemma_declare_name_grows(zeroed, the_return);
    lemma_emit_grows(bare(met.builder), op);
    lemma_grows_on(bare(d.builder), bare(zeroed.builder), bare(met.builder));
    lemma_grows_on(bare(d.builder), bare(met.builder), bare(met.builder).emit(op));
}

/// The pass over an expression grows the construction.
proof fn lemma_scan_pushes(e: Expr, d: Declaring)
    ensures
        grows(bare(d.builder), bare(scan_stmt(e, d).builder)),
    decreases e, 1nat,
{
    let after = bare(scan_stmt(e, d).builder);
    match e {
        Expr::Literal(_) => {
            lemma_grows_same(bare(d.builder));
        },
        Expr::Identifier(_) => {
            lemma_grows_same(bare(d.builder));
        },
        Expr::Assign(name, rhs) => {
            let met = declare_name(d, name@);
            lemma_declare_name_grows(d, name@);
            lemma_scan_pushes(*rhs, met);
            lemma_grows_on(bare(d.builder), bare(met.builder), after);
        },
        Expr::IfElse(condition, then_body, else_body) => {
            let tested = scan_stmt(*condition, d);
            let half = scan_stmts(then_body@, 0, tested);
            lemma_scan_pushes(*condition, d);
            lemma_scan_pushes_each(then_body@, 0, tested);
            lemma_scan_pushes_each(else_body@, 0, half);
            lemma_grows_on(bare(d.builder), bare(tested.builder), bare(half.builder));
            lemma_grows_on(bare(d.builder), bare(half.builder), after);
        },
        Expr::WhileLoop(condition, body) => {
            let tested = scan_stmt(*condition, d);
            lemma_scan_pushes(*condition, d);
            lemma_scan_pushes_each(body@, 0, tested);
            lemma_grows_on(bare(d.builder), bare(tested.builder), after);
        },
        Expr::Call(_, args) => {
            lemma_scan_pushes_each(args@, 0, d);
        },
        _ => {
            let (lhs, rhs) = operands(e);
            let half = scan_stmt(lhs, d);
            lemma_scan_pushes(lhs, d);
            lemma_scan_pushes(rhs, half);
            lemma_grows_on(bare(d.builder), bare(half.builder), after);
        },
    }
}

/// The pass over statements grows the construction.
proof fn lemma_scan_pushes_each(stmts: Seq<Expr>, i: int, d: Declaring)
    ensures
        grows(bare(d.builder), bare(scan_stmts(stmts, i, d).builder)),
    decreases stmts, stmts.len() - i,
{
    if 0 <= i < stmts.len() {
        let next = scan_stmt(stmts[i], d);
        lemma_scan_pushes(stmts[i], d);
        lemma_scan_pushes_each(stmts, i + 1, next);
        lemma_grows_on(
            bare(d.builder),
            bare(next.builder),
            bare(scan_stmts(stmts, i + 1, next).builder),
        );
    } else {
        lemma_grows_same(bare(d.builder));
    }
}

/// The steps that stand before the statements of a function, and how the
/// constructions that they lead through grow into one another.
pub(crate) proof fn lemma_prologue_grows(
    module: Seq<DeclView>,
    params: Seq<Seq<char>>,
    the_return: Seq<char>,
    stmts: Seq<Expr>,
)
    ensures
        ({
            let signature = integer_signature(params.len());
            let created = BuilderState::new(signature).step(OpView::CreateBlock);
            let with_params = entry_params(created, Block(0), params.len());
            let opened = open_function(module, params, the_return, stmts);
            &&& grows(bare(with_params), bare(opened.builder))
            &&& with_params == replay(signature, with_params.code)
            &&& with_params.signature == signature
            &&& opened.builder == replay(signature, opened.builder.code)
            &&& opened.builder.signature == signature
            &&& with_params.code.len() == params.len() + 1
            &&& with_params.code.len() < opened.builder.code.len()
            &&& with_params.code[0] == OpView::CreateBlock
            &&& forall|i: int|
                1 <= i <= params.len() ==> (#[trigger] with_params.code[i]) is AppendBlockParam
        }),
{
    let signature = integer_signature(params.len());
    let fresh = BuilderState::new(signature);
    let created = fresh.step(OpView::CreateBlock);
    let entry_block = Block(0);
    let with_params = entry_params(created, entry_block, params.len());
    let entered = with_params.step(OpView::SwitchToBlock(entry_block));
    let d0 = Declaring { builder: entered, table: Seq::empty() };
    let entry = entered.block(entry_block).params;
    let d1 = bind_params(params, 0, d0, entry);
    let d2 = bind_result(the_return, d1);
    let d3 = scan_stmts(stmts, 0, d2);
    let opened = open_function(module, params, the_return, stmts);
    assert(opened.builder == d3.builder.step(OpView::SealBlock(entry_block)));
    lemma_emit_grows(bare(fresh), OpView::CreateBlock);
    lemma_entry_grows(created, params.len());
    lemma_grows_on(bare(fresh), bare(created), bare(with_params));
    lemma_emit_grows(bare(with_params), OpView::SwitchToBlock(entry_block));
    lemma_bind_params_grows(params, 0, d0, entry);
    lemma_bind_result_grows(the_return, d1);
    lemma_scan_pushes_each(stmts, 0, d2);
    lemma_emit_grows(bare(d3.builder), OpView::SealBlock(entry_block));
    lemma_grows_on(bare(with_params), bare(entered), bare(d1.builder));
    lemma_grows_on(bare(with_params), bare(d1.builder), bare(d2.builder));
    lemma_grows_on(bare(with_params), bare(d2.builder), bare(d3.builder));
    lemma_grows_on(bare(with_params), bare(d3.builder), bare(opened.builder));
    lemma_grows_on(bare(fresh), bare(with_params), bare(opened.builder));
    reveal(grows);
    assert(fresh.code =~= Seq::<OpView>::empty());
    assert(created.code =~= seq![OpView::CreateBlock]);
}

} // verus!
