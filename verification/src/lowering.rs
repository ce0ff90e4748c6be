//! What lowering is, stated as mathematics: for an expression and the state
//! of a lowering in progress, the state afterwards and either the value of the
//! expression or the reason why the lowering failed.
//!
//! Operands are lowered before the instruction that uses them, left before
//! right. The first failure ends the lowering: nothing is emitted after it.

use vstd::prelude::*;
use crate::ast::Expr;
use crate::builder::BuilderState;
use crate::ir::{integer_signature, BinaryOp, Block, IntCC, Linkage, OpView, Type, Value};
use crate::literal::literal_value;
use crate::module::{declare, DeclView};
use crate::variables::{declare_all, lookup};

verus! {

/// Why a lowering failed.
pub enum Failure {
    /// A literal's text denotes no 32-bit integer.
    MalformedLiteral(Seq<char>),
    /// A name is read that the variable table does not hold.
    UndeclaredIdentifier(Seq<char>),
    /// A callee is declared already, with another signature.
    IncompatibleDeclaration(Seq<char>),
}

/// The state of a lowering in progress.
pub struct Lowering {
    /// The construction of the function.
    pub builder: BuilderState,
    /// The function's variable table.
    pub variables: Seq<Seq<char>>,
    /// The declarations of the compile unit.
    pub module: Seq<DeclView>,
}

/// The state after lowering something, and its result.
pub struct Lowered<T> {
    pub state: Lowering,
    pub result: Result<T, Failure>,
}

impl Lowering {
    /// The state after one more step of construction.
    pub open spec fn emit(self, op: OpView) -> Lowering {
        Lowering { builder: self.builder.step(op), ..self }
    }

    /// One more step, which defines the value that is the result.
    pub open spec fn value(self, op: OpView) -> Lowered<Value> {
        Lowered { state: self.emit(op), result: Ok(self.builder.next_value()) }
    }

    /// Failure in this state.
    pub open spec fn fail<T>(self, failure: Failure) -> Lowered<T> {
        Lowered { state: self, result: Err(failure) }
    }
}

/// The instruction of an arithmetic expression. Division is unsigned.
pub open spec fn arithmetic_of(e: Expr) -> BinaryOp {
    match e {
        Expr::Add(_, _) => BinaryOp::Iadd,
        Expr::Sub(_, _) => BinaryOp::Isub,
        Expr::Mul(_, _) => BinaryOp::Imul,
        _ => BinaryOp::Udiv,
    }
}

/// The condition of a comparison expression. Orderings are signed.
pub open spec fn condition_of(e: Expr) -> IntCC {
    match e {
        Expr::Eq(_, _) => IntCC::Equal,
        Expr::Ne(_, _) => IntCC::NotEqual,
        Expr::Lt(_, _) => IntCC::SignedLessThan,
        Expr::Le(_, _) => IntCC::SignedLessThanOrEqual,
        Expr::Gt(_, _) => IntCC::SignedGreaterThan,
        _ => IntCC::SignedGreaterThanOrEqual,
    }
}

/// An arithmetic instruction on two lowered operands, `b` lowered after `a`.
pub open spec fn binary(op: BinaryOp, a: Lowered<Value>, b: Lowered<Value>) -> Lowered<Value> {
    if a.result is Err {
        a
    } else if b.result is Err {
        b
    } else {
        b.state.value(OpView::Binary(op, a.result->Ok_0, b.result->Ok_0))
    }
}

/// A comparison of two lowered operands, `b` lowered after `a`, widened to
/// the integer 0 or 1.
pub open spec fn comparison(cc: IntCC, a: Lowered<Value>, b: Lowered<Value>) -> Lowered<Value> {
    if a.result is Err {
        a
    } else if b.result is Err {
        b
    } else {
        b.state.emit(OpView::Compare(cc, a.result->Ok_0, b.result->Ok_0)).value(
            OpView::Bint(b.state.builder.next_value()),
        )
    }
}

/// The last of `values`, or `default` where there is none.
pub open spec fn last_or(values: Seq<Value>, default: Value) -> Value {
    if values.len() > 0 {
        values.last()
    } else {
        default
    }
}

/// The state in which the then-body of a conditional is lowered: after the
/// condition, two blocks are created, the second gets the parameter that
/// will carry the conditional's value, a branch leaves for the first when
/// the condition is zero, and a zero stands ready as the body's value.
pub open spec fn open_conditional(s: Lowering, condition: Value) -> Lowering {
    let else_block = s.builder.next_block();
    let merge_block = Block((s.builder.blocks.len() + 1) as usize);
    s.emit(OpView::CreateBlock).emit(OpView::CreateBlock).emit(
        OpView::AppendBlockParam(merge_block, Type::I32),
    ).emit(OpView::Brz(condition, else_block, Seq::empty())).emit(OpView::Iconst(0))
}

/// The state in which the else-body is lowered: the then-body's value is
/// sent to the merge block, and the else block is entered and sealed, with
/// a zero ready as the body's value.
pub open spec fn turn_conditional(
    s: Lowering,
    else_block: Block,
    merge_block: Block,
    then_value: Value,
) -> Lowering {
    s.emit(OpView::Jump(merge_block, seq![then_value])).emit(OpView::SwitchToBlock(else_block)).emit(
        OpView::SealBlock(else_block),
    ).emit(OpView::Iconst(0))
}

/// The state after a conditional: the else-body's value is sent to the
/// merge block, which is entered and, both jumps to it emitted, sealed.
pub open spec fn close_conditional(s: Lowering, merge_block: Block, else_value: Value) -> Lowering {
    s.emit(OpView::Jump(merge_block, seq![else_value])).emit(OpView::SwitchToBlock(merge_block)).emit(
        OpView::SealBlock(merge_block),
    )
}

/// The state in which a loop's condition is lowered: a header block and an
/// exit block are created, and the header is jumped to and entered.
pub open spec fn open_loop(s: Lowering) -> Lowering {
    let header_block = s.builder.next_block();
    s.emit(OpView::CreateBlock).emit(OpView::CreateBlock).emit(
        OpView::Jump(header_block, Seq::empty()),
    ).emit(OpView::SwitchToBlock(header_block))
}

/// The state after a loop: the body jumps back to the header, the exit
/// block is entered, and only now the header and the exit are sealed. The
/// loop's value is a zero.
pub open spec fn close_loop(s: Lowering, header_block: Block, exit_block: Block) -> Lowered<Value> {
    s.emit(OpView::Jump(header_block, Seq::empty())).emit(OpView::SwitchToBlock(exit_block)).emit(
        OpView::SealBlock(header_block),
    ).emit(OpView::SealBlock(exit_block)).value(OpView::Iconst(0))
}

/// The lowering of one expression. The variable table is taken to hold the
/// target of every assignment in it.
pub open spec fn lower_expr(e: Expr, s: Lowering) -> Lowered<Value>
    decreases e, 1nat,
{
    match e {
        Expr::Literal(text) => match literal_value(text@) {
            Some(imm) => s.value(OpView::Iconst(imm)),
            None => s.fail(Failure::MalformedLiteral(text@)),
        },
        Expr::Identifier(name) => match lookup(s.variables, name@) {
            Some(var) => s.value(OpView::UseVar(var)),
            None => s.fail(Failure::UndeclaredIdentifier(name@)),
        },
        Expr::Assign(name, rhs) => {
            let assigned = lower_expr(*rhs, s);
            if assigned.result is Err {
                assigned
            } else {
                Lowered {
                    state: assigned.state.emit(
                        OpView::DefVar(lookup(s.variables, name@)->Some_0, assigned.result->Ok_0),
                    ),
                    result: assigned.result,
                }
            }
        },
        Expr::Add(lhs, rhs) | Expr::Sub(lhs, rhs) | Expr::Mul(lhs, rhs) | Expr::Div(lhs, rhs) => {
            let a = lower_expr(*lhs, s);
            binary(arithmetic_of(e), a, lower_expr(*rhs, a.state))
        },
        Expr::Eq(lhs, rhs) | Expr::Ne(lhs, rhs) | Expr::Lt(lhs, rhs) | Expr::Le(lhs, rhs) | Expr::Gt(
            lhs,
            rhs,
        ) | Expr::Ge(lhs, rhs) => {
            let a = lower_expr(*lhs, s);
            comparison(condition_of(e), a, lower_expr(*rhs, a.state))
        },
        Expr::IfElse(condition, then_body, else_body) => {
            let tested = lower_expr(*condition, s);
            let else_block = tested.state.builder.next_block();
            let merge_block = Block((tested.state.builder.blocks.len() + 1) as usize);
            let merged = tested.state.builder.next_value();
            let then_zero = Value((tested.state.builder.values.len() + 1) as usize);
            let then_part = lower_each(
                then_body@,
                0,
                open_conditional(tested.state, tested.result->Ok_0),
                Seq::empty(),
            );
            let else_zero = then_part.state.builder.next_value();
            let else_part = lower_each(
                else_body@,
                0,
                turn_conditional(
                    then_part.state,
                    else_block,
                    merge_block,
                    last_or(then_part.result->Ok_0, then_zero),
                ),
                Seq::empty(),
            );
            if tested.result is Err {
                tested
            } else if then_part.result is Err {
                then_part.state.fail(then_part.result->Err_0)
            } else if else_part.result is Err {
                else_part.state.fail(else_part.result->Err_0)
            } else {
                Lowered {
                    state: close_conditional(
                        else_part.state,
                        merge_block,
                        last_or(else_part.result->Ok_0, else_zero),
                    ),
                    result: Ok(merged),
                }
            }
        },
        Expr::WhileLoop(condition, body) => {
            let header_block = s.builder.next_block();
            let exit_block = Block((s.builder.blocks.len() + 1) as usize);
            let tested = lower_expr(*condition, open_loop(s));
            let looped = lower_each(
                body@,
                0,
                tested.state.emit(OpView::Brz(tested.result->Ok_0, exit_block, Seq::empty())),
                Seq::empty(),
            );
            if tested.result is Err {
                tested
            } else if looped.result is Err {
                looped.state.fail(looped.result->Err_0)
            } else {
                close_loop(looped.state, header_block, exit_block)
            }
        },
        Expr::Call(name, args) => {
            let signature = integer_signature(args@.len());
            let declared = declare(s.module, name@, Linkage::Export, signature);
            let callee = s.builder.next_func_ref();
            let passed = lower_each(
                args@,
                0,
                Lowering { module: declared.decls, ..s }.emit(
                    OpView::ImportFunction(declared.id->Some_0, signature),
                ),
                Seq::empty(),
            );
            if declared.id is None {
                s.fail(Failure::IncompatibleDeclaration(name@))
            } else if passed.result is Err {
                passed.state.fail(passed.result->Err_0)
            } else {
                passed.state.value(OpView::Call(callee, passed.result->Ok_0))
            }
        },
    }
}

/// The lowering of the expressions from position `i` on, in order, after
/// those before it gave the values `done`. The result holds every value.
pub open spec fn lower_each(exprs: Seq<Expr>, i: int, s: Lowering, done: Seq<Value>) -> Lowered<
    Seq<Value>,
>
    decreases exprs, exprs.len() - i,
{
    if 0 <= i < exprs.len() {
        let next = lower_expr(exprs[i], s);
        match next.result {
            Ok(v) => lower_each(exprs, i + 1, next.state, done.push(v)),
            Err(failure) => next.state.fail(failure),
        }
    } else {
        Lowered { state: s, result: Ok(done) }
    }
}

/// The construction after the entry block was given `count` integer
/// parameters.
pub open spec fn entry_params(b: BuilderState, entry_block: Block, count: nat) -> BuilderState
    decreases count,
{
    if count == 0 {
        b
    } else {
        entry_params(b, entry_block, (count - 1) as nat).step(
            OpView::AppendBlockParam(entry_block, Type::I32),
        )
    }
}

/// The state in which the statements of a function are lowered. The entry
/// block is created, gets one integer parameter for each parameter of the
/// function, and is entered; the variable table is filled; then the entry
/// block, which nothing jumps to, is sealed.
pub open spec fn open_function(
    module: Seq<DeclView>,
    params: Seq<Seq<char>>,
    the_return: Seq<char>,
    stmts: Seq<Expr>,
) -> Lowering {
    let entry_block = Block(0);
    let entered = entry_params(
        BuilderState::new(integer_signature(params.len())).step(OpView::CreateBlock),
        entry_block,
        params.len(),
    ).step(OpView::SwitchToBlock(entry_block));
    let declared = declare_all(entered, params, the_return, stmts, entry_block);
    Lowering {
        builder: declared.builder.step(OpView::SealBlock(entry_block)),
        variables: declared.table,
        module,
    }
}

/// The lowering of a function: its statements in order, then the return of
/// the current binding of the variable that bears the result's name.
pub open spec fn lower_function(
    module: Seq<DeclView>,
    params: Seq<Seq<char>>,
    the_return: Seq<char>,
    stmts: Seq<Expr>,
) -> Lowered<()> {
    let start = open_function(module, params, the_return, stmts);
    let body = lower_each(stmts, 0, start, Seq::empty());
    match body.result {
        Err(failure) => body.state.fail(failure),
        Ok(_) => Lowered {
            state: body.state.emit(
                OpView::UseVar(lookup(start.variables, the_return)->Some_0),
            ).emit(OpView::Return(seq![body.state.builder.next_value()])),
            result: Ok(()),
        },
    }
}

} // verus!
