//! The lowering itself: expressions and statements to construction steps.

use vstd::prelude::*;
use vstd::pervasive::unreached;
use crate::ast::Expr;
use crate::builder::FunctionBuilder;
use crate::ir::{integers, BinaryOp, Block, IntCC, Linkage, OpView, Signature, Type, Value};
use crate::literal::parse_literal;
use crate::lowering::{
    arithmetic_of,
    condition_of,
    close_conditional,
    close_loop,
    lower_each,
    lower_expr,
    open_conditional,
    open_loop,
    turn_conditional,
    Failure,
    Lowering,
};
use crate::module::Module;
use crate::variables::{in_step, targets_known, targets_known_from, VariableTable};

verus! {

/// Why a lowering failed.
#[derive(Debug, PartialEq, Eq)]
pub enum TranslateError {
    /// A literal's text denotes no 32-bit integer.
    MalformedLiteral(String),
    /// A name is read that the variable table does not hold.
    UndeclaredIdentifier(String),
    /// A callee is declared already, with another signature.
    IncompatibleDeclaration(String),
}

impl View for TranslateError {
    type V = Failure;

    open spec fn view(&self) -> Failure {
        match self {
            TranslateError::MalformedLiteral(text) => Failure::MalformedLiteral(text@),
            TranslateError::UndeclaredIdentifier(name) => Failure::UndeclaredIdentifier(name@),
            TranslateError::IncompatibleDeclaration(name) => Failure::IncompatibleDeclaration(
                name@,
            ),
        }
    }
}

/// A result with the failure as a view.
pub open spec fn outcome<T>(res: Result<T, TranslateError>) -> Result<T, Failure> {
    match res {
        Ok(v) => Ok(v),
        Err(e) => Err(e@),
    }
}

/// A result that holds values, with sequences in place of vectors.
pub open spec fn outcomes(res: Result<Vec<Value>, TranslateError>) -> Result<Seq<Value>, Failure> {
    match res {
        Ok(values) => Ok(values@),
        Err(e) => Err(e@),
    }
}

/// The state of the lowering of one function.
pub struct FunctionTranslator {
    pub builder: FunctionBuilder,
    pub variables: VariableTable,
    pub module: Module,
}

impl View for FunctionTranslator {
    type V = Lowering;

    open spec fn view(&self) -> Lowering {
        Lowering { builder: self.builder@, variables: self.variables@, module: self.module@ }
    }
}

impl FunctionTranslator {
    /// The parts are well formed, and the builder has declared the table's
    /// variables.
    pub open spec fn wf(&self) -> bool {
        &&& self.builder.wf()
        &&& self.variables.wf()
        &&& self.module.wf()
        &&& in_step(self.builder@, self.variables@)
    }

    /// What every lowering of an expression promises: the state and the
    /// result are those of `lower_expr`, and where it succeeds the
    /// construction has advanced and the value is an integer.
    pub open spec fn lowers(
        before: Lowering,
        expr: Expr,
        after: Lowering,
        res: Result<Value, TranslateError>,
    ) -> bool {
        &&& after == lower_expr(expr, before).state
        &&& after.variables == before.variables
        &&& outcome(res) == lower_expr(expr, before).result
        &&& res matches Ok(v) ==> before.builder.advances_to(after.builder)
            && after.builder.is_integer(v)
    }

    /// Lowers one expression. The value is that of the expression. The
    /// variable table must hold the target of every assignment in it, as
    /// the table that the declaring pass fills does.
    pub fn translate_expr(&mut self, expr: &Expr) -> (res: Result<Value, TranslateError>)
        requires
            old(self).wf(),
            old(self)@.builder.can_emit(),
            targets_known(*expr, old(self)@.variables),
        ensures
            final(self).wf(),
            Self::lowers(old(self)@, *expr, final(self)@, res),
        decreases expr, 2nat,
    {
        match expr {
            Expr::Literal(_) => self.translate_literal(expr),
            Expr::Add(_, _) => self.translate_arithmetic(expr),
            Expr::Sub(_, _) => self.translate_arithmetic(expr),
            Expr::Mul(_, _) => self.translate_arithmetic(expr),
            Expr::Div(_, _) => self.translate_arithmetic(expr),
            Expr::Eq(_, _) => self.translate_comparison(expr),
            Expr::Ne(_, _) => self.translate_comparison(expr),
            Expr::Lt(_, _) => self.translate_comparison(expr),
            Expr::Le(_, _) => self.translate_comparison(expr),
            Expr::Gt(_, _) => self.translate_comparison(expr),
            Expr::Ge(_, _) => self.translate_comparison(expr),
            Expr::Call(_, _) => self.translate_call(expr),
            Expr::Identifier(_) => self.translate_identifier(expr),
            Expr::Assign(_, _) => self.translate_assign(expr),
            Expr::IfElse(_, _, _) => self.translate_if_else(expr),
            Expr::WhileLoop(_, _) => self.translate_while_loop(expr),
        }
    }

    /// Lowers a literal to a constant.
    fn translate_literal(&mut self, expr: &Expr) -> (res: Result<Value, TranslateError>)
        requires
            old(self).wf(),
            old(self)@.builder.can_emit(),
            targets_known(*expr, old(self)@.variables),
            *expr is Literal,
        ensures
            final(self).wf(),
            Self::lowers(old(self)@, *expr, final(self)@, res),
    {
        match expr {
            Expr::Literal(literal) => {
                match parse_literal(literal.as_str()) {
                    Some(imm) => Ok(self.builder.ins_iconst(imm)),
                    None => Err(TranslateError::MalformedLiteral(literal.clone())),
                }
            },
            _ => unreached(),
        }
    }

    /// Lowers the read of a variable.
    fn translate_identifier(&mut self, expr: &Expr) -> (res: Result<Value, TranslateError>)
        requires
            old(self).wf(),
            old(self)@.builder.can_emit(),
            targets_known(*expr, old(self)@.variables),
            *expr is Identifier,
        ensures
            final(self).wf(),
            Self::lowers(old(self)@, *expr, final(self)@, res),
    {
        match expr {
            Expr::Identifier(name) => {
                match self.variables.get(name.as_str()) {
                    Some(variable) => Ok(self.builder.use_var(variable)),
                    None => Err(TranslateError::UndeclaredIdentifier(name.clone())),
                }
            },
            _ => unreached(),
        }
    }

    /// Lowers an assignment: the right-hand side first, then the rebinding.
    /// The value is the value assigned.
    fn translate_assign(&mut self, expr: &Expr) -> (res: Result<Value, TranslateError>)
        requires
            old(self).wf(),
            old(self)@.builder.can_emit(),
            targets_known(*expr, old(self)@.variables),
            *expr is Assign,
        ensures
            final(self).wf(),
            Self::lowers(old(self)@, *expr, final(self)@, res),
        decreases expr, 1nat,
    {
        match expr {
            Expr::Assign(name, rhs) => {
                let new_value = match self.translate_expr(rhs) {
                    Ok(v) => v,
                    Err(e) => {
                        return Err(e);
                    },
                };
                let ghost assigned = self@.builder;
                match self.variables.get(name.as_str()) {
                    Some(variable) => {
                        self.builder.def_var(variable, new_value);
                        proof {
                            old(self)@.builder.lemma_advances_trans(assigned, self@.builder);
                        }
                        Ok(new_value)
                    },
                    None => unreached(),
                }
            },
            _ => unreached(),
        }
    }

    /// Lowers both operands of a two-operand expression, left before right.
    fn translate_operands(&mut self, expr: &Expr, lhs: &Expr, rhs: &Expr) -> (res: Result<
        (Value, Value),
        TranslateError,
    >)
        requires
            old(self).wf(),
            old(self)@.builder.can_emit(),
            targets_known(*lhs, old(self)@.variables),
            targets_known(*rhs, old(self)@.variables),
            decreases_to!(*expr => *lhs),
            decreases_to!(*expr => *rhs),
        ensures
            final(self).wf(),
            ({
                let a = lower_expr(*lhs, old(self)@);
                let b = lower_expr(*rhs, a.state);
                &&& final(self)@.variables == old(self)@.variables
                &&& match res {
                    Ok((x, y)) => {
                        &&& a.result == Ok::<Value, Failure>(x)
                        &&& b.result == Ok::<Value, Failure>(y)
                        &&& final(self)@ == b.state
                        &&& old(self)@.builder.advances_to(final(self)@.builder)
                        &&& final(self)@.builder.is_integer(x)
                        &&& final(self)@.builder.is_integer(y)
                    },
                    Err(e) => {
                        if a.result is Err {
                            a.result == Err::<Value, Failure>(e@) && final(self)@ == a.state
                        } else {
                            b.result == Err::<Value, Failure>(e@) && final(self)@ == b.state
                        }
                    },
                }
            }),
        decreases expr, 0nat,
    {
        let a = match self.translate_expr(lhs) {
            Ok(v) => v,
            Err(e) => {
                return Err(e);
            },
        };
        let ghost mid = self@.builder;
        let b = match self.translate_expr(rhs) {
            Ok(v) => v,
            Err(e) => {
                return Err(e);
            },
        };
        proof {
            old(self)@.builder.lemma_advances_trans(mid, self@.builder);
        }
        Ok((a, b))
    }

    /// Lowers an arithmetic expression. Division is unsigned.
    fn translate_arithmetic(&mut self, expr: &Expr) -> (res: Result<Value, TranslateError>)
        requires
            old(self).wf(),
            old(self)@.builder.can_emit(),
            targets_known(*expr, old(self)@.variables),
            *expr is Add || *expr is Sub || *expr is Mul || *expr is Div,
        ensures
            final(self).wf(),
            Self::lowers(old(self)@, *expr, final(self)@, res),
        decreases expr, 1nat,
    {
        let (op, lhs, rhs) = match expr {
            Expr::Add(lhs, rhs) => (BinaryOp::Iadd, lhs, rhs),
            Expr::Sub(lhs, rhs) => (BinaryOp::Isub, lhs, rhs),
            Expr::Mul(lhs, rhs) => (BinaryOp::Imul, lhs, rhs),
            Expr::Div(lhs, rhs) => (BinaryOp::Udiv, lhs, rhs),
            _ => unreached(),
        };
        assert(op == arithmetic_of(*expr));
        let (a, b) = match self.translate_operands(expr, lhs, rhs) {
            Ok(pair) => pair,
            Err(e) => {
                return Err(e);
            },
        };
        let ghost lowered = self@.builder;
        let v = self.builder.ins_binary(op, a, b);
        proof {
            old(self)@.builder.lemma_advances_trans(lowered, self@.builder);
        }
        Ok(v)
    }

    /// Lowers a comparison: a signed comparison of the operands, widened to
    /// the integer 0 or 1.
    fn translate_comparison(&mut self, expr: &Expr) -> (res: Result<Value, TranslateError>)
        requires
            old(self).wf(),
            old(self)@.builder.can_emit(),
            targets_known(*expr, old(self)@.variables),
            *expr is Eq || *expr is Ne || *expr is Lt || *expr is Le || *expr is Gt || *expr is Ge,
        ensures
            final(self).wf(),
            Self::lowers(old(self)@, *expr, final(self)@, res),
        decreases expr, 1nat,
    {
        let (cc, lhs, rhs) = match expr {
            Expr::Eq(lhs, rhs) => (IntCC::Equal, lhs, rhs),
            Expr::Ne(lhs, rhs) => (IntCC::NotEqual, lhs, rhs),
            Expr::Lt(lhs, rhs) => (IntCC::SignedLessThan, lhs, rhs),
            Expr::Le(lhs, rhs) => (IntCC::SignedLessThanOrEqual, lhs, rhs),
            Expr::Gt(lhs, rhs) => (IntCC::SignedGreaterThan, lhs, rhs),
            Expr::Ge(lhs, rhs) => (IntCC::SignedGreaterThanOrEqual, lhs, rhs),
            _ => unreached(),
        };
        assert(cc == condition_of(*expr));
        let (a, b) = match self.translate_operands(expr, lhs, rhs) {
            Ok(pair) => pair,
            Err(e) => {
                return Err(e);
            },
        };
        let ghost lowered = self@.builder;
        let c = self.builder.ins_compare(cc, a, b);
        let ghost compared = self@.builder;
        let v = self.builder.ins_bint(c);
        proof {
            old(self)@.builder.lemma_advances_trans(lowered, compared);
            old(self)@.builder.lemma_advances_trans(compared, self@.builder);
        }
        Ok(v)
    }

    /// Lowers expressions in order and gives their values.
    pub fn translate_each(&mut self, exprs: &Vec<Expr>) -> (res: Result<Vec<Value>, TranslateError>)
        requires
            old(self).wf(),
            old(self)@.builder.can_emit(),
            targets_known_from(exprs@, 0, old(self)@.variables),
        ensures
            final(self).wf(),
            final(self)@ == lower_each(exprs@, 0, old(self)@, Seq::empty()).state,
            final(self)@.variables == old(self)@.variables,
            outcomes(res) == lower_each(exprs@, 0, old(self)@, Seq::empty()).result,
            res matches Ok(values) ==> old(self)@.builder.advances_to(final(self)@.builder)
                && final(self)@.builder.fit(values@, integers(exprs@.len())),
        decreases exprs, 0nat,
    {
        let mut values: Vec<Value> = Vec::new();
        let mut i: usize = 0;
        while i < exprs.len()
            invariant
                i <= exprs.len(),
                self.wf(),
                self@.builder.can_emit(),
                self@.variables == old(self)@.variables,
                targets_known_from(exprs@, i as int, self@.variables),
                old(self)@.builder.advances_to(self@.builder),
                self@.builder.fit(values@, integers(i as nat)),
                lower_each(exprs@, 0, old(self)@, Seq::empty()) == lower_each(
                    exprs@,
                    i as int,
                    self@,
                    values@,
                ),
            decreases exprs.len() - i,
        {
            let ghost before = self@.builder;
            let v = match self.translate_expr(&exprs[i]) {
                Ok(v) => v,
                Err(e) => {
                    return Err(e);
                },
            };
            proof {
                before.lemma_fit_kept(self@.builder, values@, integers(i as nat));
                old(self)@.builder.lemma_advances_trans(before, self@.builder);
            }
            values.push(v);
            i = i + 1;
        }
        Ok(values)
    }

    /// Begins a conditional whose condition has the value `condition`.
    /// Gives the else block, the merge block, the value of the merge
    /// block's parameter, and the zero that stands for an empty then-body.
    fn open_conditional(&mut self, condition: Value) -> (opened: (Block, Block, Value, Value))
        requires
            old(self).wf(),
            old(self)@.builder.can_emit(),
            old(self)@.builder.has_value(condition),
        ensures
            final(self).wf(),
            final(self)@ == open_conditional(old(self)@, condition),
            opened.0 == old(self)@.builder.first_new_block(),
            opened.1 == old(self)@.builder.second_new_block(),
            opened.2 == old(self)@.builder.next_value(),
            opened.3 == Value((old(self)@.builder.values.len() + 1) as usize),
            old(self)@.builder.opens_conditional(final(self)@.builder),
    {
        let else_block = self.builder.create_block();
        let merge_block = self.builder.create_block();
        let merged = self.builder.append_block_param(merge_block, Type::I32);
        self.builder.ins_brz(condition, else_block, Vec::new());
        let zero = self.builder.ins_iconst(0);
        proof {
            self.builder.lemma_bounded();
        }
        (else_block, merge_block, merged, zero)
    }

    /// Ends the then-body, whose value is `then_value`, and begins the
    /// else-body. Gives the zero that stands for an empty else-body.
    fn turn_conditional(&mut self, else_block: Block, merge_block: Block, then_value: Value) -> (zero:
        Value)
        requires
            old(self).wf(),
            old(self)@.builder.can_emit(),
            old(self)@.builder.is_integer(then_value),
            old(self)@.builder.awaits_else(else_block, merge_block),
        ensures
            final(self).wf(),
            final(self)@ == turn_conditional(old(self)@, else_block, merge_block, then_value),
            zero == old(self)@.builder.next_value(),
            old(self)@.builder.turns_conditional(final(self)@.builder, else_block, merge_block),
    {
        let mut args: Vec<Value> = Vec::new();
        args.push(then_value);
        assert(args@ =~= seq![then_value]);
        self.builder.ins_jump(merge_block, args);
        self.builder.switch_to_block(else_block);
        self.builder.seal_block(else_block);
        let zero = self.builder.ins_iconst(0);
        proof {
            self.builder.lemma_bounded();
        }
        zero
    }

    /// Ends the else-body, whose value is `else_value`, and with it the
    /// conditional.
    fn close_conditional(&mut self, merge_block: Block, else_value: Value)
        requires
            old(self).wf(),
            old(self)@.builder.can_emit(),
            old(self)@.builder.is_integer(else_value),
            old(self)@.builder.awaits_merge(merge_block, 1),
        ensures
            final(self).wf(),
            final(self)@ == close_conditional(old(self)@, merge_block, else_value),
            old(self)@.builder.closes_conditional(final(self)@.builder, merge_block),
    {
        let mut args: Vec<Value> = Vec::new();
        args.push(else_value);
        assert(args@ =~= seq![else_value]);
        self.builder.ins_jump(merge_block, args);
        self.builder.switch_to_block(merge_block);
        self.builder.seal_block(merge_block);
        proof {
            self.builder.lemma_bounded();
        }
    }

    /// Lowers a conditional. The value is that of the merge block's
    /// parameter: the value of the last statement of the body that ran, or
    /// zero where that body is empty.
    fn translate_if_else(&mut self, expr: &Expr) -> (res: Result<Value, TranslateError>)
        requires
            old(self).wf(),
            old(self)@.builder.can_emit(),
            targets_known(*expr, old(self)@.variables),
            *expr is IfElse,
        ensures
            final(self).wf(),
            Self::lowers(old(self)@, *expr, final(self)@, res),
        decreases expr, 1nat,
    {
        match expr {
            Expr::IfElse(condition, then_body, else_body) => {
                let condition_value = match self.translate_expr(condition) {
                    Ok(v) => v,
                    Err(e) => {
                        return Err(e);
                    },
                };
                let ghost tested = self@.builder;
                let (else_block, merge_block, merged, then_zero) = self.open_conditional(
                    condition_value,
                );
                let ghost opened = self@.builder;
                let then_values = match self.translate_each(then_body) {
                    Ok(values) => values,
                    Err(e) => {
                        return Err(e);
                    },
                };
                let ghost then_done = self@.builder;
                let then_return = if then_values.len() > 0 {
                    then_values[then_values.len() - 1]
                } else {
                    then_zero
                };
                proof {
                    tested.lemma_conditional_opened(opened, then_done);
                }
                let else_zero = self.turn_conditional(else_block, merge_block, then_return);
                let ghost turned = self@.builder;
                let else_values = match self.translate_each(else_body) {
                    Ok(values) => values,
                    Err(e) => {
                        return Err(e);
                    },
                };
                let ghost else_done = self@.builder;
                let else_return = if else_values.len() > 0 {
                    else_values[else_values.len() - 1]
                } else {
                    else_zero
                };
                proof {
                    tested.lemma_conditional_turned(opened, then_done, turned, else_done);
                }
                self.close_conditional(merge_block, else_return);
                proof {
                    tested.lemma_conditional_closed(
                        opened,
                        then_done,
                        turned,
                        else_done,
                        self@.builder,
                    );
                    old(self)@.builder.lemma_advances_trans(tested, self@.builder);
                }
                Ok(merged)
            },
            _ => unreached(),
        }
    }

    /// Begins a loop. Gives the header block and the exit block.
    fn open_loop(&mut self) -> (opened: (Block, Block))
        requires
            old(self).wf(),
            old(self)@.builder.can_emit(),
        ensures
            final(self).wf(),
            final(self)@ == open_loop(old(self)@),
            opened.0 == old(self)@.builder.first_new_block(),
            opened.1 == old(self)@.builder.second_new_block(),
            old(self)@.builder.opens_loop(final(self)@.builder),
    {
        let header_block = self.builder.create_block();
        let exit_block = self.builder.create_block();
        self.builder.ins_jump(header_block, Vec::new());
        self.builder.switch_to_block(header_block);
        proof {
            self.builder.lemma_bounded();
        }
        (header_block, exit_block)
    }

    /// Leaves the loop for the exit block when the condition is zero.
    fn branch_out(&mut self, condition: Value, header_block: Block, exit_block: Block)
        requires
            old(self).wf(),
            old(self)@.builder.can_emit(),
            old(self)@.builder.has_value(condition),
            old(self)@.builder.awaits_exit(header_block, exit_block, 0),
        ensures
            final(self).wf(),
            final(self)@ == old(self)@.emit(OpView::Brz(condition, exit_block, Seq::empty())),
            old(self)@.builder.branches_out(final(self)@.builder, exit_block),
    {
        self.builder.ins_brz(condition, exit_block, Vec::new());
        proof {
            self.builder.lemma_bounded();
        }
    }

    /// Ends the body of a loop and with it the loop. Gives the loop's
    /// value, a zero.
    fn close_loop(&mut self, header_block: Block, exit_block: Block) -> (zero: Value)
        requires
            old(self).wf(),
            old(self)@.builder.can_emit(),
            old(self)@.builder.awaits_exit(header_block, exit_block, 1),
        ensures
            final(self).wf(),
            final(self)@ == close_loop(old(self)@, header_block, exit_block).state,
            Ok::<Value, Failure>(zero) == close_loop(old(self)@, header_block, exit_block).result,
            old(self)@.builder.closes_loop(final(self)@.builder, header_block, exit_block),
            final(self)@.builder.is_integer(zero),
    {
        self.builder.ins_jump(header_block, Vec::new());
        self.builder.switch_to_block(exit_block);
        self.builder.seal_block(header_block);
        self.builder.seal_block(exit_block);
        let zero = self.builder.ins_iconst(0);
        proof {
            self.builder.lemma_bounded();
        }
        zero
    }

    /// Lowers a loop. The value is always zero.
    fn translate_while_loop(&mut self, expr: &Expr) -> (res: Result<Value, TranslateError>)
        requires
            old(self).wf(),
            old(self)@.builder.can_emit(),
            targets_known(*expr, old(self)@.variables),
            *expr is WhileLoop,
        ensures
            final(self).wf(),
            Self::lowers(old(self)@, *expr, final(self)@, res),
        decreases expr, 1nat,
    {
        match expr {
            Expr::WhileLoop(condition, loop_body) => {
                let (header_block, exit_block) = self.open_loop();
                let ghost opened = self@.builder;
                let condition_value = match self.translate_expr(condition) {
                    Ok(v) => v,
                    Err(e) => {
                        return Err(e);
                    },
                };
                let ghost tested = self@.builder;
                proof {
                    old(self)@.builder.lemma_loop_tested(opened, tested);
                }
                self.branch_out(condition_value, header_block, exit_block);
                let ghost branched = self@.builder;
                match self.translate_each(loop_body) {
                    Ok(_) => {},
                    Err(e) => {
                        return Err(e);
                    },
                };
                let ghost looped = self@.builder;
                proof {
                    old(self)@.builder.lemma_loop_looped(opened, tested, branched, looped);
                }
                let zero = self.close_loop(header_block, exit_block);
                proof {
                    old(self)@.builder.lemma_loop_closed(
                        opened,
                        tested,
                        branched,
                        looped,
                        self@.builder,
                    );
                }
                Ok(zero)
            },
            _ => unreached(),
        }
    }

    /// Lowers a call: the callee is declared with one integer parameter for
    /// each argument and one integer result, and made callable; then the
    /// arguments are lowered, left to right; then the call is emitted. The
    /// value is the call's result.
    fn translate_call(&mut self, expr: &Expr) -> (res: Result<Value, TranslateError>)
        requires
            old(self).wf(),
            old(self)@.builder.can_emit(),
            targets_known(*expr, old(self)@.variables),
            *expr is Call,
        ensures
            final(self).wf(),
            Self::lowers(old(self)@, *expr, final(self)@, res),
        decreases expr, 1nat,
    {
        match expr {
            Expr::Call(name, args) => {
                let sig = Signature::integers(args.len());
                let imported = sig.copy();
                let callee = match self.module.declare_function(
                    name.as_str(),
                    Linkage::Export,
                    sig,
                ) {
                    Ok(id) => id,
                    Err(_) => {
                        return Err(TranslateError::IncompatibleDeclaration(name.clone()));
                    },
                };
                let local_callee = self.builder.import_function(callee, imported);
                let ghost declared = self@.builder;
                let arg_values = match self.translate_each(args) {
                    Ok(values) => values,
                    Err(e) => {
                        return Err(e);
                    },
                };
                let ghost passed = self@.builder;
                let v = self.builder.ins_call(local_callee, arg_values);
                proof {
                    old(self)@.builder.lemma_advances_trans(declared, passed);
                    old(self)@.builder.lemma_advances_trans(passed, self@.builder);
                }
                Ok(v)
            },
            _ => unreached(),
        }
    }
}

} // verus!
