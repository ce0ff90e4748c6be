//! What an expression denotes and what lowered code computes, and that the
//! two agree on expressions made of literals, arithmetic and comparisons.

use vstd::prelude::*;
use vstd::arithmetic::div_mod::{
    lemma_add_mod_noop,
    lemma_mod_multiples_vanish,
    lemma_mul_mod_noop_general,
};
use crate::ast::Expr;
use crate::ir::{BinaryOp, IntCC, OpView, Value};
use crate::literal::literal_value;
use crate::lowering::{arithmetic_of, condition_of, lower_expr, Lowering};

verus! {

/// The 32-bit integer that is congruent to `x` modulo 2^32.
pub open spec fn wrap(x: int) -> i32 {
    let m = x % 0x1_0000_0000;
    if m >= 0x8000_0000 {
        (m - 0x1_0000_0000) as i32
    } else {
        m as i32
    }
}

/// The bits of `x` read as an unsigned number.
pub open spec fn unsigned(x: i32) -> int {
    if x < 0 {
        x + 0x1_0000_0000
    } else {
        x as int
    }
}

/// The result of an arithmetic instruction: addition, subtraction and
/// multiplication wrap; division is unsigned and has no result on a zero
/// divisor.
pub open spec fn apply(op: BinaryOp, a: i32, b: i32) -> Option<i32> {
    match op {
        BinaryOp::Iadd => Some(wrap(a + b)),
        BinaryOp::Isub => Some(wrap(a - b)),
        BinaryOp::Imul => Some(wrap(a * b)),
        BinaryOp::Udiv => if b == 0 {
            None
        } else {
            Some(wrap(unsigned(a) / unsigned(b)))
        },
    }
}

/// Whether a condition holds of two integers. Orderings are signed.
pub open spec fn holds(cc: IntCC, a: i32, b: i32) -> bool {
    match cc {
        IntCC::Equal => a == b,
        IntCC::NotEqual => a != b,
        IntCC::SignedLessThan => a < b,
        IntCC::SignedLessThanOrEqual => a <= b,
        IntCC::SignedGreaterThan => a > b,
        IntCC::SignedGreaterThanOrEqual => a >= b,
    }
}

/// A truth value as an integer.
pub open spec fn widen(truth: bool) -> i32 {
    if truth {
        1
    } else {
        0
    }
}

/// Whether an expression is made of literals, arithmetic and comparisons
/// alone, each literal denoting a number.
pub open spec fn is_pure(e: Expr) -> bool
    decreases e,
{
    match e {
        Expr::Literal(text) => literal_value(text@) is Some,
        Expr::Add(lhs, rhs) | Expr::Sub(lhs, rhs) | Expr::Mul(lhs, rhs) | Expr::Div(lhs, rhs) => is_pure(
            *lhs,
        ) && is_pure(*rhs),
        Expr::Eq(lhs, rhs) | Expr::Ne(lhs, rhs) | Expr::Lt(lhs, rhs) | Expr::Le(lhs, rhs) | Expr::Gt(
            lhs,
            rhs,
        ) | Expr::Ge(lhs, rhs) => is_pure(*lhs) && is_pure(*rhs),
        _ => false,
    }
}

/// Whether an expression is made of literals and arithmetic alone, each
/// literal denoting a number.
pub open spec fn is_arithmetic(e: Expr) -> bool
    decreases e,
{
    match e {
        Expr::Literal(text) => literal_value(text@) is Some,
        Expr::Add(lhs, rhs) | Expr::Sub(lhs, rhs) | Expr::Mul(lhs, rhs) | Expr::Div(lhs, rhs) => is_arithmetic(
            *lhs,
        ) && is_arithmetic(*rhs),
        _ => false,
    }
}

/// Whether an expression is a comparison.
pub open spec fn is_comparison(e: Expr) -> bool {
    e is Eq || e is Ne || e is Lt || e is Le || e is Gt || e is Ge
}

/// What a pure expression denotes, evaluated directly: the number, or
/// nothing where a division by zero is met.
pub open spec fn evaluate(e: Expr) -> Option<i32>
    decreases e,
{
    match e {
        Expr::Literal(text) => literal_value(text@),
        Expr::Add(lhs, rhs) | Expr::Sub(lhs, rhs) | Expr::Mul(lhs, rhs) | Expr::Div(lhs, rhs) => {
            match (evaluate(*lhs), evaluate(*rhs)) {
                (Some(a), Some(b)) => apply(arithmetic_of(e), a, b),
                _ => None,
            }
        },
        Expr::Eq(lhs, rhs) | Expr::Ne(lhs, rhs) | Expr::Lt(lhs, rhs) | Expr::Le(lhs, rhs) | Expr::Gt(
            lhs,
            rhs,
        ) | Expr::Ge(lhs, rhs) => {
            match (evaluate(*lhs), evaluate(*rhs)) {
                (Some(a), Some(b)) => Some(widen(holds(condition_of(e), a, b))),
                _ => None,
            }
        },
        _ => None,
    }
}

/// What a value holds when the code runs.
pub enum Datum {
    Int(i32),
    Bool(bool),
}

/// Running one step of straight-line computation on the values computed so
/// far, which stand at the positions of their handles. The step's value
/// is added at the end. A step that traps, that finds a value of the wrong
/// kind, or that is no computation has no outcome.
pub open spec fn execute(op: OpView, store: Seq<Datum>) -> Option<Seq<Datum>> {
    match op {
        OpView::Iconst(imm) => Some(store.push(Datum::Int(imm))),
        OpView::Binary(op, a, b) => match (store[a.0 as int], store[b.0 as int]) {
            (Datum::Int(x), Datum::Int(y)) => match apply(op, x, y) {
                Some(z) => Some(store.push(Datum::Int(z))),
                None => None,
            },
            _ => None,
        },
        OpView::Compare(cc, a, b) => match (store[a.0 as int], store[b.0 as int]) {
            (Datum::Int(x), Datum::Int(y)) => Some(store.push(Datum::Bool(holds(cc, x, y)))),
            _ => None,
        },
        OpView::Bint(v) => match store[v.0 as int] {
            Datum::Bool(truth) => Some(store.push(Datum::Int(widen(truth)))),
            _ => None,
        },
        _ => None,
    }
}

/// Running steps in order.
pub open spec fn run(code: Seq<OpView>, store: Seq<Datum>) -> Option<Seq<Datum>>
    decreases code.len(),
{
    if code.len() == 0 {
        Some(store)
    } else {
        match run(code.drop_last(), store) {
            Some(before) => execute(code.last(), before),
            None => None,
        }
    }
}

/// The steps that a lowering added.
pub open spec fn emitted(before: Lowering, after: Lowering) -> Seq<OpView> {
    after.builder.code.skip(before.builder.code.len() as int)
}

/// What running the code of a lowered expression must give, for what the
/// expression denotes: where it denotes a number, the store grows, keeps
/// what it held, and holds the number at the handle `value`; where it
/// denotes nothing, the code has no outcome.
pub open spec fn yields(
    code: Seq<OpView>,
    store: Seq<Datum>,
    value: Value,
    denoted: Option<i32>,
) -> bool {
    match denoted {
        Some(number) => {
            &&& run(code, store) matches Some(after)
            &&& store.len() <= after.len()
            &&& after.take(store.len() as int) == store
            &&& (value.0 as int) < after.len()
            &&& after[value.0 as int] == Datum::Int(number)
        },
        None => run(code, store) is None,
    }
}

/// Running one listing after another is running the two as one.
pub(crate) proof fn lemma_run_concat(first: Seq<OpView>, second: Seq<OpView>, store: Seq<Datum>)
    ensures
        run(first + second, store) == match run(first, store) {
            Some(mid) => run(second, mid),
            None => None,
        },
    decreases second.len(),
{
    if second.len() == 0 {
        assert(first + second =~= first);
    } else {
        lemma_run_concat(first, second.drop_last(), store);
        assert((first + second).drop_last() =~= first + second.drop_last());
        assert((first + second).last() == second.last());
    }
}

/// Running a single step is executing it.
proof fn lemma_run_one(op: OpView, store: Seq<Datum>)
    ensures
        run(seq![op], store) == execute(op, store),
{
    reveal_with_fuel(run, 2);
    assert(seq![op].drop_last() =~= Seq::<OpView>::empty());
    assert(seq![op].last() == op);
}

/// The lowering of a pure expression succeeds, only adds steps, and defines
/// one value for each step it adds.
proof fn lemma_pure_lowering(e: Expr, s: Lowering)
    requires
        is_pure(e),
    ensures
        lower_expr(e, s).result is Ok,
        lower_expr(e, s).state.builder.code == s.builder.code + emitted(s, lower_expr(e, s).state),
        lower_expr(e, s).state.builder.values.len() == s.builder.values.len() + emitted(
            s,
            lower_expr(e, s).state,
        ).len(),
        emitted(s, lower_expr(e, s).state).len() > 0,
    decreases e,
{
    let after = lower_expr(e, s).state;
    match e {
        Expr::Literal(text) => {
            assert(after.builder.code =~= s.builder.code + emitted(s, after));
        },
        Expr::Add(lhs, rhs) | Expr::Sub(lhs, rhs) | Expr::Mul(lhs, rhs) | Expr::Div(lhs, rhs) => {
            let a = lower_expr(*lhs, s);
            let b = lower_expr(*rhs, a.state);
            lemma_pure_lowering(*lhs, s);
            lemma_pure_lowering(*rhs, a.state);
            assert(after.builder.code =~= s.builder.code + emitted(s, after));
        },
        Expr::Eq(lhs, rhs) | Expr::Ne(lhs, rhs) | Expr::Lt(lhs, rhs) | Expr::Le(lhs, rhs) | Expr::Gt(
            lhs,
            rhs,
        ) | Expr::Ge(lhs, rhs) => {
            let a = lower_expr(*lhs, s);
            let b = lower_expr(*rhs, a.state);
            lemma_pure_lowering(*lhs, s);
            lemma_pure_lowering(*rhs, a.state);
            assert(after.builder.code =~= s.builder.code + emitted(s, after));
        },
        _ => {},
    }
}

/// Whether an expression has two operands.
pub open spec fn is_binary(e: Expr) -> bool {
    e is Add || e is Sub || e is Mul || e is Div || is_comparison(e)
}

/// The operands of an expression that has two.
pub open spec fn operands(e: Expr) -> (Expr, Expr) {
    match e {
        Expr::Add(lhs, rhs) | Expr::Sub(lhs, rhs) | Expr::Mul(lhs, rhs) | Expr::Div(lhs, rhs) => (
            *lhs,
            *rhs,
        ),
        Expr::Eq(lhs, rhs) | Expr::Ne(lhs, rhs) | Expr::Lt(lhs, rhs) | Expr::Le(lhs, rhs) | Expr::Gt(
            lhs,
            rhs,
        ) | Expr::Ge(lhs, rhs) => (*lhs, *rhs),
        _ => (e, e),
    }
}

/// What running the code of two operands must give: where both denote
/// numbers, the store grows, keeps what it held, and holds the numbers at
/// the operands' handles; else the code has no outcome.
pub open spec fn yields_both(
    code: Seq<OpView>,
    store: Seq<Datum>,
    values: (Value, Value),
    denoted: (Option<i32>, Option<i32>),
    defined: nat,
) -> bool {
    match denoted {
        (Some(x), Some(y)) => {
            &&& run(code, store) matches Some(after)
            &&& after.len() == defined
            &&& store.len() <= after.len()
            &&& after.take(store.len() as int) == store
            &&& (values.0.0 as int) < after.len()
            &&& (values.1.0 as int) < after.len()
            &&& after[values.0.0 as int] == Datum::Int(x)
            &&& after[values.1.0 as int] == Datum::Int(y)
        },
        _ => run(code, store) is None,
    }
}

/// The code of the operands of a pure expression computes what the operands
/// denote.
proof fn lemma_operands_agree(e: Expr, s: Lowering, store: Seq<Datum>)
    requires
        is_pure(e),
        is_binary(e),
        store.len() == s.builder.values.len(),
        lower_expr(operands(e).1, lower_expr(operands(e).0, s).state).state.builder.values.len()
            <= usize::MAX,
    ensures
        ({
            let a = lower_expr(operands(e).0, s);
            let b = lower_expr(operands(e).1, a.state);
            &&& a.result is Ok
            &&& b.result is Ok
            &&& b.state.builder.code == s.builder.code + emitted(s, b.state)
            &&& yields_both(
                emitted(s, b.state),
                store,
                (a.result->Ok_0, b.result->Ok_0),
                (evaluate(operands(e).0), evaluate(operands(e).1)),
                b.state.builder.values.len(),
            )
        }),
    decreases e, 0nat,
{
    let (lhs, rhs) = operands(e);
    let a = lower_expr(lhs, s);
    let b = lower_expr(rhs, a.state);
    lemma_pure_lowering(lhs, s);
    lemma_pure_lowering(rhs, a.state);
    let first = emitted(s, a.state);
    let second = emitted(a.state, b.state);
    assert(emitted(s, b.state) =~= first + second);
    assert(b.state.builder.code =~= s.builder.code + emitted(s, b.state));
    law_lowering_agrees_with_evaluation(lhs, s, store);
    lemma_run_concat(first, second, store);
    if run(first, store) is Some {
        let mid = run(first, store)->Some_0;
        law_lowering_agrees_with_evaluation(rhs, a.state, mid);
        if run(second, mid) is Some {
            let late = run(second, mid)->Some_0;
            assert(late.take(mid.len() as int)[a.result->Ok_0.0 as int] == late[a.result->Ok_0.0 as int]);
            assert(late.take(store.len() as int) =~= store) by {
                assert forall|i: int| 0 <= i < store.len() implies late[i] == store[i] by {
                    assert(late.take(mid.len() as int)[i] == mid[i]);
                    assert(mid.take(store.len() as int)[i] == store[i]);
                }
            }
        }
    }
}

/// The code of a pure expression computes what the expression denotes.
///
/// For every expression made of literals, arithmetic and comparisons, every
/// state of a lowering, and every store that holds one value for each value
/// defined so far: the lowering succeeds, and running the steps it added
/// gives the number that direct evaluation gives, at the handle that the
/// lowering returns; where evaluation meets a division by zero, the code
/// traps.
pub proof fn law_lowering_agrees_with_evaluation(e: Expr, s: Lowering, store: Seq<Datum>)
    requires
        is_pure(e),
        store.len() == s.builder.values.len(),
        lower_expr(e, s).state.builder.values.len() <= usize::MAX,
    ensures
        lower_expr(e, s).result is Ok,
        yields(
            emitted(s, lower_expr(e, s).state),
            store,
            lower_expr(e, s).result->Ok_0,
            evaluate(e),
        ),
        run(emitted(s, lower_expr(e, s).state), store) matches Some(after) ==> after.len()
            == lower_expr(e, s).state.builder.values.len(),
    decreases e, 1nat,
{
    let after = lower_expr(e, s).state;
    let code = emitted(s, after);
    lemma_pure_lowering(e, s);
    if e is Literal {
        let imm = literal_value(e->Literal_0@)->Some_0;
        assert(code =~= seq![OpView::Iconst(imm)]);
        lemma_run_one(OpView::Iconst(imm), store);
        assert(store.push(Datum::Int(imm)).take(store.len() as int) =~= store);
    } else {
        let a = lower_expr(operands(e).0, s);
        let b = lower_expr(operands(e).1, a.state);
        lemma_pure_lowering(operands(e).0, s);
        lemma_pure_lowering(operands(e).1, a.state);
        lemma_operands_agree(e, s, store);
        let both = emitted(s, b.state);
        if is_comparison(e) {
            let compare = OpView::Compare(condition_of(e), a.result->Ok_0, b.result->Ok_0);
            let bint = OpView::Bint(b.state.builder.next_value());
            assert(code =~= both + seq![compare] + seq![bint]);
            lemma_run_concat(both + seq![compare], seq![bint], store);
            lemma_run_concat(both, seq![compare], store);
            if run(both, store) is Some {
                let late = run(both, store)->Some_0;
                lemma_run_one(compare, late);
                let compared = execute(compare, late)->Some_0;
                lemma_run_one(bint, compared);
                let done = execute(bint, compared)->Some_0;
                assert(done.take(store.len() as int) =~= store) by {
                    assert forall|i: int| 0 <= i < store.len() implies done[i] == store[i] by {
                        assert(late.take(store.len() as int)[i] == store[i]);
                    }
                }
            }
        } else {
            let op = OpView::Binary(arithmetic_of(e), a.result->Ok_0, b.result->Ok_0);
            assert(code =~= both + seq![op]);
            lemma_run_concat(both, seq![op], store);
            if run(both, store) is Some {
                let late = run(both, store)->Some_0;
                lemma_run_one(op, late);
                if execute(op, late) is Some {
                    let done = execute(op, late)->Some_0;
                    assert(done.take(store.len() as int) =~= store) by {
                        assert forall|i: int| 0 <= i < store.len() implies done[i] == store[i] by {
                            assert(late.take(store.len() as int)[i] == store[i]);
                        }
                    }
                }
            }
        }
    }
}

/// A comparison denotes 0 or 1 and nothing else.
///
/// Where a comparison of pure operands denotes a number, the number is 0 or
/// 1: it is 1 exactly where the condition holds of what the operands
/// denote.
pub proof fn law_comparison_is_zero_or_one(e: Expr)
    requires
        is_comparison(e),
    ensures
        evaluate(e) matches Some(number) ==> number == 0 || number == 1,
{
}

/// The value of a lowered comparison is produced by widening a truth value,
/// and running that step gives 0 or 1 and nothing else, whatever the
/// operands are and however they were computed.
pub proof fn law_lowered_comparison_is_zero_or_one(e: Expr, s: Lowering, store: Seq<Datum>)
    requires
        is_comparison(e),
        lower_expr(e, s).result is Ok,
    ensures
        lower_expr(e, s).state.builder.code.len() > 0,
        lower_expr(e, s).state.builder.code.last() is Bint,
        execute(lower_expr(e, s).state.builder.code.last(), store) matches Some(after) ==> after.last()
            == Datum::Int(0) || after.last() == Datum::Int(1),
{
}

/// Wrapping changes a number by a multiple of 2^32.
pub(crate) proof fn lemma_wrap_congruent(x: int)
    ensures
        (wrap(x) as int) % 0x1_0000_0000 == x % 0x1_0000_0000,
        -0x8000_0000 <= wrap(x) < 0x8000_0000,
{
    let m = x % 0x1_0000_0000;
    if m >= 0x8000_0000 {
        lemma_mod_multiples_vanish(-1, m, 0x1_0000_0000);
        assert((m - 0x1_0000_0000) % 0x1_0000_0000 == m % 0x1_0000_0000);
    }
}

/// Numbers that are congruent modulo 2^32 wrap to the same integer.
proof fn lemma_wrap_equal(x: int, y: int)
    requires
        x % 0x1_0000_0000 == y % 0x1_0000_0000,
    ensures
        wrap(x) == wrap(y),
{
}

/// Addition and multiplication do not depend on the order of their
/// operands.
pub proof fn law_add_mul_commute(a: i32, b: i32)
    ensures
        apply(BinaryOp::Iadd, a, b) == apply(BinaryOp::Iadd, b, a),
        apply(BinaryOp::Imul, a, b) == apply(BinaryOp::Imul, b, a),
{
    assert(a * b == b * a) by (nonlinear_arith);
}

/// Addition and multiplication do not depend on how their operands are
/// grouped.
pub proof fn law_add_mul_associate(a: i32, b: i32, c: i32)
    ensures
        wrap(wrap(a + b) + c) == wrap(a + wrap(b + c)),
        wrap(wrap(a * b) * c) == wrap(a * wrap(b * c)),
{
    let m = 0x1_0000_0000int;
    lemma_wrap_congruent(a + b);
    lemma_wrap_congruent(b + c);
    assert((wrap(a + b) + c) % m == (a + b + c) % m) by {
        lemma_add_mod_noop(wrap(a + b) as int, c as int, m);
        lemma_add_mod_noop(a + b, c as int, m);
    }
    assert((a + wrap(b + c)) % m == (a + b + c) % m) by {
        lemma_add_mod_noop(a as int, wrap(b + c) as int, m);
        lemma_add_mod_noop(a as int, b + c, m);
    }
    lemma_wrap_equal(wrap(a + b) + c, a + wrap(b + c));
    lemma_wrap_congruent(a * b);
    lemma_wrap_congruent(b * c);
    assert((wrap(a * b) * c) % m == ((a * b) * c) % m) by {
        lemma_mul_mod_noop_general(wrap(a * b) as int, c as int, m);
        lemma_mul_mod_noop_general(a * b, c as int, m);
    }
    assert((a * wrap(b * c)) % m == (a * (b * c)) % m) by {
        lemma_mul_mod_noop_general(a as int, wrap(b * c) as int, m);
        lemma_mul_mod_noop_general(a as int, b * c, m);
    }
    assert((a * b) * c == a * (b * c)) by (nonlinear_arith);
    lemma_wrap_equal(wrap(a * b) * c, a * wrap(b * c));
}

} // verus!
