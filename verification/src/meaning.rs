//! What the functions of the language denote.

use vstd::prelude::*;
use crate::ast::Expr;
use crate::literal::literal_value;
use crate::lowering::{arithmetic_of, condition_of};
use crate::semantics::{apply, holds, widen};
use crate::straight::{bound_at_entry, Env};

verus! {

/// What an expression denotes where the variables hold `env`: its number
/// and what the variables hold afterwards. A conditional runs its then-body
/// where its condition is not zero and its else-body where it is, and
/// denotes what the last statement of that body denotes, or zero where the
/// body is empty. A loop runs its body as long as its condition is not
/// zero, and denotes zero. `fuel` bounds how often loops may go round: an
/// expression denotes nothing where the fuel does not suffice, where a
/// division by zero is met, where a variable is read that holds no number,
/// and where a function is called.
pub open spec fn eval(e: Expr, env: Env, fuel: nat) -> Option<(i32, Env)>
    decreases fuel, e, 1nat,
{
    match e {
        Expr::Literal(text) => match literal_value(text@) {
            Some(number) => Some((number, env)),
            None => None,
        },
        Expr::Identifier(name) => if env.dom().contains(name@) {
            Some((env[name@], env))
        } else {
            None
        },
        Expr::Assign(name, rhs) => match eval(*rhs, env, fuel) {
            Some((number, after)) => Some((number, after.insert(name@, number))),
            None => None,
        },
        Expr::Add(lhs, rhs) | Expr::Sub(lhs, rhs) | Expr::Mul(lhs, rhs) | Expr::Div(lhs, rhs) => {
            match eval(*lhs, env, fuel) {
                Some((a, mid)) => match eval(*rhs, mid, fuel) {
                    Some((b, after)) => match apply(arithmetic_of(e), a, b) {
                        Some(number) => Some((number, after)),
                        None => None,
                    },
                    None => None,
                },
                None => None,
            }
        },
        Expr::Eq(lhs, rhs) | Expr::Ne(lhs, rhs) | Expr::Lt(lhs, rhs) | Expr::Le(lhs, rhs) | Expr::Gt(
            lhs,
            rhs,
        ) | Expr::Ge(lhs, rhs) => {
            match eval(*lhs, env, fuel) {
                Some((a, mid)) => match eval(*rhs, mid, fuel) {
                    Some((b, after)) => Some((widen(holds(condition_of(e), a, b)), after)),
                    None => None,
                },
                None => None,
            }
        },
        Expr::IfElse(condition, then_body, else_body) => match eval(*condition, env, fuel) {
            Some((test, after)) => if test != 0 {
                eval_each(then_body@, 0, after, fuel, 0)
            } else {
                eval_each(else_body@, 0, after, fuel, 0)
            },
            None => None,
        },
        Expr::WhileLoop(condition, body) => if fuel == 0 {
            None
        } else {
            match eval(*condition, env, fuel) {
                Some((test, after)) => if test == 0 {
                    Some((0, after))
                } else {
                    match eval_each(body@, 0, after, fuel, 0) {
                        Some((_, looped)) => eval(e, looped, (fuel - 1) as nat),
                        None => None,
                    }
                },
                None => None,
            }
        },
        Expr::Call(_, _) => None,
    }
}

/// What the statements from position `i` on denote, in order: the number
/// of the last of them, or `last` where there is none, and what the
/// variables hold afterwards.
pub open spec fn eval_each(stmts: Seq<Expr>, i: int, env: Env, fuel: nat, last: i32) -> Option<
    (i32, Env),
>
    decreases fuel, stmts, stmts.len() - i,
{
    if 0 <= i < stmts.len() {
        match eval(stmts[i], env, fuel) {
            Some((number, after)) => eval_each(stmts, i + 1, after, fuel, number),
            None => None,
        }
    } else {
        Some((last, env))
    }
}

/// What the variables hold is only added to when an expression is
/// evaluated.
proof fn lemma_eval_keeps(e: Expr, env: Env, fuel: nat, name: Seq<char>)
    requires
        eval(e, env, fuel) is Some,
        env.dom().contains(name),
    ensures
        eval(e, env, fuel)->Some_0.1.dom().contains(name),
    decreases fuel, e, 1nat,
{
    match e {
        Expr::Assign(_, rhs) => {
            lemma_eval_keeps(*rhs, env, fuel, name);
        },
        Expr::Add(lhs, rhs) | Expr::Sub(lhs, rhs) | Expr::Mul(lhs, rhs) | Expr::Div(lhs, rhs) => {
            lemma_eval_keeps(*lhs, env, fuel, name);
            lemma_eval_keeps(*rhs, eval(*lhs, env, fuel)->Some_0.1, fuel, name);
        },
        Expr::Eq(lhs, rhs) | Expr::Ne(lhs, rhs) | Expr::Lt(lhs, rhs) | Expr::Le(lhs, rhs) | Expr::Gt(
            lhs,
            rhs,
        ) | Expr::Ge(lhs, rhs) => {
            lemma_eval_keeps(*lhs, env, fuel, name);
            lemma_eval_keeps(*rhs, eval(*lhs, env, fuel)->Some_0.1, fuel, name);
        },
        Expr::IfElse(condition, then_body, else_body) => {
            lemma_eval_keeps(*condition, env, fuel, name);
            let test = eval(*condition, env, fuel)->Some_0;
            if test.0 != 0 {
                lemma_eval_keeps_each(then_body@, 0, test.1, fuel, 0, name);
            } else {
                lemma_eval_keeps_each(else_body@, 0, test.1, fuel, 0, name);
            }
        },
        Expr::WhileLoop(condition, body) => {
            lemma_eval_keeps(*condition, env, fuel, name);
            let test = eval(*condition, env, fuel)->Some_0;
            if test.0 != 0 {
                lemma_eval_keeps_each(body@, 0, test.1, fuel, 0, name);
                let looped = eval_each(body@, 0, test.1, fuel, 0)->Some_0;
                lemma_eval_keeps(e, looped.1, (fuel - 1) as nat, name);
            }
        },
        _ => {},
    }
}

/// What the variables hold is only added to when statements are
/// evaluated.
pub(crate) proof fn lemma_eval_keeps_each(
    stmts: Seq<Expr>,
    i: int,
    env: Env,
    fuel: nat,
    last: i32,
    name: Seq<char>,
)
    requires
        eval_each(stmts, i, env, fuel, last) is Some,
        env.dom().contains(name),
    ensures
        eval_each(stmts, i, env, fuel, last)->Some_0.1.dom().contains(name),
    decreases fuel, stmts, stmts.len() - i,
{
    if 0 <= i < stmts.len() {
        lemma_eval_keeps(stmts[i], env, fuel, name);
        let x = eval(stmts[i], env, fuel)->Some_0;
        lemma_eval_keeps_each(stmts, i + 1, x.1, fuel, x.0, name);
    }
}

/// What a call of a function denotes: the parameters get the arguments,
/// the result's variable gets zero, the statements are evaluated in order,
/// and the result is what the result's variable holds then. `fuel` bounds
/// how often loops may go round.
pub open spec fn denotes(
    params: Seq<Seq<char>>,
    the_return: Seq<char>,
    stmts: Seq<Expr>,
    args: Seq<i32>,
    fuel: nat,
) -> Option<i32> {
    match eval_each(stmts, 0, bound_at_entry(params, the_return, args), fuel, 0) {
        Some((_, env)) => Some(env[the_return]),
        None => None,
    }
}

} // verus!
