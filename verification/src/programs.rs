//! Three small functions and what calls of them return: the function that
//! hands its argument back, a function that chooses between two numbers,
//! and a function that counts its argument down.

use vstd::prelude::*;
use crate::ast::Expr;
use crate::machine::{comes_back, entered_with};
use crate::meaning::{denotes, eval, eval_each};
use crate::preservation::computes;
use crate::ir::{OpView, SignatureView};
use crate::builder::BuilderState;
use crate::ir::{integer_signature, Block};
use crate::literal::literal_value;
use crate::lowering::{entry_params, lower_each, lower_function, open_function, Failure};
use crate::module::DeclView;
use crate::scope::{
    call_of,
    law_table_names,
    lemma_failure_points_each,
    malformed,
    occurs,
    occurs_from,
    points_at,
    read_of,
};
use crate::semantics::wrap;
use crate::variables::lookup;
use crate::straight::{bind_arguments, bound_at_entry, Env};

verus! {

/// Whether an expression is the read of `name`.
pub open spec fn is_read(e: Expr, name: Seq<char>) -> bool {
    e is Identifier && e->Identifier_0@ == name
}

/// Whether an expression is a literal that denotes `number`.
pub open spec fn is_number(e: Expr, number: i32) -> bool {
    e is Literal && literal_value(e->Literal_0@) == Some(number)
}

/// Whether an expression is `name = source`.
pub open spec fn is_copy(e: Expr, name: Seq<char>, source: Seq<char>) -> bool {
    e is Assign && e->Assign_0@ == name && is_read(*e->Assign_1, source)
}

/// Whether an expression is `name = number`.
pub open spec fn is_setting(e: Expr, name: Seq<char>, number: i32) -> bool {
    e is Assign && e->Assign_0@ == name && is_number(*e->Assign_1, number)
}

/// Whether an expression is `name = name + 1`.
pub open spec fn is_increment(e: Expr, name: Seq<char>) -> bool {
    &&& e is Assign
    &&& e->Assign_0@ == name
    &&& *e->Assign_1 is Add
    &&& is_read(*(*e->Assign_1)->Add_0, name)
    &&& is_number(*(*e->Assign_1)->Add_1, 1)
}

/// Whether an expression is `name = name - 1`.
pub open spec fn is_decrement(e: Expr, name: Seq<char>) -> bool {
    &&& e is Assign
    &&& e->Assign_0@ == name
    &&& *e->Assign_1 is Sub
    &&& is_read(*(*e->Assign_1)->Sub_0, name)
    &&& is_number(*(*e->Assign_1)->Sub_1, 1)
}

/// Whether the statements are those of `fn f(a) -> r { r = a }`.
pub open spec fn is_identity(stmts: Seq<Expr>, a: Seq<char>, r: Seq<char>) -> bool {
    a != r && stmts.len() == 1 && is_copy(stmts[0], r, a)
}

/// Whether the statements are those of
/// `fn f(a) -> r { if a { r = 1 } else { r = 2 } }`.
pub open spec fn is_choice(stmts: Seq<Expr>, a: Seq<char>, r: Seq<char>) -> bool {
    &&& a != r
    &&& stmts.len() == 1
    &&& stmts[0] is IfElse
    &&& is_read(*stmts[0]->IfElse_0, a)
    &&& stmts[0]->IfElse_1@.len() == 1
    &&& is_setting(stmts[0]->IfElse_1@[0], r, 1)
    &&& stmts[0]->IfElse_2@.len() == 1
    &&& is_setting(stmts[0]->IfElse_2@[0], r, 2)
}

/// Whether an expression is `while a { r = r + 1; a = a - 1 }`.
pub open spec fn is_countdown_loop(e: Expr, a: Seq<char>, r: Seq<char>) -> bool {
    &&& a != r
    &&& e is WhileLoop
    &&& is_read(*e->WhileLoop_0, a)
    &&& e->WhileLoop_1@.len() == 2
    &&& is_increment(e->WhileLoop_1@[0], r)
    &&& is_decrement(e->WhileLoop_1@[1], a)
}

/// Whether the statements are those of
/// `fn f(a) -> r { r = 0; while a { r = r + 1; a = a - 1 } }`.
pub open spec fn is_countdown(stmts: Seq<Expr>, a: Seq<char>, r: Seq<char>) -> bool {
    &&& stmts.len() == 2
    &&& is_setting(stmts[0], r, 0)
    &&& is_countdown_loop(stmts[1], a, r)
}

/// A number that fits in 32 bits wraps to itself.
pub(crate) proof fn lemma_wrap_fits(x: int)
    requires
        i32::MIN <= x <= i32::MAX,
    ensures
        wrap(x) == x,
{
}

/// What the variables hold when a function with one parameter is called.
proof fn lemma_one_argument(a: Seq<char>, r: Seq<char>, x: i32)
    ensures
        bound_at_entry(seq![a], r, seq![x]) == Map::<Seq<char>, i32>::empty().insert(a, x).insert(
            r,
            0,
        ),
{
    reveal_with_fuel(bind_arguments, 2);
}

/// A call of `fn f(a) -> r { r = a }` denotes its argument.
pub proof fn law_identity_denotes(stmts: Seq<Expr>, a: Seq<char>, r: Seq<char>, x: i32)
    requires
        is_identity(stmts, a, r),
    ensures
        denotes(seq![a], r, stmts, seq![x], 0) == Some(x),
{
    let env = bound_at_entry(seq![a], r, seq![x]);
    lemma_one_argument(a, r, x);
    assert(eval(*stmts[0]->Assign_1, env, 0) == Some((x, env)));
    assert(eval(stmts[0], env, 0) == Some((x, env.insert(r, x))));
    assert(eval_each(stmts, 0, env, 0, 0) == Some((x, env.insert(r, x)))) by {
        reveal_with_fuel(eval_each, 2);
    }
}

/// A call of `fn f(a) -> r { if a { r = 1 } else { r = 2 } }` denotes 1
/// where its argument is not zero and 2 where it is.
pub proof fn law_choice_denotes(stmts: Seq<Expr>, a: Seq<char>, r: Seq<char>, x: i32)
    requires
        is_choice(stmts, a, r),
    ensures
        denotes(seq![a], r, stmts, seq![x], 0) == Some(
            if x != 0 {
                1i32
            } else {
                2i32
            },
        ),
{
    let env = bound_at_entry(seq![a], r, seq![x]);
    let chosen: i32 = if x != 0 {
        1
    } else {
        2
    };
    let body = if x != 0 {
        stmts[0]->IfElse_1@
    } else {
        stmts[0]->IfElse_2@
    };
    lemma_one_argument(a, r, x);
    assert(eval(*stmts[0]->IfElse_0, env, 0) == Some((x, env)));
    assert(eval(*body[0]->Assign_1, env, 0) == Some((chosen, env)));
    assert(eval(body[0], env, 0) == Some((chosen, env.insert(r, chosen))));
    assert(eval_each(body, 0, env, 0, 0) == Some((chosen, env.insert(r, chosen)))) by {
        reveal_with_fuel(eval_each, 2);
    }
    assert(eval(stmts[0], env, 0) == Some((chosen, env.insert(r, chosen))));
    assert(eval_each(stmts, 0, env, 0, 0) == Some((chosen, env.insert(r, chosen)))) by {
        reveal_with_fuel(eval_each, 2);
    }
}

/// The loop `while a { r = r + 1; a = a - 1 }`, begun with `a` holding a
/// number that is not negative, ends with `a` holding zero and `r` holding
/// the sum of what the two held, where that sum fits in 32 bits.
pub(crate) proof fn lemma_countdown_loop(e: Expr, a: Seq<char>, r: Seq<char>, env: Env, k: int, m: int)
    requires
        is_countdown_loop(e, a, r),
        env.dom().contains(a),
        env.dom().contains(r),
        env[a] == k,
        env[r] == m,
        0 <= k,
        i32::MIN <= m,
        m + k <= i32::MAX,
    ensures
        eval(e, env, (k + 1) as nat) is Some,
        eval(e, env, (k + 1) as nat)->Some_0.1.dom().contains(r),
        eval(e, env, (k + 1) as nat)->Some_0.1[r] == m + k,
    decreases k,
{
    let fuel = (k + 1) as nat;
    let body = e->WhileLoop_1@;
    assert(eval(*e->WhileLoop_0, env, fuel) == Some((k as i32, env)));
    if k > 0 {
        let more = (m + 1) as i32;
        let less = (k - 1) as i32;
        let env1 = env.insert(r, more);
        let env2 = env1.insert(a, less);
        lemma_wrap_fits(m + 1);
        lemma_wrap_fits(k - 1);
        let sum = *body[0]->Assign_1;
        assert(eval(*sum->Add_0, env, fuel) == Some((m as i32, env)));
        assert(eval(*sum->Add_1, env, fuel) == Some((1i32, env)));
        assert(eval(sum, env, fuel) == Some((more, env)));
        assert(eval(body[0], env, fuel) == Some((more, env1)));
        let difference = *body[1]->Assign_1;
        assert(eval(*difference->Sub_0, env1, fuel) == Some((k as i32, env1)));
        assert(eval(*difference->Sub_1, env1, fuel) == Some((1i32, env1)));
        assert(eval(difference, env1, fuel) == Some((less, env1)));
        assert(eval(body[1], env1, fuel) == Some((less, env2)));
        assert(eval_each(body, 0, env, fuel, 0) == Some((less, env2))) by {
            reveal_with_fuel(eval_each, 3);
        }
        lemma_countdown_loop(e, a, r, env2, k - 1, m + 1);
        assert(eval(e, env, fuel) == eval(e, env2, k as nat));
    }
}

/// A call of `fn f(a) -> r { r = 0; while a { r = r + 1; a = a - 1 } }`
/// with an argument that is not negative denotes the argument, on fuel for
/// one round more than the argument counts.
pub proof fn law_countdown_denotes(stmts: Seq<Expr>, a: Seq<char>, r: Seq<char>, n: i32)
    requires
        is_countdown(stmts, a, r),
        0 <= n,
    ensures
        denotes(seq![a], r, stmts, seq![n], (n + 1) as nat) == Some(n),
{
    let fuel = (n + 1) as nat;
    let env = bound_at_entry(seq![a], r, seq![n]);
    let env1 = env.insert(r, 0);
    lemma_one_argument(a, r, n);
    assert(eval(*stmts[0]->Assign_1, env, fuel) == Some((0i32, env)));
    assert(eval(stmts[0], env, fuel) == Some((0i32, env1)));
    lemma_countdown_loop(stmts[1], a, r, env1, n as int, 0);
    let looped = eval(stmts[1], env1, fuel)->Some_0;
    assert(eval_each(stmts, 0, env, fuel, 0) == Some(looped)) by {
        reveal_with_fuel(eval_each, 3);
    }
}

/// A function with one parameter whose statements hold no literal that
/// denotes nothing, no call, and no read of a name but that of its
/// parameter and that of its result.
pub open spec fn is_closed(stmts: Seq<Expr>, a: Seq<char>, r: Seq<char>) -> bool {
    &&& forall|text: Seq<char>| !occurs_from(stmts, 0, malformed(text))
    &&& forall|name: Seq<char>| !occurs_from(stmts, 0, call_of(name))
    &&& forall|name: Seq<char>| occurs_from(stmts, 0, read_of(name)) ==> name == a || name == r
}

/// The lowering of a function with one parameter succeeds where its
/// statements hold no literal that denotes nothing, no call, and no read of
/// a name but that of its parameter and that of its result.
pub(crate) proof fn lemma_closed_lowers(
    module: Seq<DeclView>,
    stmts: Seq<Expr>,
    a: Seq<char>,
    r: Seq<char>,
)
    requires
        is_closed(stmts, a, r),
    ensures
        lower_function(module, seq![a], r, stmts).result is Ok,
{
    let params = seq![a];
    let opened = open_function(module, params, r, stmts);
    let body = lower_each(stmts, 0, opened, Seq::empty());
    let entered = entry_params(
        BuilderState::new(integer_signature(1)).step(OpView::CreateBlock),
        Block(0),
        1,
    ).step(OpView::SwitchToBlock(Block(0)));
    law_table_names(entered, params, r, stmts, Block(0));
    assert(lookup(opened.variables, params[0]) is Some);
    lemma_failure_points_each(stmts, 0, opened, Seq::empty());
    if body.result is Err {
        let failure = body.result->Err_0;
        assert(points_at(failure, stmts, 0, opened.variables));
        match failure {
            Failure::MalformedLiteral(text) => {
                assert(occurs_from(stmts, 0, malformed(text)));
            },
            Failure::UndeclaredIdentifier(name) => {
                assert(occurs_from(stmts, 0, read_of(name)));
            },
            Failure::IncompatibleDeclaration(name) => {
                assert(occurs_from(stmts, 0, call_of(name)));
            },
        }
    }
}

/// What is found in a list of one expression is found in the expression.
proof fn lemma_found_in_one(exprs: Seq<Expr>, p: spec_fn(Expr) -> bool)
    requires
        exprs.len() == 1,
    ensures
        occurs_from(exprs, 0, p) == occurs(exprs[0], p),
{
    reveal_with_fuel(occurs_from, 2);
}

/// What is found in a list of two expressions is found in one of them.
proof fn lemma_found_in_two(exprs: Seq<Expr>, p: spec_fn(Expr) -> bool)
    requires
        exprs.len() == 2,
    ensures
        occurs_from(exprs, 0, p) == (occurs(exprs[0], p) || occurs(exprs[1], p)),
{
    reveal_with_fuel(occurs_from, 3);
}

/// What is found in the assignment of a literal or of a read is the
/// assignment itself or what is assigned.
proof fn lemma_found_in_setting(e: Expr, p: spec_fn(Expr) -> bool)
    requires
        e is Assign,
        *e->Assign_1 is Literal || *e->Assign_1 is Identifier,
    ensures
        occurs(e, p) == (p(e) || p(*e->Assign_1)),
{
    reveal_with_fuel(occurs, 2);
}

/// What is found in the assignment of a sum or a difference of a read and
/// a literal is the assignment, the sum or difference, the read or the
/// literal.
proof fn lemma_found_in_stepping(e: Expr, p: spec_fn(Expr) -> bool)
    requires
        is_increment(e, e->Assign_0@) || is_decrement(e, e->Assign_0@),
    ensures
        occurs(e, p) == (p(e) || p(*e->Assign_1) || p(operand(e, true)) || p(operand(e, false))),
{
    reveal_with_fuel(occurs, 3);
}

/// An operand of the sum or difference that an assignment assigns.
pub open spec fn operand(e: Expr, left: bool) -> Expr {
    match *e->Assign_1 {
        Expr::Add(lhs, rhs) => if left {
            *lhs
        } else {
            *rhs
        },
        Expr::Sub(lhs, rhs) => if left {
            *lhs
        } else {
            *rhs
        },
        _ => e,
    }
}

/// The lowering of `fn f(a) -> r { r = a }` succeeds.
pub proof fn law_identity_lowers(
    module: Seq<DeclView>,
    stmts: Seq<Expr>,
    a: Seq<char>,
    r: Seq<char>,
)
    requires
        is_identity(stmts, a, r),
    ensures
        lower_function(module, seq![a], r, stmts).result is Ok,
{
    assert forall|p: spec_fn(Expr) -> bool| #[trigger] occurs_from(stmts, 0, p) implies p(stmts[0])
        || p(*stmts[0]->Assign_1) by {
        lemma_found_in_one(stmts, p);
        lemma_found_in_setting(stmts[0], p);
    }
    assert(is_closed(stmts, a, r)) by {
        assert forall|text: Seq<char>| !occurs_from(stmts, 0, malformed(text)) by {}
        assert forall|name: Seq<char>| !occurs_from(stmts, 0, call_of(name)) by {}
        assert forall|name: Seq<char>| occurs_from(stmts, 0, read_of(name)) implies name == a
            || name == r by {}
    }
    lemma_closed_lowers(module, stmts, a, r);
}

/// The lowering of `fn f(a) -> r { if a { r = 1 } else { r = 2 } }`
/// succeeds.
pub proof fn law_choice_lowers(module: Seq<DeclView>, stmts: Seq<Expr>, a: Seq<char>, r: Seq<char>)
    requires
        is_choice(stmts, a, r),
    ensures
        lower_function(module, seq![a], r, stmts).result is Ok,
{
    let then_body = stmts[0]->IfElse_1@;
    let else_body = stmts[0]->IfElse_2@;
    assert forall|p: spec_fn(Expr) -> bool| #[trigger] occurs_from(stmts, 0, p) implies p(stmts[0])
        || p(*stmts[0]->IfElse_0) || p(then_body[0]) || p(*then_body[0]->Assign_1) || p(
        else_body[0],
    ) || p(*else_body[0]->Assign_1) by {
        lemma_found_in_one(stmts, p);
        lemma_found_in_one(then_body, p);
        lemma_found_in_one(else_body, p);
        lemma_found_in_setting(then_body[0], p);
        lemma_found_in_setting(else_body[0], p);
        assert(occurs(stmts[0], p) == (p(stmts[0]) || occurs(*stmts[0]->IfElse_0, p)
            || occurs_from(then_body, 0, p) || occurs_from(else_body, 0, p)));
        assert(occurs(*stmts[0]->IfElse_0, p) == p(*stmts[0]->IfElse_0));
    }
    assert(is_closed(stmts, a, r)) by {
        assert forall|text: Seq<char>| !occurs_from(stmts, 0, malformed(text)) by {}
        assert forall|name: Seq<char>| !occurs_from(stmts, 0, call_of(name)) by {}
        assert forall|name: Seq<char>| occurs_from(stmts, 0, read_of(name)) implies name == a
            || name == r by {}
    }
    lemma_closed_lowers(module, stmts, a, r);
}

/// The lowering of
/// `fn f(a) -> r { r = 0; while a { r = r + 1; a = a - 1 } }` succeeds.
pub proof fn law_countdown_lowers(
    module: Seq<DeclView>,
    stmts: Seq<Expr>,
    a: Seq<char>,
    r: Seq<char>,
)
    requires
        is_countdown(stmts, a, r),
    ensures
        lower_function(module, seq![a], r, stmts).result is Ok,
{
    let body = stmts[1]->WhileLoop_1@;
    assert forall|p: spec_fn(Expr) -> bool| #[trigger] occurs_from(stmts, 0, p) implies p(stmts[0])
        || p(*stmts[0]->Assign_1) || p(stmts[1]) || p(*stmts[1]->WhileLoop_0) || p(body[0]) || p(
        *body[0]->Assign_1,
    ) || p(operand(body[0], true)) || p(operand(body[0], false)) || p(body[1]) || p(
        *body[1]->Assign_1,
    ) || p(operand(body[1], true)) || p(operand(body[1], false)) by {
        lemma_found_in_two(stmts, p);
        lemma_found_in_two(body, p);
        lemma_found_in_setting(stmts[0], p);
        lemma_found_in_stepping(body[0], p);
        lemma_found_in_stepping(body[1], p);
        assert(occurs(stmts[1], p) == (p(stmts[1]) || occurs(*stmts[1]->WhileLoop_0, p)
            || occurs_from(body, 0, p)));
        assert(occurs(*stmts[1]->WhileLoop_0, p) == p(*stmts[1]->WhileLoop_0));
    }
    assert(is_closed(stmts, a, r)) by {
        assert forall|text: Seq<char>| !occurs_from(stmts, 0, malformed(text)) by {}
        assert forall|name: Seq<char>| !occurs_from(stmts, 0, call_of(name)) by {}
        assert forall|name: Seq<char>| occurs_from(stmts, 0, read_of(name)) implies name == a
            || name == r by {}
    }
    lemma_closed_lowers(module, stmts, a, r);
}

/// The listing of `fn f(a) -> r { r = a }` returns its argument.
///
/// For every listing that computes what this function denotes, as the
/// listing that the lowering gives does, and for every argument: a run of
/// the listing with the argument returns the argument.
pub proof fn law_identity_returns_its_argument(
    signature: SignatureView,
    code: Seq<OpView>,
    stmts: Seq<Expr>,
    a: Seq<char>,
    r: Seq<char>,
    x: i32,
)
    requires
        is_identity(stmts, a, r),
        computes(signature, code, seq![a], r, stmts),
    ensures
        comes_back(signature, code, entered_with(seq![x]), x),
{
    law_identity_denotes(stmts, a, r, x);
    assert(denotes(seq![a], r, stmts, seq![x], 0) is Some);
}

/// The listing of `fn f(a) -> r { if a { r = 1 } else { r = 2 } }` returns
/// 1 for every argument that is not zero, and 2 for zero.
///
/// For every listing that computes what this function denotes, as the
/// listing that the lowering gives does, and for every argument: a run of
/// the listing with the argument returns 1 where the argument is not zero,
/// and 2 where it is.
pub proof fn law_choice_returns_one_or_two(
    signature: SignatureView,
    code: Seq<OpView>,
    stmts: Seq<Expr>,
    a: Seq<char>,
    r: Seq<char>,
    x: i32,
)
    requires
        is_choice(stmts, a, r),
        computes(signature, code, seq![a], r, stmts),
    ensures
        comes_back(
            signature,
            code,
            entered_with(seq![x]),
            if x != 0 {
                1i32
            } else {
                2i32
            },
        ),
{
    law_choice_denotes(stmts, a, r, x);
    assert(denotes(seq![a], r, stmts, seq![x], 0) is Some);
}

/// The listing of
/// `fn f(a) -> r { r = 0; while a { r = r + 1; a = a - 1 } }` returns its
/// argument, for every argument that is not negative.
///
/// For every listing that computes what this function denotes, as the
/// listing that the lowering gives does, and for every argument that is
/// not negative: a run of the listing with the argument returns the
/// argument; with the argument zero, it returns zero.
pub proof fn law_countdown_returns_its_argument(
    signature: SignatureView,
    code: Seq<OpView>,
    stmts: Seq<Expr>,
    a: Seq<char>,
    r: Seq<char>,
    n: i32,
)
    requires
        is_countdown(stmts, a, r),
        computes(signature, code, seq![a], r, stmts),
        0 <= n,
    ensures
        comes_back(signature, code, entered_with(seq![n]), n),
{
    law_countdown_denotes(stmts, a, r, n);
    assert(denotes(seq![a], r, stmts, seq![n], (n + 1) as nat) is Some);
}

} // verus!
