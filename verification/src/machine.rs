//! How a listing runs when jumps and branches are followed.
//!
//! A run goes through the listing step by step. Steps that only shape the
//! block graph do nothing; a jump or a taken branch goes on at the first
//! instruction of its target and hands its arguments to the target's
//! parameters; a return ends the run.

use vstd::prelude::*;
use crate::builder::{replay, well_formed};
use crate::ir::{Block, OpView, SignatureView, Value, Variable};
use crate::sealing::lemma_prefix_well_formed;
use crate::semantics::{apply, holds, widen, Datum};

verus! {

/// A function while it runs.
pub struct State {
    /// The position in the listing of the step to take next.
    pub pc: int,
    /// What the values hold that have been computed.
    pub values: Map<Value, Datum>,
    /// What the variables hold.
    pub cells: Map<Variable, Datum>,
}

/// Where a run stands.
pub enum Outcome {
    /// The function goes on from this state.
    Running(State),
    /// The function has returned this number.
    Returned(i32),
    /// The function trapped, read what was never written, or met a step
    /// that the language has no meaning for.
    Stuck,
}

/// The handle of the value that step `k` of a listing defines.
pub open spec fn handle_at(signature: SignatureView, code: Seq<OpView>, k: int) -> Value {
    replay(signature, code.take(k)).next_value()
}

/// Whether position `j` of a listing is where block `b` is entered.
pub open spec fn enters(code: Seq<OpView>, b: Block, j: int) -> bool {
    0 <= j < code.len() && code[j] == OpView::SwitchToBlock(b)
}

/// The position at which a block's instructions begin: one past the step
/// that made it the current block.
pub open spec fn start_of(code: Seq<OpView>, b: Block) -> int {
    (choose|j: int| enters(code, b, j)) + 1
}

/// The parameters that a block had when step `k` was taken.
pub open spec fn params_at(
    signature: SignatureView,
    code: Seq<OpView>,
    k: int,
    b: Block,
) -> Seq<Value> {
    replay(signature, code.take(k)).block(b).params
}

/// Whether a value counts as zero: the number zero, or falsehood.
pub open spec fn is_zero(datum: Datum) -> bool {
    match datum {
        Datum::Int(number) => number == 0,
        Datum::Bool(truth) => !truth,
    }
}

/// The values after the arguments of a jump were handed to the parameters
/// of its target, from position `i` on.
pub open spec fn hand_over(
    before: Map<Value, Datum>,
    values: Map<Value, Datum>,
    params: Seq<Value>,
    args: Seq<Value>,
    i: int,
) -> Map<Value, Datum>
    decreases params.len() - i,
{
    if 0 <= i < params.len() {
        hand_over(before, values.insert(params[i], before[args[i]]), params, args, i + 1)
    } else {
        values
    }
}

/// Following a jump or a taken branch at the current position: the target
/// must have been entered somewhere in the listing, and the arguments must
/// be as many as its parameters and hold values.
pub open spec fn follow(
    signature: SignatureView,
    code: Seq<OpView>,
    st: State,
    b: Block,
    args: Seq<Value>,
) -> Outcome {
    let params = params_at(signature, code, st.pc, b);
    if (exists|j: int| enters(code, b, j)) && args.len() == params.len() && (forall|i: int|
        0 <= i < args.len() ==> st.values.dom().contains(#[trigger] args[i])) {
        Outcome::Running(
            State {
                pc: start_of(code, b),
                values: hand_over(st.values, st.values, params, args, 0),
                ..st
            },
        )
    } else {
        Outcome::Stuck
    }
}

/// The state after a step that defines a value.
pub open spec fn define(
    signature: SignatureView,
    code: Seq<OpView>,
    st: State,
    datum: Datum,
) -> Outcome {
    Outcome::Running(
        State {
            pc: st.pc + 1,
            values: st.values.insert(handle_at(signature, code, st.pc), datum),
            ..st
        },
    )
}

/// The number that a value holds, if it holds one.
pub open spec fn number_of(st: State, v: Value) -> Option<i32> {
    if st.values.dom().contains(v) && st.values[v] is Int {
        Some(st.values[v]->Int_0)
    } else {
        None
    }
}

/// One step of a run. Steps that only shape the block graph do nothing;
/// the parameters of a block get their values when the block is jumped to.
pub open spec fn step(signature: SignatureView, code: Seq<OpView>, st: State) -> Outcome {
    if !(0 <= st.pc < code.len()) {
        Outcome::Stuck
    } else {
        match code[st.pc] {
            OpView::CreateBlock => Outcome::Running(State { pc: st.pc + 1, ..st }),
            OpView::AppendBlockParam(_, _) => Outcome::Running(State { pc: st.pc + 1, ..st }),
            OpView::SwitchToBlock(_) => Outcome::Running(State { pc: st.pc + 1, ..st }),
            OpView::SealBlock(_) => Outcome::Running(State { pc: st.pc + 1, ..st }),
            OpView::DeclareVar(_, _) => Outcome::Running(State { pc: st.pc + 1, ..st }),
            OpView::ImportFunction(_, _) => Outcome::Running(State { pc: st.pc + 1, ..st }),
            OpView::DefVar(var, v) => if st.values.dom().contains(v) {
                Outcome::Running(
                    State { pc: st.pc + 1, cells: st.cells.insert(var, st.values[v]), ..st },
                )
            } else {
                Outcome::Stuck
            },
            OpView::UseVar(var) => if st.cells.dom().contains(var) {
                define(signature, code, st, st.cells[var])
            } else {
                Outcome::Stuck
            },
            OpView::Iconst(imm) => define(signature, code, st, Datum::Int(imm)),
            OpView::Binary(op, a, b) => match (number_of(st, a), number_of(st, b)) {
                (Some(x), Some(y)) => match apply(op, x, y) {
                    Some(z) => define(signature, code, st, Datum::Int(z)),
                    None => Outcome::Stuck,
                },
                _ => Outcome::Stuck,
            },
            OpView::Compare(cc, a, b) => match (number_of(st, a), number_of(st, b)) {
                (Some(x), Some(y)) => define(signature, code, st, Datum::Bool(holds(cc, x, y))),
                _ => Outcome::Stuck,
            },
            OpView::Bint(v) => if st.values.dom().contains(v) && st.values[v] is Bool {
                define(signature, code, st, Datum::Int(widen(st.values[v]->Bool_0)))
            } else {
                Outcome::Stuck
            },
            OpView::Brz(c, b, args) => if st.values.dom().contains(c) {
                if is_zero(st.values[c]) {
                    follow(signature, code, st, b, args)
                } else {
                    Outcome::Running(State { pc: st.pc + 1, ..st })
                }
            } else {
                Outcome::Stuck
            },
            OpView::Jump(b, args) => follow(signature, code, st, b, args),
            OpView::Call(_, _) => Outcome::Stuck,
            OpView::Return(vals) => if vals.len() == 1 && number_of(st, vals[0]) is Some {
                Outcome::Returned(number_of(st, vals[0])->Some_0)
            } else {
                Outcome::Stuck
            },
        }
    }
}

/// Where a run stands after `n` steps.
pub open spec fn advance(
    signature: SignatureView,
    code: Seq<OpView>,
    st: State,
    n: nat,
) -> Outcome
    decreases n,
{
    if n == 0 {
        Outcome::Running(st)
    } else {
        match advance(signature, code, st, (n - 1) as nat) {
            Outcome::Running(before) => step(signature, code, before),
            other => other,
        }
    }
}

/// Some number of steps leads from one state to another.
#[verifier::opaque]
pub open spec fn leads(signature: SignatureView, code: Seq<OpView>, from: State, to: State) -> bool {
    exists|n: nat| advance(signature, code, from, n) == Outcome::Running(to)
}

/// A state leads to itself.
pub(crate) proof fn lemma_leads_here(signature: SignatureView, code: Seq<OpView>, st: State)
    ensures
        leads(signature, code, st, st),
{
    reveal(leads);
    assert(advance(signature, code, st, 0) == Outcome::Running(st));
}

/// One step leads to the state it gives.
pub(crate) proof fn lemma_leads_step(signature: SignatureView, code: Seq<OpView>, from: State, to: State)
    requires
        step(signature, code, from) == Outcome::Running(to),
    ensures
        leads(signature, code, from, to),
{
    reveal(leads);
    reveal_with_fuel(advance, 2);
    assert(advance(signature, code, from, 1) == Outcome::Running(to));
}

/// Steps after steps are steps.
pub(crate) proof fn lemma_advance_more(
    signature: SignatureView,
    code: Seq<OpView>,
    from: State,
    mid: State,
    n: nat,
    m: nat,
)
    requires
        advance(signature, code, from, n) == Outcome::Running(mid),
    ensures
        advance(signature, code, from, n + m) == advance(signature, code, mid, m),
    decreases m,
{
    if m > 0 {
        lemma_advance_more(signature, code, from, mid, n, (m - 1) as nat);
        assert(((n + m) - 1) as nat == n + (m - 1) as nat);
    }
}

/// Where one state leads to a second and the second to a third, the first
/// leads to the third.
pub(crate) proof fn lemma_leads_on(
    signature: SignatureView,
    code: Seq<OpView>,
    from: State,
    mid: State,
    to: State,
)
    requires
        leads(signature, code, from, mid),
        leads(signature, code, mid, to),
    ensures
        leads(signature, code, from, to),
{
    reveal(leads);
    let n = choose|n: nat| advance(signature, code, from, n) == Outcome::Running(mid);
    let m = choose|m: nat| advance(signature, code, mid, m) == Outcome::Running(to);
    lemma_advance_more(signature, code, from, mid, n, m);
}

/// A block that was made the current one is the current one or has its
/// terminator.
proof fn lemma_entered_once(signature: SignatureView, code: Seq<OpView>, b: Block, i: int)
    requires
        well_formed(signature, code),
        enters(code, b, i),
    ensures
        replay(signature, code).has_block(b),
        replay(signature, code).current == Some(b) || replay(signature, code).block(b).filled,
    decreases code.len(),
{
    if i < code.len() - 1 {
        lemma_entered_once(signature, code.drop_last(), b, i);
    }
}

/// A block is made the current one at no more than one position of a
/// well-formed listing.
pub(crate) proof fn lemma_enters_once(signature: SignatureView, code: Seq<OpView>, b: Block, i: int, j: int)
    requires
        well_formed(signature, code),
        enters(code, b, i),
        enters(code, b, j),
    ensures
        i == j,
{
    if i != j {
        let (lo, hi) = if i < j {
            (i, j)
        } else {
            (j, i)
        };
        let before = code.take(hi);
        lemma_prefix_well_formed(signature, code, hi);
        lemma_prefix_well_formed(signature, code, hi + 1);
        assert(code.take(hi + 1).drop_last() =~= before);
        assert(code.take(hi + 1).last() == code[hi]);
        assert(replay(signature, before).legal(code[hi]));
        assert(before[lo] == code[lo]);
        lemma_entered_once(signature, before, b, lo);
    }
}

/// In a well-formed listing the instructions of a block begin one past the
/// position at which the block is entered.
pub(crate) proof fn lemma_start_of(signature: SignatureView, code: Seq<OpView>, b: Block, j: int)
    requires
        well_formed(signature, code),
        enters(code, b, j),
    ensures
        start_of(code, b) == j + 1,
{
    let k = choose|k: int| enters(code, b, k);
    lemma_enters_once(signature, code, b, j, k);
}

/// The parameters of a block are only added to.
pub(crate) proof fn lemma_params_grow(signature: SignatureView, code: Seq<OpView>, k: int, b: Block)
    requires
        well_formed(signature, code),
        0 <= k <= code.len(),
        replay(signature, code.take(k)).has_block(b),
    ensures
        replay(signature, code).has_block(b),
        params_at(signature, code, k, b).len() <= replay(signature, code).block(b).params.len(),
        forall|i: int|
            0 <= i < params_at(signature, code, k, b).len() ==> replay(signature, code).block(
                b,
            ).params[i] == params_at(signature, code, k, b)[i],
    decreases code.len(),
{
    if k == code.len() {
        assert(code.take(k) =~= code);
    } else {
        assert(code.drop_last().take(k) =~= code.take(k));
        lemma_params_grow(signature, code.drop_last(), k, b);
    }
}

/// Every step of a well-formed listing was legal when it was taken.
pub(crate) proof fn lemma_legal_at(signature: SignatureView, code: Seq<OpView>, k: int)
    requires
        well_formed(signature, code),
        0 <= k < code.len(),
    ensures
        replay(signature, code.take(k)).legal(code[k]),
        replay(signature, code.take(k + 1)) == replay(signature, code.take(k)).step(code[k]),
{
    lemma_prefix_well_formed(signature, code, k + 1);
    assert(code.take(k + 1).drop_last() =~= code.take(k));
    assert(code.take(k + 1).last() == code[k]);
}

/// The values with handles below `bound` hold afterwards what they held
/// before.
#[verifier::opaque]
pub open spec fn kept(before: State, after: State, bound: nat) -> bool {
    forall|v: Value|
        (v.0 as int) < bound && #[trigger] before.values.dom().contains(v)
            ==> after.values.dom().contains(v) && after.values[v] == before.values[v]
}

/// A state keeps its own values.
pub(crate) proof fn lemma_kept_same(before: State, after: State, bound: nat)
    requires
        after.values == before.values,
    ensures
        kept(before, after, bound),
{
    reveal(kept);
}

/// Defining a value with a handle not below the bound keeps the values
/// below it.
pub(crate) proof fn lemma_kept_insert(before: State, after: State, v: Value, datum: Datum, bound: nat)
    requires
        after.values == before.values.insert(v, datum),
        bound <= v.0,
    ensures
        kept(before, after, bound),
{
    reveal(kept);
}

/// Values kept twice are kept.
pub(crate) proof fn lemma_kept_on(a: State, b: State, c: State, bound: nat, later: nat)
    requires
        kept(a, b, bound),
        kept(b, c, later),
        bound <= later,
    ensures
        kept(a, c, bound),
{
    reveal(kept);
    assert forall|v: Value| (v.0 as int) < bound && #[trigger] a.values.dom().contains(
        v,
    ) implies c.values.dom().contains(v) && c.values[v] == a.values[v] by {
        assert(b.values.dom().contains(v));
    }
}

/// A number that a kept value held is the number it holds.
pub(crate) proof fn lemma_kept_number(before: State, after: State, bound: nat, v: Value)
    requires
        kept(before, after, bound),
        (v.0 as int) < bound,
        number_of(before, v) is Some,
    ensures
        number_of(after, v) == number_of(before, v),
{
    reveal(kept);
    assert(before.values.dom().contains(v));
}

/// The run of a step that does nothing.
pub(crate) proof fn lemma_skip_runs(signature: SignatureView, code: Seq<OpView>, st: State) -> (to: State)
    requires
        0 <= st.pc < code.len(),
        code[st.pc] is CreateBlock || code[st.pc] is AppendBlockParam || code[st.pc] is SwitchToBlock
            || code[st.pc] is SealBlock || code[st.pc] is DeclareVar || code[st.pc] is ImportFunction,
    ensures
        leads(signature, code, st, to),
        to == (State { pc: st.pc + 1, ..st }),
{
    let to = State { pc: st.pc + 1, ..st };
    lemma_leads_step(signature, code, st, to);
    to
}

/// The run of a binding.
pub(crate) proof fn lemma_binding_step(
    signature: SignatureView,
    code: Seq<OpView>,
    st: State,
    var: Variable,
    v: Value,
) -> (to: State)
    requires
        0 <= st.pc < code.len(),
        code[st.pc] == OpView::DefVar(var, v),
        st.values.dom().contains(v),
    ensures
        leads(signature, code, st, to),
        to == (State { pc: st.pc + 1, cells: st.cells.insert(var, st.values[v]), ..st }),
{
    let to = State { pc: st.pc + 1, cells: st.cells.insert(var, st.values[v]), ..st };
    lemma_leads_step(signature, code, st, to);
    to
}

/// The parameter that a block got at position `k` is its one parameter
/// when a jump with one argument goes to it.
pub(crate) proof fn lemma_merge_params(
    signature: SignatureView,
    code: Seq<OpView>,
    k: int,
    pc: int,
    b: Block,
)
    requires
        well_formed(signature, code),
        0 <= k < pc < code.len(),
        code[k] is AppendBlockParam,
        code[k]->AppendBlockParam_0 == b,
        code[pc] is Jump,
        code[pc]->Jump_0 == b,
        code[pc]->Jump_1.len() == 1,
    ensures
        params_at(signature, code, pc, b) =~= seq![handle_at(signature, code, k)],
{
    let before = replay(signature, code.take(k));
    let after = replay(signature, code.take(k + 1));
    let mid = code.take(pc);
    let late = replay(signature, mid);
    lemma_legal_at(signature, code, k);
    lemma_legal_at(signature, code, pc);
    lemma_prefix_well_formed(signature, code, pc);
    assert(before.has_block(b));
    assert(after.has_block(b));
    assert(after.block(b).params == before.block(b).params.push(before.next_value()));
    assert(mid.take(k + 1) =~= code.take(k + 1));
    lemma_params_grow(signature, mid, k + 1, b);
    assert(params_at(signature, mid, k + 1, b) == after.block(b).params);
    assert(late.may_enter(b, code[pc]->Jump_1));
    assert(late.param_types(b).len() == 1);
    assert(late.block(b).params.len() == 1);
    assert(late.block(b).params[0] == after.block(b).params[0]);
}

/// Following a jump without arguments to a block without parameters.
pub(crate) proof fn lemma_follow_plain(
    signature: SignatureView,
    code: Seq<OpView>,
    st: State,
    b: Block,
    j: int,
)
    requires
        well_formed(signature, code),
        enters(code, b, j),
        params_at(signature, code, st.pc, b).len() == 0,
    ensures
        follow(signature, code, st, b, Seq::empty()) == Outcome::Running(
            State { pc: j + 1, ..st },
        ),
{
    lemma_start_of(signature, code, b, j);
}

/// Following a jump with one argument to a block with one parameter.
pub(crate) proof fn lemma_follow_one(
    signature: SignatureView,
    code: Seq<OpView>,
    st: State,
    b: Block,
    j: int,
    param: Value,
    arg: Value,
)
    requires
        well_formed(signature, code),
        enters(code, b, j),
        params_at(signature, code, st.pc, b) =~= seq![param],
        st.values.dom().contains(arg),
    ensures
        follow(signature, code, st, b, seq![arg]) == Outcome::Running(
            State { pc: j + 1, values: st.values.insert(param, st.values[arg]), ..st },
        ),
{
    lemma_start_of(signature, code, b, j);
    reveal_with_fuel(hand_over, 2);
}

/// A jump or a taken branch without arguments, to a block that is entered
/// at position `j`.
pub(crate) proof fn lemma_plain_jump_runs(
    signature: SignatureView,
    code: Seq<OpView>,
    m: State,
    b: Block,
    j: int,
) -> (to: State)
    requires
        well_formed(signature, code),
        0 <= m.pc < code.len(),
        code[m.pc] == OpView::Jump(b, Seq::empty()) || (code[m.pc] is Brz && code[m.pc]->Brz_1 == b
            && code[m.pc]->Brz_2 == Seq::<Value>::empty() && m.values.dom().contains(
            code[m.pc]->Brz_0,
        ) && is_zero(m.values[code[m.pc]->Brz_0])),
        enters(code, b, j),
    ensures
        leads(signature, code, m, to),
        to == (State { pc: j + 1, ..m }),
{
    lemma_legal_at(signature, code, m.pc);
    lemma_follow_plain(signature, code, m, b, j);
    let to = State { pc: j + 1, ..m };
    lemma_leads_step(signature, code, m, to);
    to
}

/// The run of steps that do nothing, up to position `k`.
pub(crate) proof fn lemma_skips_run(signature: SignatureView, code: Seq<OpView>, st: State, k: int) -> (to:
    State)
    requires
        0 <= st.pc <= k <= code.len(),
        forall|i: int|
            st.pc <= i < k ==> (#[trigger] code[i]) is CreateBlock || code[i] is AppendBlockParam,
    ensures
        leads(signature, code, st, to),
        to == (State { pc: k, ..st }),
    decreases k - st.pc,
{
    if st.pc == k {
        lemma_leads_here(signature, code, st);
        st
    } else {
        assert(code[st.pc] is CreateBlock || code[st.pc] is AppendBlockParam);
        let next = lemma_skip_runs(signature, code, st);
        let to = lemma_skips_run(signature, code, next, k);
        lemma_leads_on(signature, code, st, next, to);
        to
    }
}

/// A function at the start of a call: its first step is next, and the
/// parameters of its entry block, which are its first values, hold the
/// arguments.
pub open spec fn entered_with(args: Seq<i32>) -> State {
    State {
        pc: 0,
        values: Map::new(
            |v: Value| (v.0 as int) < args.len(),
            |v: Value| Datum::Int(args[v.0 as int]),
        ),
        cells: Map::empty(),
    }
}

/// Some number of steps makes the function return `number`.
pub open spec fn comes_back(
    signature: SignatureView,
    code: Seq<OpView>,
    from: State,
    number: i32,
) -> bool {
    exists|n: nat| advance(signature, code, from, n) == Outcome::Returned(number)
}

/// A state that leads to a state whose next step returns, returns.
pub(crate) proof fn lemma_leads_to_return(
    signature: SignatureView,
    code: Seq<OpView>,
    from: State,
    to: State,
    number: i32,
)
    requires
        leads(signature, code, from, to),
        step(signature, code, to) == Outcome::Returned(number),
    ensures
        comes_back(signature, code, from, number),
{
    reveal(leads);
    let n = choose|n: nat| advance(signature, code, from, n) == Outcome::Running(to);
    assert(advance(signature, code, from, n + 1) == Outcome::Returned(number));
}

} // verus!
