//! Every block of a finished function has exactly one terminator, and the
//! terminator is its last instruction.

use vstd::prelude::*;
use crate::builder::{replay, well_formed};
use crate::ir::{Block, OpView, SignatureView};
use crate::sealing::lemma_prefix_well_formed;

verus! {

/// Whether a step adds an instruction to the current block.
pub open spec fn is_instruction(op: OpView) -> bool {
    match op {
        OpView::Iconst(_) => true,
        OpView::Binary(_, _, _) => true,
        OpView::Compare(_, _, _) => true,
        OpView::Bint(_) => true,
        OpView::Brz(_, _, _) => true,
        OpView::Jump(_, _) => true,
        OpView::Call(_, _) => true,
        OpView::Return(_) => true,
        _ => false,
    }
}

/// Whether a step adds a terminator to the current block.
pub open spec fn is_terminator(op: OpView) -> bool {
    op is Jump || op is Return
}

/// The block that is the current one when step `i` of a listing is taken.
pub open spec fn current_at(signature: SignatureView, code: Seq<OpView>, i: int) -> Option<Block> {
    replay(signature, code.take(i)).current
}

/// A block that got its terminator keeps it.
proof fn lemma_terminator_stays(signature: SignatureView, code: Seq<OpView>, i: int)
    requires
        well_formed(signature, code),
        0 <= i < code.len(),
        is_terminator(code[i]),
    ensures
        current_at(signature, code, i) is Some,
        replay(signature, code).has_block(current_at(signature, code, i)->Some_0),
        replay(signature, code).block(current_at(signature, code, i)->Some_0).filled,
    decreases code.len(),
{
    if i < code.len() - 1 {
        lemma_terminator_stays(signature, code.drop_last(), i);
        assert(code.drop_last().take(i) =~= code.take(i));
    } else {
        assert(code.take(i) =~= code.drop_last());
    }
}

/// No instruction is added to a block after its terminator.
pub proof fn law_terminator_is_last(signature: SignatureView, code: Seq<OpView>, i: int, j: int)
    requires
        well_formed(signature, code),
        0 <= i < j < code.len(),
        is_terminator(code[i]),
        is_instruction(code[j]),
    ensures
        current_at(signature, code, i) != current_at(signature, code, j),
{
    let before = code.take(j);
    lemma_prefix_well_formed(signature, code, j);
    lemma_prefix_well_formed(signature, code, j + 1);
    assert(code.take(j + 1).drop_last() =~= before);
    assert(code.take(j + 1).last() == code[j]);
    assert(replay(signature, before).legal(code[j]));
    assert(before[i] == code[i]);
    lemma_terminator_stays(signature, before, i);
    assert(before.take(i) =~= code.take(i));
}

/// A block that has its terminator got it by a step that was taken while
/// the block was the current one.
pub proof fn law_terminated_by_a_step(signature: SignatureView, code: Seq<OpView>, b: Block)
    requires
        well_formed(signature, code),
        replay(signature, code).has_block(b),
        replay(signature, code).block(b).filled,
    ensures
        exists|i: int|
            0 <= i < code.len() && is_terminator(#[trigger] code[i]) && current_at(
                signature,
                code,
                i,
            ) == Some(b),
    decreases code.len(),
{
    if code.len() > 0 {
        let last = code.len() - 1;
        let before = replay(signature, code.drop_last());
        assert(code.take(last) =~= code.drop_last());
        if is_terminator(code[last]) && before.current == Some(b) {
            assert(current_at(signature, code, last) == Some(b));
        } else {
            assert(before.has_block(b) && before.block(b).filled);
            law_terminated_by_a_step(signature, code.drop_last(), b);
            let i = choose|i: int|
                0 <= i < code.drop_last().len() && is_terminator(#[trigger] code.drop_last()[i])
                    && current_at(signature, code.drop_last(), i) == Some(b);
            assert(code.drop_last().take(i) =~= code.take(i));
            assert(code[i] == code.drop_last()[i]);
        }
    }
}

} // verus!
