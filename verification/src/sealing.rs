//! The sealing discipline: a block is sealed only when every jump and
//! branch to it has been emitted.

use vstd::prelude::*;
use crate::builder::{replay, well_formed};
use crate::ir::{Block, OpView, SignatureView};

verus! {

/// Whether a step is a jump or a branch to `b`.
pub open spec fn targets(op: OpView, b: Block) -> bool {
    match op {
        OpView::Brz(_, target, _) => target == b,
        OpView::Jump(target, _) => target == b,
        _ => false,
    }
}

/// No step after the sealing of a block is a jump or a branch to it.
pub open spec fn sealed_after_predecessors(code: Seq<OpView>) -> bool {
    forall|i: int, j: int|
        0 <= i < j < code.len() && code[i] is SealBlock ==> !targets(
            #[trigger] code[j],
            (#[trigger] code[i])->SealBlock_0,
        )
}

/// The beginning of a well-formed listing is well formed.
pub(crate) proof fn lemma_prefix_well_formed(signature: SignatureView, code: Seq<OpView>, k: int)
    requires
        well_formed(signature, code),
        0 <= k <= code.len(),
    ensures
        well_formed(signature, code.take(k)),
    decreases code.len(),
{
    if k == code.len() {
        assert(code.take(k) =~= code);
    } else {
        lemma_prefix_well_formed(signature, code.drop_last(), k);
        assert(code.drop_last().take(k) =~= code.take(k));
    }
}

/// A block that a step of a well-formed listing seals exists and is sealed
/// in the state that the listing leads to.
proof fn lemma_seal_stays(signature: SignatureView, code: Seq<OpView>, i: int)
    requires
        well_formed(signature, code),
        0 <= i < code.len(),
        code[i] is SealBlock,
    ensures
        replay(signature, code).has_block(code[i]->SealBlock_0),
        replay(signature, code).block(code[i]->SealBlock_0).sealed,
    decreases code.len(),
{
    if i < code.len() - 1 {
        lemma_seal_stays(signature, code.drop_last(), i);
    }
}

/// In a well-formed listing every block is sealed after the last jump and
/// the last branch to it.
pub proof fn law_sealed_after_predecessors(signature: SignatureView, code: Seq<OpView>)
    requires
        well_formed(signature, code),
    ensures
        sealed_after_predecessors(code),
{
    assert forall|i: int, j: int|
        0 <= i < j < code.len() && code[i] is SealBlock implies !targets(
        #[trigger] code[j],
        (#[trigger] code[i])->SealBlock_0,
    ) by {
        let before = code.take(j);
        lemma_prefix_well_formed(signature, code, j);
        lemma_prefix_well_formed(signature, code, j + 1);
        assert(code.take(j + 1).drop_last() =~= before);
        assert(code.take(j + 1).last() == code[j]);
        assert(replay(signature, before).legal(code[j]));
        assert(before[i] == code[i]);
        lemma_seal_stays(signature, before, i);
    }
}

} // verus!
