//! How conditionals and loops shape the block graph.
//!
//! A conditional or a loop is lowered in stretches: between them stand the
//! lowerings of its condition and bodies. The relations here say what each
//! stretch does to a construction and what holds of the blocks that it left
//! open; the lemmas put the stretches together into one advance.

use vstd::prelude::*;
use crate::builder::BuilderState;
use crate::ir::{Block, Type, Value};

verus! {

impl BuilderState {
    /// The block created first by a construct that starts in this state.
    pub open spec fn first_new_block(self) -> Block {
        Block(self.blocks.len() as usize)
    }

    /// The block created second by a construct that starts in this state.
    pub open spec fn second_new_block(self) -> Block {
        Block((self.blocks.len() + 1) as usize)
    }

    /// Nothing but blocks may differ: signature, variables and imported
    /// functions are the same, and `next` has the values of `self` followed
    /// by `added` integers.
    pub open spec fn same_but_blocks(self, next: BuilderState, added: nat) -> bool {
        &&& next.signature == self.signature
        &&& next.variables == self.variables
        &&& next.func_refs == self.func_refs
        &&& next.values.len() == self.values.len() + added
        &&& next.values.len() <= usize::MAX
        &&& forall|i: int| 0 <= i < self.values.len() ==> next.values[i] == self.values[i]
        &&& forall|i: int| self.values.len() <= i < next.values.len() ==> next.values[i] == Type::I32
    }

    /// What is known of block `b`, field by field.
    pub open spec fn block_is(
        self,
        b: Block,
        params: Seq<Value>,
        sealed: bool,
        filled: bool,
        pristine: bool,
        predecessors: nat,
    ) -> bool {
        &&& self.has_block(b)
        &&& self.block(b).params =~= params
        &&& self.block(b).sealed == sealed
        &&& self.block(b).filled == filled
        &&& self.block(b).pristine == pristine
        &&& self.block(b).predecessors == predecessors
    }

    /// The start of a conditional: an else block with the branch as its one
    /// predecessor, a merge block with one integer parameter, and the
    /// current block still open.
    pub open spec fn opens_conditional(self, next: BuilderState) -> bool {
        let c = self.current->Some_0;
        let else_block = self.first_new_block();
        let merge_block = self.second_new_block();
        &&& self.can_emit()
        &&& next.can_emit()
        &&& next.current == self.current
        &&& self.same_but_blocks(next, 2)
        &&& next.blocks.len() == self.blocks.len() + 2
        &&& next.blocks.len() <= usize::MAX
        &&& forall|b: int| 0 <= b < self.blocks.len() && b != c.0 ==> next.blocks[b] == self.blocks[b]
        &&& next.block(c).sealed == self.block(c).sealed
        &&& next.block(c).params == self.block(c).params
        &&& next.block(c).predecessors == self.block(c).predecessors
        &&& next.block_is(else_block, Seq::empty(), false, false, true, 1)
        &&& next.block_is(merge_block, seq![self.next_value()], false, false, true, 0)
    }

    /// A merge block waits for its jumps: it has one integer parameter and
    /// `jumps` predecessors, is neither sealed nor entered, and is not the
    /// current block.
    pub open spec fn awaits_merge(self, merge_block: Block, jumps: nat) -> bool {
        &&& self.current != Some(merge_block)
        &&& self.block(merge_block).params.len() == 1
        &&& self.is_integer(self.block(merge_block).params[0])
        &&& self.block_is(merge_block, self.block(merge_block).params, false, false, true, jumps)
    }

    /// An else block waits to be entered, and the merge block for its jumps.
    pub open spec fn awaits_else(self, else_block: Block, merge_block: Block) -> bool {
        &&& else_block != merge_block
        &&& self.current != Some(else_block)
        &&& self.block_is(else_block, Seq::empty(), false, false, true, 1)
        &&& self.awaits_merge(merge_block, 0)
    }

    /// The current block of `self` has got its terminator in `next`, and
    /// nothing else of it has changed.
    pub open spec fn ends_current(self, next: BuilderState) -> bool {
        let c = self.current->Some_0;
        next.block_is(
            c,
            self.block(c).params,
            self.block(c).sealed,
            true,
            false,
            self.block(c).predecessors,
        )
    }

    /// The turn of a conditional: the current block ends with a jump to the
    /// merge block, and the else block is entered, sealed and given a zero.
    pub open spec fn turns_conditional(
        self,
        next: BuilderState,
        else_block: Block,
        merge_block: Block,
    ) -> bool {
        let c = self.current->Some_0;
        &&& next.current == Some(else_block)
        &&& next.can_emit()
        &&& self.same_but_blocks(next, 1)
        &&& next.blocks.len() == self.blocks.len()
        &&& forall|b: int|
            0 <= b < self.blocks.len() && b != c.0 && b != else_block.0 && b != merge_block.0
                ==> next.blocks[b] == self.blocks[b]
        &&& self.ends_current(next)
        &&& next.block_is(
            merge_block,
            self.block(merge_block).params,
            false,
            false,
            true,
            self.block(merge_block).predecessors + 1,
        )
        &&& next.block_is(else_block, Seq::empty(), true, false, false, 1)
    }

    /// The end of a conditional: the current block ends with a jump to the
    /// merge block, which is entered and sealed.
    pub open spec fn closes_conditional(self, next: BuilderState, merge_block: Block) -> bool {
        let c = self.current->Some_0;
        &&& next.current == Some(merge_block)
        &&& next.can_emit()
        &&& self.same_but_blocks(next, 0)
        &&& next.blocks.len() == self.blocks.len()
        &&& forall|b: int|
            0 <= b < self.blocks.len() && b != c.0 && b != merge_block.0 ==> next.blocks[b]
                == self.blocks[b]
        &&& self.ends_current(next)
        &&& next.block_is(
            merge_block,
            self.block(merge_block).params,
            true,
            false,
            true,
            self.block(merge_block).predecessors + 1,
        )
    }

    /// After the then-body the else block and the merge block still wait.
    pub(crate) proof fn lemma_conditional_opened(self, opened: BuilderState, then_done: BuilderState)
        requires
            self.opens_conditional(opened),
            opened.advances_to(then_done),
        ensures
            then_done.awaits_else(self.first_new_block(), self.second_new_block()),
    {
        let merge_block = self.second_new_block();
        assert(then_done.blocks[merge_block.0 as int] == opened.blocks[merge_block.0 as int]);
        assert(opened.is_integer(self.next_value()));
    }

    /// After the else-body the merge block still waits, with one jump.
    pub(crate) proof fn lemma_conditional_turned(
        self,
        opened: BuilderState,
        then_done: BuilderState,
        turned: BuilderState,
        else_done: BuilderState,
    )
        requires
            self.opens_conditional(opened),
            opened.advances_to(then_done),
            then_done.turns_conditional(turned, self.first_new_block(), self.second_new_block()),
            turned.advances_to(else_done),
        ensures
            else_done.awaits_merge(self.second_new_block(), 1),
    {
        self.lemma_conditional_opened(opened, then_done);
        let merge_block = self.second_new_block();
        assert(else_done.blocks[merge_block.0 as int] == turned.blocks[merge_block.0 as int]);
        assert(turned.is_integer(self.next_value()));
    }

    /// A whole conditional is one advance, and the merge block's parameter
    /// is an integer.
    pub(crate) proof fn lemma_conditional_closed(
        self,
        opened: BuilderState,
        then_done: BuilderState,
        turned: BuilderState,
        else_done: BuilderState,
        closed: BuilderState,
    )
        requires
            self.opens_conditional(opened),
            opened.advances_to(then_done),
            then_done.turns_conditional(turned, self.first_new_block(), self.second_new_block()),
            turned.advances_to(else_done),
            else_done.closes_conditional(closed, self.second_new_block()),
        ensures
            self.advances_to(closed),
            closed.is_integer(self.next_value()),
    {
        self.lemma_conditional_turned(opened, then_done, turned, else_done);
        let c = self.current->Some_0;
        let c3 = then_done.current->Some_0;
        let c5 = else_done.current->Some_0;
        let else_block = self.first_new_block();
        let merge_block = self.second_new_block();
        assert(opened.is_integer(self.next_value()));
        assert(then_done.is_integer(self.next_value()));
        assert(turned.is_integer(self.next_value()));
        assert(else_done.is_integer(self.next_value()));
        assert forall|b: int| 0 <= b < self.blocks.len() && b != c.0 implies closed.blocks[b]
            == self.blocks[b] by {
            assert(opened.blocks[b] == self.blocks[b]);
            assert(then_done.blocks[b] == opened.blocks[b]);
            assert(turned.blocks[b] == then_done.blocks[b]);
            assert(else_done.blocks[b] == turned.blocks[b]);
        }
        assert forall|b: int|
            self.blocks.len() <= b < closed.blocks.len() && b != merge_block.0 implies (
        #[trigger] closed.blocks[b]).sealed && closed.blocks[b].filled by {
            if b == else_block.0 {
            } else if b < then_done.blocks.len() {
                if b == c3.0 {
                } else {
                    assert(then_done.blocks[b].sealed && then_done.blocks[b].filled);
                    assert(turned.blocks[b] == then_done.blocks[b]);
                    assert(else_done.blocks[b] == turned.blocks[b]);
                }
            } else {
                if b == c5.0 {
                } else {
                    assert(else_done.blocks[b].sealed && else_done.blocks[b].filled);
                }
            }
        }
    }

    /// The start of a loop: a header block, jumped to from the block that
    /// was current and entered, and an exit block.
    pub open spec fn opens_loop(self, next: BuilderState) -> bool {
        let c = self.current->Some_0;
        let header_block = self.first_new_block();
        let exit_block = self.second_new_block();
        &&& self.can_emit()
        &&& next.can_emit()
        &&& next.current == Some(header_block)
        &&& self.same_but_blocks(next, 0)
        &&& next.blocks.len() == self.blocks.len() + 2
        &&& next.blocks.len() <= usize::MAX
        &&& forall|b: int| 0 <= b < self.blocks.len() && b != c.0 ==> next.blocks[b] == self.blocks[b]
        &&& self.ends_current(next)
        &&& next.block_is(header_block, Seq::empty(), false, false, true, 1)
        &&& next.block_is(exit_block, Seq::empty(), false, false, true, 0)
    }

    /// Inside a loop: the exit block waits to be entered, with `branches`
    /// predecessors, and the header, which takes no arguments, is not sealed.
    pub open spec fn awaits_exit(self, header_block: Block, exit_block: Block, branches: nat) -> bool {
        &&& header_block != exit_block
        &&& self.current != Some(exit_block)
        &&& self.block_is(exit_block, Seq::empty(), false, false, true, branches)
        &&& self.has_block(header_block)
        &&& !self.block(header_block).sealed
        &&& self.block(header_block).params =~= Seq::empty()
    }

    /// The branch out of a loop: the exit block has one more predecessor,
    /// and the current block stays open.
    pub open spec fn branches_out(self, next: BuilderState, exit_block: Block) -> bool {
        let c = self.current->Some_0;
        &&& next.current == self.current
        &&& self.can_emit()
        &&& next.can_emit()
        &&& self.same_but_blocks(next, 0)
        &&& next.blocks.len() == self.blocks.len()
        &&& forall|b: int|
            0 <= b < self.blocks.len() && b != c.0 && b != exit_block.0 ==> next.blocks[b]
                == self.blocks[b]
        &&& next.block(c).sealed == self.block(c).sealed
        &&& next.block(c).params == self.block(c).params
        &&& next.block(c).predecessors == self.block(c).predecessors
        &&& next.block_is(
            exit_block,
            Seq::empty(),
            false,
            false,
            true,
            self.block(exit_block).predecessors + 1,
        )
    }

    /// The end of a loop: the current block ends with the jump back to the
    /// header, the exit block is entered, header and exit are sealed, and a
    /// zero is emitted.
    pub open spec fn closes_loop(self, next: BuilderState, header_block: Block, exit_block: Block) -> bool {
        let c = self.current->Some_0;
        &&& next.current == Some(exit_block)
        &&& next.can_emit()
        &&& self.same_but_blocks(next, 1)
        &&& next.blocks.len() == self.blocks.len()
        &&& forall|b: int|
            0 <= b < self.blocks.len() && b != c.0 && b != header_block.0 && b != exit_block.0
                ==> next.blocks[b] == self.blocks[b]
        &&& next.block(c).filled
        &&& c != header_block ==> self.ends_current(next)
        &&& next.has_block(header_block)
        &&& next.block(header_block).sealed
        &&& c != header_block ==> next.block(header_block).filled == self.block(header_block).filled
        &&& next.block_is(exit_block, Seq::empty(), true, false, false, 1)
    }

    /// After the condition the exit block still waits and the header is
    /// still open to the jump back.
    pub(crate) proof fn lemma_loop_tested(self, opened: BuilderState, tested: BuilderState)
        requires
            self.opens_loop(opened),
            opened.advances_to(tested),
        ensures
            tested.awaits_exit(self.first_new_block(), self.second_new_block(), 0),
    {
        let exit_block = self.second_new_block();
        assert(tested.blocks[exit_block.0 as int] == opened.blocks[exit_block.0 as int]);
    }

    /// After the body the exit block still waits, with the branch as its
    /// predecessor, and the header is still open to the jump back.
    pub(crate) proof fn lemma_loop_looped(
        self,
        opened: BuilderState,
        tested: BuilderState,
        branched: BuilderState,
        looped: BuilderState,
    )
        requires
            self.opens_loop(opened),
            opened.advances_to(tested),
            tested.branches_out(branched, self.second_new_block()),
            branched.advances_to(looped),
        ensures
            looped.awaits_exit(self.first_new_block(), self.second_new_block(), 1),
    {
        self.lemma_loop_tested(opened, tested);
        let header_block = self.first_new_block();
        let exit_block = self.second_new_block();
        assert(looped.blocks[exit_block.0 as int] == branched.blocks[exit_block.0 as int]);
        if branched.current != Some(header_block) {
            assert(branched.blocks[header_block.0 as int] == tested.blocks[header_block.0 as int]);
            assert(looped.blocks[header_block.0 as int] == branched.blocks[header_block.0 as int]);
        }
    }

    /// A whole loop is one advance.
    pub(crate) proof fn lemma_loop_closed(
        self,
        opened: BuilderState,
        tested: BuilderState,
        branched: BuilderState,
        looped: BuilderState,
        closed: BuilderState,
    )
        requires
            self.opens_loop(opened),
            opened.advances_to(tested),
            tested.branches_out(branched, self.second_new_block()),
            branched.advances_to(looped),
            looped.closes_loop(closed, self.first_new_block(), self.second_new_block()),
        ensures
            self.advances_to(closed),
    {
        self.lemma_loop_looped(opened, tested, branched, looped);
        let c2 = tested.current->Some_0;
        let c4 = looped.current->Some_0;
        let header_block = self.first_new_block();
        let exit_block = self.second_new_block();
        assert forall|b: int| 0 <= b < self.blocks.len() implies closed.blocks[b] == opened.blocks[b] by {
            assert(tested.blocks[b] == opened.blocks[b]);
            assert(branched.blocks[b] == tested.blocks[b]);
            assert(looped.blocks[b] == branched.blocks[b]);
        }
        assert forall|b: int|
            self.blocks.len() <= b < closed.blocks.len() && b != exit_block.0 implies (
        #[trigger] closed.blocks[b]).sealed && closed.blocks[b].filled by {
            if b == header_block.0 {
                if c4 != header_block {
                    if c2 == header_block {
                        assert(looped.blocks[b].filled);
                    } else {
                        assert(tested.blocks[b].filled);
                        assert(branched.blocks[b] == tested.blocks[b]);
                        assert(looped.blocks[b] == branched.blocks[b]);
                    }
                }
            } else if b < tested.blocks.len() {
                if b == c2.0 {
                    assert(tested.blocks[b].sealed);
                    if c4 != c2 {
                        assert(looped.blocks[b].filled);
                    }
                } else {
                    assert(tested.blocks[b].sealed && tested.blocks[b].filled);
                    assert(branched.blocks[b] == tested.blocks[b]);
                    assert(looped.blocks[b] == branched.blocks[b]);
                }
            } else {
                if b == c4.0 {
                } else {
                    assert(looped.blocks[b].sealed && looped.blocks[b].filled);
                }
            }
        }
    }
}

} // verus!
