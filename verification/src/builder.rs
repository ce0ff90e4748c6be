//! Construction of a function, one step at a time.
//!
//! `BuilderState` is the mathematical state of a construction: what has been
//! created so far and which steps may come next. `FunctionBuilder` is the
//! executable builder; each of its methods takes one step, demands that the
//! step is legal, and records it. A finished construction is a `FunctionIR`.

use vstd::prelude::*;
use crate::ir::{
    views,
    BinaryOp,
    Block,
    FuncId,
    FuncRef,
    IntCC,
    Op,
    OpView,
    Signature,
    SignatureView,
    Type,
    Value,
    Variable,
};

verus! {

/// What is known of one block during construction.
pub struct BlockState {
    /// The values of its entry parameters, in order.
    pub params: Seq<Value>,
    /// No further jump or branch may target it.
    pub sealed: bool,
    /// It has its terminator.
    pub filled: bool,
    /// It holds no instruction yet.
    pub pristine: bool,
    /// How many jumps and branches target it.
    pub predecessors: nat,
}

impl BlockState {
    /// A block as it is when created.
    pub open spec fn fresh() -> BlockState {
        BlockState {
            params: Seq::empty(),
            sealed: false,
            filled: false,
            pristine: true,
            predecessors: 0,
        }
    }
}

/// The state of a construction.
pub struct BuilderState {
    /// The signature of the function under construction.
    pub signature: SignatureView,
    /// The steps taken, oldest first.
    pub code: Seq<OpView>,
    /// The type of each value defined so far.
    pub values: Seq<Type>,
    /// The blocks created so far.
    pub blocks: Seq<BlockState>,
    /// The block that instructions are added to.
    pub current: Option<Block>,
    /// The declared variables with their types.
    pub variables: Map<Variable, Type>,
    /// The signature of each function made callable so far.
    pub func_refs: Seq<SignatureView>,
}

impl BuilderState {
    /// The state before the first step.
    pub open spec fn new(signature: SignatureView) -> BuilderState {
        BuilderState {
            signature,
            code: Seq::empty(),
            values: Seq::empty(),
            blocks: Seq::empty(),
            current: None,
            variables: Map::empty(),
            func_refs: Seq::empty(),
        }
    }

    pub open spec fn has_value(self, v: Value) -> bool {
        (v.0 as int) < self.values.len()
    }

    pub open spec fn value_type(self, v: Value) -> Type {
        self.values[v.0 as int]
    }

    /// The value exists and is an integer.
    pub open spec fn is_integer(self, v: Value) -> bool {
        self.has_value(v) && self.value_type(v) == Type::I32
    }

    pub open spec fn has_block(self, b: Block) -> bool {
        (b.0 as int) < self.blocks.len()
    }

    pub open spec fn block(self, b: Block) -> BlockState {
        self.blocks[b.0 as int]
    }

    pub open spec fn declared(self, var: Variable) -> bool {
        self.variables.dom().contains(var)
    }

    /// The handle that the next value will get.
    pub open spec fn next_value(self) -> Value {
        Value(self.values.len() as usize)
    }

    /// The handle that the next block will get.
    pub open spec fn next_block(self) -> Block {
        Block(self.blocks.len() as usize)
    }

    /// The handle that the next imported function will get.
    pub open spec fn next_func_ref(self) -> FuncRef {
        FuncRef(self.func_refs.len() as usize)
    }

    /// An instruction can be added: there is a current block and it has no
    /// terminator yet.
    pub open spec fn can_emit(self) -> bool {
        self.current matches Some(c) && self.has_block(c) && !self.block(c).filled
    }

    /// The values exist and have the given types, one for one.
    pub open spec fn fit(self, args: Seq<Value>, types: Seq<Type>) -> bool {
        &&& args.len() == types.len()
        &&& forall|i: int|
            0 <= i < args.len() ==> self.has_value(#[trigger] args[i]) && self.value_type(args[i])
                == types[i]
    }

    /// The types of a block's entry parameters.
    pub open spec fn param_types(self, b: Block) -> Seq<Type> {
        Seq::new(self.block(b).params.len(), |i: int| self.value_type(self.block(b).params[i]))
    }

    /// A jump or branch to `b` with these arguments is in order: the block
    /// exists, is not sealed, and the arguments fit its parameters.
    pub open spec fn may_enter(self, b: Block, args: Seq<Value>) -> bool {
        &&& self.has_block(b)
        &&& !self.block(b).sealed
        &&& self.fit(args, self.param_types(b))
    }

    /// Whether a step may be taken in this state.
    pub open spec fn legal(self, op: OpView) -> bool {
        match op {
            OpView::CreateBlock => true,
            OpView::AppendBlockParam(b, _) => {
                &&& self.has_block(b)
                &&& self.block(b).pristine
                &&& !self.block(b).filled
                &&& self.block(b).predecessors == 0
            },
            OpView::SwitchToBlock(b) => {
                &&& self.has_block(b)
                &&& self.block(b).pristine
                &&& !self.block(b).filled
                &&& !self.can_emit()
            },
            OpView::SealBlock(b) => self.has_block(b) && !self.block(b).sealed,
            OpView::DeclareVar(var, _) => !self.declared(var),
            OpView::DefVar(var, v) => {
                &&& self.current is Some
                &&& self.declared(var)
                &&& self.has_value(v)
                &&& self.value_type(v) == self.variables[var]
            },
            OpView::UseVar(var) => self.can_emit() && self.declared(var),
            OpView::Iconst(_) => self.can_emit(),
            OpView::Binary(_, a, b) => self.can_emit() && self.is_integer(a) && self.is_integer(b),
            OpView::Compare(_, a, b) => self.can_emit() && self.is_integer(a) && self.is_integer(b),
            OpView::Bint(v) => self.can_emit() && self.has_value(v) && self.value_type(v) == Type::B1,
            OpView::Brz(c, b, args) => {
                &&& self.can_emit()
                &&& self.has_value(c)
                &&& self.may_enter(b, args)
            },
            OpView::Jump(b, args) => self.can_emit() && self.may_enter(b, args),
            OpView::ImportFunction(_, _) => true,
            OpView::Call(f, args) => {
                &&& self.can_emit()
                &&& (f.0 as int) < self.func_refs.len()
                &&& self.fit(args, self.func_refs[f.0 as int].params)
                &&& self.func_refs[f.0 as int].results.len() == 1
            },
            OpView::Return(vals) => self.can_emit() && self.fit(vals, self.signature.results),
        }
    }

    /// The state with one more value, of type `t`.
    pub open spec fn defining(self, t: Type) -> BuilderState {
        BuilderState { values: self.values.push(t), ..self }
    }

    /// The state with an instruction added to the current block.
    pub open spec fn touched(self) -> BuilderState {
        let c = self.current->Some_0;
        BuilderState {
            blocks: self.blocks.update(
                c.0 as int,
                BlockState { pristine: false, ..self.block(c) },
            ),
            ..self
        }
    }

    /// The state with a terminator added to the current block.
    pub open spec fn closed(self) -> BuilderState {
        let c = self.current->Some_0;
        BuilderState {
            blocks: self.blocks.update(
                c.0 as int,
                BlockState { pristine: false, filled: true, ..self.block(c) },
            ),
            ..self
        }
    }

    /// The state with one more jump or branch to `b`.
    pub open spec fn entered(self, b: Block) -> BuilderState {
        BuilderState {
            blocks: self.blocks.update(
                b.0 as int,
                BlockState { predecessors: self.block(b).predecessors + 1, ..self.block(b) },
            ),
            ..self
        }
    }

    /// The state after a step.
    pub open spec fn step(self, op: OpView) -> BuilderState {
        let s = BuilderState { code: self.code.push(op), ..self };
        match op {
            OpView::CreateBlock => BuilderState { blocks: s.blocks.push(BlockState::fresh()), ..s },
            OpView::AppendBlockParam(b, t) => BuilderState {
                blocks: s.blocks.update(
                    b.0 as int,
                    BlockState { params: s.block(b).params.push(s.next_value()), ..s.block(b) },
                ),
                ..s.defining(t)
            },
            OpView::SwitchToBlock(b) => BuilderState { current: Some(b), ..s },
            OpView::SealBlock(b) => BuilderState {
                blocks: s.blocks.update(b.0 as int, BlockState { sealed: true, ..s.block(b) }),
                ..s
            },
            OpView::DeclareVar(var, t) => BuilderState {
                variables: s.variables.insert(var, t),
                ..s
            },
            OpView::DefVar(_, _) => s,
            OpView::UseVar(var) => s.defining(s.variables[var]),
            OpView::Iconst(_) => s.touched().defining(Type::I32),
            OpView::Binary(_, _, _) => s.touched().defining(Type::I32),
            OpView::Compare(_, _, _) => s.touched().defining(Type::B1),
            OpView::Bint(_) => s.touched().defining(Type::I32),
            OpView::Brz(_, b, _) => s.touched().entered(b),
            OpView::Jump(b, _) => s.closed().entered(b),
            OpView::ImportFunction(_, sig) => BuilderState {
                func_refs: s.func_refs.push(sig),
                ..s
            },
            OpView::Call(f, _) => s.touched().defining(s.func_refs[f.0 as int].results[0]),
            OpView::Return(_) => s.closed(),
        }
    }

    /// What a piece of straight lowering does to a construction. It starts and
    /// ends where an instruction can be added. Blocks that existed, other than
    /// the one it started in, are as they were; that one keeps its parameters,
    /// its seal and its predecessors. If it ends in another block, that block
    /// is new and sealed, and the block it started in has its terminator. All
    /// other new blocks are sealed and terminated. Values and imported
    /// functions are only added.
    pub open spec fn advances_to(self, next: BuilderState) -> bool {
        let c = self.current->Some_0;
        let d = next.current->Some_0;
        &&& self.can_emit()
        &&& next.can_emit()
        &&& next.signature == self.signature
        &&& self.values.len() <= next.values.len()
        &&& forall|i: int| 0 <= i < self.values.len() ==> next.values[i] == self.values[i]
        &&& self.func_refs.len() <= next.func_refs.len()
        &&& forall|i: int| 0 <= i < self.func_refs.len() ==> next.func_refs[i] == self.func_refs[i]
        &&& self.blocks.len() <= next.blocks.len()
        &&& forall|b: int|
            0 <= b < self.blocks.len() && b != c.0 ==> next.blocks[b] == self.blocks[b]
        &&& next.block(c).sealed == self.block(c).sealed
        &&& next.block(c).params == self.block(c).params
        &&& next.block(c).predecessors == self.block(c).predecessors
        &&& d != c ==> d.0 >= self.blocks.len() && next.block(c).filled && next.block(d).sealed
        &&& forall|b: int|
            self.blocks.len() <= b < next.blocks.len() && b != d.0 ==> (#[trigger] next.blocks[b]).sealed
                && next.blocks[b].filled
    }

    /// Values that fit before a piece of lowering fit after it.
    pub proof fn lemma_fit_kept(self, next: BuilderState, args: Seq<Value>, types: Seq<Type>)
        requires
            self.advances_to(next),
            self.fit(args, types),
        ensures
            next.fit(args, types),
    {
        assert forall|i: int| 0 <= i < args.len() implies next.has_value(#[trigger] args[i])
            && next.value_type(args[i]) == types[i] by {
            assert(self.has_value(args[i]));
        }
    }

    /// One piece after another is one piece.
    pub proof fn lemma_advances_trans(self, mid: BuilderState, next: BuilderState)
        requires
            self.advances_to(mid),
            mid.advances_to(next),
        ensures
            self.advances_to(next),
    {
    }

    /// Every block is sealed and has its terminator.
    pub open spec fn finished(self) -> bool {
        forall|b: int|
            0 <= b < self.blocks.len() ==> (#[trigger] self.blocks[b]).sealed && self.blocks[b].filled
    }
}

/// Whether a step defines a value.
pub open spec fn defines_value(op: OpView) -> bool {
    match op {
        OpView::AppendBlockParam(_, _) => true,
        OpView::UseVar(_) => true,
        OpView::Iconst(_) => true,
        OpView::Binary(_, _, _) => true,
        OpView::Compare(_, _, _) => true,
        OpView::Bint(_) => true,
        OpView::Call(_, _) => true,
        _ => false,
    }
}

/// The state after taking the steps of `code` in order from the start.
pub open spec fn replay(signature: SignatureView, code: Seq<OpView>) -> BuilderState
    decreases code.len(),
{
    if code.len() == 0 {
        BuilderState::new(signature)
    } else {
        replay(signature, code.drop_last()).step(code.last())
    }
}

/// Every step of `code` was legal when it was taken.
pub open spec fn well_formed(signature: SignatureView, code: Seq<OpView>) -> bool
    decreases code.len(),
{
    code.len() == 0 || (well_formed(signature, code.drop_last()) && replay(
        signature,
        code.drop_last(),
    ).legal(code.last()))
}

/// One more legal step keeps a listing well formed, and its replay is one
/// step further.
pub proof fn lemma_extend(signature: SignatureView, code: Seq<OpView>, op: OpView)
    requires
        well_formed(signature, code),
        replay(signature, code).legal(op),
    ensures
        well_formed(signature, code.push(op)),
        replay(signature, code.push(op)) == replay(signature, code).step(op),
{
    assert(code.push(op).drop_last() =~= code);
    assert(code.push(op).last() == op);
}

/// A function in intermediate form: its signature and the steps that build it.
#[derive(Debug, PartialEq, Eq)]
pub struct FunctionIR {
    pub signature: Signature,
    pub ops: Vec<Op>,
}

impl FunctionIR {
    /// The steps, as a sequence of views.
    pub open spec fn code(&self) -> Seq<OpView> {
        views(self.ops@)
    }

    /// Every step was legal when taken, and at the end every block is sealed
    /// and terminated.
    pub open spec fn wf(&self) -> bool {
        &&& well_formed(self.signature@, self.code())
        &&& replay(self.signature@, self.code()).finished()
    }
}

/// Builds one function.
pub struct FunctionBuilder {
    signature: Signature,
    ops: Vec<Op>,
    params: Vec<Vec<Value>>,
    values: usize,
    func_refs: usize,
    state: Ghost<BuilderState>,
}

impl View for FunctionBuilder {
    type V = BuilderState;

    closed spec fn view(&self) -> BuilderState {
        self.state@
    }
}

impl FunctionBuilder {
    /// The builder's records agree with its state, and its state is the
    /// replay of a well-formed listing.
    pub closed spec fn wf(&self) -> bool {
        &&& self.state@.signature == self.signature@
        &&& self.state@.code == views(self.ops@)
        &&& self.params@.len() == self.state@.blocks.len()
        &&& forall|b: int|
            0 <= b < self.params@.len() ==> (#[trigger] self.params@[b])@
                == self.state@.blocks[b].params
        &&& self.values == self.state@.values.len()
        &&& self.func_refs == self.state@.func_refs.len()
        &&& self.values <= self.ops@.len()
        &&& self.func_refs <= self.ops@.len()
        &&& well_formed(self.state@.signature, self.state@.code)
        &&& self.state@ == replay(self.state@.signature, self.state@.code)
    }

    /// The steps taken so far were legal, and the state is their replay.
    pub proof fn lemma_history(&self)
        requires
            self.wf(),
        ensures
            well_formed(self@.signature, self@.code),
            self@ == replay(self@.signature, self@.code),
    {
    }

    /// Handles are machine integers: there are no more values, blocks or
    /// imported functions than such an integer can count.
    pub proof fn lemma_bounded(&self)
        requires
            self.wf(),
        ensures
            self@.values.len() <= usize::MAX,
            self@.blocks.len() <= usize::MAX,
            self@.func_refs.len() <= usize::MAX,
    {
        assert(self.params@.len() == self.params.len());
    }

    /// A builder for a function with the given signature.
    pub fn new(signature: Signature) -> (builder: FunctionBuilder)
        ensures
            builder.wf(),
            builder@ == BuilderState::new(signature@),
    {
        let ghost state = BuilderState::new(signature@);
        let builder = FunctionBuilder {
            signature,
            ops: Vec::new(),
            params: Vec::new(),
            values: 0,
            func_refs: 0,
            state: Ghost(state),
        };
        assert(views(builder.ops@) =~= state.code);
        builder
    }

    /// Records a step that touches neither the block list nor any block's
    /// parameters.
    fn emit(&mut self, op: Op)
        requires
            old(self).wf(),
            old(self)@.legal(op@),
            !(op is CreateBlock),
            !(op is AppendBlockParam),
        ensures
            final(self).wf(),
            final(self)@ == old(self)@.step(op@),
            final(self)@.values.len() <= usize::MAX,
    {
        let ghost before = self.state@;
        let ghost step = op@;
        let defines = match &op {
            Op::UseVar(_) => true,
            Op::Iconst(_) => true,
            Op::Binary(_, _, _) => true,
            Op::Compare(_, _, _) => true,
            Op::Bint(_) => true,
            Op::Call(_, _) => true,
            _ => false,
        };
        let imports = match &op {
            Op::ImportFunction(_, _) => true,
            _ => false,
        };
        self.ops.push(op);
        let taken = self.ops.len();
        assert(self.values < taken && self.func_refs < taken);
        if defines {
            self.values = self.values + 1;
        }
        if imports {
            self.func_refs = self.func_refs + 1;
        }
        self.state = Ghost(before.step(step));
        proof {
            lemma_extend(before.signature, before.code, step);
            assert(views(self.ops@) =~= before.code.push(step));
            let after = before.step(step);
            assert(after.blocks.len() == before.blocks.len());
            assert forall|b: int| 0 <= b < self.params@.len() implies (#[trigger] self.params@[b])@
                == after.blocks[b].params by {
                assert(after.blocks[b].params == before.blocks[b].params);
            }
        }
    }

    /// Creates the next block.
    pub fn create_block(&mut self) -> (block: Block)
        requires
            old(self).wf(),
        ensures
            final(self).wf(),
            final(self)@ == old(self)@.step(OpView::CreateBlock),
            block == old(self)@.next_block(),
            block.0 == old(self)@.blocks.len(),
            final(self)@.variables == old(self)@.variables,
    {
        let ghost before = self.state@;
        let block = Block(self.params.len());
        self.ops.push(Op::CreateBlock);
        self.params.push(Vec::new());
        self.state = Ghost(before.step(OpView::CreateBlock));
        proof {
            lemma_extend(before.signature, before.code, OpView::CreateBlock);
            assert(views(self.ops@) =~= before.code.push(OpView::CreateBlock));
        }
        block
    }

    /// Gives `block` one more entry parameter of type `ty`.
    pub fn append_block_param(&mut self, block: Block, ty: Type) -> (value: Value)
        requires
            old(self).wf(),
            old(self)@.legal(OpView::AppendBlockParam(block, ty)),
        ensures
            final(self).wf(),
            final(self)@ == old(self)@.step(OpView::AppendBlockParam(block, ty)),
            value == old(self)@.next_value(),
            value.0 == old(self)@.values.len(),
            final(self)@.variables == old(self)@.variables,
            final(self)@.has_value(value),
            final(self)@.value_type(value) == ty,
    {
        let ghost before = self.state@;
        let ghost step = OpView::AppendBlockParam(block, ty);
        let value = Value(self.values);
        self.ops.push(Op::AppendBlockParam(block, ty));
        let taken = self.ops.len();
        assert(self.values < taken);
        self.values = self.values + 1;
        let mut list: Vec<Value> = Vec::new();
        let mut i: usize = 0;
        while i < self.params[block.0].len()
            invariant
                block.0 < self.params@.len(),
                i <= self.params@[block.0 as int]@.len(),
                list@ == self.params@[block.0 as int]@.take(i as int),
            decreases self.params@[block.0 as int]@.len() - i,
        {
            list.push(self.params[block.0][i]);
            assert(self.params@[block.0 as int]@.take(i as int).push(
                self.params@[block.0 as int]@[i as int],
            ) =~= self.params@[block.0 as int]@.take(i + 1));
            i = i + 1;
        }
        assert(list@ =~= before.blocks[block.0 as int].params);
        list.push(value);
        self.params.set(block.0, list);
        self.state = Ghost(before.step(step));
        proof {
            lemma_extend(before.signature, before.code, step);
            assert(views(self.ops@) =~= before.code.push(step));
        }
        value
    }

    /// The values of a block's entry parameters, in order.
    pub fn block_params(&self, block: Block) -> (params: &Vec<Value>)
        requires
            self.wf(),
            self@.has_block(block),
        ensures
            params@ == self@.block(block).params,
    {
        &self.params[block.0]
    }

    /// Makes `block` the one that instructions are added to.
    pub fn switch_to_block(&mut self, block: Block)
        requires
            old(self).wf(),
            old(self)@.legal(OpView::SwitchToBlock(block)),
        ensures
            final(self).wf(),
            final(self)@ == old(self)@.step(OpView::SwitchToBlock(block)),
            final(self)@.variables == old(self)@.variables,
    {
        self.emit(Op::SwitchToBlock(block));
    }

    /// Declares that every jump and branch to `block` has been emitted.
    pub fn seal_block(&mut self, block: Block)
        requires
            old(self).wf(),
            old(self)@.legal(OpView::SealBlock(block)),
        ensures
            final(self).wf(),
            final(self)@ == old(self)@.step(OpView::SealBlock(block)),
            final(self)@.variables == old(self)@.variables,
    {
        self.emit(Op::SealBlock(block));
    }

    /// Declares a variable.
    pub fn declare_var(&mut self, var: Variable, ty: Type)
        requires
            old(self).wf(),
            old(self)@.legal(OpView::DeclareVar(var, ty)),
        ensures
            final(self).wf(),
            final(self)@ == old(self)@.step(OpView::DeclareVar(var, ty)),
            old(self)@.can_emit() ==> old(self)@.advances_to(final(self)@),
    {
        self.emit(Op::DeclareVar(var, ty));
    }

    /// Rebinds a variable to a value.
    pub fn def_var(&mut self, var: Variable, value: Value)
        requires
            old(self).wf(),
            old(self)@.legal(OpView::DefVar(var, value)),
        ensures
            final(self).wf(),
            final(self)@ == old(self)@.step(OpView::DefVar(var, value)),
            old(self)@.can_emit() ==> old(self)@.advances_to(final(self)@),
            final(self)@.variables == old(self)@.variables,
    {
        self.emit(Op::DefVar(var, value));
    }

    /// Reads a variable's current binding.
    pub fn use_var(&mut self, var: Variable) -> (value: Value)
        requires
            old(self).wf(),
            old(self)@.legal(OpView::UseVar(var)),
        ensures
            final(self).wf(),
            final(self)@ == old(self)@.step(OpView::UseVar(var)),
            value == old(self)@.next_value(),
            value.0 == old(self)@.values.len(),
            old(self)@.can_emit() ==> old(self)@.advances_to(final(self)@),
            final(self)@.variables == old(self)@.variables,
            final(self)@.has_value(value),
            final(self)@.value_type(value) == old(self)@.variables[var],
    {
        let value = Value(self.values);
        self.emit(Op::UseVar(var));
        value
    }

    /// Emits an integer constant.
    pub fn ins_iconst(&mut self, imm: i32) -> (value: Value)
        requires
            old(self).wf(),
            old(self)@.legal(OpView::Iconst(imm)),
        ensures
            final(self).wf(),
            final(self)@ == old(self)@.step(OpView::Iconst(imm)),
            value == old(self)@.next_value(),
            value.0 == old(self)@.values.len(),
            old(self)@.can_emit() ==> old(self)@.advances_to(final(self)@),
            final(self)@.variables == old(self)@.variables,
            final(self)@.has_value(value),
            final(self)@.value_type(value) == Type::I32,
    {
        let value = Value(self.values);
        self.emit(Op::Iconst(imm));
        value
    }

    /// Emits a two-operand integer instruction.
    pub fn ins_binary(&mut self, op: BinaryOp, a: Value, b: Value) -> (value: Value)
        requires
            old(self).wf(),
            old(self)@.legal(OpView::Binary(op, a, b)),
        ensures
            final(self).wf(),
            final(self)@ == old(self)@.step(OpView::Binary(op, a, b)),
            value == old(self)@.next_value(),
            value.0 == old(self)@.values.len(),
            old(self)@.can_emit() ==> old(self)@.advances_to(final(self)@),
            final(self)@.variables == old(self)@.variables,
            final(self)@.has_value(value),
            final(self)@.value_type(value) == Type::I32,
    {
        let value = Value(self.values);
        self.emit(Op::Binary(op, a, b));
        value
    }

    /// Emits a comparison of two integers.
    pub fn ins_compare(&mut self, cc: IntCC, a: Value, b: Value) -> (value: Value)
        requires
            old(self).wf(),
            old(self)@.legal(OpView::Compare(cc, a, b)),
        ensures
            final(self).wf(),
            final(self)@ == old(self)@.step(OpView::Compare(cc, a, b)),
            value == old(self)@.next_value(),
            value.0 == old(self)@.values.len(),
            old(self)@.can_emit() ==> old(self)@.advances_to(final(self)@),
            final(self)@.variables == old(self)@.variables,
            final(self)@.has_value(value),
            final(self)@.value_type(value) == Type::B1,
    {
        let value = Value(self.values);
        self.emit(Op::Compare(cc, a, b));
        value
    }

    /// Emits the widening of a truth value to 0 or 1.
    pub fn ins_bint(&mut self, v: Value) -> (value: Value)
        requires
            old(self).wf(),
            old(self)@.legal(OpView::Bint(v)),
        ensures
            final(self).wf(),
            final(self)@ == old(self)@.step(OpView::Bint(v)),
            value == old(self)@.next_value(),
            value.0 == old(self)@.values.len(),
            old(self)@.can_emit() ==> old(self)@.advances_to(final(self)@),
            final(self)@.variables == old(self)@.variables,
            final(self)@.has_value(value),
            final(self)@.value_type(value) == Type::I32,
    {
        let value = Value(self.values);
        self.emit(Op::Bint(v));
        value
    }

    /// Emits a branch to `block` taken when `cond` is zero.
    pub fn ins_brz(&mut self, cond: Value, block: Block, args: Vec<Value>)
        requires
            old(self).wf(),
            old(self)@.legal(OpView::Brz(cond, block, args@)),
        ensures
            final(self).wf(),
            final(self)@ == old(self)@.step(OpView::Brz(cond, block, args@)),
            final(self)@.variables == old(self)@.variables,
    {
        self.emit(Op::Brz(cond, block, args));
    }

    /// Emits a jump to `block`, which ends the current block.
    pub fn ins_jump(&mut self, block: Block, args: Vec<Value>)
        requires
            old(self).wf(),
            old(self)@.legal(OpView::Jump(block, args@)),
        ensures
            final(self).wf(),
            final(self)@ == old(self)@.step(OpView::Jump(block, args@)),
            final(self)@.variables == old(self)@.variables,
    {
        self.emit(Op::Jump(block, args));
    }

    /// Makes a declared function callable from this function.
    pub fn import_function(&mut self, func: FuncId, signature: Signature) -> (callee: FuncRef)
        requires
            old(self).wf(),
        ensures
            final(self).wf(),
            final(self)@ == old(self)@.step(OpView::ImportFunction(func, signature@)),
            callee == old(self)@.next_func_ref(),
            callee.0 == old(self)@.func_refs.len(),
            old(self)@.can_emit() ==> old(self)@.advances_to(final(self)@),
            final(self)@.variables == old(self)@.variables,
    {
        let callee = FuncRef(self.func_refs);
        self.emit(Op::ImportFunction(func, signature));
        callee
    }

    /// Emits a call; the value is the call's single result.
    pub fn ins_call(&mut self, callee: FuncRef, args: Vec<Value>) -> (value: Value)
        requires
            old(self).wf(),
            old(self)@.legal(OpView::Call(callee, args@)),
        ensures
            final(self).wf(),
            final(self)@ == old(self)@.step(OpView::Call(callee, args@)),
            value == old(self)@.next_value(),
            value.0 == old(self)@.values.len(),
            old(self)@.can_emit() ==> old(self)@.advances_to(final(self)@),
            final(self)@.variables == old(self)@.variables,
            final(self)@.has_value(value),
            final(self)@.value_type(value) == old(self)@.func_refs[callee.0 as int].results[0],
    {
        let value = Value(self.values);
        self.emit(Op::Call(callee, args));
        value
    }

    /// Emits a return, which ends the current block.
    pub fn ins_return(&mut self, vals: Vec<Value>)
        requires
            old(self).wf(),
            old(self)@.legal(OpView::Return(vals@)),
        ensures
            final(self).wf(),
            final(self)@ == old(self)@.step(OpView::Return(vals@)),
            final(self)@.variables == old(self)@.variables,
    {
        self.emit(Op::Return(vals));
    }

    /// Ends the construction and hands out the function.
    pub fn finalize(self) -> (ir: FunctionIR)
        requires
            self.wf(),
            self@.finished(),
        ensures
            ir.wf(),
            ir.signature@ == self@.signature,
            ir.code() == self@.code,
    {
        FunctionIR { signature: self.signature, ops: self.ops }
    }
}

} // verus!
