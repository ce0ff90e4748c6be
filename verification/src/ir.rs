//! The vocabulary of the intermediate form: handles, types, signatures and
//! the steps by which a function is put together.

use vstd::prelude::*;

verus! {

/// The type of a value.
#[derive(Clone, Copy, Debug, PartialEq, Eq, Structural)]
pub enum Type {
    /// A 32-bit integer, the language's only type of number.
    I32,
    /// A truth value, as a comparison produces it.
    B1,
}

/// Handle of the result of one step. Values are numbered from zero in the
/// order in which they are defined.
#[derive(Clone, Copy, Debug, PartialEq, Eq, Structural)]
pub struct Value(pub usize);

/// Handle of a basic block, numbered from zero in order of creation.
#[derive(Clone, Copy, Debug, PartialEq, Eq, Structural)]
pub struct Block(pub usize);

/// The identity of a source-level variable within one function.
#[derive(Clone, Copy, Debug, PartialEq, Eq, Structural)]
pub struct Variable(pub usize);

/// Handle of a function declared in a module.
#[derive(Clone, Copy, Debug, PartialEq, Eq, Structural)]
pub struct FuncId(pub usize);

/// Handle of a declared function made callable inside the function under
/// construction, numbered from zero in order of import.
#[derive(Clone, Copy, Debug, PartialEq, Eq, Structural)]
pub struct FuncRef(pub usize);

/// Condition of an integer comparison. Orderings are signed.
#[derive(Clone, Copy, Debug, PartialEq, Eq, Structural)]
pub enum IntCC {
    Equal,
    NotEqual,
    SignedLessThan,
    SignedLessThanOrEqual,
    SignedGreaterThan,
    SignedGreaterThanOrEqual,
}

/// A two-operand integer instruction.
#[derive(Clone, Copy, Debug, PartialEq, Eq, Structural)]
pub enum BinaryOp {
    /// Wrapping addition.
    Iadd,
    /// Wrapping subtraction.
    Isub,
    /// Wrapping multiplication.
    Imul,
    /// Unsigned division; traps on a zero divisor.
    Udiv,
}

/// How a declared function is visible outside its module.
#[derive(Clone, Copy, Debug, PartialEq, Eq, Structural)]
pub enum Linkage {
    /// Defined elsewhere.
    Import,
    /// Defined here, visible here only.
    Local,
    /// Defined here, visible to others.
    Export,
}

/// Parameter types and result types of a function or a call target.
#[derive(Debug, PartialEq, Eq)]
pub struct Signature {
    pub params: Vec<Type>,
    pub results: Vec<Type>,
}

/// A signature as a pair of sequences.
pub struct SignatureView {
    pub params: Seq<Type>,
    pub results: Seq<Type>,
}

impl View for Signature {
    type V = SignatureView;

    open spec fn view(&self) -> SignatureView {
        SignatureView { params: self.params@, results: self.results@ }
    }
}

/// `count` integer types.
pub open spec fn integers(count: nat) -> Seq<Type> {
    Seq::new(count, |i: int| Type::I32)
}

/// The signature of every function of the language: `arity` integers in,
/// one integer out.
pub open spec fn integer_signature(arity: nat) -> SignatureView {
    SignatureView { params: integers(arity), results: integers(1) }
}

fn copy_types(types: &Vec<Type>) -> (out: Vec<Type>)
    ensures
        out@ == types@,
{
    let mut out: Vec<Type> = Vec::new();
    let mut i: usize = 0;
    while i < types.len()
        invariant
            i <= types.len(),
            out@ == types@.take(i as int),
        decreases types.len() - i,
    {
        out.push(types[i]);
        assert(types@.take(i as int).push(types@[i as int]) =~= types@.take(i + 1));
        i = i + 1;
    }
    assert(types@.take(types.len() as int) =~= types@);
    out
}

fn same_types(a: &Vec<Type>, b: &Vec<Type>) -> (same: bool)
    ensures
        same == (a@ == b@),
{
    if a.len() != b.len() {
        return false;
    }
    let mut i: usize = 0;
    while i < a.len()
        invariant
            i <= a.len(),
            a.len() == b.len(),
            forall|k: int| 0 <= k < i ==> a@[k] == b@[k],
        decreases a.len() - i,
    {
        if a[i] != b[i] {
            return false;
        }
        i = i + 1;
    }
    assert(a@ =~= b@);
    true
}

impl Signature {
    /// The signature with `arity` integer parameters and one integer result.
    pub fn integers(arity: usize) -> (sig: Signature)
        ensures
            sig@ == integer_signature(arity as nat),
    {
        let mut params: Vec<Type> = Vec::new();
        let mut i: usize = 0;
        while i < arity
            invariant
                i <= arity,
                params@ == integers(i as nat),
            decreases arity - i,
        {
            params.push(Type::I32);
            assert(params@ =~= integers((i + 1) as nat));
            i = i + 1;
        }
        let mut results: Vec<Type> = Vec::new();
        results.push(Type::I32);
        assert(results@ =~= integers(1));
        Signature { params, results }
    }

    /// A signature with the same parameter and result types.
    pub fn copy(&self) -> (sig: Signature)
        ensures
            sig@ == self@,
    {
        Signature { params: copy_types(&self.params), results: copy_types(&self.results) }
    }

    /// Whether two signatures list the same types in the same order.
    pub fn same_as(&self, other: &Signature) -> (same: bool)
        ensures
            same == (self@ == other@),
    {
        same_types(&self.params, &other.params) && same_types(&self.results, &other.results)
    }
}

/// One step in the construction of a function. A function in intermediate
/// form is the list of its steps in the order in which they were taken.
#[derive(Debug, PartialEq, Eq)]
pub enum Op {
    /// Create the next block.
    CreateBlock,
    /// Give a block one more entry parameter; defines the parameter's value.
    AppendBlockParam(Block, Type),
    /// Make a block the one that instructions are added to.
    SwitchToBlock(Block),
    /// Declare that every jump and branch to a block has been emitted.
    SealBlock(Block),
    /// Declare a variable with its type.
    DeclareVar(Variable, Type),
    /// Rebind a variable to a value.
    DefVar(Variable, Value),
    /// Read a variable's current binding; defines a value.
    UseVar(Variable),
    /// An integer constant; defines a value.
    Iconst(i32),
    /// A two-operand integer instruction; defines a value.
    Binary(BinaryOp, Value, Value),
    /// A comparison of two integers; defines a truth value.
    Compare(IntCC, Value, Value),
    /// Widen a truth value to the integer 0 or 1; defines a value.
    Bint(Value),
    /// Branch to a block if the value is zero, else fall through.
    Brz(Value, Block, Vec<Value>),
    /// Jump to a block; ends the current block.
    Jump(Block, Vec<Value>),
    /// Make a declared function callable; defines the next `FuncRef`.
    ImportFunction(FuncId, Signature),
    /// Call with arguments; defines a value, the call's single result.
    Call(FuncRef, Vec<Value>),
    /// Return from the function; ends the current block.
    Return(Vec<Value>),
}

/// A step with sequences in place of vectors.
pub enum OpView {
    CreateBlock,
    AppendBlockParam(Block, Type),
    SwitchToBlock(Block),
    SealBlock(Block),
    DeclareVar(Variable, Type),
    DefVar(Variable, Value),
    UseVar(Variable),
    Iconst(i32),
    Binary(BinaryOp, Value, Value),
    Compare(IntCC, Value, Value),
    Bint(Value),
    Brz(Value, Block, Seq<Value>),
    Jump(Block, Seq<Value>),
    ImportFunction(FuncId, SignatureView),
    Call(FuncRef, Seq<Value>),
    Return(Seq<Value>),
}

impl View for Op {
    type V = OpView;

    open spec fn view(&self) -> OpView {
        match *self {
            Op::CreateBlock => OpView::CreateBlock,
            Op::AppendBlockParam(b, t) => OpView::AppendBlockParam(b, t),
            Op::SwitchToBlock(b) => OpView::SwitchToBlock(b),
            Op::SealBlock(b) => OpView::SealBlock(b),
            Op::DeclareVar(v, t) => OpView::DeclareVar(v, t),
            Op::DefVar(v, x) => OpView::DefVar(v, x),
            Op::UseVar(v) => OpView::UseVar(v),
            Op::Iconst(n) => OpView::Iconst(n),
            Op::Binary(op, a, b) => OpView::Binary(op, a, b),
            Op::Compare(cc, a, b) => OpView::Compare(cc, a, b),
            Op::Bint(x) => OpView::Bint(x),
            Op::Brz(c, b, args) => OpView::Brz(c, b, args@),
            Op::Jump(b, args) => OpView::Jump(b, args@),
            Op::ImportFunction(f, sig) => OpView::ImportFunction(f, sig@),
            Op::Call(f, args) => OpView::Call(f, args@),
            Op::Return(vals) => OpView::Return(vals@),
        }
    }
}

/// The views of a list of steps, in order.
pub open spec fn views(ops: Seq<Op>) -> Seq<OpView> {
    Seq::new(ops.len(), |i: int| ops[i]@)
}

} // verus!
