//! Front end of a small expression language: lowers a parsed function into
//! a listing of construction steps for a block-structured intermediate form.
//!
//! The lowering: `ast` is what it consumes, `ir` and `builder` what it
//! produces and how, `literal`, `names`, `variables` and `module` what it
//! looks things up in, `translate` and `jit` the lowering itself.
//!
//! What the lowering is: `lowering` states it as mathematics, `control` how
//! conditionals and loops shape the block graph.
//!
//! What holds of it: `sealing` and `terminators` of every listing, `scope` of
//! names and failures, `semantics` and `straight` of code without control
//! flow, `machine`, `meaning`, `growth` and `preservation` of whole
//! functions, `programs` of three small ones.

pub mod ast;
pub mod builder;
pub mod control;
pub mod growth;
pub mod ir;
pub mod jit;
pub mod literal;
pub mod lowering;
pub mod machine;
pub mod meaning;
pub mod module;
pub mod names;
pub mod preservation;
pub mod programs;
pub mod scope;
pub mod sealing;
pub mod semantics;
pub mod straight;
pub mod terminators;
pub mod translate;
pub mod variables;
