//! Compile units: the declarations made so far, and the lowering of one
//! function after another against them.

use vstd::prelude::*;
use vstd::pervasive::unreached;
use crate::ast::Expr;
use crate::builder::{BuilderState, FunctionBuilder, FunctionIR};
use crate::preservation::{computes, law_lowering_preserves_meaning};
use crate::ir::{
    integer_signature,
    integers,
    Block,
    FuncId,
    Linkage,
    OpView,
    Signature,
    Type,
    Value,
    Variable,
};
use crate::lowering::{entry_params, lower_function, open_function, Failure};
use crate::module::{declare, DeclView, Module};
use crate::names::texts;
use crate::sealing::{law_sealed_after_predecessors, sealed_after_predecessors};
use crate::translate::{FunctionTranslator, TranslateError};
use crate::variables::declare_variables;

verus! {

/// A compiled function: its handle in the module, and its body.
#[derive(Debug)]
pub struct Compiled {
    pub id: FuncId,
    pub function: FunctionIR,
}

/// The outcome of compiling a function: the module afterwards, and the
/// function's handle and steps, or the reason why it failed.
pub struct CompiledView {
    pub module: Seq<DeclView>,
    pub result: Result<(FuncId, Seq<OpView>), Failure>,
}

/// Compiling a function: it is lowered, then declared under its name for
/// export, with one integer parameter for each of its parameters and one
/// integer result. Where the lowering fails nothing more is declared; the
/// declarations that the lowering made stay in either case.
pub open spec fn compile_function(
    module: Seq<DeclView>,
    name: Seq<char>,
    params: Seq<Seq<char>>,
    the_return: Seq<char>,
    stmts: Seq<Expr>,
) -> CompiledView {
    let lowered = lower_function(module, params, the_return, stmts);
    let declared = declare(
        lowered.state.module,
        name,
        Linkage::Export,
        integer_signature(params.len()),
    );
    match (lowered.result, declared.id) {
        (Err(failure), _) => CompiledView { module: lowered.state.module, result: Err(failure) },
        (Ok(_), None) => CompiledView {
            module: lowered.state.module,
            result: Err(Failure::IncompatibleDeclaration(name)),
        },
        (Ok(_), Some(id)) => CompiledView {
            module: declared.decls,
            result: Ok((id, lowered.state.builder.code)),
        },
    }
}

/// A compile unit.
pub struct JIT {
    module: Module,
}

impl View for JIT {
    type V = Seq<DeclView>;

    closed spec fn view(&self) -> Seq<DeclView> {
        self.module@
    }
}

impl JIT {
    /// No name is declared twice.
    pub closed spec fn wf(&self) -> bool {
        self.module.wf()
    }

    /// A compile unit without declarations.
    pub fn new() -> (jit: JIT)
        ensures
            jit.wf(),
            jit@ == Seq::<DeclView>::empty(),
    {
        JIT { module: Module::new() }
    }

    /// The declarations made so far.
    pub fn module(&self) -> (module: &Module)
        ensures
            module@ == self@,
    {
        &self.module
    }

    /// Compiles one function: lowers it and declares it under `name`.
    pub fn compile(
        &mut self,
        name: &str,
        params: Vec<String>,
        the_return: String,
        stmts: Vec<Expr>,
    ) -> (res: Result<Compiled, TranslateError>)
        requires
            old(self).wf(),
        ensures
            final(self).wf(),
            ({
                let compiled = compile_function(
                    old(self)@,
                    name@,
                    texts(params@),
                    the_return@,
                    stmts@,
                );
                match res {
                    Ok(done) => {
                        &&& compiled.result == Ok::<(FuncId, Seq<OpView>), Failure>(
                            (done.id, done.function.code()),
                        )
                        &&& final(self)@ == compiled.module
                        &&& (done.id.0 as int) < final(self)@.len()
                        &&& done.function.wf()
                        &&& done.function.signature@ == integer_signature(params@.len())
                        &&& sealed_after_predecessors(done.function.code())
                        &&& params@.len() < usize::MAX ==> computes(
                            done.function.signature@,
                            done.function.code(),
                            texts(params@),
                            the_return@,
                            stmts@,
                        )
                    },
                    Err(e) => {
                        &&& compiled.result == Err::<(FuncId, Seq<OpView>), Failure>(e@)
                        &&& final(self)@ == compiled.module
                    },
                }
            }),
    {
        let function = match self.translate(params, the_return, stmts) {
            Ok(function) => function,
            Err(e) => {
                return Err(e);
            },
        };
        let id = match self.module.declare_function(
            name,
            Linkage::Export,
            function.signature.copy(),
        ) {
            Ok(id) => id,
            Err(_) => {
                return Err(TranslateError::IncompatibleDeclaration(name.to_owned()));
            },
        };
        Ok(Compiled { id, function })
    }

    /// Lowers one function to its intermediate form. Callees are declared
    /// in the unit's module as the lowering meets them.
    pub fn translate(&mut self, params: Vec<String>, the_return: String, stmts: Vec<Expr>) -> (res:
        Result<FunctionIR, TranslateError>)
        requires
            old(self).wf(),
        ensures
            final(self).wf(),
            ({
                let lowered = lower_function(old(self)@, texts(params@), the_return@, stmts@);
                &&& final(self)@ == lowered.state.module
                &&& match res {
                    Ok(function) => {
                        &&& lowered.result is Ok
                        &&& function.code() == lowered.state.builder.code
                        &&& function.signature@ == integer_signature(params@.len())
                        &&& function.wf()
                        &&& sealed_after_predecessors(function.code())
                        &&& params@.len() < usize::MAX ==> computes(
                            function.signature@,
                            function.code(),
                            texts(params@),
                            the_return@,
                            stmts@,
                        )
                    },
                    Err(e) => lowered.result == Err::<(), Failure>(e@),
                }
            }),
    {
        let mut builder = FunctionBuilder::new(Signature::integers(params.len()));
        let entry_block = builder.create_block();
        let ghost created = builder@;
        let mut i: usize = 0;
        while i < params.len()
            invariant
                i <= params.len(),
                builder.wf(),
                created == BuilderState::new(integer_signature(params@.len())).step(
                    OpView::CreateBlock,
                ),
                entry_block == Block(0),
                builder@ == entry_params(created, entry_block, i as nat),
                builder@.signature == integer_signature(params@.len()),
                builder@.current is None,
                builder@.variables == Map::<Variable, Type>::empty(),
                builder@.func_refs.len() == 0,
                builder@.blocks.len() == 1,
                builder@.block(entry_block).pristine,
                !builder@.block(entry_block).filled,
                !builder@.block(entry_block).sealed,
                builder@.block(entry_block).predecessors == 0,
                builder@.fit(builder@.block(entry_block).params, integers(i as nat)),
            decreases params.len() - i,
        {
            let ghost before = builder@;
            builder.append_block_param(entry_block, Type::I32);
            proof {
                let now = builder@;
                let added = before.next_value();
                assert(now.block(entry_block).params == before.block(entry_block).params.push(
                    added,
                ));
                assert forall|k: int| 0 <= k < now.block(entry_block).params.len() implies now.has_value(
                    #[trigger] now.block(entry_block).params[k],
                ) && now.value_type(now.block(entry_block).params[k]) == integers(
                    (i + 1) as nat,
                )[k] by {
                    if k < i {
                        assert(before.has_value(before.block(entry_block).params[k]));
                    }
                }
            }
            i = i + 1;
        }
        builder.switch_to_block(entry_block);
        let variables = declare_variables(
            &mut builder,
            &params,
            the_return.as_str(),
            &stmts,
            entry_block,
        );
        builder.seal_block(entry_block);
        let ghost sealed = builder@;
        let mut module = Module::new();
        core::mem::swap(&mut self.module, &mut module);
        let mut trans = FunctionTranslator { builder, variables, module };
        let lowered = trans.translate_each(&stmts);
        let FunctionTranslator { mut builder, variables, module } = trans;
        self.module = module;
        match lowered {
            Err(e) => Err(e),
            Ok(_) => {
                let ghost lowered_state = builder@;
                let return_variable = match variables.get(the_return.as_str()) {
                    Some(variable) => variable,
                    None => unreached(),
                };
                let return_value = builder.use_var(return_variable);
                let mut results: Vec<Value> = Vec::new();
                results.push(return_value);
                assert(results@ =~= seq![return_value]);
                let ghost read = builder@;
                builder.ins_return(results);
                proof {
                    let done = builder@;
                    assert forall|b: int| 0 <= b < done.blocks.len() implies (
                    #[trigger] done.blocks[b]).sealed && done.blocks[b].filled by {
                        assert(read.blocks[b] == lowered_state.blocks[b]);
                    }
                    builder.lemma_history();
                    builder.lemma_bounded();
                    variables.lemma_bounded();
                    law_sealed_after_predecessors(done.signature, done.code);
                    let lowered = lower_function(
                        old(self)@,
                        texts(params@),
                        the_return@,
                        stmts@,
                    );
                    assert(lowered.state.builder == done);
                    assert(open_function(old(self)@, texts(params@), the_return@, stmts@).variables
                        == variables@);
                    if params@.len() < usize::MAX {
                        law_lowering_preserves_meaning(
                            old(self)@,
                            texts(params@),
                            the_return@,
                            stmts@,
                        );
                    }
                }
                Ok(builder.finalize())
            },
        }
    }
}

} // verus!
