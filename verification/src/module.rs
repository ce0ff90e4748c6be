//! The functions that a compile unit has declared, by name.

use vstd::prelude::*;
use crate::ir::{FuncId, Linkage, Signature, SignatureView};
use crate::names::{at, distinct, lemma_distinct_push, lemma_position_at, position};

verus! {

/// One declared function.
#[derive(Debug)]
pub struct FunctionDecl {
    pub name: String,
    pub linkage: Linkage,
    pub signature: Signature,
}

/// A declaration with sequences in place of strings and vectors.
pub struct DeclView {
    pub name: Seq<char>,
    pub linkage: Linkage,
    pub signature: SignatureView,
}

impl View for FunctionDecl {
    type V = DeclView;

    open spec fn view(&self) -> DeclView {
        DeclView { name: self.name@, linkage: self.linkage, signature: self.signature@ }
    }
}

/// The views of a list of declarations, in order.
pub open spec fn decl_views(decls: Seq<FunctionDecl>) -> Seq<DeclView> {
    Seq::new(decls.len(), |i: int| decls[i]@)
}

/// The declared names, in order of declaration.
pub open spec fn names_of(decls: Seq<DeclView>) -> Seq<Seq<char>> {
    Seq::new(decls.len(), |i: int| decls[i].name)
}

/// The outcome of a declaration: the table afterwards, and the function's
/// handle unless the declaration was refused.
pub struct Declared {
    pub decls: Seq<DeclView>,
    pub id: Option<FuncId>,
}

/// Declaring a function. A new name is added and gets the next handle. A
/// name declared before with the same signature keeps its handle and its
/// declaration. A name declared before with another signature is refused,
/// and the table stays as it was.
pub open spec fn declare(
    decls: Seq<DeclView>,
    name: Seq<char>,
    linkage: Linkage,
    signature: SignatureView,
) -> Declared {
    match position(names_of(decls), name) {
        Some(i) => Declared {
            decls,
            id: if decls[i].signature == signature {
                Some(FuncId(i as usize))
            } else {
                None
            },
        },
        None => Declared {
            decls: decls.push(DeclView { name, linkage, signature }),
            id: Some(FuncId(decls.len() as usize)),
        },
    }
}

/// A declaration keeps the names distinct and the table's entries where
/// they are.
proof fn lemma_declare_keeps(
    decls: Seq<DeclView>,
    name: Seq<char>,
    linkage: Linkage,
    signature: SignatureView,
)
    requires
        distinct(names_of(decls)),
    ensures
        distinct(names_of(declare(decls, name, linkage, signature).decls)),
        decls.len() <= declare(decls, name, linkage, signature).decls.len() <= decls.len() + 1,
        forall|i: int|
            0 <= i < decls.len() ==> declare(decls, name, linkage, signature).decls[i] == decls[i],
{
    let after = declare(decls, name, linkage, signature).decls;
    if position(names_of(decls), name) is None {
        assert(names_of(after) =~= names_of(decls).push(name));
        lemma_distinct_push(names_of(decls), name);
    }
}

/// A name that a declaration just accepted is declared, with the signature
/// given and under the handle returned.
proof fn lemma_declared(
    decls: Seq<DeclView>,
    name: Seq<char>,
    linkage: Linkage,
    signature: SignatureView,
)
    requires
        distinct(names_of(decls)),
        decls.len() <= usize::MAX,
        declare(decls, name, linkage, signature).id is Some,
    ensures
        ({
            let declared = declare(decls, name, linkage, signature);
            let i = declared.id->Some_0.0 as int;
            &&& 0 <= i < declared.decls.len()
            &&& declared.decls[i].name == name
            &&& declared.decls[i].signature == signature
        }),
{
    if position(names_of(decls), name) is Some {
        let i = position(names_of(decls), name)->Some_0;
        assert(at(names_of(decls), name, i));
    }
}

/// The table after a series of declarations, each made whether or not the
/// one before it was accepted.
pub open spec fn declare_each(decls: Seq<DeclView>, requests: Seq<DeclView>) -> Seq<DeclView>
    decreases requests.len(),
{
    if requests.len() == 0 {
        decls
    } else {
        declare(
            declare_each(decls, requests.drop_last()),
            requests.last().name,
            requests.last().linkage,
            requests.last().signature,
        ).decls
    }
}

/// Declaring again what a declaration just accepted is accepted too, gives
/// the same handle, and leaves the table as the first declaration left it.
pub proof fn law_redeclaration_is_idempotent(
    decls: Seq<DeclView>,
    name: Seq<char>,
    linkage: Linkage,
    signature: SignatureView,
)
    requires
        distinct(names_of(decls)),
        decls.len() <= usize::MAX,
        declare(decls, name, linkage, signature).id is Some,
    ensures
        declare(declare(decls, name, linkage, signature).decls, name, linkage, signature)
            == declare(decls, name, linkage, signature),
{
    law_declaration_persists(decls, name, linkage, signature, Seq::empty());
}

/// A declaration that was accepted is accepted again with the same
/// signature, under the same handle and without a change to the table,
/// whatever was declared in between.
pub proof fn law_declaration_persists(
    decls: Seq<DeclView>,
    name: Seq<char>,
    linkage: Linkage,
    signature: SignatureView,
    requests: Seq<DeclView>,
)
    requires
        distinct(names_of(decls)),
        decls.len() <= usize::MAX,
        declare(decls, name, linkage, signature).id is Some,
    ensures
        ({
            let first = declare(decls, name, linkage, signature);
            let later = declare_each(first.decls, requests);
            &&& distinct(names_of(later))
            &&& first.decls.len() <= later.len()
            &&& forall|i: int| 0 <= i < first.decls.len() ==> later[i] == first.decls[i]
            &&& declare(later, name, linkage, signature).id == first.id
            &&& declare(later, name, linkage, signature).decls == later
        }),
    decreases requests.len(),
{
    let first = declare(decls, name, linkage, signature);
    let later = declare_each(first.decls, requests);
    lemma_declare_keeps(decls, name, linkage, signature);
    lemma_declared(decls, name, linkage, signature);
    let i = first.id->Some_0.0 as int;
    if requests.len() > 0 {
        let before = declare_each(first.decls, requests.drop_last());
        law_declaration_persists(decls, name, linkage, signature, requests.drop_last());
        lemma_declare_keeps(
            before,
            requests.last().name,
            requests.last().linkage,
            requests.last().signature,
        );
    }
    assert(at(names_of(later), name, i));
    lemma_position_at(names_of(later), name, i);
}

/// Why a module refused a declaration.
#[derive(Debug, PartialEq, Eq)]
pub enum ModuleError {
    /// The name is declared already, with another signature.
    IncompatibleSignature(String),
}

/// The declarations of one compile unit.
pub struct Module {
    decls: Vec<FunctionDecl>,
}

impl View for Module {
    type V = Seq<DeclView>;

    closed spec fn view(&self) -> Seq<DeclView> {
        decl_views(self.decls@)
    }
}

impl Module {
    /// No name is declared twice.
    pub open spec fn wf(&self) -> bool {
        distinct(names_of(self@))
    }

    /// A module without declarations.
    pub fn new() -> (module: Module)
        ensures
            module.wf(),
            module@ == Seq::<DeclView>::empty(),
    {
        let module = Module { decls: Vec::new() };
        assert(module@ =~= Seq::<DeclView>::empty());
        module
    }

    /// The number of declared functions.
    pub fn len(&self) -> (n: usize)
        ensures
            n == self@.len(),
    {
        self.decls.len()
    }

    /// The declaration behind a handle.
    pub fn declaration(&self, id: FuncId) -> (decl: &FunctionDecl)
        requires
            (id.0 as int) < self@.len(),
        ensures
            decl@ == self@[id.0 as int],
    {
        &self.decls[id.0]
    }

    /// Declares `name` with a linkage and a signature, or finds it declared.
    pub fn declare_function(&mut self, name: &str, linkage: Linkage, signature: Signature) -> (res:
        Result<FuncId, ModuleError>)
        requires
            old(self).wf(),
        ensures
            final(self).wf(),
            final(self)@ == declare(old(self)@, name@, linkage, signature@).decls,
            match res {
                Ok(id) => declare(old(self)@, name@, linkage, signature@).id == Some(id) && (id.0 as int)
                    < final(self)@.len(),
                Err(ModuleError::IncompatibleSignature(refused)) => declare(
                    old(self)@,
                    name@,
                    linkage,
                    signature@,
                ).id is None && refused@ == name@,
            },
    {
        let key = name.to_owned();
        let ghost names = names_of(self@);
        let mut i: usize = 0;
        while i < self.decls.len()
            invariant
                i <= self.decls.len(),
                self.wf(),
                *self == *old(self),
                names == names_of(self@),
                key@ == name@,
                forall|k: int| 0 <= k < i ==> !at(names, name@, k),
            decreases self.decls.len() - i,
        {
            if self.decls[i].name == key {
                proof {
                    assert(at(names, name@, i as int));
                    lemma_position_at(names, name@, i as int);
                }
                if self.decls[i].signature.same_as(&signature) {
                    return Ok(FuncId(i));
                } else {
                    return Err(ModuleError::IncompatibleSignature(key));
                }
            }
            i = i + 1;
        }
        let id = FuncId(self.decls.len());
        let ghost before = self@;
        self.decls.push(FunctionDecl { name: key, linkage, signature });
        proof {
            assert(self@ =~= before.push(
                DeclView { name: name@, linkage, signature: signature@ },
            ));
            assert(names_of(self@) =~= names.push(name@));
            lemma_distinct_push(names, name@);
        }
        Ok(id)
    }
}

} // verus!
