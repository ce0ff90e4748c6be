//! Names as sequences of characters, and tables of distinct names.

use vstd::prelude::*;

verus! {

/// The names as sequences of characters.
pub open spec fn texts(names: Seq<String>) -> Seq<Seq<char>> {
    Seq::new(names.len(), |i: int| names[i]@)
}

/// No name occurs twice.
pub open spec fn distinct(names: Seq<Seq<char>>) -> bool {
    forall|i: int, j: int| 0 <= i < j < names.len() ==> names[i] != names[j]
}

/// Whether `name` is at position `i` of `names`.
pub open spec fn at(names: Seq<Seq<char>>, name: Seq<char>, i: int) -> bool {
    0 <= i < names.len() && names[i] == name
}

/// A position of `name` in `names`, if it has one.
pub open spec fn position(names: Seq<Seq<char>>, name: Seq<char>) -> Option<int> {
    if exists|i: int| at(names, name, i) {
        Some(choose|i: int| at(names, name, i))
    } else {
        None
    }
}

/// Among distinct names, the position of a name is the one place that
/// holds it.
pub(crate) proof fn lemma_position_at(names: Seq<Seq<char>>, name: Seq<char>, i: int)
    requires
        distinct(names),
        at(names, name, i),
    ensures
        position(names, name) == Some(i),
{
    let j = choose|j: int| at(names, name, j);
    if i < j {
        assert(names[i] != names[j]);
    }
    if j < i {
        assert(names[j] != names[i]);
    }
}

/// Adding a name that has no position keeps the names distinct.
pub(crate) proof fn lemma_distinct_push(names: Seq<Seq<char>>, name: Seq<char>)
    requires
        distinct(names),
        position(names, name) is None,
    ensures
        distinct(names.push(name)),
{
    let longer = names.push(name);
    assert forall|i: int, j: int| 0 <= i < j < longer.len() implies longer[i] != longer[j] by {
        if j == names.len() {
            assert(!at(names, name, i));
        }
    }
}

} // verus!
