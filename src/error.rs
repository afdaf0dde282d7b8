use vstd::prelude::*;

verus! {

/// Everything that can end a run before a verdict is reached.
#[derive(Debug, Clone, PartialEq, Eq)]
pub enum Error {
    /// The text does not follow the grammar; `pos` is the byte offset.
    Syntax { pos: usize },
    /// A second inventory declaration of an item whose inventory is non-zero.
    DuplicateItem(Vec<u8>),
    /// A second request of an item whose request is non-zero.
    DuplicateRequest(Vec<u8>),
    /// A second recipe with the same name.
    DuplicateRecipe(Vec<u8>),
    /// An item listed twice in one input or output set.
    DuplicateInSet(Vec<u8>),
    /// The named item lies on a cycle of the dependency graph.
    CyclicItem(Vec<u8>),
    /// The named recipe lies on a cycle of the dependency graph.
    CyclicRecipe(Vec<u8>),
    /// The oracle returned a model that does not fit the problem.
    OracleFault,
}

} // verus!
