use vstd::prelude::*;

verus! {

/// A value put in the context in which it holds.
pub struct Contextual<Ctx, Val> {
    pub context: Ctx,
    pub value: Val,
}

} // verus!
