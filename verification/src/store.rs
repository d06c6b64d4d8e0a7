use vstd::prelude::*;

verus! {

/// The stable logical identifier of a record in the primary store.
#[derive(Clone, Copy, Debug, PartialEq, Eq, PartialOrd, Ord, Hash, Structural)]
pub struct RecordId(pub u64);

} // verus!
