use vstd::prelude::*;

verus! {

/// The class of a labelled reference transaction.
#[derive(Debug, Clone, Copy, PartialEq, Eq, Structural)]
pub enum ReferenceLabel {
    Fraud,
    Legit,
}

} // verus!
