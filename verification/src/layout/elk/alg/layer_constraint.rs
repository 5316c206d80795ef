//! Layer constraints inferred for the nodes connected to a hidden node.

use vstd::prelude::*;
use crate::layout::elk::alg::options::LayerConstraint;

verus! {

/// What a node connected to hidden nodes of the constraints `prev` and
/// `add` is constrained to.
pub open spec fn combined(prev: LayerConstraint, add: LayerConstraint) -> LayerConstraint {
    if prev == LayerConstraint::NoConstraint {
        add
    } else if prev == add {
        prev
    } else {
        LayerConstraint::NoConstraint
    }
}

/// Unconstrained takes the added constraint; the same constraint stays;
/// a node connected to two different kinds gets no constraint.
pub fn combine(prev: LayerConstraint, add: LayerConstraint) -> (r: LayerConstraint)
    ensures
        r == combined(prev, add),
{
    match prev {
        LayerConstraint::NoConstraint => add,
        p if p == add => p,
        _ => LayerConstraint::NoConstraint,
    }
}

/// Adding the constraint a node already has changes nothing, the first
/// constraint added to an unconstrained node is taken as it is, and the
/// result is always unconstrained or one of the two inputs.
pub proof fn lemma_combine_cases(prev: LayerConstraint, add: LayerConstraint)
    ensures
        combined(add, add) == add,
        combined(LayerConstraint::NoConstraint, add) == add,
        combined(prev, add) == prev || combined(prev, add) == add || combined(prev, add)
            == LayerConstraint::NoConstraint,
{
}

} // verus!
