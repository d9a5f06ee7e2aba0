//! When two boards are the same board.

use crate::node::Node;
use vstd::prelude::*;

verus! {

impl PartialEq for Node {
    /// Two boards are equal when they hold the same labels in the same
    /// order; the priority is not looked at.
    fn eq(&self, other: &Node) -> (res: bool) {
        self.same_state(other)
    }
}

impl Eq for Node {

}

impl vstd::std_specs::cmp::PartialEqSpecImpl for Node {
    open spec fn obeys_eq_spec() -> bool {
        true
    }

    open spec fn eq_spec(&self, other: &Node) -> bool {
        self.state@ == other.state@
    }
}

} // verus!
