//! Counters accumulated over one whole search.
use vstd::prelude::*;

verus! {

/// Search statistics: how many nodes the driver visited and how many
/// literals unit propagation forced, both saturating at the type's maximum.
pub struct State {
    pub unit_propagation_counter: usize,
    pub node_counter: usize,
}

impl State {
    pub fn new() -> (r: State)
        ensures
            r.unit_propagation_counter == 0,
            r.node_counter == 0,
    {
        State { unit_propagation_counter: 0, node_counter: 0 }
    }
}

impl Default for State {
    fn default() -> (r: State)
        ensures
            r.unit_propagation_counter == 0,
            r.node_counter == 0,
    {
        State::new()
    }
}

} // verus!
