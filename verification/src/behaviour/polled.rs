//! What comes of looking at a part of the network.
use vstd::prelude::*;

verus! {

/// What came of looking at a part of the network: nothing yet, an event, or an action
/// for the network that is passed on.
#[derive(Debug)]
pub enum Polled<E, P> {
    Pending,
    Event(E),
    Forward(P),
}

} // verus!
