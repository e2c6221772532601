//! The global laws of the simulation, stated and proved once for every
//! reachable state.

use vstd::prelude::*;
use crate::idmap::has_key;
use crate::idmap::lemma_has_key;
use crate::protocol::SharkBehavior;
use crate::protocol::shark_erosion_target;
use crate::protocol::shark_timer;
use crate::state::State;

verus! {

/// In every well-formed world, the alive-player id set is a subset of the
/// currently registered connection ids: a player can only be alive on a
/// live connection.
pub proof fn lemma_alive_subset_of_conns(s: State, id: u64)
    requires
        s.wf(),
        has_key(s.player_pos@, id),
    ensures
        s.conns@.contains(id),
{
    lemma_has_key(s.player_pos@, id);
    let j = choose|j: int| 0 <= j < s.player_pos@.len() && (#[trigger] s.player_pos@[j]).0 == id;
    assert(s.conns@.contains(s.player_pos@[j].0));
}

/// A predator's elapsed-erosion timer is present exactly when a confirmed
/// erosion-target tile is present: both exist only in the eroding state,
/// so no predator can count erosion time without a target, or hold a
/// confirmed target without counting. (That the timer advances only while
/// the tile remains on the platform is part of the step contract,
/// [`crate::state::State::shark_step`].)
pub proof fn lemma_erosion_timer_iff_target(b: SharkBehavior)
    ensures
        shark_timer(b) is Some <==> shark_erosion_target(b) is Some,
{
}

} // verus!
