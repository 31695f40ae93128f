use vstd::prelude::*;

use crate::{ClientMsg, ServerMsg, ServerPlayer, WorldState, copy_bytes, copy_players, same_player, same_players};
use crate::grid::commands_valid;
use crate::grid::updates_valid;
use crate::server::{WorldServer, ai_count};

verus! {

/// One connected peer: the slots it owns, the last tick it acknowledged and
/// the last session state it saw.
pub struct ServerConnectionState {
    pub player_mappings: Vec<u8>,
    pub tick: u32,
    pub state: WorldState,
}

/// `m` is the world as this peer should see it; the delta and the options are
/// present exactly as asked.
pub open spec fn snapshot(
    m: ServerMsg,
    conn: ServerConnectionState,
    world: WorldServer,
    with_update: bool,
    with_options: bool,
) -> bool {
    &&& m.local_player_ids@ == conn.player_mappings@
    &&& same_players(m.players@, world.players@)
    &&& m.state == world.world_state
    &&& m.score@ == world.scores@
    &&& m.options == if with_options { Some(world.options) } else { None }
    &&& if with_update {
        m.grid_update matches Some(g) && g.tick == world.last_update.tick && g.hash == world.last_update.hash
            && g.updates@ == world.last_update.updates@
    } else {
        m.grid_update.is_none()
    }
}

/// A delta is owed: the world's last delta tick differs from what the peer acknowledged.
pub open spec fn tick_owed(conn: ServerConnectionState, world: WorldServer) -> bool {
    conn.tick != world.last_update.tick
}

/// Slots owned by a peer: existing, human-held and pairwise distinct.
pub open spec fn distinct_human_slots(slots: Seq<u8>, players: Seq<ServerPlayer>) -> bool {
    &&& forall|i: int| 0 <= i < slots.len() ==> (#[trigger] slots[i]) < players.len() && !players[slots[i] as int].is_ai
    &&& forall|i: int, j: int| 0 <= i < slots.len() && 0 <= j < slots.len() && i != j ==> #[trigger] slots[i] != #[trigger] slots[j]
}

fn same_roster_exec(a: &Vec<ServerPlayer>, b: &Vec<ServerPlayer>) -> (r: bool)
    ensures
        r == same_players(a@, b@),
{
    if a.len() != b.len() {
        return false;
    }
    let mut i: usize = 0;
    while i < a.len()
        invariant
            a@.len() == b@.len(),
            0 <= i <= a@.len(),
            forall|k: int| 0 <= k < i ==> same_player(#[trigger] a@[k], b@[k]),
        decreases a@.len() - i,
    {
        if a[i].name != b[i].name || a[i].ready != b[i].ready || a[i].is_ai != b[i].is_ai {
            return false;
        }
        i += 1;
    }
    true
}

fn same_bytes(a: &Vec<u8>, b: &Vec<u8>) -> (r: bool)
    ensures
        r == (a@ == b@),
{
    if a.len() != b.len() {
        return false;
    }
    let mut i: usize = 0;
    while i < a.len()
        invariant
            a@.len() == b@.len(),
            0 <= i <= a@.len(),
            forall|k: int| 0 <= k < i ==> a@[k] == b@[k],
        decreases a@.len() - i,
    {
        if a[i] != b[i] {
            return false;
        }
        i += 1;
    }
    assert(a@ =~= b@);
    true
}

impl ServerConnectionState {
    pub fn new() -> (r: Self)
        ensures
            r.player_mappings@.len() == 0,
            r.tick == 0,
            r.state == WorldState::Waiting,
    {
        ServerConnectionState { player_mappings: Vec::new(), tick: 0, state: WorldState::Waiting }
    }

    /// The slots this peer owns are distinct human-held slots of the world.
    pub open spec fn wf(&self, world: WorldServer) -> bool {
        distinct_human_slots(self.player_mappings@, world.players@)
    }

    /// Whether the slots this peer owns are distinct human-held slots of the world.
    pub fn owns_human_slots(&self, world: &WorldServer) -> (r: bool)
        ensures
            r == self.wf(*world),
    {
        let n = self.player_mappings.len();
        let mut i: usize = 0;
        while i < n
            invariant
                n == self.player_mappings@.len(),
                0 <= i <= n,
                forall|a: int| 0 <= a < i ==> (#[trigger] self.player_mappings@[a]) < world.players@.len()
                    && !world.players@[self.player_mappings@[a] as int].is_ai,
                forall|a: int, b: int| 0 <= a < i && 0 <= b < n && a != b ==> #[trigger] self.player_mappings@[a] != #[trigger] self.player_mappings@[b],
            decreases n - i,
        {
            let m = self.player_mappings[i];
            if m as usize >= world.players.len() || world.players[m as usize].is_ai {
                return false;
            }
            let mut j: usize = 0;
            while j < n
                invariant
                    n == self.player_mappings@.len(),
                    0 <= i < n,
                    0 <= j <= n,
                    m == self.player_mappings@[i as int],
                    forall|b: int| 0 <= b < j && b != i ==> self.player_mappings@[b] != m,
                decreases n - j,
            {
                if j != i && self.player_mappings[j] == m {
                    return false;
                }
                j += 1;
            }
            proof {
                assert forall|a: int, b: int| 0 <= a < i + 1 && 0 <= b < n && a != b implies #[trigger] self.player_mappings@[a]
                    != #[trigger] self.player_mappings@[b] by {
                    if a == i {
                        assert(self.player_mappings@[b] != m);
                    }
                }
            }
            i += 1;
        }
        true
    }

    fn snapshot_msg(&self, world: &WorldServer, with_update: bool, with_options: bool) -> (r: ServerMsg)
        ensures
            snapshot(r, *self, *world, with_update, with_options),
    {
        let grid_update = if with_update {
            Some(world.last_update.copy())
        } else {
            None
        };
        ServerMsg {
            local_player_ids: copy_bytes(&self.player_mappings),
            players: copy_players(&world.players),
            state: world.world_state,
            grid_update,
            options: if with_options {
                Some(world.options)
            } else {
                None
            },
            score: copy_bytes(&world.scores),
        }
    }

    /// Handles one message from the peer. New local players join (each takes
    /// the first AI-held slot), the peer's commands are buffered for the next
    /// tick (a delta with a command naming no slot or no unit heading is
    /// dropped), and its players' names, readiness and team requests apply.
    /// A reply is owed when someone joined, when the world's last delta tick
    /// differs from what the peer acknowledged, when the peer's session state
    /// is stale, or when the roster or the peer's slots changed; otherwise
    /// nothing is sent.
    pub fn on_msg(&mut self, msg: &ClientMsg, world: &mut WorldServer) -> (r: Option<ServerMsg>)
        requires
            old(world).wf(),
            old(self).wf(*old(world)),
            msg.players@.len() <= old(self).player_mappings@.len() + ai_count(old(world).players@),
        ensures
            final(world).wf(),
            final(self).wf(*final(world)),
            final(self).state == msg.state,
            final(self).tick == match msg.update {
                Some(u) => u.tick,
                None => old(self).tick,
            },
            final(world).last_update == old(world).last_update,
            final(world).world_state == old(world).world_state,
            final(world).grid@ == old(world).grid@,
            final(world).scores@ == old(world).scores@,
            final(world).options == old(world).options,
            final(world).next_update.tick == old(world).next_update.tick,
            final(world).next_update.updates@ == match msg.update {
                Some(u) => if old(world).world_state == WorldState::Playing && commands_valid(
                    u.updates@,
                    old(world).options.slots(),
                ) {
                    old(world).next_update.updates@ + u.updates@
                } else {
                    old(world).next_update.updates@
                },
                None => old(world).next_update.updates@,
            },
            final(self).player_mappings@.len() == if old(self).player_mappings@.len() < msg.players@.len() {
                msg.players@.len()
            } else {
                old(self).player_mappings@.len()
            },
            old(self).player_mappings@.len() < msg.players@.len() ==> r.is_some(),
            old(self).player_mappings@.len() >= msg.players@.len() ==> (r.is_some() <==> (tick_owed(
                *final(self),
                *final(world),
            ) || final(self).state != final(world).world_state || !same_players(
                old(world).players@,
                final(world).players@,
            ) || final(self).player_mappings@ != old(self).player_mappings@)),
            r matches Some(m) ==> snapshot(
                m,
                *final(self),
                *final(world),
                true,
                old(self).player_mappings@.len() < msg.players@.len(),
            ),
    {
        let mut send_response = false;
        let mut send_options = false;
        let mut i: usize = self.player_mappings.len();
        while i < msg.players.len()
            invariant
                world.wf(),
                self.wf(*world),
                old(self).player_mappings@.len() <= i,
                i <= msg.players@.len() ==> self.player_mappings@.len() == i,
                i > msg.players@.len() ==> i == old(self).player_mappings@.len() && self.player_mappings@.len() == i,
                msg.players@.len() <= i + ai_count(world.players@),
                world.last_update == old(world).last_update,
                world.world_state == old(world).world_state,
                world.options == old(world).options,
                world.grid@ == old(world).grid@,
                world.scores@ == old(world).scores@,
                world.next_update == old(world).next_update,
                self.tick == old(self).tick,
                send_options == (old(self).player_mappings@.len() < i),
                send_options == send_response,
                !send_options ==> world.players == old(world).players && self.player_mappings == old(self).player_mappings,
            decreases msg.players@.len() - i,
        {
            let ghost players_before = world.players@;
            let ghost before = self.player_mappings@;
            proof {
                crate::server::lemma_ai_count_first(players_before);
            }
            let id = world.join(&msg.players[i]);
            self.player_mappings.push(id);
            proof {
                assert forall|k: int| 0 <= k < self.player_mappings@.len() implies (#[trigger] self.player_mappings@[k])
                    < world.players@.len() && !world.players@[self.player_mappings@[k] as int].is_ai by {
                    if k < before.len() {
                        assert(self.player_mappings@[k] == before[k]);
                        assert(before[k] < players_before.len() && !players_before[before[k] as int].is_ai);
                        assert(before[k] != id);
                    }
                }
                assert forall|a: int, b: int|
                    0 <= a < self.player_mappings@.len() && 0 <= b < self.player_mappings@.len() && a != b implies #[trigger] self.player_mappings@[a]
                    != #[trigger] self.player_mappings@[b] by {
                    if a < before.len() && b < before.len() {
                        assert(before[a] != before[b]);
                    } else if a < before.len() {
                        assert(!players_before[before[a] as int].is_ai);
                    } else if b < before.len() {
                        assert(!players_before[before[b] as int].is_ai);
                    }
                }
            }
            send_response = true;
            send_options = true;
            i += 1;
        }
        match &msg.update {
            Some(update) => {
                self.tick = update.tick;
                if updates_valid(&update.updates, (world.options.teams * world.options.players) as usize) {
                    world.push_update(&update.updates);
                }
            },
            None => {},
        }
        self.state = msg.state;
        proof {
            assert(self.wf(*world)) by {
                assert forall|k: int| 0 <= k < self.player_mappings@.len() implies (#[trigger] self.player_mappings@[k])
                    < world.players@.len() && !world.players@[self.player_mappings@[k] as int].is_ai by {}
            }
        }
        let roster_before = copy_players(&world.players);
        let slots_before = copy_bytes(&self.player_mappings);
        let ghost mid_world = *world;
        let ghost mid_slots = self.player_mappings@;
        let mut j: usize = 0;
        while j < msg.players.len()
            invariant
                world.wf(),
                self.wf(*world),
                0 <= j <= msg.players@.len(),
                msg.players@.len() <= self.player_mappings@.len(),
                self.player_mappings@.len() == mid_slots.len(),
                world.last_update == mid_world.last_update,
                world.world_state == mid_world.world_state,
                world.grid@ == mid_world.grid@,
                world.scores@ == mid_world.scores@,
                world.options == mid_world.options,
                world.next_update == mid_world.next_update,
                self.state == msg.state,
                self.tick == match msg.update {
                    Some(u) => u.tick,
                    None => old(self).tick,
                },
            decreases msg.players@.len() - j,
        {
            let ghost players_before = world.players@;
            let ghost before = self.player_mappings@;
            let mut id = self.player_mappings[j];
            let _ = world.update_player(&mut id, &msg.players[j]);
            self.player_mappings.set(j, id);
            proof {
                let old_id = before[j as int];
                assert(old_id < players_before.len() && !players_before[old_id as int].is_ai);
                assert forall|k: int| 0 <= k < self.player_mappings@.len() implies (#[trigger] self.player_mappings@[k])
                    < world.players@.len() && !world.players@[self.player_mappings@[k] as int].is_ai by {
                    if k != j {
                        assert(self.player_mappings@[k] == before[k]);
                        assert(before[k] != old_id);
                        assert(!players_before[before[k] as int].is_ai);
                    }
                }
                assert forall|a: int, b: int|
                    0 <= a < self.player_mappings@.len() && 0 <= b < self.player_mappings@.len() && a != b implies #[trigger] self.player_mappings@[a]
                    != #[trigger] self.player_mappings@[b] by {
                    if a != j && b != j {
                        assert(before[a] != before[b]);
                    } else if a == j {
                        assert(self.player_mappings@[b] == before[b]);
                        assert(before[b] != old_id);
                        assert(!players_before[before[b] as int].is_ai);
                    } else {
                        assert(self.player_mappings@[a] == before[a]);
                        assert(before[a] != old_id);
                        assert(!players_before[before[a] as int].is_ai);
                    }
                }
            }
            j += 1;
        }
        if !same_roster_exec(&roster_before, &world.players) || !same_bytes(&slots_before, &self.player_mappings) {
            send_response = true;
        }
        if self.tick != world.last_update.tick {
            send_response = true;
        }
        if self.state != world.world_state {
            send_response = true;
        }
        proof {
            if !send_options {
                assert(same_players(mid_world.players@, old(world).players@));
                assert(same_players(roster_before@, old(world).players@)) by {
                    assert forall|k: int| 0 <= k < roster_before@.len() implies same_player(#[trigger] roster_before@[k], old(world).players@[k]) by {
                        assert(same_player(roster_before@[k], mid_world.players@[k]));
                        assert(same_player(mid_world.players@[k], old(world).players@[k]));
                    }
                }
                assert(same_players(roster_before@, old(world).players@) ==> (same_players(roster_before@, world.players@)
                    <==> same_players(old(world).players@, world.players@))) by {
                    if same_players(roster_before@, old(world).players@) {
                        if same_players(roster_before@, world.players@) {
                            assert forall|k: int| 0 <= k < old(world).players@.len() implies same_player(#[trigger] old(world).players@[k], world.players@[k]) by {
                                assert(same_player(roster_before@[k], old(world).players@[k]));
                                assert(same_player(roster_before@[k], world.players@[k]));
                            }
                        }
                        if same_players(old(world).players@, world.players@) {
                            assert forall|k: int| 0 <= k < roster_before@.len() implies same_player(#[trigger] roster_before@[k], world.players@[k]) by {
                                assert(same_player(roster_before@[k], old(world).players@[k]));
                                assert(same_player(old(world).players@[k], world.players@[k]));
                            }
                        }
                    }
                }
                assert(mid_slots == old(self).player_mappings@);
            }
        }
        if send_response {
            Some(self.snapshot_msg(world, true, send_options))
        } else {
            None
        }
    }

    /// What the periodic timer owes this peer: the world and the latest delta
    /// when the world's last delta tick differs from what the peer acknowledged; the world without a
    /// delta when the peer's session state is stale; otherwise nothing.
    pub fn update(&self, world: &WorldServer) -> (r: Option<ServerMsg>)
        ensures
            tick_owed(*self, *world) ==> (r matches Some(m) && snapshot(m, *self, *world, true, false)),
            !tick_owed(*self, *world) && self.state != world.world_state ==> (r matches Some(m) && snapshot(
                m,
                *self,
                *world,
                false,
                false,
            )),
            !tick_owed(*self, *world) && self.state == world.world_state ==> r.is_none(),
    {
        if self.tick != world.last_update.tick {
            Some(self.snapshot_msg(world, true, false))
        } else if self.state != world.world_state {
            Some(self.snapshot_msg(world, false, false))
        } else {
            None
        }
    }
}

} // verus!
