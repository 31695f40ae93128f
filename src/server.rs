use vstd::prelude::*;

use crate::{ClientPlayer, GridOptions, SCORE_WIN, ServerPlayer, WorldState, same_player, same_players};
use crate::client::WorldEvent;
use crate::grid::{
    Grid, GridModel, GridUpdateMsg, UpdateResult, bike_id, commands_valid, first_alive_team, initial_bikes,
    initial_model, lemma_first_alive_team, same_roster, team_from_bike,
};
use crate::grid::bike::BikeUpdate;

pub mod connection;

verus! {

/// Time between ticks while playing, in microseconds (a 60 Hz cadence).
pub const TICK_PERIOD_US: u64 = 16_666;

/// Number of AI-held slots.
pub open spec fn ai_count(players: Seq<ServerPlayer>) -> nat
    decreases players.len(),
{
    if players.len() == 0 {
        0
    } else {
        ai_count(players.drop_last()) + if players.last().is_ai { 1nat } else { 0nat }
    }
}

/// The first AI-held slot, if any.
pub open spec fn first_ai(players: Seq<ServerPlayer>) -> Option<int>
    decreases players.len(),
{
    if players.len() == 0 {
        None
    } else {
        match first_ai(players.drop_last()) {
            Some(i) => Some(i),
            None => if players.last().is_ai {
                Some(players.len() - 1)
            } else {
                None
            },
        }
    }
}

/// The first AI-held slot among slots `base + k .. base + n`.
pub open spec fn first_ai_in(players: Seq<ServerPlayer>, base: int, k: int, n: int) -> Option<int>
    decreases n - k,
{
    if k >= n {
        None
    } else if players[base + k].is_ai {
        Some(base + k)
    } else {
        first_ai_in(players, base, k + 1, n)
    }
}

pub proof fn lemma_ai_count_first(players: Seq<ServerPlayer>)
    ensures
        ai_count(players) > 0 <==> first_ai(players).is_some(),
        first_ai(players) matches Some(i) ==> 0 <= i < players.len() && players[i].is_ai && forall|j: int|
            0 <= j < i ==> !(#[trigger] players[j]).is_ai,
    decreases players.len(),
{
    if players.len() > 0 {
        lemma_ai_count_first(players.drop_last());
        if let Some(i) = first_ai(players.drop_last()) {
            assert forall|j: int| 0 <= j < i implies !(#[trigger] players[j]).is_ai by {
                assert(players[j] == players.drop_last()[j]);
            }
            assert(players[i] == players.drop_last()[i]);
        } else {
            assert forall|j: int| 0 <= j < players.len() - 1 implies !(#[trigger] players[j]).is_ai by {
                assert(players[j] == players.drop_last()[j]);
                if ai_count(players.drop_last()) == 0 {
                    lemma_ai_count_none(players.drop_last(), j);
                }
            }
        }
    }
}

proof fn lemma_ai_count_none(players: Seq<ServerPlayer>, j: int)
    requires
        ai_count(players) == 0,
        0 <= j < players.len(),
    ensures
        !players[j].is_ai,
    decreases players.len(),
{
    if j < players.len() - 1 {
        lemma_ai_count_none(players.drop_last(), j);
        assert(players[j] == players.drop_last()[j]);
    }
}

/// Handing one AI slot to a human leaves one AI slot fewer.
pub proof fn lemma_ai_count_claim(players: Seq<ServerPlayer>, i: int, p: ServerPlayer)
    requires
        0 <= i < players.len(),
        players[i].is_ai,
        !p.is_ai,
    ensures
        ai_count(players.update(i, p)) + 1 == ai_count(players),
    decreases players.len(),
{
    let s = players.update(i, p);
    if i < players.len() - 1 {
        lemma_ai_count_claim(players.drop_last(), i, p);
        assert(s.drop_last() =~= players.drop_last().update(i, p));
    } else {
        assert(s.drop_last() =~= players.drop_last());
    }
}

pub proof fn lemma_same_roster_refl(a: Seq<crate::grid::bike::Bike>)
    ensures
        same_roster(a, a),
{
}

pub proof fn lemma_same_roster_trans(a: Seq<crate::grid::bike::Bike>, b: Seq<crate::grid::bike::Bike>, c: Seq<crate::grid::bike::Bike>)
    requires
        same_roster(a, b),
        same_roster(b, c),
    ensures
        same_roster(a, c),
{
    assert forall|k: int| 0 <= k < a.len() implies crate::grid::same_slot(#[trigger] a[k], c[k]) by {
        assert(crate::grid::same_slot(a[k], b[k]));
        assert(crate::grid::same_slot(b[k], c[k]));
    }
}

/// Scores and state once a round is decided.
pub open spec fn round_end(scores: Seq<u8>, winner: Option<u8>) -> (Seq<u8>, WorldState) {
    match winner {
        Some(t) => {
            let s = scores.update(t as int, (scores[t as int] + 1) as u8);
            if s[t as int] == SCORE_WIN {
                (s, WorldState::GameOver(t))
            } else {
                (s, WorldState::RoundOver(Some(t)))
            }
        },
        None => (scores, WorldState::RoundOver(None)),
    }
}

/// Every human slot is ready, and at least one slot is human.
pub open spec fn all_ready(players: Seq<ServerPlayer>) -> bool {
    &&& forall|k: int| 0 <= k < players.len() && !(#[trigger] players[k]).is_ai ==> players[k].ready
    &&& exists|k: int| 0 <= k < players.len() && !(#[trigger] players[k]).is_ai
}

/// Where a team-change request moves a player: the first AI-held slot of the
/// requested team, if the request is allowed (in the lobby, not ready, another
/// existing team) and such a slot exists.
pub open spec fn team_target(
    players: Seq<ServerPlayer>,
    id: u8,
    cp: ClientPlayer,
    state: WorldState,
    options: GridOptions,
) -> Option<int> {
    if !cp.ready && state == WorldState::Waiting && cp.team_request != id / options.players && cp.team_request
        < options.teams {
        first_ai_in(players, cp.team_request * options.players, 0, options.players as int)
    } else {
        None
    }
}

proof fn lemma_first_ai_in_same(a: Seq<ServerPlayer>, b: Seq<ServerPlayer>, base: int, k: int, n: int)
    requires
        0 <= k <= n,
        0 <= base,
        base + n <= a.len(),
        a.len() == b.len(),
        forall|i: int| 0 <= i < a.len() ==> (#[trigger] b[i]).is_ai == a[i].is_ai,
    ensures
        first_ai_in(b, base, k, n) == first_ai_in(a, base, k, n),
    decreases n - k,
{
    if k < n {
        assert(b[base + k].is_ai == a[base + k].is_ai);
        lemma_first_ai_in_same(a, b, base, k + 1, n);
    }
}

/// The tick after `t`, wrapping at the top of the range.
pub open spec fn next_tick(t: u32) -> u32 {
    if t == u32::MAX {
        0
    } else {
        (t + 1) as u32
    }
}

fn tick_after(t: u32) -> (r: u32)
    ensures
        r == next_tick(t),
{
    if t == u32::MAX {
        0
    } else {
        t + 1
    }
}

/// A decided round names the team of its first surviving vehicle, if any.
pub proof fn lemma_match_over_team(m: GridModel, tick: u32, updates: Seq<BikeUpdate>)
    ensures
        m.apply_msg(tick, updates).1 matches UpdateResult::MatchOver(w) ==> w == first_alive_team(
            m.apply_msg(tick, updates).0.bikes,
        ),
{
}

/// A winning team is one of the match's teams.
pub proof fn lemma_winner_in_range(options: GridOptions, bikes: Seq<crate::grid::bike::Bike>)
    requires
        options.valid(),
        same_roster(initial_bikes(options), bikes),
    ensures
        first_alive_team(bikes) matches Some(t) ==> t < options.teams,
{
    lemma_first_alive_team(bikes);
    if let Some(t) = first_alive_team(bikes) {
        let k = choose|k: int| 0 <= k < bikes.len() && #[trigger] bikes[k].alive && bikes[k].team == t;
        assert(crate::grid::same_slot(initial_bikes(options)[k], bikes[k]));
        assert(k / (options.players as int) < options.teams) by (nonlinear_arith)
            requires
                0 <= k < options.teams * options.players,
                options.players >= 1,
        ;
    }
}

/// The buffered delta is for the tick after the last one sent; both are
/// zero before the first tick of a round.
pub open spec fn ticks_linked(last: u32, next: u32) -> bool {
    (last == 0 && next == 0) || next == next_tick(last)
}

/// The tick of the delta that follows the last one sent.
pub open spec fn following_tick(last: u32, next: u32) -> u32 {
    if last == 0 && next == 0 {
        1
    } else {
        next_tick(next)
    }
}

/// The authoritative world: one simulation, the roster, scores and the session state.
pub struct WorldServer {
    pub options: GridOptions,
    pub grid: Grid,
    pub players: Vec<ServerPlayer>,
    pub score_win: u8,
    pub scores: Vec<u8>,
    pub world_state: WorldState,
    /// When the last tick ran, in microseconds.
    pub last_update_time: u64,
    pub next_update: GridUpdateMsg,
    pub last_update: GridUpdateMsg,
}

impl WorldServer {
    pub open spec fn wf(&self) -> bool {
        &&& self.options.valid()
        &&& self.grid.wf()
        &&& self.grid@.board.size == crate::grid_dim(self.options.grid_size)
        &&& same_roster(initial_bikes(self.options), self.grid.bikes@)
        &&& self.players@.len() == self.options.slots()
        &&& self.scores@.len() == self.options.teams
        &&& self.score_win == SCORE_WIN
        &&& forall|t: int| 0 <= t < self.scores@.len() ==> #[trigger] self.scores@[t] <= SCORE_WIN
        &&& !(self.world_state is GameOver) ==> forall|t: int|
            0 <= t < self.scores@.len() ==> #[trigger] self.scores@[t] < SCORE_WIN
        &&& commands_valid(self.next_update.updates@, self.options.slots())
        &&& ticks_linked(self.last_update.tick, self.next_update.tick)
    }

    /// A world in the lobby: every slot AI-held, scores at zero.
    pub fn new(options: GridOptions) -> (r: Self)
        requires
            options.valid(),
        ensures
            r.wf(),
            r.options == options,
            r.world_state == WorldState::Waiting,
            r.grid@ == initial_model(options),
            forall|k: int| 0 <= k < r.players@.len() ==> (#[trigger] r.players@[k]).is_ai && !r.players@[k].ready,
            forall|t: int| 0 <= t < r.scores@.len() ==> #[trigger] r.scores@[t] == 0,
            r.last_update.tick == 0 && r.last_update.hash == 0 && r.last_update.updates@.len() == 0,
            r.next_update.tick == 0 && r.next_update.hash == 0 && r.next_update.updates@.len() == 0,
    {
        let grid = Grid::new(options);
        let n = options.teams * options.players;
        let mut players: Vec<ServerPlayer> = Vec::new();
        let mut i: u8 = 0;
        while i < n
            invariant
                0 <= i <= n,
                players@.len() == i,
                forall|k: int| 0 <= k < i ==> (#[trigger] players@[k]).is_ai && !players@[k].ready,
            decreases n - i,
        {
            players.push(ServerPlayer { name: "AI".to_owned(), ready: false, is_ai: true });
            i += 1;
        }
        let mut scores: Vec<u8> = Vec::new();
        let mut t: u8 = 0;
        while t < options.teams
            invariant
                0 <= t <= options.teams,
                scores@.len() == t,
                forall|k: int| 0 <= k < t ==> #[trigger] scores@[k] == 0,
            decreases options.teams - t,
        {
            scores.push(0);
            t += 1;
        }
        let r = WorldServer {
            options,
            grid,
            players,
            score_win: SCORE_WIN,
            world_state: WorldState::Waiting,
            last_update_time: 0,
            next_update: GridUpdateMsg::default(),
            last_update: GridUpdateMsg::default(),
            scores,
        };
        proof {
            assert(r.grid.bikes@ == initial_bikes(options));
            lemma_same_roster_refl(initial_bikes(options));
            assert(r.options.slots() == n);
            assert(r.grid.wf());
            assert(r.grid@.board.size == crate::grid_dim(options.grid_size));
            assert(same_roster(initial_bikes(options), r.grid.bikes@));
            assert(r.players@.len() == r.options.slots());
            assert(r.scores@.len() == r.options.teams);
            assert(commands_valid(r.next_update.updates@, r.options.slots()));
        }
        r
    }

    /// Number of slots still held by the AI.
    pub fn free_slots(&self) -> (r: usize)
        ensures
            r == ai_count(self.players@),
    {
        let mut r: usize = 0;
        let mut i: usize = 0;
        while i < self.players.len()
            invariant
                0 <= i <= self.players@.len(),
                r == ai_count(self.players@.take(i as int)),
                r <= i,
            decreases self.players@.len() - i,
        {
            assert(self.players@.take(i + 1).drop_last() =~= self.players@.take(i as int));
            if self.players[i].is_ai {
                r += 1;
            }
            i += 1;
        }
        assert(self.players@.take(self.players@.len() as int) =~= self.players@);
        r
    }

    /// Gives the first AI-held slot to a joining human; returns its id.
    pub fn join(&mut self, client_player: &ClientPlayer) -> (r: u8)
        requires
            old(self).wf(),
            ai_count(old(self).players@) > 0,
        ensures
            final(self).wf(),
            first_ai(old(self).players@) == Some(r as int),
            final(self).players@.len() == old(self).players@.len(),
            final(self).players@[r as int].name@ == client_player.name@,
            final(self).players@[r as int].ready == client_player.ready,
            !final(self).players@[r as int].is_ai,
            forall|k: int| 0 <= k < old(self).players@.len() && k != r ==> #[trigger] final(self).players@[k] == old(self).players@[k],
            ai_count(final(self).players@) + 1 == ai_count(old(self).players@),
            final(self).world_state == old(self).world_state,
            final(self).grid@ == old(self).grid@,
            final(self).scores@ == old(self).scores@,
            final(self).last_update == old(self).last_update,
            final(self).next_update == old(self).next_update,
            final(self).options == old(self).options,
    {
        proof {
            lemma_ai_count_first(self.players@);
        }
        let i = self.first_ai_slot();
        let ghost before = self.players@;
        let p = ServerPlayer { name: client_player.name.clone(), ready: client_player.ready, is_ai: false };
        proof {
            lemma_ai_count_claim(before, i as int, p);
        }
        self.players.set(i, p);
        i as u8
    }

    fn first_ai_slot(&self) -> (r: usize)
        requires
            first_ai(self.players@).is_some(),
            self.players@.len() <= 16,
            first_ai(self.players@) matches Some(i) ==> 0 <= i < self.players@.len() && self.players@[i].is_ai
                && forall|j: int| 0 <= j < i ==> !(#[trigger] self.players@[j]).is_ai,
        ensures
            first_ai(self.players@) == Some(r as int),
            r < self.players@.len(),
    {
        let ghost i0 = first_ai(self.players@).unwrap();
        assert(first_ai(self.players@) == Some(i0));
        let mut i: usize = 0;
        while i < self.players.len()
            invariant
                0 <= i <= i0,
                i0 < self.players@.len() <= 16,
                first_ai(self.players@) == Some(i0),
                self.players@[i0].is_ai,
                forall|j: int| 0 <= j < i0 ==> !(#[trigger] self.players@[j]).is_ai,
            decreases self.players@.len() - i,
        {
            if self.players[i].is_ai {
                assert(i == i0);
                return i;
            }
            i += 1;
        }
        assert(false);
        0
    }

    /// Buffers commands for the next tick; only while playing.
    pub fn push_update(&mut self, updates: &Vec<BikeUpdate>)
        requires
            old(self).wf(),
            commands_valid(updates@, old(self).options.slots()),
        ensures
            final(self).wf(),
            final(self).next_update.updates@ == if old(self).world_state == WorldState::Playing {
                old(self).next_update.updates@ + updates@
            } else {
                old(self).next_update.updates@
            },
            final(self).next_update.tick == old(self).next_update.tick,
            final(self).next_update.hash == old(self).next_update.hash,
            same_players(final(self).players@, old(self).players@),
            final(self).world_state == old(self).world_state,
            final(self).grid@ == old(self).grid@,
            final(self).scores@ == old(self).scores@,
            final(self).last_update == old(self).last_update,
            final(self).options == old(self).options,
    {
        if self.world_state == WorldState::Playing {
            let ghost start = self.next_update.updates@;
            let mut i: usize = 0;
            while i < updates.len()
                invariant
                    0 <= i <= updates@.len(),
                    self.next_update.updates@ == start + updates@.take(i as int),
                    commands_valid(start, self.options.slots()),
                    commands_valid(updates@, self.options.slots()),
                    self.options == old(self).options,
                    self.players == old(self).players,
                    self.grid == old(self).grid,
                    self.scores == old(self).scores,
                    self.world_state == old(self).world_state,
                    self.last_update == old(self).last_update,
                    self.score_win == old(self).score_win,
                    self.next_update.tick == old(self).next_update.tick,
                    self.next_update.hash == old(self).next_update.hash,
                    self.world_state == WorldState::Playing,
                    start == old(self).next_update.updates@,
                decreases updates@.len() - i,
            {
                self.next_update.updates.push(updates[i]);
                assert(updates@.take(i + 1) =~= updates@.take(i as int).push(updates@[i as int]));
                i += 1;
            }
            assert(updates@.take(updates@.len() as int) =~= updates@);
            assert(commands_valid(self.next_update.updates@, self.options.slots())) by {
                assert forall|k: int| 0 <= k < self.next_update.updates@.len() implies (#[trigger] self.next_update.updates@[k]).id
                    < self.options.slots() && crate::grid::bike::is_dir(self.next_update.updates@[k].dir) by {
                    if k >= start.len() {
                        assert(self.next_update.updates@[k] == updates@[k - start.len()]);
                    }
                }
            }
        }
        assert(same_players(self.players@, old(self).players@));
    }

    /// Applies a client's view of one of its players: name and readiness,
    /// and in the lobby a team change to a free AI slot of the requested team
    /// (the vacated slot goes back to the AI). True if anything changed.
    pub fn update_player(&mut self, server_player_id: &mut u8, client_player: &ClientPlayer) -> (r: bool)
        requires
            old(self).wf(),
        ensures
            final(self).wf(),
            final(self).players@.len() == old(self).players@.len(),
            final(self).world_state == old(self).world_state,
            final(self).grid@ == old(self).grid@,
            final(self).scores@ == old(self).scores@,
            final(self).last_update == old(self).last_update,
            final(self).next_update == old(self).next_update,
            final(self).options == old(self).options,
            *old(server_player_id) < old(self).players@.len() ==> *final(server_player_id) < old(self).players@.len(),
            // a request for a team without a free AI slot moves nobody and, with
            // name and readiness as they were, changes nothing and reports so
            *old(server_player_id) < old(self).players@.len() && team_target(
                old(self).players@,
                *old(server_player_id),
                *client_player,
                old(self).world_state,
                old(self).options,
            ).is_none() && old(self).players@[*old(server_player_id) as int].name@ == client_player.name@
                && old(self).players@[*old(server_player_id) as int].ready == client_player.ready ==> !r
                && *final(server_player_id) == *old(server_player_id) && same_players(final(self).players@, old(self).players@),
            *old(server_player_id) >= old(self).players@.len() ==> !r && *final(server_player_id) == *old(server_player_id)
                && same_players(final(self).players@, old(self).players@),
            *old(server_player_id) < old(self).players@.len() ==> {
                let id = *old(server_player_id) as int;
                let before_roster = old(self).players@[id];
                let changed = before_roster.name@ != client_player.name@ || before_roster.ready != client_player.ready;
                match team_target(old(self).players@, *old(server_player_id), *client_player, old(self).world_state, old(self).options) {
                    None => {
                        &&& *final(server_player_id) == *old(server_player_id)
                        &&& r == changed
                        &&& final(self).players@[id].name@ == client_player.name@
                        &&& final(self).players@[id].ready == client_player.ready
                        &&& final(self).players@[id].is_ai == before_roster.is_ai
                        &&& forall|k: int| 0 <= k < old(self).players@.len() && k != id ==> same_player(#[trigger] final(self).players@[k], old(self).players@[k])
                    },
                    Some(j) => {
                        &&& *final(server_player_id) as int == j
                        &&& j != id
                        &&& old(self).players@[j].is_ai
                        &&& r
                        &&& final(self).players@[j].name@ == client_player.name@
                        &&& final(self).players@[j].ready == client_player.ready
                        &&& !final(self).players@[j].is_ai
                        &&& final(self).players@[id].name@ == "AI"@
                        &&& final(self).players@[id].ready == client_player.ready
                        &&& final(self).players@[id].is_ai
                        &&& forall|k: int| 0 <= k < old(self).players@.len() && k != id && k != j ==> same_player(#[trigger] final(self).players@[k], old(self).players@[k])
                    },
                }
            },
    {
        let id = *server_player_id as usize;
        if id >= self.players.len() {
            proof {
                assert(same_players(self.players@, old(self).players@));
            }
            return false;
        }
        let mut changes_made = false;
        let mut player = ServerPlayer {
            name: self.players[id].name.clone(),
            ready: self.players[id].ready,
            is_ai: self.players[id].is_ai,
        };
        if player.name != client_player.name {
            player.name = client_player.name.clone();
            changes_made = true;
        }
        if player.ready != client_player.ready {
            player.ready = client_player.ready;
            changes_made = true;
        }
        let ghost before_roster = self.players@;
        self.players.set(id, player);
        let ghost renamed_roster = self.players@;
        let ghost target = team_target(before_roster, id as u8, *client_player, self.world_state, self.options);
        proof {
            assert(forall|k: int| 0 <= k < before_roster.len() ==> (#[trigger] renamed_roster[k]).is_ai == before_roster[k].is_ai);
            assert forall|k: int| 0 <= k < before_roster.len() && k != id implies same_player(#[trigger] renamed_roster[k], before_roster[k]) by {}
        }
        proof {
            assert(renamed_roster[id as int].ready == client_player.ready);
            assert(renamed_roster[id as int].name@ == client_player.name@);
        }
        let team = team_from_bike(&self.options, id as u8);
        if !self.players[id].ready && self.world_state == WorldState::Waiting && client_player.team_request != team
            && client_player.team_request < self.options.teams {
            let per = self.options.players;
            proof {
                assert(client_player.team_request * per + per <= self.options.teams * per) by (nonlinear_arith)
                    requires
                        client_player.team_request < self.options.teams,
                ;
                assert(self.options.teams * per <= 16) by (nonlinear_arith)
                    requires
                        self.options.teams <= 4,
                        per <= 4,
                ;
                assert(first_ai_in(renamed_roster, client_player.team_request * per, 0, per as int) == first_ai_in(before_roster, client_player.team_request * per, 0, per as int)) by {
                    lemma_first_ai_in_same(before_roster, renamed_roster, client_player.team_request * per, 0, per as int);
                }
            }
            let mut k: u8 = 0;
            while k < per
                invariant
                    0 <= k <= per,
                    per == self.options.players,
                    old(self).wf(),
                    renamed_roster.len() == old(self).players@.len(),
                    before_roster == old(self).players@,
                    self.options == old(self).options,
                    self.grid == old(self).grid,
                    self.scores == old(self).scores,
                    self.world_state == old(self).world_state,
                    self.last_update == old(self).last_update,
                    self.next_update == old(self).next_update,
                    self.score_win == old(self).score_win,
                    *server_player_id == *old(server_player_id),
                    id == *old(server_player_id),
                    id < renamed_roster.len(),
                    !renamed_roster[id as int].ready,
                    self.world_state == WorldState::Waiting,
                    client_player.team_request != team,
                    team == (id as int) / (per as int),
                    self.players@ == renamed_roster,
                    target == first_ai_in(before_roster, client_player.team_request * per, 0, per as int),
                    first_ai_in(renamed_roster, client_player.team_request * per, 0, per as int) == first_ai_in(before_roster, client_player.team_request * per, 0, per as int),
                    renamed_roster[id as int].ready == client_player.ready,
                    renamed_roster[id as int].name@ == client_player.name@,
                    renamed_roster[id as int].is_ai == before_roster[id as int].is_ai,
                    forall|j: int| 0 <= j < before_roster.len() && j != id ==> same_player(#[trigger] renamed_roster[j], before_roster[j]),
                    client_player.team_request < self.options.teams,
                    client_player.team_request * per + per <= self.options.teams * per,
                    self.options.teams * per <= 16,
                    self.players@.len() == self.options.slots(),
                    first_ai_in(renamed_roster, client_player.team_request * per, 0, per as int) == first_ai_in(
                        renamed_roster,
                        client_player.team_request * per,
                        k as int,
                        per as int,
                    ),
                decreases per - k,
            {
                let new_id = bike_id(&self.options, client_player.team_request, k);
                if self.players[new_id as usize].is_ai {
                    let human = ServerPlayer { name: client_player.name.clone(), ready: client_player.ready, is_ai: false };
                    self.players.set(new_id as usize, human);
                    let ghost q1 = self.players@;
                    assert(q1 == renamed_roster.update(new_id as int, human));
                    let old_ready = self.players[id].ready;
                    let vacated = ServerPlayer { name: "AI".to_owned(), ready: old_ready, is_ai: true };
                    self.players.set(id, vacated);
                    assert(self.players@ == q1.update(id as int, vacated));
                    *server_player_id = new_id;
                    proof {
                        assert(self.players@.len() == renamed_roster.len());
                        assert(self.options.valid());
                        assert(first_ai_in(renamed_roster, client_player.team_request * per, k as int, per as int) == Some(new_id as int));
                        assert(client_player.ready == renamed_roster[id as int].ready);
                        assert(target == Some(new_id as int));
                        assert(new_id < self.players@.len());
                        assert(before_roster[new_id as int].is_ai == renamed_roster[new_id as int].is_ai);
                        assert forall|j: int| 0 <= j < before_roster.len() && j != id as int && j != new_id as int implies same_player(#[trigger] self.players@[j], before_roster[j]) by {
                            assert(self.players@[j] == q1[j]);
                            assert(q1[j] == renamed_roster[j]);
                            assert(same_player(renamed_roster[j], before_roster[j]));
                        }
                        assert(team == (id as int) / (per as int));
                        assert(new_id as int != id as int) by (nonlinear_arith)
                            requires
                                new_id == client_player.team_request * per + k,
                                k < per,
                                client_player.team_request != (id as int) / (per as int),
                                per >= 1,
                        ;
                    }
                    return true;
                }
                k += 1;
            }
        }
        changes_made
    }

    /// Advances the session. Outside play, once every human slot is ready
    /// (and there is one), a new round starts (or, after a game, the lobby
    /// returns with scores cleared) on a fresh simulation. While playing, once
    /// a tick period has passed, the buffered commands plus the AI's commands
    /// become the outgoing delta, which the world applies to its own
    /// simulation; a decided round scores and moves to round or game over.
    pub fn update(&mut self, time_us: u64)
        requires
            old(self).wf(),
        ensures
            final(self).wf(),
            final(self).options == old(self).options,
            !(old(self).world_state is Playing) && !all_ready(old(self).players@) ==> *final(self) == *old(self),
            !(old(self).world_state is Playing) && all_ready(old(self).players@) ==> {
                &&& final(self).grid@ == initial_model(old(self).options)
                &&& final(self).last_update_time == time_us
                &&& final(self).next_update.tick == 0 && final(self).next_update.hash == 0
                    && final(self).next_update.updates@.len() == 0
                &&& final(self).last_update.tick == 0 && final(self).last_update.hash == 0
                    && final(self).last_update.updates@.len() == 0
                &&& if old(self).world_state is GameOver {
                    &&& final(self).world_state == WorldState::Waiting
                    &&& forall|t: int| 0 <= t < final(self).scores@.len() ==> #[trigger] final(self).scores@[t] == 0
                    &&& final(self).players@.len() == old(self).players@.len()
                    &&& forall|k: int| 0 <= k < old(self).players@.len() ==> {
                        &&& (#[trigger] final(self).players@[k]).name@ == old(self).players@[k].name@
                        &&& final(self).players@[k].is_ai == old(self).players@[k].is_ai
                        &&& !final(self).players@[k].ready
                    }
                } else {
                    &&& final(self).world_state == WorldState::Playing
                    &&& final(self).scores@ == old(self).scores@
                    &&& final(self).players == old(self).players
                }
            },
            old(self).world_state is Playing && !(time_us >= old(self).last_update_time && time_us - old(self).last_update_time
                > TICK_PERIOD_US) ==> *final(self) == *old(self),
            old(self).world_state is Playing && time_us >= old(self).last_update_time && time_us - old(self).last_update_time
                > TICK_PERIOD_US ==> {
                let last = final(self).last_update;
                let (g, res, _d) = old(self).grid@.apply_msg(last.tick, last.updates@);
                &&& final(self).last_update_time == time_us
                &&& last.tick == next_tick(old(self).next_update.tick)
                &&& last.tick == following_tick(old(self).last_update.tick, old(self).next_update.tick)
                &&& last.updates@.len() >= old(self).next_update.updates@.len()
                &&& last.updates@.take(old(self).next_update.updates@.len() as int) == old(self).next_update.updates@
                &&& forall|k: int| old(self).next_update.updates@.len() <= k < last.updates@.len()
                    ==> (#[trigger] old(self).players@[last.updates@[k].id as int]).is_ai
                &&& forall|a: int, b: int| old(self).next_update.updates@.len() <= a < b < last.updates@.len()
                    ==> #[trigger] last.updates@[a].id < #[trigger] last.updates@[b].id
                &&& final(self).grid@ == g
                &&& last.hash == final(self).grid.hash
                &&& final(self).next_update.updates@.len() == 0
                &&& final(self).next_update.tick == next_tick(last.tick)
                &&& match res {
                    UpdateResult::MatchOver(w) => {
                        &&& (final(self).scores@, final(self).world_state) == round_end(old(self).scores@, w)
                        &&& final(self).players@.len() == old(self).players@.len()
                        &&& forall|k: int| 0 <= k < old(self).players@.len() ==> {
                            &&& (#[trigger] final(self).players@[k]).name@ == old(self).players@[k].name@
                            &&& final(self).players@[k].is_ai == old(self).players@[k].is_ai
                            &&& !final(self).players@[k].ready
                        }
                    },
                    UpdateResult::InProgress => {
                        &&& final(self).scores@ == old(self).scores@
                        &&& final(self).world_state == WorldState::Playing
                        &&& final(self).players == old(self).players
                    },
                }
            },
    {
        match self.world_state {
            WorldState::Playing => {
                if !(time_us >= self.last_update_time && time_us - self.last_update_time > TICK_PERIOD_US) {
                    return;
                }
                self.last_update_time = time_us;
                let mut last = self.next_update.copy();
                last.tick = tick_after(last.tick);
                let ghost pending = self.next_update.updates@;
                self.next_update.updates.clear();
                self.next_update.tick = tick_after(last.tick);
                let mut i: usize = 0;
                while i < self.players.len()
                    invariant
                        self.grid.wf(),
                        self.players == old(self).players,
                        self.grid == old(self).grid,
                        self.options == old(self).options,
                        old(self).wf(),
                        0 <= i <= self.players@.len(),
                        last.updates@.len() >= pending.len(),
                        last.updates@.take(pending.len() as int) == pending,
                        pending == old(self).next_update.updates@,
                        last.tick == next_tick(old(self).next_update.tick),
                        self.next_update.tick == next_tick(last.tick),
                        self.next_update.updates@.len() == 0,
                        self.last_update_time == time_us,
                        self.scores == old(self).scores,
                        self.world_state == old(self).world_state,
                        self.score_win == old(self).score_win,
                        commands_valid(last.updates@, self.options.slots()),
                        forall|k: int| pending.len() <= k < last.updates@.len()
                            ==> (#[trigger] old(self).players@[last.updates@[k].id as int]).is_ai,
                        forall|k: int| pending.len() <= k < last.updates@.len() ==> (#[trigger] last.updates@[k]).id < i,
                        forall|a: int, b: int| pending.len() <= a < b < last.updates@.len()
                            ==> #[trigger] last.updates@[a].id < #[trigger] last.updates@[b].id,
                    decreases self.players@.len() - i,
                {
                    if self.players[i].is_ai {
                        assert(self.grid.bikes@[i as int].wf(self.grid@.board.size));
                        assert(crate::grid::same_slot(initial_bikes(self.options)[i as int], self.grid.bikes@[i as int]));
                        match self.grid.bikes[i].ai_update(&self.grid) {
                            Some(update) => {
                                let ghost before = last.updates@;
                                last.updates.push(update);
                                proof {
                                    assert(last.updates@.take(pending.len() as int) =~= before.take(pending.len() as int));
                                    assert forall|k: int| 0 <= k < last.updates@.len() implies (#[trigger] last.updates@[k]).id
                                        < self.options.slots() && crate::grid::bike::is_dir(last.updates@[k].dir) by {
                                        if k < before.len() {
                                            assert(last.updates@[k] == before[k]);
                                        }
                                    }
                                    assert forall|k: int| pending.len() <= k < last.updates@.len() implies (#[trigger] old(
                                        self,
                                    ).players@[last.updates@[k].id as int]).is_ai by {
                                        if k < before.len() {
                                            assert(last.updates@[k] == before[k]);
                                        }
                                    }
                                    assert(update.id == i);
                                    assert forall|k: int| pending.len() <= k < last.updates@.len() implies (#[trigger] last.updates@[k]).id
                                        < i + 1 by {
                                        if k < before.len() {
                                            assert(last.updates@[k] == before[k]);
                                        }
                                    }
                                    assert forall|a: int, b: int| pending.len() <= a < b < last.updates@.len()
                                        implies #[trigger] last.updates@[a].id < #[trigger] last.updates@[b].id by {
                                        assert(last.updates@[a] == before[a]);
                                        if b < before.len() {
                                            assert(last.updates@[b] == before[b]);
                                        }
                                    }
                                }
                            },
                            None => {},
                        }
                    }
                    i += 1;
                }
                let mut events: Vec<WorldEvent> = Vec::new();
                let ghost g0 = self.grid@;
                let result = self.grid.apply_updates(&last, &mut events);
                proof {
                    lemma_same_roster_trans(initial_bikes(self.options), old(self).grid.bikes@, self.grid.bikes@);
                    lemma_match_over_team(g0, last.tick, last.updates@);
                    lemma_winner_in_range(self.options, self.grid.bikes@);
                }
                match result {
                    UpdateResult::MatchOver(winner) => {
                        self.reset_ready();
                        match winner {
                            Some(winning_team) => {
                                let t = winning_team as usize;
                                self.scores.set(t, self.scores[t] + 1);
                                if self.scores[t] == self.score_win {
                                    self.world_state = WorldState::GameOver(winning_team);
                                } else {
                                    self.world_state = WorldState::RoundOver(Some(winning_team));
                                }
                            },
                            None => {
                                self.world_state = WorldState::RoundOver(None);
                            },
                        }
                    },
                    UpdateResult::InProgress => {},
                }
                last.hash = self.grid.hash;
                self.last_update = last;
            },
            _ => {
                if !self.everyone_ready() {
                    return;
                }
                if matches!(self.world_state, WorldState::GameOver(_)) {
                    self.reset_ready();
                    self.clear_scores();
                    self.world_state = WorldState::Waiting;
                } else {
                    self.world_state = WorldState::Playing;
                }
                self.grid = Grid::new(self.options);
                self.grid.rng.srand(time_us / 1_000_000);
                self.last_update_time = time_us;
                self.next_update = GridUpdateMsg::default();
                self.last_update = GridUpdateMsg::default();
                proof {
                    lemma_same_roster_refl(initial_bikes(self.options));
                }
            },
        }
    }

    /// Whether every human slot is ready and at least one slot is human.
    pub fn everyone_ready(&self) -> (r: bool)
        ensures
            r == all_ready(self.players@),
    {
        let mut any_human = false;
        let mut i: usize = 0;
        while i < self.players.len()
            invariant
                0 <= i <= self.players@.len(),
                forall|k: int| 0 <= k < i && !(#[trigger] self.players@[k]).is_ai ==> self.players@[k].ready,
                any_human == exists|k: int| 0 <= k < i && !(#[trigger] self.players@[k]).is_ai,
            decreases self.players@.len() - i,
        {
            if !self.players[i].is_ai {
                if !self.players[i].ready {
                    return false;
                }
                any_human = true;
            }
            i += 1;
        }
        any_human
    }

    /// Sets every team's score back to zero.
    fn clear_scores(&mut self)
        ensures
            final(self).scores@.len() == old(self).scores@.len(),
            forall|k: int| 0 <= k < final(self).scores@.len() ==> #[trigger] final(self).scores@[k] == 0,
            final(self).players == old(self).players,
            final(self).grid == old(self).grid,
            final(self).world_state == old(self).world_state,
            final(self).last_update == old(self).last_update,
            final(self).next_update == old(self).next_update,
            final(self).options == old(self).options,
            final(self).last_update_time == old(self).last_update_time,
            final(self).score_win == old(self).score_win,
    {
        let mut t: usize = 0;
        while t < self.scores.len()
            invariant
                0 <= t <= self.scores@.len(),
                self.scores@.len() == old(self).scores@.len(),
                forall|k: int| 0 <= k < t ==> #[trigger] self.scores@[k] == 0,
                self.players == old(self).players,
                self.grid == old(self).grid,
                self.world_state == old(self).world_state,
                self.last_update == old(self).last_update,
                self.next_update == old(self).next_update,
                self.options == old(self).options,
                self.last_update_time == old(self).last_update_time,
                self.score_win == old(self).score_win,
            decreases self.scores@.len() - t,
        {
            self.scores.set(t, 0);
            t += 1;
        }
    }

    /// Clears every slot's readiness.
    fn reset_ready(&mut self)
        ensures
            final(self).players@.len() == old(self).players@.len(),
            forall|k: int| 0 <= k < old(self).players@.len() ==> {
                &&& (#[trigger] final(self).players@[k]).name@ == old(self).players@[k].name@
                &&& final(self).players@[k].is_ai == old(self).players@[k].is_ai
                &&& !final(self).players@[k].ready
            },
            final(self).grid == old(self).grid,
            final(self).scores == old(self).scores,
            final(self).world_state == old(self).world_state,
            final(self).last_update == old(self).last_update,
            final(self).next_update == old(self).next_update,
            final(self).options == old(self).options,
            final(self).last_update_time == old(self).last_update_time,
            final(self).score_win == old(self).score_win,
    {
        let mut i: usize = 0;
        while i < self.players.len()
            invariant
                0 <= i <= self.players@.len(),
                self.players@.len() == old(self).players@.len(),
                forall|k: int| 0 <= k < self.players@.len() ==> {
                    &&& (#[trigger] self.players@[k]).name@ == old(self).players@[k].name@
                    &&& self.players@[k].is_ai == old(self).players@[k].is_ai
                    &&& (k < i ==> !self.players@[k].ready)
                },
                self.grid == old(self).grid,
                self.scores == old(self).scores,
                self.world_state == old(self).world_state,
                self.last_update == old(self).last_update,
                self.next_update == old(self).next_update,
                self.options == old(self).options,
                self.last_update_time == old(self).last_update_time,
                self.score_win == old(self).score_win,
            decreases self.players@.len() - i,
        {
            let p = ServerPlayer { name: self.players[i].name.clone(), ready: false, is_ai: self.players[i].is_ai };
            self.players.set(i, p);
            i += 1;
        }
    }

    pub fn get_last_update(&self) -> (r: &GridUpdateMsg)
        ensures
            *r == self.last_update,
    {
        &self.last_update
    }
}

} // verus!
