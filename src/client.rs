use vstd::prelude::*;
use vstd::string::*;

use crate::grid::{Grid, GridModel, GridUpdateMsg, Point, commands_valid, death_events, initial_model, updates_valid};
use crate::grid::bike::{BikeUpdate, action_update};
use crate::{
    Action, ClientMsg, ClientPlayer, GridOptions, SCORE_WIN, ServerMsg, ServerPlayer, WorldState, copy_bytes,
    copy_players, same_players,
};

verus! {

/// What happened in the world, for sound and display.
#[derive(Debug)]
pub enum WorldEvent {
    PlayerJoin,
    PlayerReady,
    LocalUpdate(BikeUpdate),
    ServerUpdate(GridUpdateMsg),
    GameState(WorldState),
    BikeDeath(u8, Point),
}

/// The decimal digits of `n`.
pub open spec fn decimal(n: nat) -> Seq<char>
    decreases n,
{
    if n < 10 {
        seq![digit(n)]
    } else {
        decimal(n / 10).push(digit(n % 10))
    }
}

pub open spec fn digit(d: nat) -> char {
    if d == 0 { '0' } else if d == 1 { '1' } else if d == 2 { '2' } else if d == 3 { '3' } else if d == 4 { '4' }
    else if d == 5 { '5' } else if d == 6 { '6' } else if d == 7 { '7' } else if d == 8 { '8' } else { '9' }
}

/// The one-character string of a decimal digit.
fn digit_str(d: usize) -> (r: &'static str)
    requires
        d < 10,
    ensures
        r@ == seq![digit(d as nat)],
{
    if d == 0 {
        proof {
            reveal_strlit("0");
        }
        "0"
    } else if d == 1 {
        proof {
            reveal_strlit("1");
        }
        "1"
    } else if d == 2 {
        proof {
            reveal_strlit("2");
        }
        "2"
    } else if d == 3 {
        proof {
            reveal_strlit("3");
        }
        "3"
    } else if d == 4 {
        proof {
            reveal_strlit("4");
        }
        "4"
    } else if d == 5 {
        proof {
            reveal_strlit("5");
        }
        "5"
    } else if d == 6 {
        proof {
            reveal_strlit("6");
        }
        "6"
    } else if d == 7 {
        proof {
            reveal_strlit("7");
        }
        "7"
    } else if d == 8 {
        proof {
            reveal_strlit("8");
        }
        "8"
    } else {
        proof {
            reveal_strlit("9");
        }
        "9"
    }
}

/// Appends the decimal digits of `n`.
fn append_decimal(s: &mut String, n: usize)
    ensures
        final(s)@ == old(s)@ + decimal(n as nat),
    decreases n,
{
    if n >= 10 {
        append_decimal(s, n / 10);
    }
    s.append(digit_str(n % 10));
}

/// The default name of a local player: "p" and its index in decimal.
fn player_name(n: usize) -> (r: String)
    ensures
        r@ == seq!['p'] + decimal(n as nat),
{
    let mut s = String::new();
    proof {
        reveal_strlit("p");
    }
    s.append("p");
    append_decimal(&mut s, n);
    s
}

/// Two client players with the same name, readiness and team request.
pub open spec fn same_client_player(a: ClientPlayer, b: ClientPlayer) -> bool {
    a.name@ == b.name@ && a.ready == b.ready && a.team_request == b.team_request
}

pub open spec fn same_client_players(a: Seq<ClientPlayer>, b: Seq<ClientPlayer>) -> bool {
    a.len() == b.len() && forall|k: int| 0 <= k < a.len() ==> same_client_player(#[trigger] a[k], b[k])
}

fn copy_client_players(v: &Vec<ClientPlayer>) -> (r: Vec<ClientPlayer>)
    ensures
        same_client_players(r@, v@),
{
    let mut r: Vec<ClientPlayer> = Vec::new();
    let mut i: usize = 0;
    while i < v.len()
        invariant
            0 <= i <= v@.len(),
            r@.len() == i,
            forall|k: int| 0 <= k < i ==> same_client_player(#[trigger] r@[k], v@[k]),
        decreases v@.len() - i,
    {
        let p = &v[i];
        r.push(ClientPlayer { name: p.name.clone(), ready: p.ready, team_request: p.team_request });
        i += 1;
    }
    r
}

/// The options a client holds after a message: new valid ones replace its own.
pub open spec fn new_options(current: GridOptions, offered: Option<GridOptions>) -> GridOptions {
    match offered {
        Some(o) => if o.valid() && o != current { o } else { current },
        None => current,
    }
}

/// The simulation a message's delta meets: rebuilt from the options when
/// they changed, or when the session moves to the lobby or into play.
pub open spec fn msg_base(grid: GridModel, options: GridOptions, state: WorldState, msg: ServerMsg) -> GridModel {
    let opts = new_options(options, msg.options);
    if opts != options || (state != msg.state && (msg.state == WorldState::Waiting || msg.state == WorldState::Playing)) {
        initial_model(opts)
    } else {
        grid
    }
}

/// Whether a message's delta is applied to `base`: while playing, for a new
/// tick, with commands naming existing vehicles and unit headings.
pub open spec fn delta_applies(base: GridModel, msg: ServerMsg) -> bool {
    msg.state == WorldState::Playing && (msg.grid_update matches Some(g) && g.tick != base.tick && commands_valid(
        g.updates@,
        base.bikes.len(),
    ))
}

/// A client's mirror of the world: its own simulation, its local players and
/// their server slots, and the messages waiting for the transport.
pub struct WorldClient {
    pub grid: Grid,
    pub score_win: u8,
    pub local_players: Vec<ClientPlayer>,
    /// What happened, for sound and display.
    pub events: Vec<WorldEvent>,
    pub grid_options: GridOptions,
    /// Server slot of each local player, by local index.
    pub local_player_ids: Vec<u8>,
    pub server_players: Vec<ServerPlayer>,
    pub game_state: WorldState,
    pub scores: Vec<u8>,
    /// Messages for the server, oldest first.
    pub outbox: Vec<ClientMsg>,
    /// Checksum mismatches seen: tick, local checksum, server checksum.
    pub desyncs: Vec<(u32, u64, u64)>,
}

/// The message a client sends: its local players and its session state.
pub open spec fn client_msg_of(m: ClientMsg, players: Seq<ClientPlayer>, state: WorldState) -> bool {
    same_client_players(m.players@, players) && m.state == state
}

impl WorldClient {
    pub open spec fn wf(&self) -> bool {
        self.grid.wf() && self.grid_options.valid()
    }

    pub fn new() -> (r: Self)
        ensures
            r.wf(),
            r.game_state == WorldState::Waiting,
            r.local_players@.len() == 0,
            r.outbox@.len() == 0,
            r.grid@ == initial_model(r.grid_options),
    {
        let grid_options = GridOptions::default();
        WorldClient {
            grid: Grid::new(grid_options),
            score_win: SCORE_WIN,
            local_players: Vec::new(),
            events: Vec::new(),
            grid_options,
            local_player_ids: Vec::new(),
            server_players: Vec::new(),
            game_state: WorldState::Waiting,
            scores: Vec::new(),
            outbox: Vec::new(),
            desyncs: Vec::new(),
        }
    }

    fn send_msg(&mut self, update: Option<GridUpdateMsg>)
        ensures
            final(self).outbox@.len() == old(self).outbox@.len() + 1,
            final(self).outbox@.take(old(self).outbox@.len() as int) == old(self).outbox@,
            client_msg_of(final(self).outbox@.last(), old(self).local_players@, old(self).game_state),
            final(self).outbox@.last().update == update,
            final(self).grid == old(self).grid,
            final(self).local_players == old(self).local_players,
            final(self).game_state == old(self).game_state,
            final(self).grid_options == old(self).grid_options,
            final(self).local_player_ids == old(self).local_player_ids,
            final(self).events == old(self).events,
            final(self).server_players == old(self).server_players,
            final(self).scores == old(self).scores,
            final(self).desyncs == old(self).desyncs,
    {
        let msg = ClientMsg { players: copy_client_players(&self.local_players), state: self.game_state, update };
        self.outbox.push(msg);
        assert(self.outbox@.take(old(self).outbox@.len() as int) =~= old(self).outbox@);
    }

    /// Handles a local action. Outside play, "confirm" from an unknown
    /// controller adds a local player (only in the lobby) and from a known one
    /// marks it ready; left and right in the lobby change the requested team.
    /// In play, an action becomes a vehicle command that is sent at once; the
    /// local simulation only changes when the server echoes it back.
    /// Returns the local player the action belongs to.
    pub fn handle_input(&mut self, local_player_id: Option<u8>, action: Action) -> (r: Option<u8>)
        requires
            old(self).wf(),
            old(self).local_players@.len() < 255,
        ensures
            final(self).wf(),
            final(self).grid == old(self).grid,
            final(self).game_state == old(self).game_state,
            !(old(self).game_state is Playing) && action == Action::Confirm && local_player_id.is_none() ==> if old(
                self,
            ).game_state == WorldState::Waiting {
                let n = old(self).local_players@.len();
                &&& r == Some(n as u8)
                &&& final(self).local_players@.len() == n + 1
                &&& same_client_players(final(self).local_players@.take(n as int), old(self).local_players@)
                &&& final(self).local_players@[n as int].name@ == seq!['p'] + decimal(n)
                &&& !final(self).local_players@[n as int].ready
                &&& final(self).local_players@[n as int].team_request == 0
                &&& final(self).outbox@.len() == old(self).outbox@.len() + 1
                &&& client_msg_of(final(self).outbox@.last(), final(self).local_players@, old(self).game_state)
                &&& final(self).outbox@.last().update.is_none()
            } else {
                r.is_none() && *final(self) == *old(self)
            },
            !(old(self).game_state is Playing) && action == Action::Confirm && local_player_id.is_some() ==> {
                let i = local_player_id.unwrap() as int;
                &&& r == local_player_id
                &&& if i < old(self).local_players@.len() {
                    &&& final(self).local_players@.len() == old(self).local_players@.len()
                    &&& final(self).local_players@[i].ready
                    &&& final(self).local_players@[i].name@ == old(self).local_players@[i].name@
                    &&& final(self).local_players@[i].team_request == old(self).local_players@[i].team_request
                    &&& forall|k: int| 0 <= k < old(self).local_players@.len() && k != i ==> same_client_player(#[trigger] final(self).local_players@[k], old(self).local_players@[k])
                    &&& final(self).outbox@.len() == old(self).outbox@.len() + 1
                    &&& client_msg_of(final(self).outbox@.last(), final(self).local_players@, old(self).game_state)
                } else {
                    *final(self) == *old(self)
                }
            },
            old(self).game_state == WorldState::Waiting && (action == Action::Left || action == Action::Right)
                && local_player_id.is_some() && (local_player_id.unwrap() as int) < old(self).local_players@.len() ==> {
                let i = local_player_id.unwrap() as int;
                let t = old(self).local_players@[i].team_request;
                let wanted = if action == Action::Right {
                    if t + 1 < old(self).grid_options.teams { t + 1 } else { t as int }
                } else {
                    if t > 0 { t - 1 } else { t as int }
                };
                &&& r == local_player_id
                &&& final(self).local_players@.len() == old(self).local_players@.len()
                &&& final(self).local_players@[i].team_request == wanted
                &&& final(self).local_players@[i].name@ == old(self).local_players@[i].name@
                &&& final(self).local_players@[i].ready == old(self).local_players@[i].ready
                &&& forall|k: int| 0 <= k < old(self).local_players@.len() && k != i ==> same_client_player(#[trigger] final(self).local_players@[k], old(self).local_players@[k])
                &&& final(self).outbox@.len() == old(self).outbox@.len() + if wanted != t { 1int } else { 0int }
            },
            old(self).game_state is Playing && local_player_id.is_none() ==> r.is_none() && *final(self) == *old(self),
            old(self).game_state is Playing && local_player_id.is_some() ==> {
                let i = local_player_id.unwrap() as int;
                if i < old(self).local_player_ids@.len() && (old(self).local_player_ids@[i] as int) < old(self).grid.bikes@.len() {
                    let b = old(self).grid.bikes@[old(self).local_player_ids@[i] as int];
                    &&& r == local_player_id
                    &&& match action_update(b, action) {
                        Some(u) => {
                            &&& final(self).events@ == old(self).events@.push(WorldEvent::LocalUpdate(u))
                            &&& final(self).outbox@.len() == old(self).outbox@.len() + 1
                            &&& client_msg_of(final(self).outbox@.last(), old(self).local_players@, old(self).game_state)
                            &&& final(self).outbox@.last().update matches Some(m) && m.tick == old(self).grid.tick && m.hash
                                == old(self).grid.hash && m.updates@ == seq![u]
                            &&& final(self).local_players == old(self).local_players
                        },
                        None => *final(self) == *old(self),
                    }
                } else {
                    r.is_none() && *final(self) == *old(self)
                }
            },
    {
        match self.game_state {
            WorldState::Playing => {
                let player_id = match local_player_id {
                    Some(p) => p,
                    None => {
                        return None;
                    },
                };
                if player_id as usize >= self.local_player_ids.len() {
                    return None;
                }
                let server_player_id = self.local_player_ids[player_id as usize] as usize;
                if server_player_id >= self.grid.bikes.len() {
                    return None;
                }
                assert(self.grid.bikes@[server_player_id as int].wf(self.grid@.board.size));
                match self.grid.bikes[server_player_id].handle_action(action) {
                    Some(bike_update) => {
                        self.events.push(WorldEvent::LocalUpdate(bike_update));
                        let mut updates: Vec<BikeUpdate> = Vec::new();
                        updates.push(bike_update);
                        let msg = GridUpdateMsg { tick: self.grid.tick, hash: self.grid.hash, updates };
                        self.send_msg(Some(msg));
                    },
                    None => {},
                }
                local_player_id
            },
            _ => {
                if action == Action::Confirm {
                    match local_player_id {
                        None => {
                            if self.game_state == WorldState::Waiting {
                                let n = self.local_players.len();
                                let name = player_name(n);
                                self.local_players.push(ClientPlayer { name, ready: false, team_request: 0 });
                                self.send_msg(None);
                                proof {
                                    assert(self.local_players@.take(n as int) =~= old(self).local_players@);
                                }
                                return Some(n as u8);
                            } else {
                                return None;
                            }
                        },
                        Some(i) => {
                            if (i as usize) < self.local_players.len() {
                                let p = &self.local_players[i as usize];
                                let np = ClientPlayer { name: p.name.clone(), ready: true, team_request: p.team_request };
                                self.local_players.set(i as usize, np);
                                self.send_msg(None);
                            }
                        },
                    }
                } else if self.game_state == WorldState::Waiting {
                    match local_player_id {
                        Some(i) => {
                            if (i as usize) < self.local_players.len() {
                                let p = &self.local_players[i as usize];
                                let team = p.team_request;
                                if action == Action::Right {
                                    if team < self.grid_options.teams - 1 {
                                        let np = ClientPlayer { name: p.name.clone(), ready: p.ready, team_request: team + 1 };
                                        self.local_players.set(i as usize, np);
                                        self.send_msg(None);
                                    }
                                } else if action == Action::Left {
                                    if team > 0 {
                                        let np = ClientPlayer { name: p.name.clone(), ready: p.ready, team_request: team - 1 };
                                        self.local_players.set(i as usize, np);
                                        self.send_msg(None);
                                    }
                                }
                            }
                        },
                        None => {},
                    }
                }
                local_player_id
            },
        }
    }

    /// Handles one message from the server. New valid options rebuild the
    /// local simulation; the roster, slot ids and scores are taken over. A
    /// changed session state clears local readiness, rebuilds the simulation
    /// for the lobby or a new round, is reported as an event and acknowledged.
    /// While playing, a delta for a new tick whose commands name existing
    /// vehicles with unit headings is applied through the tick gate, reported,
    /// its checksum compared (a mismatch is recorded, not corrected) and
    /// acknowledged with the resulting tick and checksum; a stale or repeated
    /// delta, or one that cannot be applied, leaves the simulation alone.
    pub fn handle_server_msg(&mut self, msg: ServerMsg)
        requires
            old(self).wf(),
        ensures
            final(self).wf(),
            final(self).game_state == msg.state,
            same_players(final(self).server_players@, msg.players@),
            final(self).local_player_ids@ == msg.local_player_ids@,
            final(self).scores@ == msg.score@,
            final(self).grid_options == new_options(old(self).grid_options, msg.options),
            final(self).local_players@.len() == old(self).local_players@.len(),
            forall|k: int| 0 <= k < old(self).local_players@.len() ==> {
                &&& (#[trigger] final(self).local_players@[k]).name@ == old(self).local_players@[k].name@
                &&& final(self).local_players@[k].team_request == old(self).local_players@[k].team_request
                &&& final(self).local_players@[k].ready == (old(self).local_players@[k].ready && old(self).game_state
                    == msg.state)
            },
            ({
                let changed = old(self).game_state != msg.state;
                let base = msg_base(old(self).grid@, old(self).grid_options, old(self).game_state, msg);
                let applies = delta_applies(base, msg);
                let g = msg.grid_update.unwrap();
                let (after, _res, deaths) = base.apply_msg(g.tick, g.updates@);
                let n = old(self).outbox@.len();
                &&& final(self).grid@ == if applies { after } else { base }
                &&& final(self).events@ == old(self).events@ + (if changed {
                    seq![WorldEvent::GameState(msg.state)]
                } else {
                    Seq::empty()
                }) + (if applies {
                    death_events(deaths) + seq![WorldEvent::ServerUpdate(g)]
                } else {
                    Seq::empty()
                })
                &&& final(self).outbox@.len() == n + (if changed { 1int } else { 0int }) + (if applies { 1int } else { 0int })
                &&& final(self).outbox@.take(n as int) == old(self).outbox@
                &&& changed ==> client_msg_of(final(self).outbox@[n as int], final(self).local_players@, msg.state)
                    && final(self).outbox@[n as int].update.is_none()
                &&& applies ==> client_msg_of(final(self).outbox@.last(), final(self).local_players@, msg.state)
                    && (final(self).outbox@.last().update matches Some(ack) && ack.tick == g.tick && ack.hash
                    == final(self).grid.hash && ack.updates@.len() == 0)
                &&& final(self).desyncs@ == if applies && final(self).grid.hash != g.hash {
                    old(self).desyncs@.push((g.tick, final(self).grid.hash, g.hash))
                } else {
                    old(self).desyncs@
                }
            }),
    {
        let ghost old_events = self.events@;
        let ghost old_outbox = self.outbox@;
        match msg.options {
            Some(options) => {
                if options != self.grid_options && options.valid_exec() {
                    self.grid_options = options;
                    self.grid = Grid::new(options);
                }
            },
            None => {},
        }
        self.server_players = copy_players(&msg.players);
        self.local_player_ids = copy_bytes(&msg.local_player_ids);
        self.scores = copy_bytes(&msg.score);
        if self.game_state != msg.state {
            self.game_state = msg.state;
            self.clear_local_ready();
            match self.game_state {
                WorldState::Waiting | WorldState::Playing => {
                    self.grid = Grid::new(self.grid_options);
                },
                _ => {},
            }
            self.events.push(WorldEvent::GameState(self.game_state));
            self.send_msg(None);
        }
        if self.game_state == WorldState::Playing {
            match msg.grid_update {
                Some(grid_update) => {
                    if grid_update.tick != self.grid.tick && updates_valid(&grid_update.updates, self.grid.bikes.len()) {
                        let _ = self.grid.apply_updates(&grid_update, &mut self.events);
                        if self.grid.hash != grid_update.hash {
                            self.desyncs.push((grid_update.tick, self.grid.hash, grid_update.hash));
                        }
                        let ack = GridUpdateMsg { tick: self.grid.tick, hash: self.grid.hash, updates: Vec::new() };
                        self.events.push(WorldEvent::ServerUpdate(grid_update));
                        self.send_msg(Some(ack));
                    }
                },
                None => {},
            }
        }
    }

    /// Clears every local player's readiness.
    fn clear_local_ready(&mut self)
        ensures
            final(self).local_players@.len() == old(self).local_players@.len(),
            forall|k: int| 0 <= k < old(self).local_players@.len() ==> {
                &&& (#[trigger] final(self).local_players@[k]).name@ == old(self).local_players@[k].name@
                &&& final(self).local_players@[k].team_request == old(self).local_players@[k].team_request
            },
            forall|k: int| 0 <= k < final(self).local_players@.len() ==> !(#[trigger] final(self).local_players@[k]).ready,
            final(self).grid == old(self).grid,
            final(self).game_state == old(self).game_state,
            final(self).grid_options == old(self).grid_options,
            final(self).local_player_ids == old(self).local_player_ids,
            final(self).server_players == old(self).server_players,
            final(self).scores == old(self).scores,
            final(self).desyncs == old(self).desyncs,
            final(self).outbox == old(self).outbox,
            final(self).events == old(self).events,
    {
        let mut i: usize = 0;
        while i < self.local_players.len()
            invariant
                0 <= i <= self.local_players@.len(),
                self.local_players@.len() == old(self).local_players@.len(),
                forall|k: int| 0 <= k < i ==> !(#[trigger] self.local_players@[k]).ready,
                forall|k: int| 0 <= k < old(self).local_players@.len() ==> {
                    &&& (#[trigger] self.local_players@[k]).name@ == old(self).local_players@[k].name@
                    &&& self.local_players@[k].team_request == old(self).local_players@[k].team_request
                },
                self.grid == old(self).grid,
                self.game_state == old(self).game_state,
                self.grid_options == old(self).grid_options,
                self.local_player_ids == old(self).local_player_ids,
                self.server_players == old(self).server_players,
                self.scores == old(self).scores,
                self.desyncs == old(self).desyncs,
                self.outbox == old(self).outbox,
                self.events == old(self).events,
            decreases self.local_players@.len() - i,
        {
            let p = &self.local_players[i];
            let np = ClientPlayer { name: p.name.clone(), ready: false, team_request: p.team_request };
            self.local_players.set(i, np);
            i += 1;
        }
    }

    /// The server slot of a local player.
    pub fn server_player(&self, local_player: u8) -> (r: Option<u8>)
        ensures
            r == if (local_player as int) < self.local_player_ids@.len() {
                Some(self.local_player_ids@[local_player as int])
            } else {
                None
            },
    {
        if (local_player as usize) < self.local_player_ids.len() {
            Some(self.local_player_ids[local_player as usize])
        } else {
            None
        }
    }

    /// The local index of the player in a server slot, if it is ours.
    pub fn local_player(&self, server_player: u8) -> (r: Option<u8>)
        ensures
            r matches Some(i) ==> (i as int) < self.local_player_ids@.len() && self.local_player_ids@[i as int]
                == server_player && forall|k: int| 0 <= k < i ==> #[trigger] self.local_player_ids@[k] != server_player,
            r.is_none() ==> forall|k: int|
                0 <= k < self.local_player_ids@.len() && k <= u8::MAX ==> #[trigger] self.local_player_ids@[k] != server_player,
    {
        let mut i: usize = 0;
        while i < self.local_player_ids.len()
            invariant
                0 <= i <= self.local_player_ids@.len(),
                forall|k: int| 0 <= k < i ==> #[trigger] self.local_player_ids@[k] != server_player,
            decreases self.local_player_ids@.len() - i,
        {
            if self.local_player_ids[i] == server_player {
                if i <= 255 {
                    return Some(i as u8);
                } else {
                    return None;
                }
            }
            i += 1;
        }
        None
    }
}

} // verus!
