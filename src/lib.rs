use vstd::prelude::*;

pub mod client;
pub mod grid;
pub mod rng;
pub mod server;

use grid::GridUpdateMsg;

verus! {

/// Rounds a team must win to take the game.
pub const SCORE_WIN: u8 = 3;

pub const MIN_TEAMS: u8 = 2;
pub const MAX_TEAMS: u8 = 4;

pub const MIN_PLAYERS: u8 = 1;
pub const MAX_PLAYERS: u8 = 4;

/// The session state machine shared by the server and mirrored by clients.
#[derive(Debug, Clone, Copy, PartialEq, Eq, Structural)]
pub enum WorldState {
    Waiting,
    Playing,
    RoundOver(Option<u8>),
    GameOver(u8),
}

impl Default for WorldState {
    fn default() -> (r: Self)
        ensures
            r == WorldState::Waiting,
    {
        WorldState::Waiting
    }
}

/// A player as a client describes it: name, readiness, and the team asked for.
#[derive(Debug, Clone)]
pub struct ClientPlayer {
    pub name: String,
    pub ready: bool,
    pub team_request: u8,
}

/// A roster slot as the server holds it; the team follows from the slot id.
#[derive(Debug, Clone)]
pub struct ServerPlayer {
    pub name: String,
    pub ready: bool,
    pub is_ai: bool,
}

/// Server to client: the client's slot ids, the roster, the session state,
/// the last delta, the options (only when they changed) and the scores.
#[derive(Debug, Clone)]
pub struct ServerMsg {
    pub local_player_ids: Vec<u8>,
    pub players: Vec<ServerPlayer>,
    pub state: WorldState,
    pub grid_update: Option<GridUpdateMsg>,
    pub options: Option<GridOptions>,
    pub score: Vec<u8>,
}

/// Client to server: its local players, the state it last saw, and an optional delta.
#[derive(Debug, Clone)]
pub struct ClientMsg {
    pub players: Vec<ClientPlayer>,
    pub state: WorldState,
    pub update: Option<GridUpdateMsg>,
}

/// Two roster entries with the same name, readiness and control.
pub open spec fn same_player(a: ServerPlayer, b: ServerPlayer) -> bool {
    a.name@ == b.name@ && a.ready == b.ready && a.is_ai == b.is_ai
}

pub open spec fn same_players(a: Seq<ServerPlayer>, b: Seq<ServerPlayer>) -> bool {
    a.len() == b.len() && forall|k: int| 0 <= k < a.len() ==> same_player(#[trigger] a[k], b[k])
}

/// A copy of a roster.
pub fn copy_players(v: &Vec<ServerPlayer>) -> (r: Vec<ServerPlayer>)
    ensures
        same_players(r@, v@),
{
    let mut r: Vec<ServerPlayer> = Vec::new();
    let mut i: usize = 0;
    while i < v.len()
        invariant
            0 <= i <= v@.len(),
            r@.len() == i,
            forall|k: int| 0 <= k < i ==> same_player(#[trigger] r@[k], v@[k]),
        decreases v@.len() - i,
    {
        let p = &v[i];
        r.push(ServerPlayer { name: p.name.clone(), ready: p.ready, is_ai: p.is_ai });
        i += 1;
    }
    r
}

/// A copy of a byte list.
pub fn copy_bytes(v: &Vec<u8>) -> (r: Vec<u8>)
    ensures
        r@ == v@,
{
    let mut r: Vec<u8> = Vec::new();
    let mut i: usize = 0;
    while i < v.len()
        invariant
            0 <= i <= v@.len(),
            r@ == v@.take(i as int),
        decreases v@.len() - i,
    {
        r.push(v[i]);
        i += 1;
    }
    assert(v@.take(v@.len() as int) =~= v@);
    r
}

/// How hard the computer-controlled vehicles play.
#[derive(Debug, Clone, Copy, PartialEq, Eq, Structural)]
pub enum AiDifficulty {
    Easy,
    Normal,
    Hard,
}

/// Discrete player actions produced by the input layer.
#[derive(Debug, Clone, Copy, PartialEq, Eq, Structural)]
pub enum Action {
    /// move up (player, menu, etc.)
    Up,
    /// move down (player, menu, etc.)
    Down,
    /// move left (player, menu, etc.)
    Left,
    /// move right (player, menu, etc.)
    Right,
    /// select the menu option or prompt to continue
    Confirm,
    /// go back in the menu
    Cancel,
    /// reset the level to the starting positions
    Reset,
    /// go back a move
    Rewind,
    /// pause the gameplay and bring up a menu
    Pause,
}

/// The enumerated grid dimensions.
#[derive(Debug, Clone, Copy, PartialEq, Eq, Structural)]
pub enum GridSize {
    Small,
    Medium,
    Large,
}

impl Default for GridSize {
    fn default() -> (r: Self)
        ensures
            r == GridSize::Small,
    {
        GridSize::Small
    }
}

/// Width and height, in cells, of each grid size.
pub open spec fn grid_dim(size: GridSize) -> (i16, i16) {
    match size {
        GridSize::Small => (80, 80),
        GridSize::Medium => (100, 100),
        GridSize::Large => (120, 120),
    }
}

impl GridSize {
    /// Steps up to the next larger size; the largest stays.
    pub fn incr(&mut self)
        ensures
            *final(self) == match *old(self) {
                GridSize::Small => GridSize::Medium,
                _ => GridSize::Large,
            },
    {
        *self = match self {
            GridSize::Small => GridSize::Medium,
            GridSize::Medium => GridSize::Large,
            GridSize::Large => GridSize::Large,
        }
    }

    /// Leaves the size unchanged.
    pub fn decr(&mut self)
        ensures
            *final(self) == *old(self),
    {
        *self = match self {
            GridSize::Small => GridSize::Small,
            GridSize::Medium => GridSize::Medium,
            GridSize::Large => GridSize::Large,
        }
    }

    pub fn dim(&self) -> (r: (i16, i16))
        ensures
            r == grid_dim(*self),
    {
        match self {
            GridSize::Small => (80, 80),
            GridSize::Medium => (100, 100),
            GridSize::Large => (120, 120),
        }
    }
}

/// Match configuration: fixed for the lifetime of a match.
#[derive(Debug, Clone, Copy, PartialEq, Eq, Structural)]
pub struct GridOptions {
    pub grid_size: GridSize,
    pub teams: u8,
    pub players: u8,
    pub ai_diff: AiDifficulty,
}

impl GridOptions {
    /// Team and player counts lie in the supported ranges.
    pub open spec fn valid(&self) -> bool {
        &&& MIN_TEAMS <= self.teams <= MAX_TEAMS
        &&& MIN_PLAYERS <= self.players <= MAX_PLAYERS
    }

    pub fn valid_exec(&self) -> (r: bool)
        ensures
            r == self.valid(),
    {
        MIN_TEAMS <= self.teams && self.teams <= MAX_TEAMS && MIN_PLAYERS <= self.players && self.players <= MAX_PLAYERS
    }

    /// Number of vehicle slots: one per (team, player).
    pub open spec fn slots(&self) -> nat {
        (self.teams * self.players) as nat
    }
}

impl Default for GridOptions {
    fn default() -> (r: Self)
        ensures
            r.grid_size == GridSize::Small,
            r.teams == MIN_TEAMS,
            r.players == MIN_PLAYERS,
            r.ai_diff == AiDifficulty::Hard,
    {
        GridOptions { grid_size: GridSize::Small, teams: MIN_TEAMS, players: MIN_PLAYERS, ai_diff: AiDifficulty::Hard }
    }
}

} // verus!
