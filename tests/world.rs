use tron_io_world::grid::bike::{BikeUpdate, DOWN, LEFT, RIGHT, UP};
use tron_io_world::grid::{
    bike_id, color_to_team, player_from_bike, team_from_bike, team_to_color, Cell, Grid, GridUpdateMsg,
    UpdateResult,
};
use tron_io_world::client::{WorldClient, WorldEvent};
use tron_io_world::server::connection::ServerConnectionState;
use tron_io_world::server::WorldServer;
use tron_io_world::{
    Action, AiDifficulty, ClientMsg, ClientPlayer, GridOptions, GridSize, WorldState,
};

fn options(teams: u8, players: u8) -> GridOptions {
    GridOptions { grid_size: GridSize::Small, teams, players, ai_diff: AiDifficulty::Hard }
}

fn msg(tick: u32, updates: Vec<BikeUpdate>) -> GridUpdateMsg {
    GridUpdateMsg { tick, hash: 0, updates }
}

/// Steps a grid with empty messages for ticks `from..=to`.
fn run_ticks(grid: &mut Grid, from: u32, to: u32) -> Vec<UpdateResult> {
    let mut events = Vec::new();
    (from..=to).map(|t| grid.apply_updates(&msg(t, vec![]), &mut events)).collect()
}

#[test]
fn test_grid_update() {
    let mut grid = Grid::new(GridOptions::default());
    assert_eq!(grid.bikes[0].dir, RIGHT);

    let update = BikeUpdate { id: 1, dir: DOWN, boost: false };
    let msg = GridUpdateMsg { tick: 1, hash: 1234, updates: vec![update] };
    let mut events = Vec::new();
    grid.apply_updates(&msg, &mut events);
    // the command names vehicle 1, so vehicle 1 turns and vehicle 0 keeps its heading
    assert_eq!(grid.bikes[1].dir, DOWN);
    assert_eq!(grid.bikes[0].dir, RIGHT);
}

#[test]
fn cell_packing() {
    let mut cell = Cell::new();
    assert!(!cell.is_occupied());
    assert_eq!(cell.get_color(), 0);
    cell.occupy(5, true, false);
    assert!(cell.is_occupied());
    assert!(cell.is_bike());
    assert!(!cell.is_boost());
    assert_eq!(cell.get_color(), 5);
    assert_eq!(cell.val, 6 | 0x80);
    cell.explode();
    assert!(cell.is_exploded());
    assert!(!cell.is_bike());
    assert_eq!(cell.get_color(), 5);
    assert!(!cell.free(5));
    cell.free_for_real();
    assert_eq!(cell.val, 0);
    let mut boost = Cell::new();
    boost.occupy(0, false, true);
    assert!(boost.is_boost());
    assert!(boost.free(0));
}

#[test]
fn team_and_slot_arithmetic() {
    let o = options(4, 3);
    assert_eq!(team_to_color(2, 3), 11);
    assert_eq!(color_to_team(11), 2);
    assert_eq!(bike_id(&o, 2, 1), 7);
    assert_eq!(team_from_bike(&o, 7), 2);
    assert_eq!(player_from_bike(&o, 7), 1);
}

#[test]
fn grid_size_steps() {
    let mut s = GridSize::Small;
    assert_eq!(s.dim(), (80, 80));
    s.incr();
    assert_eq!(s, GridSize::Medium);
    assert_eq!(s.dim(), (100, 100));
    s.incr();
    s.incr();
    assert_eq!(s, GridSize::Large);
    assert_eq!(s.dim(), (120, 120));
    s.decr();
    assert_eq!(s, GridSize::Large);
}

#[test]
fn starting_layout() {
    let grid = Grid::new(options(4, 4));
    assert_eq!(grid.bikes.len(), 16);
    assert_eq!(grid.bikes[0].head, (8, 40));
    assert_eq!(grid.bikes[4].head, (71, 40));
    assert_eq!(grid.bikes[8].head, (40, 8));
    assert_eq!(grid.bikes[12].head, (40, 72));
    // player 1 of team 0: three to the right of the heading, one behind
    assert_eq!(grid.bikes[1].head, (7, 43));
    assert_eq!(grid.bikes[3].head, (5, 46));
    for b in grid.bikes.iter() {
        assert!(grid.occupied.is_occupied(b.head));
        assert_eq!(grid.occupied.get_cell(b.head).unwrap().get_color(), b.color);
    }
}

#[test]
fn handle_action_commands() {
    let grid = Grid::new(GridOptions::default());
    let bike = &grid.bikes[0];
    assert!(bike.handle_action(Action::Right).is_none());
    assert!(bike.handle_action(Action::Left).is_none());
    let up = bike.handle_action(Action::Up).unwrap();
    assert_eq!((up.id, up.dir, up.boost), (0, UP, false));
    let boost = bike.handle_action(Action::Confirm).unwrap();
    assert_eq!((boost.dir, boost.boost), (RIGHT, true));
    assert!(bike.handle_action(Action::Pause).is_none());
}

#[test]
fn lockstep_checksums_agree() {
    let mut a = Grid::new(options(2, 2));
    let mut b = Grid::new(options(2, 2));
    let script = vec![
        msg(1, vec![BikeUpdate::new(0, UP)]),
        msg(2, vec![]),
        msg(3, vec![BikeUpdate::new(2, DOWN), BikeUpdate::new(1, DOWN)]),
        msg(4, vec![]),
        msg(5, vec![BikeUpdate::new(0, RIGHT)]),
    ];
    let mut ea = Vec::new();
    let mut eb = Vec::new();
    let mut seen = Vec::new();
    for m in script.iter() {
        a.apply_updates(m, &mut ea);
        b.apply_updates(m, &mut eb);
        assert_eq!(a.hash, b.hash);
        assert_eq!(a.tick, b.tick);
        seen.push(a.hash);
    }
    // the checksum follows the vehicles: it changes as they move
    assert_ne!(seen[0], seen[2]);
}

#[test]
fn duplicate_delivery_is_absorbed() {
    let mut grid = Grid::new(options(2, 1));
    run_ticks(&mut grid, 1, 4);
    let m = msg(5, vec![BikeUpdate::new(0, UP)]);
    let mut events = Vec::new();
    grid.apply_updates(&m, &mut events);
    let hash = grid.hash;
    let head = grid.bikes[0].head;
    grid.apply_updates(&m, &mut events);
    assert_eq!(grid.hash, hash);
    assert_eq!(grid.tick, 5);
    assert_eq!(grid.bikes[0].head, head);
    assert_eq!(grid.bikes[0].dir, UP);
}

#[test]
fn collision_kills_and_blocks() {
    let mut grid = Grid::new(options(2, 1));
    // a trail of team 1 three cells ahead of team 0's first move target
    grid.occupied.occupy((13, 40), 4, false);
    grid.occupied.get_cell((13, 40)).unwrap();
    let before = grid.occupied.get_cell((13, 40)).unwrap().val;
    let mut events = Vec::new();
    let mut result = UpdateResult::InProgress;
    for t in 1..=9 {
        result = grid.apply_updates(&msg(t, vec![]), &mut events);
        if t < 9 {
            assert!(grid.bikes[0].alive);
        }
    }
    assert_eq!(result, UpdateResult::InProgress);
    assert!(!grid.bikes[0].alive);
    assert_eq!(grid.bikes[0].head, (12, 40));
    assert!(grid.occupied.get_cell((12, 40)).unwrap().is_exploded());
    // the blocking cell keeps its owner; the head flag it carried is now an explosion
    let after = grid.occupied.get_cell((13, 40)).unwrap();
    assert_eq!(after.get_color(), 4);
    assert_eq!(after.val & 0x1f, before & 0x1f);
    assert!(events.iter().any(|e| matches!(e, WorldEvent::BikeDeath(0, (12, 40)))));
}

#[test]
fn basic_elimination_scenario() {
    let mut grid = Grid::new(options(2, 1));
    grid.occupied.occupy((13, 40), 4, false);
    let results = run_ticks(&mut grid, 1, 9);
    assert!(!grid.bikes[0].alive);
    assert!(grid.bikes[1].alive);
    assert!(results.iter().all(|r| *r == UpdateResult::InProgress));
    // decided within the grace window
    let later = run_ticks(&mut grid, 10, 9 + 31);
    assert_eq!(later.last(), Some(&UpdateResult::MatchOver(Some(1))));
    assert!(later[..later.len() - 1].iter().all(|r| *r == UpdateResult::InProgress));
}

#[test]
fn wall_hit_is_a_collision() {
    let mut grid = Grid::new(options(2, 1));
    let mut events = Vec::new();
    grid.apply_updates(&msg(1, vec![BikeUpdate::new(0, LEFT)]), &mut events);
    run_ticks(&mut grid, 2, 16);
    assert!(grid.bikes[0].alive);
    assert_eq!(grid.bikes[0].head, (0, 40));
    run_ticks(&mut grid, 17, 17);
    assert!(!grid.bikes[0].alive);
    assert_eq!(grid.bikes[0].head, (0, 40));
    assert!(grid.occupied.get_cell((0, 40)).unwrap().is_exploded());
    assert!(grid.occupied.is_occupied((-1, 40)));
}

#[test]
fn simultaneous_elimination_is_a_tie() {
    let mut grid = Grid::new(options(2, 1));
    grid.occupied.occupy((13, 40), 4, false);
    grid.occupied.occupy((66, 40), 0, false);
    run_ticks(&mut grid, 1, 9);
    assert!(!grid.bikes[0].alive);
    assert!(!grid.bikes[1].alive);
    let later = run_ticks(&mut grid, 10, 9 + 31);
    assert_eq!(later.last(), Some(&UpdateResult::MatchOver(None)));
}

#[test]
fn boost_launches_a_projectile() {
    let mut grid = Grid::new(options(2, 1));
    let mut events = Vec::new();
    grid.apply_updates(&msg(1, vec![BikeUpdate { id: 0, dir: RIGHT, boost: true }]), &mut events);
    // fired at (9, 40), then flown one cell on in the same tick; the vehicle followed
    assert_eq!(grid.bullets.len(), 1);
    assert_eq!(grid.bikes[0].boost_count, 2);
    assert!(grid.occupied.get_cell((10, 40)).unwrap().is_boost());
    assert!(grid.bikes[0].alive);
    assert_eq!(grid.bikes[0].head, (9, 40));
}

#[test]
fn repeated_boost_fires_once() {
    let mut grid = Grid::new(options(2, 1));
    let mut events = Vec::new();
    let m = msg(1, vec![BikeUpdate { id: 0, dir: RIGHT, boost: true }]);
    grid.apply_updates(&m, &mut events);
    let cells: Vec<u8> = (0..80).map(|x| grid.occupied.get_cell((x, 40)).unwrap().val).collect();
    let hash = grid.hash;
    assert_eq!(grid.apply_updates(&m, &mut events), UpdateResult::InProgress);
    let again: Vec<u8> = (0..80).map(|x| grid.occupied.get_cell((x, 40)).unwrap().val).collect();
    assert_eq!(cells, again);
    assert_eq!(grid.bullets.len(), 1);
    assert_eq!(grid.bikes[0].boost_count, 2);
    assert_eq!(grid.hash, hash);
}

#[test]
fn empty_charges_fire_nothing() {
    let mut grid = Grid::new(options(2, 1));
    let mut events = Vec::new();
    for t in 1..=4 {
        grid.apply_updates(&msg(t, vec![BikeUpdate { id: 0, dir: RIGHT, boost: true }]), &mut events);
    }
    assert_eq!(grid.bikes[0].boost_count, 0);
    assert!(grid.bullets.len() <= 3);
}

#[test]
fn projectile_leaves_explosions_in_place() {
    let mut grid = Grid::new(options(2, 1));
    // a dead vehicle's exploded head three cells ahead of team 0
    grid.occupied.occupy((11, 40), 4, false);
    grid.occupied.explose((11, 40));
    let mut events = Vec::new();
    grid.apply_updates(&msg(1, vec![BikeUpdate { id: 0, dir: RIGHT, boost: true }]), &mut events);
    run_ticks(&mut grid, 2, 2);
    assert!(grid.bullets.is_empty());
    let cell = grid.occupied.get_cell((11, 40)).unwrap();
    assert!(cell.is_exploded());
    assert!(cell.is_occupied());
    assert_eq!(cell.get_color(), 4);
}

#[test]
fn projectile_destroys_a_head() {
    let mut grid = Grid::new(options(2, 1));
    let mut events = Vec::new();
    // a head-flagged cell of team 1 two cells ahead of team 0
    grid.occupied.occupy((10, 40), 4, false);
    grid.apply_updates(&msg(1, vec![BikeUpdate { id: 0, dir: RIGHT, boost: true }]), &mut events);
    let hit = grid.occupied.get_cell((10, 40)).unwrap();
    assert!(hit.is_exploded());
    assert!(grid.bullets.is_empty());
}

#[test]
fn ai_turns_before_the_wall() {
    let mut o = options(2, 1);
    o.ai_diff = AiDifficulty::Easy;
    let mut grid = Grid::new(o);
    let mut events = Vec::new();
    grid.apply_updates(&msg(1, vec![BikeUpdate::new(0, LEFT)]), &mut events);
    run_ticks(&mut grid, 2, 16);
    assert_eq!(grid.bikes[0].head, (0, 40));
    let u = grid.bikes[0].ai_update(&grid).expect("a free side cell exists");
    assert_eq!(u.id, 0);
    assert!(u.dir == UP || u.dir == DOWN);
    assert!(!u.boost);
    let next = (grid.bikes[0].head.0 + u.dir.0, grid.bikes[0].head.1 + u.dir.1);
    assert!(!grid.occupied.is_occupied(next));
    // below the hardest tier nothing happens when nothing is in the way
    assert!(grid.bikes[1].ai_update(&grid).is_none());
    let normal = Grid::new(GridOptions { ai_diff: AiDifficulty::Normal, ..options(2, 1) });
    assert!(normal.bikes[0].ai_update(&normal).is_none());
}

#[test]
fn hard_ai_chases_through_open_cells() {
    let grid = Grid::new(options(2, 1));
    if let Some(u) = grid.bikes[0].ai_update(&grid) {
        let next = (grid.bikes[0].head.0 + u.dir.0, grid.bikes[0].head.1 + u.dir.1);
        assert!(!grid.occupied.is_occupied(next));
        assert_eq!(u.id, 0);
    }
}

fn player(name: &str, ready: bool, team: u8) -> ClientPlayer {
    ClientPlayer { name: name.to_string(), ready, team_request: team }
}

#[test]
fn join_claims_first_ai_slot() {
    let mut world = WorldServer::new(options(2, 2));
    assert_eq!(world.free_slots(), 4);
    assert_eq!(world.join(&player("a", false, 0)), 0);
    assert_eq!(world.join(&player("b", true, 0)), 1);
    assert_eq!(world.free_slots(), 2);
    assert_eq!(world.players[1].name, "b");
    assert!(world.players[1].ready);
    assert!(!world.players[1].is_ai);
}

#[test]
fn team_change_moves_to_free_slot() {
    let mut world = WorldServer::new(options(2, 1));
    let mut id = world.join(&player("a", false, 0));
    assert_eq!(id, 0);
    assert!(world.update_player(&mut id, &player("a", false, 1)));
    assert_eq!(id, 1);
    assert!(world.players[0].is_ai);
    assert_eq!(world.players[0].name, "AI");
    assert!(!world.players[1].is_ai);
    assert_eq!(world.players[1].name, "a");
}

#[test]
fn team_change_to_full_team_fails() {
    let mut world = WorldServer::new(options(2, 1));
    let mut a = world.join(&player("a", false, 0));
    let mut b = world.join(&player("b", false, 0));
    assert_eq!((a, b), (0, 1));
    let names: Vec<String> = world.players.iter().map(|p| p.name.clone()).collect();
    assert!(!world.update_player(&mut a, &player("a", false, 1)));
    assert_eq!(a, 0);
    let after: Vec<String> = world.players.iter().map(|p| p.name.clone()).collect();
    assert_eq!(names, after);
    assert!(!world.players[0].is_ai && !world.players[1].is_ai);
    // an existing player's readiness still counts as a change
    assert!(world.update_player(&mut b, &player("b", true, 1)));
    assert_eq!(b, 1);
}

#[test]
fn server_round_starts_when_all_ready() {
    let mut world = WorldServer::new(options(2, 1));
    world.update(1_000_000);
    assert_eq!(world.world_state, WorldState::Waiting);
    world.join(&player("a", true, 0));
    world.update(2_000_000);
    assert_eq!(world.world_state, WorldState::Playing);
    assert_eq!(world.last_update_time, 2_000_000);
    // not yet a tick period
    world.update(2_010_000);
    assert_eq!(world.get_last_update().tick, 0);
    world.update(2_020_000);
    assert_eq!(world.get_last_update().tick, 1);
    assert_eq!(world.get_last_update().hash, world.grid.hash);
}

#[test]
fn push_update_only_while_playing() {
    let mut world = WorldServer::new(options(2, 1));
    world.push_update(&vec![BikeUpdate::new(0, UP)]);
    assert!(world.next_update.updates.is_empty());
    world.join(&player("a", true, 0));
    world.update(1_000_000);
    world.push_update(&vec![BikeUpdate::new(0, UP)]);
    assert_eq!(world.next_update.updates.len(), 1);
}

#[test]
fn connection_replies_on_join_then_stays_quiet() {
    let mut world = WorldServer::new(options(2, 1));
    let mut conn = ServerConnectionState::new();
    let hello = ClientMsg { players: vec![player("a", false, 0)], state: WorldState::Waiting, update: None };
    let reply = conn.on_msg(&hello, &mut world).expect("a join is answered");
    assert_eq!(reply.local_player_ids, vec![0]);
    assert_eq!(reply.options, Some(options(2, 1)));
    assert_eq!(reply.state, WorldState::Waiting);
    assert_eq!(reply.score, vec![0, 0]);
    assert!(conn.on_msg(&hello, &mut world).is_none());
    assert!(conn.update(&world).is_none());
    // a lagging tick is owed a delta even outside play
    world.last_update.tick = 7;
    let r = conn.update(&world).unwrap();
    assert_eq!(r.grid_update.unwrap().tick, 7);
    assert!(conn.on_msg(&hello, &mut world).is_some());
    world.last_update.tick = 0;
    // a name change is answered
    let renamed = ClientMsg { players: vec![player("b", false, 0)], state: WorldState::Waiting, update: None };
    assert!(conn.on_msg(&renamed, &mut world).is_some());
    assert!(conn.on_msg(&renamed, &mut world).is_none());
    // a stale session state is owed a reply
    let stale = ClientMsg { players: vec![player("a", false, 0)], state: WorldState::Playing, update: None };
    let r = conn.on_msg(&stale, &mut world).unwrap();
    assert!(r.options.is_none());
    assert!(conn.update(&world).is_some());
}

#[test]
fn client_joins_and_readies() {
    let mut client = WorldClient::new();
    assert_eq!(client.handle_input(None, Action::Confirm), Some(0));
    assert_eq!(client.local_players[0].name, "p0");
    assert_eq!(client.handle_input(None, Action::Confirm), Some(1));
    assert_eq!(client.local_players[1].name, "p1");
    for _ in 2..12 {
        client.handle_input(None, Action::Confirm);
    }
    assert_eq!(client.local_players[11].name, "p11");
    client.local_players.truncate(2);
    client.outbox.truncate(2);
    assert_eq!(client.handle_input(Some(0), Action::Right), Some(0));
    assert_eq!(client.local_players[0].team_request, 1);
    client.handle_input(Some(0), Action::Right);
    assert_eq!(client.local_players[0].team_request, 1);
    client.handle_input(Some(0), Action::Confirm);
    assert!(client.local_players[0].ready);
    assert_eq!(client.outbox.len(), 4);
    assert_eq!(client.outbox[3].players.len(), 2);
}

#[test]
fn client_follows_the_server() {
    let mut world = WorldServer::new(options(2, 1));
    let mut conn = ServerConnectionState::new();
    let mut client = WorldClient::new();
    client.handle_input(None, Action::Confirm);
    client.handle_input(Some(0), Action::Confirm);
    for m in client.outbox.drain(..).collect::<Vec<_>>() {
        if let Some(r) = conn.on_msg(&m, &mut world) {
            client.handle_server_msg(r);
        }
    }
    world.update(1_000_000);
    assert_eq!(world.world_state, WorldState::Playing);
    world.update(1_020_000);
    let r = conn.update(&world).unwrap();
    client.handle_server_msg(r);
    assert_eq!(client.game_state, WorldState::Playing);
    assert_eq!(client.grid.tick, world.grid.tick);
    assert_eq!(client.grid.hash, world.grid.hash);
    assert!(client.desyncs.is_empty());
    // in play an action is sent, not applied locally
    let head = client.grid.bikes[0].head;
    client.handle_input(Some(0), Action::Up);
    assert_eq!(client.grid.bikes[0].dir, RIGHT);
    assert_eq!(client.grid.bikes[0].head, head);
    let last = client.outbox.last().unwrap();
    assert_eq!(last.update.as_ref().unwrap().updates[0].dir, UP);
}

#[test]
fn grid_getters() {
    let grid = Grid::new(GridOptions { grid_size: GridSize::Medium, teams: 3, players: 2, ai_diff: AiDifficulty::Normal });
    assert_eq!(grid.size(), (100, 100));
    assert_eq!(grid.get_color(3), 5);
    assert_eq!(grid.bikes[3].team, 1);
    assert_eq!(grid.bikes[3].player, 1);
}

#[test]
fn largest_grid_full_roster() {
    let grid = Grid::new(GridOptions { grid_size: GridSize::Large, teams: 4, players: 4, ai_diff: AiDifficulty::Hard });
    assert_eq!(grid.size(), (120, 120));
    assert_eq!(grid.bikes.len(), 16);
    assert_eq!(grid.bikes[4].head, (111, 60));
    assert_eq!(grid.bikes[15].head, (66, 115));
    for (i, a) in grid.bikes.iter().enumerate() {
        assert_eq!(a.id as usize, i);
        for b in grid.bikes.iter().skip(i + 1) {
            assert_ne!(a.head, b.head);
        }
    }
}

#[test]
fn client_slot_lookup() {
    let mut client = WorldClient::new();
    client.local_player_ids = vec![3, 1];
    assert_eq!(client.server_player(0), Some(3));
    assert_eq!(client.server_player(2), None);
    assert_eq!(client.local_player(1), Some(1));
    assert_eq!(client.local_player(0), None);
}

#[test]
fn malformed_delta_is_dropped() {
    let mut world = WorldServer::new(options(2, 1));
    let mut conn = ServerConnectionState::new();
    let hello = ClientMsg { players: vec![player("a", true, 0)], state: WorldState::Waiting, update: None };
    conn.on_msg(&hello, &mut world);
    world.update(1_000_000);
    assert_eq!(world.world_state, WorldState::Playing);
    let bad = ClientMsg {
        players: vec![player("a", true, 0)],
        state: WorldState::Playing,
        update: Some(GridUpdateMsg { tick: 0, hash: 0, updates: vec![BikeUpdate::new(9, UP), BikeUpdate::new(0, (2, 0))] }),
    };
    conn.on_msg(&bad, &mut world);
    assert!(world.next_update.updates.is_empty());
    let good = ClientMsg {
        players: vec![player("a", true, 0)],
        state: WorldState::Playing,
        update: Some(GridUpdateMsg { tick: 0, hash: 0, updates: vec![BikeUpdate::new(0, UP)] }),
    };
    conn.on_msg(&good, &mut world);
    assert_eq!(world.next_update.updates.len(), 1);
}

#[test]
fn basic_elimination_rounds_over() {
    let mut world = WorldServer::new(options(2, 1));
    world.join(&player("a", true, 0));
    let mut now: u64 = 1_000_000;
    world.update(now);
    assert_eq!(world.world_state, WorldState::Playing);
    // team 1's trail lies across team 0's path
    world.grid.occupied.occupy((13, 40), 4, false);
    let mut ticks = 0;
    while world.world_state == WorldState::Playing && ticks < 100 {
        now += 20_000;
        world.update(now);
        ticks += 1;
        if ticks == 8 {
            assert!(world.grid.bikes[0].alive);
        }
        if ticks == 9 {
            assert!(!world.grid.bikes[0].alive);
        }
    }
    assert_eq!(world.world_state, WorldState::RoundOver(Some(1)));
    assert!(ticks <= 9 + 31);
    assert_eq!(world.scores, vec![0, 1]);
    assert!(!world.players[0].ready);
}
