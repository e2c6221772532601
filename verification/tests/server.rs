use crabs_server::geom::Pos;
use crabs_server::geom::Vec2;
use crabs_server::geom::Vec3;
use crabs_server::protocol::ClientMessage;
use crabs_server::protocol::Config;
use crabs_server::protocol::ServerMessage;
use crabs_server::protocol::SharkBehavior;
use crabs_server::protocol::SharkConfig;
use crabs_server::state::SharkDraws;
use crabs_server::state::State;
use crabs_server::tiles::TileSet;

fn cfg() -> Config {
    Config {
        poop_cooldown: 5000,
        gravity: 10000,
        attack_time: 300,
        dash_cooldown: 3000,
        dash_distance: 10000,
        push_distance: 3000,
        restart_timer: 5000,
        tile_size: 2000,
        raft_size: 5,
        shark: SharkConfig {
            attack_prob: 100,
            count: 2,
            depth: -1500,
            speed: 2000,
            extra_move_radius: 5000,
        },
    }
}

fn no_sharks() -> Config {
    let mut c = cfg();
    c.shark.count = 0;
    c
}

fn still(x: i64, y: i64, z: i64) -> Pos {
    Pos {
        pos: Vec3 { x, y, z },
        rot: 0,
        vel: Vec3 { x: 0, y: 0, z: 0 },
    }
}

/// A world with named, alive players at chosen positions; outbox drained.
fn world_with_players(positions: &[(i64, i64)]) -> (State, Vec<u64>) {
    let mut st = State::new(no_sharks());
    let mut ids = Vec::new();
    for (x, y) in positions {
        let id = st.new_player();
        st.handle(id, ClientMessage::Name(format!("p{id}")));
        st.player_pos.entries.push((id, still(*x, *y, 0)));
        ids.push(id);
    }
    st.outbox.clear();
    (st, ids)
}

#[test]
fn world_start_allocates_shark_ids_and_nothing_else() {
    let st = State::new(cfg());
    assert_eq!(st.sharks.entries.len(), 2);
    assert_eq!(st.sharks.entries[0].0, 1);
    assert_eq!(st.sharks.entries[1].0, 2);
    assert!(matches!(st.sharks.entries[0].1.behavior, SharkBehavior::Wandering));
    assert_eq!(st.last_id, 2);
    assert!(st.conns.ids.is_empty());
    assert!(st.raft.tiles.is_empty());
    assert!(st.outbox.is_empty());
}

#[test]
fn join_sends_snapshot_and_registers() {
    let mut st = State::new(cfg());
    let id = st.new_player();
    assert_eq!(id, 3);
    assert_eq!(st.conns.ids, vec![3]);
    // heartbeat, platform, predators: in that order, all to the joiner
    assert!(st.outbox.iter().all(|(dest, _)| *dest == id));
    assert!(matches!(st.outbox[0].1, ServerMessage::Pog));
    assert!(matches!(st.outbox[1].1, ServerMessage::UpdateRaft(_)));
    assert!(matches!(st.outbox[2].1, ServerMessage::UpdateSharks(_)));
    // a second joiner gets the first's name
    st.handle(id, ClientMessage::Name("ann".to_string()));
    st.outbox.clear();
    let id2 = st.new_player();
    assert_eq!(id2, 4);
    assert!(st.outbox.iter().any(|(dest, m)| *dest == id2
        && matches!(m, ServerMessage::Name(nid, n) if *nid == id && n == "ann")));
}

#[test]
fn leave_cleans_up_and_broadcasts() {
    let (mut st, ids) = world_with_players(&[(0, 0), (4000, 0)]);
    let (a, b) = (ids[0], ids[1]);
    st.wait_for_teleport_ack.ids.push(a);
    st.dash_cooldowns.entries.push((a, 1000));
    st.drop_player(a);
    assert!(!st.conns.ids.contains(&a));
    assert!(st.conns.ids.contains(&b));
    assert!(st.player_pos.entries.iter().all(|(id, _)| *id != a));
    assert!(st.names.entries.iter().all(|(id, _)| *id != a));
    assert!(st.dash_cooldowns.entries.iter().all(|(id, _)| *id != a));
    assert!(st.wait_for_teleport_ack.ids.iter().all(|id| *id != a));
    assert_eq!(st.outbox.len(), 1);
    assert!(matches!(st.outbox[0], (dest, ServerMessage::PlayerLeft { id }) if dest == b && id == a));
}

#[test]
fn stale_client_id_is_a_safe_no_op() {
    let (mut st, _) = world_with_players(&[(0, 0)]);
    st.handle(999, ClientMessage::UpdatePos(still(1, 2, 3)));
    st.handle(999, ClientMessage::Poop);
    assert!(st.outbox.is_empty());
    assert_eq!(st.player_pos.entries.len(), 1);
}

#[test]
fn position_updates_ignored_until_teleport_ack() {
    let (mut st, ids) = world_with_players(&[(0, 0)]);
    let a = ids[0];
    let here = still(0, 0, 0);
    let there = still(7000, 1000, 0);
    st.wait_for_teleport_ack.ids.push(a);
    // repeated updates while the flag is set change nothing
    st.handle(a, ClientMessage::UpdatePos(there));
    st.handle(a, ClientMessage::UpdatePos(there));
    assert_eq!(st.player_pos.entries[0].1, here);
    // after acknowledgement, updates resume immediately
    st.handle(a, ClientMessage::TeleportAck);
    st.handle(a, ClientMessage::UpdatePos(there));
    assert_eq!(st.player_pos.entries[0].1, there);
}

#[test]
fn position_update_for_dead_player_is_ignored() {
    let mut st = State::new(no_sharks());
    let id = st.new_player();
    st.handle(id, ClientMessage::Name("n".to_string()));
    st.outbox.clear();
    st.handle(id, ClientMessage::UpdatePos(still(5, 5, 5)));
    assert!(st.player_pos.entries.is_empty());
}

#[test]
fn drowning_fires_exactly_once_on_the_transition() {
    // platform = {(0,0)} only
    let (mut st, ids) = world_with_players(&[(0, 0), (40000, 40000)]);
    let (a, b) = (ids[0], ids[1]);
    st.raft.tiles.push(Vec2 { x: 0, y: 0 });
    // player a's 3x3 window includes (0,0): stays alive.
    // player b is far away: drowns, with one notice each way.
    st.tick_drowning();
    assert!(st.player_pos.entries.iter().any(|(id, _)| *id == a));
    assert!(st.player_pos.entries.iter().all(|(id, _)| *id != b));
    let drowned: Vec<_> = st
        .outbox
        .iter()
        .filter(|(_, m)| matches!(m, ServerMessage::YouDrown | ServerMessage::PlayerDrown(_)))
        .collect();
    assert_eq!(drowned.len(), 2);
    assert!(matches!(drowned[0], (dest, ServerMessage::YouDrown) if *dest == b));
    assert!(matches!(drowned[1], (dest, ServerMessage::PlayerDrown(id)) if *dest == a && *id == b));
    // no further notices on later ticks
    st.outbox.clear();
    st.tick_drowning();
    assert!(st.outbox.is_empty());
    // a player one tile off the platform edge is still supported
    st.player_pos.entries[0].1 = still(2000, 2000, 0);
    st.tick_drowning();
    assert!(st.player_pos.entries.iter().any(|(id, _)| *id == a));
}

#[test]
fn attack_capped_by_nearest_hit() {
    // nearest valid intersection at t = 4 caps the 10-unit dash at 4
    let (mut st, ids) = world_with_players(&[(0, 0), (6000, 0)]);
    let (a, b) = (ids[0], ids[1]);
    st.resolve_attack(a, Vec2 { x: 1000, y: 0 });
    let ap = st.player_pos.entries.iter().find(|(id, _)| *id == a).unwrap().1;
    assert_eq!((ap.pos.x, ap.pos.y), (4000, 0));
    // the victim is pushed 3 units beyond its place along the same line
    let bp = st.player_pos.entries.iter().find(|(id, _)| *id == b).unwrap().1;
    assert_eq!((bp.pos.x, bp.pos.y), (9000, 0));
    // both must acknowledge the teleport
    assert!(st.wait_for_teleport_ack.ids.contains(&a));
    assert!(st.wait_for_teleport_ack.ids.contains(&b));
    // the attacker's dash cooldown started
    assert!(st.dash_cooldowns.entries.iter().any(|(id, t)| *id == a && *t == 3000));
    // notices: push to victim first, then damage, then the dash
    assert!(matches!(st.outbox[0], (d, ServerMessage::YouWasPushed(_)) if d == b));
    assert!(st.outbox.iter().any(|(_, m)| matches!(m, ServerMessage::Damage(p) if p.x == 5000)));
    assert!(st.outbox.iter().any(|(d, m)| *d == a
        && matches!(m, ServerMessage::YouDash(p) if p.x == 4000)));
}

#[test]
fn attack_travels_full_distance_without_target() {
    let (mut st, ids) = world_with_players(&[(0, 0)]);
    let a = ids[0];
    st.resolve_attack(a, Vec2 { x: 1000, y: 0 });
    let ap = st.player_pos.entries.iter().find(|(id, _)| *id == a).unwrap().1;
    assert_eq!((ap.pos.x, ap.pos.y), (10000, 0));
}

#[test]
fn attack_ignores_players_off_the_ray() {
    let (mut st, ids) = world_with_players(&[(0, 0), (5000, 3000)]);
    let a = ids[0];
    st.resolve_attack(a, Vec2 { x: 1000, y: 0 });
    let ap = st.player_pos.entries.iter().find(|(id, _)| *id == a).unwrap().1;
    assert_eq!((ap.pos.x, ap.pos.y), (10000, 0));
}

#[test]
fn attack_request_guards_and_wind_up() {
    let (mut st, ids) = world_with_players(&[(0, 0), (6000, 0)]);
    let (a, b) = (ids[0], ids[1]);
    st.handle(a, ClientMessage::Attack(Vec3 { x: 6000, y: 0, z: 0 }));
    let pa = st.attacks.entries.iter().find(|(id, _)| *id == a).unwrap().1;
    assert_eq!((pa.dir.x, pa.dir.y), (1000, 0));
    assert_eq!(pa.time_left, 300);
    assert!(st.outbox.iter().any(|(d, m)| *d == a
        && matches!(m, ServerMessage::YouStartAttack(_))));
    assert!(st.outbox.iter().any(|(d, m)| *d == b
        && matches!(m, ServerMessage::StartAttack(_, id) if *id == a)));
    // on cooldown: a new request is silently ignored
    st.dash_cooldowns.entries.push((b, 1000));
    st.outbox.clear();
    st.handle(b, ClientMessage::Attack(Vec3 { x: 0, y: 0, z: 0 }));
    assert!(st.attacks.entries.iter().all(|(id, _)| *id != b));
    assert!(st.outbox.is_empty());
}

#[test]
fn attack_fires_when_wind_up_expires() {
    let (mut st, ids) = world_with_players(&[(0, 0)]);
    let a = ids[0];
    st.handle(a, ClientMessage::Attack(Vec3 { x: 5000, y: 0, z: 0 }));
    st.outbox.clear();
    st.tick_attacks(100);
    // 300 ms wind-up: not yet
    assert_eq!(st.attacks.entries.len(), 1);
    assert_eq!(st.attacks.entries[0].1.time_left, 200);
    st.tick_attacks(100);
    st.tick_attacks(100);
    // fired and removed exactly once
    assert!(st.attacks.entries.is_empty());
    let ap = st.player_pos.entries[0].1;
    assert_eq!(ap.pos.x, 10000);
    st.outbox.clear();
    st.tick_attacks(100);
    assert!(st.outbox.is_empty());
}

#[test]
fn cooldowns_expire_with_restore_notices() {
    let (mut st, ids) = world_with_players(&[(0, 0)]);
    let a = ids[0];
    st.dash_cooldowns.entries.push((a, 150));
    st.poop_cooldowns.entries.push((a, 50));
    st.tick_cooldowns(100);
    assert_eq!(st.dash_cooldowns.entries, vec![(a, 50)]);
    assert!(st.poop_cooldowns.entries.is_empty());
    assert_eq!(st.outbox.len(), 1);
    assert!(matches!(st.outbox[0], (d, ServerMessage::YouCanPoopCongratulations) if d == a));
    st.outbox.clear();
    st.tick_cooldowns(100);
    assert!(st.dash_cooldowns.entries.is_empty());
    assert!(matches!(st.outbox[0], (d, ServerMessage::DashRestore) if d == a));
}

#[test]
fn projectiles_fall_and_land() {
    let (mut st, ids) = world_with_players(&[(0, 0)]);
    let a = ids[0];
    st.gull_pos.entries.push((a, still(100, 200, 5000)));
    st.handle(a, ClientMessage::Poop);
    assert_eq!(st.flying_poops.len(), 1);
    assert!(st.poop_cooldowns.entries.iter().any(|(id, t)| *id == a && *t == 5000));
    assert!(st.outbox.iter().any(|(_, m)| matches!(m, ServerMessage::FlyingPoop(_))));
    // a second request during the cooldown is ignored
    st.outbox.clear();
    st.handle(a, ClientMessage::Poop);
    assert_eq!(st.flying_poops.len(), 1);
    assert!(st.outbox.is_empty());
    // gravity 10 units/s^2: after one tick the projectile still flies
    st.tick_projectiles(100);
    assert_eq!(st.flying_poops.len(), 1);
    assert_eq!(st.flying_poops[0].vel.z, -1000);
    assert_eq!(st.flying_poops[0].pos.z, 4900);
    // low enough: it lands and everyone hears where
    st.flying_poops[0].pos.z = 50;
    st.outbox.clear();
    st.tick_projectiles(100);
    assert!(st.flying_poops.is_empty());
    assert!(matches!(st.outbox[0], (d, ServerMessage::PoopOnFloor(p)) if d == a && p.x == 100));
}

#[test]
fn refresh_request_returns_deltas() {
    let (mut st, ids) = world_with_players(&[(0, 0), (4000, 0)]);
    let (a, b) = (ids[0], ids[1]);
    st.handle(a, ClientMessage::Pig);
    assert!(st.outbox.iter().all(|(d, _)| *d == a));
    assert!(matches!(st.outbox[0].1, ServerMessage::Pog));
    assert!(st.outbox.iter().any(|(_, m)| matches!(m, ServerMessage::UpdatePos { id, .. } if *id == b)));
    assert!(st.outbox.iter().any(|(_, m)| matches!(m, ServerMessage::UpdateSharks(_))));
    assert!(!st.outbox.iter().any(|(_, m)| matches!(m, ServerMessage::UpdatePos { id, .. } if *id == a)));
}

#[test]
fn restart_countdown_starts_when_population_drops() {
    // 2 named participants, alive count dropping to 1
    let (mut st, ids) = world_with_players(&[(0, 0), (4000, 0)]);
    let b = ids[1];
    st.drop_player(b);
    st.names.entries.push((b, "back".to_string()));
    st.conns.ids.push(b);
    // alive = 1, named = 2: the countdown starts with the configured duration
    st.tick_restart(100);
    assert_eq!(st.restart_timer, Some(5000));
    // idempotent: a running countdown is not restarted
    st.tick_restart(100);
    assert_eq!(st.restart_timer, Some(4900));
}

#[test]
fn restart_rebuilds_the_canonical_disc_and_clears_predators() {
    let mut st = State::new(cfg());
    let a = st.new_player();
    st.handle(a, ClientMessage::Name("solo".to_string()));
    st.sharks.entries[0].1.behavior = SharkBehavior::Eroding {
        tile: Vec2 { x: 1, y: 0 },
        elapsed: 500,
    };
    st.restart_timer = Some(0);
    st.outbox.clear();
    st.tick_restart(100);
    assert_eq!(st.restart_timer, None);
    // the platform is exactly the canonical disc of radius 5
    let disc = TileSet::disc(5);
    assert_eq!(st.raft.tiles.len(), disc.tiles.len());
    for t in &disc.tiles {
        assert!(st.raft.tiles.contains(t));
    }
    assert!(st.raft.tiles.contains(&Vec2 { x: 5, y: 0 }));
    assert!(st.raft.tiles.contains(&Vec2 { x: 3, y: 4 }));
    assert!(!st.raft.tiles.contains(&Vec2 { x: 4, y: 4 }));
    // every predator's erosion target and timer are cleared to absent
    for (_, s) in &st.sharks.entries {
        assert!(matches!(s.behavior, SharkBehavior::Wandering));
    }
    // the named participant respawned at rest near the origin
    let p = st.player_pos.entries.iter().find(|(id, _)| *id == a).unwrap().1;
    assert!(p.pos.x.abs() <= 1000 && p.pos.y.abs() <= 1000 && p.pos.z == 0);
    assert_eq!(p.vel, Vec3 { x: 0, y: 0, z: 0 });
    // and everyone was told the world was reset
    assert!(st.outbox.iter().any(|(_, m)| matches!(m, ServerMessage::JustRestarted)));
    assert!(st.outbox.iter().any(|(_, m)| matches!(m, ServerMessage::UpdateRaft(_))));
    assert!(st.outbox.iter().any(|(d, m)| *d == a && matches!(m, ServerMessage::YouSpawn(_))));
}

#[test]
fn eroding_shark_destroys_its_tile_after_the_threshold() {
    let (mut st, _) = world_with_players(&[(0, 0)]);
    st.raft.tiles.push(Vec2 { x: 0, y: 0 });
    let sid = 100;
    st.sharks.entries.push((
        sid,
        crabs_server::protocol::Shark {
            pos: still(0, 0, -1500),
            target_pos: Vec2 { x: 0, y: 0 },
            behavior: SharkBehavior::Eroding { tile: Vec2 { x: 0, y: 0 }, elapsed: 0 },
        },
    ));
    st.last_id = sid;
    let draws = SharkDraws { roll: 0, pick: 0, d1: 0, d2: 0 };
    st.shark_step(sid, 100, draws);
    // the timer advanced, nothing destroyed yet
    assert!(matches!(
        st.sharks.entries.last().unwrap().1.behavior,
        SharkBehavior::Eroding { elapsed: 100, .. }
    ));
    assert!(st.raft.tiles.contains(&Vec2 { x: 0, y: 0 }));
    // past the one-second threshold the tile is destroyed and announced
    for _ in 0..10 {
        st.shark_step(sid, 100, draws);
    }
    assert!(!st.raft.tiles.contains(&Vec2 { x: 0, y: 0 }));
    assert!(matches!(st.sharks.entries.last().unwrap().1.behavior, SharkBehavior::Wandering));
    assert!(st
        .outbox
        .iter()
        .any(|(_, m)| matches!(m, ServerMessage::Destroy(id, t) if *id == sid && t.x == 0)));
}

#[test]
fn eroding_timer_stops_when_the_tile_vanishes() {
    let (mut st, _) = world_with_players(&[(0, 0)]);
    // the target tile is not on the platform: the predator gives up
    let sid = 100;
    st.sharks.entries.push((
        sid,
        crabs_server::protocol::Shark {
            pos: still(0, 0, -1500),
            target_pos: Vec2 { x: 0, y: 0 },
            behavior: SharkBehavior::Eroding { tile: Vec2 { x: 3, y: 3 }, elapsed: 900 },
        },
    ));
    st.last_id = sid;
    st.outbox.clear();
    st.shark_step(sid, 100, SharkDraws { roll: 0, pick: 0, d1: 0, d2: 0 });
    assert!(matches!(st.sharks.entries.last().unwrap().1.behavior, SharkBehavior::Wandering));
    assert!(st.outbox.is_empty());
}

#[test]
fn approaching_shark_confirms_its_target_on_arrival() {
    let (mut st, _) = world_with_players(&[(0, 0)]);
    st.raft.tiles.push(Vec2 { x: 1, y: 0 });
    let sid = 100;
    // sitting exactly at its approach point, with the pending tile present
    st.sharks.entries.push((
        sid,
        crabs_server::protocol::Shark {
            pos: still(4000, 0, -1500),
            target_pos: Vec2 { x: 4000, y: 0 },
            behavior: SharkBehavior::Approaching { tile: Vec2 { x: 1, y: 0 } },
        },
    ));
    st.last_id = sid;
    st.outbox.clear();
    st.shark_step(sid, 100, SharkDraws { roll: 999, pick: 0, d1: 0, d2: 0 });
    assert!(matches!(
        st.sharks.entries.last().unwrap().1.behavior,
        SharkBehavior::Eroding { elapsed: 0, .. }
    ));
    assert!(st
        .outbox
        .iter()
        .any(|(_, m)| matches!(m, ServerMessage::AboutToDestroy(id, _) if *id == sid)));
}

#[test]
fn wandering_shark_picks_an_exposed_tile_with_a_lucky_roll() {
    let (mut st, _) = world_with_players(&[(0, 0)]);
    st.raft.tiles.push(Vec2 { x: 0, y: 0 });
    let sid = 100;
    st.sharks.entries.push((
        sid,
        crabs_server::protocol::Shark {
            pos: still(8000, 0, -1500),
            target_pos: Vec2 { x: 8000, y: 0 },
            behavior: SharkBehavior::Wandering,
        },
    ));
    st.last_id = sid;
    // roll 0 < probability 100: choose the single candidate (0,0), whose
    // first missing neighbor is its west side (-1,0)
    st.shark_step(sid, 100, SharkDraws { roll: 0, pick: 0, d1: 0, d2: 0 });
    let s = st.sharks.entries.last().unwrap().1;
    assert!(matches!(s.behavior, SharkBehavior::Approaching { tile } if tile == Vec2 { x: 0, y: 0 }));
    assert_eq!((s.target_pos.x, s.target_pos.y), (-2000, 0));
    // an unlucky roll wanders instead
    let (mut st2, _) = world_with_players(&[(0, 0)]);
    st2.raft.tiles.push(Vec2 { x: 0, y: 0 });
    st2.sharks.entries.push((
        sid,
        crabs_server::protocol::Shark {
            pos: still(8000, 0, -1500),
            target_pos: Vec2 { x: 8000, y: 0 },
            behavior: SharkBehavior::Wandering,
        },
    ));
    st2.last_id = sid;
    st2.shark_step(sid, 100, SharkDraws { roll: 999, pick: 0, d1: 0, d2: 0 });
    assert!(matches!(st2.sharks.entries.last().unwrap().1.behavior, SharkBehavior::Wandering));
}

#[test]
fn swimming_shark_never_overshoots_its_target() {
    let (mut st, _) = world_with_players(&[(0, 0)]);
    let sid = 100;
    st.sharks.entries.push((
        sid,
        crabs_server::protocol::Shark {
            pos: still(0, 0, -1500),
            target_pos: Vec2 { x: 10000, y: 0 },
            behavior: SharkBehavior::Wandering,
        },
    ));
    st.last_id = sid;
    // speed 2 units/s over 100 ms: at most 0.2 units per step
    st.shark_step(sid, 100, SharkDraws { roll: 0, pick: 0, d1: 0, d2: 0 });
    let s = st.sharks.entries.last().unwrap().1;
    assert!(0 < s.pos.pos.x && s.pos.pos.x <= 200);
    assert_eq!(s.pos.rot, 0);
    assert!(s.pos.vel.x > 0);
}

#[test]
fn tick_stands_still_without_connections() {
    let mut st = State::new(cfg());
    st.tick(100);
    assert!(st.outbox.is_empty());
    assert_eq!(st.restart_timer, None);
}

#[test]
fn full_session_round() {
    let mut st = State::new(cfg());
    let a = st.new_player();
    let b = st.new_player();
    st.handle(a, ClientMessage::Name("ann".to_string()));
    st.handle(b, ClientMessage::Name("bob".to_string()));
    // two named, none alive: the countdown starts and eventually fires
    for _ in 0..60 {
        st.tick(100);
    }
    assert!(st.player_pos.entries.iter().any(|(id, _)| *id == a));
    assert!(st.player_pos.entries.iter().any(|(id, _)| *id == b));
    assert!(!st.raft.tiles.is_empty());
    // the world keeps ticking without panicking
    for _ in 0..50 {
        st.tick(100);
    }
}

#[test]
fn drowned_attacker_resolves_to_nothing() {
    // the attacker's wind-up ends on the same tick it drowns: the drowning
    // check runs first, so the attack fizzles
    let (mut st, ids) = world_with_players(&[(0, 0), (6000, 0)]);
    let (a, b) = (ids[0], ids[1]);
    st.handle(a, ClientMessage::Attack(Vec3 { x: 6000, y: 0, z: 0 }));
    st.raft.tiles.push(Vec2 { x: 3, y: 0 });  // supports b only
    st.attacks.entries[0].1.time_left = 100;
    st.outbox.clear();
    st.tick(100);
    assert!(st.player_pos.entries.iter().all(|(id, _)| *id != a));
    let bp = st.player_pos.entries.iter().find(|(id, _)| *id == b).unwrap().1;
    assert_eq!((bp.pos.x, bp.pos.y), (6000, 0));
    assert!(st.attacks.entries.is_empty());
    assert!(!st.outbox.iter().any(|(_, m)| matches!(m, ServerMessage::YouDash(_))));
}

#[test]
fn out_of_range_client_points_are_ignored() {
    let (mut st, ids) = world_with_players(&[(0, 0)]);
    let a = ids[0];
    let far = still(i64::MAX / 2, 0, 0);
    st.handle(a, ClientMessage::UpdatePos(far));
    assert_eq!(st.player_pos.entries[0].1, still(0, 0, 0));
    st.handle(a, ClientMessage::UpdateGullPos(far));
    assert!(st.gull_pos.entries.is_empty());
    st.handle(a, ClientMessage::Attack(Vec3 { x: i64::MAX / 2, y: 0, z: 0 }));
    assert!(st.attacks.entries.is_empty());
}

#[test]
fn airborne_updates_flow_to_refreshers() {
    let (mut st, ids) = world_with_players(&[(0, 0), (4000, 0)]);
    let (a, b) = (ids[0], ids[1]);
    st.handle(b, ClientMessage::UpdateGullPos(still(1, 2, 3000)));
    assert!(st.gull_pos.entries.iter().any(|(id, p)| *id == b && p.pos.z == 3000));
    st.outbox.clear();
    st.handle(a, ClientMessage::Pig);
    assert!(st.outbox.iter().any(|(d, m)| *d == a
        && matches!(m, ServerMessage::UpdateGullPos { id, .. } if *id == b)));
}
