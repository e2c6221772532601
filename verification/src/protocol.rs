//! The wire-facing data model: client and server messages, the predator
//! record, and the immutable configuration the core consumes.
//!
//! Coordinates are milli-units and durations milliseconds throughout (see
//! [`crate::geom`]). Client ids are opaque `u64`s, allocated monotonically
//! and never reused.

use vstd::prelude::*;
use crate::geom::Pos;
use crate::geom::Vec2;
use crate::geom::Vec3;
use crate::geom::COORD_MAX;
use crate::geom::abs_i;
use crate::geom::pos_ok;
use crate::geom::v2_ok;
use crate::tiles::tile_ok;

verus! {

/// Greatest duration (ms) a timer or cooldown may hold.
pub const TIME_MAX: i64 = 1000000000;

/// How long (ms) a predator gnaws before its target tile is destroyed.
pub const EROSION_TIME: i64 = 1000;

/// Radius (milli-units) of a player's circular hitbox.
pub const HIT_RADIUS: i64 = 2000;

/// Half-width (milli-units) of the box players respawn in.
pub const SPAWN_BOX: i64 = 1000;

/// What a predator is doing. The erosion timer exists exactly in the
/// `Eroding` state, so a timer without a confirmed target tile (or the
/// other way round) cannot be represented.
#[derive(Clone, Copy, PartialEq, Eq, Structural, Debug)]
pub enum SharkBehavior {
    /// Swimming toward a random point near the raft.
    Wandering,
    /// Swimming toward the free spot next to `tile`, intending to erode it.
    Approaching { tile: Vec2 },
    /// Sitting at the free spot, gnawing `tile` for `elapsed` ms.
    Eroding { tile: Vec2, elapsed: i64 },
}

/// A predator: persistent, created at world start and never destroyed.
#[derive(Clone, Copy, PartialEq, Eq, Structural, Debug)]
pub struct Shark {
    pub pos: Pos,
    /// Where it is heading (a world point; while eroding, where it sits).
    pub target_pos: Vec2,
    pub behavior: SharkBehavior,
}

/// A spawn notice for the receiving player itself.
#[derive(Clone, Copy, PartialEq, Eq, Structural, Debug)]
pub struct Spawn {
    pub pos: Pos,
}

/// The elapsed-erosion timer, present exactly in the eroding state.
pub open spec fn shark_timer(b: SharkBehavior) -> Option<i64> {
    match b {
        SharkBehavior::Eroding { tile, elapsed } => Some(elapsed),
        _ => None,
    }
}

/// The confirmed erosion-target tile, present exactly in the eroding state.
pub open spec fn shark_erosion_target(b: SharkBehavior) -> Option<Vec2> {
    match b {
        SharkBehavior::Eroding { tile, elapsed } => Some(tile),
        _ => None,
    }
}

pub open spec fn behavior_ok(b: SharkBehavior) -> bool {
    match b {
        SharkBehavior::Wandering => true,
        SharkBehavior::Approaching { tile } => tile_ok(tile),
        SharkBehavior::Eroding { tile, elapsed } => tile_ok(tile) && 0 <= elapsed <= TIME_MAX,
    }
}

pub open spec fn shark_ok(s: Shark) -> bool {
    pos_ok(s.pos) && v2_ok(s.target_pos) && behavior_ok(s.behavior)
}

/// What the server sends to a client.
#[derive(Clone, PartialEq, Eq, Debug)]
pub enum ServerMessage {
    /// Full platform tile set (snapshot and after restarts).
    UpdateRaft(Vec<Vec2>),
    /// You respawned here.
    YouSpawn(Spawn),
    /// You fell into the water.
    YouDrown,
    /// Heartbeat; the client answers with a refresh request.
    Pog,
    PlayerSpawn { id: u64, pos: Pos },
    UpdatePos { id: u64, pos: Pos },
    PlayerLeft { id: u64 },
    /// Full predator state set.
    UpdateSharks(Vec<(u64, Shark)>),
    PlayerDrown(u64),
    /// A predator destroyed a tile.
    Destroy(u64, Vec2),
    /// A predator reached a tile and is about to destroy it.
    AboutToDestroy(u64, Vec2),
    /// The world was reset; clients clear transient effect state.
    JustRestarted,
    /// You dashed; your position snaps to this point.
    YouDash(Vec3),
    /// Your dash cooldown expired.
    DashRestore,
    YouStartAttack(Vec2),
    StartAttack(Vec2, u64),
    Dash(u64, Pos),
    /// You were hit and pushed by this planar offset.
    YouWasPushed(Vec2),
    WasPushed(u64, Pos),
    Name(u64, String),
    /// A hit landed; show the effect at this point.
    Damage(Vec3),
    UpdateGullPos { id: u64, pos: Pos },
    /// Your projectile cooldown expired.
    YouCanPoopCongratulations,
    /// A projectile was launched with this kinematic state.
    FlyingPoop(Pos),
    /// A projectile landed at this planar point.
    PoopOnFloor(Vec2),
}

/// What a client sends to the server.
#[derive(Clone, PartialEq, Eq, Debug)]
pub enum ClientMessage {
    /// Refresh request: asks for per-tick deltas.
    Pig,
    UpdatePos(Pos),
    /// Attack toward this world point.
    Attack(Vec3),
    /// Acknowledge a server-forced position change.
    TeleportAck,
    Name(String),
    UpdateGullPos(Pos),
    /// Launch a projectile.
    Poop,
}

/// The mathematical value of a server message: names as character
/// sequences, collections as sequences.
pub enum MsgV {
    UpdateRaft(Seq<Vec2>),
    YouSpawn(Spawn),
    YouDrown,
    Pog,
    PlayerSpawn { id: u64, pos: Pos },
    UpdatePos { id: u64, pos: Pos },
    PlayerLeft { id: u64 },
    UpdateSharks(Seq<(u64, Shark)>),
    PlayerDrown(u64),
    Destroy(u64, Vec2),
    AboutToDestroy(u64, Vec2),
    JustRestarted,
    YouDash(Vec3),
    DashRestore,
    YouStartAttack(Vec2),
    StartAttack(Vec2, u64),
    Dash(u64, Pos),
    YouWasPushed(Vec2),
    WasPushed(u64, Pos),
    Name(u64, Seq<char>),
    Damage(Vec3),
    UpdateGullPos { id: u64, pos: Pos },
    YouCanPoopCongratulations,
    FlyingPoop(Pos),
    PoopOnFloor(Vec2),
}

impl View for ServerMessage {
    type V = MsgV;

    open spec fn view(&self) -> MsgV {
        match self {
            ServerMessage::UpdateRaft(tiles) => MsgV::UpdateRaft(tiles@),
            ServerMessage::YouSpawn(s) => MsgV::YouSpawn(*s),
            ServerMessage::YouDrown => MsgV::YouDrown,
            ServerMessage::Pog => MsgV::Pog,
            ServerMessage::PlayerSpawn { id, pos } => (MsgV::PlayerSpawn { id: *id, pos: *pos }),
            ServerMessage::UpdatePos { id, pos } => (MsgV::UpdatePos { id: *id, pos: *pos }),
            ServerMessage::PlayerLeft { id } => (MsgV::PlayerLeft { id: *id }),
            ServerMessage::UpdateSharks(sharks) => MsgV::UpdateSharks(sharks@),
            ServerMessage::PlayerDrown(id) => MsgV::PlayerDrown(*id),
            ServerMessage::Destroy(id, t) => MsgV::Destroy(*id, *t),
            ServerMessage::AboutToDestroy(id, t) => MsgV::AboutToDestroy(*id, *t),
            ServerMessage::JustRestarted => MsgV::JustRestarted,
            ServerMessage::YouDash(p) => MsgV::YouDash(*p),
            ServerMessage::DashRestore => MsgV::DashRestore,
            ServerMessage::YouStartAttack(d) => MsgV::YouStartAttack(*d),
            ServerMessage::StartAttack(d, id) => MsgV::StartAttack(*d, *id),
            ServerMessage::Dash(id, p) => MsgV::Dash(*id, *p),
            ServerMessage::YouWasPushed(d) => MsgV::YouWasPushed(*d),
            ServerMessage::WasPushed(id, p) => MsgV::WasPushed(*id, *p),
            ServerMessage::Name(id, n) => MsgV::Name(*id, n@),
            ServerMessage::Damage(p) => MsgV::Damage(*p),
            ServerMessage::UpdateGullPos { id, pos } => (MsgV::UpdateGullPos {
                id: *id,
                pos: *pos,
            }),
            ServerMessage::YouCanPoopCongratulations => MsgV::YouCanPoopCongratulations,
            ServerMessage::FlyingPoop(p) => MsgV::FlyingPoop(*p),
            ServerMessage::PoopOnFloor(p) => MsgV::PoopOnFloor(*p),
        }
    }
}

/// The mathematical value of a client message.
pub enum CMsgV {
    Pig,
    UpdatePos(Pos),
    Attack(Vec3),
    TeleportAck,
    Name(Seq<char>),
    UpdateGullPos(Pos),
    Poop,
}

impl View for ClientMessage {
    type V = CMsgV;

    open spec fn view(&self) -> CMsgV {
        match self {
            ClientMessage::Pig => CMsgV::Pig,
            ClientMessage::UpdatePos(p) => CMsgV::UpdatePos(*p),
            ClientMessage::Attack(p) => CMsgV::Attack(*p),
            ClientMessage::TeleportAck => CMsgV::TeleportAck,
            ClientMessage::Name(n) => CMsgV::Name(n@),
            ClientMessage::UpdateGullPos(p) => CMsgV::UpdateGullPos(*p),
            ClientMessage::Poop => CMsgV::Poop,
        }
    }
}

/// Predator configuration.
#[derive(Clone, Copy, PartialEq, Eq, Structural, Debug)]
pub struct SharkConfig {
    /// Per-tick probability of choosing an erosion target, in thousandths.
    pub attack_prob: u64,
    /// How many predators the world holds.
    pub count: u64,
    /// Swimming depth (a z coordinate, milli-units).
    pub depth: i64,
    /// Swimming speed (milli-units per second).
    pub speed: i64,
    /// Extra wander radius beyond the raft's bounding radius (milli-units).
    pub extra_move_radius: i64,
}

/// The immutable configuration the core consumes, loaded externally and
/// passed in at startup.
#[derive(Clone, Copy, PartialEq, Eq, Structural, Debug)]
pub struct Config {
    /// Projectile cooldown (ms).
    pub poop_cooldown: i64,
    /// Downward acceleration of projectiles (milli-units per second^2).
    pub gravity: i64,
    /// Attack wind-up (ms).
    pub attack_time: i64,
    /// Dash cooldown (ms).
    pub dash_cooldown: i64,
    /// Greatest dash travel (milli-units).
    pub dash_distance: i64,
    /// How far beyond the impact point a hit player is pushed
    /// (milli-units).
    pub push_distance: i64,
    /// Restart countdown (ms).
    pub restart_timer: i64,
    /// Side length of a tile (milli-units).
    pub tile_size: i64,
    /// Platform radius in tiles.
    pub raft_size: i64,
    pub shark: SharkConfig,
}

/// The bounds under which every arithmetic step of the simulation is
/// proved exact.
pub open spec fn config_ok(c: Config) -> bool {
    &&& 0 < c.tile_size <= 100000
    &&& 0 <= c.raft_size <= 1000
    &&& 0 <= c.gravity <= 1000000
    &&& 0 < c.attack_time <= TIME_MAX
    &&& 0 < c.dash_cooldown <= TIME_MAX
    &&& 0 <= c.dash_distance <= 100000000
    &&& 0 <= c.push_distance <= 100000000
    &&& 0 < c.poop_cooldown <= TIME_MAX
    &&& 0 < c.restart_timer <= TIME_MAX
    &&& c.shark.attack_prob <= 1000
    &&& c.shark.count <= 256
    &&& abs_i(c.shark.depth as int) <= 1000000
    &&& 0 <= c.shark.speed <= 1000000
    &&& 0 <= c.shark.extra_move_radius <= 100000000
}

/// Runtime check of [`config_ok`]; world construction refuses anything
/// else.
pub fn config_valid(c: &Config) -> (r: bool)
    ensures
        r == config_ok(*c),
{
    0 < c.tile_size && c.tile_size <= 100000 && 0 <= c.raft_size && c.raft_size <= 1000
        && 0 <= c.gravity && c.gravity <= 1000000 && 0 < c.attack_time && c.attack_time
        <= TIME_MAX && 0 < c.dash_cooldown && c.dash_cooldown <= TIME_MAX && 0
        <= c.dash_distance && c.dash_distance <= 100000000 && 0 <= c.push_distance
        && c.push_distance <= 100000000 && 0 < c.poop_cooldown && c.poop_cooldown <= TIME_MAX
        && 0 < c.restart_timer && c.restart_timer <= TIME_MAX && c.shark.attack_prob <= 1000
        && c.shark.count <= 256 && -1000000 <= c.shark.depth && c.shark.depth <= 1000000 && 0
        <= c.shark.speed && c.shark.speed <= 1000000 && 0 <= c.shark.extra_move_radius
        && c.shark.extra_move_radius <= 100000000
}

/// Runtime check of [`pos_ok`]; stale or out-of-range client snapshots are
/// ignored.
pub fn pos_valid(p: &Pos) -> (r: bool)
    ensures
        r == pos_ok(*p),
{
    -COORD_MAX <= p.pos.x && p.pos.x <= COORD_MAX && -COORD_MAX <= p.pos.y && p.pos.y
        <= COORD_MAX && -COORD_MAX <= p.pos.z && p.pos.z <= COORD_MAX && -COORD_MAX <= p.vel.x
        && p.vel.x <= COORD_MAX && -COORD_MAX <= p.vel.y && p.vel.y <= COORD_MAX && -COORD_MAX
        <= p.vel.z && p.vel.z <= COORD_MAX && -360000 <= p.rot && p.rot <= 360000
}

} // verus!
