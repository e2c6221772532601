//! The world state and its mutation boundary.
//!
//! All mutations go through the methods of [`State`]: message application
//! ([`State::handle`]), the per-tick phases (in the fixed order
//! [`State::tick`] runs them), and the join/leave lifecycle. Outbound
//! messages are appended to [`State::outbox`] inside the same call as the
//! mutation that caused them, so a caller that drains the outbox in order
//! preserves the ordering guarantee of the single exclusive boundary.
//! Chance enters only through raw draws (see [`crate::rng`]); every
//! decision made from a draw is verified for every value of it.

use vstd::prelude::*;
use crate::geom::Pos;
use crate::geom::Vec2;
use crate::geom::Vec3;
use crate::geom::pos_ok;
use crate::geom::dir_ok;
use crate::geom::abs_i;
use crate::geom::v2_ok;
use crate::idmap::IdMap;
use crate::idmap::has_key;
use crate::idmap::lookup;
use crate::idset::IdSet;
use crate::protocol::ClientMessage;
use crate::protocol::CMsgV;
use crate::protocol::Config;
use crate::protocol::MsgV;
use crate::protocol::ServerMessage;
use crate::protocol::Shark;
use crate::protocol::TIME_MAX;
use crate::protocol::config_ok;
use crate::protocol::shark_ok;
use crate::tiles::TileSet;

verus! {

/// A requested attack that has not fired yet.
#[derive(Clone, Copy, PartialEq, Eq, Structural, Debug)]
pub struct PendingAttack {
    /// Unit attack direction (length [`crate::geom::SCALE`]).
    pub dir: Vec2,
    /// Wind-up remaining, ms.
    pub time_left: i64,
}

/// The authoritative world state.
pub struct State {
    pub config: Config,
    /// Last allocated id; ids are monotonically increasing, never reused.
    pub last_id: u64,
    /// Registered connections, in join order.
    pub conns: IdSet,
    /// Display names of participants.
    pub names: IdMap<String>,
    /// The alive set: exactly the players standing on the raft.
    pub player_pos: IdMap<Pos>,
    /// The airborne role's positions.
    pub gull_pos: IdMap<Pos>,
    /// The platform.
    pub raft: TileSet,
    /// The predators, created at world start and never destroyed.
    pub sharks: IdMap<Shark>,
    /// Pending attacks, by attacker.
    pub attacks: IdMap<PendingAttack>,
    /// Remaining dash cooldowns, ms.
    pub dash_cooldowns: IdMap<i64>,
    /// Remaining projectile cooldowns, ms.
    pub poop_cooldowns: IdMap<i64>,
    /// Players whose position updates are ignored until they acknowledge a
    /// server-forced teleport.
    pub wait_for_teleport_ack: IdSet,
    /// Projectiles in flight.
    pub flying_poops: Vec<Pos>,
    /// The restart countdown, if one is running.
    pub restart_timer: Option<i64>,
    /// Set by the owner to stop the tick loop.
    pub should_exit: bool,
    /// Outbound messages in sending order, to be drained by the transport.
    pub outbox: Vec<(u64, ServerMessage)>,
}

/// Every key of `s` is a registered connection.
pub open spec fn keys_in<V>(s: Seq<(u64, V)>, conns: Seq<u64>) -> bool {
    forall|i: int| 0 <= i < s.len() ==> conns.contains((#[trigger] s[i]).0)
}

/// Every key of `s` is at most `n` (so a fresh id collides with nothing).
pub open spec fn keys_le<V>(s: Seq<(u64, V)>, n: u64) -> bool {
    forall|i: int| 0 <= i < s.len() ==> (#[trigger] s[i]).0 <= n
}

/// Every value of a position map is a valid snapshot.
pub open spec fn all_pos_ok(s: Seq<(u64, Pos)>) -> bool {
    forall|i: int| 0 <= i < s.len() ==> pos_ok((#[trigger] s[i]).1)
}

/// Every value of a cooldown map is a positive bounded duration.
pub open spec fn all_cd_ok(s: Seq<(u64, i64)>) -> bool {
    forall|i: int| 0 <= i < s.len() ==> 0 < (#[trigger] s[i]).1 <= TIME_MAX
}

/// Every pending attack has a bounded direction and wind-up.
pub open spec fn all_attacks_ok(s: Seq<(u64, PendingAttack)>) -> bool {
    forall|i: int|
        0 <= i < s.len() ==> dir_ok((#[trigger] s[i]).1.dir) && 0 < s[i].1.time_left <= TIME_MAX
}

/// Every predator is valid.
pub open spec fn all_sharks_ok(s: Seq<(u64, Shark)>) -> bool {
    forall|i: int| 0 <= i < s.len() ==> shark_ok((#[trigger] s[i]).1)
}

/// Every projectile is a valid snapshot.
pub open spec fn all_poops_ok(s: Seq<Pos>) -> bool {
    forall|i: int| 0 <= i < s.len() ==> pos_ok(#[trigger] s[i])
}

/// Every alive player is named.
pub open spec fn players_named(players: Seq<(u64, Pos)>, names: Seq<(u64, String)>) -> bool {
    forall|i: int| 0 <= i < players.len() ==> has_key(names, (#[trigger] players[i]).0)
}

impl State {
    /// Well-formedness: the invariant every public method preserves. In
    /// particular, the alive-player id set is always a subset of the
    /// registered connection ids.
    pub open spec fn wf(self) -> bool {
        &&& config_ok(self.config)
        &&& self.conns.wf()
        &&& forall|i: int| 0 <= i < self.conns@.len() ==> #[trigger] self.conns@[i] <= self.last_id
        &&& self.names.wf()
        &&& keys_in(self.names@, self.conns@)
        &&& self.player_pos.wf()
        &&& keys_in(self.player_pos@, self.conns@)
        &&& players_named(self.player_pos@, self.names@)
        &&& all_pos_ok(self.player_pos@)
        &&& self.gull_pos.wf()
        &&& keys_in(self.gull_pos@, self.conns@)
        &&& all_pos_ok(self.gull_pos@)
        &&& self.raft.wf()
        &&& self.sharks.wf()
        &&& all_sharks_ok(self.sharks@)
        &&& keys_le(self.sharks@, self.last_id)
        &&& self.attacks.wf()
        &&& keys_in(self.attacks@, self.conns@)
        &&& all_attacks_ok(self.attacks@)
        &&& self.dash_cooldowns.wf()
        &&& keys_in(self.dash_cooldowns@, self.conns@)
        &&& all_cd_ok(self.dash_cooldowns@)
        &&& self.poop_cooldowns.wf()
        &&& keys_in(self.poop_cooldowns@, self.conns@)
        &&& all_cd_ok(self.poop_cooldowns@)
        &&& self.wait_for_teleport_ack.wf()
        &&& forall|i: int|
            0 <= i < self.wait_for_teleport_ack@.len() ==> self.conns@.contains(
                #[trigger] self.wait_for_teleport_ack@[i],
            )
        &&& all_poops_ok(self.flying_poops@)
        &&& (self.restart_timer matches Some(t) ==> 0 <= t <= TIME_MAX)
    }
}

/// The mathematical value of the outbox: destinations paired with message
/// values.
pub open spec fn outv(s: Seq<(u64, ServerMessage)>) -> Seq<(u64, MsgV)>
    decreases s.len(),
{
    if s.len() == 0 {
        Seq::empty()
    } else {
        outv(s.drop_last()).push((s.last().0, s.last().1@))
    }
}

/// Appending one message appends one value.
pub proof fn lemma_outv_push(s: Seq<(u64, ServerMessage)>, p: (u64, ServerMessage))
    ensures
        outv(s.push(p)) == outv(s).push((p.0, p.1@)),
{
    assert(s.push(p).drop_last() =~= s);
    assert(s.push(p).last() == p);
}

/// One message to every connection, in registration order.
pub open spec fn bcast_all(conns: Seq<u64>, m: MsgV) -> Seq<(u64, MsgV)>
    decreases conns.len(),
{
    if conns.len() == 0 {
        Seq::empty()
    } else {
        bcast_all(conns.drop_last(), m).push((conns.last(), m))
    }
}

/// One message to every connection but `me`, in registration order.
pub open spec fn bcast_others(conns: Seq<u64>, me: u64, m: MsgV) -> Seq<(u64, MsgV)>
    decreases conns.len(),
{
    if conns.len() == 0 {
        Seq::empty()
    } else if conns.last() == me {
        bcast_others(conns.drop_last(), me, m)
    } else {
        bcast_others(conns.drop_last(), me, m).push((conns.last(), m))
    }
}

/// Append one message to the outbox.
pub fn send_to(out: &mut Vec<(u64, ServerMessage)>, dest: u64, m: ServerMessage)
    ensures
        outv(final(out)@) == outv(old(out)@).push((dest, m@)),
{
    let ghost s0 = out@;
    out.push((dest, m));
    proof {
        lemma_outv_push(s0, (dest, m));
    }
}

/// A copy of a tile vector.
pub fn copy_tiles(v: &Vec<Vec2>) -> (r: Vec<Vec2>)
    ensures
        r@ == v@,
{
    let mut r: Vec<Vec2> = Vec::new();
    let mut i: usize = 0;
    while i < v.len()
        invariant
            i <= v@.len(),
            r@ == v@.take(i as int),
        decreases v@.len() - i,
    {
        r.push(v[i]);
        proof {
            assert(r@ =~= v@.take(i as int + 1));
        }
        i = i + 1;
    }
    proof {
        assert(v@.take(v@.len() as int) =~= v@);
    }
    r
}

/// A copy of the predator table, for a full-state snapshot message.
pub fn copy_sharks(v: &IdMap<Shark>) -> (r: Vec<(u64, Shark)>)
    ensures
        r@ == v@,
{
    let mut r: Vec<(u64, Shark)> = Vec::new();
    let mut i: usize = 0;
    while i < v.len()
        invariant
            i <= v@.len(),
            r@ == v@.take(i as int),
        decreases v@.len() - i,
    {
        r.push((v.key_at(i), *v.value_at(i)));
        proof {
            assert(v@.take(i as int + 1).drop_last() =~= v@.take(i as int));
            assert(v@.take(i as int + 1).last() == v@[i as int]);
            assert(r@ =~= v@.take(i as int + 1));
        }
        i = i + 1;
    }
    proof {
        assert(v@.take(v@.len() as int) =~= v@);
    }
    r
}

/// Send one message to every connection, in registration order. The
/// message is rebuilt per recipient, so only messages without a name or
/// collection payload are accepted here; broadcasts of the others build
/// each copy at their call site.
pub fn bcast_copy(out: &mut Vec<(u64, ServerMessage)>, conns: &IdSet, m: ServerMessage)
    requires
        (m@ matches MsgV::UpdateRaft(t) ==> false),
        (m@ matches MsgV::UpdateSharks(t) ==> false),
        (m@ matches MsgV::Name(i, n) ==> false),
    ensures
        outv(final(out)@) == outv(old(out)@) + bcast_all(conns@, m@),
{
    let ghost s0 = out@;
    let mut i: usize = 0;
    while i < conns.len()
        invariant
            i <= conns@.len(),
            outv(out@) == outv(s0) + bcast_all(conns@.take(i as int), m@),
            (m@ matches MsgV::UpdateRaft(t) ==> false),
            (m@ matches MsgV::UpdateSharks(t) ==> false),
            (m@ matches MsgV::Name(q, n) ==> false),
        decreases conns@.len() - i,
    {
        let dest = conns.at(i);
        let mc = dup_plain(&m);
        send_to(out, dest, mc);
        proof {
            assert(conns@.take(i as int + 1).drop_last() =~= conns@.take(i as int));
            assert(conns@.take(i as int + 1).last() == conns@[i as int]);
        }
        i = i + 1;
    }
    proof {
        assert(conns@.take(conns@.len() as int) =~= conns@);
    }
}

/// Send one message to every connection but `me`, in registration order;
/// same payload restriction as [`bcast_copy`].
pub fn bcast_copy_others(
    out: &mut Vec<(u64, ServerMessage)>,
    conns: &IdSet,
    me: u64,
    m: ServerMessage,
)
    requires
        (m@ matches MsgV::UpdateRaft(t) ==> false),
        (m@ matches MsgV::UpdateSharks(t) ==> false),
        (m@ matches MsgV::Name(i, n) ==> false),
    ensures
        outv(final(out)@) == outv(old(out)@) + bcast_others(conns@, me, m@),
{
    let ghost s0 = out@;
    let mut i: usize = 0;
    while i < conns.len()
        invariant
            i <= conns@.len(),
            outv(out@) == outv(s0) + bcast_others(conns@.take(i as int), me, m@),
            (m@ matches MsgV::UpdateRaft(t) ==> false),
            (m@ matches MsgV::UpdateSharks(t) ==> false),
            (m@ matches MsgV::Name(q, n) ==> false),
        decreases conns@.len() - i,
    {
        let dest = conns.at(i);
        if dest != me {
            let mc = dup_plain(&m);
            send_to(out, dest, mc);
        }
        proof {
            assert(conns@.take(i as int + 1).drop_last() =~= conns@.take(i as int));
            assert(conns@.take(i as int + 1).last() == conns@[i as int]);
        }
        i = i + 1;
    }
    proof {
        assert(conns@.take(conns@.len() as int) =~= conns@);
    }
}

/// Rebuild a message that carries no name or collection payload, with the
/// same value. The arms for the excluded payload variants are unreachable
/// under the precondition; they return an arbitrary message to keep the
/// match total.
pub fn dup_plain(m: &ServerMessage) -> (r: ServerMessage)
    requires
        (m@ matches MsgV::UpdateRaft(t) ==> false),
        (m@ matches MsgV::UpdateSharks(t) ==> false),
        (m@ matches MsgV::Name(i, n) ==> false),
    ensures
        r@ == m@,
{
    match m {
        ServerMessage::UpdateRaft(t) => ServerMessage::YouDrown,
        ServerMessage::YouSpawn(s) => ServerMessage::YouSpawn(*s),
        ServerMessage::YouDrown => ServerMessage::YouDrown,
        ServerMessage::Pog => ServerMessage::Pog,
        ServerMessage::PlayerSpawn { id, pos } => ServerMessage::PlayerSpawn {
            id: *id,
            pos: *pos,
        },
        ServerMessage::UpdatePos { id, pos } => ServerMessage::UpdatePos { id: *id, pos: *pos },
        ServerMessage::PlayerLeft { id } => ServerMessage::PlayerLeft { id: *id },
        ServerMessage::UpdateSharks(t) => ServerMessage::YouDrown,
        ServerMessage::PlayerDrown(id) => ServerMessage::PlayerDrown(*id),
        ServerMessage::Destroy(id, t) => ServerMessage::Destroy(*id, *t),
        ServerMessage::AboutToDestroy(id, t) => ServerMessage::AboutToDestroy(*id, *t),
        ServerMessage::JustRestarted => ServerMessage::JustRestarted,
        ServerMessage::YouDash(p) => ServerMessage::YouDash(*p),
        ServerMessage::DashRestore => ServerMessage::DashRestore,
        ServerMessage::YouStartAttack(d) => ServerMessage::YouStartAttack(*d),
        ServerMessage::StartAttack(d, id) => ServerMessage::StartAttack(*d, *id),
        ServerMessage::Dash(id, p) => ServerMessage::Dash(*id, *p),
        ServerMessage::YouWasPushed(d) => ServerMessage::YouWasPushed(*d),
        ServerMessage::WasPushed(id, p) => ServerMessage::WasPushed(*id, *p),
        ServerMessage::Name(id, n) => ServerMessage::YouDrown,
        ServerMessage::Damage(p) => ServerMessage::Damage(*p),
        ServerMessage::UpdateGullPos { id, pos } => ServerMessage::UpdateGullPos {
            id: *id,
            pos: *pos,
        },
        ServerMessage::YouCanPoopCongratulations => ServerMessage::YouCanPoopCongratulations,
        ServerMessage::FlyingPoop(p) => ServerMessage::FlyingPoop(*p),
        ServerMessage::PoopOnFloor(p) => ServerMessage::PoopOnFloor(*p),
    }
}


/// All fields but the outbox and the id counter are unchanged (views
/// compared, so the well-formedness of the left carries to the right).
pub open spec fn maps_unchanged(o: State, f: State) -> bool {
    &&& f.config == o.config
    &&& f.conns@ == o.conns@
    &&& f.names@ == o.names@
    &&& f.player_pos@ == o.player_pos@
    &&& f.gull_pos@ == o.gull_pos@
    &&& f.raft@ == o.raft@
    &&& f.sharks@ == o.sharks@
    &&& f.attacks@ == o.attacks@
    &&& f.dash_cooldowns@ == o.dash_cooldowns@
    &&& f.poop_cooldowns@ == o.poop_cooldowns@
    &&& f.wait_for_teleport_ack@ == o.wait_for_teleport_ack@
    &&& f.flying_poops@ == o.flying_poops@
    &&& f.restart_timer == o.restart_timer
    &&& f.should_exit == o.should_exit
}

/// Position-snapshot messages to `dest`: one per alive player, in table
/// order, skipping `dest` itself.
pub open spec fn spawn_snapshot(dest: u64, players: Seq<(u64, Pos)>) -> Seq<(u64, MsgV)>
    decreases players.len(),
{
    if players.len() == 0 {
        Seq::empty()
    } else if players.last().0 == dest {
        spawn_snapshot(dest, players.drop_last())
    } else {
        spawn_snapshot(dest, players.drop_last()).push(
            (dest, MsgV::PlayerSpawn { id: players.last().0, pos: players.last().1 }),
        )
    }
}

/// Name-snapshot messages to `dest`: one per known display name, in table
/// order.
pub open spec fn name_snapshot(dest: u64, names: Seq<(u64, String)>) -> Seq<(u64, MsgV)>
    decreases names.len(),
{
    if names.len() == 0 {
        Seq::empty()
    } else {
        name_snapshot(dest, names.drop_last()).push(
            (dest, MsgV::Name(names.last().0, names.last().1@)),
        )
    }
}

/// A successful lookup names an actual entry.
pub proof fn lemma_lookup_entry<V>(s: Seq<(u64, V)>, k: u64, v: V)
    requires
        lookup(s, k) == Some(v),
    ensures
        exists|j: int| 0 <= j < s.len() && #[trigger] s[j] == (k, v),
    decreases s.len(),
{
    if s.len() > 0 {
        if s[0].0 == k {
            assert(s[0] == (k, v));
        } else {
            lemma_lookup_entry(s.drop_first(), k, v);
            let j = choose|j: int|
                0 <= j < s.drop_first().len() && #[trigger] s.drop_first()[j] == (k, v);
            assert(s[j + 1] == (k, v));
        }
    }
}

/// A map with one key's entries dropped and the rest looked up unchanged
/// holds only entries of the original.
pub proof fn lemma_map_shrink<V>(om: Seq<(u64, V)>, fm: Seq<(u64, V)>, client: u64)
    requires
        crate::idmap::unique_keys(om),
        crate::idmap::unique_keys(fm),
        !has_key(fm, client),
        forall|q: u64| q != client ==> #[trigger] lookup(fm, q) == lookup(om, q),
    ensures
        forall|j: int| #![trigger fm[j]]
            0 <= j < fm.len() ==> exists|j0: int| 0 <= j0 < om.len() && fm[j] == #[trigger] om[j0],
{
    assert forall|j: int| #![trigger fm[j]] 0 <= j < fm.len() implies exists|j0: int|
        0 <= j0 < om.len() && fm[j] == #[trigger] om[j0] by {
        let k = fm[j].0;
        let v = fm[j].1;
        crate::idmap::lemma_lookup_unique_at(fm, j);
        assert(k != client) by {
            if k == client {
                assert(has_key(fm, client));
            }
        }
        assert(lookup(om, k) == Some(v));
        lemma_lookup_entry(om, k, v);
        let j0 = choose|j0: int| 0 <= j0 < om.len() && #[trigger] om[j0] == (k, v);
        assert(fm[j] == om[j0]);
    }
}

impl State {
    /// A fresh world: empty raft and registries, `config.shark.count`
    /// predators wandering from random points within the raft's eventual
    /// radius, ids `1..=count` allocated to them.
    pub fn new(config: Config) -> (r: State)
        requires
            config_ok(config),
        ensures
            r.wf(),
            r.config == config,
            r.last_id == config.shark.count,
            r.conns@.len() == 0,
            r.names@.len() == 0,
            r.player_pos@.len() == 0,
            r.gull_pos@.len() == 0,
            r.raft@.len() == 0,
            r.attacks@.len() == 0,
            r.dash_cooldowns@.len() == 0,
            r.poop_cooldowns@.len() == 0,
            r.wait_for_teleport_ack@.len() == 0,
            r.flying_poops@.len() == 0,
            r.restart_timer is None,
            !r.should_exit,
            r.outbox@.len() == 0,
            r.sharks@.len() == config.shark.count,
            forall|i: int|
                0 <= i < r.sharks@.len() ==> (#[trigger] r.sharks@[i]).0 == i + 1 && r.sharks@[i].1.behavior is Wandering && r.sharks@[i].1.pos.pos.z == config.shark.depth && r.sharks@[i].1.pos.vel == (Vec3 { x: 0, y: 0, z: 0 }) && r.sharks@[i].1.pos.pos.x == r.sharks@[i].1.target_pos.x && r.sharks@[i].1.pos.pos.y == r.sharks@[i].1.target_pos.y && crate::geom::norm2(r.sharks@[i].1.pos.pos.x as int, r.sharks@[i].1.pos.pos.y as int) <= (config.raft_size * config.tile_size) * (config.raft_size * config.tile_size),
    {
        let mut sharks: IdMap<Shark> = IdMap::new();
        let mut last_id: u64 = 0;
        proof {
            assert(0 <= config.raft_size * config.tile_size <= 100000000) by (nonlinear_arith)
                requires
                    0 <= config.raft_size <= 1000,
                    0 < config.tile_size <= 100000,
            ;
        }
        let spawn_radius: i64 = config.raft_size * config.tile_size;
        let mut n: u64 = 0;
        while n < config.shark.count
            invariant
                config_ok(config),
                0 <= spawn_radius <= 100000000,
                spawn_radius == config.raft_size * config.tile_size,
                n <= config.shark.count,
                last_id == n,
                sharks.wf(),
                sharks@.len() == n,
                all_sharks_ok(sharks@),
                forall|i: int|
                    0 <= i < sharks@.len() ==> (#[trigger] sharks@[i]).0 == i + 1 && sharks@[i].1.behavior is Wandering && sharks@[i].1.pos.pos.z == config.shark.depth && sharks@[i].1.pos.vel == (Vec3 { x: 0, y: 0, z: 0 }) && sharks@[i].1.pos.pos.x == sharks@[i].1.target_pos.x && sharks@[i].1.pos.pos.y == sharks@[i].1.target_pos.y && crate::geom::norm2(sharks@[i].1.pos.pos.x as int, sharks@[i].1.pos.pos.y as int) <= spawn_radius * spawn_radius,
            decreases config.shark.count - n,
        {
            let id: u64 = last_id + 1;
            last_id = id;
            let d1 = crate::rng::random_u64();
            let d2 = crate::rng::random_u64();
            let pt = crate::geom::disc_point(Vec2 { x: 0, y: 0 }, spawn_radius, d1, d2);
            proof {
                let off = crate::geom::disc_offset_spec(spawn_radius as int, d1, d2);
                assert(abs_i(off.0) <= spawn_radius && abs_i(off.1) <= spawn_radius)
                    by (nonlinear_arith)
                    requires
                        crate::geom::norm2(off.0, off.1) <= spawn_radius * spawn_radius,
                        0 <= spawn_radius,
                ;
                assert(pt.x == off.0 && pt.y == off.1);
                assert(crate::geom::norm2(pt.x as int, pt.y as int) <= spawn_radius
                    * spawn_radius);
            }
            let rot = crate::rng::rand_below(360000) as i64;
            let shark = Shark {
                pos: Pos {
                    pos: Vec3 { x: pt.x, y: pt.y, z: config.shark.depth },
                    rot,
                    vel: Vec3 { x: 0, y: 0, z: 0 },
                },
                target_pos: pt,
                behavior: crate::protocol::SharkBehavior::Wandering,
            };
            proof {
                crate::idmap::lemma_has_key(sharks@, id);
            }
            sharks.insert(id, shark);
            n = n + 1;
        }
        State {
            config,
            last_id,
            conns: IdSet::new(),
            names: IdMap::new(),
            player_pos: IdMap::new(),
            gull_pos: IdMap::new(),
            raft: TileSet::new(),
            sharks,
            attacks: IdMap::new(),
            dash_cooldowns: IdMap::new(),
            poop_cooldowns: IdMap::new(),
            wait_for_teleport_ack: IdSet::new(),
            flying_poops: Vec::new(),
            restart_timer: None,
            should_exit: false,
            outbox: Vec::new(),
        }
    }

    /// Register a new connection: allocate a fresh id, push the full
    /// snapshot (alive players, platform, predators, names) to it, and
    /// record it in the registry.
    ///
    /// There is deliberately no separate joined notice to the other
    /// connections: the message set defines no kind for one, and a
    /// newcomer has no position or name yet. The others first learn of it
    /// from its name broadcast or its respawn after the next world reset;
    /// the contract below pins the outbox to exactly the snapshot.
    pub fn new_player(&mut self) -> (id: u64)
        requires
            old(self).wf(),
            old(self).last_id < u64::MAX,
        ensures
            final(self).wf(),
            id == old(self).last_id + 1,
            final(self).last_id == id,
            final(self).conns@ == old(self).conns@.push(id),
            final(self).config == old(self).config,
            final(self).names@ == old(self).names@,
            final(self).player_pos@ == old(self).player_pos@,
            final(self).gull_pos@ == old(self).gull_pos@,
            final(self).raft@ == old(self).raft@,
            final(self).sharks@ == old(self).sharks@,
            final(self).attacks@ == old(self).attacks@,
            final(self).dash_cooldowns@ == old(self).dash_cooldowns@,
            final(self).poop_cooldowns@ == old(self).poop_cooldowns@,
            final(self).wait_for_teleport_ack@ == old(self).wait_for_teleport_ack@,
            final(self).flying_poops@ == old(self).flying_poops@,
            final(self).restart_timer == old(self).restart_timer,
            final(self).should_exit == old(self).should_exit,
            outv(final(self).outbox@) == outv(old(self).outbox@).push((id, MsgV::Pog))
                + spawn_snapshot(id, old(self).player_pos@) + seq![
                (id, MsgV::UpdateRaft(old(self).raft@)),
                (id, MsgV::UpdateSharks(old(self).sharks@)),
            ] + name_snapshot(id, old(self).names@),
    {
        let id: u64 = self.last_id + 1;
        self.last_id = id;
        let ghost o = *old(self);
        send_to(&mut self.outbox, id, ServerMessage::Pog);
        let mut i: usize = 0;
        while i < self.player_pos.len()
            invariant
                maps_unchanged(o, *self),
                self.last_id == id,
                o.wf(),
                id == o.last_id + 1,
                i <= self.player_pos@.len(),
                outv(self.outbox@) == outv(o.outbox@).push((id, MsgV::Pog)) + spawn_snapshot(
                    id,
                    o.player_pos@.take(i as int),
                ),
            decreases self.player_pos@.len() - i,
        {
            let other = self.player_pos.key_at(i);
            if other != id {
                let pos = *self.player_pos.value_at(i);
                send_to(
                    &mut self.outbox,
                    id,
                    ServerMessage::PlayerSpawn { id: other, pos },
                );
            }
            proof {
                assert(o.player_pos@.take(i as int + 1).drop_last() =~= o.player_pos@.take(
                    i as int,
                ));
                assert(o.player_pos@.take(i as int + 1).last() == o.player_pos@[i as int]);
            }
            i = i + 1;
        }
        proof {
            assert(o.player_pos@.take(o.player_pos@.len() as int) =~= o.player_pos@);
        }
        let tiles = copy_tiles(&self.raft.tiles);
        send_to(&mut self.outbox, id, ServerMessage::UpdateRaft(tiles));
        let sharks = copy_sharks(&self.sharks);
        send_to(&mut self.outbox, id, ServerMessage::UpdateSharks(sharks));
        let ghost mark = outv(self.outbox@);
        let mut j: usize = 0;
        while j < self.names.len()
            invariant
                maps_unchanged(o, *self),
                self.last_id == id,
                o.wf(),
                id == o.last_id + 1,
                j <= self.names@.len(),
                outv(self.outbox@) == mark + name_snapshot(id, o.names@.take(j as int)),
            decreases self.names@.len() - j,
        {
            let other = self.names.key_at(j);
            let name = self.names.value_at(j).clone();
            send_to(&mut self.outbox, id, ServerMessage::Name(other, name));
            proof {
                assert(o.names@.take(j as int + 1).drop_last() =~= o.names@.take(j as int));
                assert(o.names@.take(j as int + 1).last() == o.names@[j as int]);
            }
            j = j + 1;
        }
        proof {
            assert(o.names@.take(o.names@.len() as int) =~= o.names@);
        }
        proof {
            if self.conns@.contains(id) {
                let w = choose|w: int| 0 <= w < self.conns@.len() && self.conns@[w] == id;
            }
        }
        self.conns.insert(id);
        proof {
            let f = *self;
            assert(f.wf()) by {
                assert(forall|q: u64|
                    o.conns@.contains(q) ==> #[trigger] f.conns@.contains(q));
                assert(forall|i2: int|
                    0 <= i2 < f.conns@.len() ==> #[trigger] f.conns@[i2] <= f.last_id) by {
                    assert(forall|i2: int|
                        0 <= i2 < o.conns@.len() ==> #[trigger] f.conns@[i2] == o.conns@[i2]);
                    assert(f.conns@[o.conns@.len() as int] == id);
                }
            }
            assert(outv(self.outbox@) =~= outv(o.outbox@).push((id, MsgV::Pog))
                + spawn_snapshot(id, o.player_pos@) + seq![
                (id, MsgV::UpdateRaft(o.raft@)),
                (id, MsgV::UpdateSharks(o.sharks@)),
            ] + name_snapshot(id, o.names@));
        }
        id
    }

    /// Remove a connection and all its per-id state, and tell every
    /// remaining connection that the player left.
    #[verifier::rlimit(100)]
    pub fn drop_player(&mut self, client: u64)
        requires
            old(self).wf(),
        ensures
            final(self).wf(),
            final(self).config == old(self).config,
            final(self).last_id == old(self).last_id,
            final(self).raft@ == old(self).raft@,
            final(self).sharks@ == old(self).sharks@,
            final(self).flying_poops@ == old(self).flying_poops@,
            final(self).restart_timer == old(self).restart_timer,
            final(self).should_exit == old(self).should_exit,
            !final(self).conns@.contains(client),
            forall|q: u64|
                q != client ==> final(self).conns@.contains(q) == old(self).conns@.contains(q),
            !has_key(final(self).player_pos@, client),
            forall|q: u64|
                q != client ==> #[trigger] lookup(final(self).player_pos@, q) == lookup(
                    old(self).player_pos@,
                    q,
                ),
            !has_key(final(self).names@, client),
            forall|q: u64|
                q != client ==> #[trigger] lookup(final(self).names@, q) == lookup(
                    old(self).names@,
                    q,
                ),
            !has_key(final(self).gull_pos@, client),
            forall|q: u64|
                q != client ==> #[trigger] lookup(final(self).gull_pos@, q) == lookup(
                    old(self).gull_pos@,
                    q,
                ),
            !has_key(final(self).attacks@, client),
            forall|q: u64|
                q != client ==> #[trigger] lookup(final(self).attacks@, q) == lookup(
                    old(self).attacks@,
                    q,
                ),
            !has_key(final(self).dash_cooldowns@, client),
            forall|q: u64|
                q != client ==> #[trigger] lookup(final(self).dash_cooldowns@, q) == lookup(
                    old(self).dash_cooldowns@,
                    q,
                ),
            !has_key(final(self).poop_cooldowns@, client),
            forall|q: u64|
                q != client ==> #[trigger] lookup(final(self).poop_cooldowns@, q) == lookup(
                    old(self).poop_cooldowns@,
                    q,
                ),
            !final(self).wait_for_teleport_ack@.contains(client),
            forall|q: u64|
                q != client ==> final(self).wait_for_teleport_ack@.contains(q) == old(self).wait_for_teleport_ack@.contains(q),
            outv(final(self).outbox@) == outv(old(self).outbox@) + bcast_all(
                final(self).conns@,
                MsgV::PlayerLeft { id: client },
            ),
    {
        let ghost o = *old(self);
        self.player_pos.remove(client);
        self.conns.remove(client);
        bcast_copy(
            &mut self.outbox,
            &self.conns,
            ServerMessage::PlayerLeft { id: client },
        );
        self.gull_pos.remove(client);
        self.names.remove(client);
        self.dash_cooldowns.remove(client);
        self.poop_cooldowns.remove(client);
        self.attacks.remove(client);
        self.wait_for_teleport_ack.remove(client);
        proof {
            let f = *self;
            lemma_map_shrink(o.player_pos@, f.player_pos@, client);
            lemma_map_shrink(o.names@, f.names@, client);
            lemma_map_shrink(o.gull_pos@, f.gull_pos@, client);
            lemma_map_shrink(o.attacks@, f.attacks@, client);
            lemma_map_shrink(o.dash_cooldowns@, f.dash_cooldowns@, client);
            lemma_map_shrink(o.poop_cooldowns@, f.poop_cooldowns@, client);
            lemma_wf_after_drop(o, f, client);
        }
    }
}


/// A map whose entries all come from a well-formed original keeps the
/// original's per-entry facts; this restores the world invariant after a
/// connection and its per-id state are removed.
proof fn lemma_wf_after_drop(o: State, f: State, client: u64)
    requires
        o.wf(),
        f.config == o.config,
        f.last_id == o.last_id,
        f.raft@ == o.raft@,
        f.sharks@ == o.sharks@,
        f.flying_poops@ == o.flying_poops@,
        f.restart_timer == o.restart_timer,
        f.conns.wf(),
        f.names.wf(),
        f.player_pos.wf(),
        f.gull_pos.wf(),
        f.attacks.wf(),
        f.dash_cooldowns.wf(),
        f.poop_cooldowns.wf(),
        f.wait_for_teleport_ack.wf(),
        !f.conns@.contains(client),
        forall|q: u64| q != client ==> f.conns@.contains(q) == o.conns@.contains(q),
        f.conns@ == o.conns@ || exists|i: int|
            0 <= i < o.conns@.len() && f.conns@ == #[trigger] o.conns@.remove(i),
        f.wait_for_teleport_ack@ == o.wait_for_teleport_ack@ || exists|i: int|
            0 <= i < o.wait_for_teleport_ack@.len() && f.wait_for_teleport_ack@ == #[trigger] o.wait_for_teleport_ack@.remove(i),
        !f.wait_for_teleport_ack@.contains(client),
        forall|q: u64|
            q != client ==> f.wait_for_teleport_ack@.contains(q)
                == o.wait_for_teleport_ack@.contains(q),
        !has_key(f.player_pos@, client),
        !has_key(f.names@, client),
        !has_key(f.gull_pos@, client),
        !has_key(f.attacks@, client),
        !has_key(f.dash_cooldowns@, client),
        !has_key(f.poop_cooldowns@, client),
        forall|q: u64|
            q != client ==> #[trigger] lookup(f.names@, q) == lookup(o.names@, q),
        forall|j: int| #![trigger f.player_pos@[j]]
            0 <= j < f.player_pos@.len() ==> exists|j0: int|
                0 <= j0 < o.player_pos@.len() && f.player_pos@[j] == #[trigger] o.player_pos@[j0],
        forall|j: int| #![trigger f.names@[j]]
            0 <= j < f.names@.len() ==> exists|j0: int|
                0 <= j0 < o.names@.len() && f.names@[j] == #[trigger] o.names@[j0],
        forall|j: int| #![trigger f.gull_pos@[j]]
            0 <= j < f.gull_pos@.len() ==> exists|j0: int|
                0 <= j0 < o.gull_pos@.len() && f.gull_pos@[j] == #[trigger] o.gull_pos@[j0],
        forall|j: int| #![trigger f.attacks@[j]]
            0 <= j < f.attacks@.len() ==> exists|j0: int|
                0 <= j0 < o.attacks@.len() && f.attacks@[j] == #[trigger] o.attacks@[j0],
        forall|j: int| #![trigger f.dash_cooldowns@[j]]
            0 <= j < f.dash_cooldowns@.len() ==> exists|j0: int|
                0 <= j0 < o.dash_cooldowns@.len() && f.dash_cooldowns@[j] == #[trigger] o.dash_cooldowns@[j0],
        forall|j: int| #![trigger f.poop_cooldowns@[j]]
            0 <= j < f.poop_cooldowns@.len() ==> exists|j0: int|
                0 <= j0 < o.poop_cooldowns@.len() && f.poop_cooldowns@[j] == #[trigger] o.poop_cooldowns@[j0],
    ensures
        f.wf(),
{
    assert forall|i: int| 0 <= i < f.conns@.len() implies #[trigger] f.conns@[i]
        <= f.last_id by {
        let e = f.conns@[i];
        assert(f.conns@.contains(e));
        assert(e != client);
        assert(o.conns@.contains(e));
        let j0 = choose|j0: int| 0 <= j0 < o.conns@.len() && o.conns@[j0] == e;
    }
    assert forall|i: int| 0 <= i < f.wait_for_teleport_ack@.len() implies f.conns@.contains(
        #[trigger] f.wait_for_teleport_ack@[i],
    ) by {
        let e = f.wait_for_teleport_ack@[i];
        assert(f.wait_for_teleport_ack@.contains(e));
        assert(e != client);
        assert(o.wait_for_teleport_ack@.contains(e));
        let j0 = choose|j0: int|
            0 <= j0 < o.wait_for_teleport_ack@.len() && o.wait_for_teleport_ack@[j0] == e;
        assert(o.conns@.contains(e));
    }
    lemma_keys_in_shrunk(o.player_pos@, f.player_pos@, o.conns@, f.conns@, client);
    lemma_keys_in_shrunk(o.names@, f.names@, o.conns@, f.conns@, client);
    lemma_keys_in_shrunk(o.gull_pos@, f.gull_pos@, o.conns@, f.conns@, client);
    lemma_keys_in_shrunk(o.attacks@, f.attacks@, o.conns@, f.conns@, client);
    lemma_keys_in_shrunk(o.dash_cooldowns@, f.dash_cooldowns@, o.conns@, f.conns@, client);
    lemma_keys_in_shrunk(o.poop_cooldowns@, f.poop_cooldowns@, o.conns@, f.conns@, client);
    assert(all_pos_ok(f.player_pos@)) by {
        assert forall|j: int| 0 <= j < f.player_pos@.len() implies pos_ok(
            (#[trigger] f.player_pos@[j]).1,
        ) by {
            let j0 = choose|j0: int|
                0 <= j0 < o.player_pos@.len() && f.player_pos@[j] == #[trigger] o.player_pos@[j0];
        }
    }
    assert(all_pos_ok(f.gull_pos@)) by {
        assert forall|j: int| 0 <= j < f.gull_pos@.len() implies pos_ok(
            (#[trigger] f.gull_pos@[j]).1,
        ) by {
            let j0 = choose|j0: int|
                0 <= j0 < o.gull_pos@.len() && f.gull_pos@[j] == #[trigger] o.gull_pos@[j0];
        }
    }
    assert(all_attacks_ok(f.attacks@)) by {
        assert forall|j: int| 0 <= j < f.attacks@.len() implies dir_ok(
            (#[trigger] f.attacks@[j]).1.dir,
        ) && 0 < f.attacks@[j].1.time_left <= TIME_MAX by {
            let j0 = choose|j0: int|
                0 <= j0 < o.attacks@.len() && f.attacks@[j] == #[trigger] o.attacks@[j0];
        }
    }
    assert(all_cd_ok(f.dash_cooldowns@)) by {
        assert forall|j: int| 0 <= j < f.dash_cooldowns@.len() implies 0 < (
        #[trigger] f.dash_cooldowns@[j]).1 <= TIME_MAX by {
            let j0 = choose|j0: int|
                0 <= j0 < o.dash_cooldowns@.len() && f.dash_cooldowns@[j]
                    == #[trigger] o.dash_cooldowns@[j0];
        }
    }
    assert(all_cd_ok(f.poop_cooldowns@)) by {
        assert forall|j: int| 0 <= j < f.poop_cooldowns@.len() implies 0 < (
        #[trigger] f.poop_cooldowns@[j]).1 <= TIME_MAX by {
            let j0 = choose|j0: int|
                0 <= j0 < o.poop_cooldowns@.len() && f.poop_cooldowns@[j]
                    == #[trigger] o.poop_cooldowns@[j0];
        }
    }
    assert(players_named(f.player_pos@, f.names@)) by {
        assert forall|j: int| 0 <= j < f.player_pos@.len() implies has_key(
            f.names@,
            (#[trigger] f.player_pos@[j]).0,
        ) by {
            let j0 = choose|j0: int|
                0 <= j0 < o.player_pos@.len() && f.player_pos@[j] == #[trigger] o.player_pos@[j0];
            let k = f.player_pos@[j].0;
            assert(has_key(o.names@, k));
            crate::idmap::lemma_lookup_unique_at(f.player_pos@, j);
            assert(k != client) by {
                if k == client {
                    assert(has_key(f.player_pos@, client));
                }
            }
            assert(lookup(f.names@, k) == lookup(o.names@, k));
        }
    }
    assert(keys_le(f.sharks@, f.last_id));
}

/// Keys of a shrunken map still name registered connections.
proof fn lemma_keys_in_shrunk<V>(
    om: Seq<(u64, V)>,
    fm: Seq<(u64, V)>,
    oc: Seq<u64>,
    fc: Seq<u64>,
    client: u64,
)
    requires
        keys_in(om, oc),
        !has_key(fm, client),
        crate::idmap::unique_keys(fm),
        forall|q: u64| q != client ==> fc.contains(q) == oc.contains(q),
        forall|j: int| #![trigger fm[j]]
            0 <= j < fm.len() ==> exists|j0: int| 0 <= j0 < om.len() && fm[j] == #[trigger] om[j0],
    ensures
        keys_in(fm, fc),
{
    assert forall|i: int| 0 <= i < fm.len() implies fc.contains((#[trigger] fm[i]).0) by {
        let j0 = choose|j0: int| 0 <= j0 < om.len() && fm[i] == #[trigger] om[j0];
        let k = fm[i].0;
        assert(oc.contains(om[j0].0));
        crate::idmap::lemma_lookup_unique_at(fm, i);
        assert(k != client) by {
            if k == client {
                assert(has_key(fm, client));
            }
        }
    }
}


/// Per-tick position deltas to `dest`: one per alive player, in table
/// order, skipping `dest` itself.
pub open spec fn pos_updates(dest: u64, players: Seq<(u64, Pos)>) -> Seq<(u64, MsgV)>
    decreases players.len(),
{
    if players.len() == 0 {
        Seq::empty()
    } else if players.last().0 == dest {
        pos_updates(dest, players.drop_last())
    } else {
        pos_updates(dest, players.drop_last()).push(
            (dest, MsgV::UpdatePos { id: players.last().0, pos: players.last().1 }),
        )
    }
}

/// Per-tick airborne deltas to `dest`, in table order, skipping `dest`.
pub open spec fn gull_updates(dest: u64, gulls: Seq<(u64, Pos)>) -> Seq<(u64, MsgV)>
    decreases gulls.len(),
{
    if gulls.len() == 0 {
        Seq::empty()
    } else if gulls.last().0 == dest {
        gull_updates(dest, gulls.drop_last())
    } else {
        gull_updates(dest, gulls.drop_last()).push(
            (dest, MsgV::UpdateGullPos { id: gulls.last().0, pos: gulls.last().1 }),
        )
    }
}

/// A world point a client may aim an attack at.
pub open spec fn target_ok(t: Vec3) -> bool {
    crate::geom::coord_ok(t.x as int) && crate::geom::coord_ok(t.y as int)
}

/// The unit direction of an attack from `p` toward `t` (planar).
pub open spec fn attack_dir(p: Pos, t: Vec3) -> Vec2 {
    let d = crate::geom::normalize_spec(t.x - p.pos.x, t.y - p.pos.y);
    (Vec2 { x: d.0 as i64, y: d.1 as i64 })
}

/// After an insert, every entry is an old entry or the inserted pair.
pub proof fn lemma_insert_entries<V>(om: Seq<(u64, V)>, fm: Seq<(u64, V)>, k: u64, v: V)
    requires
        fm == om.push((k, v)) || exists|i: int|
            0 <= i < om.len() && om[i].0 == k && fm == #[trigger] om.update(i, (k, v)),
    ensures
        forall|j: int| #![trigger fm[j]]
            0 <= j < fm.len() ==> fm[j] == (k, v) || exists|j0: int|
                0 <= j0 < om.len() && fm[j] == #[trigger] om[j0],
{
    assert forall|j: int| #![trigger fm[j]] 0 <= j < fm.len() implies fm[j] == (k, v) || exists|
        j0: int,
    | 0 <= j0 < om.len() && fm[j] == #[trigger] om[j0] by {
        if fm == om.push((k, v)) {
            if j < om.len() {
                assert(fm[j] == om[j]);
            } else {
                assert(fm[j] == (k, v));
            }
        } else {
            let i = choose|i: int|
                0 <= i < om.len() && om[i].0 == k && fm == #[trigger] om.update(i, (k, v));
            if j == i {
                assert(fm[j] == (k, v));
            } else {
                assert(fm[j] == om[j]);
            }
        }
    }
}

impl State {
    /// Apply one client message. A message from an id that is no longer
    /// registered (a race with a disconnect) is a safe no-op. Guard
    /// rejections are silent: a position update while a teleport
    /// acknowledgement is owed, an attack or projectile request during its
    /// cooldown, and any client-supplied point outside the world's bounds
    /// leave the state unchanged.
    pub fn handle(&mut self, client: u64, message: ClientMessage)
        requires
            old(self).wf(),
        ensures
            final(self).wf(),
            final(self).config == old(self).config,
            final(self).last_id == old(self).last_id,
            final(self).conns@ == old(self).conns@,
            final(self).raft@ == old(self).raft@,
            final(self).sharks@ == old(self).sharks@,
            final(self).dash_cooldowns@ == old(self).dash_cooldowns@,
            final(self).restart_timer == old(self).restart_timer,
            final(self).should_exit == old(self).should_exit,
            !old(self).conns@.contains(client) ==> maps_unchanged(*old(self), *final(self))
                && final(self).outbox@ == old(self).outbox@,
            old(self).conns@.contains(client) && message@ is Pig ==> maps_unchanged(
                *old(self),
                *final(self),
            ) && outv(final(self).outbox@) == outv(old(self).outbox@).push((client, MsgV::Pog))
                + pos_updates(client, old(self).player_pos@) + gull_updates(
                client,
                old(self).gull_pos@,
            ) + seq![(client, MsgV::UpdateSharks(old(self).sharks@))],
            message@ matches CMsgV::UpdatePos(p) ==> !old(self).conns@.contains(client) || if old(self).wait_for_teleport_ack@.contains(client) || !pos_ok(p) || !has_key(
                old(self).player_pos@,
                client,
            ) {
                maps_unchanged(*old(self), *final(self)) && final(self).outbox@ == old(self).outbox@
            } else {
                &&& final(self).outbox@ == old(self).outbox@
                &&& lookup(final(self).player_pos@, client) == Some(p)
                &&& forall|q: u64|
                    q != client ==> #[trigger] lookup(final(self).player_pos@, q) == lookup(
                        old(self).player_pos@,
                        q,
                    )
                &&& exists|i: int|
                    0 <= i < old(self).player_pos@.len() && old(self).player_pos@[i].0 == client
                        && final(self).player_pos@ == #[trigger] old(self).player_pos@.update(
                        i,
                        (client, p),
                    )
                &&& final(self).names@ == old(self).names@
                &&& final(self).gull_pos@ == old(self).gull_pos@
                &&& final(self).attacks@ == old(self).attacks@
                &&& final(self).poop_cooldowns@ == old(self).poop_cooldowns@
                &&& final(self).wait_for_teleport_ack@ == old(self).wait_for_teleport_ack@
                &&& final(self).flying_poops@ == old(self).flying_poops@
            },
            message@ matches CMsgV::UpdateGullPos(p) ==> !old(self).conns@.contains(client)
                || if !pos_ok(p) {
                maps_unchanged(*old(self), *final(self)) && final(self).outbox@ == old(self).outbox@
            } else {
                &&& final(self).outbox@ == old(self).outbox@
                &&& lookup(final(self).gull_pos@, client) == Some(p)
                &&& forall|q: u64|
                    q != client ==> #[trigger] lookup(final(self).gull_pos@, q) == lookup(
                        old(self).gull_pos@,
                        q,
                    )
                &&& final(self).names@ == old(self).names@
                &&& final(self).player_pos@ == old(self).player_pos@
                &&& final(self).attacks@ == old(self).attacks@
                &&& final(self).poop_cooldowns@ == old(self).poop_cooldowns@
                &&& final(self).wait_for_teleport_ack@ == old(self).wait_for_teleport_ack@
                &&& final(self).flying_poops@ == old(self).flying_poops@
            },
            message@ matches CMsgV::Attack(t) ==> !old(self).conns@.contains(client)
                || if has_key(
                old(self).dash_cooldowns@,
                client,
            ) || !target_ok(t) || !has_key(old(self).player_pos@, client) {
                maps_unchanged(*old(self), *final(self)) && final(self).outbox@ == old(self).outbox@
            } else {
                let p = lookup(old(self).player_pos@, client) -> Some_0;
                let d = attack_dir(p, t);
                &&& lookup(final(self).attacks@, client) == Some(
                    PendingAttack { dir: d, time_left: old(self).config.attack_time },
                )
                &&& forall|q: u64|
                    q != client ==> #[trigger] lookup(final(self).attacks@, q) == lookup(
                        old(self).attacks@,
                        q,
                    )
                &&& outv(final(self).outbox@) == outv(old(self).outbox@).push(
                    (client, MsgV::YouStartAttack(d)),
                ) + bcast_others(old(self).conns@, client, MsgV::StartAttack(d, client))
                &&& final(self).names@ == old(self).names@
                &&& final(self).player_pos@ == old(self).player_pos@
                &&& final(self).gull_pos@ == old(self).gull_pos@
                &&& final(self).poop_cooldowns@ == old(self).poop_cooldowns@
                &&& final(self).wait_for_teleport_ack@ == old(self).wait_for_teleport_ack@
                &&& final(self).flying_poops@ == old(self).flying_poops@
            },
            old(self).conns@.contains(client) && message@ is TeleportAck ==> {
                &&& final(self).outbox@ == old(self).outbox@
                &&& !final(self).wait_for_teleport_ack@.contains(client)
                &&& forall|q: u64|
                    q != client ==> final(self).wait_for_teleport_ack@.contains(q) == old(self).wait_for_teleport_ack@.contains(q)
                &&& final(self).names@ == old(self).names@
                &&& final(self).player_pos@ == old(self).player_pos@
                &&& final(self).gull_pos@ == old(self).gull_pos@
                &&& final(self).attacks@ == old(self).attacks@
                &&& final(self).poop_cooldowns@ == old(self).poop_cooldowns@
                &&& final(self).flying_poops@ == old(self).flying_poops@
            },
            message@ matches CMsgV::Name(nv) ==> !old(self).conns@.contains(client) || {
                &&& outv(final(self).outbox@) == outv(old(self).outbox@) + bcast_others(
                    old(self).conns@,
                    client,
                    MsgV::Name(client, nv),
                )
                &&& (lookup(final(self).names@, client) matches Some(s2) && s2@ == nv)
                &&& forall|q: u64|
                    q != client ==> #[trigger] lookup(final(self).names@, q) == lookup(
                        old(self).names@,
                        q,
                    )
                &&& final(self).player_pos@ == old(self).player_pos@
                &&& final(self).gull_pos@ == old(self).gull_pos@
                &&& final(self).attacks@ == old(self).attacks@
                &&& final(self).poop_cooldowns@ == old(self).poop_cooldowns@
                &&& final(self).wait_for_teleport_ack@ == old(self).wait_for_teleport_ack@
                &&& final(self).flying_poops@ == old(self).flying_poops@
            },
            old(self).conns@.contains(client) && message@ is Poop ==> if has_key(
                old(self).poop_cooldowns@,
                client,
            ) || !has_key(old(self).gull_pos@, client) {
                maps_unchanged(*old(self), *final(self)) && final(self).outbox@ == old(self).outbox@
            } else {
                let gp = lookup(old(self).gull_pos@, client) -> Some_0;
                &&& lookup(final(self).poop_cooldowns@, client) == Some(
                    old(self).config.poop_cooldown,
                )
                &&& forall|q: u64|
                    q != client ==> #[trigger] lookup(final(self).poop_cooldowns@, q) == lookup(
                        old(self).poop_cooldowns@,
                        q,
                    )
                &&& final(self).flying_poops@ == old(self).flying_poops@.push(gp)
                &&& outv(final(self).outbox@) == outv(old(self).outbox@) + bcast_all(
                    old(self).conns@,
                    MsgV::FlyingPoop(gp),
                )
                &&& final(self).names@ == old(self).names@
                &&& final(self).player_pos@ == old(self).player_pos@
                &&& final(self).gull_pos@ == old(self).gull_pos@
                &&& final(self).attacks@ == old(self).attacks@
                &&& final(self).wait_for_teleport_ack@ == old(self).wait_for_teleport_ack@
            },
    {
        let ghost o = *old(self);
        if !self.conns.contains(client) {
            return ;
        }
        match message {
            ClientMessage::Pig => {
                send_to(&mut self.outbox, client, ServerMessage::Pog);
                let mut i: usize = 0;
                while i < self.player_pos.len()
                    invariant
                        maps_unchanged(o, *self),
                        self.last_id == o.last_id,
                        o.wf(),
                        i <= self.player_pos@.len(),
                        outv(self.outbox@) == outv(o.outbox@).push((client, MsgV::Pog))
                            + pos_updates(client, o.player_pos@.take(i as int)),
                    decreases self.player_pos@.len() - i,
                {
                    let other = self.player_pos.key_at(i);
                    if other != client {
                        let pos = *self.player_pos.value_at(i);
                        send_to(
                            &mut self.outbox,
                            client,
                            ServerMessage::UpdatePos { id: other, pos },
                        );
                    }
                    proof {
                        assert(o.player_pos@.take(i as int + 1).drop_last() =~= o.player_pos@.take(
                            i as int,
                        ));
                        assert(o.player_pos@.take(i as int + 1).last() == o.player_pos@[i as int]);
                    }
                    i = i + 1;
                }
                proof {
                    assert(o.player_pos@.take(o.player_pos@.len() as int) =~= o.player_pos@);
                }
                let ghost mark = outv(self.outbox@);
                let mut j: usize = 0;
                while j < self.gull_pos.len()
                    invariant
                        maps_unchanged(o, *self),
                        self.last_id == o.last_id,
                        o.wf(),
                        j <= self.gull_pos@.len(),
                        outv(self.outbox@) == mark + gull_updates(
                            client,
                            o.gull_pos@.take(j as int),
                        ),
                    decreases self.gull_pos@.len() - j,
                {
                    let other = self.gull_pos.key_at(j);
                    if other != client {
                        let pos = *self.gull_pos.value_at(j);
                        send_to(
                            &mut self.outbox,
                            client,
                            ServerMessage::UpdateGullPos { id: other, pos },
                        );
                    }
                    proof {
                        assert(o.gull_pos@.take(j as int + 1).drop_last() =~= o.gull_pos@.take(
                            j as int,
                        ));
                        assert(o.gull_pos@.take(j as int + 1).last() == o.gull_pos@[j as int]);
                    }
                    j = j + 1;
                }
                proof {
                    assert(o.gull_pos@.take(o.gull_pos@.len() as int) =~= o.gull_pos@);
                }
                let sharks = copy_sharks(&self.sharks);
                send_to(&mut self.outbox, client, ServerMessage::UpdateSharks(sharks));
                proof {
                    assert(outv(self.outbox@) =~= outv(o.outbox@).push((client, MsgV::Pog))
                        + pos_updates(client, o.player_pos@) + gull_updates(client, o.gull_pos@)
                        + seq![(client, MsgV::UpdateSharks(o.sharks@))]);
                }
            },
            ClientMessage::UpdatePos(pos) => {
                if self.wait_for_teleport_ack.contains(client) {
                    return ;
                }
                if !crate::protocol::pos_valid(&pos) {
                    return ;
                }
                if self.player_pos.contains_key(client) {
                    self.player_pos.insert(client, pos);
                    proof {
                        lemma_insert_entries(o.player_pos@, self.player_pos@, client, pos);
                        let f = *self;
                        assert forall|j: int| 0 <= j < f.player_pos@.len() implies f.conns@.contains(
                            (#[trigger] f.player_pos@[j]).0,
                        ) && pos_ok(f.player_pos@[j].1) && has_key(
                            f.names@,
                            f.player_pos@[j].0,
                        ) by {
                            if f.player_pos@[j] != (client, pos) {
                                let j0 = choose|j0: int|
                                    0 <= j0 < o.player_pos@.len() && f.player_pos@[j]
                                        == #[trigger] o.player_pos@[j0];
                            } else {
                                crate::idmap::lemma_has_key(o.player_pos@, client);
                                let j0 = choose|j0: int|
                                    0 <= j0 < o.player_pos@.len() && (
                                    #[trigger] o.player_pos@[j0]).0 == client;
                            }
                        }
                    }
                }
            },
            ClientMessage::UpdateGullPos(pos) => {
                if !crate::protocol::pos_valid(&pos) {
                    return ;
                }
                proof {
                    crate::idmap::lemma_has_key(o.gull_pos@, client);
                }
                self.gull_pos.insert(client, pos);
                proof {
                    lemma_insert_entries(o.gull_pos@, self.gull_pos@, client, pos);
                    let f = *self;
                    assert forall|j: int| 0 <= j < f.gull_pos@.len() implies f.conns@.contains(
                        (#[trigger] f.gull_pos@[j]).0,
                    ) && pos_ok(f.gull_pos@[j].1) by {
                        if f.gull_pos@[j] != (client, pos) {
                            let j0 = choose|j0: int|
                                0 <= j0 < o.gull_pos@.len() && f.gull_pos@[j]
                                    == #[trigger] o.gull_pos@[j0];
                        }
                    }
                }
            },
            ClientMessage::Attack(target) => {
                if self.dash_cooldowns.contains_key(client) {
                    return ;
                }
                if target.x < -crate::geom::COORD_MAX || target.x > crate::geom::COORD_MAX
                    || target.y < -crate::geom::COORD_MAX || target.y > crate::geom::COORD_MAX {
                    return ;
                }
                let p: Pos = match self.player_pos.get(client) {
                    Some(p) => *p,
                    None => {
                        return ;
                    },
                };
                proof {
                    lemma_lookup_entry(o.player_pos@, client, p);
                    let j0 = choose|j0: int|
                        0 <= j0 < o.player_pos@.len() && #[trigger] o.player_pos@[j0] == (
                            client,
                            p,
                        );
                }
                let d = crate::geom::normalize_milli(target.x - p.pos.x, target.y - p.pos.y);
                proof {
                    assert(d == attack_dir(p, target));
                }
                self.attacks.insert(
                    client,
                    PendingAttack { dir: d, time_left: self.config.attack_time },
                );
                send_to(&mut self.outbox, client, ServerMessage::YouStartAttack(d));
                bcast_copy_others(
                    &mut self.outbox,
                    &self.conns,
                    client,
                    ServerMessage::StartAttack(d, client),
                );
                proof {
                    lemma_insert_entries(
                        o.attacks@,
                        self.attacks@,
                        client,
                        PendingAttack { dir: d, time_left: o.config.attack_time },
                    );
                    let f = *self;
                    assert forall|j: int| 0 <= j < f.attacks@.len() implies f.conns@.contains(
                        (#[trigger] f.attacks@[j]).0,
                    ) && dir_ok(f.attacks@[j].1.dir) && 0 < f.attacks@[j].1.time_left
                        <= TIME_MAX by {
                        if f.attacks@[j] != (
                            client,
                            PendingAttack { dir: d, time_left: o.config.attack_time },
                        ) {
                            let j0 = choose|j0: int|
                                0 <= j0 < o.attacks@.len() && f.attacks@[j]
                                    == #[trigger] o.attacks@[j0];
                        }
                    }
                }
            },
            ClientMessage::TeleportAck => {
                self.wait_for_teleport_ack.remove(client);
                proof {
                    let f = *self;
                    assert forall|i: int|
                        0 <= i < f.wait_for_teleport_ack@.len() implies f.conns@.contains(
                        #[trigger] f.wait_for_teleport_ack@[i],
                    ) by {
                        let e = f.wait_for_teleport_ack@[i];
                        assert(f.wait_for_teleport_ack@.contains(e));
                        if e != client {
                            assert(o.wait_for_teleport_ack@.contains(e));
                            let j0 = choose|j0: int|
                                0 <= j0 < o.wait_for_teleport_ack@.len()
                                    && o.wait_for_teleport_ack@[j0] == e;
                        }
                    }
                }
            },
            ClientMessage::Name(name) => {
                let ghost nv = name@;
                let mut i: usize = 0;
                while i < self.conns.len()
                    invariant
                        maps_unchanged(o, *self),
                        self.last_id == o.last_id,
                        o.wf(),
                        name@ == nv,
                        i <= self.conns@.len(),
                        outv(self.outbox@) == outv(o.outbox@) + bcast_others(
                            o.conns@.take(i as int),
                            client,
                            MsgV::Name(client, nv),
                        ),
                    decreases self.conns@.len() - i,
                {
                    let dest = self.conns.at(i);
                    if dest != client {
                        let nc = name.clone();
                        send_to(&mut self.outbox, dest, ServerMessage::Name(client, nc));
                    }
                    proof {
                        assert(o.conns@.take(i as int + 1).drop_last() =~= o.conns@.take(i as int));
                        assert(o.conns@.take(i as int + 1).last() == o.conns@[i as int]);
                    }
                    i = i + 1;
                }
                proof {
                    assert(o.conns@.take(o.conns@.len() as int) =~= o.conns@);
                }
                self.names.insert(client, name);
                proof {
                    lemma_insert_entries(o.names@, self.names@, client, name);
                    let f = *self;
                    assert forall|j: int| 0 <= j < f.names@.len() implies f.conns@.contains(
                        (#[trigger] f.names@[j]).0,
                    ) by {
                        if f.names@[j].0 != client {
                            let j0 = choose|j0: int|
                                0 <= j0 < o.names@.len() && f.names@[j] == #[trigger] o.names@[j0];
                        }
                    }
                    assert(players_named(f.player_pos@, f.names@)) by {
                        assert forall|j: int| 0 <= j < f.player_pos@.len() implies has_key(
                            f.names@,
                            (#[trigger] f.player_pos@[j]).0,
                        ) by {
                            let k = f.player_pos@[j].0;
                            assert(has_key(o.names@, k));
                        }
                    }
                }
            },
            ClientMessage::Poop => {
                if self.poop_cooldowns.contains_key(client) {
                    return ;
                }
                let gp: Pos = match self.gull_pos.get(client) {
                    Some(p) => *p,
                    None => {
                        return ;
                    },
                };
                proof {
                    crate::idmap::lemma_has_key(o.gull_pos@, client);
                    crate::idmap::lemma_first_occurrence(o.gull_pos@, client);
                }
                self.poop_cooldowns.insert(client, self.config.poop_cooldown);
                self.flying_poops.push(gp);
                bcast_copy(&mut self.outbox, &self.conns, ServerMessage::FlyingPoop(gp));
                proof {
                    lemma_insert_entries(
                        o.poop_cooldowns@,
                        self.poop_cooldowns@,
                        client,
                        o.config.poop_cooldown,
                    );
                    let f = *self;
                    assert forall|j: int| 0 <= j < f.poop_cooldowns@.len() implies f.conns@.contains(
                        (#[trigger] f.poop_cooldowns@[j]).0,
                    ) && 0 < f.poop_cooldowns@[j].1 <= TIME_MAX by {
                        if f.poop_cooldowns@[j] != (client, o.config.poop_cooldown) {
                            let j0 = choose|j0: int|
                                0 <= j0 < o.poop_cooldowns@.len() && f.poop_cooldowns@[j]
                                    == #[trigger] o.poop_cooldowns@[j0];
                        }
                    }
                    assert(all_poops_ok(f.flying_poops@)) by {
                        assert(forall|j: int|
                            0 <= j < o.flying_poops@.len() ==> #[trigger] f.flying_poops@[j]
                                == o.flying_poops@[j]);
                        assert(f.flying_poops@[o.flying_poops@.len() as int] == gp);
                        assert(pos_ok(gp)) by {
                            let j0 = choose|j0: int|
                                0 <= j0 < o.gull_pos@.len() && (#[trigger] o.gull_pos@[j0]).0
                                    == client && forall|b: int|
                                    0 <= b < j0 ==> (#[trigger] o.gull_pos@[b]).0 != client;
                            crate::idmap::lemma_lookup_at(o.gull_pos@, client, j0);
                        }
                    }
                }
            },
        }
    }
}


/// One ballistic step of a projectile: gravity lowers the vertical rate,
/// then the position advances by the new velocity (each coordinate
/// clamped to the world's bounds).
pub open spec fn poop_step(p: Pos, g: int, dt: int) -> Pos {
    let vz = crate::geom::step_c(p.vel.z as int, -g, dt) as i64;
    (Pos {
        pos: (Vec3 {
            x: crate::geom::step_c(p.pos.x as int, p.vel.x as int, dt) as i64,
            y: crate::geom::step_c(p.pos.y as int, p.vel.y as int, dt) as i64,
            z: crate::geom::step_c(p.pos.z as int, vz as int, dt) as i64,
        }),
        rot: p.rot,
        vel: (Vec3 { x: p.vel.x, y: p.vel.y, z: vz }),
    })
}

/// The projectiles still in flight after one step: those whose stepped
/// position stays above the ground plane, in order.
pub open spec fn poops_after(s: Seq<Pos>, g: int, dt: int) -> Seq<Pos>
    decreases s.len(),
{
    if s.len() == 0 {
        Seq::empty()
    } else {
        let rest = poops_after(s.drop_last(), g, dt);
        let q = poop_step(s.last(), g, dt);
        if q.pos.z > 0 {
            rest.push(q)
        } else {
            rest
        }
    }
}

/// The landing notices of one projectile step: for each projectile that
/// reaches the ground, its landing point to every connection.
pub open spec fn poop_msgs(conns: Seq<u64>, s: Seq<Pos>, g: int, dt: int) -> Seq<(u64, MsgV)>
    decreases s.len(),
{
    if s.len() == 0 {
        Seq::empty()
    } else {
        let rest = poop_msgs(conns, s.drop_last(), g, dt);
        let q = poop_step(s.last(), g, dt);
        if q.pos.z <= 0 {
            rest + bcast_all(conns, MsgV::PoopOnFloor(Vec2 { x: q.pos.x, y: q.pos.y }))
        } else {
            rest
        }
    }
}

/// The cooldowns still running after `dt` ms, in order.
pub open spec fn cds_after(s: Seq<(u64, i64)>, dt: int) -> Seq<(u64, i64)>
    decreases s.len(),
{
    if s.len() == 0 {
        Seq::empty()
    } else {
        let rest = cds_after(s.drop_last(), dt);
        if s.last().1 - dt > 0 {
            rest.push((s.last().0, (s.last().1 - dt) as i64))
        } else {
            rest
        }
    }
}

/// The restore notices of one cooldown step: `m` to each owner whose
/// cooldown expired, in order.
pub open spec fn cd_msgs(s: Seq<(u64, i64)>, dt: int, m: MsgV) -> Seq<(u64, MsgV)>
    decreases s.len(),
{
    if s.len() == 0 {
        Seq::empty()
    } else {
        let rest = cd_msgs(s.drop_last(), dt, m);
        if s.last().1 - dt > 0 {
            rest
        } else {
            rest.push((s.last().0, m))
        }
    }
}

/// Every entry of `cds_after` keeps an old entry's key.
pub proof fn lemma_cds_after_keys(s: Seq<(u64, i64)>, dt: int)
    ensures
        forall|j: int| #![trigger cds_after(s, dt)[j]]
            0 <= j < cds_after(s, dt).len() ==> exists|j0: int|
                0 <= j0 < s.len() && cds_after(s, dt)[j].0 == (#[trigger] s[j0]).0 && j0 >= j,
        cds_after(s, dt).len() <= s.len(),
    decreases s.len(),
{
    if s.len() > 0 {
        lemma_cds_after_keys(s.drop_last(), dt);
        let f = cds_after(s, dt);
        let pre = cds_after(s.drop_last(), dt);
        assert forall|j: int| #![trigger f[j]] 0 <= j < f.len() implies exists|j0: int|
            0 <= j0 < s.len() && f[j].0 == (#[trigger] s[j0]).0 && j0 >= j by {
            if j < pre.len() {
                assert(f[j] == pre[j]);
                let j0 = choose|j0: int|
                    0 <= j0 < s.drop_last().len() && pre[j].0 == (#[trigger] s.drop_last()[j0]).0
                        && j0 >= j;
                assert(s[j0].0 == pre[j].0);
            } else {
                assert(f[j] == (s.last().0, (s.last().1 - dt) as i64));
                assert(s[s.len() - 1].0 == f[j].0);
            }
        }
    }
}

/// With distinct keys, `cds_after` keeps them distinct, registered, and
/// its values positive and bounded.
pub proof fn lemma_cds_after_wf(s: Seq<(u64, i64)>, dt: int, conns: Seq<u64>)
    requires
        crate::idmap::unique_keys(s),
        keys_in(s, conns),
        all_cd_ok(s),
        0 <= dt,
    ensures
        crate::idmap::unique_keys(cds_after(s, dt)),
        keys_in(cds_after(s, dt), conns),
        all_cd_ok(cds_after(s, dt)),
    decreases s.len(),
{
    lemma_cds_after_keys(s, dt);
    let f = cds_after(s, dt);
    if s.len() > 0 {
        assert(crate::idmap::unique_keys(s.drop_last())) by {
            assert(forall|a: int|
                0 <= a < s.drop_last().len() ==> #[trigger] s.drop_last()[a] == s[a]);
        }
        assert(keys_in(s.drop_last(), conns)) by {
            assert(forall|a: int|
                0 <= a < s.drop_last().len() ==> #[trigger] s.drop_last()[a] == s[a]);
        }
        assert(all_cd_ok(s.drop_last())) by {
            assert(forall|a: int|
                0 <= a < s.drop_last().len() ==> #[trigger] s.drop_last()[a] == s[a]);
        }
        lemma_cds_after_wf(s.drop_last(), dt, conns);
        let pre = cds_after(s.drop_last(), dt);
        lemma_cds_after_keys(s.drop_last(), dt);
        assert(crate::idmap::unique_keys(f)) by {
            if s.last().1 - dt > 0 {
                assert forall|a: int, b: int| 0 <= a < b < f.len() implies (#[trigger] f[a]).0
                    != (#[trigger] f[b]).0 by {
                    if b < pre.len() {
                        assert(f[a] == pre[a] && f[b] == pre[b]);
                    } else {
                        assert(f[b].0 == s[s.len() - 1].0);
                        assert(f[a] == pre[a]);
                        let j0 = choose|j0: int|
                            0 <= j0 < s.drop_last().len() && pre[a].0 == (
                            #[trigger] s.drop_last()[j0]).0 && j0 >= a;
                        assert(s[j0].0 == pre[a].0);
                        assert(s[j0].0 != s[s.len() - 1].0);
                    }
                }
            }
        }
        assert(keys_in(f, conns)) by {
            assert forall|a: int| 0 <= a < f.len() implies conns.contains(
                (#[trigger] f[a]).0,
            ) by {
                let j0 = choose|j0: int|
                    0 <= j0 < s.len() && f[a].0 == (#[trigger] s[j0]).0 && j0 >= a;
            }
        }
    }
}

/// The full effect of the projectile phase over `dt` ms; see
/// [`State::tick_projectiles`], whose contract this is.
pub open spec fn projectiles_phase(o: State, f: State, dt: int) -> bool {
    &&& (f.wf())
    &&& (f.config == o.config)
    &&& (f.last_id == o.last_id)
    &&& (f.conns@ == o.conns@)
    &&& (f.names@ == o.names@)
    &&& (f.player_pos@ == o.player_pos@)
    &&& (f.gull_pos@ == o.gull_pos@)
    &&& (f.raft@ == o.raft@)
    &&& (f.sharks@ == o.sharks@)
    &&& (f.attacks@ == o.attacks@)
    &&& (f.dash_cooldowns@ == o.dash_cooldowns@)
    &&& (f.poop_cooldowns@ == o.poop_cooldowns@)
    &&& (f.wait_for_teleport_ack@ == o.wait_for_teleport_ack@)
    &&& (f.restart_timer == o.restart_timer)
    &&& (f.should_exit == o.should_exit)
    &&& (f.flying_poops@ == poops_after(
                o.flying_poops@,
                o.config.gravity as int,
                dt,
            ))
    &&& (outv(f.outbox@) == outv(o.outbox@) + poop_msgs(
                o.conns@,
                o.flying_poops@,
                o.config.gravity as int,
                dt,
            ))
}

/// The full effect of the cooldown phase over `dt` ms; see
/// [`State::tick_cooldowns`], whose contract this is.
pub open spec fn cooldowns_phase(o: State, f: State, dt: int) -> bool {
    &&& (f.wf())
    &&& (f.config == o.config)
    &&& (f.last_id == o.last_id)
    &&& (f.conns@ == o.conns@)
    &&& (f.names@ == o.names@)
    &&& (f.player_pos@ == o.player_pos@)
    &&& (f.gull_pos@ == o.gull_pos@)
    &&& (f.raft@ == o.raft@)
    &&& (f.sharks@ == o.sharks@)
    &&& (f.attacks@ == o.attacks@)
    &&& (f.wait_for_teleport_ack@ == o.wait_for_teleport_ack@)
    &&& (f.flying_poops@ == o.flying_poops@)
    &&& (f.restart_timer == o.restart_timer)
    &&& (f.should_exit == o.should_exit)
    &&& (f.dash_cooldowns@ == cds_after(o.dash_cooldowns@, dt))
    &&& (f.poop_cooldowns@ == cds_after(o.poop_cooldowns@, dt))
    &&& (outv(f.outbox@) == outv(o.outbox@) + cd_msgs(
                o.dash_cooldowns@,
                dt,
                MsgV::DashRestore,
            ) + cd_msgs(
                o.poop_cooldowns@,
                dt,
                MsgV::YouCanPoopCongratulations,
            ))
}

impl State {
    /// Projectile ballistics and ground-contact removal: the first phase
    /// of a tick.
    pub fn tick_projectiles(&mut self, dt: i64)
        requires
            old(self).wf(),
            0 <= dt <= 100000,
        ensures
            projectiles_phase(*old(self), *final(self), dt as int),

    {
        let ghost o = *old(self);
        let g = self.config.gravity;
        let mut kept: Vec<Pos> = Vec::new();
        let mut i: usize = 0;
        while i < self.flying_poops.len()
            invariant
                maps_unchanged(o, *self),
                self.last_id == o.last_id,
                o.wf(),
                0 <= dt <= 100000,
                g == o.config.gravity,
                i <= o.flying_poops@.len(),
                kept@ == poops_after(o.flying_poops@.take(i as int), g as int, dt as int),
                all_poops_ok(kept@),
                outv(self.outbox@) == outv(o.outbox@) + poop_msgs(
                    o.conns@,
                    o.flying_poops@.take(i as int),
                    g as int,
                    dt as int,
                ),
            decreases o.flying_poops@.len() - i,
        {
            let p = self.flying_poops[i];
            proof {
                assert(pos_ok(p));
            }
            let vz = crate::geom::step_coord(p.vel.z, -g, dt);
            let nx = crate::geom::step_coord(p.pos.x, p.vel.x, dt);
            let ny = crate::geom::step_coord(p.pos.y, p.vel.y, dt);
            let nz = crate::geom::step_coord(p.pos.z, vz, dt);
            let q = Pos {
                pos: Vec3 { x: nx, y: ny, z: nz },
                rot: p.rot,
                vel: Vec3 { x: p.vel.x, y: p.vel.y, z: vz },
            };
            proof {
                assert(q == poop_step(p, g as int, dt as int));
                assert(o.flying_poops@.take(i as int + 1).drop_last() =~= o.flying_poops@.take(
                    i as int,
                ));
                assert(o.flying_poops@.take(i as int + 1).last() == o.flying_poops@[i as int]);
            }
            if q.pos.z > 0 {
                kept.push(q);
            } else {
                bcast_copy(
                    &mut self.outbox,
                    &self.conns,
                    ServerMessage::PoopOnFloor(Vec2 { x: q.pos.x, y: q.pos.y }),
                );
            }
            i = i + 1;
        }
        proof {
            assert(o.flying_poops@.take(o.flying_poops@.len() as int) =~= o.flying_poops@);
        }
        self.flying_poops = kept;
    }

    /// Cooldown decrement and expiry notices: dash cooldowns first, then
    /// projectile cooldowns, each map scanned in order.
    pub fn tick_cooldowns(&mut self, dt: i64)
        requires
            old(self).wf(),
            0 <= dt <= 100000,
        ensures
            cooldowns_phase(*old(self), *final(self), dt as int),

    {
        let ghost o = *old(self);
        let mut kept: IdMap<i64> = IdMap::new();
        let mut i: usize = 0;
        while i < self.dash_cooldowns.len()
            invariant
                maps_unchanged(o, *self),
                self.last_id == o.last_id,
                o.wf(),
                0 <= dt <= 100000,
                i <= o.dash_cooldowns@.len(),
                kept.entries@ == cds_after(o.dash_cooldowns@.take(i as int), dt as int),
                outv(self.outbox@) == outv(o.outbox@) + cd_msgs(
                    o.dash_cooldowns@.take(i as int),
                    dt as int,
                    MsgV::DashRestore,
                ),
            decreases o.dash_cooldowns@.len() - i,
        {
            let id = self.dash_cooldowns.key_at(i);
            let t = *self.dash_cooldowns.value_at(i);
            proof {
                assert(0 < t <= TIME_MAX);
                assert(o.dash_cooldowns@.take(i as int + 1).drop_last() =~= o.dash_cooldowns@.take(
                    i as int,
                ));
                assert(o.dash_cooldowns@.take(i as int + 1).last() == o.dash_cooldowns@[i as int]);
            }
            if t - dt > 0 {
                kept.entries.push((id, t - dt));
            } else {
                send_to(&mut self.outbox, id, ServerMessage::DashRestore);
            }
            i = i + 1;
        }
        proof {
            assert(o.dash_cooldowns@.take(o.dash_cooldowns@.len() as int) =~= o.dash_cooldowns@);
            lemma_cds_after_wf(o.dash_cooldowns@, dt as int, o.conns@);
        }
        self.dash_cooldowns = kept;
        let ghost mark = outv(self.outbox@);
        let mut kept2: IdMap<i64> = IdMap::new();
        let mut j: usize = 0;
        while j < self.poop_cooldowns.len()
            invariant
                self.poop_cooldowns@ == o.poop_cooldowns@,
                self.conns@ == o.conns@,
                o.wf(),
                0 <= dt <= 100000,
                j <= o.poop_cooldowns@.len(),
                kept2.entries@ == cds_after(o.poop_cooldowns@.take(j as int), dt as int),
                outv(self.outbox@) == mark + cd_msgs(
                    o.poop_cooldowns@.take(j as int),
                    dt as int,
                    MsgV::YouCanPoopCongratulations,
                ),
                self.names@ == o.names@,
                self.player_pos@ == o.player_pos@,
                self.gull_pos@ == o.gull_pos@,
                self.raft@ == o.raft@,
                self.sharks@ == o.sharks@,
                self.attacks@ == o.attacks@,
                self.dash_cooldowns@ == cds_after(o.dash_cooldowns@, dt as int),
                self.wait_for_teleport_ack@ == o.wait_for_teleport_ack@,
                self.flying_poops@ == o.flying_poops@,
                self.restart_timer == o.restart_timer,
                self.should_exit == o.should_exit,
                self.config == o.config,
                self.last_id == o.last_id,
            decreases o.poop_cooldowns@.len() - j,
        {
            let id = self.poop_cooldowns.key_at(j);
            let t = *self.poop_cooldowns.value_at(j);
            proof {
                assert(0 < t <= TIME_MAX);
                assert(o.poop_cooldowns@.take(j as int + 1).drop_last() =~= o.poop_cooldowns@.take(
                    j as int,
                ));
                assert(o.poop_cooldowns@.take(j as int + 1).last() == o.poop_cooldowns@[j as int]);
            }
            if t - dt > 0 {
                kept2.entries.push((id, t - dt));
            } else {
                send_to(&mut self.outbox, id, ServerMessage::YouCanPoopCongratulations);
            }
            j = j + 1;
        }
        proof {
            assert(o.poop_cooldowns@.take(o.poop_cooldowns@.len() as int) =~= o.poop_cooldowns@);
            lemma_cds_after_wf(o.poop_cooldowns@, dt as int, o.conns@);
        }
        self.poop_cooldowns = kept2;
    }
}


/// Division to the nearest multiple, halves rounded away from zero.
pub open spec fn round_div(a: int, d: int) -> int {
    if a >= 0 {
        (a + d / 2) / d
    } else {
        -((-a + d / 2) / d)
    }
}

/// Round a world coordinate pair to its tile.
pub open spec fn tile_of(x: int, y: int, ts: int) -> Vec2 {
    (Vec2 { x: round_div(x, ts) as i64, y: round_div(y, ts) as i64 })
}

/// Division to the nearest multiple; see [`round_div`].
pub fn round_div_exec(a: i64, d: i64) -> (r: i64)
    requires
        d > 0,
        crate::geom::abs_i(a as int) <= 4 * crate::geom::COORD_MAX,
    ensures
        r == round_div(a as int, d as int),
        crate::geom::abs_i(r as int) <= 8 * crate::geom::COORD_MAX,
{
    proof {
        let ab = crate::geom::abs_i(a as int);
        let q = (ab + (d as int) / 2) / (d as int);
        assert(q * d <= ab + d / 2 && q >= 0) by (nonlinear_arith)
            requires
                d >= 1,
                ab >= 0,
                q == (ab + (d as int) / 2) / (d as int),
        ;
        assert(q <= ab + 1) by (nonlinear_arith)
            requires
                q * d <= ab + d / 2,
                d >= 1,
                q >= 0,
                ab >= 0,
        ;
    }
    if a >= 0 {
        ((a as u64 + (d / 2) as u64) / d as u64) as i64
    } else {
        -((((-a) as u64 + (d / 2) as u64) / d as u64) as i64)
    }
}

/// Whether a player at `p` is standing within one tile of the platform:
/// some tile of the 3-by-3 window around the player's tile is present.
pub open spec fn supported(raft: Seq<Vec2>, p: Pos, ts: int) -> bool {
    let t = tile_of(p.pos.x as int, p.pos.y as int, ts);
    ||| raft.contains(Vec2 { x: (t.x - 1) as i64, y: (t.y - 1) as i64 })
    ||| raft.contains(Vec2 { x: (t.x - 1) as i64, y: t.y })
    ||| raft.contains(Vec2 { x: (t.x - 1) as i64, y: (t.y + 1) as i64 })
    ||| raft.contains(Vec2 { x: t.x, y: (t.y - 1) as i64 })
    ||| raft.contains(Vec2 { x: t.x, y: t.y })
    ||| raft.contains(Vec2 { x: t.x, y: (t.y + 1) as i64 })
    ||| raft.contains(Vec2 { x: (t.x + 1) as i64, y: (t.y - 1) as i64 })
    ||| raft.contains(Vec2 { x: (t.x + 1) as i64, y: t.y })
    ||| raft.contains(Vec2 { x: (t.x + 1) as i64, y: (t.y + 1) as i64 })
}

/// The players still alive after the drowning check, in order.
pub open spec fn players_after(s: Seq<(u64, Pos)>, raft: Seq<Vec2>, ts: int) -> Seq<(u64, Pos)>
    decreases s.len(),
{
    if s.len() == 0 {
        Seq::empty()
    } else {
        let rest = players_after(s.drop_last(), raft, ts);
        if supported(raft, s.last().1, ts) {
            rest.push(s.last())
        } else {
            rest
        }
    }
}

/// The drowning notices: for each player who drowned, a notice to the
/// player and a broadcast to the others, in table order.
pub open spec fn drown_msgs(conns: Seq<u64>, s: Seq<(u64, Pos)>, raft: Seq<Vec2>, ts: int) -> Seq<
    (u64, MsgV),
>
    decreases s.len(),
{
    if s.len() == 0 {
        Seq::empty()
    } else {
        let rest = drown_msgs(conns, s.drop_last(), raft, ts);
        if supported(raft, s.last().1, ts) {
            rest
        } else {
            rest.push((s.last().0, MsgV::YouDrown)) + bcast_others(
                conns,
                s.last().0,
                MsgV::PlayerDrown(s.last().0),
            )
        }
    }
}

/// Every entry of `players_after` is an old entry at or beyond its place.
pub proof fn lemma_players_after_entries(s: Seq<(u64, Pos)>, raft: Seq<Vec2>, ts: int)
    ensures
        forall|j: int| #![trigger players_after(s, raft, ts)[j]]
            0 <= j < players_after(s, raft, ts).len() ==> exists|j0: int|
                0 <= j0 < s.len() && players_after(s, raft, ts)[j] == (#[trigger] s[j0]) && j0
                    >= j,
        players_after(s, raft, ts).len() <= s.len(),
    decreases s.len(),
{
    if s.len() > 0 {
        lemma_players_after_entries(s.drop_last(), raft, ts);
        let f = players_after(s, raft, ts);
        let pre = players_after(s.drop_last(), raft, ts);
        assert forall|j: int| #![trigger f[j]] 0 <= j < f.len() implies exists|j0: int|
            0 <= j0 < s.len() && f[j] == (#[trigger] s[j0]) && j0 >= j by {
            if j < pre.len() {
                assert(f[j] == pre[j]);
                let j0 = choose|j0: int|
                    0 <= j0 < s.drop_last().len() && pre[j] == (#[trigger] s.drop_last()[j0])
                        && j0 >= j;
                assert(s[j0] == pre[j]);
            } else {
                assert(f[j] == s[s.len() - 1]);
            }
        }
    }
}

/// The alive table after the drowning check is well formed.
pub proof fn lemma_players_after_wf(
    s: Seq<(u64, Pos)>,
    raft: Seq<Vec2>,
    ts: int,
    conns: Seq<u64>,
    names: Seq<(u64, String)>,
)
    requires
        crate::idmap::unique_keys(s),
        keys_in(s, conns),
        all_pos_ok(s),
        players_named(s, names),
    ensures
        crate::idmap::unique_keys(players_after(s, raft, ts)),
        keys_in(players_after(s, raft, ts), conns),
        all_pos_ok(players_after(s, raft, ts)),
        players_named(players_after(s, raft, ts), names),
    decreases s.len(),
{
    lemma_players_after_entries(s, raft, ts);
    let f = players_after(s, raft, ts);
    if s.len() > 0 {
        assert(crate::idmap::unique_keys(s.drop_last()) && keys_in(s.drop_last(), conns)
            && all_pos_ok(s.drop_last()) && players_named(s.drop_last(), names)) by {
            assert(forall|a: int|
                0 <= a < s.drop_last().len() ==> #[trigger] s.drop_last()[a] == s[a]);
        }
        lemma_players_after_wf(s.drop_last(), raft, ts, conns, names);
        let pre = players_after(s.drop_last(), raft, ts);
        lemma_players_after_entries(s.drop_last(), raft, ts);
        assert(crate::idmap::unique_keys(f)) by {
            if supported(raft, s.last().1, ts) {
                assert forall|a: int, b: int| 0 <= a < b < f.len() implies (#[trigger] f[a]).0
                    != (#[trigger] f[b]).0 by {
                    if b < pre.len() {
                        assert(f[a] == pre[a] && f[b] == pre[b]);
                    } else {
                        assert(f[b] == s[s.len() - 1]);
                        assert(f[a] == pre[a]);
                        let j0 = choose|j0: int|
                            0 <= j0 < s.drop_last().len() && pre[a] == (
                            #[trigger] s.drop_last()[j0]) && j0 >= a;
                        assert(s[j0] == pre[a]);
                        assert(s[j0].0 != s[s.len() - 1].0);
                    }
                }
            }
        }
        assert forall|a: int| 0 <= a < f.len() implies conns.contains((#[trigger] f[a]).0)
            && pos_ok(f[a].1) && has_key(names, f[a].0) by {
            let j0 = choose|j0: int| 0 <= j0 < s.len() && f[a] == (#[trigger] s[j0]) && j0 >= a;
        }
    }
}

/// The full effect of the drowning phase; see [`State::tick_drowning`],
/// whose contract this is.
pub open spec fn drowning_phase(o: State, f: State) -> bool {
    &&& (f.wf())
    &&& (f.config == o.config)
    &&& (f.last_id == o.last_id)
    &&& (f.conns@ == o.conns@)
    &&& (f.names@ == o.names@)
    &&& (f.gull_pos@ == o.gull_pos@)
    &&& (f.raft@ == o.raft@)
    &&& (f.sharks@ == o.sharks@)
    &&& (f.attacks@ == o.attacks@)
    &&& (f.dash_cooldowns@ == o.dash_cooldowns@)
    &&& (f.poop_cooldowns@ == o.poop_cooldowns@)
    &&& (f.wait_for_teleport_ack@ == o.wait_for_teleport_ack@)
    &&& (f.flying_poops@ == o.flying_poops@)
    &&& (f.restart_timer == o.restart_timer)
    &&& (f.should_exit == o.should_exit)
    &&& (f.player_pos@ == players_after(
                o.player_pos@,
                o.raft@,
                o.config.tile_size as int,
            ))
    &&& (outv(f.outbox@) == outv(o.outbox@) + drown_msgs(
                o.conns@,
                o.player_pos@,
                o.raft@,
                o.config.tile_size as int,
            ))
}

impl State {
    /// The drowning check: every alive player whose 3-by-3 tile window
    /// holds no platform tile leaves the alive set, is told so, and is
    /// announced to the others. One notice per transition, on the tick
    /// the support vanishes.
    pub fn tick_drowning(&mut self)
        requires
            old(self).wf(),
        ensures
            drowning_phase(*old(self), *final(self)),

    {
        let ghost o = *old(self);
        let ts = self.config.tile_size;
        let mut kept: IdMap<Pos> = IdMap::new();
        let mut i: usize = 0;
        while i < self.player_pos.len()
            invariant
                maps_unchanged(o, *self),
                self.last_id == o.last_id,
                o.wf(),
                ts == o.config.tile_size,
                i <= o.player_pos@.len(),
                kept.entries@ == players_after(
                    o.player_pos@.take(i as int),
                    o.raft@,
                    ts as int,
                ),
                outv(self.outbox@) == outv(o.outbox@) + drown_msgs(
                    o.conns@,
                    o.player_pos@.take(i as int),
                    o.raft@,
                    ts as int,
                ),
            decreases o.player_pos@.len() - i,
        {
            let id = self.player_pos.key_at(i);
            let pos = *self.player_pos.value_at(i);
            proof {
                assert(pos_ok(pos));
                assert(o.player_pos@.take(i as int + 1).drop_last() =~= o.player_pos@.take(
                    i as int,
                ));
                assert(o.player_pos@.take(i as int + 1).last() == o.player_pos@[i as int]);
            }
            let tx = round_div_exec(pos.pos.x, ts);
            let ty = round_div_exec(pos.pos.y, ts);
            let alive = self.raft.contains(Vec2 { x: tx - 1, y: ty - 1 }) || self.raft.contains(
                Vec2 { x: tx - 1, y: ty },
            ) || self.raft.contains(Vec2 { x: tx - 1, y: ty + 1 }) || self.raft.contains(
                Vec2 { x: tx, y: ty - 1 },
            ) || self.raft.contains(Vec2 { x: tx, y: ty }) || self.raft.contains(
                Vec2 { x: tx, y: ty + 1 },
            ) || self.raft.contains(Vec2 { x: tx + 1, y: ty - 1 }) || self.raft.contains(
                Vec2 { x: tx + 1, y: ty },
            ) || self.raft.contains(Vec2 { x: tx + 1, y: ty + 1 });
            proof {
                assert(alive == supported(o.raft@, pos, ts as int));
            }
            if alive {
                kept.entries.push((id, pos));
            } else {
                send_to(&mut self.outbox, id, ServerMessage::YouDrown);
                bcast_copy_others(
                    &mut self.outbox,
                    &self.conns,
                    id,
                    ServerMessage::PlayerDrown(id),
                );
            }
            i = i + 1;
        }
        proof {
            assert(o.player_pos@.take(o.player_pos@.len() as int) =~= o.player_pos@);
            lemma_players_after_wf(
                o.player_pos@,
                o.raft@,
                ts as int,
                o.conns@,
                o.names@,
            );
        }
        self.player_pos = kept;
    }
}


/// The nearest other alive player whose hitbox the attack ray meets
/// strictly ahead, with its hit distance. Ties on the distance go to the
/// earliest-registered entry (the deterministic secondary key).
pub open spec fn best_hit(s: Seq<(u64, Pos)>, me: u64, from: Vec2, dir: Vec2) -> Option<
    (u64, int),
>
    decreases s.len(),
{
    if s.len() == 0 {
        None
    } else {
        let prev = best_hit(s.drop_last(), me, from, dir);
        if s.last().0 == me {
            prev
        } else {
            match crate::geom::intersect_spec(
                from,
                dir,
                Vec2 { x: s.last().1.pos.x, y: s.last().1.pos.y },
                crate::protocol::HIT_RADIUS as int,
            ) {
                None => prev,
                Some(t) => match prev {
                    None => Some((s.last().0, t)),
                    Some(pb) => if t < pb.1 {
                        Some((s.last().0, t))
                    } else {
                        prev
                    },
                },
            }
        }
    }
}

/// A found hit names another player's entry and its hit distance.
pub proof fn lemma_best_hit_props(s: Seq<(u64, Pos)>, me: u64, from: Vec2, dir: Vec2)
    ensures
        best_hit(s, me, from, dir) matches Some(b) ==> b.0 != me && 0 <= b.1 && exists|j: int|
            0 <= j < s.len() && (#[trigger] s[j]).0 == b.0 && crate::geom::intersect_spec(
                from,
                dir,
                Vec2 { x: s[j].1.pos.x, y: s[j].1.pos.y },
                crate::protocol::HIT_RADIUS as int,
            ) == Some(b.1),
    decreases s.len(),
{
    if s.len() > 0 {
        lemma_best_hit_props(s.drop_last(), me, from, dir);
        let bh = best_hit(s, me, from, dir);
        if bh is Some {
            let b = bh -> Some_0;
            let prev = best_hit(s.drop_last(), me, from, dir);
            if prev is Some && b == prev -> Some_0 {
                let pb = prev -> Some_0;
                let j = choose|j: int|
                    0 <= j < s.drop_last().len() && (#[trigger] s.drop_last()[j]).0 == pb.0
                        && crate::geom::intersect_spec(
                        from,
                        dir,
                        Vec2 { x: s.drop_last()[j].1.pos.x, y: s.drop_last()[j].1.pos.y },
                        crate::protocol::HIT_RADIUS as int,
                    ) == Some(pb.1);
                assert(s[j] == s.drop_last()[j]);
            } else {
                assert(s[s.len() - 1] == s.last());
                assert(b.1 >= 0) by {
                    crate::geom::lemma_intersect_nonneg(
                        from,
                        dir,
                        Vec2 { x: s.last().1.pos.x, y: s.last().1.pos.y },
                        crate::protocol::HIT_RADIUS as int,
                    );
                }
            }
        }
    }
}

/// The planar offset a hit player is pushed by.
pub open spec fn push_delta(dir: Vec2, push: int) -> Vec2 {
    (Vec2 {
        x: crate::geom::sdiv(dir.x * push, crate::geom::SCALE as int) as i64,
        y: crate::geom::sdiv(dir.y * push, crate::geom::SCALE as int) as i64,
    })
}

/// A position shifted by a planar offset, clamped to the world's bounds.
pub open spec fn pushed_pos(p: Pos, delta: Vec2) -> Pos {
    (Pos {
        pos: (Vec3 {
            x: crate::geom::clamp_c(p.pos.x + delta.x) as i64,
            y: crate::geom::clamp_c(p.pos.y + delta.y) as i64,
            z: p.pos.z,
        }),
        rot: p.rot,
        vel: p.vel,
    })
}

/// Where a dash of length `dist` along `dir` puts the attacker.
pub open spec fn dash_target(p: Pos, dir: Vec2, dist: int) -> Pos {
    pushed_pos(
        p,
        (Vec2 {
            x: crate::geom::sdiv(dir.x * dist, crate::geom::SCALE as int) as i64,
            y: crate::geom::sdiv(dir.y * dist, crate::geom::SCALE as int) as i64,
        }),
    )
}

/// Travel distance of a dash: the configured greatest distance, capped by
/// the nearest valid hit.
pub open spec fn travel_dist(b: Option<(u64, int)>, dash: int) -> int {
    match b {
        Some(p) => if p.1 < dash {
            p.1
        } else {
            dash
        },
        None => dash,
    }
}

/// Where the damage effect of a hit at ray distance `t` appears: one unit
/// beyond the hit point along the attack direction.
pub open spec fn damage_point(p: Vec3, dir: Vec2, t: int) -> Vec3 {
    (Vec3 {
        x: (p.x + crate::geom::sdiv(dir.x * (t + 1000), crate::geom::SCALE as int)) as i64,
        y: (p.y + crate::geom::sdiv(dir.y * (t + 1000), crate::geom::SCALE as int)) as i64,
        z: p.z,
    })
}

/// The damage-and-push notices of a landed hit: to each connection the
/// effect point, and to each connection but the victim the victim's new
/// position, interleaved in registration order.
pub open spec fn damage_push_msgs(conns: Seq<u64>, vid: u64, dmg: Vec3, vp: Pos) -> Seq<
    (u64, MsgV),
>
    decreases conns.len(),
{
    if conns.len() == 0 {
        Seq::empty()
    } else {
        let rest = damage_push_msgs(conns.drop_last(), vid, dmg, vp);
        let c = conns.last();
        if c == vid {
            rest.push((c, MsgV::Damage(dmg)))
        } else {
            rest.push((c, MsgV::Damage(dmg))).push((c, MsgV::WasPushed(vid, vp)))
        }
    }
}

/// A set after adding one element.
pub open spec fn set_add(s: Seq<u64>, k: u64) -> Seq<u64> {
    if s.contains(k) {
        s
    } else {
        s.push(k)
    }
}

/// The full effect of firing one wound-up attack of `client` along
/// `dir`; see [`State::resolve_attack`], whose contract this is.
pub open spec fn resolve_rel(o: State, f: State, client: u64, dir: Vec2) -> bool {
    &&& (f.wf())
    &&& (f.config == o.config)
    &&& (f.last_id == o.last_id)
    &&& (f.conns@ == o.conns@)
    &&& (f.names@ == o.names@)
    &&& (f.gull_pos@ == o.gull_pos@)
    &&& (f.raft@ == o.raft@)
    &&& (f.sharks@ == o.sharks@)
    &&& (f.attacks@ == o.attacks@)
    &&& (f.poop_cooldowns@ == o.poop_cooldowns@)
    &&& (f.flying_poops@ == o.flying_poops@)
    &&& (f.restart_timer == o.restart_timer)
    &&& (f.should_exit == o.should_exit)
    &&& (f.player_pos@.len() == o.player_pos@.len())
    &&& (forall|j: int|
                0 <= j < f.player_pos@.len() ==> (#[trigger] (f.player_pos@[j])).0 == o.player_pos@[j].0)
    &&& (!has_key(o.player_pos@, client) ==> f.player_pos@ == o.player_pos@ && f.dash_cooldowns@ == o.dash_cooldowns@ && f.wait_for_teleport_ack@ == o.wait_for_teleport_ack@ && f.outbox@
                == o.outbox@)
    &&& (outv(o.outbox@).is_prefix_of(outv(f.outbox@)))
    &&& (has_key(o.player_pos@, client) ==> ({
                let p = lookup(o.player_pos@, client) -> Some_0;
                let from = (Vec2 { x: p.pos.x, y: p.pos.y });
                let b = best_hit(o.player_pos@, client, from, dir);
                let dist = travel_dist(b, o.config.dash_distance as int);
                let np = dash_target(p, dir, dist);
                &&& lookup(f.player_pos@, client) == Some(np)
                &&& lookup(f.dash_cooldowns@, client) == Some(
                    o.config.dash_cooldown,
                )
                &&& forall|q: u64|
                    q != client ==> #[trigger] lookup(f.dash_cooldowns@, q) == lookup(
                        o.dash_cooldowns@,
                        q,
                    )
                &&& (b is None ==> {
                    &&& forall|q: u64|
                        q != client ==> #[trigger] lookup(f.player_pos@, q) == lookup(
                            o.player_pos@,
                            q,
                        )
                    &&& f.wait_for_teleport_ack@ == set_add(
                        o.wait_for_teleport_ack@,
                        client,
                    )
                    &&& outv(f.outbox@) == outv(o.outbox@).push(
                        (client, MsgV::YouDash(np.pos)),
                    ) + bcast_others(o.conns@, client, MsgV::Dash(client, np))
                })
                &&& (b matches Some((vid, t)) ==> {
                    let vp = lookup(o.player_pos@, vid) -> Some_0;
                    let delta = push_delta(dir, o.config.push_distance as int);
                    let vnew = pushed_pos(vp, delta);
                    let dmg = damage_point(p.pos, dir, t);
                    &&& lookup(f.player_pos@, vid) == Some(vnew)
                    &&& forall|q: u64|
                        q != client && q != vid ==> #[trigger] lookup(
                            f.player_pos@,
                            q,
                        ) == lookup(o.player_pos@, q)
                    &&& f.wait_for_teleport_ack@ == set_add(
                        set_add(o.wait_for_teleport_ack@, vid),
                        client,
                    )
                    &&& outv(f.outbox@) == outv(o.outbox@).push(
                        (vid, MsgV::YouWasPushed(delta)),
                    ) + damage_push_msgs(o.conns@, vid, dmg, vnew) + seq![
                        (client, MsgV::YouDash(np.pos)),
                    ] + bcast_others(o.conns@, client, MsgV::Dash(client, np))
                })
            }))
}

impl State {
    /// Fire a wound-up attack: find the nearest other alive player whose
    /// hitbox the ray from the attacker along `dir` meets strictly ahead
    /// (ties to the earliest-registered), dash the attacker forward by the
    /// capped travel distance, push the victim (if any) beyond the impact
    /// point, put both into the must-acknowledge-teleport state, start the
    /// attacker's dash cooldown, and notify everyone. An attacker no
    /// longer alive resolves to nothing.
    #[verifier::rlimit(100)]
    pub fn resolve_attack(&mut self, client: u64, dir: Vec2)
        requires
            old(self).wf(),
            dir_ok(dir),
        ensures
            resolve_rel(*old(self), *final(self), client, dir),

    {
        let ghost o = *old(self);
        let p: Pos = match self.player_pos.get(client) {
            Some(p) => *p,
            None => {
                proof {
                    assert(outv(self.outbox@).take(outv(o.outbox@).len() as int) =~= outv(
                        o.outbox@,
                    ));
                }
                return ;
            },
        };
        proof {
            lemma_lookup_entry(o.player_pos@, client, p);
            let j0 = choose|j0: int|
                0 <= j0 < o.player_pos@.len() && #[trigger] o.player_pos@[j0] == (client, p);
        }
        let from = Vec2 { x: p.pos.x, y: p.pos.y };
        let mut best: Option<(u64, i64)> = None;
        let mut i: usize = 0;
        while i < self.player_pos.len()
            invariant
                maps_unchanged(o, *self),
                self.last_id == o.last_id,
                o.wf(),
                self.outbox@ == o.outbox@,
                dir_ok(dir),
                v2_ok(from),
                i <= o.player_pos@.len(),
                (match best {
                    Some(pb) => best_hit(o.player_pos@.take(i as int), client, from, dir)
                        == Some((pb.0, pb.1 as int)) && 0 <= pb.1 <= 8000000
                        * crate::geom::COORD_MAX,
                    None => best_hit(o.player_pos@.take(i as int), client, from, dir) is None,
                }),
            decreases o.player_pos@.len() - i,
        {
            let id = self.player_pos.key_at(i);
            proof {
                assert(o.player_pos@.take(i as int + 1).drop_last() =~= o.player_pos@.take(
                    i as int,
                ));
                assert(o.player_pos@.take(i as int + 1).last() == o.player_pos@[i as int]);
                assert(pos_ok(o.player_pos@[i as int].1));
            }
            if id != client {
                let op = *self.player_pos.value_at(i);
                let hit = crate::geom::intersect(
                    from,
                    dir,
                    Vec2 { x: op.pos.x, y: op.pos.y },
                    crate::protocol::HIT_RADIUS,
                );
                match hit {
                    Some(t) => {
                        let better: bool = match best {
                            Some(pb) => t < pb.1,
                            None => true,
                        };
                        if better {
                            best = Some((id, t));
                        }
                    },
                    None => {},
                }
            }
            i = i + 1;
        }
        proof {
            assert(o.player_pos@.take(o.player_pos@.len() as int) =~= o.player_pos@);
            lemma_best_hit_props(o.player_pos@, client, from, dir);
        }
        let mut dist = self.config.dash_distance;
        match best {
            Some((vid, t)) => {
                if t < dist {
                    dist = t;
                }
                proof {
                    assert(abs_i(dir.x as int * (o.config.push_distance as int)) <= 200000000
                        * 1000 && abs_i(dir.y as int * (o.config.push_distance as int))
                        <= 200000000 * 1000) by (nonlinear_arith)
                        requires
                            abs_i(dir.x as int) <= 2000,
                            abs_i(dir.y as int) <= 2000,
                            0 <= o.config.push_distance <= 100000000,
                    ;
                    crate::geom::lemma_sdiv_bound(
                        dir.x as int * (o.config.push_distance as int),
                        crate::geom::SCALE as int,
                        200000000,
                    );
                    crate::geom::lemma_sdiv_bound(
                        dir.y as int * (o.config.push_distance as int),
                        crate::geom::SCALE as int,
                        200000000,
                    );
                }
                let delta = Vec2 {
                    x: crate::geom::div_toward_zero(
                        dir.x * self.config.push_distance,
                        crate::geom::SCALE,
                    ),
                    y: crate::geom::div_toward_zero(
                        dir.y * self.config.push_distance,
                        crate::geom::SCALE,
                    ),
                };
                proof {
                    assert(delta == push_delta(dir, o.config.push_distance as int));
                }
                send_to(&mut self.outbox, vid, ServerMessage::YouWasPushed(delta));
                self.wait_for_teleport_ack.insert(vid);
                let vp: Pos = match self.player_pos.get(vid) {
                    Some(q) => *q,
                    None => {
                        proof {
                            let j = choose|j: int|
                                0 <= j < o.player_pos@.len() && (#[trigger] o.player_pos@[j]).0
                                    == vid && crate::geom::intersect_spec(
                                    from,
                                    dir,
                                    Vec2 {
                                        x: o.player_pos@[j].1.pos.x,
                                        y: o.player_pos@[j].1.pos.y,
                                    },
                                    crate::protocol::HIT_RADIUS as int,
                                ) == Some(t as int);
                            crate::idmap::lemma_lookup_unique_at(o.player_pos@, j);
                        }
                        return ;
                    },
                };
                proof {
                    lemma_lookup_entry(o.player_pos@, vid, vp);
                    let j0 = choose|j0: int|
                        0 <= j0 < o.player_pos@.len() && #[trigger] o.player_pos@[j0] == (
                            vid,
                            vp,
                        );
                }
                let vnew = Pos {
                    pos: Vec3 {
                        x: crate::geom::clamp_coord(vp.pos.x + delta.x),
                        y: crate::geom::clamp_coord(vp.pos.y + delta.y),
                        z: vp.pos.z,
                    },
                    rot: vp.rot,
                    vel: vp.vel,
                };
                proof {
                    assert(vnew == pushed_pos(vp, delta));
                }
                self.player_pos.insert(vid, vnew);
                let ghost after_victim = self.player_pos@;
                proof {
                    crate::idmap::lemma_has_key(o.player_pos@, vid);
                    lemma_insert_entries(o.player_pos@, after_victim, vid, vnew);
                    let i2 = choose|i2: int|
                        0 <= i2 < o.player_pos@.len() && o.player_pos@[i2].0 == vid
                            && after_victim == #[trigger] o.player_pos@.update(
                            i2,
                            (vid, vnew),
                        );
                    assert(after_victim.len() == o.player_pos@.len());
                    assert(forall|j: int|
                        0 <= j < after_victim.len() ==> (#[trigger] after_victim[j]).0
                            == o.player_pos@[j].0 && pos_ok(after_victim[j].1));
                }
                proof {
                    assert(abs_i(dir.x as int * (t + 1000)) <= 2000 * (8000000
                        * crate::geom::COORD_MAX + 1000) && abs_i(dir.y as int * (t + 1000))
                        <= 2000 * (8000000 * crate::geom::COORD_MAX + 1000)) by (nonlinear_arith)
                        requires
                            abs_i(dir.x as int) <= 2000,
                            abs_i(dir.y as int) <= 2000,
                            0 <= t <= 8000000 * crate::geom::COORD_MAX,
                    ;
                    crate::geom::lemma_sdiv_bound(
                        dir.x as int * (t + 1000),
                        crate::geom::SCALE as int,
                        2 * (8000000 * crate::geom::COORD_MAX + 1000),
                    );
                    crate::geom::lemma_sdiv_bound(
                        dir.y as int * (t + 1000),
                        crate::geom::SCALE as int,
                        2 * (8000000 * crate::geom::COORD_MAX + 1000),
                    );
                }
                let dmg = Vec3 {
                    x: p.pos.x + crate::geom::div_toward_zero(
                        dir.x * (t + 1000),
                        crate::geom::SCALE,
                    ),
                    y: p.pos.y + crate::geom::div_toward_zero(
                        dir.y * (t + 1000),
                        crate::geom::SCALE,
                    ),
                    z: p.pos.z,
                };
                proof {
                    assert(dmg == damage_point(p.pos, dir, t as int));
                }
                let ghost mark = outv(self.outbox@);
                let mut c: usize = 0;
                while c < self.conns.len()
                    invariant
                        self.conns@ == o.conns@,
                        c <= o.conns@.len(),
                        outv(self.outbox@) == mark + damage_push_msgs(
                            o.conns@.take(c as int),
                            vid,
                            dmg,
                            vnew,
                        ),
                        self.player_pos@ == after_victim,
                        self.names@ == o.names@,
                        self.gull_pos@ == o.gull_pos@,
                        self.raft@ == o.raft@,
                        self.sharks@ == o.sharks@,
                        self.attacks@ == o.attacks@,
                        self.dash_cooldowns@ == o.dash_cooldowns@,
                        self.poop_cooldowns@ == o.poop_cooldowns@,
                        self.wait_for_teleport_ack@ == set_add(o.wait_for_teleport_ack@, vid),
                        self.flying_poops@ == o.flying_poops@,
                        self.restart_timer == o.restart_timer,
                        self.should_exit == o.should_exit,
                        self.config == o.config,
                        self.last_id == o.last_id,
                    decreases o.conns@.len() - c,
                {
                    let cd = self.conns.at(c);
                    send_to(&mut self.outbox, cd, ServerMessage::Damage(dmg));
                    if cd != vid {
                        send_to(&mut self.outbox, cd, ServerMessage::WasPushed(vid, vnew));
                    }
                    proof {
                        assert(o.conns@.take(c as int + 1).drop_last() =~= o.conns@.take(
                            c as int,
                        ));
                        assert(o.conns@.take(c as int + 1).last() == o.conns@[c as int]);
                    }
                    c = c + 1;
                }
                proof {
                    assert(o.conns@.take(o.conns@.len() as int) =~= o.conns@);
                }
            },
            None => {},
        }
        let ghost mid = self.player_pos@;
        proof {
            assert(mid.len() == o.player_pos@.len());
            assert(forall|j: int|
                0 <= j < mid.len() ==> (#[trigger] mid[j]).0 == o.player_pos@[j].0 && pos_ok(
                    mid[j].1,
                ));
            assert(crate::idmap::unique_keys(mid)) by {
                assert(forall|a: int, b: int|
                    0 <= a < b < mid.len() ==> (#[trigger] mid[a]).0 != (#[trigger] mid[b]).0);
            }
            assert(has_key(mid, client)) by {
                let j0 = choose|j0: int|
                    0 <= j0 < o.player_pos@.len() && #[trigger] o.player_pos@[j0] == (client, p);
                crate::idmap::lemma_lookup_unique_at(mid, j0);
            }
            assert(abs_i(dir.x as int * (dist as int)) <= 2000 * (8000000
                * crate::geom::COORD_MAX) && abs_i(dir.y as int * (dist as int)) <= 2000 * (
            8000000 * crate::geom::COORD_MAX)) by (nonlinear_arith)
                requires
                    abs_i(dir.x as int) <= 2000,
                    abs_i(dir.y as int) <= 2000,
                    0 <= dist <= 8000000 * crate::geom::COORD_MAX,
            ;
            crate::geom::lemma_sdiv_bound(
                dir.x as int * (dist as int),
                crate::geom::SCALE as int,
                2 * 8000000 * crate::geom::COORD_MAX,
            );
            crate::geom::lemma_sdiv_bound(
                dir.y as int * (dist as int),
                crate::geom::SCALE as int,
                2 * 8000000 * crate::geom::COORD_MAX,
            );
        }
        let np = Pos {
            pos: Vec3 {
                x: crate::geom::clamp_coord(
                    p.pos.x + crate::geom::div_toward_zero(dir.x * dist, crate::geom::SCALE),
                ),
                y: crate::geom::clamp_coord(
                    p.pos.y + crate::geom::div_toward_zero(dir.y * dist, crate::geom::SCALE),
                ),
                z: p.pos.z,
            },
            rot: p.rot,
            vel: p.vel,
        };
        proof {
            assert(np == dash_target(p, dir, dist as int));
            assert(dist as int == travel_dist(
                best_hit(o.player_pos@, client, from, dir),
                o.config.dash_distance as int,
            ));
        }
        send_to(&mut self.outbox, client, ServerMessage::YouDash(np.pos));
        self.wait_for_teleport_ack.insert(client);
        self.player_pos.insert(client, np);
        self.dash_cooldowns.insert(client, self.config.dash_cooldown);
        bcast_copy_others(
            &mut self.outbox,
            &self.conns,
            client,
            ServerMessage::Dash(client, np),
        );
        proof {
            let f = *self;
            lemma_insert_entries(mid, f.player_pos@, client, np);
            let i3 = choose|i3: int|
                0 <= i3 < mid.len() && mid[i3].0 == client && f.player_pos@ == #[trigger] mid.update(
                    i3,
                    (client, np),
                );
            assert(f.player_pos@.len() == o.player_pos@.len());
            assert(forall|j: int|
                0 <= j < f.player_pos@.len() ==> (#[trigger] f.player_pos@[j]).0
                    == o.player_pos@[j].0 && pos_ok(f.player_pos@[j].1));
            assert(crate::idmap::unique_keys(f.player_pos@)) by {
                assert(forall|a: int, b: int|
                    0 <= a < b < f.player_pos@.len() ==> (#[trigger] f.player_pos@[a]).0 != (
                    #[trigger] f.player_pos@[b]).0);
            }
            assert forall|j: int| 0 <= j < f.player_pos@.len() implies f.conns@.contains(
                (#[trigger] f.player_pos@[j]).0,
            ) && has_key(f.names@, f.player_pos@[j].0) by {
                assert(o.conns@.contains((#[trigger] o.player_pos@[j]).0));
                assert(has_key(o.names@, o.player_pos@[j].0));
            }
            lemma_insert_entries(o.dash_cooldowns@, f.dash_cooldowns@, client, o.config.dash_cooldown);
            assert forall|j: int| 0 <= j < f.dash_cooldowns@.len() implies f.conns@.contains(
                (#[trigger] f.dash_cooldowns@[j]).0,
            ) && 0 < f.dash_cooldowns@[j].1 <= TIME_MAX by {
                if f.dash_cooldowns@[j] != (client, o.config.dash_cooldown) {
                    let j0 = choose|j0: int|
                        0 <= j0 < o.dash_cooldowns@.len() && f.dash_cooldowns@[j]
                            == #[trigger] o.dash_cooldowns@[j0];
                }
            }
            assert(o.conns@.contains(client)) by {
                let j0 = choose|j0: int|
                    0 <= j0 < o.player_pos@.len() && #[trigger] o.player_pos@[j0] == (client, p);
            }
            assert forall|i2: int|
                0 <= i2 < f.wait_for_teleport_ack@.len() implies f.conns@.contains(
                #[trigger] f.wait_for_teleport_ack@[i2],
            ) by {
                let e = f.wait_for_teleport_ack@[i2];
                assert(f.wait_for_teleport_ack@.contains(e));
                if e != client {
                    match best {
                        Some(pb) => {
                            if e != pb.0 {
                                assert(o.wait_for_teleport_ack@.contains(e));
                                let j0 = choose|j0: int|
                                    0 <= j0 < o.wait_for_teleport_ack@.len()
                                        && o.wait_for_teleport_ack@[j0] == e;
                            } else {
                                let j = choose|j: int|
                                    0 <= j < o.player_pos@.len() && (
                                    #[trigger] o.player_pos@[j]).0 == pb.0
                                        && crate::geom::intersect_spec(
                                        from,
                                        dir,
                                        Vec2 {
                                            x: o.player_pos@[j].1.pos.x,
                                            y: o.player_pos@[j].1.pos.y,
                                        },
                                        crate::protocol::HIT_RADIUS as int,
                                    ) == Some(pb.1 as int);
                                assert(o.conns@.contains(e));
                            }
                        },
                        None => {
                            assert(o.wait_for_teleport_ack@.contains(e));
                            let j0 = choose|j0: int|
                                0 <= j0 < o.wait_for_teleport_ack@.len()
                                    && o.wait_for_teleport_ack@[j0] == e;
                        },
                    }
                }
            }
            match best {
                Some(pb) => {
                    assert(outv(f.outbox@) =~= outv(o.outbox@).push(
                        (pb.0, MsgV::YouWasPushed(push_delta(dir, o.config.push_distance as int))),
                    ) + damage_push_msgs(
                        o.conns@,
                        pb.0,
                        damage_point(p.pos, dir, pb.1 as int),
                        pushed_pos(
                            lookup(o.player_pos@, pb.0) -> Some_0,
                            push_delta(dir, o.config.push_distance as int),
                        ),
                    ) + seq![(client, MsgV::YouDash(np.pos))] + bcast_others(
                        o.conns@,
                        client,
                        MsgV::Dash(client, np),
                    ));
                },
                None => {
                    assert(outv(f.outbox@) =~= outv(o.outbox@).push(
                        (client, MsgV::YouDash(np.pos)),
                    ) + bcast_others(o.conns@, client, MsgV::Dash(client, np)));
                },
            }
            assert(outv(f.outbox@).take(outv(o.outbox@).len() as int) =~= outv(o.outbox@));
        }
    }
}


/// The pending attacks still winding up after `dt` ms, in order.
pub open spec fn attacks_after(s: Seq<(u64, PendingAttack)>, dt: int) -> Seq<(u64, PendingAttack)>
    decreases s.len(),
{
    if s.len() == 0 {
        Seq::empty()
    } else {
        let rest = attacks_after(s.drop_last(), dt);
        if s.last().1.time_left - dt > 0 {
            rest.push(
                (
                    s.last().0,
                    PendingAttack {
                        dir: s.last().1.dir,
                        time_left: (s.last().1.time_left - dt) as i64,
                    },
                ),
            )
        } else {
            rest
        }
    }
}

/// The attacks whose wind-up ends within `dt` ms, in order, with their
/// directions.
pub open spec fn expired_attacks(s: Seq<(u64, PendingAttack)>, dt: int) -> Seq<(u64, Vec2)>
    decreases s.len(),
{
    if s.len() == 0 {
        Seq::empty()
    } else {
        let rest = expired_attacks(s.drop_last(), dt);
        if s.last().1.time_left - dt > 0 {
            rest
        } else {
            rest.push((s.last().0, s.last().1.dir))
        }
    }
}

/// Every entry of `attacks_after` keeps an old entry's key.
pub proof fn lemma_attacks_after_keys(s: Seq<(u64, PendingAttack)>, dt: int)
    ensures
        forall|j: int| #![trigger attacks_after(s, dt)[j]]
            0 <= j < attacks_after(s, dt).len() ==> exists|j0: int|
                0 <= j0 < s.len() && attacks_after(s, dt)[j].0 == (#[trigger] s[j0]).0 && attacks_after(s, dt)[j].1.dir == s[j0].1.dir && j0 >= j,
        attacks_after(s, dt).len() <= s.len(),
    decreases s.len(),
{
    if s.len() > 0 {
        lemma_attacks_after_keys(s.drop_last(), dt);
        let f = attacks_after(s, dt);
        let pre = attacks_after(s.drop_last(), dt);
        assert forall|j: int| #![trigger f[j]] 0 <= j < f.len() implies exists|j0: int|
            0 <= j0 < s.len() && f[j].0 == (#[trigger] s[j0]).0 && f[j].1.dir == s[j0].1.dir
                && j0 >= j by {
            if j < pre.len() {
                assert(f[j] == pre[j]);
                let j0 = choose|j0: int|
                    0 <= j0 < s.drop_last().len() && pre[j].0 == (#[trigger] s.drop_last()[j0]).0
                        && pre[j].1.dir == s.drop_last()[j0].1.dir && j0 >= j;
                assert(s[j0] == s.drop_last()[j0]);
            } else {
                assert(s[s.len() - 1] == s.last());
            }
        }
    }
}

/// The attack table after the decrement is well formed.
pub proof fn lemma_attacks_after_wf(s: Seq<(u64, PendingAttack)>, dt: int, conns: Seq<u64>)
    requires
        crate::idmap::unique_keys(s),
        keys_in(s, conns),
        all_attacks_ok(s),
        0 <= dt,
    ensures
        crate::idmap::unique_keys(attacks_after(s, dt)),
        keys_in(attacks_after(s, dt), conns),
        all_attacks_ok(attacks_after(s, dt)),
    decreases s.len(),
{
    lemma_attacks_after_keys(s, dt);
    let f = attacks_after(s, dt);
    if s.len() > 0 {
        assert(crate::idmap::unique_keys(s.drop_last()) && keys_in(s.drop_last(), conns)
            && all_attacks_ok(s.drop_last())) by {
            assert(forall|a: int|
                0 <= a < s.drop_last().len() ==> #[trigger] s.drop_last()[a] == s[a]);
        }
        lemma_attacks_after_wf(s.drop_last(), dt, conns);
        let pre = attacks_after(s.drop_last(), dt);
        lemma_attacks_after_keys(s.drop_last(), dt);
        assert(crate::idmap::unique_keys(f)) by {
            if s.last().1.time_left - dt > 0 {
                assert forall|a: int, b: int| 0 <= a < b < f.len() implies (#[trigger] f[a]).0
                    != (#[trigger] f[b]).0 by {
                    if b < pre.len() {
                        assert(f[a] == pre[a] && f[b] == pre[b]);
                    } else {
                        assert(f[b].0 == s[s.len() - 1].0);
                        assert(f[a] == pre[a]);
                        let j0 = choose|j0: int|
                            0 <= j0 < s.drop_last().len() && pre[a].0 == (
                            #[trigger] s.drop_last()[j0]).0 && pre[a].1.dir
                                == s.drop_last()[j0].1.dir && j0 >= a;
                        assert(s[j0].0 == pre[a].0);
                        assert(s[j0].0 != s[s.len() - 1].0);
                    }
                }
            }
        }
        assert forall|a: int| 0 <= a < f.len() implies conns.contains((#[trigger] f[a]).0)
            && dir_ok(f[a].1.dir) && 0 < f[a].1.time_left <= TIME_MAX by {
            let j0 = choose|j0: int|
                0 <= j0 < s.len() && f[a].0 == (#[trigger] s[j0]).0 && f[a].1.dir == s[j0].1.dir
                    && j0 >= a;
        }
    }
}

/// Every expired attack's direction is bounded.
pub proof fn lemma_expired_dirs(s: Seq<(u64, PendingAttack)>, dt: int)
    requires
        all_attacks_ok(s),
    ensures
        forall|j: int| #![trigger expired_attacks(s, dt)[j]]
            0 <= j < expired_attacks(s, dt).len() ==> dir_ok(expired_attacks(s, dt)[j].1),
    decreases s.len(),
{
    if s.len() > 0 {
        assert(all_attacks_ok(s.drop_last())) by {
            assert(forall|a: int|
                0 <= a < s.drop_last().len() ==> #[trigger] s.drop_last()[a] == s[a]);
        }
        lemma_expired_dirs(s.drop_last(), dt);
        let f = expired_attacks(s, dt);
        let pre = expired_attacks(s.drop_last(), dt);
        assert forall|j: int| #![trigger f[j]] 0 <= j < f.len() implies dir_ok(f[j].1) by {
            if j < pre.len() {
                assert(f[j] == pre[j]);
            } else {
                assert(s[s.len() - 1] == s.last());
            }
        }
    }
}

/// The state after the wind-up decrement and before any resolution: the
/// attack table advanced by `dt`, everything else as it was.
pub open spec fn attacks_decremented(o: State, m: State, dt: int) -> bool {
    &&& m.wf()
    &&& m.config == o.config
    &&& m.last_id == o.last_id
    &&& m.conns@ == o.conns@
    &&& m.names@ == o.names@
    &&& m.player_pos@ == o.player_pos@
    &&& m.gull_pos@ == o.gull_pos@
    &&& m.raft@ == o.raft@
    &&& m.sharks@ == o.sharks@
    &&& m.dash_cooldowns@ == o.dash_cooldowns@
    &&& m.poop_cooldowns@ == o.poop_cooldowns@
    &&& m.wait_for_teleport_ack@ == o.wait_for_teleport_ack@
    &&& m.flying_poops@ == o.flying_poops@
    &&& m.restart_timer == o.restart_timer
    &&& m.should_exit == o.should_exit
    &&& m.outbox@ == o.outbox@
    &&& m.attacks@ == attacks_after(o.attacks@, dt)
}

/// The expired attacks fire in table order, each step one resolution
/// (see [`resolve_rel`]).
pub open spec fn attacks_resolved(o: State, f: State, ex: Seq<(u64, Vec2)>) -> bool
    decreases ex.len(),
{
    if ex.len() == 0 {
        f == o
    } else {
        exists|m: State|
            #[trigger] resolve_rel(o, m, ex[0].0, ex[0].1) && attacks_resolved(
                m,
                f,
                ex.drop_first(),
            )
    }
}

/// Resolving one more attack extends the chain at its end.
pub proof fn lemma_attacks_resolved_push(
    o: State,
    m: State,
    f: State,
    ex: Seq<(u64, Vec2)>,
    c: u64,
    d: Vec2,
)
    requires
        attacks_resolved(o, m, ex),
        resolve_rel(m, f, c, d),
    ensures
        attacks_resolved(o, f, ex.push((c, d))),
    decreases ex.len(),
{
    let ex2 = ex.push((c, d));
    if ex.len() == 0 {
        assert(m == o);
        assert(ex2[0] == (c, d));
        assert(ex2.drop_first() =~= Seq::<(u64, Vec2)>::empty());
        assert(resolve_rel(o, f, ex2[0].0, ex2[0].1));
        assert(attacks_resolved(f, f, ex2.drop_first()));
    } else {
        let m1 = choose|m1: State|
            #[trigger] resolve_rel(o, m1, ex[0].0, ex[0].1) && attacks_resolved(
                m1,
                m,
                ex.drop_first(),
            );
        lemma_attacks_resolved_push(m1, m, f, ex.drop_first(), c, d);
        assert(ex2.drop_first() =~= ex.drop_first().push((c, d)));
        assert(ex2[0] == ex[0]);
        assert(resolve_rel(o, m1, ex2[0].0, ex2[0].1) && attacks_resolved(
            m1,
            f,
            ex2.drop_first(),
        ));
    }
}

/// The full effect of the pending-attack phase over `dt` ms; see
/// [`State::tick_attacks`], whose contract this is.
pub open spec fn attacks_phase(o: State, f: State, dt: int) -> bool {
    &&& (f.wf())
    &&& (f.config == o.config)
    &&& (f.last_id == o.last_id)
    &&& (f.conns@ == o.conns@)
    &&& (f.names@ == o.names@)
    &&& (f.gull_pos@ == o.gull_pos@)
    &&& (f.raft@ == o.raft@)
    &&& (f.sharks@ == o.sharks@)
    &&& (f.poop_cooldowns@ == o.poop_cooldowns@)
    &&& (f.flying_poops@ == o.flying_poops@)
    &&& (f.restart_timer == o.restart_timer)
    &&& (f.should_exit == o.should_exit)
    &&& (f.attacks@ == attacks_after(o.attacks@, dt))
    &&& (f.player_pos@.len() == o.player_pos@.len())
    &&& (forall|j: int|
                0 <= j < f.player_pos@.len()
                    ==> (#[trigger] (f.player_pos@[j])).0 == o.player_pos@[j].0)
    &&& (expired_attacks(o.attacks@, dt).len() == 0 ==> f.player_pos@
                == o.player_pos@ && f.dash_cooldowns@ == o.dash_cooldowns@ && f.wait_for_teleport_ack@ == o.wait_for_teleport_ack@ && f.outbox@ == o.outbox@)
    &&& (outv(o.outbox@).is_prefix_of(outv(f.outbox@)))
    &&& (exists|m: State|
                #[trigger] attacks_decremented(o, m, dt) && attacks_resolved(
                    m,
                    f,
                    expired_attacks(o.attacks@, dt),
                ))
}

impl State {
    /// The pending-attack phase of a tick: wind-up timers count down, and
    /// each attack whose timer reaches zero fires (see
    /// [`State::resolve_attack`]), in table order. A pending attack is
    /// removed exactly once, whether or not it hit.
    pub fn tick_attacks(&mut self, dt: i64)
        requires
            old(self).wf(),
            0 <= dt <= 100000,
        ensures
            attacks_phase(*old(self), *final(self), dt as int),

    {
        let ghost o = *old(self);
        let mut kept: IdMap<PendingAttack> = IdMap::new();
        let mut expired: Vec<(u64, Vec2)> = Vec::new();
        let mut i: usize = 0;
        while i < self.attacks.len()
            invariant
                maps_unchanged(o, *self),
                self.last_id == o.last_id,
                self.outbox@ == o.outbox@,
                o.wf(),
                0 <= dt <= 100000,
                i <= o.attacks@.len(),
                kept.entries@ == attacks_after(o.attacks@.take(i as int), dt as int),
                expired@ == expired_attacks(o.attacks@.take(i as int), dt as int),
            decreases o.attacks@.len() - i,
        {
            let id = self.attacks.key_at(i);
            let pa = *self.attacks.value_at(i);
            proof {
                assert(0 < pa.time_left <= TIME_MAX);
                assert(o.attacks@.take(i as int + 1).drop_last() =~= o.attacks@.take(i as int));
                assert(o.attacks@.take(i as int + 1).last() == o.attacks@[i as int]);
            }
            if pa.time_left - dt > 0 {
                kept.entries.push((id, PendingAttack { dir: pa.dir, time_left: pa.time_left - dt }));
            } else {
                expired.push((id, pa.dir));
            }
            i = i + 1;
        }
        proof {
            assert(o.attacks@.take(o.attacks@.len() as int) =~= o.attacks@);
            lemma_attacks_after_wf(o.attacks@, dt as int, o.conns@);
            lemma_expired_dirs(o.attacks@, dt as int);
        }
        self.attacks = kept;
        let ghost m0 = *self;
        proof {
            assert(outv(self.outbox@).take(outv(o.outbox@).len() as int) =~= outv(o.outbox@));
            assert(attacks_decremented(o, m0, dt as int));
            assert(attacks_resolved(m0, *self, expired@.take(0)));
        }
        let mut j: usize = 0;
        while j < expired.len()
            invariant
                self.wf(),
                expired@ == expired_attacks(o.attacks@, dt as int),
                forall|a: int| #![trigger expired@[a]]
                    0 <= a < expired@.len() ==> dir_ok(expired@[a].1),
                j <= expired@.len(),
                self.config == o.config,
                self.last_id == o.last_id,
                self.conns@ == o.conns@,
                self.names@ == o.names@,
                self.gull_pos@ == o.gull_pos@,
                self.raft@ == o.raft@,
                self.sharks@ == o.sharks@,
                self.poop_cooldowns@ == o.poop_cooldowns@,
                self.flying_poops@ == o.flying_poops@,
                self.restart_timer == o.restart_timer,
                self.should_exit == o.should_exit,
                self.attacks@ == attacks_after(o.attacks@, dt as int),
                self.player_pos@.len() == o.player_pos@.len(),
                forall|a: int|
                    0 <= a < self.player_pos@.len() ==> (#[trigger] (self.player_pos@[a])).0
                        == o.player_pos@[a].0,
                attacks_decremented(o, m0, dt as int),
                attacks_resolved(m0, *self, expired@.take(j as int)),
                outv(o.outbox@).is_prefix_of(outv(self.outbox@)),
            decreases expired@.len() - j,
        {
            let (id, dir) = expired[j];
            let ghost mid = outv(self.outbox@);
            let ghost pre = *self;
            self.resolve_attack(id, dir);
            proof {
                lemma_prefix_trans(outv(o.outbox@), mid, outv(self.outbox@));
                lemma_attacks_resolved_push(m0, pre, *self, expired@.take(j as int), id, dir);
                assert(expired@.take(j as int + 1) =~= expired@.take(j as int).push(
                    (id, dir),
                ));
            }
            j = j + 1;
        }
        proof {
            assert(expired@.take(expired@.len() as int) =~= expired@);
            if expired@.len() == 0 {
                assert(*self == m0);
            }
        }
        proof {
            assert(outv(self.outbox@).take(outv(o.outbox@).len() as int) =~= outv(o.outbox@))
                by {
                assert(outv(o.outbox@).is_prefix_of(outv(self.outbox@)) || self.outbox@
                    == o.outbox@);
            }
        }
    }
}


/// A fresh respawn snapshot: inside the spawn box at the surface, facing
/// anywhere, at rest.
pub open spec fn spawn_ok(p: Pos) -> bool {
    &&& abs_i(p.pos.x as int) <= crate::protocol::SPAWN_BOX
    &&& abs_i(p.pos.y as int) <= crate::protocol::SPAWN_BOX
    &&& p.pos.z == 0
    &&& 0 <= p.rot < 360000
    &&& p.vel == (Vec3 { x: 0, y: 0, z: 0 })
}

/// The per-connection reset notices: to each connection the new platform,
/// a respawn notice if the connection is named, and the reset signal, in
/// registration order. Respawn positions are read from the final alive
/// table.
pub open spec fn restart_msgs1(
    conns: Seq<u64>,
    names: Seq<(u64, String)>,
    raft: Seq<Vec2>,
    players: Seq<(u64, Pos)>,
) -> Seq<(u64, MsgV)>
    decreases conns.len(),
{
    if conns.len() == 0 {
        Seq::empty()
    } else {
        let rest = restart_msgs1(conns.drop_last(), names, raft, players);
        let c = conns.last();
        let base = rest.push((c, MsgV::UpdateRaft(raft)));
        let with_spawn = if has_key(names, c) {
            base.push(
                (c, MsgV::YouSpawn(crate::protocol::Spawn { pos: lookup(players, c) -> Some_0 })),
            )
        } else {
            base
        };
        with_spawn.push((c, MsgV::JustRestarted))
    }
}

/// The respawn broadcasts: each alive player's new position to every
/// other connection, in alive-table order.
pub open spec fn restart_msgs2(players: Seq<(u64, Pos)>, conns: Seq<u64>) -> Seq<(u64, MsgV)>
    decreases players.len(),
{
    if players.len() == 0 {
        Seq::empty()
    } else {
        restart_msgs2(players.drop_last(), conns) + bcast_others(
            conns,
            players.last().0,
            MsgV::PlayerSpawn { id: players.last().0, pos: players.last().1 },
        )
    }
}

/// The reset notices read only the named connections' final positions, so
/// two alive tables that agree there give the same notices.
pub proof fn lemma_restart_msgs1_congruent(
    conns: Seq<u64>,
    names: Seq<(u64, String)>,
    raft: Seq<Vec2>,
    p1: Seq<(u64, Pos)>,
    p2: Seq<(u64, Pos)>,
)
    requires
        forall|c: u64| #[trigger] lookup(p1, c) == lookup(p2, c) || !conns.contains(c),
    ensures
        restart_msgs1(conns, names, raft, p1) == restart_msgs1(conns, names, raft, p2),
    decreases conns.len(),
{
    if conns.len() > 0 {
        assert(forall|c: u64|
            #[trigger] lookup(p1, c) == lookup(p2, c) || !conns.drop_last().contains(c)) by {
            assert forall|c: u64|
                !(#[trigger] lookup(p1, c) == lookup(p2, c)) implies !conns.drop_last().contains(
                c,
            ) by {
                if conns.drop_last().contains(c) {
                    let j = choose|j: int|
                        0 <= j < conns.drop_last().len() && conns.drop_last()[j] == c;
                    assert(conns[j] == c);
                }
            }
        }
        lemma_restart_msgs1_congruent(conns.drop_last(), names, raft, p1, p2);
        assert(conns.contains(conns.last())) by {
            assert(conns[conns.len() - 1] == conns.last());
        }
    }
}

/// Membership in a one-longer prefix: the old prefix or the new element.
proof fn lemma_take_succ_contains(s: Seq<u64>, c: int, q: u64)
    requires
        0 <= c < s.len(),
    ensures
        s.take(c + 1).contains(q) <==> (s.take(c).contains(q) || s[c] == q),
{
    let b = s.take(c);
    assert(s.take(c + 1) =~= b.push(s[c]));
    if b.push(s[c]).contains(q) {
        let w = choose|w: int| 0 <= w < b.push(s[c]).len() && b.push(s[c])[w] == q;
        if w < b.len() {
            assert(b[w] == q);
        }
    }
    if b.contains(q) {
        let w = choose|w: int| 0 <= w < b.len() && b[w] == q;
        assert(b.push(s[c])[w] == q);
    }
    assert(b.push(s[c])[b.len() as int] == s[c]);
}

/// The full effect of the restart-countdown phase over `dt` ms; see
/// [`State::tick_restart`], whose contract this is.
pub open spec fn countdown_phase(o: State, f: State, dt: int) -> bool {
    &&& (f.wf())
    &&& (f.config == o.config)
    &&& (f.last_id == o.last_id)
    &&& (f.conns@ == o.conns@)
    &&& (f.names@ == o.names@)
    &&& (f.gull_pos@ == o.gull_pos@)
    &&& (f.attacks@ == o.attacks@)
    &&& (f.dash_cooldowns@ == o.dash_cooldowns@)
    &&& (f.poop_cooldowns@ == o.poop_cooldowns@)
    &&& (f.wait_for_teleport_ack@ == o.wait_for_teleport_ack@)
    &&& (f.flying_poops@ == o.flying_poops@)
    &&& (f.should_exit == o.should_exit)
    &&& (o.restart_timer matches Some(t) ==> if t - dt < 0 {
                &&& f.restart_timer is None
                &&& (forall|t2: Vec2| #[trigger]
                    f.raft@.contains(t2) <==> crate::tiles::in_disc(
                        t2,
                        o.config.raft_size as int,
                    ))
                &&& f.sharks@.len() == o.sharks@.len()
                &&& (forall|j: int|
                    0 <= j < f.sharks@.len() ==> (#[trigger] (f.sharks@[j])).0 == o.sharks@[j].0 && f.sharks@[j].1.behavior is Wandering && f.sharks@[j].1.pos == o.sharks@[j].1.pos && f.sharks@[j].1.target_pos == o.sharks@[j].1.target_pos)
                &&& (forall|q: u64| #[trigger]
                    has_key(f.player_pos@, q) <==> has_key(o.names@, q))
                &&& (forall|q: u64|
                    #[trigger] has_key(f.player_pos@, q) ==> spawn_ok(
                        lookup(f.player_pos@, q) -> Some_0,
                    ))
                &&& outv(f.outbox@) == outv(o.outbox@) + restart_msgs1(
                    o.conns@,
                    o.names@,
                    f.raft@,
                    f.player_pos@,
                ) + restart_msgs2(f.player_pos@, o.conns@)
            } else {
                &&& f.restart_timer == Some((t - dt) as i64)
                &&& f.player_pos@ == o.player_pos@
                &&& f.raft@ == o.raft@
                &&& f.sharks@ == o.sharks@
                &&& f.outbox@ == o.outbox@
            })
    &&& (outv(o.outbox@).is_prefix_of(outv(f.outbox@)))
    &&& (o.restart_timer is None ==> f.player_pos@ == o.player_pos@ && f.raft@ == o.raft@ && f.sharks@ == o.sharks@ && f.outbox@ == o.outbox@ && f.restart_timer
                == (if (o.player_pos@.len() <= 1 && o.names@.len() >= 2) || (o.names@.len() == 1 && o.player_pos@.len() == 0) {
                Some(o.config.restart_timer)
            } else {
                None
            }))
}

impl State {
    /// Full world reset: the platform becomes the canonical disc again,
    /// every predator's erosion target and timer are cleared (back to
    /// wandering toward its old target), every named participant respawns
    /// at a random point of the spawn box at rest, and every connection is
    /// told the new platform, its own respawn if named, the reset signal,
    /// and the other players' respawn positions.
    pub fn restart(&mut self)
        requires
            old(self).wf(),
        ensures
            final(self).wf(),
            final(self).config == old(self).config,
            final(self).last_id == old(self).last_id,
            final(self).conns@ == old(self).conns@,
            final(self).names@ == old(self).names@,
            final(self).gull_pos@ == old(self).gull_pos@,
            final(self).attacks@ == old(self).attacks@,
            final(self).dash_cooldowns@ == old(self).dash_cooldowns@,
            final(self).poop_cooldowns@ == old(self).poop_cooldowns@,
            final(self).wait_for_teleport_ack@ == old(self).wait_for_teleport_ack@,
            final(self).flying_poops@ == old(self).flying_poops@,
            final(self).restart_timer == old(self).restart_timer,
            final(self).should_exit == old(self).should_exit,
            forall|t: Vec2| #[trigger]
                final(self).raft@.contains(t) <==> crate::tiles::in_disc(
                    t,
                    old(self).config.raft_size as int,
                ),
            final(self).sharks@.len() == old(self).sharks@.len(),
            forall|j: int|
                0 <= j < final(self).sharks@.len() ==> (#[trigger] (final(self).sharks@[j])).0
                    == old(self).sharks@[j].0 && final(self).sharks@[j].1.behavior is Wandering
                    && final(self).sharks@[j].1.pos == old(self).sharks@[j].1.pos && final(self).sharks@[j].1.target_pos == old(self).sharks@[j].1.target_pos,
            forall|q: u64| #[trigger]
                has_key(final(self).player_pos@, q) <==> has_key(old(self).names@, q),
            forall|q: u64|
                #[trigger] has_key(final(self).player_pos@, q) ==> spawn_ok(
                    lookup(final(self).player_pos@, q) -> Some_0,
                ),
            outv(final(self).outbox@) == outv(old(self).outbox@) + restart_msgs1(
                old(self).conns@,
                old(self).names@,
                final(self).raft@,
                final(self).player_pos@,
            ) + restart_msgs2(final(self).player_pos@, old(self).conns@),
    {
        let ghost o = *old(self);
        let mut cleared: IdMap<Shark> = IdMap::new();
        let mut i: usize = 0;
        while i < self.sharks.len()
            invariant
                maps_unchanged(o, *self),
                self.last_id == o.last_id,
                self.outbox@ == o.outbox@,
                o.wf(),
                i <= o.sharks@.len(),
                cleared.entries@.len() == i,
                forall|j: int|
                    0 <= j < i ==> (#[trigger] (cleared.entries@[j])).0 == o.sharks@[j].0
                        && cleared.entries@[j].1.behavior is Wandering && cleared.entries@[j].1.pos
                        == o.sharks@[j].1.pos && cleared.entries@[j].1.target_pos
                        == o.sharks@[j].1.target_pos,
            decreases o.sharks@.len() - i,
        {
            let id = self.sharks.key_at(i);
            let s = *self.sharks.value_at(i);
            proof {
                assert(shark_ok(o.sharks@[i as int].1));
            }
            cleared.entries.push(
                (
                    id,
                    Shark {
                        pos: s.pos,
                        target_pos: s.target_pos,
                        behavior: crate::protocol::SharkBehavior::Wandering,
                    },
                ),
            );
            i = i + 1;
        }
        proof {
            assert(crate::idmap::unique_keys(cleared.entries@)) by {
                assert(forall|a: int, b: int|
                    0 <= a < b < cleared.entries@.len() ==> (#[trigger] (cleared.entries@[a])).0
                        != (#[trigger] (cleared.entries@[b])).0);
            }
            assert(all_sharks_ok(cleared.entries@)) by {
                assert forall|j: int| 0 <= j < cleared.entries@.len() implies shark_ok(
                    (#[trigger] (cleared.entries@[j])).1,
                ) by {
                    assert(shark_ok(o.sharks@[j].1));
                }
            }
            assert(keys_le(cleared.entries@, o.last_id)) by {
                assert forall|j: int| 0 <= j < cleared.entries@.len() implies (#[trigger] (
                cleared.entries@[j])).0 <= o.last_id by {
                    assert(o.sharks@[j].0 <= o.last_id);
                }
            }
        }
        self.sharks = cleared;
        self.raft = crate::tiles::TileSet::disc(self.config.raft_size);
        let ghost raft1 = self.raft@;
        let ghost sharks1 = self.sharks@;
        let mut c: usize = 0;
        while c < self.conns.len()
            invariant
                o.wf(),
                self.config == o.config,
                self.last_id == o.last_id,
                self.conns@ == o.conns@,
                self.names@ == o.names@,
                self.gull_pos@ == o.gull_pos@,
                self.attacks@ == o.attacks@,
                self.dash_cooldowns@ == o.dash_cooldowns@,
                self.poop_cooldowns@ == o.poop_cooldowns@,
                self.wait_for_teleport_ack@ == o.wait_for_teleport_ack@,
                self.flying_poops@ == o.flying_poops@,
                self.restart_timer == o.restart_timer,
                self.should_exit == o.should_exit,
                self.raft@ == raft1,
                self.raft.wf(),
                self.sharks@ == sharks1,
                self.sharks.wf(),
                all_sharks_ok(self.sharks@),
                keys_le(self.sharks@, self.last_id),
                c <= o.conns@.len(),
                self.player_pos.wf(),
                all_pos_ok(self.player_pos@),
                keys_in(self.player_pos@, o.conns@),
                players_named(self.player_pos@, o.names@),
                forall|q: u64| #[trigger]
                    has_key(self.player_pos@, q) <==> (has_key(o.player_pos@, q) || (has_key(
                        o.names@,
                        q,
                    ) && o.conns@.take(c as int).contains(q))),
                forall|q: u64|
                    #[trigger] has_key(self.player_pos@, q) && has_key(o.names@, q)
                        && o.conns@.take(c as int).contains(q) ==> spawn_ok(
                        lookup(self.player_pos@, q) -> Some_0,
                    ),
                outv(self.outbox@) == outv(o.outbox@) + restart_msgs1(
                    o.conns@.take(c as int),
                    o.names@,
                    raft1,
                    self.player_pos@,
                ),
            decreases o.conns@.len() - c,
        {
            let dest = self.conns.at(c);
            let ghost pp_before = self.player_pos@;
            let tiles = copy_tiles(&self.raft.tiles);
            send_to(&mut self.outbox, dest, ServerMessage::UpdateRaft(tiles));
            if self.names.contains_key(dest) {
                let rx = crate::rng::rand_centered(crate::protocol::SPAWN_BOX);
                let ry = crate::rng::rand_centered(crate::protocol::SPAWN_BOX);
                let rot = crate::rng::rand_below(360000) as i64;
                let pos = Pos {
                    pos: Vec3 { x: rx, y: ry, z: 0 },
                    rot,
                    vel: Vec3 { x: 0, y: 0, z: 0 },
                };
                self.player_pos.insert(dest, pos);
                proof {
                    lemma_insert_entries(pp_before, self.player_pos@, dest, pos);
                }
                send_to(
                    &mut self.outbox,
                    dest,
                    ServerMessage::YouSpawn(crate::protocol::Spawn { pos }),
                );
            }
            send_to(&mut self.outbox, dest, ServerMessage::JustRestarted);
            proof {
                assert(o.conns@.take(c as int + 1).drop_last() =~= o.conns@.take(c as int));
                assert(o.conns@.take(c as int + 1).last() == o.conns@[c as int]);
                let f = *self;
                assert forall|j: int| 0 <= j < f.player_pos@.len() implies o.conns@.contains(
                    (#[trigger] (f.player_pos@[j])).0,
                ) && pos_ok(f.player_pos@[j].1) && has_key(o.names@, f.player_pos@[j].0) by {
                    if f.player_pos@[j] == pp_before[j] && j < pp_before.len() {
                    } else {
                        if has_key(o.names@, dest) || !has_key(o.names@, dest) {
                            if f.player_pos@ != pp_before {
                                if f.player_pos@[j] != pp_before[j] || j >= pp_before.len() {
                                    assert(f.player_pos@[j].0 == dest);
                                    assert(o.conns@.contains(dest)) by {
                                        assert(o.conns@[c as int] == dest);
                                    }
                                } else {
                                }
                            }
                        }
                    }
                }
                assert forall|q: u64| #[trigger]
                    has_key(f.player_pos@, q) <==> (has_key(o.player_pos@, q) || (has_key(
                        o.names@,
                        q,
                    ) && o.conns@.take(c as int + 1).contains(q))) by {
                    lemma_take_succ_contains(o.conns@, c as int, q);
                    if q == dest {
                        assert(o.conns@.take(c as int + 1).contains(dest));
                    } else {
                        assert(lookup(f.player_pos@, q) == lookup(pp_before, q));
                        assert(has_key(f.player_pos@, q) == has_key(pp_before, q));
                    }
                }
                assert forall|q: u64|
                    #[trigger] has_key(f.player_pos@, q) && has_key(o.names@, q)
                        && o.conns@.take(c as int + 1).contains(q) implies spawn_ok(
                        lookup(f.player_pos@, q) -> Some_0,
                    ) by {
                    lemma_take_succ_contains(o.conns@, c as int, q);
                    if q != dest {
                        assert(lookup(f.player_pos@, q) == lookup(pp_before, q));
                        assert(has_key(pp_before, q));
                        assert(o.conns@.take(c as int).contains(q));
                    }
                }
                lemma_restart_msgs1_congruent(
                    o.conns@.take(c as int),
                    o.names@,
                    raft1,
                    pp_before,
                    f.player_pos@,
                );
            }
            c = c + 1;
        }
        proof {
            assert(o.conns@.take(o.conns@.len() as int) =~= o.conns@);
            assert forall|q: u64| #[trigger]
                has_key(self.player_pos@, q) <==> has_key(o.names@, q) by {
                if has_key(o.player_pos@, q) {
                    crate::idmap::lemma_has_key(o.player_pos@, q);
                    let j = choose|j: int|
                        0 <= j < o.player_pos@.len() && (#[trigger] (o.player_pos@[j])).0 == q;
                    assert(has_key(o.names@, q));
                }
                if has_key(o.names@, q) {
                    crate::idmap::lemma_has_key(o.names@, q);
                    let j = choose|j: int|
                        0 <= j < o.names@.len() && (#[trigger] (o.names@[j])).0 == q;
                    assert(o.conns@.contains(q));
                }
            }
            assert forall|q: u64| #[trigger] has_key(self.player_pos@, q) implies spawn_ok(
                lookup(self.player_pos@, q) -> Some_0,
            ) by {
                assert(has_key(o.names@, q));
                crate::idmap::lemma_has_key(o.names@, q);
                let j = choose|j: int|
                    0 <= j < o.names@.len() && (#[trigger] (o.names@[j])).0 == q;
                assert(o.conns@.contains(q));
                assert(o.conns@.take(o.conns@.len() as int).contains(q));
            }
        }
        let ghost players_final = self.player_pos@;
        let ghost mark = outv(self.outbox@);
        let mut k: usize = 0;
        while k < self.player_pos.len()
            invariant
                o.wf(),
                self.config == o.config,
                self.last_id == o.last_id,
                self.conns@ == o.conns@,
                self.names@ == o.names@,
                self.gull_pos@ == o.gull_pos@,
                self.attacks@ == o.attacks@,
                self.dash_cooldowns@ == o.dash_cooldowns@,
                self.poop_cooldowns@ == o.poop_cooldowns@,
                self.wait_for_teleport_ack@ == o.wait_for_teleport_ack@,
                self.flying_poops@ == o.flying_poops@,
                self.restart_timer == o.restart_timer,
                self.should_exit == o.should_exit,
                self.raft@ == raft1,
                self.raft.wf(),
                self.sharks@ == sharks1,
                self.sharks.wf(),
                all_sharks_ok(self.sharks@),
                keys_le(self.sharks@, self.last_id),
                self.player_pos@ == players_final,
                self.player_pos.wf(),
                all_pos_ok(self.player_pos@),
                keys_in(self.player_pos@, o.conns@),
                players_named(self.player_pos@, o.names@),
                k <= players_final.len(),
                outv(self.outbox@) == mark + restart_msgs2(
                    players_final.take(k as int),
                    o.conns@,
                ),
            decreases players_final.len() - k,
        {
            let id = self.player_pos.key_at(k);
            let pos = *self.player_pos.value_at(k);
            bcast_copy_others(
                &mut self.outbox,
                &self.conns,
                id,
                ServerMessage::PlayerSpawn { id, pos },
            );
            proof {
                assert(players_final.take(k as int + 1).drop_last() =~= players_final.take(
                    k as int,
                ));
                assert(players_final.take(k as int + 1).last() == players_final[k as int]);
            }
            k = k + 1;
        }
        proof {
            assert(players_final.take(players_final.len() as int) =~= players_final);
        }
    }

    /// The restart phase of a tick: a running countdown is advanced and,
    /// on expiry, the world is reset; with no countdown running, one is
    /// started (idempotently) as soon as the alive count falls to at most
    /// one with at least two named participants, or to zero with exactly
    /// one.
    pub fn tick_restart(&mut self, dt: i64)
        requires
            old(self).wf(),
            0 <= dt <= 100000,
        ensures
            countdown_phase(*old(self), *final(self), dt as int),

    {
        let ghost o = *old(self);
        match self.restart_timer {
            Some(t) => {
                if t - dt < 0 {
                    self.restart_timer = None;
                    self.restart();
                } else {
                    self.restart_timer = Some(t - dt);
                }
            },
            None => {
                if (self.player_pos.len() <= 1 && self.names.len() >= 2) || (self.names.len()
                    == 1 && self.player_pos.len() == 0) {
                    self.restart_timer = Some(self.config.restart_timer);
                }
            },
        }
        proof {
            assert(outv(self.outbox@).take(outv(o.outbox@).len() as int) =~= outv(o.outbox@));
        }
    }
}


/// The raw draws one predator step may consume: the erosion roll, the
/// candidate pick, and the two wander-point draws.
#[derive(Clone, Copy, PartialEq, Eq, Structural, Debug)]
pub struct SharkDraws {
    pub roll: u64,
    pub pick: u64,
    pub d1: u64,
    pub d2: u64,
}

/// The random wander target: a point of the disc around the raft's
/// bounding-box center whose radius is the bounding radius plus the
/// configured extra, selected by the two draws (an empty raft wanders
/// around the origin).
pub open spec fn wander_point(raft: Seq<Vec2>, ts: int, extra: int, d1: u64, d2: u64) -> Vec2 {
    let cx = if raft.len() == 0 {
        0int
    } else {
        crate::geom::sdiv((crate::tiles::raft_lo_x(raft) + crate::tiles::raft_hi_x(raft)) * ts, 2)
    };
    let cy = if raft.len() == 0 {
        0int
    } else {
        crate::geom::sdiv((crate::tiles::raft_lo_y(raft) + crate::tiles::raft_hi_y(raft)) * ts, 2)
    };
    let w = if raft.len() == 0 {
        0int
    } else {
        crate::tiles::raft_hi_x(raft) - crate::tiles::raft_lo_x(raft)
    };
    let h = if raft.len() == 0 {
        0int
    } else {
        crate::tiles::raft_hi_y(raft) - crate::tiles::raft_lo_y(raft)
    };
    let m = if w > h {
        w
    } else {
        h
    };
    let r = crate::geom::sdiv(m * ts, 2) + extra;
    let off = crate::geom::disc_offset_spec(r, d1, d2);
    (Vec2 {
        x: crate::geom::clamp_c(cx + off.0) as i64,
        y: crate::geom::clamp_c(cy + off.1) as i64,
    })
}

/// One movement step of a predator toward its target point at its
/// configured speed, never overshooting; facing and velocity derive from
/// the remaining direction.
pub open spec fn shark_move(s: Shark, depth: int, speed: int, dt: int) -> Shark {
    let target3 = (Vec3 { x: s.target_pos.x, y: s.target_pos.y, z: depth as i64 });
    let ms = crate::geom::sdiv(speed * dt, crate::geom::SCALE as int);
    let np = crate::geom::move_toward_spec(s.pos.pos, target3, ms);
    let dx = target3.x - s.pos.pos.x;
    let dy = target3.y - s.pos.pos.y;
    let dz = target3.z - s.pos.pos.z;
    let l = crate::geom::sqrt_floor(crate::geom::norm2_3(dx, dy, dz) as nat) as int;
    (Shark {
        pos: (Pos {
            pos: (Vec3 { x: np.0 as i64, y: np.1 as i64, z: np.2 as i64 }),
            rot: crate::geom::angle_spec(dx, dy) as i64,
            vel: (Vec3 {
                x: crate::geom::sdiv(dx * speed, l) as i64,
                y: crate::geom::sdiv(dy * speed, l) as i64,
                z: crate::geom::sdiv(dz * speed, l) as i64,
            }),
        }),
        target_pos: s.target_pos,
        behavior: s.behavior,
    })
}

/// The full effect of one predator step of `shark_id` over `dt` ms
/// given the draws; see [`State::shark_step`], whose contract this is.
pub open spec fn shark_step_rel(o: State, f: State, shark_id: u64, dt: int, draws: SharkDraws) -> bool {
    &&& (f.wf())
    &&& (f.config == o.config)
    &&& (f.last_id == o.last_id)
    &&& (f.conns@ == o.conns@)
    &&& (f.names@ == o.names@)
    &&& (f.player_pos@ == o.player_pos@)
    &&& (f.gull_pos@ == o.gull_pos@)
    &&& (f.attacks@ == o.attacks@)
    &&& (f.dash_cooldowns@ == o.dash_cooldowns@)
    &&& (f.poop_cooldowns@ == o.poop_cooldowns@)
    &&& (f.wait_for_teleport_ack@ == o.wait_for_teleport_ack@)
    &&& (f.flying_poops@ == o.flying_poops@)
    &&& (f.restart_timer == o.restart_timer)
    &&& (f.should_exit == o.should_exit)
    &&& (f.sharks@.len() == o.sharks@.len())
    &&& (forall|j: int|
                0 <= j < f.sharks@.len()
                    ==> (#[trigger] (f.sharks@[j])).0 == o.sharks@[j].0)
    &&& (forall|q: u64|
                q != shark_id ==> #[trigger] lookup(f.sharks@, q) == lookup(
                    o.sharks@,
                    q,
                ))
    &&& (forall|t: Vec2| #[trigger]
                f.raft@.contains(t) ==> o.raft@.contains(t))
    &&& (outv(o.outbox@).is_prefix_of(outv(f.outbox@)))
    &&& (!has_key(o.sharks@, shark_id) ==> f.sharks@ == o.sharks@
                && f.raft@ == o.raft@ && f.outbox@ == o.outbox@)
    &&& (has_key(o.sharks@, shark_id) ==> ({
                let s = lookup(o.sharks@, shark_id) -> Some_0;
                let c = o.config;
                match s.behavior {
                    crate::protocol::SharkBehavior::Eroding { tile, elapsed } => if !o.raft@.contains(tile) {
                        &&& f.raft@ == o.raft@
                        &&& f.outbox@ == o.outbox@
                        &&& lookup(f.sharks@, shark_id) == Some(
                            Shark {
                                pos: s.pos,
                                target_pos: s.target_pos,
                                behavior: crate::protocol::SharkBehavior::Wandering,
                            },
                        )
                    } else if elapsed + dt > crate::protocol::EROSION_TIME {
                        &&& !f.raft@.contains(tile)
                        &&& (forall|t: Vec2|
                            t != tile ==> f.raft@.contains(t) == o.raft@.contains(t))
                        &&& outv(f.outbox@) == outv(o.outbox@) + bcast_all(
                            o.conns@,
                            MsgV::Destroy(shark_id, tile),
                        )
                        &&& lookup(f.sharks@, shark_id) == Some(
                            Shark {
                                pos: s.pos,
                                target_pos: s.target_pos,
                                behavior: crate::protocol::SharkBehavior::Wandering,
                            },
                        )
                    } else {
                        &&& f.raft@ == o.raft@
                        &&& f.outbox@ == o.outbox@
                        &&& lookup(f.sharks@, shark_id) == Some(
                            Shark {
                                pos: s.pos,
                                target_pos: s.target_pos,
                                behavior: crate::protocol::SharkBehavior::Eroding {
                                    tile,
                                    elapsed: (elapsed + dt) as i64,
                                },
                            },
                        )
                    },
                    _ => {
                        let target3 = (Vec3 {
                            x: s.target_pos.x,
                            y: s.target_pos.y,
                            z: c.shark.depth,
                        });
                        if s.pos.pos == target3 {
                            match s.behavior {
                                crate::protocol::SharkBehavior::Approaching { tile } => if o.raft@.contains(tile) {
                                    &&& f.raft@ == o.raft@
                                    &&& outv(f.outbox@) == outv(o.outbox@)
                                        + bcast_all(
                                        o.conns@,
                                        MsgV::AboutToDestroy(shark_id, tile),
                                    )
                                    &&& lookup(f.sharks@, shark_id) == Some(
                                        Shark {
                                            pos: s.pos,
                                            target_pos: s.target_pos,
                                            behavior: crate::protocol::SharkBehavior::Eroding {
                                                tile,
                                                elapsed: 0,
                                            },
                                        },
                                    )
                                } else {
                                    &&& f.raft@ == o.raft@
                                    &&& f.outbox@ == o.outbox@
                                    &&& lookup(f.sharks@, shark_id) == Some(
                                        Shark {
                                            pos: s.pos,
                                            target_pos: s.target_pos,
                                            behavior: crate::protocol::SharkBehavior::Wandering,
                                        },
                                    )
                                },
                                _ => {
                                    let cands = crate::tiles::cand_spec(
                                        o.raft@,
                                        o.raft@,
                                    );
                                    if draws.roll as int % 1000 < c.shark.attack_prob
                                        && cands.len() > 0 {
                                        let pk = draws.pick as int % cands.len() as int;
                                        &&& f.raft@ == o.raft@
                                        &&& f.outbox@ == o.outbox@
                                        &&& lookup(f.sharks@, shark_id) == Some(
                                            Shark {
                                                pos: s.pos,
                                                target_pos: (Vec2 {
                                                    x: (cands[pk].1.x * c.tile_size) as i64,
                                                    y: (cands[pk].1.y * c.tile_size) as i64,
                                                }),
                                                behavior: crate::protocol::SharkBehavior::Approaching {
                                                    tile: cands[pk].0,
                                                },
                                            },
                                        )
                                    } else {
                                        &&& f.raft@ == o.raft@
                                        &&& f.outbox@ == o.outbox@
                                        &&& lookup(f.sharks@, shark_id) == Some(
                                            Shark {
                                                pos: s.pos,
                                                target_pos: wander_point(
                                                    o.raft@,
                                                    c.tile_size as int,
                                                    c.shark.extra_move_radius as int,
                                                    draws.d1,
                                                    draws.d2,
                                                ),
                                                behavior: crate::protocol::SharkBehavior::Wandering,
                                            },
                                        )
                                    }
                                },
                            }
                        } else {
                            &&& f.raft@ == o.raft@
                            &&& f.outbox@ == o.outbox@
                            &&& lookup(f.sharks@, shark_id) == Some(
                                shark_move(
                                    s,
                                    c.shark.depth as int,
                                    c.shark.speed as int,
                                    dt,
                                ),
                            )
                        }
                    },
                }
            }))
}

/// The predator ids in table order.
pub open spec fn shark_keys(s: Seq<(u64, Shark)>) -> Seq<u64> {
    Seq::new(s.len(), |i: int| s[i].0)
}

/// The predators step in table order, each consuming its own draws
/// (see [`shark_step_rel`]).
pub open spec fn sharks_stepped(
    o: State,
    f: State,
    keys: Seq<u64>,
    dt: int,
    ds: Seq<SharkDraws>,
) -> bool
    decreases keys.len(),
{
    if keys.len() == 0 {
        f == o
    } else {
        ds.len() > 0 && exists|m: State|
            #[trigger] shark_step_rel(o, m, keys[0], dt, ds[0]) && sharks_stepped(
                m,
                f,
                keys.drop_first(),
                dt,
                ds.drop_first(),
            )
    }
}

/// Stepping one more predator extends the chain at its end.
pub proof fn lemma_sharks_stepped_push(
    o: State,
    m: State,
    f: State,
    keys: Seq<u64>,
    dt: int,
    ds: Seq<SharkDraws>,
    k: u64,
    d: SharkDraws,
)
    requires
        sharks_stepped(o, m, keys, dt, ds),
        shark_step_rel(m, f, k, dt, d),
        ds.len() == keys.len(),
    ensures
        sharks_stepped(o, f, keys.push(k), dt, ds.push(d)),
    decreases keys.len(),
{
    let k2 = keys.push(k);
    let d2 = ds.push(d);
    if keys.len() == 0 {
        assert(m == o);
        assert(k2[0] == k && d2[0] == d);
        assert(k2.drop_first() =~= Seq::<u64>::empty());
        assert(d2.drop_first() =~= Seq::<SharkDraws>::empty());
        assert(shark_step_rel(o, f, k2[0], dt, d2[0]));
        assert(sharks_stepped(f, f, k2.drop_first(), dt, d2.drop_first()));
    } else {
        let m1 = choose|m1: State|
            #[trigger] shark_step_rel(o, m1, keys[0], dt, ds[0]) && sharks_stepped(
                m1,
                m,
                keys.drop_first(),
                dt,
                ds.drop_first(),
            );
        lemma_sharks_stepped_push(m1, m, f, keys.drop_first(), dt, ds.drop_first(), k, d);
        assert(k2.drop_first() =~= keys.drop_first().push(k));
        assert(d2.drop_first() =~= ds.drop_first().push(d));
        assert(k2[0] == keys[0] && d2[0] == ds[0]);
        assert(shark_step_rel(o, m1, k2[0], dt, d2[0]) && sharks_stepped(
            m1,
            f,
            k2.drop_first(),
            dt,
            d2.drop_first(),
        ));
    }
}

/// The full effect of the predator phase over `dt` ms; see
/// [`State::tick_sharks`], whose contract this is.
pub open spec fn sharks_phase(o: State, f: State, dt: int) -> bool {
    &&& (f.wf())
    &&& (f.config == o.config)
    &&& (f.last_id == o.last_id)
    &&& (f.conns@ == o.conns@)
    &&& (f.names@ == o.names@)
    &&& (f.player_pos@ == o.player_pos@)
    &&& (f.gull_pos@ == o.gull_pos@)
    &&& (f.attacks@ == o.attacks@)
    &&& (f.dash_cooldowns@ == o.dash_cooldowns@)
    &&& (f.poop_cooldowns@ == o.poop_cooldowns@)
    &&& (f.wait_for_teleport_ack@ == o.wait_for_teleport_ack@)
    &&& (f.flying_poops@ == o.flying_poops@)
    &&& (f.restart_timer == o.restart_timer)
    &&& (f.should_exit == o.should_exit)
    &&& (f.sharks@.len() == o.sharks@.len())
    &&& (forall|j: int|
                0 <= j < f.sharks@.len()
                    ==> (#[trigger] (f.sharks@[j])).0 == o.sharks@[j].0)
    &&& (forall|t: Vec2| #[trigger]
                f.raft@.contains(t) ==> o.raft@.contains(t))
    &&& (outv(o.outbox@).is_prefix_of(outv(f.outbox@)))
    &&& (exists|ds: Seq<SharkDraws>|
                ds.len() == o.sharks@.len() && #[trigger] sharks_stepped(
                    o,
                    f,
                    shark_keys(o.sharks@),
                    dt,
                    ds,
                ))
}

impl State {
    /// One predator's step of the behavior state machine, deterministic in
    /// the given draws. While eroding, the elapsed timer advances only
    /// while the target tile is still present; once it exceeds the
    /// threshold the tile is destroyed and announced. A predator that has
    /// reached its target either confirms a pending erosion target, or
    /// selects a new one: with the configured per-tick probability (and a
    /// non-empty raft with an exposed tile) it approaches the first
    /// missing neighbor of a tile chosen by the pick draw; otherwise it
    /// wanders to a random point near the raft. Away from its target it
    /// swims toward it, never overshooting. An unknown id changes nothing.
    #[verifier::rlimit(100)]
    pub fn shark_step(&mut self, shark_id: u64, dt: i64, draws: SharkDraws)
        requires
            old(self).wf(),
            0 <= dt <= 100000,
        ensures
            shark_step_rel(*old(self), *final(self), shark_id, dt as int, draws),

    {
        let ghost o = *old(self);
        let s: Shark = match self.sharks.get(shark_id) {
            Some(s) => *s,
            None => {
                return ;
            },
        };
        proof {
            lemma_lookup_entry(o.sharks@, shark_id, s);
            let j0 = choose|j0: int|
                0 <= j0 < o.sharks@.len() && #[trigger] o.sharks@[j0] == (shark_id, s);
            assert(shark_ok(s));
        }
        match s.behavior {
            crate::protocol::SharkBehavior::Eroding { tile, elapsed } => {
                if !self.raft.contains(tile) {
                    let ns = Shark {
                        pos: s.pos,
                        target_pos: s.target_pos,
                        behavior: crate::protocol::SharkBehavior::Wandering,
                    };
                    self.sharks.insert(shark_id, ns);
                    proof {
                        self.lemma_shark_update(o, shark_id, ns);
                    }
                } else if elapsed + dt > crate::protocol::EROSION_TIME {
                    self.raft.remove(tile);
                    bcast_copy(
                        &mut self.outbox,
                        &self.conns,
                        ServerMessage::Destroy(shark_id, tile),
                    );
                    let ns = Shark {
                        pos: s.pos,
                        target_pos: s.target_pos,
                        behavior: crate::protocol::SharkBehavior::Wandering,
                    };
                    self.sharks.insert(shark_id, ns);
                    proof {
                        self.lemma_shark_update(o, shark_id, ns);
                    }
                } else {
                    let ns = Shark {
                        pos: s.pos,
                        target_pos: s.target_pos,
                        behavior: crate::protocol::SharkBehavior::Eroding {
                            tile,
                            elapsed: elapsed + dt,
                        },
                    };
                    self.sharks.insert(shark_id, ns);
                    proof {
                        self.lemma_shark_update(o, shark_id, ns);
                    }
                }
            },
            _ => {
                let target3 = Vec3 {
                    x: s.target_pos.x,
                    y: s.target_pos.y,
                    z: self.config.shark.depth,
                };
                if s.pos.pos.x == target3.x && s.pos.pos.y == target3.y && s.pos.pos.z
                    == target3.z {
                    match s.behavior {
                        crate::protocol::SharkBehavior::Approaching { tile } => {
                            if self.raft.contains(tile) {
                                bcast_copy(
                                    &mut self.outbox,
                                    &self.conns,
                                    ServerMessage::AboutToDestroy(shark_id, tile),
                                );
                                let ns = Shark {
                                    pos: s.pos,
                                    target_pos: s.target_pos,
                                    behavior: crate::protocol::SharkBehavior::Eroding {
                                        tile,
                                        elapsed: 0,
                                    },
                                };
                                self.sharks.insert(shark_id, ns);
                                proof {
                                    self.lemma_shark_update(o, shark_id, ns);
                                }
                            } else {
                                let ns = Shark {
                                    pos: s.pos,
                                    target_pos: s.target_pos,
                                    behavior: crate::protocol::SharkBehavior::Wandering,
                                };
                                self.sharks.insert(shark_id, ns);
                                proof {
                                    self.lemma_shark_update(o, shark_id, ns);
                                }
                            }
                        },
                        _ => {
                            let cands = self.raft.candidates();
                            let roll = crate::rng::draw_below(draws.roll, 1000);
                            if roll < self.config.shark.attack_prob && cands.len() > 0 {
                                let pk = (draws.pick % (cands.len() as u64)) as usize;
                                let (tile, empty) = cands[pk];
                                proof {
                                    assert(self.raft@.contains(cands@[pk as int].0));
                                    assert(crate::tiles::missing_neighbor(
                                        self.raft@,
                                        cands@[pk as int].0,
                                    ) == Some(cands@[pk as int].1));
                                    let w = choose|w: int|
                                        0 <= w < self.raft@.len() && self.raft@[w] == cands@[
                                            pk as int].0;
                                    assert(crate::tiles::tile_ok(self.raft@[w]));
                                    assert(abs_i(empty.x as int) <= crate::tiles::TILE_MAX + 1
                                        && abs_i(empty.y as int) <= crate::tiles::TILE_MAX + 1);
                                    assert(abs_i(empty.x as int * o.config.tile_size) <= (
                                    crate::tiles::TILE_MAX + 1) * 100000 && abs_i(
                                        empty.y as int * o.config.tile_size,
                                    ) <= (crate::tiles::TILE_MAX + 1) * 100000)
                                        by (nonlinear_arith)
                                        requires
                                            abs_i(empty.x as int) <= crate::tiles::TILE_MAX + 1,
                                            abs_i(empty.y as int) <= crate::tiles::TILE_MAX + 1,
                                            0 < o.config.tile_size <= 100000,
                                            crate::tiles::TILE_MAX == 4096,
                                    ;
                                }
                                let ns = Shark {
                                    pos: s.pos,
                                    target_pos: Vec2 {
                                        x: empty.x * self.config.tile_size,
                                        y: empty.y * self.config.tile_size,
                                    },
                                    behavior: crate::protocol::SharkBehavior::Approaching {
                                        tile,
                                    },
                                };
                                self.sharks.insert(shark_id, ns);
                                proof {
                                    self.lemma_shark_update(o, shark_id, ns);
                                }
                            } else {
                                let b = self.raft.bounds();
                                let ghost ts = o.config.tile_size as int;
                                let (cx, cy, rr): (i64, i64, i64) = match b {
                                    Some((ax, bx, ay, by2)) => {
                                        proof {
                                            assert(abs_i((ax + bx) as int * ts) <= 2 * 4096
                                                * 100000 && abs_i((ay + by2) as int * ts) <= 2
                                                * 4096 * 100000 && 0 <= (if bx - ax > by2 - ay {
                                                bx - ax
                                            } else {
                                                by2 - ay
                                            }) as int * ts <= 2 * 4096 * 100000)
                                                by (nonlinear_arith)
                                                requires
                                                    abs_i(ax as int) <= 4096,
                                                    abs_i(bx as int) <= 4096,
                                                    abs_i(ay as int) <= 4096,
                                                    abs_i(by2 as int) <= 4096,
                                                    ax <= bx,
                                                    ay <= by2,
                                                    0 < ts <= 100000,
                                            ;
                                            crate::geom::lemma_sdiv_bound(
                                                (ax + bx) as int * ts,
                                                2,
                                                (2 * 4096 * 100000) as int,
                                            );
                                            crate::geom::lemma_sdiv_bound(
                                                (ay + by2) as int * ts,
                                                2,
                                                (2 * 4096 * 100000) as int,
                                            );
                                            crate::geom::lemma_sdiv_bound(
                                                (if bx - ax > by2 - ay {
                                                    bx - ax
                                                } else {
                                                    by2 - ay
                                                }) as int * ts,
                                                2,
                                                (2 * 4096 * 100000) as int,
                                            );
                                        }
                                        let w = bx - ax;
                                        let h = by2 - ay;
                                        let m = if w > h {
                                            w
                                        } else {
                                            h
                                        };
                                        (
                                            crate::geom::div_toward_zero(
                                                (ax + bx) * self.config.tile_size,
                                                2,
                                            ),
                                            crate::geom::div_toward_zero(
                                                (ay + by2) * self.config.tile_size,
                                                2,
                                            ),
                                            crate::geom::div_toward_zero(
                                                m * self.config.tile_size,
                                                2,
                                            ),
                                        )
                                    },
                                    None => (0, 0, 0),
                                };
                                let pt = crate::geom::disc_point(
                                    Vec2 { x: cx, y: cy },
                                    rr + self.config.shark.extra_move_radius,
                                    draws.d1,
                                    draws.d2,
                                );
                                proof {
                                    let wr = wander_point(
                                        o.raft@,
                                        ts,
                                        o.config.shark.extra_move_radius as int,
                                        draws.d1,
                                        draws.d2,
                                    );
                                    if o.raft@.len() == 0 {
                                        assert(cx == 0 && cy == 0 && rr == 0);
                                    } else {
                                        assert(cx as int == crate::geom::sdiv(
                                            (crate::tiles::raft_lo_x(o.raft@)
                                                + crate::tiles::raft_hi_x(o.raft@)) * ts,
                                            2,
                                        ));
                                        assert(cy as int == crate::geom::sdiv(
                                            (crate::tiles::raft_lo_y(o.raft@)
                                                + crate::tiles::raft_hi_y(o.raft@)) * ts,
                                            2,
                                        ));
                                        assert(rr as int == crate::geom::sdiv(
                                            (if crate::tiles::raft_hi_x(o.raft@)
                                                - crate::tiles::raft_lo_x(o.raft@)
                                                > crate::tiles::raft_hi_y(o.raft@)
                                                - crate::tiles::raft_lo_y(o.raft@) {
                                                crate::tiles::raft_hi_x(o.raft@)
                                                    - crate::tiles::raft_lo_x(o.raft@)
                                            } else {
                                                crate::tiles::raft_hi_y(o.raft@)
                                                    - crate::tiles::raft_lo_y(o.raft@)
                                            }) * ts,
                                            2,
                                        ));
                                    }
                                    let rad = (rr + o.config.shark.extra_move_radius) as int;
                                    let mw = if o.raft@.len() == 0 {
                                        0int
                                    } else {
                                        if crate::tiles::raft_hi_x(o.raft@) - crate::tiles::raft_lo_x(o.raft@) > crate::tiles::raft_hi_y(o.raft@) - crate::tiles::raft_lo_y(o.raft@) {
                                            crate::tiles::raft_hi_x(o.raft@) - crate::tiles::raft_lo_x(o.raft@)
                                        } else {
                                            crate::tiles::raft_hi_y(o.raft@) - crate::tiles::raft_lo_y(o.raft@)
                                        }
                                    };
                                    assert(rr as int == crate::geom::sdiv(mw * ts, 2)) by {
                                        if o.raft@.len() == 0 {
                                            assert(0int * ts == 0) by (nonlinear_arith);
                                            assert(crate::geom::sdiv(0int, 2) == 0);
                                        }
                                    }
                                    assert(rad == crate::geom::sdiv(mw * ts, 2)
                                        + o.config.shark.extra_move_radius);
                                    let offx = crate::geom::disc_offset_spec(
                                        rad,
                                        draws.d1,
                                        draws.d2,
                                    ).0;
                                    let offy = crate::geom::disc_offset_spec(
                                        rad,
                                        draws.d1,
                                        draws.d2,
                                    ).1;
                                    assert(pt.x as int == crate::geom::clamp_c(
                                        cx as int + offx,
                                    ));
                                    assert(pt.y as int == crate::geom::clamp_c(
                                        cy as int + offy,
                                    ));
                                    assert(-536870912 <= crate::geom::clamp_c(cx as int + offx)
                                        <= 536870912);
                                    assert(-536870912 <= crate::geom::clamp_c(cy as int + offy)
                                        <= 536870912);
                                    assert(wr.x as int == crate::geom::clamp_c(
                                        cx as int + offx,
                                    ));
                                    assert(wr.y as int == crate::geom::clamp_c(
                                        cy as int + offy,
                                    ));
                                    assert(pt.x == wr.x && pt.y == wr.y);
                                    assert(pt == wr);
                                }
                                let ns = Shark {
                                    pos: s.pos,
                                    target_pos: pt,
                                    behavior: crate::protocol::SharkBehavior::Wandering,
                                };
                                self.sharks.insert(shark_id, ns);
                                proof {
                                    self.lemma_shark_update(o, shark_id, ns);
                                }
                            }
                        },
                    }
                } else {
                    proof {
                        assert(0 <= o.config.shark.speed * dt <= 100000000000)
                            by (nonlinear_arith)
                            requires
                                0 <= o.config.shark.speed <= 1000000,
                                0 <= dt <= 100000,
                        ;
                        crate::geom::lemma_sdiv_bound(
                            o.config.shark.speed as int * dt,
                            crate::geom::SCALE as int,
                            100000000,
                        );
                    }
                    let ms = crate::geom::div_toward_zero(
                        self.config.shark.speed * dt,
                        crate::geom::SCALE,
                    );
                    let np = crate::geom::move_toward(s.pos.pos, target3, ms);
                    let dx = target3.x - s.pos.pos.x;
                    let dy = target3.y - s.pos.pos.y;
                    let dz = target3.z - s.pos.pos.z;
                    let n2 = crate::geom::dist2_v3(target3, s.pos.pos);
                    let l = crate::geom::isqrt(n2);
                    proof {
                        crate::geom::lemma_sqrt_floor_le(1, n2 as nat);
                        crate::geom::lemma_component_le_norm3(dx as int, dy as int, dz as int);
                        assert(abs_i(dx as int * o.config.shark.speed) <= abs_i(dx as int)
                            * 1000000 && abs_i(dy as int * o.config.shark.speed) <= abs_i(
                            dy as int,
                        ) * 1000000 && abs_i(dz as int * o.config.shark.speed) <= abs_i(
                            dz as int,
                        ) * 1000000) by (nonlinear_arith)
                            requires
                                0 <= o.config.shark.speed <= 1000000,
                        ;
                        assert(abs_i(dx as int) * 1000000 <= (l as int) * 1000000 && abs_i(
                            dy as int,
                        ) * 1000000 <= (l as int) * 1000000 && abs_i(dz as int) * 1000000 <= (
                        l as int) * 1000000) by (nonlinear_arith)
                            requires
                                abs_i(dx as int) <= l as int,
                                abs_i(dy as int) <= l as int,
                                abs_i(dz as int) <= l as int,
                        ;
                        crate::geom::lemma_sdiv_bound(
                            dx as int * o.config.shark.speed,
                            l as int,
                            1000000,
                        );
                        crate::geom::lemma_sdiv_bound(
                            dy as int * o.config.shark.speed,
                            l as int,
                            1000000,
                        );
                        crate::geom::lemma_sdiv_bound(
                            dz as int * o.config.shark.speed,
                            l as int,
                            1000000,
                        );
                    }
                    let vx = crate::geom::div_toward_zero(
                        dx * self.config.shark.speed,
                        l as i64,
                    );
                    let vy = crate::geom::div_toward_zero(
                        dy * self.config.shark.speed,
                        l as i64,
                    );
                    let vz = crate::geom::div_toward_zero(
                        dz * self.config.shark.speed,
                        l as i64,
                    );
                    let rot = crate::geom::angle_milli(dx, dy);
                    let ns = Shark {
                        pos: Pos { pos: np, rot, vel: Vec3 { x: vx, y: vy, z: vz } },
                        target_pos: s.target_pos,
                        behavior: s.behavior,
                    };
                    proof {
                        assert(ns == shark_move(
                            s,
                            o.config.shark.depth as int,
                            o.config.shark.speed as int,
                            dt as int,
                        ));
                    }
                    self.sharks.insert(shark_id, ns);
                    proof {
                        self.lemma_shark_update(o, shark_id, ns);
                    }
                }
            },
        }
    }

    /// After updating one predator's entry in place, the table keeps its
    /// keys and stays well formed.
    proof fn lemma_shark_update(&self, o: State, shark_id: u64, ns: Shark)
        requires
            o.wf(),
            shark_ok(ns),
            has_key(o.sharks@, shark_id),
            exists|i: int|
                0 <= i < o.sharks@.len() && o.sharks@[i].0 == shark_id && self.sharks@
                    == #[trigger] o.sharks@.update(i, (shark_id, ns)),
        ensures
            crate::idmap::unique_keys(self.sharks@),
            all_sharks_ok(self.sharks@),
            keys_le(self.sharks@, o.last_id),
            self.sharks@.len() == o.sharks@.len(),
            forall|j: int|
                0 <= j < self.sharks@.len() ==> (#[trigger] (self.sharks@[j])).0
                    == o.sharks@[j].0,
    {
        crate::idmap::lemma_has_key(o.sharks@, shark_id);
        let i = choose|i: int|
            0 <= i < o.sharks@.len() && o.sharks@[i].0 == shark_id && self.sharks@
                == #[trigger] o.sharks@.update(i, (shark_id, ns));
        assert(forall|j: int|
            0 <= j < self.sharks@.len() ==> (#[trigger] (self.sharks@[j])).0 == o.sharks@[j].0);
        assert forall|j: int| 0 <= j < self.sharks@.len() implies shark_ok(
            (#[trigger] (self.sharks@[j])).1,
        ) by {
            if j != i {
                assert(self.sharks@[j] == o.sharks@[j]);
                assert(shark_ok(o.sharks@[j].1));
            }
        }
    }

    /// The predator phase of a tick: one AI step per predator, in table
    /// order, each consuming fresh draws. The platform only shrinks here.
    pub fn tick_sharks(&mut self, dt: i64)
        requires
            old(self).wf(),
            0 <= dt <= 100000,
        ensures
            sharks_phase(*old(self), *final(self), dt as int),

    {
        let ghost o = *old(self);
        let ghost mut ds: Seq<SharkDraws> = Seq::empty();
        let mut i: usize = 0;
        proof {
            assert(outv(o.outbox@).is_prefix_of(outv(self.outbox@))) by {
                assert(outv(self.outbox@).take(outv(o.outbox@).len() as int) =~= outv(
                    o.outbox@,
                ));
            }
            assert(sharks_stepped(o, *self, shark_keys(o.sharks@).take(0), dt as int, ds));
        }
        while i < self.sharks.len()
            invariant
                self.wf(),
                0 <= dt <= 100000,
                i <= self.sharks@.len(),
                self.config == o.config,
                self.last_id == o.last_id,
                self.conns@ == o.conns@,
                self.names@ == o.names@,
                self.player_pos@ == o.player_pos@,
                self.gull_pos@ == o.gull_pos@,
                self.attacks@ == o.attacks@,
                self.dash_cooldowns@ == o.dash_cooldowns@,
                self.poop_cooldowns@ == o.poop_cooldowns@,
                self.wait_for_teleport_ack@ == o.wait_for_teleport_ack@,
                self.flying_poops@ == o.flying_poops@,
                self.restart_timer == o.restart_timer,
                self.should_exit == o.should_exit,
                self.sharks@.len() == o.sharks@.len(),
                forall|j: int|
                    0 <= j < self.sharks@.len() ==> (#[trigger] (self.sharks@[j])).0
                        == o.sharks@[j].0,
                forall|t: Vec2| #[trigger] self.raft@.contains(t) ==> o.raft@.contains(t),
                outv(o.outbox@).is_prefix_of(outv(self.outbox@)),
                ds.len() == i,
                sharks_stepped(o, *self, shark_keys(o.sharks@).take(i as int), dt as int, ds),
            decreases self.sharks@.len() - i,
        {
            let id = self.sharks.key_at(i);
            let draws = SharkDraws {
                roll: crate::rng::random_u64(),
                pick: crate::rng::random_u64(),
                d1: crate::rng::random_u64(),
                d2: crate::rng::random_u64(),
            };
            let ghost mid = *self;
            self.shark_step(id, dt, draws);
            proof {
                assert(outv(o.outbox@).is_prefix_of(outv(self.outbox@))) by {
                    let a = outv(o.outbox@);
                    let bmid = outv(mid.outbox@);
                    let cfin = outv(self.outbox@);
                    assert(a =~= bmid.take(a.len() as int));
                    assert(bmid =~= cfin.take(bmid.len() as int));
                    assert(a =~= cfin.take(a.len() as int));
                }
                assert(id == shark_keys(o.sharks@)[i as int]);
                lemma_sharks_stepped_push(
                    o,
                    mid,
                    *self,
                    shark_keys(o.sharks@).take(i as int),
                    dt as int,
                    ds,
                    id,
                    draws,
                );
                assert(shark_keys(o.sharks@).take(i as int + 1) =~= shark_keys(
                    o.sharks@,
                ).take(i as int).push(id));
                ds = ds.push(draws);
            }
            i = i + 1;
        }
        proof {
            assert(shark_keys(o.sharks@).take(o.sharks@.len() as int) =~= shark_keys(
                o.sharks@,
            ));
        }
    }

    /// One fixed-period simulation step, in the fixed order: projectile
    /// ballistics, the drowning check, cooldowns, pending attacks, the
    /// restart countdown, and one AI step per predator. With no
    /// connections registered the world stands still.
    pub fn tick(&mut self, dt: i64)
        requires
            old(self).wf(),
            0 <= dt <= 100000,
        ensures
            final(self).wf(),
            final(self).config == old(self).config,
            final(self).last_id == old(self).last_id,
            final(self).conns@ == old(self).conns@,
            final(self).names@ == old(self).names@,
            final(self).gull_pos@ == old(self).gull_pos@,
            final(self).should_exit == old(self).should_exit,
            final(self).sharks@.len() == old(self).sharks@.len(),
            forall|j: int|
                0 <= j < final(self).sharks@.len()
                    ==> (#[trigger] (final(self).sharks@[j])).0 == old(self).sharks@[j].0,
            outv(old(self).outbox@).is_prefix_of(outv(final(self).outbox@)),
            old(self).conns@.len() == 0 ==> maps_unchanged(*old(self), *final(self)) && final(self).outbox@ == old(self).outbox@,
            old(self).conns@.len() > 0 ==> exists|s1: State, s2: State, s3: State, s4: State, s5: State|
                #![trigger projectiles_phase(*old(self), s1, dt as int), drowning_phase(s1, s2), cooldowns_phase(s2, s3, dt as int), attacks_phase(s3, s4, dt as int), countdown_phase(s4, s5, dt as int)]
                {
                    &&& projectiles_phase(*old(self), s1, dt as int)
                    &&& drowning_phase(s1, s2)
                    &&& cooldowns_phase(s2, s3, dt as int)
                    &&& attacks_phase(s3, s4, dt as int)
                    &&& countdown_phase(s4, s5, dt as int)
                    &&& sharks_phase(s5, *final(self), dt as int)
                },

    {
        if self.conns.len() == 0 {
            proof {
                assert(outv(self.outbox@).take(outv(self.outbox@).len() as int) =~= outv(
                    self.outbox@,
                ));
            }
            return ;
        }
        let ghost o = *old(self);
        self.tick_projectiles(dt);
        let ghost s1 = *self;
        self.tick_drowning();
        let ghost s2 = *self;
        self.tick_cooldowns(dt);
        let ghost s3 = *self;
        self.tick_attacks(dt);
        let ghost s4 = *self;
        self.tick_restart(dt);
        let ghost s5 = *self;
        self.tick_sharks(dt);
        proof {
            assert(projectiles_phase(o, s1, dt as int) && drowning_phase(s1, s2)
                && cooldowns_phase(s2, s3, dt as int) && attacks_phase(s3, s4, dt as int)
                && countdown_phase(s4, s5, dt as int) && sharks_phase(s5, *self, dt as int));
            lemma_prefix_chain(
                outv(o.outbox@),
                outv(s1.outbox@),
                outv(s2.outbox@),
                outv(s3.outbox@),
                outv(s4.outbox@),
                outv(s5.outbox@),
                outv(self.outbox@),
            );
        }
    }
}

/// Chained outbox extensions keep the original as a prefix.
proof fn lemma_prefix_chain(
    a: Seq<(u64, MsgV)>,
    b: Seq<(u64, MsgV)>,
    c: Seq<(u64, MsgV)>,
    d: Seq<(u64, MsgV)>,
    e: Seq<(u64, MsgV)>,
    f: Seq<(u64, MsgV)>,
    g: Seq<(u64, MsgV)>,
)
    requires
        a.is_prefix_of(b) || exists|x: Seq<(u64, MsgV)>| b == #[trigger] (a + x),
        b.is_prefix_of(c) || exists|x: Seq<(u64, MsgV)>| c == #[trigger] (b + x),
        c.is_prefix_of(d) || exists|x: Seq<(u64, MsgV)>| d == #[trigger] (c + x),
        d.is_prefix_of(e) || exists|x: Seq<(u64, MsgV)>| e == #[trigger] (d + x),
        e.is_prefix_of(f) || exists|x: Seq<(u64, MsgV)>| f == #[trigger] (e + x),
        f.is_prefix_of(g),
    ensures
        a.is_prefix_of(g),
{
    lemma_prefix_step(a, b);
    lemma_prefix_step(b, c);
    lemma_prefix_step(c, d);
    lemma_prefix_step(d, e);
    lemma_prefix_step(e, f);
    lemma_prefix_trans(a, b, c);
    lemma_prefix_trans(a, c, d);
    lemma_prefix_trans(a, d, e);
    lemma_prefix_trans(a, e, f);
    lemma_prefix_trans(a, f, g);
}

/// An extension by concatenation is a prefix relation.
proof fn lemma_prefix_step(a: Seq<(u64, MsgV)>, b: Seq<(u64, MsgV)>)
    requires
        a.is_prefix_of(b) || exists|x: Seq<(u64, MsgV)>| b == #[trigger] (a + x),
    ensures
        a.is_prefix_of(b),
{
    if !a.is_prefix_of(b) {
        let x = choose|x: Seq<(u64, MsgV)>| b == #[trigger] (a + x);
        assert(b.take(a.len() as int) =~= a);
    }
}

/// Prefix relations chain.
proof fn lemma_prefix_trans(a: Seq<(u64, MsgV)>, b: Seq<(u64, MsgV)>, c: Seq<(u64, MsgV)>)
    requires
        a.is_prefix_of(b),
        b.is_prefix_of(c),
    ensures
        a.is_prefix_of(c),
{
    assert(c.take(a.len() as int) =~= a) by {
        assert(b.take(a.len() as int) =~= a);
        assert(c.take(b.len() as int) =~= b);
        assert(forall|j: int| 0 <= j < a.len() ==> c[j] == b[j] && b[j] == a[j]);
    }
}

} // verus!
