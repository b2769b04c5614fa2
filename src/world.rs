use vstd::prelude::*;
use crate::geometry::{overlaps, overlap_spec, HalfExtents, Position, COORD_LIMIT};
use crate::store::{ColliderSide, Entity, EntityId, EntityStore, Kind, PlayerState, ProjectileKind, Slot};
use crate::timer::Timer;

verus! {

/// The player's x stays within this distance of the centre.
pub const PLAYER_X_BOUND: i64 = 300_000;

/// Projectile speed: thousandths of a unit per millisecond, that is units
/// per second.
pub const PROJECTILE_SPEED: i64 = 400;

/// The longest step, in milliseconds, that a projectile is moved in one tick.
pub const MAX_STEP_MS: u64 = 200;

/// A player projectile above this height, or an enemy projectile below its
/// negation, leaves the field.
pub const PROJECTILE_Y_BOUND: i64 = 400_000;

/// The commands held down during a tick.
#[derive(Clone, Copy, Debug, PartialEq, Eq, Structural)]
pub struct Input {
    pub left: bool,
    pub right: bool,
    pub fire: bool,
}

pub open spec fn direction(input: Input) -> int {
    (if input.right { 1int } else { 0int }) - (if input.left { 1int } else { 0int })
}

pub open spec fn clamp(v: int, lo: int, hi: int) -> int {
    if v < lo { lo } else if v > hi { hi } else { v }
}

/// The player's x after moving in direction `dir` at `speed` units per second
/// for `delta` milliseconds.
pub open spec fn player_x_spec(x: int, dir: int, speed: nat, delta: nat) -> int {
    clamp(x + dir * speed * delta, -PLAYER_X_BOUND as int, PLAYER_X_BOUND as int)
}

/// The player's x after one tick of movement; it always lies within the
/// player's bound, however long the tick.
pub fn player_x_after(x: i64, input: Input, speed: u32, delta: u64) -> (r: i64)
    ensures
        r == player_x_spec(x as int, direction(input), speed as nat, delta as nat),
        -PLAYER_X_BOUND <= r <= PLAYER_X_BOUND,
{
    proof {
        assert(speed as int * delta as int <= u32::MAX as int * u64::MAX as int) by (nonlinear_arith)
            requires
                speed as int <= u32::MAX as int,
                delta as int <= u64::MAX as int,
                0 <= speed,
                0 <= delta,
        ;
    }
    let step: i128 = speed as i128 * delta as i128;
    let mut nx: i128 = x as i128;
    if input.right {
        nx = nx + step;
    }
    if input.left {
        nx = nx - step;
    }
    assert(nx == x + direction(input) * speed * delta) by (nonlinear_arith)
        requires
            step == speed * delta,
            nx == x + (if input.right { step as int } else { 0int }) - (if input.left { step as int } else { 0int }),
            direction(input) == (if input.right { 1int } else { 0int }) - (if input.left { 1int } else { 0int }),
    ;
    if nx < -(PLAYER_X_BOUND as i128) {
        -PLAYER_X_BOUND
    } else if nx > PLAYER_X_BOUND as i128 {
        PLAYER_X_BOUND
    } else {
        nx as i64
    }
}

/// Whatever the input and however long the tick, the player's x ends up
/// within its bound.
pub proof fn lemma_player_stays_in_bounds(x: int, input: Input, speed: nat, delta: nat)
    ensures
        -PLAYER_X_BOUND <= player_x_spec(x, direction(input), speed, delta) <= PLAYER_X_BOUND,
{
}

pub open spec fn step_ms(delta: nat) -> int {
    if delta > MAX_STEP_MS { MAX_STEP_MS as int } else { delta as int }
}

pub open spec fn out_of_bounds(k: ProjectileKind, y: int) -> bool {
    match k {
        ProjectileKind::PlayerOwned => y > PROJECTILE_Y_BOUND,
        ProjectileKind::EnemyOwned => y < -PROJECTILE_Y_BOUND,
    }
}

/// An entity after the movement of one tick. Every projectile takes its
/// step, also one that has left the field: that one is queued for removal
/// at the end of the tick, by its position before the step.
pub open spec fn move_entity(e: Entity, input: Input, delta: nat) -> Entity {
    match e.kind {
        Kind::Player(ps) => Entity {
            pos: Position { x: player_x_spec(e.pos.x as int, direction(input), ps.speed as nat, delta) as i64, ..e.pos },
            ..e
        },
        Kind::Enemy => e,
        Kind::Projectile(k) => {
            let dy = PROJECTILE_SPEED * step_ms(delta);
            Entity {
                pos: Position {
                    y: (match k {
                        ProjectileKind::PlayerOwned => e.pos.y + dy,
                        ProjectileKind::EnemyOwned => e.pos.y - dy,
                    }) as i64,
                    ..e.pos
                },
                ..e
            }
        },
    }
}

/// Between ticks every entity lies within this distance of the centre on
/// both axes; within a tick a projectile may step beyond it.
pub const REST_LIMIT: i64 = 500_000_000_000;

pub open spec fn near(e: Entity) -> bool {
    -REST_LIMIT <= e.pos.x <= REST_LIMIT && -REST_LIMIT <= e.pos.y <= REST_LIMIT
}

pub open spec fn slots_near(slots: Seq<Slot>) -> bool {
    forall|i: int| 0 <= i < slots.len() && (#[trigger] slots[i]).entity.is_some() ==> near(slots[i].entity.unwrap())
}

/// The entity's player state after the cooldown of one tick.
pub open spec fn cool_entity(e: Entity, delta: nat) -> Entity {
    match e.kind {
        Kind::Player(ps) => Entity { kind: Kind::Player(cooldown_spec(ps, delta)), ..e },
        _ => e,
    }
}

/// The cooldown advances by `delta`; once it has finished while a shot is
/// pending, the player may fire again and the cooldown starts over.
pub open spec fn cooldown_spec(ps: PlayerState, delta: nat) -> PlayerState {
    let t = ps.cooldown.tick_spec(delta);
    if t.finished_spec() && ps.is_armed {
        PlayerState { is_armed: false, cooldown: Timer { elapsed: 0, crossed: false, ..t }, ..ps }
    } else {
        PlayerState { cooldown: t, ..ps }
    }
}

pub open spec fn map_slot(s: Slot, f: spec_fn(Entity) -> Entity) -> Slot {
    match s.entity {
        Some(e) => Slot { entity: Some(f(e)), ..s },
        None => s,
    }
}

pub open spec fn cooled(slots: Seq<Slot>, delta: nat) -> Seq<Slot> {
    Seq::new(slots.len(), |i: int| map_slot(slots[i], |e: Entity| cool_entity(e, delta)))
}

pub open spec fn moved(slots: Seq<Slot>, input: Input, delta: nat) -> Seq<Slot> {
    Seq::new(slots.len(), |i: int| map_slot(slots[i], |e: Entity| move_entity(e, input, delta)))
}

pub open spec fn leaves_field(s: Slot) -> bool {
    match s.entity {
        Some(e) => match e.kind {
            Kind::Projectile(k) => out_of_bounds(k, e.pos.y as int),
            _ => false,
        },
        None => false,
    }
}

/// The ids of the projectiles among the first `n` slots that have left the
/// field, in slot order.
pub open spec fn departed_ids(slots: Seq<Slot>, n: int) -> Seq<EntityId>
    decreases n,
{
    if n <= 0 {
        Seq::empty()
    } else {
        let rest = departed_ids(slots, n - 1);
        if leaves_field(slots[n - 1]) {
            rest.push(EntityStore::id_at(slots, n - 1))
        } else {
            rest
        }
    }
}

pub open spec fn entity_ok(e: Entity) -> bool {
    &&& e.pos.in_field()
    &&& e.half.wf()
    &&& match e.kind {
        Kind::Player(ps) => ps.cooldown.wf(),
        _ => true,
    }
}

pub open spec fn slots_ok(slots: Seq<Slot>) -> bool {
    forall|i: int|
        0 <= i < slots.len() && (#[trigger] slots[i]).entity.is_some() ==> entity_ok(slots[i].entity.unwrap())
}

/// The half-extents of every projectile.
pub open spec fn projectile_half() -> HalfExtents {
    HalfExtents { w: 1500, h: 2500 }
}

pub open spec fn projectile_at(k: ProjectileKind, pos: Position) -> Entity {
    Entity { pos, half: projectile_half(), kind: Kind::Projectile(k) }
}

/// Whether an enemy whose random sample this tick is `sample` fires.
pub open spec fn enemy_fires(sample: u32, one_in: u32) -> bool {
    one_in > 0 && sample % one_in == 0
}

/// What the entity of slot `s` fires this tick, given its random sample.
pub open spec fn shot_of(s: Slot, fire: bool, sample: u32, one_in: u32) -> Seq<Entity> {
    match s.entity {
        Some(e) => match e.kind {
            Kind::Player(ps) => if fire && !ps.is_armed {
                seq![projectile_at(ProjectileKind::PlayerOwned, e.pos)]
            } else {
                Seq::empty()
            },
            Kind::Enemy => if enemy_fires(sample, one_in) {
                seq![projectile_at(ProjectileKind::EnemyOwned, e.pos)]
            } else {
                Seq::empty()
            },
            _ => Seq::empty(),
        },
        None => Seq::empty(),
    }
}

/// The projectiles that the first `n` slots fire, in slot order.
pub open spec fn shots(slots: Seq<Slot>, fire: bool, samples: Seq<u32>, one_in: u32, n: int) -> Seq<Entity>
    decreases n,
{
    if n <= 0 {
        Seq::empty()
    } else {
        shots(slots, fire, samples, one_in, n - 1) + shot_of(slots[n - 1], fire, samples[n - 1], one_in)
    }
}

/// A player that fires arms its cooldown, which starts from zero.
pub open spec fn arm_entity(e: Entity, fire: bool) -> Entity {
    match e.kind {
        Kind::Player(ps) => if fire && !ps.is_armed {
            Entity {
                kind: Kind::Player(PlayerState {
                    is_armed: true,
                    cooldown: Timer { elapsed: 0, crossed: false, ..ps.cooldown },
                    ..ps
                }),
                ..e
            }
        } else {
            e
        },
        _ => e,
    }
}

pub open spec fn armed(slots: Seq<Slot>, fire: bool) -> Seq<Slot> {
    Seq::new(slots.len(), |i: int| map_slot(slots[i], |e: Entity| arm_entity(e, fire)))
}

/// The slots after each of `es` is created in turn.
pub open spec fn created_all(slots: Seq<Slot>, es: Seq<Entity>) -> Seq<Slot>
    decreases es.len(),
{
    if es.len() == 0 {
        slots
    } else {
        EntityStore::create_slots(created_all(slots, es.drop_last()), es.last())
    }
}

pub open spec fn spawned(slots: Seq<Slot>, fire: bool, samples: Seq<u32>, one_in: u32) -> Seq<Slot> {
    created_all(armed(slots, fire), shots(slots, fire, samples, one_in, slots.len() as int))
}

/// Whether a projectile of kind `k` can hit an entity of side `side`: each
/// side's projectiles only hit the other side.
pub open spec fn targets(k: ProjectileKind, side: ColliderSide) -> bool {
    ||| k == ProjectileKind::PlayerOwned && side == ColliderSide::Enemy
    ||| k == ProjectileKind::EnemyOwned && side == ColliderSide::Player
}

/// Whether the projectile `p` strikes the entity `c`.
pub open spec fn strikes(p: Entity, c: Entity) -> bool {
    match p.kind {
        Kind::Projectile(k) => match c.kind.side() {
            Some(side) => targets(k, side) && overlap_spec(p.pos, p.half, c.pos, c.half),
            None => false,
        },
        _ => false,
    }
}

pub open spec fn hits(slots: Seq<Slot>, i: int, j: int) -> bool {
    &&& slots[i].entity.is_some()
    &&& slots[j].entity.is_some()
    &&& strikes(slots[i].entity.unwrap(), slots[j].entity.unwrap())
}

/// The first slot from `j` on whose entity the projectile of slot `i` hits.
pub open spec fn first_hit(slots: Seq<Slot>, i: int, j: int) -> Option<int>
    decreases slots.len() - j,
{
    if j >= slots.len() || j < 0 {
        None
    } else if hits(slots, i, j) {
        Some(j)
    } else {
        first_hit(slots, i, j + 1)
    }
}

/// For each of the first `n` slots in turn whose projectile hits something,
/// its id followed by the id of the first entity it hits.
pub open spec fn collision_ids(slots: Seq<Slot>, n: int) -> Seq<EntityId>
    decreases n,
{
    if n <= 0 {
        Seq::empty()
    } else {
        let rest = collision_ids(slots, n - 1);
        match first_hit(slots, n - 1, 0) {
            Some(j) => rest + seq![EntityStore::id_at(slots, n - 1), EntityStore::id_at(slots, j)],
            None => rest,
        }
    }
}

/// The slots after each id of `q` is destroyed in turn.
pub open spec fn resolve(slots: Seq<Slot>, q: Seq<EntityId>) -> Seq<Slot>
    decreases q.len(),
{
    if q.len() == 0 {
        slots
    } else {
        EntityStore::destroy_slots(resolve(slots, q.drop_last()), q.last())
    }
}

/// The slots after one whole tick: cooldown, movement, firing, collisions,
/// and the removal of what left the field or was hit.
pub open spec fn tick_spec(slots: Seq<Slot>, input: Input, delta: nat, samples: Seq<u32>, one_in: u32) -> Seq<Slot> {
    let s1 = cooled(slots, delta);
    let s2 = moved(s1, input, delta);
    let s4 = spawned(s2, input.fire, samples, one_in);
    resolve(s4, departed_ids(s1, s1.len() as int) + collision_ids(s4, s4.len() as int))
}

/// An empty slot hits nothing.
pub proof fn lemma_no_hit_from_empty(slots: Seq<Slot>, i: int, j: int)
    requires
        0 <= i < slots.len(),
        slots[i].entity.is_none(),
    ensures
        first_hit(slots, i, j) is None,
    decreases slots.len() - j,
{
    if 0 <= j < slots.len() {
        lemma_no_hit_from_empty(slots, i, j + 1);
    }
}

/// Removal only empties slots: a slot that still holds an entity holds what
/// it held before.
pub proof fn lemma_resolve_only_clears(s: Seq<Slot>, q: Seq<EntityId>)
    ensures
        resolve(s, q).len() == s.len(),
        forall|i: int|
            0 <= i < s.len() && (#[trigger] resolve(s, q)[i]).entity.is_some() ==> resolve(s, q)[i] == s[i],
    decreases q.len(),
{
    if q.len() > 0 {
        lemma_resolve_only_clears(s, q.drop_last());
    }
}

/// An entity live before removal whose id was queued is gone afterwards.
pub proof fn lemma_resolve_clears_queued(s: Seq<Slot>, q: Seq<EntityId>, id: EntityId)
    requires
        q.contains(id),
        EntityStore::live_at(s, id),
    ensures
        resolve(s, q)[id.index as int].entity is None,
    decreases q.len(),
{
    let r = resolve(s, q.drop_last());
    lemma_resolve_only_clears(s, q.drop_last());
    if q.last() == id {
        if r[id.index as int].entity.is_some() {
            assert(r[id.index as int] == s[id.index as int]);
        }
    } else {
        let k = choose|k: int| 0 <= k < q.len() && #[trigger] q[k] == id;
        assert(q.drop_last()[k] == id);
        lemma_resolve_clears_queued(s, q.drop_last(), id);
    }
}

/// Creation fills only empty slots or new ones, each with one of `es`.
pub proof fn lemma_created_only_fills(s: Seq<Slot>, es: Seq<Entity>)
    ensures
        s.len() <= created_all(s, es).len(),
        forall|i: int|
            0 <= i < s.len() && (#[trigger] s[i]).entity.is_some() ==> created_all(s, es)[i] == s[i],
        forall|i: int|
            0 <= i < created_all(s, es).len() && (#[trigger] created_all(s, es)[i]).entity.is_some() ==> (i < s.len()
                && created_all(s, es)[i] == s[i]) || es.contains(created_all(s, es)[i].entity.unwrap()),
    decreases es.len(),
{
    if es.len() > 0 {
        let prev = created_all(s, es.drop_last());
        lemma_created_only_fills(s, es.drop_last());
        let t = EntityStore::create_slots(prev, es.last());
        let f = EntityStore::first_free(prev, 0);
        EntityStore::lemma_first_free_range(prev, 0);
        assert forall|i: int| 0 <= i < s.len() && (#[trigger] s[i]).entity.is_some() implies t[i] == s[i] by {
            assert(prev[i] == s[i]);
        }
        assert forall|i: int|
            0 <= i < t.len() && (#[trigger] t[i]).entity.is_some() implies (i < s.len() && t[i] == s[i])
                || es.contains(t[i].entity.unwrap()) by {
            if (f < prev.len() && i == f) || i >= prev.len() {
                assert(es[es.len() - 1] == es.last());
            } else {
                assert(t[i] == prev[i]);
                if !(i < s.len() && prev[i] == s[i]) {
                    let k = choose|k: int| 0 <= k < es.drop_last().len() && #[trigger] es.drop_last()[k] == prev[i].entity.unwrap();
                    assert(es[k] == es.drop_last()[k]);
                }
            }
        }
    }
}

/// Every projectile fired stands where a player or an enemy of `slots` stands.
pub proof fn lemma_shots_from_shooters(slots: Seq<Slot>, fire: bool, samples: Seq<u32>, one_in: u32, n: int)
    requires
        0 <= n <= slots.len(),
        forall|i: int|
            0 <= i < slots.len() && (#[trigger] slots[i]).entity.is_some() && !(slots[i].entity.unwrap().kind is Projectile)
                ==> near(slots[i].entity.unwrap()),
    ensures
        forall|k: int|
            0 <= k < shots(slots, fire, samples, one_in, n).len() ==> near(
                #[trigger] shots(slots, fire, samples, one_in, n)[k],
            ),
    decreases n,
{
    if n > 0 {
        lemma_shots_from_shooters(slots, fire, samples, one_in, n - 1);
        let rest = shots(slots, fire, samples, one_in, n - 1);
        let all = shots(slots, fire, samples, one_in, n);
        assert forall|k: int| 0 <= k < all.len() implies near(#[trigger] all[k]) by {
            if k < rest.len() {
                assert(all[k] == rest[k]);
            } else {
                assert(slots[n - 1].entity.is_some());
            }
        }
    }
}

/// A slot whose projectile left the field has its id among `departed_ids`.
pub proof fn lemma_departed_listed(slots: Seq<Slot>, n: int, i: int)
    requires
        0 <= i < n <= slots.len(),
        leaves_field(slots[i]),
    ensures
        departed_ids(slots, n).contains(EntityStore::id_at(slots, i)),
    decreases n,
{
    let id = EntityStore::id_at(slots, i);
    if i == n - 1 {
        assert(departed_ids(slots, n).last() == id);
    } else {
        lemma_departed_listed(slots, n - 1, i);
        let k = choose|k: int| 0 <= k < departed_ids(slots, n - 1).len() && #[trigger] departed_ids(slots, n - 1)[k] == id;
        assert(departed_ids(slots, n)[k] == id);
    }
}

/// A tick brings every entity back within the rest bound: a projectile that
/// stepped beyond it had left the field before the step, and was removed.
pub proof fn lemma_tick_stays_near(slots: Seq<Slot>, input: Input, delta: nat, samples: Seq<u32>, one_in: u32)
    requires
        slots_near(slots),
        slots.len() <= usize::MAX / 2,
        samples.len() == slots.len(),
    ensures
        slots_near(tick_spec(slots, input, delta, samples, one_in)),
{
    let s1 = cooled(slots, delta);
    let s2 = moved(s1, input, delta);
    let s3 = armed(s2, input.fire);
    let es = shots(s2, input.fire, samples, one_in, s2.len() as int);
    let s4 = created_all(s3, es);
    let q = departed_ids(s1, s1.len() as int) + collision_ids(s4, s4.len() as int);
    let fin = resolve(s4, q);
    assert forall|i: int|
        0 <= i < s2.len() && (#[trigger] s2[i]).entity.is_some() && !(s2[i].entity.unwrap().kind is Projectile)
            implies near(s2[i].entity.unwrap()) by {
        assert(s1[i].entity.is_some());
    }
    lemma_shots_from_shooters(s2, input.fire, samples, one_in, s2.len() as int);
    lemma_created_only_fills(s3, es);
    lemma_resolve_only_clears(s4, q);
    assert forall|i: int| 0 <= i < fin.len() && (#[trigger] fin[i]).entity.is_some() implies near(fin[i].entity.unwrap()) by {
        assert(fin[i] == s4[i]);
        if i < s3.len() && s4[i] == s3[i] {
            assert(s2[i].entity.is_some());
            assert(s1[i].entity.is_some());
            assert(slots[i].entity.is_some());
            if leaves_field(s1[i]) {
                lemma_departed_listed(s1, s1.len() as int, i);
                let id = EntityStore::id_at(s1, i);
                let k = choose|k: int| 0 <= k < departed_ids(s1, s1.len() as int).len()
                    && #[trigger] departed_ids(s1, s1.len() as int)[k] == id;
                assert(q[k] == id);
                assert(EntityStore::live_at(s4, id));
                lemma_resolve_clears_queued(s4, q, id);
            }
        } else {
            let k = choose|k: int| 0 <= k < es.len() && #[trigger] es[k] == s4[i].entity.unwrap();
        }
    }
}

/// One tick of movement for a single entity.
pub fn move_one(e: Entity, input: Input, delta: u64) -> (r: Entity)
    requires
        entity_ok(e),
        near(e),
    ensures
        r == move_entity(e, input, delta as nat),
        entity_ok(r),
{
    match e.kind {
        Kind::Player(ps) => {
            let x = player_x_after(e.pos.x, input, ps.speed, delta);
            Entity { pos: Position { x, y: e.pos.y }, half: e.half, kind: e.kind }
        },
        Kind::Enemy => e,
        Kind::Projectile(k) => {
            let step: i64 = if delta > MAX_STEP_MS { MAX_STEP_MS as i64 } else { delta as i64 };
            let dy: i64 = PROJECTILE_SPEED * step;
            match k {
                ProjectileKind::PlayerOwned => {
                    Entity { pos: Position { x: e.pos.x, y: e.pos.y + dy }, half: e.half, kind: e.kind }
                },
                ProjectileKind::EnemyOwned => {
                    Entity { pos: Position { x: e.pos.x, y: e.pos.y - dy }, half: e.half, kind: e.kind }
                },
            }
        },
    }
}

/// One tick of cooldown for a single entity.
pub fn cool_one(e: Entity, delta: u64) -> (r: Entity)
    requires
        entity_ok(e),
    ensures
        r == cool_entity(e, delta as nat),
        entity_ok(r),
{
    match e.kind {
        Kind::Player(ps) => {
            let mut t = ps.cooldown;
            t.tick(delta);
            let mut armed = ps.is_armed;
            if t.finished() && armed {
                armed = false;
                t.reset();
            }
            Entity {
                pos: e.pos,
                half: e.half,
                kind: Kind::Player(PlayerState { speed: ps.speed, is_armed: armed, cooldown: t }),
            }
        },
        _ => e,
    }
}

/// The projectile that `k`'s side fires from `pos`.
pub fn projectile(k: ProjectileKind, pos: Position) -> (r: Entity)
    ensures
        r == projectile_at(k, pos),
{
    Entity { pos, half: HalfExtents { w: 1500, h: 2500 }, kind: Kind::Projectile(k) }
}

/// Whether the projectile `p` strikes the entity `c`.
pub fn strike(p: &Entity, c: &Entity) -> (r: bool)
    requires
        entity_ok(*p),
        entity_ok(*c),
    ensures
        r == strikes(*p, *c),
{
    match p.kind {
        Kind::Projectile(k) => match c.kind.collider_side() {
            Some(side) => {
                let aimed = match k {
                    ProjectileKind::PlayerOwned => side == ColliderSide::Enemy,
                    ProjectileKind::EnemyOwned => side == ColliderSide::Player,
                };
                aimed && overlaps(p.pos, p.half, c.pos, c.half)
            },
            None => false,
        },
        _ => false,
    }
}

/// Relies on rand::random: one uniformly drawn `u32` from the thread's
/// generator. Nothing is promised of its value.
#[verifier::external_body]
fn random_sample() -> (r: u32) {
    rand::random::<u32>()
}

/// The reason a world cannot be set up.
#[derive(Clone, Copy, Debug, PartialEq, Eq, Structural)]
pub enum ConfigError {
    /// Enemy shots were asked one in zero times: not a probability.
    ZeroFireOdds,
}

pub const PLAYER_START_Y: i64 = -215_000;
pub const PLAYER_HALF: i64 = 10_000;
pub const PLAYER_SPEED: u32 = 500;
pub const COOLDOWN_MS: u64 = 400;
pub const ENEMY_ROWS: usize = 5;
pub const ENEMY_COLUMNS: usize = 12;
pub const ENEMY_HALF: i64 = 12_500;
/// The distance between the centres of neighbouring enemies.
pub const ENEMY_PITCH: i64 = 45_000;
pub const ENEMY_ORIGIN_X: i64 = -257_500;
pub const ENEMY_ORIGIN_Y: i64 = 100_000;

pub open spec fn initial_player() -> Entity {
    Entity {
        pos: Position { x: 0, y: PLAYER_START_Y },
        half: HalfExtents { w: PLAYER_HALF, h: PLAYER_HALF },
        kind: Kind::Player(PlayerState {
            speed: PLAYER_SPEED,
            is_armed: true,
            cooldown: Timer { duration: COOLDOWN_MS, elapsed: 0, repeating: false, crossed: false },
        }),
    }
}

/// The enemy in row `row` and column `col` of the starting grid.
pub open spec fn initial_enemy(row: int, col: int) -> Entity {
    Entity {
        pos: Position {
            x: (ENEMY_ORIGIN_X + col * ENEMY_PITCH) as i64,
            y: (ENEMY_ORIGIN_Y + row * ENEMY_PITCH) as i64,
        },
        half: HalfExtents { w: ENEMY_HALF, h: ENEMY_HALF },
        kind: Kind::Enemy,
    }
}

/// The starting layout: the player in the first slot, then the enemies row
/// by row.
pub open spec fn initial_slots() -> Seq<Slot> {
    Seq::new(
        (1 + ENEMY_ROWS * ENEMY_COLUMNS) as nat,
        |i: int|
            Slot {
                generation: 0,
                entity: Some(
                    if i == 0 {
                        initial_player()
                    } else {
                        initial_enemy((i - 1) / ENEMY_COLUMNS as int, (i - 1) % ENEMY_COLUMNS as int)
                    },
                ),
            },
    )
}

/// The simulation: its entities, the ids whose removal is pending for the
/// current tick, and the odds of an enemy shot (one in `enemy_fire_one_in`
/// per enemy and tick).
pub struct World {
    pub store: EntityStore,
    pub despawn_queue: Vec<EntityId>,
    pub enemy_fire_one_in: u32,
}

impl World {
    pub open spec fn wf(&self) -> bool {
        &&& self.store.wf()
        &&& slots_ok(self.store.slots@)
        &&& self.enemy_fire_one_in > 0
    }

    pub open spec fn slots(&self) -> Seq<Slot> {
        self.store.slots@
    }

    /// Advances the player's cooldown and lets it fire again once finished.
    pub fn cooldown_system(&mut self, delta: u64)
        requires
            old(self).wf(),
        ensures
            final(self).wf(),
            final(self).slots() == cooled(old(self).slots(), delta as nat),
            final(self).despawn_queue == old(self).despawn_queue,
            final(self).enemy_fire_one_in == old(self).enemy_fire_one_in,
    {
        let n = self.store.slots.len();
        let mut i: usize = 0;
        while i < n
            invariant
                n == self.store.slots@.len(),
                n == old(self).store.slots@.len(),
                i <= n,
                self.wf(),
                self.despawn_queue == old(self).despawn_queue,
                self.enemy_fire_one_in == old(self).enemy_fire_one_in,
                forall|j: int| 0 <= j < i ==> self.store.slots@[j] == #[trigger] cooled(old(self).slots(), delta as nat)[j],
                forall|j: int| i <= j < n ==> self.store.slots@[j] == old(self).store.slots@[j],
            decreases n - i,
        {
            let s = self.store.slots[i];
            if let Some(e) = s.entity {
                let ne = cool_one(e, delta);
                self.store.slots.set(i, Slot { generation: s.generation, entity: Some(ne) });
            }
            i = i + 1;
        }
        assert(self.slots() =~= cooled(old(self).slots(), delta as nat));
    }

    /// Moves the player and the projectiles, and queues for removal the
    /// projectiles that have left the field.
    pub fn movement_system(&mut self, input: Input, delta: u64)
        requires
            old(self).wf(),
            slots_near(old(self).slots()),
        ensures
            final(self).wf(),
            final(self).slots() == moved(old(self).slots(), input, delta as nat),
            final(self).despawn_queue@ == old(self).despawn_queue@ + departed_ids(
                old(self).slots(),
                old(self).slots().len() as int,
            ),
            final(self).enemy_fire_one_in == old(self).enemy_fire_one_in,
    {
        let n = self.store.slots.len();
        let mut i: usize = 0;
        while i < n
            invariant
                slots_near(old(self).slots()),
                n == self.store.slots@.len(),
                n == old(self).store.slots@.len(),
                i <= n,
                self.wf(),
                self.despawn_queue@ == old(self).despawn_queue@ + departed_ids(old(self).slots(), i as int),
                self.enemy_fire_one_in == old(self).enemy_fire_one_in,
                forall|j: int|
                    0 <= j < i ==> self.store.slots@[j] == #[trigger] moved(old(self).slots(), input, delta as nat)[j],
                forall|j: int| i <= j < n ==> self.store.slots@[j] == old(self).store.slots@[j],
            decreases n - i,
        {
            let s = self.store.slots[i];
            if let Some(e) = s.entity {
                if let Kind::Projectile(k) = e.kind {
                    let gone = match k {
                        ProjectileKind::PlayerOwned => e.pos.y > PROJECTILE_Y_BOUND,
                        ProjectileKind::EnemyOwned => e.pos.y < -PROJECTILE_Y_BOUND,
                    };
                    if gone {
                        self.despawn_queue.push(EntityId { index: i, generation: s.generation });
                    }
                }
                let ne = move_one(e, input, delta);
                self.store.slots.set(i, Slot { generation: s.generation, entity: Some(ne) });
            }
            i = i + 1;
        }
        assert(self.slots() =~= moved(old(self).slots(), input, delta as nat));
    }

    /// Lets the player fire when asked and not cooling down, and each enemy
    /// whose sample (`samples[i]` for the enemy in slot `i`) says so. The new
    /// projectiles are created at once, at their shooters' positions.
    pub fn spawn_system(&mut self, fire: bool, samples: &Vec<u32>)
        requires
            old(self).wf(),
            samples@.len() == old(self).slots().len(),
            old(self).slots().len() <= usize::MAX / 2,
        ensures
            final(self).wf(),
            final(self).slots() == spawned(old(self).slots(), fire, samples@, old(self).enemy_fire_one_in),
            final(self).slots().len() <= 2 * old(self).slots().len(),
            final(self).despawn_queue == old(self).despawn_queue,
            final(self).enemy_fire_one_in == old(self).enemy_fire_one_in,
    {
        let n = self.store.slots.len();
        let one_in = self.enemy_fire_one_in;
        let mut pending: Vec<Entity> = Vec::new();
        let mut i: usize = 0;
        while i < n
            invariant
                n == self.store.slots@.len(),
                n == old(self).store.slots@.len(),
                n == samples@.len(),
                i <= n,
                self.wf(),
                one_in == self.enemy_fire_one_in,
                self.despawn_queue == old(self).despawn_queue,
                self.enemy_fire_one_in == old(self).enemy_fire_one_in,
                pending@ == shots(old(self).slots(), fire, samples@, one_in, i as int),
                pending@.len() <= i,
                forall|j: int| 0 <= j < pending@.len() ==> entity_ok(#[trigger] pending@[j]),
                forall|j: int| 0 <= j < i ==> self.store.slots@[j] == #[trigger] armed(old(self).slots(), fire)[j],
                forall|j: int| i <= j < n ==> self.store.slots@[j] == old(self).store.slots@[j],
            decreases n - i,
        {
            let s = self.store.slots[i];
            let ghost before = pending@;
            if let Some(e) = s.entity {
                match e.kind {
                    Kind::Player(ps) => {
                        if fire && !ps.is_armed {
                            pending.push(projectile(ProjectileKind::PlayerOwned, e.pos));
                            let mut t = ps.cooldown;
                            t.reset();
                            let ne = Entity {
                                pos: e.pos,
                                half: e.half,
                                kind: Kind::Player(PlayerState { speed: ps.speed, is_armed: true, cooldown: t }),
                            };
                            self.store.slots.set(i, Slot { generation: s.generation, entity: Some(ne) });
                        }
                    },
                    Kind::Enemy => {
                        if samples[i] % one_in == 0 {
                            pending.push(projectile(ProjectileKind::EnemyOwned, e.pos));
                        }
                    },
                    _ => {},
                }
            }
            assert(pending@ =~= before + shot_of(old(self).slots()[i as int], fire, samples@[i as int], one_in));
            i = i + 1;
        }
        assert(self.slots() =~= armed(old(self).slots(), fire));
        let ghost base = self.slots();
        let mut k: usize = 0;
        while k < pending.len()
            invariant
                k <= pending@.len(),
                pending@.len() <= n,
                n == old(self).store.slots@.len(),
                n <= usize::MAX / 2,
                base.len() == n,
                self.wf(),
                self.slots() == created_all(base, pending@.take(k as int)),
                self.slots().len() <= n + k,
                self.despawn_queue == old(self).despawn_queue,
                self.enemy_fire_one_in == old(self).enemy_fire_one_in,
                forall|j: int| 0 <= j < pending@.len() ==> entity_ok(#[trigger] pending@[j]),
            decreases pending@.len() - k,
        {
            let ghost prev = self.slots();
            let e = pending[k];
            let id = self.store.create(e);
            proof {
                assert(pending@.take(k + 1).drop_last() =~= pending@.take(k as int));
                assert forall|j: int|
                    0 <= j < self.slots().len() && (#[trigger] self.slots()[j]).entity.is_some()
                        implies entity_ok(self.slots()[j].entity.unwrap()) by {
                    let f = EntityStore::first_free(prev, 0);
                    EntityStore::lemma_first_free_range(prev, 0);
                    if f < prev.len() {
                        if j != f {
                            assert(self.slots()[j] == prev[j]);
                        }
                    } else if j < prev.len() {
                        assert(self.slots()[j] == prev[j]);
                    }
                }
            }
            k = k + 1;
        }
        assert(pending@.take(pending@.len() as int) =~= pending@);
    }

    /// Queues each projectile that hits an entity of the other side, together
    /// with the first such entity in slot order.
    pub fn collision_system(&mut self)
        requires
            old(self).wf(),
        ensures
            final(self).wf(),
            final(self).slots() == old(self).slots(),
            final(self).despawn_queue@ == old(self).despawn_queue@ + collision_ids(
                old(self).slots(),
                old(self).slots().len() as int,
            ),
            final(self).enemy_fire_one_in == old(self).enemy_fire_one_in,
    {
        let n = self.store.slots.len();
        let ghost s = self.slots();
        let mut i: usize = 0;
        while i < n
            invariant
                n == s.len(),
                s == self.slots(),
                s == old(self).slots(),
                i <= n,
                self.wf(),
                self.despawn_queue@ == old(self).despawn_queue@ + collision_ids(s, i as int),
                self.enemy_fire_one_in == old(self).enemy_fire_one_in,
            decreases n - i,
        {
            let ghost before = self.despawn_queue@;
            let mut found: Option<usize> = None;
            if let Some(p) = self.store.slots[i].entity {
                let mut j: usize = 0;
                while j < n && found.is_none()
                    invariant
                        n == s.len(),
                        s == self.slots(),
                        i < n,
                        j <= n,
                        self.wf(),
                        s[i as int].entity == Some(p),
                        found.is_none() ==> first_hit(s, i as int, 0) == first_hit(s, i as int, j as int),
                        found.is_some() ==> first_hit(s, i as int, 0) == Some(found.unwrap() as int)
                            && found.unwrap() < n,
                    decreases n - j,
                {
                    if let Some(c) = self.store.slots[j].entity {
                        if strike(&p, &c) {
                            found = Some(j);
                        }
                    }
                    j = j + 1;
                }
            }
            proof {
                if s[i as int].entity.is_none() {
                    lemma_no_hit_from_empty(s, i as int, 0);
                }
            }
            if let Some(j) = found {
                self.despawn_queue.push(EntityId { index: i, generation: self.store.slots[i].generation });
                self.despawn_queue.push(EntityId { index: j, generation: self.store.slots[j].generation });
                assert(self.despawn_queue@ =~= before + seq![EntityStore::id_at(s, i as int), EntityStore::id_at(s, j as int)]);
            }
            i = i + 1;
        }
    }

    /// Destroys each entity whose removal was queued, once, and empties the
    /// queue. Ids that are no longer live are passed over.
    pub fn despawn_system(&mut self)
        requires
            old(self).wf(),
        ensures
            final(self).wf(),
            final(self).slots() == resolve(old(self).slots(), old(self).despawn_queue@),
            final(self).store.view() == old(self).store.view().remove_keys(old(self).despawn_queue@.to_set()),
            final(self).despawn_queue@.len() == 0,
            final(self).enemy_fire_one_in == old(self).enemy_fire_one_in,
    {
        let n = self.despawn_queue.len();
        let mut k: usize = 0;
        while k < n
            invariant
                n == self.despawn_queue@.len(),
                self.despawn_queue == old(self).despawn_queue,
                k <= n,
                self.wf(),
                self.slots() == resolve(old(self).slots(), self.despawn_queue@.take(k as int)),
                self.store.view() == old(self).store.view().remove_keys(self.despawn_queue@.take(k as int).to_set()),
                self.enemy_fire_one_in == old(self).enemy_fire_one_in,
            decreases n - k,
        {
            let ghost prev = self.slots();
            let ghost prev_view = self.store.view();
            let id = self.despawn_queue[k];
            self.store.destroy(id);
            proof {
                let q = self.despawn_queue@;
                assert(q.take(k + 1).drop_last() =~= q.take(k as int));
                assert(q.take(k + 1) =~= q.take(k as int).push(id));
                assert(q.take(k + 1).to_set() =~= q.take(k as int).to_set().insert(id)) by {
                    q.take(k as int).lemma_push_to_set_commute(id);
                }
                assert(self.store.view() =~= old(self).store.view().remove_keys(q.take(k + 1).to_set()));
                assert forall|j: int|
                    0 <= j < self.slots().len() && (#[trigger] self.slots()[j]).entity.is_some()
                        implies entity_ok(self.slots()[j].entity.unwrap()) by {
                    assert(self.slots()[j] == prev[j]);
                }
            }
            k = k + 1;
        }
        assert(self.despawn_queue@.take(n as int) =~= self.despawn_queue@);
        self.despawn_queue.clear();
    }

    /// A world in its starting layout, where each enemy fires with odds of
    /// one in `enemy_fire_one_in` per tick; odds of one in zero are refused.
    pub fn new(enemy_fire_one_in: u32) -> (r: Result<World, ConfigError>)
        ensures
            enemy_fire_one_in == 0 <==> r == Err::<World, ConfigError>(ConfigError::ZeroFireOdds),
            r matches Ok(w) ==> {
                &&& w.wf()
                &&& w.idle()
                &&& slots_near(w.slots())
                &&& w.enemy_fire_one_in == enemy_fire_one_in
                &&& w.slots() == initial_slots()
            },
    {
        if enemy_fire_one_in == 0 {
            return Err(ConfigError::ZeroFireOdds);
        }
        let mut slots: Vec<Slot> = Vec::new();
        let player = Entity {
            pos: Position { x: 0, y: PLAYER_START_Y },
            half: HalfExtents { w: PLAYER_HALF, h: PLAYER_HALF },
            kind: Kind::Player(PlayerState {
                speed: PLAYER_SPEED,
                is_armed: true,
                cooldown: Timer::from_millis(COOLDOWN_MS, false),
            }),
        };
        slots.push(Slot { generation: 0, entity: Some(player) });
        let mut row: usize = 0;
        while row < ENEMY_ROWS
            invariant
                row <= ENEMY_ROWS,
                slots@.len() == 1 + row * ENEMY_COLUMNS,
                forall|i: int| 0 <= i < slots@.len() ==> slots@[i] == #[trigger] initial_slots()[i],
            decreases ENEMY_ROWS - row,
        {
            let mut col: usize = 0;
            while col < ENEMY_COLUMNS
                invariant
                    row < ENEMY_ROWS,
                    col <= ENEMY_COLUMNS,
                    slots@.len() == 1 + row * ENEMY_COLUMNS + col,
                    forall|i: int| 0 <= i < slots@.len() ==> slots@[i] == #[trigger] initial_slots()[i],
                decreases ENEMY_COLUMNS - col,
            {
                let x: i64 = ENEMY_ORIGIN_X + col as i64 * ENEMY_PITCH;
                let y: i64 = ENEMY_ORIGIN_Y + row as i64 * ENEMY_PITCH;
                let e = Entity {
                    pos: Position { x, y },
                    half: HalfExtents { w: ENEMY_HALF, h: ENEMY_HALF },
                    kind: Kind::Enemy,
                };
                proof {
                    let i = 1 + row * ENEMY_COLUMNS + col;
                    assert((i - 1) / ENEMY_COLUMNS as int == row && (i - 1) % ENEMY_COLUMNS as int == col) by (nonlinear_arith)
                        requires
                            i == 1 + row * 12 + col,
                            0 <= col < 12,
                            0 <= row,
                    ;
                }
                slots.push(Slot { generation: 0, entity: Some(e) });
                col = col + 1;
            }
            row = row + 1;
        }
        let w = World { store: EntityStore { slots }, despawn_queue: Vec::new(), enemy_fire_one_in };
        assert(w.slots() =~= initial_slots());
        Ok(w)
    }

    /// Runs one tick of `delta` milliseconds with the given commands, drawing
    /// one random sample for each enemy.
    pub fn tick(&mut self, input: Input, delta: u64)
        requires
            old(self).wf(),
            old(self).idle(),
            slots_near(old(self).slots()),
            old(self).slots().len() <= usize::MAX / 2,
        ensures
            final(self).wf(),
            final(self).idle(),
            slots_near(final(self).slots()),
            final(self).enemy_fire_one_in == old(self).enemy_fire_one_in,
            exists|samples: Seq<u32>|
                samples.len() == old(self).slots().len() && final(self).slots() == tick_spec(
                    old(self).slots(),
                    input,
                    delta as nat,
                    samples,
                    old(self).enemy_fire_one_in,
                ),
    {
        let n = self.store.slots.len();
        let mut samples: Vec<u32> = Vec::new();
        let mut i: usize = 0;
        while i < n
            invariant
                n == self.store.slots@.len(),
                i <= n,
                samples@.len() == i,
            decreases n - i,
        {
            let sample: u32 = match self.store.slots[i].entity {
                Some(e) => match e.kind {
                    Kind::Enemy => random_sample(),
                    _ => 0,
                },
                None => 0,
            };
            samples.push(sample);
            i = i + 1;
        }
        self.tick_with_samples(input, delta, &samples);
    }

    /// Whether no removal is pending: the state between ticks.
    pub open spec fn idle(&self) -> bool {
        self.despawn_queue@.len() == 0
    }

    /// Runs one tick of `delta` milliseconds with the given commands, where
    /// `samples[i]` is the random sample of the enemy in slot `i` (others are
    /// ignored).
    pub fn tick_with_samples(&mut self, input: Input, delta: u64, samples: &Vec<u32>)
        requires
            old(self).wf(),
            old(self).idle(),
            slots_near(old(self).slots()),
            samples@.len() == old(self).slots().len(),
            old(self).slots().len() <= usize::MAX / 2,
        ensures
            final(self).wf(),
            final(self).idle(),
            slots_near(final(self).slots()),
            final(self).enemy_fire_one_in == old(self).enemy_fire_one_in,
            final(self).slots() == tick_spec(
                old(self).slots(),
                input,
                delta as nat,
                samples@,
                old(self).enemy_fire_one_in,
            ),
    {
        self.cooldown_system(delta);
        self.movement_system(input, delta);
        self.spawn_system(input.fire, samples);
        self.collision_system();
        self.despawn_system();
        proof {
            lemma_tick_stays_near(old(self).slots(), input, delta as nat, samples@, old(self).enemy_fire_one_in);
        }
    }
}

} // verus!
