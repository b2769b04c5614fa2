use vstd::prelude::*;
use crate::timer::Timer;
use crate::store::{Entity, EntityId, EntityStore, Kind, ProjectileKind, Slot};
use crate::world::{
    arm_entity, armed, collision_ids, direction, initial_slots, lemma_resolve_only_clears, lemma_created_only_fills, PLAYER_HALF, cool_entity, cooled, created_all, departed_ids, first_hit, hits, leaves_field,
    move_entity, moved, resolve, shot_of, shots, spawned, tick_spec, Input, PLAYER_X_BOUND,
};

verus! {

/// After a movement step, every player stands within the horizontal bound,
/// whatever the commands and however long the tick.
pub proof fn lemma_moved_players_in_bounds(slots: Seq<Slot>, input: Input, delta: nat, i: int)
    requires
        0 <= i < slots.len(),
        moved(slots, input, delta)[i].entity matches Some(e) && e.kind is Player,
    ensures
        -PLAYER_X_BOUND <= moved(slots, input, delta)[i].entity.unwrap().pos.x <= PLAYER_X_BOUND,
{
}

/// Without a move command a player inside its bound stays where it is.
pub proof fn lemma_idle_player_stays(e: Entity, input: Input, delta: nat)
    requires
        !input.left,
        !input.right,
        e.kind is Player,
        -PLAYER_X_BOUND <= e.pos.x <= PLAYER_X_BOUND,
    ensures
        move_entity(e, input, delta).pos == e.pos,
{
    if let Kind::Player(ps) = e.kind {
        assert(direction(input) == 0);
        assert(0 * (ps.speed as nat) * delta == 0) by (nonlinear_arith);
    }
}

pub open spec fn cooldown_of(e: Entity) -> Timer {
    match e.kind {
        Kind::Player(ps) => ps.cooldown,
        _ => Timer { duration: 0, elapsed: 0, repeating: false, crossed: false },
    }
}

pub open spec fn total(ds: Seq<nat>) -> nat
    decreases ds.len(),
{
    if ds.len() == 0 {
        0
    } else {
        total(ds.drop_last()) + ds.last()
    }
}

/// An entity after one tick per entry of `ds`, each that many milliseconds
/// long, with the same commands held: cooldown, movement, then firing.
pub open spec fn ticks_of(e: Entity, input: Input, ds: Seq<nat>) -> Entity
    decreases ds.len(),
{
    if ds.len() == 0 {
        e
    } else {
        let d = ds.last();
        arm_entity(move_entity(cool_entity(ticks_of(e, input, ds.drop_last()), d), input, d), input.fire)
    }
}

/// Once a player has fired, its cooldown runs from zero, and for as long as
/// the ticks since then add up to less than the cooldown's duration it stays
/// armed and fires nothing, whatever the commands: two fire commands closer
/// together than the cooldown yield one projectile.
pub proof fn lemma_cooldown_blocks_fire(
    e: Entity,
    input: Input,
    ds: Seq<nat>,
    d: nat,
    generation: u64,
    sample: u32,
    one_in: u32,
)
    requires
        e.kind matches Kind::Player(ps) && !ps.is_armed && !ps.cooldown.repeating,
        total(ds) + d < cooldown_of(e).duration,
    ensures
        shot_of(Slot { generation, entity: Some(e) }, true, sample, one_in).len() == 1,
        ({
            let p = ticks_of(arm_entity(e, true), input, ds);
            &&& p.kind matches Kind::Player(q) && q.is_armed
            &&& cooldown_of(p) == (Timer { elapsed: total(ds) as u64, crossed: false, ..cooldown_of(e) })
            &&& shot_of(
                Slot { generation, entity: Some(move_entity(cool_entity(p, d), input, d)) },
                input.fire,
                sample,
                one_in,
            ).len() == 0
        }),
    decreases ds.len(),
{
    if ds.len() > 0 {
        lemma_cooldown_blocks_fire(e, input, ds.drop_last(), ds.last(), generation, sample, one_in);
    }
}

/// Asking twice in one tick for the removal of the same entity removes it
/// once: the store ends as if it had been asked once, and the id is not live.
pub proof fn lemma_duplicate_removal(slots: Seq<Slot>, q: Seq<EntityId>, id: EntityId)
    ensures
        resolve(slots, q.push(id).push(id)) == resolve(slots, q.push(id)),
        !EntityStore::live_at(resolve(slots, q.push(id)), id),
{
    assert(q.push(id).push(id).drop_last() =~= q.push(id));
    assert(q.push(id).drop_last() =~= q);
}

/// Whatever `first_hit` finds is a hit.
pub proof fn lemma_first_hit_hits(slots: Seq<Slot>, i: int, j: int)
    ensures
        first_hit(slots, i, j) matches Some(k) ==> j <= k < slots.len() && hits(slots, i, k),
    decreases slots.len() - j,
{
    if 0 <= j < slots.len() && !hits(slots, i, j) {
        lemma_first_hit_hits(slots, i, j + 1);
    }
}

/// A player's projectile only ever hits an enemy, never the player, even at
/// the same spot; an enemy's projectile only ever hits the player.
pub proof fn lemma_own_side_immunity(slots: Seq<Slot>, i: int)
    requires
        0 <= i < slots.len(),
    ensures
        slots[i].entity matches Some(p) && p.kind == Kind::Projectile(ProjectileKind::PlayerOwned)
            ==> (first_hit(slots, i, 0) matches Some(k) ==> slots[k].entity.unwrap().kind == Kind::Enemy),
        slots[i].entity matches Some(p) && p.kind == Kind::Projectile(ProjectileKind::EnemyOwned)
            ==> (first_hit(slots, i, 0) matches Some(k) ==> slots[k].entity.unwrap().kind is Player),
{
    lemma_first_hit_hits(slots, i, 0);
}

pub open spec fn is_enemy_slot(s: Seq<Slot>, i: int) -> bool {
    0 <= i < s.len() && (s[i].entity matches Some(e) && e.kind == Kind::Enemy)
}

/// The live enemies, by id.
pub open spec fn enemies(s: Seq<Slot>) -> Map<EntityId, Entity> {
    Map::new(
        |id: EntityId| EntityStore::live_at(s, id) && s[id.index as int].entity.unwrap().kind == Kind::Enemy,
        |id: EntityId| s[id.index as int].entity.unwrap(),
    )
}

/// No projectile of the player is in flight.
pub open spec fn no_player_shots(s: Seq<Slot>) -> bool {
    forall|i: int|
        0 <= i < s.len() && (#[trigger] s[i]).entity.is_some()
            ==> s[i].entity.unwrap().kind != Kind::Projectile(ProjectileKind::PlayerOwned)
}

/// `t` holds the same enemies as `s`, in the same slots, and no others.
pub open spec fn keeps_enemies(s: Seq<Slot>, t: Seq<Slot>) -> bool {
    &&& s.len() <= t.len()
    &&& forall|i: int| 0 <= i < t.len() ==> (#[trigger] is_enemy_slot(t, i) <==> is_enemy_slot(s, i))
    &&& forall|i: int| #[trigger] is_enemy_slot(s, i) ==> t[i] == s[i]
}

proof fn lemma_keeps_enemies_map(s: Seq<Slot>, t: Seq<Slot>)
    requires
        keeps_enemies(s, t),
    ensures
        enemies(s) == enemies(t),
{
    assert forall|id: EntityId| enemies(s).contains_key(id) <==> enemies(t).contains_key(id) by {
        let i = id.index as int;
        if enemies(s).contains_key(id) {
            assert(is_enemy_slot(s, i));
        }
        if enemies(t).contains_key(id) {
            assert(is_enemy_slot(t, i));
        }
    }
    assert forall|id: EntityId| #[trigger] enemies(s).contains_key(id) implies enemies(s)[id] == enemies(t)[id] by {
        assert(is_enemy_slot(s, id.index as int));
    }
    assert(enemies(s) =~= enemies(t));
}

proof fn lemma_keeps_enemies_trans(a: Seq<Slot>, b: Seq<Slot>, c: Seq<Slot>)
    requires
        keeps_enemies(a, b),
        keeps_enemies(b, c),
    ensures
        keeps_enemies(a, c),
{
    assert forall|i: int| 0 <= i < c.len() implies (#[trigger] is_enemy_slot(c, i) <==> is_enemy_slot(a, i)) by {
        if i < b.len() {
            assert(is_enemy_slot(b, i) <==> is_enemy_slot(a, i));
        } else {
            assert(!is_enemy_slot(a, i));
        }
    }
    assert forall|i: int| #[trigger] is_enemy_slot(a, i) implies c[i] == a[i] by {
        assert(is_enemy_slot(b, i));
    }
}

proof fn lemma_cooled_keeps(s: Seq<Slot>, delta: nat)
    ensures
        keeps_enemies(s, cooled(s, delta)),
        no_player_shots(s) ==> no_player_shots(cooled(s, delta)),
{
    let t = cooled(s, delta);
    assert forall|i: int| 0 <= i < t.len() implies (#[trigger] is_enemy_slot(t, i) <==> is_enemy_slot(s, i)) by {}
    assert forall|i: int| #[trigger] is_enemy_slot(s, i) implies t[i] == s[i] by {}
    if no_player_shots(s) {
        assert forall|i: int| 0 <= i < t.len() && (#[trigger] t[i]).entity.is_some()
            implies t[i].entity.unwrap().kind != Kind::Projectile(ProjectileKind::PlayerOwned) by {
            assert(s[i].entity.is_some());
        }
    }
}

proof fn lemma_moved_keeps(s: Seq<Slot>, input: Input, delta: nat)
    ensures
        keeps_enemies(s, moved(s, input, delta)),
        no_player_shots(s) ==> no_player_shots(moved(s, input, delta)),
        forall|i: int|
            0 <= i < s.len() && leaves_field(#[trigger] s[i]) ==> !is_enemy_slot(moved(s, input, delta), i)
                && moved(s, input, delta)[i].entity.is_some(),
{
    let t = moved(s, input, delta);
    assert forall|i: int| 0 <= i < t.len() implies (#[trigger] is_enemy_slot(t, i) <==> is_enemy_slot(s, i)) by {}
    assert forall|i: int| #[trigger] is_enemy_slot(s, i) implies t[i] == s[i] by {}
    if no_player_shots(s) {
        assert forall|i: int| 0 <= i < t.len() && (#[trigger] t[i]).entity.is_some()
            implies t[i].entity.unwrap().kind != Kind::Projectile(ProjectileKind::PlayerOwned) by {
            assert(s[i].entity.is_some());
        }
    }
}

/// Without a fire command no player projectile is created, at most one
/// projectile per enemy is, and the player's state is left as it was.
pub proof fn lemma_shots_without_fire(s: Seq<Slot>, samples: Seq<u32>, one_in: u32, n: int)
    requires
        0 <= n <= s.len(),
    ensures
        armed(s, false) == s,
        shots(s, false, samples, one_in, n).len() <= n,
        forall|k: int|
            0 <= k < shots(s, false, samples, one_in, n).len()
                ==> (#[trigger] shots(s, false, samples, one_in, n)[k]).kind == Kind::Projectile(ProjectileKind::EnemyOwned),
    decreases n,
{
    assert(armed(s, false) =~= s);
    if n > 0 {
        lemma_shots_without_fire(s, samples, one_in, n - 1);
    }
}

/// Creating projectiles of the enemies adds no enemy, removes none, and
/// leaves every occupied slot as it was.
proof fn lemma_created_keeps(s: Seq<Slot>, es: Seq<Entity>)
    requires
        forall|k: int| 0 <= k < es.len() ==> (#[trigger] es[k]).kind == Kind::Projectile(ProjectileKind::EnemyOwned),
    ensures
        created_all(s, es).len() <= s.len() + es.len(),
        keeps_enemies(s, created_all(s, es)),
        no_player_shots(s) ==> no_player_shots(created_all(s, es)),
        forall|i: int| 0 <= i < s.len() && (#[trigger] s[i]).entity.is_some() ==> created_all(s, es)[i] == s[i],
    decreases es.len(),
{
    if es.len() > 0 {
        let prev = created_all(s, es.drop_last());
        lemma_created_keeps(s, es.drop_last());
        let e = es.last();
        let t = EntityStore::create_slots(prev, e);
        let f = EntityStore::first_free(prev, 0);
        EntityStore::lemma_first_free_range(prev, 0);
        assert(keeps_enemies(prev, t)) by {
            assert forall|i: int| 0 <= i < t.len() implies (#[trigger] is_enemy_slot(t, i) <==> is_enemy_slot(prev, i)) by {
                if i != f && i < prev.len() {
                    assert(t[i] == prev[i]);
                }
            }
            assert forall|i: int| #[trigger] is_enemy_slot(prev, i) implies t[i] == prev[i] by {}
        }
        lemma_keeps_enemies_trans(s, prev, t);
        if no_player_shots(s) {
            assert forall|i: int| 0 <= i < t.len() && (#[trigger] t[i]).entity.is_some()
                implies t[i].entity.unwrap().kind != Kind::Projectile(ProjectileKind::PlayerOwned) by {
                if i != f && i < prev.len() {
                    assert(t[i] == prev[i]);
                }
            }
        }
        assert forall|i: int| 0 <= i < s.len() && (#[trigger] s[i]).entity.is_some() implies t[i] == s[i] by {
            assert(prev[i] == s[i]);
        }
    }
}

/// Each id that `departed_ids` gives is that of a slot that left the field.
proof fn lemma_departed_ids(s: Seq<Slot>, n: int)
    requires
        0 <= n <= s.len(),
        s.len() <= usize::MAX,
    ensures
        forall|k: int|
            0 <= k < departed_ids(s, n).len() ==> {
                let i = (#[trigger] departed_ids(s, n)[k]).index as int;
                0 <= i < s.len() && leaves_field(s[i])
            },
    decreases n,
{
    if n > 0 {
        lemma_departed_ids(s, n - 1);
        let rest = departed_ids(s, n - 1);
        let q = departed_ids(s, n);
        assert forall|k: int| 0 <= k < q.len() implies {
            let i = (#[trigger] q[k]).index as int;
            0 <= i < s.len() && leaves_field(s[i])
        } by {
            if k < rest.len() {
                assert(q[k] == rest[k]);
            }
        }
    }
}

/// While only enemies' projectiles fly, no collision names an enemy.
proof fn lemma_collision_ids_spare_enemies(s: Seq<Slot>, n: int)
    requires
        0 <= n <= s.len(),
        s.len() <= usize::MAX,
        no_player_shots(s),
    ensures
        forall|k: int|
            0 <= k < collision_ids(s, n).len() ==> !is_enemy_slot(s, (#[trigger] collision_ids(s, n)[k]).index as int),
    decreases n,
{
    if n > 0 {
        lemma_collision_ids_spare_enemies(s, n - 1);
        let i = n - 1;
        lemma_first_hit_hits(s, i, 0);
        let rest = collision_ids(s, n - 1);
        if let Some(j) = first_hit(s, i, 0) {
            assert(hits(s, i, j));
            assert(s[i].entity.is_some());
            let q = collision_ids(s, n);
            assert forall|k: int| 0 <= k < q.len() implies !is_enemy_slot(s, (#[trigger] q[k]).index as int) by {
                if k >= rest.len() {
                    assert(k == rest.len() || k == rest.len() + 1);
                }
                else {
                    assert(q[k] == rest[k]);
                }
            }
        }
    }
}

/// Each projectile that hits something is queued together with the first
/// entity it hits, so a hit always removes both.
pub proof fn lemma_hit_queues_both(s: Seq<Slot>, n: int, i: int, j: int)
    requires
        0 <= i < n <= s.len(),
        first_hit(s, i, 0) == Some(j),
    ensures
        collision_ids(s, n).contains(EntityStore::id_at(s, i)),
        collision_ids(s, n).contains(EntityStore::id_at(s, j)),
    decreases n,
{
    let q = collision_ids(s, n);
    if i == n - 1 {
        let r = collision_ids(s, n - 1);
        assert(q[r.len() as int] == EntityStore::id_at(s, i));
        assert(q[r.len() as int + 1] == EntityStore::id_at(s, j));
    } else {
        lemma_hit_queues_both(s, n - 1, i, j);
        let r = collision_ids(s, n - 1);
        assert forall|k: int| 0 <= k < r.len() implies q[k] == r[k] by {}
        let a = choose|k: int| 0 <= k < r.len() && #[trigger] r[k] == EntityStore::id_at(s, i);
        let b = choose|k: int| 0 <= k < r.len() && #[trigger] r[k] == EntityStore::id_at(s, j);
        assert(q[a] == r[a]);
        assert(q[b] == r[b]);
    }
}

/// Removing entities none of which is an enemy keeps every enemy.
proof fn lemma_resolve_keeps(s: Seq<Slot>, q: Seq<EntityId>)
    requires
        forall|k: int| 0 <= k < q.len() ==> !is_enemy_slot(s, (#[trigger] q[k]).index as int),
    ensures
        keeps_enemies(s, resolve(s, q)),
        no_player_shots(s) ==> no_player_shots(resolve(s, q)),
    decreases q.len(),
{
    if q.len() > 0 {
        let r = resolve(s, q.drop_last());
        lemma_resolve_keeps(s, q.drop_last());
        let id = q.last();
        assert(!is_enemy_slot(s, id.index as int));
        let t = EntityStore::destroy_slots(r, id);
        assert(keeps_enemies(r, t)) by {
            assert forall|i: int| 0 <= i < t.len() implies (#[trigger] is_enemy_slot(t, i) <==> is_enemy_slot(r, i)) by {
                if i != id.index {
                    assert(t[i] == r[i]);
                } else if i < r.len() {
                    assert(!is_enemy_slot(r, i));
                }
            }
            assert forall|i: int| #[trigger] is_enemy_slot(r, i) implies t[i] == r[i] by {
                if i == id.index {
                    assert(!is_enemy_slot(r, i));
                }
            }
        }
        lemma_keeps_enemies_trans(s, r, t);
        if no_player_shots(s) {
            assert forall|i: int| 0 <= i < t.len() && (#[trigger] t[i]).entity.is_some()
                implies t[i].entity.unwrap().kind != Kind::Projectile(ProjectileKind::PlayerOwned) by {
                if i != id.index {
                    assert(t[i] == r[i]);
                }
            }
        }
    }
}

/// How far from the centre line every enemy and enemy projectile stays in
/// the starting layout: the nearest column is this far off it.
pub open spec fn clear_of_centre(x: i64) -> bool {
    x <= -12_500 || x >= 12_500
}

/// The state of an idle game: the player on the centre line, every enemy and
/// every projectile (all of them the enemies') off it, so that no enemy
/// shot, falling straight down, can touch the player.
pub open spec fn calm(s: Seq<Slot>) -> bool {
    forall|i: int|
        0 <= i < s.len() && (#[trigger] s[i]).entity.is_some() ==> match s[i].entity.unwrap().kind {
            Kind::Player(_) => s[i].entity.unwrap().pos.x == 0 && s[i].entity.unwrap().half.w == PLAYER_HALF,
            Kind::Enemy => clear_of_centre(s[i].entity.unwrap().pos.x),
            Kind::Projectile(k) => k == ProjectileKind::EnemyOwned && s[i].entity.unwrap().half.w == 1500
                && clear_of_centre(s[i].entity.unwrap().pos.x),
        }
}

proof fn lemma_calm_shots(s: Seq<Slot>, samples: Seq<u32>, one_in: u32, n: int)
    requires
        0 <= n <= s.len(),
        calm(s),
    ensures
        forall|k: int|
            0 <= k < shots(s, false, samples, one_in, n).len() ==> {
                let e = #[trigger] shots(s, false, samples, one_in, n)[k];
                e.kind == Kind::Projectile(ProjectileKind::EnemyOwned) && e.half.w == 1500 && clear_of_centre(e.pos.x)
            },
    decreases n,
{
    if n > 0 {
        lemma_calm_shots(s, samples, one_in, n - 1);
        let rest = shots(s, false, samples, one_in, n - 1);
        let all = shots(s, false, samples, one_in, n);
        assert forall|k: int| 0 <= k < all.len() implies {
            let e = #[trigger] all[k];
            e.kind == Kind::Projectile(ProjectileKind::EnemyOwned) && e.half.w == 1500 && clear_of_centre(e.pos.x)
        } by {
            if k < rest.len() {
                assert(all[k] == rest[k]);
            } else {
                assert(s[n - 1].entity.is_some());
            }
        }
    }
}

proof fn lemma_calm_no_hits(s: Seq<Slot>, n: int)
    requires
        0 <= n <= s.len(),
        calm(s),
    ensures
        collision_ids(s, n).len() == 0,
    decreases n,
{
    if n > 0 {
        lemma_calm_no_hits(s, n - 1);
        lemma_first_hit_hits(s, n - 1, 0);
        if let Some(j) = first_hit(s, n - 1, 0) {
            assert(hits(s, n - 1, j));
            assert(s[n - 1].entity.is_some());
            assert(s[j].entity.is_some());
        }
    }
}

proof fn lemma_resolve_untouched(s: Seq<Slot>, q: Seq<EntityId>, i: int)
    requires
        0 <= i < s.len(),
        forall|k: int| 0 <= k < q.len() ==> (#[trigger] q[k]).index != i,
    ensures
        resolve(s, q)[i] == s[i],
    decreases q.len(),
{
    if q.len() > 0 {
        assert forall|k: int| 0 <= k < q.drop_last().len() implies (#[trigger] q.drop_last()[k]).index != i by {
            assert(q.drop_last()[k] == q[k]);
        }
        lemma_resolve_untouched(s, q.drop_last(), i);
        lemma_resolve_only_clears(s, q.drop_last());
    }
}

/// An idle tick keeps a calm game calm and every player alive where it
/// stood: enemy shots never reach the centre line, and no player shot
/// exists to hit anything. By induction, any number of idle ticks from the
/// starting layout leave the player alive and in place.
pub proof fn lemma_player_survives_idle_tick(
    slots: Seq<Slot>,
    input: Input,
    delta: nat,
    samples: Seq<u32>,
    one_in: u32,
    i: int,
)
    requires
        !input.left,
        !input.right,
        !input.fire,
        calm(slots),
        samples.len() == slots.len(),
        slots.len() <= usize::MAX / 2,
    ensures
        calm(tick_spec(slots, input, delta, samples, one_in)),
        0 <= i < slots.len() && (slots[i].entity matches Some(e) && e.kind is Player) ==> {
            let after = tick_spec(slots, input, delta, samples, one_in)[i];
            &&& after.entity matches Some(f) && f.kind is Player
            &&& after.entity.unwrap().pos == slots[i].entity.unwrap().pos
        },
{
    let s1 = cooled(slots, delta);
    let s2 = moved(s1, input, delta);
    let s3 = armed(s2, false);
    let es = shots(s2, false, samples, one_in, s2.len() as int);
    let s4 = created_all(s3, es);
    let q1 = departed_ids(s1, s1.len() as int);
    let q = q1 + collision_ids(s4, s4.len() as int);
    let fin = resolve(s4, q);
    assert forall|j: int| 0 <= j < s2.len() && (#[trigger] s2[j]).entity.is_some()
        implies s2[j].entity.unwrap().pos.x == slots[j].entity.unwrap().pos.x && s2[j].entity.unwrap().half
            == slots[j].entity.unwrap().half && (slots[j].entity.unwrap().kind is Player
            ==> s2[j].entity.unwrap().pos == slots[j].entity.unwrap().pos) by {
        assert(s1[j].entity.is_some());
        let e = s1[j].entity.unwrap();
        if let Kind::Player(ps) = e.kind {
            lemma_idle_player_stays(e, input, delta);
        }
    }
    assert(calm(s2)) by {
        assert forall|j: int| 0 <= j < s2.len() && (#[trigger] s2[j]).entity.is_some() implies match s2[j].entity.unwrap().kind {
            Kind::Player(_) => s2[j].entity.unwrap().pos.x == 0 && s2[j].entity.unwrap().half.w == PLAYER_HALF,
            Kind::Enemy => clear_of_centre(s2[j].entity.unwrap().pos.x),
            Kind::Projectile(k) => k == ProjectileKind::EnemyOwned && s2[j].entity.unwrap().half.w == 1500
                && clear_of_centre(s2[j].entity.unwrap().pos.x),
        } by {
            assert(s1[j].entity.is_some());
            assert(slots[j].entity.is_some());
        }
    }
    lemma_shots_without_fire(s2, samples, one_in, s2.len() as int);
    lemma_calm_shots(s2, samples, one_in, s2.len() as int);
    lemma_created_only_fills(s3, es);
    assert(calm(s4)) by {
        assert forall|j: int| 0 <= j < s4.len() && (#[trigger] s4[j]).entity.is_some() implies match s4[j].entity.unwrap().kind {
            Kind::Player(_) => s4[j].entity.unwrap().pos.x == 0 && s4[j].entity.unwrap().half.w == PLAYER_HALF,
            Kind::Enemy => clear_of_centre(s4[j].entity.unwrap().pos.x),
            Kind::Projectile(k) => k == ProjectileKind::EnemyOwned && s4[j].entity.unwrap().half.w == 1500
                && clear_of_centre(s4[j].entity.unwrap().pos.x),
        } by {
            if !(j < s3.len() && s4[j] == s3[j]) {
                let k = choose|k: int| 0 <= k < es.len() && #[trigger] es[k] == s4[j].entity.unwrap();
            }
        }
    }
    lemma_calm_no_hits(s4, s4.len() as int);
    assert(q =~= q1);
    lemma_resolve_only_clears(s4, q);
    assert(calm(fin)) by {
        assert forall|j: int| 0 <= j < fin.len() && (#[trigger] fin[j]).entity.is_some() implies match fin[j].entity.unwrap().kind {
            Kind::Player(_) => fin[j].entity.unwrap().pos.x == 0 && fin[j].entity.unwrap().half.w == PLAYER_HALF,
            Kind::Enemy => clear_of_centre(fin[j].entity.unwrap().pos.x),
            Kind::Projectile(k) => k == ProjectileKind::EnemyOwned && fin[j].entity.unwrap().half.w == 1500
                && clear_of_centre(fin[j].entity.unwrap().pos.x),
        } by {
            assert(fin[j] == s4[j]);
        }
    }
    if 0 <= i < slots.len() && (slots[i].entity matches Some(e) && e.kind is Player) {
        assert(s1[i].entity.is_some());
        assert(s2[i].entity.is_some());
        assert(s4[i] == s3[i]);
        lemma_departed_ids(s1, s1.len() as int);
        assert forall|k: int| 0 <= k < q.len() implies (#[trigger] q[k]).index != i by {
            assert(q[k] == q1[k]);
            let m = q1[k].index as int;
            assert(leaves_field(s1[m]));
        }
        lemma_resolve_untouched(s4, q, i);
    }
}

/// The starting layout is calm: the player stands on the centre line and no
/// enemy column does.
pub proof fn lemma_initial_calm()
    ensures
        calm(initial_slots()),
{
    let s = initial_slots();
    assert forall|i: int| 0 <= i < s.len() && (#[trigger] s[i]).entity.is_some() implies match s[i].entity.unwrap().kind {
        Kind::Player(_) => s[i].entity.unwrap().pos.x == 0 && s[i].entity.unwrap().half.w == PLAYER_HALF,
        Kind::Enemy => clear_of_centre(s[i].entity.unwrap().pos.x),
        Kind::Projectile(k) => k == ProjectileKind::EnemyOwned && s[i].entity.unwrap().half.w == 1500
            && clear_of_centre(s[i].entity.unwrap().pos.x),
    } by {
        if i > 0 {
            let c = (i - 1) % 12;
            assert(0 <= c < 12);
            assert(c == 0 || c == 1 || c == 2 || c == 3 || c == 4 || c == 5 || c == 6 || c == 7 || c == 8 || c == 9
                || c == 10 || c == 11);
        }
    }
}

/// With no fire command and no player projectile in flight, a tick keeps
/// every enemy where it was, with the same id, whatever the enemies fire:
/// their projectiles cannot remove enemies, so the number of enemies stays
/// the same, and still no player projectile flies.
pub proof fn lemma_enemies_survive_without_fire(
    slots: Seq<Slot>,
    input: Input,
    delta: nat,
    samples: Seq<u32>,
    one_in: u32,
)
    requires
        !input.fire,
        no_player_shots(slots),
        samples.len() == slots.len(),
        slots.len() <= usize::MAX / 2,
    ensures
        enemies(tick_spec(slots, input, delta, samples, one_in)) == enemies(slots),
        enemies(tick_spec(slots, input, delta, samples, one_in)).len() == enemies(slots).len(),
        no_player_shots(tick_spec(slots, input, delta, samples, one_in)),
{
    let s1 = cooled(slots, delta);
    let s2 = moved(s1, input, delta);
    let es = shots(s2, false, samples, one_in, s2.len() as int);
    let s4 = spawned(s2, false, samples, one_in);
    let q1 = departed_ids(s1, s1.len() as int);
    let q2 = collision_ids(s4, s4.len() as int);
    lemma_cooled_keeps(slots, delta);
    lemma_moved_keeps(s1, input, delta);
    lemma_keeps_enemies_trans(slots, s1, s2);
    lemma_shots_without_fire(s2, samples, one_in, s2.len() as int);
    lemma_created_keeps(s2, es);
    lemma_keeps_enemies_trans(slots, s2, s4);
    lemma_departed_ids(s1, s1.len() as int);
    lemma_collision_ids_spare_enemies(s4, s4.len() as int);
    let q = q1 + q2;
    assert forall|k: int| 0 <= k < q.len() implies !is_enemy_slot(s4, (#[trigger] q[k]).index as int) by {
        if k < q1.len() {
            assert(q[k] == q1[k]);
            let i = q1[k].index as int;
            assert(leaves_field(s1[i]));
            assert(s2[i].entity.is_some());
            assert(s4[i] == s2[i]);
        } else {
            assert(q[k] == q2[k - q1.len()]);
        }
    }
    lemma_resolve_keeps(s4, q);
    lemma_keeps_enemies_trans(slots, s4, resolve(s4, q));
    lemma_keeps_enemies_map(slots, resolve(s4, q));
}

} // verus!
