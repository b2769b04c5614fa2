use space_invaders::geometry::{overlaps, HalfExtents, Position};
use space_invaders::store::{ColliderSide, Entity, EntityId, EntityStore, Kind, PlayerState, ProjectileKind, Slot};
use space_invaders::timer::Timer;
use space_invaders::world::{
    cool_one, move_one, player_x_after, projectile, strike, ConfigError, Input, World,
};

const NO_INPUT: Input = Input { left: false, right: false, fire: false };
const FIRE: Input = Input { left: false, right: false, fire: true };

fn player_at(x: i64, y: i64, armed: bool) -> Entity {
    Entity {
        pos: Position { x, y },
        half: HalfExtents { w: 10_000, h: 10_000 },
        kind: Kind::Player(PlayerState { speed: 500, is_armed: armed, cooldown: Timer::from_millis(400, false) }),
    }
}

fn enemy_at(x: i64, y: i64) -> Entity {
    Entity { pos: Position { x, y }, half: HalfExtents { w: 12_500, h: 12_500 }, kind: Kind::Enemy }
}

fn world_of(entities: Vec<Entity>) -> World {
    let slots = entities.into_iter().map(|e| Slot { generation: 0, entity: Some(e) }).collect();
    World { store: EntityStore { slots }, despawn_queue: Vec::new(), enemy_fire_one_in: 10_000 }
}

fn count(w: &World, pred: fn(&Kind) -> bool) -> usize {
    w.store.slots.iter().filter(|s| s.entity.map_or(false, |e| pred(&e.kind))).count()
}

fn is_enemy(k: &Kind) -> bool {
    matches!(k, Kind::Enemy)
}

fn is_player_shot(k: &Kind) -> bool {
    matches!(k, Kind::Projectile(ProjectileKind::PlayerOwned))
}

fn is_enemy_shot(k: &Kind) -> bool {
    matches!(k, Kind::Projectile(ProjectileKind::EnemyOwned))
}

fn quiet_samples(w: &World) -> Vec<u32> {
    vec![1; w.store.slots.len()]
}

#[test]
fn timer_one_shot_clamps_and_resets() {
    let mut t = Timer::from_millis(400, false);
    t.tick(100);
    assert_eq!(t.elapsed, 100);
    assert!(!t.finished());
    t.tick(1_000);
    assert_eq!(t.elapsed, 400);
    assert!(t.finished());
    t.tick(50);
    assert_eq!(t.elapsed, 400);
    assert!(t.finished());
    t.reset();
    assert_eq!(t.elapsed, 0);
    assert!(!t.finished());
}

#[test]
fn timer_repeating_wraps_and_fires_on_the_crossing_tick_only() {
    let mut t = Timer::from_millis(400, true);
    t.tick(300);
    assert!(!t.finished());
    t.tick(250);
    assert_eq!(t.elapsed, 150);
    assert!(t.finished());
    t.tick(100);
    assert_eq!(t.elapsed, 250);
    assert!(!t.finished());
}

#[test]
fn player_is_clamped_to_the_field() {
    assert_eq!(player_x_after(0, Input { left: false, right: true, fire: false }, 500, 100), 50_000);
    assert_eq!(player_x_after(0, Input { left: true, right: false, fire: false }, 500, 100), -50_000);
    assert_eq!(player_x_after(10, Input { left: true, right: true, fire: false }, 500, 100), 10);
    assert_eq!(player_x_after(250_000, Input { left: false, right: true, fire: false }, 500, 1_000), 300_000);
    assert_eq!(player_x_after(0, Input { left: false, right: true, fire: false }, u32::MAX, u64::MAX), 300_000);
    assert_eq!(player_x_after(0, Input { left: true, right: false, fire: false }, u32::MAX, u64::MAX), -300_000);
}

#[test]
fn projectiles_move_at_fixed_speed_with_a_capped_step() {
    let up = move_one(projectile(ProjectileKind::PlayerOwned, Position { x: 5, y: 0 }), NO_INPUT, 100);
    assert_eq!(up.pos, Position { x: 5, y: 40_000 });
    let down = move_one(projectile(ProjectileKind::EnemyOwned, Position { x: 5, y: 0 }), NO_INPUT, 5_000);
    assert_eq!(down.pos, Position { x: 5, y: -80_000 });
    let gone = move_one(projectile(ProjectileKind::PlayerOwned, Position { x: 0, y: 401_000 }), NO_INPUT, 16);
    assert_eq!(gone.pos.y, 407_400);
    let gone = move_one(projectile(ProjectileKind::EnemyOwned, Position { x: 0, y: -401_000 }), NO_INPUT, 100);
    assert_eq!(gone.pos.y, -441_000);
    let enemy = move_one(enemy_at(3, 4), FIRE, 100);
    assert_eq!(enemy, enemy_at(3, 4));
}

#[test]
fn cooldown_releases_an_armed_player_once_finished() {
    let p = player_at(0, 0, true);
    let p1 = cool_one(p, 300);
    match p1.kind {
        Kind::Player(ps) => assert!(ps.is_armed),
        _ => panic!("not a player"),
    }
    let p2 = cool_one(p1, 100);
    match p2.kind {
        Kind::Player(ps) => {
            assert!(!ps.is_armed);
            assert_eq!(ps.cooldown.elapsed, 0);
        },
        _ => panic!("not a player"),
    }
}

#[test]
fn two_fire_commands_a_tenth_apart_make_one_projectile() {
    let mut w = world_of(vec![player_at(0, -215_000, false)]);
    let s = quiet_samples(&w);
    w.tick_with_samples(FIRE, 100, &s);
    assert_eq!(count(&w, is_player_shot), 1);
    let s = quiet_samples(&w);
    w.tick_with_samples(FIRE, 100, &s);
    assert_eq!(count(&w, is_player_shot), 1);
}

#[test]
fn player_fires_again_after_the_cooldown() {
    let mut w = world_of(vec![player_at(0, -215_000, false)]);
    let s = quiet_samples(&w);
    w.tick_with_samples(FIRE, 100, &s);
    for _ in 0..4 {
        let s = quiet_samples(&w);
        w.tick_with_samples(NO_INPUT, 100, &s);
    }
    let s = quiet_samples(&w);
    w.tick_with_samples(FIRE, 100, &s);
    assert_eq!(count(&w, is_player_shot), 2);
}

#[test]
fn overlapping_boxes_collide() {
    let p = Position { x: 0, y: 0 };
    let c = Position { x: 1_000, y: 1_000 };
    assert!(overlaps(p, HalfExtents { w: 1_500, h: 2_500 }, c, HalfExtents { w: 12_500, h: 12_500 }));
}

#[test]
fn player_shot_and_enemy_are_each_queued_once() {
    let mut w = world_of(vec![
        projectile(ProjectileKind::PlayerOwned, Position { x: 0, y: 0 }),
        enemy_at(1_000, 1_000),
    ]);
    w.collision_system();
    assert_eq!(
        w.despawn_queue,
        vec![EntityId { index: 0, generation: 0 }, EntityId { index: 1, generation: 0 }]
    );
    w.despawn_system();
    assert_eq!(w.store.len(), 0);
    assert!(w.despawn_queue.is_empty());
}

#[test]
fn a_projectile_removes_only_the_first_entity_it_hits() {
    let mut w = world_of(vec![
        projectile(ProjectileKind::PlayerOwned, Position { x: 0, y: 0 }),
        enemy_at(1_000, 1_000),
        enemy_at(-1_000, 1_000),
    ]);
    w.collision_system();
    w.despawn_system();
    assert_eq!(w.store.len(), 1);
    assert_eq!(count(&w, is_enemy), 1);
    assert_eq!(w.store.slots[2].entity, Some(enemy_at(-1_000, 1_000)));
}

#[test]
fn touching_edges_do_not_collide() {
    let h = HalfExtents { w: 1_500, h: 2_500 };
    let e = HalfExtents { w: 12_500, h: 12_500 };
    let o = Position { x: 0, y: 0 };
    assert!(!overlaps(o, h, Position { x: 14_000, y: 0 }, e));
    assert!(!overlaps(o, h, Position { x: -14_000, y: 0 }, e));
    assert!(!overlaps(o, h, Position { x: 0, y: 15_000 }, e));
    assert!(overlaps(o, h, Position { x: 13_999, y: 14_999 }, e));
}

#[test]
fn destroying_twice_is_a_silent_no_op() {
    let mut store = EntityStore::new();
    let id = store.create(enemy_at(0, 0));
    let other = store.create(enemy_at(50_000, 0));
    store.destroy(id);
    store.destroy(id);
    assert!(!store.is_live(id));
    assert!(store.is_live(other));
    assert_eq!(store.len(), 1);
    assert_eq!(store.get(id), None);
}

#[test]
fn duplicate_removal_requests_collapse() {
    let mut w = world_of(vec![enemy_at(0, 0), enemy_at(50_000, 0)]);
    let id = EntityId { index: 0, generation: 0 };
    w.despawn_queue.push(id);
    w.despawn_queue.push(id);
    w.despawn_system();
    assert!(!w.store.is_live(id));
    assert_eq!(w.store.len(), 1);
    assert_eq!(w.store.slots[0].generation, 1);
}

#[test]
fn a_destroyed_id_never_aliases_a_new_entity() {
    let mut store = EntityStore::new();
    let id = store.create(enemy_at(0, 0));
    store.destroy(id);
    let again = store.create(enemy_at(7, 7));
    assert_eq!(again.index, id.index);
    assert_ne!(again, id);
    assert!(!store.is_live(id));
    assert_eq!(store.get(again), Some(enemy_at(7, 7)));
}

#[test]
fn projectiles_off_screen_are_queued_for_removal() {
    let mut w = world_of(vec![
        projectile(ProjectileKind::PlayerOwned, Position { x: 0, y: 401_000 }),
        projectile(ProjectileKind::EnemyOwned, Position { x: 0, y: -401_000 }),
        projectile(ProjectileKind::PlayerOwned, Position { x: 0, y: 0 }),
    ]);
    w.movement_system(NO_INPUT, 16);
    assert_eq!(w.store.slots[0].entity.unwrap().pos.y, 407_400);
    assert_eq!(w.store.slots[1].entity.unwrap().pos.y, -407_400);
    assert_eq!(
        w.despawn_queue,
        vec![EntityId { index: 0, generation: 0 }, EntityId { index: 1, generation: 0 }]
    );
    w.despawn_system();
    assert_eq!(w.store.len(), 1);
    assert_eq!(w.store.slots[2].entity.unwrap().pos.y, 6_400);
}

#[test]
fn own_side_projectiles_do_not_collide() {
    let p = player_at(0, 0, true);
    let shot = projectile(ProjectileKind::PlayerOwned, Position { x: 0, y: 0 });
    assert!(!strike(&shot, &p));
    let enemy_shot = projectile(ProjectileKind::EnemyOwned, Position { x: 0, y: 0 });
    assert!(!strike(&enemy_shot, &enemy_at(0, 0)));
    assert!(strike(&enemy_shot, &p));
    let mut w = world_of(vec![p, shot]);
    w.collision_system();
    assert!(w.despawn_queue.is_empty());
}

#[test]
fn an_enemy_shot_removes_the_player() {
    let mut w = world_of(vec![
        player_at(0, -215_000, true),
        projectile(ProjectileKind::EnemyOwned, Position { x: 0, y: -210_000 }),
    ]);
    let s = quiet_samples(&w);
    w.tick_with_samples(NO_INPUT, 10, &s);
    assert_eq!(w.store.len(), 0);
}

#[test]
fn initial_layout_has_a_player_and_sixty_enemies() {
    let w = World::new(10_000).unwrap();
    assert_eq!(w.store.len(), 61);
    assert_eq!(count(&w, is_enemy), 60);
    assert_eq!(w.store.slots[0].entity, Some(player_at(0, -215_000, true)));
    assert_eq!(w.store.slots[1].entity.unwrap().pos, Position { x: -257_500, y: 100_000 });
    assert_eq!(w.store.slots[60].entity.unwrap().pos, Position { x: 237_500, y: 280_000 });
    assert_eq!(w.store.slots[0].entity.unwrap().kind.collider_side(), Some(ColliderSide::Player));
    assert_eq!(w.store.slots[1].entity.unwrap().kind.collider_side(), Some(ColliderSide::Enemy));
}

#[test]
fn zero_fire_odds_are_refused() {
    assert_eq!(World::new(0).err(), Some(ConfigError::ZeroFireOdds));
}

#[test]
fn enemies_survive_ticks_without_fire() {
    let mut w = World::new(10_000).unwrap();
    let player_pos = w.store.slots[0].entity.unwrap().pos;
    for t in 0..200u32 {
        let samples: Vec<u32> = (0..w.store.slots.len() as u32).map(|i| if (i + t) % 7 == 0 { 0 } else { 1 }).collect();
        w.tick_with_samples(NO_INPUT, 16, &samples);
        assert_eq!(count(&w, is_enemy), 60);
    }
    assert!(count(&w, is_enemy_shot) > 0);
    assert_eq!(w.store.slots[0].entity.unwrap().pos, player_pos);
}

#[test]
fn enemies_fire_when_their_sample_says_so() {
    let mut w = world_of(vec![enemy_at(0, 0), enemy_at(50_000, 0)]);
    w.enemy_fire_one_in = 3;
    w.spawn_system(false, &vec![6, 7]);
    assert_eq!(w.store.len(), 3);
    assert_eq!(w.store.slots[2].entity, Some(projectile(ProjectileKind::EnemyOwned, Position { x: 0, y: 0 })));
}

#[test]
fn random_ticks_keep_the_enemies_without_fire() {
    let mut w = World::new(10_000).unwrap();
    for _ in 0..100 {
        w.tick(NO_INPUT, 16);
    }
    assert_eq!(count(&w, is_enemy), 60);
}
