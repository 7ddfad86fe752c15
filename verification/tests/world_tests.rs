use dungeon::action::{ActionEntry, ActionKindV3, ActionQueue};
use dungeon::items::{Equipment, Inventory, ItemRegistry, ItemStack};
use dungeon::map::DungeonMap;
use dungeon::monsters::{monster_stats, MonsterKindId};
use dungeon::occupancy::OccupancyMap;
use dungeon::saves::MapMemory;
use dungeon::screens::ThrowPreview;
use dungeon::stats::{ActiveBuffs, Buffs, EventLog, PendingExp, PlayerClass, Skills, Stats, TurnManager};
use dungeon::tile::Tile;
use dungeon::view::{layered, map_view, Back, Fore, SeenMemory, Sighting, Sprite};
use dungeon::world::{Monster, World, PLAYER_ID};

fn open_map() -> DungeonMap {
    let mut m = DungeonMap::new();
    for y in 1..20 {
        for x in 1..30 {
            m.set(x, y, Tile::Floor);
        }
    }
    m
}

fn rat(id: u64, pos: (usize, usize)) -> Monster {
    Monster { id, kind: MonsterKindId::Rat, pos, stats: monster_stats(MonsterKindId::Rat, 1), last_seen: None, visible: Vec::new() }
}

fn world_with(monsters: Vec<Monster>) -> World {
    let mut w = World {
        map: open_map(),
        occ: OccupancyMap::new(),
        pos: (5, 5),
        visible: Vec::new(),
        stats: Stats::player(),
        inv: Inventory::new(36),
        equip: Equipment::new(),
        skills: Skills { list: Vec::new() },
        buffs: Buffs::new(),
        active: ActiveBuffs::new(),
        log: EventLog::new(),
        turns: TurnManager::new(),
        queue: ActionQueue::new(),
        pending: PendingExp { amount: 0 },
        monsters,
        ground: Vec::new(),
        floor: 1,
        stairs: (0, 0),
        class: PlayerClass::Warrior,
    };
    w.reoccupy();
    w.refresh_sight();
    w
}

fn empty_registry() -> ItemRegistry {
    ItemRegistry::from_defs(Vec::new())
}

#[test]
fn player_steps_onto_free_floor_only() {
    let mut w = world_with(vec![rat(1, (6, 5))]);
    w.move_actor(PLAYER_ID, 0, 1);
    assert_eq!(w.pos, (5, 6));
    w.reoccupy();
    // The rat stands diagonally up-right now, and the edge of the floor lies to the left of (1, 1).
    w.move_actor(PLAYER_ID, 1, -1);
    assert_eq!(w.pos, (5, 6));
    w.pos = (1, 1);
    w.reoccupy();
    w.move_actor(PLAYER_ID, -1, 0);
    assert_eq!(w.pos, (1, 1));
}

#[test]
fn entries_that_no_longer_hold() {
    let w = world_with(vec![rat(1, (6, 5))]);
    let blocked = ActionEntry { entity: PLAYER_ID, kind: ActionKindV3::Move { dx: 1, dy: 0 }, av_remaining: 10 };
    assert!(!w.still_valid(&blocked));
    let up = ActionEntry { entity: PLAYER_ID, kind: ActionKindV3::Move { dx: 0, dy: -1 }, av_remaining: 10 };
    assert!(w.still_valid(&up));
    assert!(w.still_valid(&ActionEntry { entity: PLAYER_ID, kind: ActionKindV3::Attack { target: 1 }, av_remaining: 0 }));
    assert!(!w.still_valid(&ActionEntry { entity: PLAYER_ID, kind: ActionKindV3::Attack { target: 7 }, av_remaining: 0 }));
    // The rat sees the player next to it, so its chase holds; a full-health rat does not flee.
    assert!(w.still_valid(&ActionEntry { entity: 1, kind: ActionKindV3::Chase, av_remaining: 5 }));
    assert!(!w.still_valid(&ActionEntry { entity: 1, kind: ActionKindV3::Flee, av_remaining: 5 }));
}

#[test]
fn a_rat_bites_the_player() {
    let reg = empty_registry();
    let mut w = world_with(vec![rat(1, (6, 5))]);
    w.chase_actor(&reg, 1);
    // Rat attack 4 against defense 4: at least 1.
    assert_eq!(w.stats.hp, 32);
    assert_eq!(w.log.messages.last().unwrap(), "老鼠 攻击了你，1伤");
}

#[test]
fn a_far_rat_closes_in() {
    let reg = empty_registry();
    let mut w = world_with(vec![rat(1, (9, 5))]);
    w.chase_actor(&reg, 1);
    let p = w.monsters[0].pos;
    assert_eq!(p.0, 8);
    assert!(p.1 >= 4 && p.1 <= 6);
    assert_eq!(w.stats.hp, 33);
}

#[test]
fn two_blows_kill_a_rat() {
    let reg = empty_registry();
    let mut w = world_with(vec![rat(1, (6, 5))]);
    w.stats.crit_rate_permille = 0;
    let mut rng = <rand::rngs::SmallRng as rand::SeedableRng>::seed_from_u64(9);
    w.attack_actor(&reg, PLAYER_ID, 1, &mut rng);
    assert_eq!(w.monsters[0].stats.hp, 4);
    assert_eq!(w.log.messages.last().unwrap(), "你斩击了老鼠，造成6点伤害");
    w.attack_actor(&reg, PLAYER_ID, 1, &mut rng);
    assert!(w.monsters.is_empty());
    assert_eq!(w.pending.amount, 6);
    assert_eq!(w.ground.len(), 1);
    assert_eq!(w.ground[0].0, 6);
    assert_eq!(w.ground[0].2.item_id, 10);
    let n = w.log.messages.len();
    assert_eq!(w.log.messages[n - 2], "你斩击击杀了老鼠！获得6经验");
    assert!(w.log.messages[n - 1].starts_with("老鼠掉落"));
    w.settle_exp();
    assert_eq!(w.pending.amount, 0);
    assert_eq!(w.stats.exp, 6);
}

#[test]
fn monsters_never_strike_as_players() {
    let reg = empty_registry();
    let mut w = world_with(vec![rat(1, (6, 5))]);
    let mut rng = <rand::rngs::SmallRng as rand::SeedableRng>::seed_from_u64(1);
    w.attack_actor(&reg, 1, PLAYER_ID, &mut rng);
    assert_eq!(w.stats.hp, 33);
    assert!(w.log.messages.is_empty());
}

#[test]
fn a_turn_runs_the_players_wait() {
    let reg = empty_registry();
    let mut w = world_with(vec![rat(1, (20, 15))]);
    w.queue.enqueue(PLAYER_ID, ActionKindV3::Wait, 300);
    let mut rng = <rand::rngs::SmallRng as rand::SeedableRng>::seed_from_u64(2);
    w.advance_until_player_acted(&reg, &mut rng);
    assert!(!w.queue.has_entity(PLAYER_ID));
    // The rat's wish joins the queue when the monsters decide.
    w.decide_monsters();
    assert!(w.queue.has_entity(1));
}

#[test]
fn a_called_off_move_is_logged() {
    let reg = empty_registry();
    let mut w = world_with(Vec::new());
    w.pos = (1, 1);
    w.reoccupy();
    w.queue.enqueue(PLAYER_ID, ActionKindV3::Move { dx: -1, dy: 0 }, 0);
    w.queue.enqueue(PLAYER_ID, ActionKindV3::Wait, 10);
    let mut rng = <rand::rngs::SmallRng as rand::SeedableRng>::seed_from_u64(2);
    let d = w.advance_action_queue(&reg, &mut rng);
    assert_eq!(d, 10);
    assert_eq!(w.pos, (1, 1));
    assert!(w.log.messages.iter().any(|m| m == "行动被取消"));
}

#[test]
fn layers_draw_the_player_last() {
    let s = |layer: u8, glyph: char| Sprite { x: 0, y: 0, glyph, color: (0, 0, 0), layer };
    let v = layered(vec![s(2, '@'), s(0, '>'), s(1, 'r'), s(0, '!'), s(1, 'g')]);
    let order: String = v.iter().map(|s| s.glyph).collect();
    assert_eq!(order, ">!rg@");
}

#[test]
fn the_map_view_layers_sprites_memory_and_cursor() {
    let map = open_map();
    let mut memory = MapMemory::new();
    let visible = vec![(5, 5), (6, 5)];
    memory.remember(&visible);
    memory.remember(&vec![(7, 5)]);
    let sprites = vec![Sprite { x: 6, y: 5, glyph: 'r', color: (1, 2, 3), layer: 1 }];
    let remembered = vec![Sighting { entity: 4, x: 7, y: 5, glyph: 'g', color: (0, 255, 0) }];
    let idle = ThrowPreview { active: false, cursor: (5, 5), path: Vec::new(), valid_target: false };
    let v = map_view(&map, &memory.explored, &visible, (5, 5), &sprites, &remembered, Some((5, 5)), &idle);
    assert_eq!(v.origin, (0, 0));
    assert_eq!(v.cells.len(), 800);
    let at = |x: usize, y: usize| v.cells[y * 40 + x];
    assert_eq!(at(5, 5).glyph, '.');
    assert!(matches!(at(5, 5).back, Back::Cursor));
    assert_eq!(at(6, 5).glyph, 'r');
    assert!(matches!(at(6, 5).fore, Fore::Sprite((1, 2, 3))));
    assert_eq!(at(7, 5).glyph, 'g');
    assert!(matches!(at(7, 5).fore, Fore::Remembered));
    assert_eq!(at(8, 5).glyph, ' ');
    assert!(matches!(at(8, 5).fore, Fore::Unseen));
    let aim = ThrowPreview { active: true, cursor: (7, 5), path: vec![(6, 5), (7, 5)], valid_target: true };
    let v = map_view(&map, &memory.explored, &visible, (70, 50), &sprites, &remembered, None, &aim);
    assert_eq!(v.origin, (40, 40));
    let v = map_view(&map, &memory.explored, &visible, (5, 5), &sprites, &remembered, None, &aim);
    assert_eq!(v.cells[5 * 40 + 6].glyph, '*');
    assert!(matches!(v.cells[5 * 40 + 7].fore, Fore::Trail(true)));
}

#[test]
fn seen_memory_keeps_the_living() {
    let sight = |entity: u64, x: usize| Sighting { entity, x, y: 1, glyph: 'r', color: (0, 0, 0) };
    let mut m = SeenMemory::new();
    m.update(&vec![sight(1, 1), sight(2, 2), sight(1, 3)], &vec![1, 2, 3]);
    assert_eq!(m.entries.len(), 2);
    let one = m.entries.iter().find(|s| s.entity == 1).unwrap();
    assert_eq!(one.x, 3);
    m.update(&vec![], &vec![1]);
    assert_eq!(m.entries.len(), 1);
    assert_eq!(m.entries[0].entity, 1);
}

#[test]
fn a_stack_on_the_ground_stays_put() {
    let mut w = world_with(Vec::new());
    w.ground.push((3, 3, ItemStack::new(10, 2)));
    w.move_actor(PLAYER_ID, 1, 0);
    assert_eq!(w.ground.len(), 1);
}

#[test]
fn chase_holds_only_while_the_player_is_in_view() {
    let mut w = world_with(vec![rat(1, (8, 5))]);
    let e = ActionEntry { entity: 1, kind: ActionKindV3::Chase, av_remaining: 0 };
    w.monsters[0].visible = vec![w.pos];
    w.monsters[0].last_seen = Some(w.pos);
    assert!(w.still_valid(&e));
    // Remembering where the player was is not enough.
    w.monsters[0].visible = Vec::new();
    assert!(!w.still_valid(&e));
}

#[test]
fn place_floor_keeps_monsters_off_spawn_stairs_walls_and_each_other() {
    let mut w = world_with(Vec::new());
    let spawn = (3, 3);
    let stairs = (10, 10);
    let candidates = vec![
        (MonsterKindId::Rat, 3, 3),
        (MonsterKindId::Goblin, 10, 10),
        (MonsterKindId::Rat, 0, 0),
        (MonsterKindId::Scorpion, 6, 6),
        (MonsterKindId::Rat, 6, 6),
        (MonsterKindId::Goblin, 7, 4),
    ];
    let placed = w.place_floor(open_map(), spawn, stairs, candidates, 2, Vec::new());
    assert_eq!(placed, 2);
    assert_eq!(w.monsters.len(), 2);
    assert_eq!((w.monsters[0].id, w.monsters[0].kind, w.monsters[0].pos), (1, MonsterKindId::Scorpion, (6, 6)));
    assert_eq!((w.monsters[1].id, w.monsters[1].kind, w.monsters[1].pos), (2, MonsterKindId::Goblin, (7, 4)));
    assert_eq!(w.monsters[1].stats.max_hp, monster_stats(MonsterKindId::Goblin, 2).max_hp);
    assert_eq!(w.pos, spawn);
    assert_eq!(w.stairs, stairs);
    assert_eq!(w.floor, 2);
    assert!(w.on_stairs() == false);
    assert_eq!(w.occ.occupant(3, 3), Some(PLAYER_ID));
    assert_eq!(w.occ.occupant(6, 6), Some(1));
}
