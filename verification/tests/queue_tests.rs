use dungeon::action::{agility_scaled, agility_to_reaction, ActionKindV3, ActionQueue, CanMove, CanWait};
use dungeon::bag::equip_from_bag;
use dungeon::items::{Equipment, EquipmentSlot, Inventory, ItemClass, ItemDef, ItemRegistry, Rarity, StatBonus};
use dungeon::map::DungeonMap;
use dungeon::monsters::{monster_stats, MonsterKindId};
use dungeon::occupancy::OccupancyMap;
use rand::rngs::SmallRng;
use rand::SeedableRng;
use dungeon::saves::MapMemory;
use dungeon::stats::{ActiveBuffs, Buff, BuffKind, BuffStackType, Buffs, EventLog, PendingExp, PlayerClass, Skills, Stats, TurnManager};
use dungeon::tile::{Tile, MAP_HEIGHT, MAP_WIDTH};
use dungeon::turns::{handle_player_direction, PlayerPreview};
use dungeon::world::{Monster, World, PLAYER_ID};

/// A cave floor: an open hall with a pillar.
fn cave() -> DungeonMap {
    let mut m = DungeonMap::new();
    for y in 2..12 {
        for x in 3..20 {
            m.set(x, y, Tile::Floor);
        }
    }
    m.set(8, 6, Tile::Wall);
    m
}

/// The first walkable cell, row by row.
fn first_walkable(map: &DungeonMap) -> (usize, usize) {
    for y in 0..MAP_HEIGHT {
        for x in 0..MAP_WIDTH {
            if map.get(x, y).walkable() {
                return (x, y);
            }
        }
    }
    panic!("地图无可行走格");
}

/// A walkable side neighbour of `(x, y)`.
fn walkable_neighbor(map: &DungeonMap, x: usize, y: usize) -> Option<(isize, isize)> {
    for &(dx, dy) in &[(0, -1isize), (0, 1), (-1, 0), (1, 0)] {
        let nx = x.wrapping_add_signed(dx);
        let ny = y.wrapping_add_signed(dy);
        if nx < MAP_WIDTH && ny < MAP_HEIGHT && map.get(nx, ny).walkable() {
            return Some((dx, dy));
        }
    }
    None
}

fn fresh_world() -> World {
    let map = cave();
    let pos = first_walkable(&map);
    let mut w = World {
        map,
        occ: OccupancyMap::new(),
        pos,
        visible: Vec::new(),
        stats: Stats::player(),
        inv: Inventory::new(36),
        equip: Equipment::new(),
        skills: Skills { list: Vec::new() },
        buffs: Buffs::new(),
        active: ActiveBuffs::new(),
        log: EventLog::new(),
        turns: TurnManager::new(),
        queue: ActionQueue::new(),
        pending: PendingExp { amount: 0 },
        monsters: Vec::new(),
        ground: Vec::new(),
        floor: 1,
        stairs: (0, 0),
        class: PlayerClass::Warrior,
    };
    w.reoccupy();
    w.refresh_sight();
    w
}

fn registry() -> ItemRegistry {
    ItemRegistry::from_defs(Vec::new())
}

fn sword_registry() -> ItemRegistry {
    ItemRegistry::from_defs(vec![ItemDef {
        id: 0,
        name: "锈铁剑".to_string(),
        description: "剑".to_string(),
        glyph: '/',
        color: (1, 2, 3),
        class: ItemClass::Weapon,
        slot: Some(EquipmentSlot::Weapon),
        max_stack: 1,
        bonus: StatBonus { attack: 3, defense: 0, magic_mastery: 0, agility: 0, hp: 0, crit_rate_permille: 0, crit_damage_permille: 0 },
        rarity: Rarity::Common,
        tags: Vec::new(),
    }])
}

#[test]
fn test_all_resources_exist() {
    let w = fresh_world();
    let _preview = PlayerPreview::new();
    let _memory = MapMemory::new();
    assert!(w.queue.entries.is_empty());
    assert!(!w.turns.wants_quit);
    assert_eq!(w.occ.occupant(w.pos.0, w.pos.1), Some(PLAYER_ID));
    assert!(w.log.messages.is_empty());
}

#[test]
fn test_global_world_startup() {
    let mut w = fresh_world();
    assert!(!w.turns.game_over);
    assert!(w.queue.entries.is_empty());
    assert!(PlayerPreview::new().kind.is_none());
    assert!(w.log.messages.is_empty());
    w.refresh_sight();
    assert!(w.visible.contains(&w.pos));
}

#[test]
fn test_advance_queue_move() {
    let mut w = fresh_world();
    let before = w.pos;
    let (dx, dy) = walkable_neighbor(&w.map, before.0, before.1).expect("出生点应至少有一个可行走邻居");
    let av = agility_to_reaction(10) + agility_scaled(CanMove::new(100).duration, 10);
    w.queue.enqueue(PLAYER_ID, ActionKindV3::Move { dx, dy }, av);
    let mut rng = SmallRng::seed_from_u64(7);
    let dist = w.advance_action_queue(&registry(), &mut rng);
    assert!(dist > 0, "队列应推进");
    assert_eq!(w.pos.0, before.0.wrapping_add_signed(dx));
    assert_eq!(w.pos.1, before.1.wrapping_add_signed(dy));
}

#[test]
fn test_advance_queue_wait() {
    let mut w = fresh_world();
    let before = w.pos;
    let av = agility_to_reaction(10) + agility_scaled(CanWait::new(0).duration, 10);
    w.queue.enqueue(PLAYER_ID, ActionKindV3::Wait, av);
    let mut rng = SmallRng::seed_from_u64(7);
    let dist = w.advance_action_queue(&registry(), &mut rng);
    assert!(dist > 0, "队列应推进");
    assert_eq!(w.pos, before, "等待不应移动");
}

#[test]
fn test_move_into_wall_cancelled() {
    let mut w = fresh_world();
    let pos = w.pos;
    let mut wall_dir = None;
    for &(dx, dy) in &[(0, -1isize), (0, 1), (-1, 0), (1, 0)] {
        let nx = pos.0.wrapping_add_signed(dx);
        let ny = pos.1.wrapping_add_signed(dy);
        if nx < MAP_WIDTH && ny < MAP_HEIGHT && !w.map.get(nx, ny).walkable() {
            wall_dir = Some((dx, dy));
            break;
        }
    }
    if let Some((dx, dy)) = wall_dir {
        let av = agility_to_reaction(10) + agility_scaled(CanMove::new(100).duration, 10);
        w.queue.enqueue(PLAYER_ID, ActionKindV3::Move { dx, dy }, av);
        let mut rng = SmallRng::seed_from_u64(7);
        w.advance_action_queue(&registry(), &mut rng);
        assert_eq!(w.pos, pos, "撞墙不应移动");
    }
}

#[test]
fn test_tap_tap_direction() {
    let mut w = fresh_world();
    let before = w.pos;
    let (dx, dy) = walkable_neighbor(&w.map, before.0, before.1).expect("应至少有一个可行走方向");
    let mut preview = PlayerPreview::new();
    let ids: Vec<u64> = Vec::new();
    let confirmed = handle_player_direction(
        &mut preview, &mut w.queue, &w.map, &w.occ, &ids, PLAYER_ID, before.0, before.1, dx, dy, 10, Some(CanMove::new(100)),
    );
    assert!(!confirmed, "第一次按应为预览");
    assert!(preview.kind.is_some(), "应有预览");
    let confirmed = handle_player_direction(
        &mut preview, &mut w.queue, &w.map, &w.occ, &ids, PLAYER_ID, before.0, before.1, dx, dy, 10, Some(CanMove::new(100)),
    );
    assert!(confirmed, "第二次按应为确认");
    assert!(preview.kind.is_none(), "确认后预览应清除");
    assert_eq!(w.queue.entries.len(), 1, "应有 1 个行动入队");
}

#[test]
fn test_attack_execution() {
    let mut w = fresh_world();
    let pos = w.pos;
    let (dx, dy) = walkable_neighbor(&w.map, pos.0, pos.1).expect("应至少有一个可行走邻居放怪物");
    let monster_pos = (pos.0.wrapping_add_signed(dx), pos.1.wrapping_add_signed(dy));
    let rat = monster_stats(MonsterKindId::Rat, 1);
    let hp_before = rat.hp;
    w.monsters.push(Monster { id: 1, kind: MonsterKindId::Rat, pos: monster_pos, stats: rat, last_seen: None, visible: Vec::new() });
    w.reoccupy();
    let av = agility_to_reaction(10) + agility_scaled(CanMove::new(100).duration, 10);
    w.queue.enqueue(PLAYER_ID, ActionKindV3::Attack { target: 1 }, av);
    let mut rng = SmallRng::seed_from_u64(7);
    w.advance_action_queue(&registry(), &mut rng);
    if let Some(m) = w.monsters.iter().find(|m| m.id == 1) {
        assert!(m.stats.hp < hp_before, "怪物应受伤");
        assert!(m.stats.hp >= 0, "HP 不应为负");
    }
    assert!(
        w.log.messages.iter().any(|m| m.contains("造成") || m.contains("击杀")),
        "事件日志应有攻击/击杀记录: {:?}",
        w.log.messages,
    );
}

#[test]
fn test_descend_preserves_data() {
    let mut w = fresh_world();
    let reg = sword_registry();
    w.inv.add(&reg, 0, 1);
    w.inv.add(&reg, 3, 1);
    let idx = w.inv.stacks.iter().position(|s| s.item_id == 0).unwrap();
    equip_from_bag(&mut w.inv, &mut w.equip, &reg, idx, &mut w.log);
    w.buffs.shield_turns = 3;
    w.active.0.push(Buff { kind: BuffKind::Shield, remaining_av: 250, magnitude: 5, stack_type: BuffStackType::NoStack });
    let floor_before = w.floor;
    let stats_before = w.stats;
    let inv_before: Vec<(usize, u32)> = w.inv.stacks.iter().map(|s| (s.item_id, s.count)).collect();
    let weapon_before = w.equip.weapon.as_ref().map(|s| s.item_id);
    let class_before = w.class;

    let next = cave();
    let spawn = (10, 10);
    w.descend(next, spawn, (12, 10), Vec::new(), Vec::new());
    let floor_after = w.floor;
    assert_eq!(floor_after, floor_before + 1, "楼层应 +1");

    assert_eq!(w.stats.level, stats_before.level);
    assert_eq!(w.stats.hp, stats_before.hp);
    assert_eq!(w.stats.exp, stats_before.exp);
    assert_eq!(w.inv.stacks.len(), inv_before.len());
    for (id, count) in &inv_before {
        assert!(
            w.inv.stacks.iter().any(|a| a.item_id == *id && a.count == *count),
            "物品 id={} count={} 应保持",
            id,
            count,
        );
    }
    assert_eq!(w.equip.weapon.as_ref().map(|s| s.item_id), weapon_before);
    assert_eq!(w.class, class_before);
    let derived = w.class.skills();
    assert_eq!(w.skills.list.len(), derived.len());
    for (a, b) in w.skills.list.iter().zip(derived.iter()) {
        assert_eq!(a.name, b.name);
    }
    // The effects go down with the player; the new floor has the player at its spawn
    // and the stairs where given.
    assert_eq!(w.pos, spawn);
    assert_eq!(w.stairs, (12, 10));
    assert_eq!(w.buffs.shield_turns, 3);
    assert_eq!(w.active.0.len(), 1);
    assert_eq!((w.active.0[0].kind, w.active.0[0].remaining_av, w.active.0[0].magnitude), (BuffKind::Shield, 250, 5));
    assert_eq!(w.occ.occupant(10, 10), Some(PLAYER_ID));
}
