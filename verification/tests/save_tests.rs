use dungeon::action::{ActionEntry, ActionKindV3, ActionQueue};
use dungeon::bag::equip_from_bag;
use dungeon::items::{Equipment, EquipmentSlot, Inventory, ItemClass, ItemDef, ItemRegistry, Rarity, StatBonus};
use dungeon::map::DungeonMap;
use dungeon::monsters::{monster_stats, MonsterKindId};
use dungeon::occupancy::OccupancyMap;
use dungeon::saves::MapMemory;
use dungeon::snapshot::GameSave;
use dungeon::stats::{ActiveBuffs, Buff, BuffKind, BuffStackType, Buffs, EventLog, PendingExp, PlayerClass, Skill, SkillKind, Skills, Stats, TurnManager};
use dungeon::tile::{Tile, MAP_HEIGHT, MAP_WIDTH};
use dungeon::world::{Monster, World, PLAYER_ID};

fn carved_map() -> DungeonMap {
    let mut m = DungeonMap::new();
    for y in 1..20 {
        for x in 1..30 {
            m.set(x, y, Tile::Floor);
        }
    }
    m.set(40, 30, Tile::ShallowWater);
    m
}

fn monster(id: u64, kind: MonsterKindId, pos: (usize, usize)) -> Monster {
    Monster { id, kind, pos, stats: monster_stats(kind, 1), last_seen: Some((5, 5)), visible: Vec::new() }
}

fn def(id: usize, name: &str, max_stack: u32, slot: Option<EquipmentSlot>) -> ItemDef {
    ItemDef {
        id,
        name: name.to_string(),
        description: String::new(),
        glyph: '/',
        color: (1, 2, 3),
        class: ItemClass::Material,
        slot,
        max_stack,
        bonus: StatBonus { attack: 0, defense: 0, magic_mastery: 0, agility: 0, hp: 0, crit_rate_permille: 0, crit_damage_permille: 0 },
        rarity: Rarity::Common,
        tags: Vec::new(),
    }
}

fn registry() -> ItemRegistry {
    ItemRegistry::from_defs(vec![
        def(0, "锈铁剑", 1, Some(EquipmentSlot::Weapon)),
        def(1, "木盾", 1, Some(EquipmentSlot::Armor)),
        def(10, "生物血肉", 5, None),
    ])
}

fn world_with(map: DungeonMap, monsters: Vec<Monster>) -> World {
    let mut w = World {
        map,
        occ: OccupancyMap::new(),
        pos: (5, 5),
        visible: Vec::new(),
        stats: Stats::player(),
        inv: Inventory::new(36),
        equip: Equipment::new(),
        skills: Skills { list: Vec::new() },
        buffs: Buffs::new(),
        active: ActiveBuffs::new(),
        log: EventLog::new(),
        turns: TurnManager::new(),
        queue: ActionQueue::new(),
        pending: PendingExp { amount: 0 },
        monsters,
        ground: Vec::new(),
        floor: 1,
        stairs: (0, 0),
        class: PlayerClass::Warrior,
    };
    w.reoccupy();
    w.refresh_sight();
    w
}

#[test]
fn test_save_restore_roundtrip() {
    let mut world = world_with(carved_map(), vec![monster(7, MonsterKindId::Goblin, (9, 9))]);
    world.stats.exp = 12;
    world.stats.hp = world.stats.max_hp / 2;
    world.stats.mp = world.stats.max_mp / 3;
    let reg = registry();
    world.inv.add(&reg, 0, 1);
    world.inv.add(&reg, 1, 1);
    world.inv.add(&reg, 10, 3);
    // The sword goes from the bag to the weapon slot.
    let idx = world.inv.stacks.iter().position(|s| s.item_id == 0).unwrap();
    equip_from_bag(&mut world.inv, &mut world.equip, &reg, idx, &mut world.log);
    world.floor = 3;
    world.stairs = (12, 10);
    let mut memory = MapMemory::new();
    memory.remember(&world.visible);
    let explored_before = memory.explored.iter().filter(|b| **b).count();

    let save = GameSave::capture(&world, 99, &memory);
    assert!(save.fits());

    let mut restored = world_with(DungeonMap::new(), Vec::new());
    let back = save.restore(&mut restored);

    assert_eq!(restored.floor, world.floor);
    assert_eq!(restored.stairs, world.stairs);

    for &(x, y) in &[(0, 0), (79, 0), (0, 59), (79, 59), (40, 0), (40, 30), (0, 30), (5, 5)] {
        assert_eq!(restored.map.get(x, y), world.map.get(x, y), "Tile 不匹配 at ({}, {})", x, y);
    }
    assert_eq!(back.explored.iter().filter(|b| **b).count(), explored_before);
    assert_eq!(restored.pos, world.pos);
    assert_eq!(restored.stats.exp, 12);
    assert_eq!(restored.stats.hp, restored.stats.max_hp / 2);
    assert_eq!(restored.stats.mp, restored.stats.max_mp / 3);
    assert!(restored.inv.stacks.iter().any(|s| s.item_id == 1), "应持有木盾");
    assert!(restored.inv.stacks.iter().any(|s| s.item_id == 10 && s.count == 3), "应持有 3 个生物血肉");
    assert!(!restored.inv.stacks.iter().any(|s| s.item_id == 0), "锈铁剑已装备，不应在背包中");
    assert!(restored.equip.weapon.is_some(), "应装备武器");
    assert_eq!(restored.equip.weapon.as_ref().unwrap().item_id, 0, "应装备锈铁剑");
    // The goblin comes back as monster 1, with nothing seen yet.
    assert_eq!(restored.monsters.len(), 1);
    assert_eq!(restored.monsters[0].id, 1);
    assert_eq!(restored.monsters[0].kind, MonsterKindId::Goblin);
    assert_eq!(restored.monsters[0].pos, (9, 9));
    assert_eq!(restored.monsters[0].last_seen, None);
}

#[test]
fn saved_queue_follows_the_actors_cells() {
    let mut world = world_with(carved_map(), vec![monster(7, MonsterKindId::Rat, (9, 9)), monster(8, MonsterKindId::Rat, (3, 4))]);
    world.queue.entries.push(ActionEntry { entity: 8, kind: ActionKindV3::Chase, av_remaining: 40 });
    world.queue.entries.push(ActionEntry { entity: PLAYER_ID, kind: ActionKindV3::Move { dx: 1, dy: 0 }, av_remaining: 10 });
    // An attack names another actor and is not kept; an entry of a gone actor neither.
    world.queue.entries.push(ActionEntry { entity: 7, kind: ActionKindV3::Attack { target: PLAYER_ID }, av_remaining: 0 });
    world.queue.entries.push(ActionEntry { entity: 42, kind: ActionKindV3::Wait, av_remaining: 0 });
    let save = GameSave::capture(&world, 5, &MapMemory::new());
    assert_eq!(save.action_queue.len(), 2);
    assert_eq!((save.action_queue[0].x, save.action_queue[0].y), (3, 4));
    let mut restored = world_with(DungeonMap::new(), Vec::new());
    save.restore(&mut restored);
    let q = &restored.queue.entries;
    assert_eq!(q.len(), 2);
    assert_eq!(q[0].entity, 2);
    assert_eq!(q[0].kind, ActionKindV3::Chase);
    assert_eq!(q[0].av_remaining, 40);
    assert_eq!(q[1].entity, PLAYER_ID);
    assert_eq!(q[1].kind, ActionKindV3::Move { dx: 1, dy: 0 });
    // The occupancy is made anew: the second rat holds (3, 4).
    assert_eq!(restored.occ.occupant(3, 4), Some(2));
}

#[test]
fn saves_off_the_map_are_refused() {
    let world = world_with(carved_map(), Vec::new());
    let mut save = GameSave::capture(&world, 5, &MapMemory::new());
    assert!(save.fits());
    save.px = MAP_WIDTH;
    assert!(!save.fits());
    save.px = 5;
    save.map_tiles.push(Tile::Floor);
    assert!(!save.fits());
    save.map_tiles.pop();
    save.py = MAP_HEIGHT - 1;
    assert!(save.fits());
}

#[test]
fn skills_and_class_come_back() {
    let mut world = world_with(carved_map(), Vec::new());
    world.class = PlayerClass::Mage;
    world.skills.list.push(Skill {
        name: "治疗".to_string(),
        key: 'h',
        cost_mp: 5,
        description: "回复".to_string(),
        kind: SkillKind::Heal { amount: 20 },
        proficiency: 3,
    });
    let save = GameSave::capture(&world, 7, &MapMemory::new());
    let mut restored = world_with(DungeonMap::new(), Vec::new());
    save.restore(&mut restored);
    assert_eq!(restored.class, PlayerClass::Mage);
    assert_eq!(restored.skills.list.len(), 1);
    assert_eq!(restored.skills.list[0].name, "治疗");
    assert_eq!(restored.skills.list[0].key, 'h');
    assert_eq!(restored.skills.list[0].proficiency, 3);
}

#[test]
fn timed_effects_come_back() {
    let mut world = world_with(carved_map(), Vec::new());
    world.active.0.push(Buff { kind: BuffKind::Berserk, remaining_av: 120, magnitude: 5, stack_type: BuffStackType::NoStack });
    let save = GameSave::capture(&world, 7, &MapMemory::new());
    let mut restored = world_with(DungeonMap::new(), Vec::new());
    save.restore(&mut restored);
    assert_eq!(restored.active.0.len(), 1);
    assert_eq!(restored.active.0[0].kind, BuffKind::Berserk);
    assert_eq!(restored.active.0[0].remaining_av, 120);
    assert_eq!(restored.active.0[0].magnitude, 5);
}
