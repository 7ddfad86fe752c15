use dungeon::action::{ActionEntry, ActionKindV3, ActionQueue};
use dungeon::items::{Equipment, Inventory, ItemRegistry, ItemStack};
use dungeon::map::DungeonMap;
use dungeon::monsters::{monster_stats, MonsterKindId};
use dungeon::occupancy::OccupancyMap;
use dungeon::panels::{build_stats_panel, build_timeline, tile_name, LookPanel, TimelineRow};
use dungeon::saves::MapMemory;
use dungeon::stats::{ActiveBuffs, Buff, BuffKind, BuffStackType, Buffs, EventLog, PendingExp, PlayerClass, Skills, Stats, TurnManager};
use dungeon::tile::Tile;
use dungeon::turns::PlayerPreview;
use dungeon::world::{Monster, World, PLAYER_ID};

fn open_map() -> DungeonMap {
    let mut m = DungeonMap::new();
    for y in 1..20 {
        for x in 1..30 {
            m.set(x, y, Tile::Floor);
        }
    }
    m
}

fn monster(id: u64, kind: MonsterKindId, pos: (usize, usize)) -> Monster {
    Monster { id, kind, pos, stats: monster_stats(kind, 1), last_seen: None, visible: Vec::new() }
}

fn world_with(monsters: Vec<Monster>) -> World {
    let mut w = World {
        map: open_map(),
        occ: OccupancyMap::new(),
        pos: (5, 5),
        visible: Vec::new(),
        stats: Stats::player(),
        inv: Inventory::new(36),
        equip: Equipment::new(),
        skills: Skills { list: Vec::new() },
        buffs: Buffs::new(),
        active: ActiveBuffs::new(),
        log: EventLog::new(),
        turns: TurnManager::new(),
        queue: ActionQueue::new(),
        pending: PendingExp { amount: 0 },
        monsters,
        ground: Vec::new(),
        floor: 1,
        stairs: (0, 0),
        class: PlayerClass::Warrior,
    };
    w.reoccupy();
    w.refresh_sight();
    w
}

fn preview(kind: Option<ActionKindV3>) -> PlayerPreview {
    let mut p = PlayerPreview::new();
    p.kind = kind;
    p
}

#[test]
fn timeline_lists_what_is_in_sight() {
    let mut w = world_with(vec![monster(1, MonsterKindId::Rat, (7, 5)), monster(2, MonsterKindId::Goblin, (60, 50))]);
    w.monsters[0].stats.hp = 1;
    w.queue.entries.push(ActionEntry { entity: 1, kind: ActionKindV3::Chase, av_remaining: 40 });
    w.queue.entries.push(ActionEntry { entity: 2, kind: ActionKindV3::Wander, av_remaining: 10 });
    w.queue.entries.push(ActionEntry { entity: PLAYER_ID, kind: ActionKindV3::Skill(2), av_remaining: 5 });
    let rows = build_timeline(&w, &preview(Some(ActionKindV3::Move { dx: -1, dy: 0 })));
    assert!(matches!(rows[0], TimelineRow::Top));
    match &rows[1] {
        TimelineRow::Preview(t) => assert_eq!(t, "移动(-1,0)"),
        _ => panic!("preview row"),
    }
    // The goblin is out of sight: its entry is not shown.
    match &rows[2] {
        TimelineRow::Queued { entity, glyph, label, timer } => {
            assert_eq!((*entity, *glyph, label.as_str(), *timer), (1, 'r', "追击", 40));
        }
        _ => panic!("queued row"),
    }
    match &rows[3] {
        TimelineRow::Queued { entity, glyph, label, .. } => assert_eq!((*entity, *glyph, label.as_str()), (PLAYER_ID, '@', "技能3")),
        _ => panic!("queued row"),
    }
    assert!(matches!(rows[4], TimelineRow::Bottom));
    assert!(matches!(rows[5], TimelineRow::Divider));
    match &rows[6] {
        TimelineRow::Status { entity, name, hp, low, .. } => {
            assert_eq!((*entity, name.as_str(), *hp, *low), (1, "老鼠", 1, true));
        }
        _ => panic!("status row"),
    }
    assert!(matches!(rows[7], TimelineRow::Blank));
    assert_eq!(rows.len(), 10);
}

#[test]
fn empty_timeline_says_nothing_is_in_sight() {
    let w = world_with(Vec::new());
    let rows = build_timeline(&w, &preview(None));
    match &rows[1] {
        TimelineRow::Preview(t) => assert_eq!(t, "等待输入"),
        _ => panic!("preview row"),
    }
    assert!(matches!(rows[4], TimelineRow::Nothing));
    assert!(matches!(rows[7], TimelineRow::KeysOther));
}

#[test]
fn timeline_effects_round_seconds_up() {
    let mut w = world_with(Vec::new());
    w.active.0.push(Buff { kind: BuffKind::Shield, remaining_av: 1001, magnitude: 3, stack_type: BuffStackType::NoStack });
    let rows = build_timeline(&w, &preview(Some(ActionKindV3::Wait)));
    assert!(matches!(rows[3], TimelineRow::Divider));
    assert!(matches!(rows[4], TimelineRow::Divider));
    match &rows[5] {
        TimelineRow::Effect { name, magnitude, seconds } => assert_eq!((name.as_str(), *magnitude, *seconds), ("护盾", 3, 2)),
        _ => panic!("effect row"),
    }
    // Two lines of effects: no note that nothing is in sight.
    assert!(matches!(rows[6], TimelineRow::Blank));
}

#[test]
fn stats_panel_numbers() {
    let mut w = world_with(vec![monster(1, MonsterKindId::Scorpion, (6, 6))]);
    w.stats.hp = -3;
    w.stats.max_hp = 20;
    w.stats.crit_rate_permille = 1500;
    w.equip.weapon = Some(ItemStack::new(0, 1));
    w.floor = 4;
    let reg = ItemRegistry::from_defs(Vec::new());
    let mut memory = MapMemory::new();
    memory.remember(&w.visible);
    let p = build_stats_panel(&w, &reg, &memory, Some((6, 6)));
    assert!(p.low_hp);
    assert_eq!(p.hp, 0);
    assert_eq!(p.hp_bar, "░░░░░░░░");
    assert_eq!(p.crit_rate, Some(1000));
    assert_eq!(p.attack, Some(w.stats.attack));
    assert_eq!(p.weapon, "未知物品(0)");
    assert_eq!(p.armor, "(空)");
    assert_eq!(p.floor, 4);
    match p.look {
        Some(((6, 6), LookPanel::Visible { tile, entities })) => {
            assert_eq!(tile_name(tile), "地板");
            assert_eq!(entities.len(), 1);
            assert_eq!(entities[0].name, "变异蝎子");
        }
        _ => panic!("look panel"),
    }
    let far = build_stats_panel(&w, &reg, &memory, Some((70, 50)));
    assert!(matches!(far.look, Some((_, LookPanel::Unexplored))));
    let off = build_stats_panel(&w, &reg, &memory, Some((80, 0)));
    assert!(matches!(off.look, Some((_, LookPanel::OffMap))));
}
