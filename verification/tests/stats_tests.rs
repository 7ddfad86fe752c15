use dungeon::conduct::{blow_damage, execute_skill, raw_damage, strike};
use dungeon::items::{Equipment, Inventory, ItemRegistry};
use dungeon::monsters::{goblin_loot, monster_glyph, monster_loot, monster_name, monster_stats, rat_loot, MonsterKindId};
use dungeon::stats::{
    apply_exp, check_death, effective_attack, effective_defense, exp_to_next_level, learn_skill, max_hp_for, max_mp_for,
    skill_from_kind, ActiveBuffs, Buff, BuffKind, BuffStackType, Buffs, EventLog, PendingExp, SkillKind, Skills, Stats,
    TurnManager,
};

#[test]
fn experience_curve() {
    assert_eq!(exp_to_next_level(1), 35);
    assert_eq!(exp_to_next_level(2), 90);
    assert_eq!(exp_to_next_level(4), 240);
    assert_eq!(exp_to_next_level(9), 765);
    assert_eq!(exp_to_next_level(0), 0);
}

#[test]
fn hit_and_magic_points() {
    assert_eq!(max_hp_for(1, 4), 33);
    assert_eq!(max_mp_for(1, 8), 16);
    let p = Stats::player();
    assert_eq!((p.level, p.hp, p.max_hp, p.mp, p.exp_to_next), (1, 33, 33, 16, 35));
}

#[test]
fn levelling_up_spends_experience() {
    let mut s = Stats::player();
    let mut pending = PendingExp { amount: 130 };
    let mut log = EventLog::new();
    s.hp = 5;
    apply_exp(&mut s, &mut pending, &mut log);
    assert_eq!(pending.amount, 0);
    // 130 - 35 = 95, then 95 - 90 = 5.
    assert_eq!(s.level, 3);
    assert_eq!(s.exp, 5);
    assert_eq!(s.exp_to_next, exp_to_next_level(3));
    assert_eq!(s.max_hp, max_hp_for(3, 4));
    assert_eq!(s.hp, s.max_hp);
    assert_eq!(log.messages, vec!["升级！达到 Lv.2".to_string(), "升级！达到 Lv.3".to_string()]);
    let before = s;
    apply_exp(&mut s, &mut PendingExp { amount: 0 }, &mut log);
    assert_eq!(s, before);
}

#[test]
fn log_keeps_the_latest_fifty() {
    let mut log = EventLog::new();
    for i in 0..60 {
        log.push(format!("m{}", i));
    }
    assert_eq!(log.messages.len(), 50);
    assert_eq!(log.messages[0], "m10");
    assert_eq!(log.messages[49], "m59");
}

#[test]
fn death_ends_the_game() {
    let mut s = Stats::player();
    let mut t = TurnManager::new();
    let mut log = EventLog::new();
    check_death(&s, &mut t, &mut log);
    assert!(!t.game_over);
    s.hp = 0;
    check_death(&s, &mut t, &mut log);
    assert!(t.game_over);
    assert_eq!(log.messages, vec!["你死了".to_string()]);
}

#[test]
fn skills_learn_and_cast() {
    let mut skills = Skills { list: vec![] };
    let mut log = EventLog::new();
    learn_skill(&mut skills, &SkillKind::Shield { def_boost: 5, duration: 3 }, &mut log);
    assert_eq!(skills.list[0].key, '2');
    assert_eq!(skills.list[0].cost_mp, 5);
    let mut s = Stats::player();
    let mut buffs = Buffs::new();
    let mut active = ActiveBuffs::new();
    execute_skill(&mut s, &skills, &mut buffs, &mut active, 0, &mut log);
    assert_eq!(s.mp, 11);
    assert_eq!((buffs.shield_turns, buffs.shield_def), (3, 5));
    assert_eq!(active.0, vec![Buff { kind: BuffKind::Shield, remaining_av: 3000, magnitude: 5, stack_type: BuffStackType::NoStack }]);
    assert_eq!(log.messages.last().unwrap(), "护盾施放了护盾，防御+5持续3秒");
    s.mp = 1;
    execute_skill(&mut s, &skills, &mut buffs, &mut active, 0, &mut log);
    assert_eq!(log.messages.last().unwrap(), "MP不足，无法施放护盾");
    let heal = Skills { list: vec![skill_from_kind(&SkillKind::Heal { amount: 15 })] };
    s.mp = 10;
    s.hp = 30;
    execute_skill(&mut s, &heal, &mut buffs, &mut active, 0, &mut log);
    assert_eq!(s.hp, 33);
    assert_eq!(log.messages.last().unwrap(), "治愈恢复了15HP");
}

#[test]
fn effective_numbers() {
    let reg = ItemRegistry::from_defs(vec![]);
    let s = Stats::player();
    let inv = Inventory::new(36);
    let eq = Equipment::new();
    let buffs = ActiveBuffs(vec![
        Buff { kind: BuffKind::Berserk, remaining_av: 10, magnitude: 5, stack_type: BuffStackType::NoStack },
        Buff { kind: BuffKind::Shield, remaining_av: 10, magnitude: -10, stack_type: BuffStackType::NoStack },
    ]);
    assert_eq!(effective_attack(&s, &inv, &eq, Some(&buffs), &reg), 13);
    assert_eq!(effective_defense(&s, &inv, &eq, Some(&buffs), &reg), 0);
    assert_eq!(effective_defense(&s, &inv, &eq, None, &reg), 4);
    assert_eq!(raw_damage(8, 4), 4);
    assert_eq!(raw_damage(3, 9), 1);
}

#[test]
fn monsters_by_floor() {
    let r = monster_stats(MonsterKindId::Rat, 1);
    assert_eq!((r.level, r.hp, r.exp, r.attack), (1, 10, 6, 4));
    let g = monster_stats(MonsterKindId::Goblin, 4);
    // l = 3: 18 + 18 hit points, 15 + round(22.5) experience, 6 + 6 attack.
    assert_eq!((g.level, g.hp, g.exp, g.attack), (4, 36, 38, 12));
    let sc = monster_stats(MonsterKindId::Scorpion, 4);
    assert_eq!((sc.hp, sc.exp, sc.attack), (29, 25, 9));
    let late = monster_stats(MonsterKindId::Rat, 50);
    assert_eq!((late.level, late.attack), (20, 18));
    assert_eq!(monster_glyph(MonsterKindId::Goblin), 'g');
    assert_eq!(monster_name(MonsterKindId::Scorpion), "变异蝎子");
    assert_eq!(rat_loot().entries.len(), 1);
    assert_eq!(goblin_loot().entries[1].chance_permille, 600);
    assert_eq!(monster_loot(MonsterKindId::Scorpion).entries[1].item_id, 14);
}

#[test]
fn loot_drops_follow_the_draws() {
    let table = goblin_loot();
    // biomass hits with an extra of 2; cloth hits; stick misses; fang hits.
    let draws = vec![(999, 2), (599, 0), (400, 0), (0, 0)];
    let v = table.drops_for(&draws);
    let got: Vec<(usize, u32)> = v.iter().map(|s| (s.item_id, s.count)).collect();
    assert_eq!(got, vec![(10, 3), (11, 1), (13, 1)]);
    assert!(v.iter().all(|s| s.meta.is_none()));
}

#[test]
fn rat_always_drops_biomass() {
    let table = rat_loot();
    for seed in 0..20u64 {
        let mut rng = <rand::rngs::SmallRng as rand::SeedableRng>::seed_from_u64(seed);
        let v = table.roll(&mut rng);
        assert_eq!(v.len(), 1);
        assert_eq!(v[0].item_id, 10);
        assert!(v[0].count == 1 || v[0].count == 2);
    }
}

#[test]
fn critical_blows_round_half_up() {
    assert_eq!(blow_damage(10, 4, 0, 50, 500), (9, true));
    assert_eq!(blow_damage(10, 4, 50, 50, 500), (6, false));
    assert_eq!(blow_damage(5, 2, 10, 50, 500), (5, true));
    assert_eq!(blow_damage(1, 9, 10, 50, 500), (2, true));
    assert_eq!(blow_damage(10, 4, 0, 0, 500), (6, false));
}

#[test]
fn strike_is_always_critical_at_full_rate() {
    let mut rng = <rand::rngs::SmallRng as rand::SeedableRng>::seed_from_u64(3);
    for _ in 0..10 {
        assert_eq!(strike(10, 4, (1000, 500), &mut rng), (9, true));
        assert_eq!(strike(10, 4, (0, 500), &mut rng), (6, false));
    }
}
