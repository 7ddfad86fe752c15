use dungeon::bag::{drop_from_bag, equip_from_bag, pickup_ground, unequip, use_from_bag};
use dungeon::items::{
    equipment_bonus, EquipmentSlot, Equipment, Inventory, ItemClass, ItemDef, ItemMeta, ItemRegistry, ItemStack,
    Rarity, StatBonus, ITEM_SCROLL_HEAL, ITEM_WOOD_SHIELD,
};
use dungeon::stats::{EventLog, Skills};

fn bonus(attack: i32, defense: i32) -> StatBonus {
    StatBonus { attack, defense, magic_mastery: 0, agility: 0, hp: 0, crit_rate_permille: 0, crit_damage_permille: 0 }
}

fn def(id: usize, name: &str, max_stack: u32, slot: Option<EquipmentSlot>, b: StatBonus, tags: Vec<&str>) -> ItemDef {
    ItemDef {
        id,
        name: name.to_string(),
        description: format!("{} desc", name),
        glyph: '/',
        color: (1, 2, 3),
        class: ItemClass::Material,
        slot,
        max_stack,
        bonus: b,
        rarity: Rarity::Common,
        tags: tags.into_iter().map(|t| t.to_string()).collect(),
    }
}

fn registry() -> ItemRegistry {
    ItemRegistry::from_defs(vec![
        def(0, "锈铁剑", 1, Some(EquipmentSlot::Weapon), bonus(3, 0), vec![]),
        def(1, "木盾", 1, Some(EquipmentSlot::Armor), bonus(0, 2), vec![]),
        def(10, "生物血肉", 5, None, bonus(0, 0), vec!["throwable"]),
        def(15, "治愈卷轴", 3, None, bonus(0, 0), vec![]),
    ])
}

#[test]
fn registry_places_defs_by_id() {
    let reg = registry();
    assert_eq!(reg.items.len(), 16);
    assert_eq!(reg.get(10).unwrap().name, "生物血肉");
    assert!(reg.get(5).is_none());
    assert!(reg.get(99).is_none());
    let dup = ItemRegistry::from_defs(vec![def(2, "a", 1, None, bonus(0, 0), vec![]), def(2, "b", 1, None, bonus(0, 0), vec![])]);
    assert_eq!(dup.get(2).unwrap().name, "b");
    assert!(reg.get(10).unwrap().has_tag("throwable"));
    assert!(!reg.get(0).unwrap().has_tag("throwable"));
}

#[test]
fn class_and_rarity_names() {
    assert_eq!(ItemClass::Weapon.display_name(), "武器");
    assert_eq!(ItemClass::Quest.icon(), "*");
    assert_eq!(Rarity::Epic.display_name(), "传说");
    assert_eq!(Rarity::default(), Rarity::Common);
}

#[test]
fn stack_names_and_room() {
    let reg = registry();
    let s = ItemStack::new(10, 2);
    assert_eq!(s.name(&reg), "生物血肉");
    assert_eq!(s.max_stack(&reg), 5);
    assert_eq!(s.space(&reg), 3);
    assert!(!s.is_full(&reg));
    assert_eq!(ItemStack::new(7, 1).name(&reg), "未知物品(7)");
    assert_eq!(ItemStack::new(7, 1).glyph(&reg), '?');
    assert_eq!(ItemStack::new(7, 1).max_stack(&reg), 1);
    let mut named = ItemStack::new(10, 1);
    named.meta = Some(Box::new(ItemMeta { display_name: Some("特制".to_string()), tier: 1, durability: None, tags: vec![] }));
    assert_eq!(named.name(&reg), "特制");
    let mut t = ItemStack::new(10, 4);
    assert_eq!(t.add_up_to(&reg, 3), 1);
    assert_eq!(t.count, 5);
}

#[test]
fn add_stacks_then_fills_new_stacks() {
    let reg = registry();
    let mut inv = Inventory::new(3);
    assert_eq!(inv.add(&reg, 10, 7), 0);
    assert_eq!(inv.stacks.len(), 2);
    assert_eq!((inv.stacks[0].count, inv.stacks[1].count), (5, 2));
    assert_eq!(inv.add(&reg, 10, 10), 2);
    assert_eq!(inv.stacks.len(), 3);
    assert_eq!(inv.add(&reg, 0, 0), 0);
}

#[test]
fn can_add_agrees_with_add() {
    let reg = registry();
    for n in 0..20u32 {
        let mut inv = Inventory::new(3);
        inv.add(&reg, 10, 4);
        inv.add(&reg, 0, 1);
        let yes = inv.can_add(&reg, 10, n);
        let left = inv.add(&reg, 10, n);
        assert_eq!(yes, left == 0, "n = {}", n);
    }
}

#[test]
fn remove_and_drop() {
    let reg = registry();
    let mut inv = Inventory::default();
    inv.add(&reg, 10, 3);
    assert_eq!(inv.remove(0, 2), 2);
    assert_eq!(inv.stacks[0].count, 1);
    assert_eq!(inv.remove(0, 5), 1);
    assert!(inv.stacks.is_empty());
    assert_eq!(inv.remove(3, 1), 0);
    inv.add(&reg, 10, 2);
    let mut log = EventLog::new();
    let d = drop_from_bag(&mut inv, &reg, 0, &mut log).unwrap();
    assert_eq!(d.count, 2);
    assert!(inv.stacks.is_empty());
    assert_eq!(log.messages[0], "丢弃了生物血肉x2在脚下");
    assert!(inv.drop_stack(0).is_none());
}

#[test]
fn equip_and_unequip() {
    let reg = registry();
    let mut inv = Inventory::new(36);
    let mut eq = Equipment::new();
    let mut log = EventLog::new();
    inv.add(&reg, 0, 1);
    inv.add(&reg, ITEM_WOOD_SHIELD, 1);
    inv.add(&reg, 10, 1);
    equip_from_bag(&mut inv, &mut eq, &reg, 0, &mut log);
    assert_eq!(eq.weapon.as_ref().unwrap().item_id, 0);
    assert_eq!(inv.stacks.len(), 2);
    assert_eq!(log.messages.last().unwrap(), "装备了锈铁剑");
    equip_from_bag(&mut inv, &mut eq, &reg, 1, &mut log);
    assert_eq!(log.messages.last().unwrap(), "该物品无法装备");
    equip_from_bag(&mut inv, &mut eq, &reg, 0, &mut log);
    assert_eq!(eq.armor.as_ref().unwrap().item_id, ITEM_WOOD_SHIELD);
    let b = equipment_bonus(&inv, &eq, &reg);
    assert_eq!((b.attack, b.defense), (3, 2));
    assert_eq!(eq.equipped_stacks().len(), 2);
    unequip(&mut inv, &mut eq, &reg, 0, &mut log);
    assert!(eq.weapon.is_none());
    assert!(inv.stacks.iter().any(|s| s.item_id == 0));
    let mut full = Inventory::new(0);
    unequip(&mut full, &mut eq, &reg, 1, &mut log);
    assert!(eq.armor.is_some());
    assert_eq!(log.messages.last().unwrap(), "背包已满");
}

#[test]
fn using_a_scroll_teaches_and_consumes_it() {
    let reg = registry();
    let mut inv = Inventory::new(36);
    let mut skills = Skills { list: vec![] };
    let mut log = EventLog::new();
    inv.add(&reg, ITEM_SCROLL_HEAL, 2);
    assert!(use_from_bag(&mut inv, &mut skills, 0, &mut log));
    assert_eq!(inv.stacks[0].count, 1);
    assert_eq!(skills.list.len(), 1);
    assert_eq!(log.messages.last().unwrap(), "学会了治愈！");
    assert!(use_from_bag(&mut inv, &mut skills, 0, &mut log));
    assert!(inv.stacks.is_empty());
    assert_eq!(skills.list[0].proficiency, 2);
    assert_eq!(log.messages.last().unwrap(), "熟练度提升！治愈 熟练度 2");
    inv.add(&reg, 10, 1);
    assert!(!use_from_bag(&mut inv, &mut skills, 0, &mut log));
    assert_eq!(log.messages.last().unwrap(), "无法使用该物品");
}

#[test]
fn picking_up_logs_what_went_in() {
    let reg = registry();
    let mut inv = Inventory::new(1);
    let mut log = EventLog::new();
    let ground = vec![ItemStack::new(10, 7), ItemStack::new(0, 1)];
    pickup_ground(&mut inv, &reg, &ground, &mut log);
    assert_eq!(inv.stacks.len(), 1);
    assert_eq!(inv.stacks[0].count, 5);
    assert_eq!(log.messages, vec!["拾取了生物血肉x5".to_string()]);
}

#[test]
fn add_keeps_old_stacks_in_place() {
    let reg = registry();
    let mut inv = Inventory::new(3);
    inv.add(&reg, 10, 2);
    inv.add(&reg, 15, 1);
    let left = inv.add(&reg, 10, 7);
    assert_eq!(left, 0);
    let got: Vec<(usize, u32)> = inv.stacks.iter().map(|s| (s.item_id, s.count)).collect();
    assert_eq!(got, vec![(10, 5), (15, 1), (10, 4)]);
    // The bag is full: what does not fit is handed back.
    let left = inv.add(&reg, 10, 9);
    assert_eq!(left, 8);
    let got: Vec<(usize, u32)> = inv.stacks.iter().map(|s| (s.item_id, s.count)).collect();
    assert_eq!(got, vec![(10, 5), (15, 1), (10, 5)]);
}
