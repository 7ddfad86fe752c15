use vstd::prelude::*;
use crate::text::{push_text, push_decimal, decimal};
use crate::items::{
    count_of, lemma_add_conserves, lemma_add_limits, lemma_add_keeps_stacks,
    ItemStack, ItemMeta, Inventory, Equipment, ItemRegistry, EquipmentSlot, def_of, max_stack_of, after_add,
    stack_name, with_count, fits,
};
use crate::stats::{EventLog, Skills, log_view, logged, use_item, scroll_skill, first_named, skill_title, SkillKind};

verus! {

/// Two instance records say the same.
pub open spec fn same_meta(a: ItemMeta, b: ItemMeta) -> bool {
    a.display_name == b.display_name && a.tier == b.tier && a.durability == b.durability && a.tags@ == b.tags@
}

/// Two stacks hold the same: item, count and instance record.
pub open spec fn same_stack(a: ItemStack, b: ItemStack) -> bool {
    &&& a.item_id == b.item_id
    &&& a.count == b.count
    &&& match (a.meta, b.meta) {
        (None, None) => true,
        (Some(x), Some(y)) => same_meta(*x, *y),
        _ => false,
    }
}

/// A copy of `meta`.
fn copy_meta(meta: &ItemMeta) -> (m: ItemMeta)
    ensures
        same_meta(m, *meta),
{
    let display_name = match &meta.display_name {
        Some(n) => Some(n.clone()),
        None => None,
    };
    let mut tags: Vec<String> = Vec::new();
    let mut i: usize = 0;
    while i < meta.tags.len()
        invariant
            i <= meta.tags@.len(),
            tags@ == meta.tags@.take(i as int),
        decreases meta.tags@.len() - i,
    {
        tags.push(meta.tags[i].clone());
        i = i + 1;
        assert(tags@ =~= meta.tags@.take(i as int));
    }
    assert(tags@ =~= meta.tags@);
    ItemMeta { display_name, tier: meta.tier, durability: meta.durability, tags }
}

/// A copy of a stack.
pub fn copy_stack(s: &ItemStack) -> (c: ItemStack)
    ensures
        same_stack(c, *s),
{
    let meta = match &s.meta {
        Some(m) => Some(Box::new(copy_meta(m))),
        None => None,
    };
    ItemStack { item_id: s.item_id, count: s.count, meta }
}

/// The worn stack in slot `slot` (0 weapon, 1 armour, 2 ring).
pub open spec fn slot_of(e: &Equipment, slot: int) -> Option<ItemStack> {
    if slot == 0 { e.weapon } else if slot == 1 { e.armor } else { e.ring }
}

/// The slot number of an equipment slot.
pub open spec fn slot_number(s: EquipmentSlot) -> int {
    match s {
        EquipmentSlot::Weapon => 0,
        EquipmentSlot::Armor => 1,
        EquipmentSlot::Ring => 2,
    }
}

/// The bag's stacks after taking one item from the stack at `idx`.
pub open spec fn taken_one(s: Seq<ItemStack>, idx: int) -> Seq<ItemStack> {
    let st = s[idx];
    if st.count <= 1 { s.remove(idx) } else { s.update(idx, with_count(st, (st.count - 1) as u32)) }
}

/// Puts the stack at `idx` of the bag on: one item leaves the bag, the slot of the
/// item's template gets a copy of the stack (with the stack's count), and what the
/// slot held goes back into the bag; the log says what was put on. An item without a
/// slot stays, and the log says it cannot be worn. Nothing happens for a missing stack.
pub fn equip_from_bag(inv: &mut Inventory, equip: &mut Equipment, reg: &ItemRegistry, idx: usize, log: &mut EventLog)
    ensures
        idx >= old(inv).stacks@.len() ==> *final(inv) == *old(inv) && *final(equip) == *old(equip) && *final(log)
            == *old(log),
        idx < old(inv).stacks@.len() ==> {
            let st = old(inv).stacks@[idx as int];
            match def_of(reg, st.item_id) {
                Some(d) => match d.slot {
                    Some(slot) => {
                        let n = slot_number(slot);
                        let bag1 = taken_one(old(inv).stacks@, idx as int);
                        &&& slot_of(final(equip), n) matches Some(x) && same_stack(x, st)
                        &&& forall|k: int| 0 <= k < 3 && k != n ==> slot_of(final(equip), k) == slot_of(old(equip), k)
                        &&& final(inv).capacity == old(inv).capacity
                        &&& final(inv).stacks@ == match slot_of(old(equip), n) {
                            Some(prev) => after_add(bag1, prev.item_id, max_stack_of(reg, prev.item_id), prev.count as int, old(inv).capacity).0,
                            None => bag1,
                        }
                        &&& log_view(final(log)) == logged(log_view(old(log)), "装备了"@ + d.name@)
                    },
                    None => *final(inv) == *old(inv) && *final(equip) == *old(equip) && log_view(final(log))
                        == logged(log_view(old(log)), "该物品无法装备"@),
                },
                None => *final(inv) == *old(inv) && *final(equip) == *old(equip) && log_view(final(log))
                    == logged(log_view(old(log)), "该物品无法装备"@),
            }
        },
{
    if idx >= inv.stacks.len() {
        return;
    }
    let st = copy_stack(&inv.stacks[idx]);
    match reg.get(st.item_id) {
        Some(d) => match d.slot {
            Some(sl) => {
                inv.remove(idx, 1);
                let old_stack = match sl {
                    EquipmentSlot::Weapon => {
                        let o = equip.weapon.take();
                        equip.weapon = Some(st);
                        o
                    },
                    EquipmentSlot::Armor => {
                        let o = equip.armor.take();
                        equip.armor = Some(st);
                        o
                    },
                    EquipmentSlot::Ring => {
                        let o = equip.ring.take();
                        equip.ring = Some(st);
                        o
                    },
                };
                match old_stack {
                    Some(o) => {
                        inv.add(reg, o.item_id, o.count);
                    },
                    None => {},
                }
                let mut msg = String::new();
                push_text(&mut msg, "装备了");
                push_text(&mut msg, d.name.as_str());
                log.push(msg);
            },
            None => {
                log.push("该物品无法装备".to_owned());
            },
        },
        None => {
            log.push("该物品无法装备".to_owned());
        },
    }
}

/// The message for a stack dropped at the player's feet.
pub open spec fn dropped_message(reg: &ItemRegistry, st: ItemStack) -> Seq<char> {
    "丢弃了"@ + stack_name(reg, &st) + "x"@ + decimal(st.count as nat) + "在脚下"@
}

/// Drops the whole stack at `idx` and returns it (to be laid on the ground); the log
/// says what was dropped. Nothing happens for a missing stack.
pub fn drop_from_bag(inv: &mut Inventory, reg: &ItemRegistry, idx: usize, log: &mut EventLog) -> (r: Option<ItemStack>)
    ensures
        idx >= old(inv).stacks@.len() ==> r is None && final(inv).stacks@ == old(inv).stacks@ && final(inv).capacity
            == old(inv).capacity && *final(log) == *old(log),
        idx < old(inv).stacks@.len() ==> r == Some(old(inv).stacks@[idx as int]) && final(inv).stacks@ == old(
            inv,
        ).stacks@.remove(idx as int) && final(inv).capacity == old(inv).capacity && log_view(final(log)) == logged(
            log_view(old(log)),
            dropped_message(reg, old(inv).stacks@[idx as int]),
        ),
{
    match inv.drop_stack(idx) {
        Some(st) => {
            let mut msg = String::new();
            push_text(&mut msg, "丢弃了");
            let name = st.name(reg);
            push_text(&mut msg, name.as_str());
            push_text(&mut msg, "x");
            push_decimal(&mut msg, st.count as u64);
            push_text(&mut msg, "在脚下");
            proof {
                assert(msg@ =~= dropped_message(reg, st));
            }
            log.push(msg);
            Some(st)
        },
        None => None,
    }
}

/// Uses the item of the stack at `idx` (see `use_item`): when it is used up, one
/// item leaves the stack; otherwise the log says it cannot be used. Nothing happens
/// for a missing stack. Returns whether an item was used up.
pub fn use_from_bag(inv: &mut Inventory, skills: &mut Skills, idx: usize, log: &mut EventLog) -> (used: bool)
    requires
        idx < old(inv).stacks@.len() ==> forall|k: SkillKind|
            scroll_skill(old(inv).stacks@[idx as int].item_id) == Some(k) && first_named(old(skills).list@, skill_title(k))
                >= 0 ==> old(skills).list@[first_named(old(skills).list@, skill_title(k))].proficiency < u32::MAX,
    ensures
        idx >= old(inv).stacks@.len() ==> !used && *final(inv) == *old(inv) && final(skills).list@ == old(skills).list@
            && log_view(final(log)) == logged(log_view(old(log)), "无法使用该物品"@),
        idx < old(inv).stacks@.len() ==> {
            let st = old(inv).stacks@[idx as int];
            &&& used == scroll_skill(st.item_id) is Some
            &&& used ==> final(inv).stacks@ == taken_one(old(inv).stacks@, idx as int) && final(inv).capacity == old(inv).capacity
            &&& !used ==> *final(inv) == *old(inv) && final(skills).list@ == old(skills).list@ && log_view(final(log))
                == logged(log_view(old(log)), "无法使用该物品"@)
        },
{
    let consumed = if idx < inv.stacks.len() {
        let id = inv.stacks[idx].item_id;
        use_item(id, skills, log)
    } else {
        false
    };
    if consumed {
        inv.remove(idx, 1);
    } else {
        log.push("无法使用该物品".to_owned());
    }
    consumed
}

/// Takes off the item in slot `slot` (0 weapon, 1 armour, 2 ring) into the bag when
/// the bag can take all of it; when it cannot, the item stays worn and the log says
/// the bag is full. An empty slot does nothing.
pub fn unequip(inv: &mut Inventory, equip: &mut Equipment, reg: &ItemRegistry, slot: usize, log: &mut EventLog)
    requires
        slot < 3,
        slot_of(old(equip), slot as int) matches Some(s) ==> s.count == 0 || max_stack_of(reg, s.item_id) > 0,
    ensures
        slot_of(old(equip), slot as int) is None ==> *final(inv) == *old(inv) && *final(equip) == *old(equip)
            && *final(log) == *old(log),
        slot_of(old(equip), slot as int) matches Some(s) ==> {
            let ok = fits(old(inv).stacks@, s.item_id, max_stack_of(reg, s.item_id), s.count as int, old(inv).capacity);
            &&& ok ==> slot_of(final(equip), slot as int) is None && final(inv).stacks@ == after_add(
                old(inv).stacks@,
                s.item_id,
                max_stack_of(reg, s.item_id),
                s.count as int,
                old(inv).capacity,
            ).0 && final(inv).capacity == old(inv).capacity && *final(log) == *old(log)
            &&& !ok ==> *final(inv) == *old(inv) && *final(equip) == *old(equip) && log_view(final(log)) == logged(
                log_view(old(log)),
                "背包已满"@,
            )
        },
        forall|k: int| 0 <= k < 3 && k != slot ==> slot_of(final(equip), k) == slot_of(old(equip), k),
{
    let held = if slot == 0 { &equip.weapon } else if slot == 1 { &equip.armor } else { &equip.ring };
    let can = match held {
        Some(s) => inv.can_add(reg, s.item_id, s.count),
        None => {
            return;
        },
    };
    if can {
        let st = if slot == 0 {
            equip.weapon.take()
        } else if slot == 1 {
            equip.armor.take()
        } else {
            equip.ring.take()
        };
        match st {
            Some(s) => {
                inv.add(reg, s.item_id, s.count);
            },
            None => {},
        }
    } else {
        log.push("背包已满".to_owned());
    }
}

/// The bag and the messages after picking up `ground` in order: each stack is added
/// (see `Inventory::add`), and a message names what went in whenever something did.
pub open spec fn picked_up(
    reg: &ItemRegistry,
    bag: Seq<ItemStack>,
    capacity: usize,
    ground: Seq<ItemStack>,
) -> (Seq<ItemStack>, Seq<Seq<char>>)
    decreases ground.len(),
{
    if ground.len() == 0 {
        (bag, seq![])
    } else {
        let (b, msgs) = picked_up(reg, bag, capacity, ground.drop_last());
        let g = ground.last();
        let (b2, left) = after_add(b, g.item_id, max_stack_of(reg, g.item_id), g.count as int, capacity);
        let took = g.count - left;
        if took > 0 {
            (b2, msgs.push("拾取了"@ + stack_name(reg, &g) + "x"@ + decimal(took as nat)))
        } else {
            (b2, msgs)
        }
    }
}

/// Picking up loses and makes nothing: for every item, the bag holds at least what
/// it held and at most that plus what lay on the ground, and the bag never shrinks;
/// when the bag ends with room to spare, every ground stack went in whole, so the bag
/// holds of each item what it held plus all that lay on the ground.
pub proof fn lemma_pickup_counts(reg: &ItemRegistry, bag: Seq<ItemStack>, capacity: usize, ground: Seq<ItemStack>, id: usize)
    ensures
        ({
            let b = picked_up(reg, bag, capacity, ground).0;
            &&& b.len() >= bag.len()
            &&& count_of(bag, id) <= count_of(b, id) <= count_of(bag, id) + count_of(ground, id)
            &&& b.len() < capacity ==> count_of(b, id) == count_of(bag, id) + count_of(ground, id)
        }),
    decreases ground.len(),
{
    if ground.len() > 0 {
        let g0 = ground.drop_last();
        lemma_pickup_counts(reg, bag, capacity, g0, id);
        let (b, msgs) = picked_up(reg, bag, capacity, g0);
        let g = ground.last();
        let max = max_stack_of(reg, g.item_id);
        lemma_add_conserves(b, g.item_id, max, g.count, capacity, id);
        lemma_add_limits(b, g.item_id, max, g.count, capacity);
        lemma_add_keeps_stacks(b, g.item_id, max, g.count, capacity);
    }
}

/// The log after each of `msgs` is logged in turn.
pub open spec fn logged_each(m: Seq<Seq<char>>, msgs: Seq<Seq<char>>) -> Seq<Seq<char>>
    decreases msgs.len(),
{
    if msgs.len() == 0 { m } else { logged(logged_each(m, msgs.drop_last()), msgs.last()) }
}

/// Picks up every stack lying at the player's feet, in order: each goes into the bag
/// as far as it fits, and the log names what went in. Every ground stack is gone
/// afterwards, also what did not fit.
pub fn pickup_ground(inv: &mut Inventory, reg: &ItemRegistry, ground: &Vec<ItemStack>, log: &mut EventLog)
    ensures
        final(inv).capacity == old(inv).capacity,
        final(inv).stacks@ == picked_up(reg, old(inv).stacks@, old(inv).capacity, ground@).0,
        log_view(final(log)) == logged_each(log_view(old(log)), picked_up(reg, old(inv).stacks@, old(inv).capacity, ground@).1),
        forall|id: usize|
            count_of(old(inv).stacks@, id) <= #[trigger] count_of(final(inv).stacks@, id) <= count_of(old(inv).stacks@, id)
                + count_of(ground@, id),
        final(inv).stacks@.len() < final(inv).capacity ==> forall|id: usize|
            #[trigger] count_of(final(inv).stacks@, id) == count_of(old(inv).stacks@, id) + count_of(ground@, id),
{
    let ghost bag0 = inv.stacks@;
    let ghost log0 = log_view(log);
    let mut i: usize = 0;
    while i < ground.len()
        invariant
            i <= ground@.len(),
            inv.capacity == old(inv).capacity,
            bag0 == old(inv).stacks@,
            log0 == log_view(old(log)),
            inv.stacks@ == picked_up(reg, bag0, inv.capacity, ground@.take(i as int)).0,
            log_view(log) == logged_each(log0, picked_up(reg, bag0, inv.capacity, ground@.take(i as int)).1),
        decreases ground@.len() - i,
    {
        proof {
            assert(ground@.take(i as int + 1).drop_last() =~= ground@.take(i as int));
        }
        let g = &ground[i];
        let left = inv.add(reg, g.item_id, g.count);
        proof {
            crate::items::lemma_add_conserves(picked_up(reg, bag0, inv.capacity, ground@.take(i as int)).0, g.item_id, max_stack_of(reg, g.item_id), g.count, inv.capacity, g.item_id);
        }
        let took = if left <= g.count { g.count - left } else { 0 };
        if took > 0 {
            let mut msg = String::new();
            push_text(&mut msg, "拾取了");
            let name = g.name(reg);
            push_text(&mut msg, name.as_str());
            push_text(&mut msg, "x");
            push_decimal(&mut msg, took as u64);
            let ghost before = picked_up(reg, bag0, inv.capacity, ground@.take(i as int)).1;
            proof {
                assert(msg@ =~= "拾取了"@ + stack_name(reg, g) + "x"@ + decimal(took as nat));
                assert(before.push(msg@).drop_last() =~= before);
            }
            log.push(msg);
        }
        i = i + 1;
    }
    assert(ground@.take(ground@.len() as int) =~= ground@);
    proof {
        assert forall|id: usize|
            count_of(old(inv).stacks@, id) <= #[trigger] count_of(inv.stacks@, id) <= count_of(old(inv).stacks@, id)
                + count_of(ground@, id) by {
            lemma_pickup_counts(reg, bag0, inv.capacity, ground@, id);
        }
        if inv.stacks@.len() < inv.capacity {
            assert forall|id: usize| #[trigger] count_of(inv.stacks@, id) == count_of(old(inv).stacks@, id) + count_of(ground@, id) by {
                lemma_pickup_counts(reg, bag0, inv.capacity, ground@, id);
            }
        }
    }
}

} // verus!
