use vstd::prelude::*;
use crate::text::{push_text, push_decimal, decimal};

verus! {

pub const ITEM_RUSTY_SWORD: usize = 0;
pub const ITEM_WOOD_SHIELD: usize = 1;
pub const ITEM_LEATHER_ARMOR: usize = 2;
pub const ITEM_ATTACK_RING: usize = 3;
pub const ITEM_BIOMASS: usize = 10;
pub const ITEM_CLOTH: usize = 11;
pub const ITEM_STICK: usize = 12;
pub const ITEM_FANG: usize = 13;
pub const ITEM_CHITIN: usize = 14;
pub const ITEM_SCROLL_HEAL: usize = 15;
pub const ITEM_SCROLL_SHIELD: usize = 16;
pub const ITEM_SCROLL_BERSERK: usize = 17;

/// What kind of thing an item is (for display).
#[derive(Clone, Copy, Debug, PartialEq, Eq, Structural)]
pub enum ItemClass {
    Weapon,
    Armor,
    Ring,
    Consumable,
    Material,
    Quest,
}

impl ItemClass {
    /// The class's name as shown to the player.
    pub fn display_name(&self) -> (s: &'static str)
        ensures
            s@ == match *self {
                ItemClass::Weapon => "武器"@,
                ItemClass::Armor => "防具"@,
                ItemClass::Ring => "戒指"@,
                ItemClass::Consumable => "消耗品"@,
                ItemClass::Material => "材料"@,
                ItemClass::Quest => "任务物品"@,
            },
    {
        match self {
            ItemClass::Weapon => "武器",
            ItemClass::Armor => "防具",
            ItemClass::Ring => "戒指",
            ItemClass::Consumable => "消耗品",
            ItemClass::Material => "材料",
            ItemClass::Quest => "任务物品",
        }
    }

    /// A one-character ASCII icon for the class.
    pub fn icon(&self) -> (s: &'static str)
        ensures
            s@ == match *self {
                ItemClass::Weapon => "/"@,
                ItemClass::Armor => "]"@,
                ItemClass::Ring => "="@,
                ItemClass::Consumable => "!"@,
                ItemClass::Material => "&"@,
                ItemClass::Quest => "*"@,
            },
    {
        match self {
            ItemClass::Weapon => "/",
            ItemClass::Armor => "]",
            ItemClass::Ring => "=",
            ItemClass::Consumable => "!",
            ItemClass::Material => "&",
            ItemClass::Quest => "*",
        }
    }
}

/// How rare an item is.
#[derive(Clone, Copy, Debug, PartialEq, Eq, Structural)]
pub enum Rarity {
    Common,
    Uncommon,
    Rare,
    Epic,
}

impl Default for Rarity {
    /// Common.
    fn default() -> (r: Rarity)
        ensures
            r == Rarity::Common,
    {
        Rarity::Common
    }
}

impl Rarity {
    /// The rarity's name as shown to the player.
    pub fn display_name(&self) -> (s: &'static str)
        ensures
            s@ == match *self {
                Rarity::Common => "普通"@,
                Rarity::Uncommon => "优秀"@,
                Rarity::Rare => "稀有"@,
                Rarity::Epic => "传说"@,
            },
    {
        match self {
            Rarity::Common => "普通",
            Rarity::Uncommon => "优秀",
            Rarity::Rare => "稀有",
            Rarity::Epic => "传说",
        }
    }
}

/// Where an item is worn.
#[derive(Clone, Copy, Debug, PartialEq, Eq, Structural)]
pub enum EquipmentSlot {
    Weapon,
    Armor,
    Ring,
}

/// What an item adds to its wearer's stats; critical rate and damage in thousandths.
#[derive(Clone, Copy, Debug, PartialEq, Eq, Structural)]
pub struct StatBonus {
    pub attack: i32,
    pub defense: i32,
    pub magic_mastery: i32,
    pub agility: i32,
    pub hp: i32,
    pub crit_rate_permille: i32,
    pub crit_damage_permille: i32,
}

impl Default for StatBonus {
    /// No bonus.
    fn default() -> (b: StatBonus)
        ensures
            b == zero_bonus(),
    {
        StatBonus {
            attack: 0,
            defense: 0,
            magic_mastery: 0,
            agility: 0,
            hp: 0,
            crit_rate_permille: 0,
            crit_damage_permille: 0,
        }
    }
}

/// The bonus that adds nothing.
pub open spec fn zero_bonus() -> StatBonus {
    StatBonus {
        attack: 0,
        defense: 0,
        magic_mastery: 0,
        agility: 0,
        hp: 0,
        crit_rate_permille: 0,
        crit_damage_permille: 0,
    }
}

/// Data of one item instance beyond its template; absent means the template as is.
pub struct ItemMeta {
    /// A name of its own, in place of the template's.
    pub display_name: Option<String>,
    /// Quality tier (0 = base).
    pub tier: u32,
    pub durability: Option<u32>,
    /// Tags of this instance only.
    pub tags: Vec<String>,
}

/// An item template of the registry.
pub struct ItemDef {
    pub id: usize,
    pub name: String,
    pub description: String,
    pub glyph: char,
    pub color: (u8, u8, u8),
    pub class: ItemClass,
    pub slot: Option<EquipmentSlot>,
    pub max_stack: u32,
    pub bonus: StatBonus,
    pub rarity: Rarity,
    pub tags: Vec<String>,
}

impl ItemDef {
    /// Whether the template carries `tag`.
    pub fn has_tag(&self, tag: &str) -> (b: bool)
        ensures
            b == exists|i: int| 0 <= i < self.tags@.len() && (#[trigger] self.tags@[i])@ == tag@,
    {
        let wanted = tag.to_owned();
        let mut i: usize = 0;
        while i < self.tags.len()
            invariant
                i <= self.tags@.len(),
                wanted@ == tag@,
                forall|k: int| 0 <= k < i ==> (#[trigger] self.tags@[k])@ != tag@,
            decreases self.tags@.len() - i,
        {
            if self.tags[i] == wanted {
                return true;
            }
            i = i + 1;
        }
        false
    }
}

/// All item templates, each at the position of its id.
pub struct ItemRegistry {
    pub items: Vec<Option<ItemDef>>,
}

/// The template of `id`, if the registry has one.
pub open spec fn def_of(reg: &ItemRegistry, id: usize) -> Option<&ItemDef> {
    if id < reg.items@.len() {
        match reg.items@[id as int] {
            Some(d) => Some(&d),
            None => None,
        }
    } else {
        None
    }
}

/// How many of `id` fit in one stack: the template's limit, or 1 without a template.
pub open spec fn max_stack_of(reg: &ItemRegistry, id: usize) -> u32 {
    match def_of(reg, id) {
        Some(d) => d.max_stack,
        None => 1,
    }
}

/// The largest id among `defs` (0 when there are none).
pub open spec fn max_id(defs: Seq<ItemDef>) -> int
    decreases defs.len(),
{
    if defs.len() == 0 {
        0
    } else {
        let m = max_id(defs.drop_last());
        if defs.last().id > m { defs.last().id as int } else { m }
    }
}

/// The position of the last template of `defs` with id `id` (-1 when there is none).
pub open spec fn last_with_id(defs: Seq<ItemDef>, id: int) -> int
    decreases defs.len(),
{
    if defs.len() == 0 {
        -1
    } else if defs.last().id == id {
        defs.len() - 1
    } else {
        last_with_id(defs.drop_last(), id)
    }
}

proof fn lemma_max_id(defs: Seq<ItemDef>)
    ensures
        max_id(defs) >= 0,
        (forall|i: int| 0 <= i < defs.len() ==> (#[trigger] defs[i]).id < usize::MAX) ==> max_id(defs) < usize::MAX,
        forall|i: int| 0 <= i < defs.len() ==> (#[trigger] defs[i]).id <= max_id(defs),
    decreases defs.len(),
{
    if defs.len() > 0 {
        lemma_max_id(defs.drop_last());
        assert forall|i: int| 0 <= i < defs.len() - 1 implies (#[trigger] defs[i]).id <= max_id(defs) by {
            assert(defs.drop_last()[i] == defs[i]);
        }
        if forall|i: int| 0 <= i < defs.len() ==> (#[trigger] defs[i]).id < usize::MAX {
            assert forall|i: int| 0 <= i < defs.len() - 1 implies (#[trigger] defs.drop_last()[i]).id < usize::MAX by {
                assert(defs.drop_last()[i] == defs[i]);
            }
            assert(defs[defs.len() - 1].id < usize::MAX);
        }
    }
}

proof fn lemma_last_with_id(defs: Seq<ItemDef>, id: int)
    ensures
        -1 <= last_with_id(defs, id) < defs.len(),
        last_with_id(defs, id) >= 0 ==> defs[last_with_id(defs, id)].id == id,
        forall|j: int| last_with_id(defs, id) < j < defs.len() ==> (#[trigger] defs[j]).id != id,
    decreases defs.len(),
{
    if defs.len() > 0 && defs.last().id != id {
        let t = defs.drop_last();
        lemma_last_with_id(t, id);
        assert forall|j: int| last_with_id(defs, id) < j < defs.len() implies (#[trigger] defs[j]).id != id by {
            if j < t.len() {
                assert(t[j] == defs[j]);
            }
        }
        if last_with_id(t, id) >= 0 {
            assert(t[last_with_id(t, id)] == defs[last_with_id(t, id)]);
        }
    }
}

impl ItemRegistry {
    /// Places each template at its id; where two share an id, the later one wins.
    /// The registry reaches up to the largest id.
    pub fn from_defs(defs: Vec<ItemDef>) -> (reg: ItemRegistry)
        requires
            forall|i: int| 0 <= i < defs@.len() ==> (#[trigger] defs@[i]).id < usize::MAX,
        ensures
            reg.items@.len() == max_id(defs@) + 1,
            forall|id: int|
                0 <= id < reg.items@.len() ==> (#[trigger] reg.items@[id] is Some) == (last_with_id(defs@, id) >= 0),
            forall|id: int|
                0 <= id < reg.items@.len() && last_with_id(defs@, id) >= 0 ==> #[trigger] reg.items@[id] == Some(
                    defs@[last_with_id(defs@, id)],
                ),
    {
        let ghost d0 = defs@;
        let mut top: usize = 0;
        let mut i: usize = 0;
        while i < defs.len()
            invariant
                i <= defs@.len(),
                d0 == defs@,
                forall|k: int| 0 <= k < defs@.len() ==> (#[trigger] defs@[k]).id < usize::MAX,
                top == max_id(defs@.take(i as int)),
            decreases defs@.len() - i,
        {
            proof {
                assert(defs@.take(i as int + 1).drop_last() =~= defs@.take(i as int));
            }
            if defs[i].id > top {
                top = defs[i].id;
            }
            i = i + 1;
        }
        assert(defs@.take(defs@.len() as int) =~= defs@);
        proof {
            lemma_max_id(d0);
        }
        let mut items: Vec<Option<ItemDef>> = Vec::new();
        let mut n: usize = 0;
        while n <= top
            invariant
                n <= top + 1,
                top < usize::MAX,
                items@.len() == n,
                forall|k: int| 0 <= k < n ==> (#[trigger] items@[k]) is None,
            decreases top + 1 - n,
        {
            items.push(None);
            n = n + 1;
        }
        proof {
            assert forall|id: int| 0 <= id < items@.len() implies (#[trigger] items@[id] is Some) == (last_with_id(
                d0,
                id,
            ) >= d0.len()) by {
                lemma_last_with_id(d0, id);
            }
            assert(d0.take(d0.len() as int) =~= d0);
        }
        let mut rest = defs;
        while rest.len() > 0
            invariant
                rest@ == d0.take(rest@.len() as int),
                rest@.len() <= d0.len(),
                items@.len() == top + 1,
                top == max_id(d0),
                forall|k: int| 0 <= k < d0.len() ==> (#[trigger] d0[k]).id <= top,
                forall|id: int|
                    0 <= id < items@.len() ==> (#[trigger] items@[id] is Some) == (last_with_id(d0, id)
                        >= rest@.len()),
                forall|id: int|
                    0 <= id < items@.len() && last_with_id(d0, id) >= rest@.len() ==> #[trigger] items@[id]
                        == Some(d0[last_with_id(d0, id)]),
            decreases rest@.len(),
        {
            let ghost r0 = rest@;
            let def = rest.pop().unwrap();
            let id = def.id;
            proof {
                assert(def == d0[rest@.len() as int]);
                assert(rest@ =~= d0.take(rest@.len() as int));
                lemma_last_with_id(d0, id as int);
                lemma_last_with_id(d0.take(r0.len() as int), id as int);
            }
            if items[id].is_none() {
                proof {
                    let j = rest@.len() as int;
                    assert(last_with_id(d0, id as int) < r0.len());
                    if last_with_id(d0, id as int) < j {
                        assert(d0[j].id == id);
                    }
                    assert(last_with_id(d0, id as int) == j);
                }
                items.set(id, Some(def));
            } else {
                proof {
                    assert(last_with_id(d0, id as int) >= r0.len());
                }
            }
            proof {
                let j = rest@.len() as int;
                assert forall|x: int| 0 <= x < items@.len() implies (#[trigger] items@[x] is Some) == (last_with_id(
                    d0,
                    x,
                ) >= j) by {
                    lemma_last_with_id(d0, x);
                    if x != id {
                        if last_with_id(d0, x) == j {
                            assert(d0[j].id == x);
                        }
                    }
                }
            }
        }
        ItemRegistry { items }
    }

    /// The template of `id`, if any.
    pub fn get(&self, id: usize) -> (d: Option<&ItemDef>)
        ensures
            d == def_of(self, id),
    {
        if id < self.items.len() {
            self.items[id].as_ref()
        } else {
            None
        }
    }
}

/// A pile of one kind of item.
pub struct ItemStack {
    pub item_id: usize,
    pub count: u32,
    /// Instance data; absent means the template as is.
    pub meta: Option<Box<ItemMeta>>,
}

/// The name shown for a stack: its own name when it has one, else its template's,
/// else `未知物品(<id>)`.
pub open spec fn stack_name(reg: &ItemRegistry, s: &ItemStack) -> Seq<char> {
    let fallback = match def_of(reg, s.item_id) {
        Some(d) => d.name@,
        None => "未知物品("@ + decimal(s.item_id as nat) + ")"@,
    };
    match s.meta {
        Some(m) => match m.display_name {
            Some(n) => n@,
            None => fallback,
        },
        None => fallback,
    }
}

/// Room left in a stack of `count` items of limit `max` (none when over the limit).
pub open spec fn room_left(max: u32, count: u32) -> u32 {
    if max > count { (max - count) as u32 } else { 0 }
}

impl ItemStack {
    /// `count` items of `item_id`, as the template has them.
    pub fn new(item_id: usize, count: u32) -> (s: ItemStack)
        ensures
            s.item_id == item_id,
            s.count == count,
            s.meta is None,
    {
        ItemStack { item_id, count, meta: None }
    }

    /// The stack's template.
    pub fn def<'a>(&self, reg: &'a ItemRegistry) -> (d: Option<&'a ItemDef>)
        ensures
            d == def_of(reg, self.item_id),
    {
        reg.get(self.item_id)
    }

    /// The name shown for the stack.
    pub fn name(&self, reg: &ItemRegistry) -> (n: String)
        ensures
            n@ == stack_name(reg, self),
    {
        match &self.meta {
            Some(m) => match &m.display_name {
                Some(custom) => {
                    return custom.clone();
                },
                None => {},
            },
            None => {},
        }
        match self.def(reg) {
            Some(d) => d.name.clone(),
            None => {
                let mut s = String::new();
                push_text(&mut s, "未知物品(");
                push_decimal(&mut s, self.item_id as u64);
                push_text(&mut s, ")");
                s
            },
        }
    }

    /// The template's description (empty without a template).
    pub fn description(&self, reg: &ItemRegistry) -> (t: String)
        ensures
            t@ == match def_of(reg, self.item_id) {
                Some(d) => d.description@,
                None => Seq::<char>::empty(),
            },
    {
        match self.def(reg) {
            Some(d) => d.description.clone(),
            None => String::new(),
        }
    }

    /// The template's map character (`?` without a template).
    pub fn glyph(&self, reg: &ItemRegistry) -> (c: char)
        ensures
            c == match def_of(reg, self.item_id) {
                Some(d) => d.glyph,
                None => '?',
            },
    {
        match self.def(reg) {
            Some(d) => d.glyph,
            None => '?',
        }
    }

    /// The template's colour (white without a template).
    pub fn color(&self, reg: &ItemRegistry) -> (c: (u8, u8, u8))
        ensures
            c == match def_of(reg, self.item_id) {
                Some(d) => d.color,
                None => (255u8, 255u8, 255u8),
            },
    {
        match self.def(reg) {
            Some(d) => d.color,
            None => (255, 255, 255),
        }
    }

    /// How many such items one stack holds.
    pub fn max_stack(&self, reg: &ItemRegistry) -> (m: u32)
        ensures
            m == max_stack_of(reg, self.item_id),
    {
        match self.def(reg) {
            Some(d) => d.max_stack,
            None => 1,
        }
    }

    /// Whether the stack holds as many as it may.
    pub fn is_full(&self, reg: &ItemRegistry) -> (b: bool)
        ensures
            b == (self.count >= max_stack_of(reg, self.item_id)),
    {
        self.count >= self.max_stack(reg)
    }

    /// How many more items the stack takes.
    pub fn space(&self, reg: &ItemRegistry) -> (n: u32)
        ensures
            n == room_left(max_stack_of(reg, self.item_id), self.count),
    {
        let m = self.max_stack(reg);
        if m > self.count { m - self.count } else { 0 }
    }

    /// Puts up to `count` items into the stack, as many as fit, and returns how many
    /// went in.
    pub fn add_up_to(&mut self, reg: &ItemRegistry, count: u32) -> (put: u32)
        ensures
            put == if count < room_left(max_stack_of(reg, old(self).item_id), old(self).count) {
                count
            } else {
                room_left(max_stack_of(reg, old(self).item_id), old(self).count)
            },
            final(self).count == old(self).count + put,
            final(self).item_id == old(self).item_id,
            final(self).meta == old(self).meta,
    {
        let space = self.space(reg);
        let actual = if count < space { count } else { space };
        self.count = self.count + actual;
        actual
    }
}

/// `s` with `count` set to `n`.
pub open spec fn with_count(s: ItemStack, n: u32) -> ItemStack {
    ItemStack { count: n, ..s }
}

/// Topping up, in order, the stacks of `id` that have room (limit `max`) with `count`
/// items: the stacks afterwards and how many items are left.
pub open spec fn topped_up(s: Seq<ItemStack>, id: usize, max: u32, count: int) -> (Seq<ItemStack>, int)
    decreases s.len(),
{
    if s.len() == 0 {
        (s, count)
    } else {
        let (t, c) = topped_up(s.drop_last(), id, max, count);
        let x = s.last();
        if x.item_id == id && x.count < max && c > 0 {
            let put = if c < max - x.count { c } else { max - x.count };
            (t.push(with_count(x, (x.count + put) as u32)), c - put)
        } else {
            (t.push(x), c)
        }
    }
}

/// Adding new stacks of `id` (at most `max` each) for `count` items while there are
/// fewer than `capacity` stacks: the stacks afterwards and how many items are left.
pub open spec fn new_stacks(s: Seq<ItemStack>, id: usize, max: u32, count: int, capacity: usize) -> (Seq<ItemStack>, int)
    decreases capacity - s.len(),
{
    if count > 0 && s.len() < capacity {
        let put = if count < max { count } else { max as int };
        new_stacks(s.push(ItemStack { item_id: id, count: put as u32, meta: None }), id, max, count - put, capacity)
    } else {
        (s, count)
    }
}

/// The stacks after adding `count` of `id`, and how many did not fit.
pub open spec fn after_add(s: Seq<ItemStack>, id: usize, max: u32, count: int, capacity: usize) -> (Seq<ItemStack>, int) {
    if count == 0 {
        (s, 0)
    } else {
        let (t, c) = topped_up(s, id, max, count);
        new_stacks(t, id, max, c, capacity)
    }
}

/// How many of `count` items of `id` the stacks with room cannot take.
pub open spec fn left_after_topping(s: Seq<ItemStack>, id: usize, max: u32, count: int) -> int
    decreases s.len(),
{
    if s.len() == 0 {
        count
    } else {
        let c = left_after_topping(s.drop_last(), id, max, count);
        let x = s.last();
        if x.item_id == id && x.count < max {
            if c > max - x.count { c - (max - x.count) } else { 0 }
        } else {
            c
        }
    }
}

/// `a / b` rounded up.
pub open spec fn ceil_div(a: int, b: int) -> int {
    (a + b - 1) / b
}

/// Whether `count` items of `id` fit: the stacks with room take some, and the rest
/// needs few enough new stacks.
pub open spec fn fits(s: Seq<ItemStack>, id: usize, max: u32, count: int, capacity: usize) -> bool {
    let left = left_after_topping(s, id, max, count);
    count == 0 || left == 0 || s.len() + ceil_div(left, max as int) <= capacity
}

/// The items carried: stacks, and at most `capacity` of them filled by adding.
pub struct Inventory {
    pub stacks: Vec<ItemStack>,
    pub capacity: usize,
}

impl Default for Inventory {
    /// An empty bag of 36 stacks.
    fn default() -> (i: Inventory)
        ensures
            i.stacks@.len() == 0,
            i.capacity == 36,
    {
        Inventory::new(36)
    }
}

impl Inventory {
    /// An empty bag that holds `capacity` stacks.
    pub fn new(capacity: usize) -> (i: Inventory)
        ensures
            i.stacks@.len() == 0,
            i.capacity == capacity,
    {
        Inventory { stacks: Vec::new(), capacity }
    }

    /// Adds `count` items of `item_id`: first into the stacks of that item with room,
    /// in order, then into new stacks (of at most the item's limit each) while the
    /// bag has room. Returns how many did not fit.
    pub fn add(&mut self, reg: &ItemRegistry, item_id: usize, count: u32) -> (left: u32)
        ensures
            final(self).capacity == old(self).capacity,
            (final(self).stacks@, left as int) == after_add(
                old(self).stacks@,
                item_id,
                max_stack_of(reg, item_id),
                count as int,
                old(self).capacity,
            ),
    {
        if count == 0 {
            return 0;
        }
        let max = reg_max_stack(reg, item_id);
        let ghost s0 = self.stacks@;
        let mut left = count;
        let mut i: usize = 0;
        while i < self.stacks.len()
            invariant
                i <= self.stacks@.len(),
                self.stacks@.len() == s0.len(),
                max == max_stack_of(reg, item_id),
                left > 0,
                count > 0,
                s0 == old(self).stacks@,
                self.capacity == old(self).capacity,
                (self.stacks@.take(i as int), left as int) == topped_up(s0.take(i as int), item_id, max, count as int),
                forall|k: int| i <= k < s0.len() ==> #[trigger] self.stacks@[k] == s0[k],
            decreases s0.len() - i,
        {
            proof {
                assert(s0.take(i as int + 1).drop_last() =~= s0.take(i as int));
            }
            let ghost before = self.stacks@;
            if self.stacks[i].item_id == item_id && !self.stacks[i].is_full(reg) {
                let mut st = self.stacks.remove(i);
                let put = st.add_up_to(reg, left);
                self.stacks.insert(i, st);
                left = left - put;
                proof {
                    assert(self.stacks@ =~= before.update(i as int, with_count(before[i as int], st.count)));
                    assert(self.stacks@.take(i as int + 1) =~= before.take(i as int).push(
                        with_count(s0[i as int], st.count),
                    ));
                }
                if left == 0 {
                    proof {
                        lemma_topped_up_done(s0, item_id, max, count as int, i as int + 1);
                        assert(self.stacks@ =~= self.stacks@.take(i as int + 1) + s0.skip(i as int + 1));
                        assert(s0 =~= s0.take(i as int + 1) + s0.skip(i as int + 1));
                        assert(topped_up(s0, item_id, max, count as int).0 == self.stacks@);
                        assert(new_stacks(self.stacks@, item_id, max, 0, self.capacity) == (self.stacks@, 0int));
                    }
                    return 0;
                }
            } else {
                proof {
                    assert(self.stacks@.take(i as int + 1) =~= before.take(i as int).push(s0[i as int]));
                }
            }
            i = i + 1;
        }
        proof {
            assert(s0.take(s0.len() as int) =~= s0);
            assert(self.stacks@.take(s0.len() as int) =~= self.stacks@);
        }
        while left > 0 && self.stacks.len() < self.capacity
            invariant
                max == max_stack_of(reg, item_id),
                self.capacity == old(self).capacity,
                s0 == old(self).stacks@,
                new_stacks(self.stacks@, item_id, max, left as int, self.capacity) == after_add(
                    s0,
                    item_id,
                    max,
                    count as int,
                    self.capacity,
                ),
            decreases self.capacity - self.stacks@.len(),
        {
            let put = if left < max { left } else { max };
            self.stacks.push(ItemStack::new(item_id, put));
            left = left - put;
        }
        left
    }

    /// Takes up to `count` items from the stack at `index`; an emptied stack is
    /// removed. Returns how many were taken (none for a missing stack).
    pub fn remove(&mut self, index: usize, count: u32) -> (taken: u32)
        ensures
            final(self).capacity == old(self).capacity,
            index >= old(self).stacks@.len() ==> taken == 0 && final(self).stacks@ == old(self).stacks@,
            index < old(self).stacks@.len() ==> {
                let st = old(self).stacks@[index as int];
                &&& taken == if count < st.count { count } else { st.count }
                &&& final(self).stacks@ == if st.count - taken == 0 {
                    old(self).stacks@.remove(index as int)
                } else {
                    old(self).stacks@.update(index as int, with_count(st, (st.count - taken) as u32))
                }
            },
    {
        if index >= self.stacks.len() {
            return 0;
        }
        let ghost s0 = self.stacks@;
        let mut st = self.stacks.remove(index);
        let actual = if count < st.count { count } else { st.count };
        st.count = st.count - actual;
        if st.count != 0 {
            self.stacks.insert(index, st);
            proof {
                assert(self.stacks@ =~= s0.update(index as int, with_count(s0[index as int], st.count)));
            }
        }
        actual
    }

    /// Takes out the whole stack at `index`, if there is one.
    pub fn drop_stack(&mut self, index: usize) -> (r: Option<ItemStack>)
        ensures
            final(self).capacity == old(self).capacity,
            index < old(self).stacks@.len() ==> r == Some(old(self).stacks@[index as int]) && final(self).stacks@
                == old(self).stacks@.remove(index as int),
            index >= old(self).stacks@.len() ==> r is None && final(self).stacks@ == old(self).stacks@,
    {
        if index < self.stacks.len() {
            Some(self.stacks.remove(index))
        } else {
            None
        }
    }

    /// Whether `count` items of `item_id` would all fit, without changing the bag.
    pub fn can_add(&self, reg: &ItemRegistry, item_id: usize, count: u32) -> (b: bool)
        requires
            count == 0 || max_stack_of(reg, item_id) > 0,
        ensures
            b == fits(self.stacks@, item_id, max_stack_of(reg, item_id), count as int, self.capacity),
    {
        if count == 0 {
            return true;
        }
        let max = reg_max_stack(reg, item_id);
        let mut remaining = count;
        let mut i: usize = 0;
        while i < self.stacks.len()
            invariant
                i <= self.stacks@.len(),
                max == max_stack_of(reg, item_id),
                max > 0,
                remaining > 0,
                remaining as int == left_after_topping(self.stacks@.take(i as int), item_id, max, count as int),
            decreases self.stacks@.len() - i,
        {
            proof {
                assert(self.stacks@.take(i as int + 1).drop_last() =~= self.stacks@.take(i as int));
            }
            let st = &self.stacks[i];
            if st.item_id == item_id && !st.is_full(reg) {
                let space = st.max_stack(reg) - st.count;
                remaining = if remaining > space { remaining - space } else { 0 };
                if remaining == 0 {
                    proof {
                        lemma_left_after_topping_done(self.stacks@, item_id, max, count as int, i as int + 1);
                    }
                    return true;
                }
            }
            i = i + 1;
        }
        proof {
            assert(self.stacks@.take(self.stacks@.len() as int) =~= self.stacks@);
        }
        let needed: u64 = (remaining as u64 + max as u64 - 1) / max as u64;
        (self.stacks.len() as u128) + (needed as u128) <= self.capacity as u128
    }
}

/// The stack limit of `id`.
fn reg_max_stack(reg: &ItemRegistry, id: usize) -> (m: u32)
    ensures
        m == max_stack_of(reg, id),
{
    match reg.get(id) {
        Some(d) => d.max_stack,
        None => 1,
    }
}

/// Once nothing is left to add, the remaining stacks are kept as they are.
proof fn lemma_topped_up_done(s: Seq<ItemStack>, id: usize, max: u32, count: int, n: int)
    requires
        0 <= n <= s.len(),
        topped_up(s.take(n), id, max, count).1 == 0,
    ensures
        topped_up(s, id, max, count) == (topped_up(s.take(n), id, max, count).0 + s.skip(n), 0int),
    decreases s.len() - n,
{
    if n < s.len() {
        assert(s.take(n + 1).drop_last() =~= s.take(n));
        assert(s.take(n + 1).last() == s[n]);
        lemma_topped_up_done(s, id, max, count, n + 1);
        assert(topped_up(s.take(n), id, max, count).0 + s.skip(n) =~= topped_up(s.take(n), id, max, count).0.push(
            s[n],
        ) + s.skip(n + 1));
    } else {
        assert(s.take(n) =~= s);
        assert(s.skip(n) =~= Seq::<ItemStack>::empty());
        assert(topped_up(s.take(n), id, max, count).0 + s.skip(n) =~= topped_up(s.take(n), id, max, count).0);
    }
}

/// Once the stacks with room have taken everything, nothing is left at the end.
proof fn lemma_left_after_topping_done(s: Seq<ItemStack>, id: usize, max: u32, count: int, n: int)
    requires
        0 <= n <= s.len(),
        left_after_topping(s.take(n), id, max, count) == 0,
    ensures
        left_after_topping(s, id, max, count) == 0,
    decreases s.len() - n,
{
    if n < s.len() {
        assert(s.take(n + 1).drop_last() =~= s.take(n));
        lemma_left_after_topping_done(s, id, max, count, n + 1);
    } else {
        assert(s.take(n) =~= s);
    }
}

/// Topping up leaves as many items as the stacks with room cannot take, and keeps the
/// number of stacks.
proof fn lemma_topped_up_left(s: Seq<ItemStack>, id: usize, max: u32, count: int)
    requires
        count >= 0,
    ensures
        topped_up(s, id, max, count).1 == left_after_topping(s, id, max, count),
        topped_up(s, id, max, count).0.len() == s.len(),
        topped_up(s, id, max, count).1 >= 0,
    decreases s.len(),
{
    if s.len() > 0 {
        lemma_topped_up_left(s.drop_last(), id, max, count);
    }
}

/// `ceil_div` of a positive amount: one for at most a full stack, one more per
/// further full stack.
proof fn lemma_ceil_div_step(c: int, max: int)
    requires
        c > 0,
        max > 0,
    ensures
        c <= max ==> ceil_div(c, max) == 1,
        c > max ==> ceil_div(c, max) == ceil_div(c - max, max) + 1,
        ceil_div(c, max) >= 1,
{
    assert(c <= max ==> (c + max - 1) / max == 1) by (nonlinear_arith)
        requires c > 0, max > 0;
    assert(c > max ==> (c + max - 1) / max == (c - max + max - 1) / max + 1) by (nonlinear_arith)
        requires c > 0, max > 0;
    assert((c + max - 1) / max >= 1) by (nonlinear_arith)
        requires c > 0, max > 0;
}

/// New stacks take all of `c` items exactly when enough stacks are free.
proof fn lemma_new_stacks_left(t: Seq<ItemStack>, id: usize, max: u32, c: int, capacity: usize)
    requires
        c >= 0,
        max > 0,
    ensures
        (new_stacks(t, id, max, c, capacity).1 == 0) <==> (c == 0 || t.len() + ceil_div(c, max as int) <= capacity),
    decreases capacity - t.len(),
{
    if c > 0 {
        lemma_ceil_div_step(c, max as int);
        if t.len() < capacity {
            let put = if c < max { c } else { max as int };
            lemma_new_stacks_left(t.push(ItemStack { item_id: id, count: put as u32, meta: None }), id, max, c - put, capacity);
        }
    }
}

/// Asking whether items fit agrees with adding them: `can_add` says yes exactly when
/// `add` leaves nothing over.
pub proof fn lemma_can_add_iff_add_fits(s: Seq<ItemStack>, id: usize, max: u32, count: u32, capacity: usize)
    requires
        count == 0 || max > 0,
    ensures
        fits(s, id, max, count as int, capacity) <==> after_add(s, id, max, count as int, capacity).1 == 0,
{
    if count > 0 {
        lemma_topped_up_left(s, id, max, count as int);
        let (t, c) = topped_up(s, id, max, count as int);
        lemma_new_stacks_left(t, id, max, c, capacity);
    }
}

/// How many items of `id` the stacks hold in all.
pub open spec fn count_of(s: Seq<ItemStack>, id: usize) -> int
    decreases s.len(),
{
    if s.len() == 0 {
        0
    } else {
        count_of(s.drop_last(), id) + if s.last().item_id == id { s.last().count as int } else { 0 }
    }
}

proof fn lemma_count_of_push(s: Seq<ItemStack>, x: ItemStack, id: usize)
    ensures
        count_of(s.push(x), id) == count_of(s, id) + if x.item_id == id { x.count as int } else { 0 },
{
    assert(s.push(x).drop_last() =~= s);
}

proof fn lemma_topped_up_conserves(s: Seq<ItemStack>, id: usize, max: u32, count: int, other: usize)
    requires
        count >= 0,
    ensures
        count_of(topped_up(s, id, max, count).0, id) + topped_up(s, id, max, count).1 == count_of(s, id) + count,
        other != id ==> count_of(topped_up(s, id, max, count).0, other) == count_of(s, other),
    decreases s.len(),
{
    if s.len() > 0 {
        let t0 = s.drop_last();
        lemma_topped_up_conserves(t0, id, max, count, other);
        let (t, c) = topped_up(t0, id, max, count);
        let x = s.last();
        if x.item_id == id && x.count < max && c > 0 {
            let put = if c < max - x.count { c } else { max - x.count };
            lemma_count_of_push(t, with_count(x, (x.count + put) as u32), id);
            lemma_count_of_push(t, with_count(x, (x.count + put) as u32), other);
        } else {
            lemma_count_of_push(t, x, id);
            lemma_count_of_push(t, x, other);
        }
    }
}

proof fn lemma_new_stacks_conserve(t: Seq<ItemStack>, id: usize, max: u32, c: int, capacity: usize, other: usize)
    requires
        c >= 0,
    ensures
        count_of(new_stacks(t, id, max, c, capacity).0, id) + new_stacks(t, id, max, c, capacity).1 == count_of(t, id) + c,
        other != id ==> count_of(new_stacks(t, id, max, c, capacity).0, other) == count_of(t, other),
        new_stacks(t, id, max, c, capacity).0.len() <= if t.len() > capacity { t.len() as int } else { capacity as int },
        new_stacks(t, id, max, c, capacity).0.len() >= t.len(),
    decreases capacity - t.len(),
{
    if c > 0 && t.len() < capacity {
        let put = if c < max { c } else { max as int };
        let x = ItemStack { item_id: id, count: put as u32, meta: None };
        lemma_new_stacks_conserve(t.push(x), id, max, c - put, capacity, other);
        lemma_count_of_push(t, x, id);
        lemma_count_of_push(t, x, other);
    }
}

/// Adding loses and makes nothing: what went into the bag plus what was left over is
/// what was added, other items keep their counts, and the bag grows past its
/// capacity only if it was already past it.
pub proof fn lemma_add_conserves(s: Seq<ItemStack>, id: usize, max: u32, count: u32, capacity: usize, other: usize)
    ensures
        count_of(after_add(s, id, max, count as int, capacity).0, id) + after_add(s, id, max, count as int, capacity).1
            == count_of(s, id) + count,
        other != id ==> count_of(after_add(s, id, max, count as int, capacity).0, other) == count_of(s, other),
        after_add(s, id, max, count as int, capacity).0.len() <= if s.len() > capacity {
            s.len() as int
        } else {
            capacity as int
        },
{
    if count > 0 {
        lemma_topped_up_conserves(s, id, max, count as int, other);
        lemma_topped_up_left(s, id, max, count as int);
        let (t, c) = topped_up(s, id, max, count as int);
        lemma_new_stacks_conserve(t, id, max, c, capacity, other);
    }
}

/// Old stacks keep their place, item and marks (counts only grow); every stack past
/// them holds `id`.
pub open spec fn keeps_stacks(s: Seq<ItemStack>, t: Seq<ItemStack>, id: usize) -> bool {
    &&& t.len() >= s.len()
    &&& forall|i: int|
        0 <= i < s.len() ==> (#[trigger] t[i]).item_id == s[i].item_id && t[i].meta == s[i].meta && t[i].count
            >= s[i].count
    &&& forall|i: int| s.len() <= i < t.len() ==> (#[trigger] t[i]).item_id == id
}

proof fn lemma_topped_up_keeps(s: Seq<ItemStack>, id: usize, max: u32, count: int)
    ensures
        topped_up(s, id, max, count).0.len() == s.len(),
        keeps_stacks(s, topped_up(s, id, max, count).0, id),
    decreases s.len(),
{
    if s.len() > 0 {
        let s0 = s.drop_last();
        lemma_topped_up_keeps(s0, id, max, count);
        let t = topped_up(s0, id, max, count).0;
        let t2 = topped_up(s, id, max, count).0;
        assert forall|i: int| 0 <= i < s.len() implies (#[trigger] t2[i]).item_id == s[i].item_id && t2[i].meta
            == s[i].meta && t2[i].count >= s[i].count by {
            if i < s.len() - 1 {
                assert(t2[i] == t[i]);
                assert(s[i] == s0[i]);
            }
        }
    }
}

proof fn lemma_new_stacks_keep(t: Seq<ItemStack>, id: usize, max: u32, c: int, capacity: usize)
    ensures
        keeps_stacks(t, new_stacks(t, id, max, c, capacity).0, id),
    decreases capacity - t.len(),
{
    if c > 0 && t.len() < capacity {
        let put = if c < max { c } else { max as int };
        let x = ItemStack { item_id: id, count: put as u32, meta: None };
        let t1 = t.push(x);
        lemma_new_stacks_keep(t1, id, max, c - put, capacity);
        let r = new_stacks(t, id, max, c, capacity).0;
        assert forall|i: int| 0 <= i < t.len() implies (#[trigger] r[i]).item_id == t[i].item_id && r[i].meta
            == t[i].meta && r[i].count >= t[i].count by {
            assert(t1[i] == t[i]);
        }
        assert forall|i: int| t.len() <= i < r.len() implies (#[trigger] r[i]).item_id == id by {
            if i == t.len() {
                assert(t1[i] == x);
            }
        }
    }
}

/// Adding keeps the bag's order: the stacks already there stay in their places with
/// their items and marks, their counts only growing, and the new stacks come after
/// them, all of the added item.
pub proof fn lemma_add_keeps_stacks(s: Seq<ItemStack>, id: usize, max: u32, count: u32, capacity: usize)
    ensures
        keeps_stacks(s, after_add(s, id, max, count as int, capacity).0, id),
{
    if count > 0 {
        lemma_topped_up_keeps(s, id, max, count as int);
        let (t, c) = topped_up(s, id, max, count as int);
        lemma_new_stacks_keep(t, id, max, c, capacity);
        let r = after_add(s, id, max, count as int, capacity).0;
        assert forall|i: int| 0 <= i < s.len() implies (#[trigger] r[i]).item_id == s[i].item_id && r[i].meta
            == s[i].meta && r[i].count >= s[i].count by {
            assert(r[i].item_id == t[i].item_id && t[i].item_id == s[i].item_id);
        }
    }
}

/// Whether every stack of `id` in `s` holds at least `lo` and at most `hi` items,
/// from place `from` on.
pub open spec fn id_counts_within(s: Seq<ItemStack>, id: usize, from: int, lo: int, hi: int) -> bool {
    forall|i: int| from <= i < s.len() && (#[trigger] s[i]).item_id == id ==> lo <= s[i].count <= hi
}

proof fn lemma_topped_up_limits(s: Seq<ItemStack>, id: usize, max: u32, count: int)
    requires
        count >= 0,
    ensures
        0 <= topped_up(s, id, max, count).1 <= count,
        topped_up(s, id, max, count).1 > 0 ==> id_counts_within(topped_up(s, id, max, count).0, id, 0, max as int, u32::MAX as int),
        id_counts_within(s, id, 0, 0, max as int) ==> id_counts_within(topped_up(s, id, max, count).0, id, 0, 0, max as int),
    decreases s.len(),
{
    if s.len() > 0 {
        let s0 = s.drop_last();
        lemma_topped_up_limits(s0, id, max, count);
        lemma_topped_up_keeps(s0, id, max, count);
        let (t, c) = topped_up(s0, id, max, count);
        let (t2, c2) = topped_up(s, id, max, count);
        assert forall|i: int| 0 <= i < t.len() implies t2[i] == t[i] by {}
        if id_counts_within(s, id, 0, 0, max as int) {
            assert forall|i: int| 0 <= i < s0.len() && (#[trigger] s0[i]).item_id == id implies 0 <= s0[i].count <= max by {
                assert(s0[i] == s[i]);
            }
            assert forall|i: int| 0 <= i < t2.len() && (#[trigger] t2[i]).item_id == id implies 0 <= t2[i].count <= max by {
                if i < t.len() {
                    assert(t2[i] == t[i]);
                } else {
                    assert(s[s.len() - 1].item_id == id);
                }
            }
        }
        if c2 > 0 {
            assert forall|i: int| 0 <= i < t2.len() && (#[trigger] t2[i]).item_id == id implies max <= t2[i].count
                <= u32::MAX by {
                if i < t.len() {
                    assert(t2[i] == t[i]);
                }
            }
        }
    }
}

proof fn lemma_new_stacks_limits(t: Seq<ItemStack>, id: usize, max: u32, c: int, capacity: usize)
    requires
        c >= 0,
    ensures
        0 <= new_stacks(t, id, max, c, capacity).1 <= c,
        id_counts_within(new_stacks(t, id, max, c, capacity).0, id, t.len() as int, if max >= 1 { 1 } else { 0 }, max as int),
        new_stacks(t, id, max, c, capacity).1 > 0 ==> new_stacks(t, id, max, c, capacity).0.len() >= capacity
            && id_counts_within(new_stacks(t, id, max, c, capacity).0, id, t.len() as int, max as int, max as int),
        new_stacks(t, id, max, c, capacity).0.len() >= t.len(),
        forall|i: int| 0 <= i < t.len() ==> new_stacks(t, id, max, c, capacity).0[i] == t[i],
    decreases capacity - t.len(),
{
    if c > 0 && t.len() < capacity {
        let put = if c < max { c } else { max as int };
        let x = ItemStack { item_id: id, count: put as u32, meta: None };
        let t1 = t.push(x);
        lemma_new_stacks_limits(t1, id, max, c - put, capacity);
        let r = new_stacks(t, id, max, c, capacity);
        assert(r == new_stacks(t1, id, max, c - put, capacity));
        assert(t1[t.len() as int] == x);
        assert(r.0[t.len() as int] == x);
        assert forall|i: int| 0 <= i < t.len() implies r.0[i] == t[i] by {
            assert(t1[i] == t[i]);
        }
        if r.1 > 0 {
            assert(put == max) by {
                if c < max {
                    assert(c - put == 0);
                    assert(new_stacks(t1, id, max, 0, capacity) == (t1, 0int));
                }
            }
        }
    }
}

/// What adding keeps within limits: when every stack of the item held at most its
/// limit, every one still does; each new stack holds at least one item when the limit
/// allows one; what is handed back is at most what was added, and anything handed
/// back means the bag was full: as many stacks as it has room for, each stack of the
/// item at its limit.
pub proof fn lemma_add_limits(s: Seq<ItemStack>, id: usize, max: u32, count: u32, capacity: usize)
    ensures
        ({
            let (t, left) = after_add(s, id, max, count as int, capacity);
            &&& 0 <= left <= count
            &&& id_counts_within(s, id, 0, 0, max as int) ==> id_counts_within(t, id, 0, 0, max as int)
            &&& max >= 1 ==> forall|i: int| s.len() <= i < t.len() ==> 1 <= (#[trigger] t[i]).count
            &&& left > 0 ==> t.len() >= capacity && id_counts_within(t, id, 0, max as int, u32::MAX as int)
        }),
{
    lemma_add_keeps_stacks(s, id, max, count, capacity);
    if count > 0 {
        lemma_topped_up_limits(s, id, max, count as int);
        lemma_topped_up_keeps(s, id, max, count as int);
        let (t, c) = topped_up(s, id, max, count as int);
        lemma_new_stacks_limits(t, id, max, c, capacity);
        let (r, left) = new_stacks(t, id, max, c, capacity);
        if id_counts_within(s, id, 0, 0, max as int) {
            assert forall|i: int| 0 <= i < r.len() && (#[trigger] r[i]).item_id == id implies 0 <= r[i].count <= max by {
                if i < t.len() {
                    assert(r[i] == t[i]);
                }
            }
        }
        if left > 0 {
            assert forall|i: int| 0 <= i < r.len() && (#[trigger] r[i]).item_id == id implies max <= r[i].count
                <= u32::MAX by {
                if i < t.len() {
                    assert(r[i] == t[i]);
                }
            }
        }
    }
}

/// Worn items, one per slot; they take no room in the bag.
pub struct Equipment {
    pub weapon: Option<ItemStack>,
    pub armor: Option<ItemStack>,
    pub ring: Option<ItemStack>,
}

/// The worn stacks: weapon, armour, ring, those present.
pub open spec fn worn(e: &Equipment) -> Seq<ItemStack> {
    let a = match e.weapon {
        Some(s) => seq![s],
        None => seq![],
    };
    let b = match e.armor {
        Some(s) => a.push(s),
        None => a,
    };
    match e.ring {
        Some(s) => b.push(s),
        None => b,
    }
}

impl Default for Equipment {
    /// Nothing worn.
    fn default() -> (e: Equipment)
        ensures
            e.weapon is None && e.armor is None && e.ring is None,
    {
        Equipment::new()
    }
}

impl Equipment {
    /// Nothing worn.
    pub fn new() -> (e: Equipment)
        ensures
            e.weapon is None && e.armor is None && e.ring is None,
    {
        Equipment { weapon: None, armor: None, ring: None }
    }

    /// The worn stacks, weapon first, then armour, then ring.
    pub fn equipped_stacks(&self) -> (v: Vec<&ItemStack>)
        ensures
            v@.len() == worn(self).len(),
            forall|i: int| 0 <= i < v@.len() ==> *v@[i] == #[trigger] worn(self)[i],
    {
        let mut v: Vec<&ItemStack> = Vec::new();
        match &self.weapon {
            Some(s) => v.push(s),
            None => {},
        }
        match &self.armor {
            Some(s) => v.push(s),
            None => {},
        }
        match &self.ring {
            Some(s) => v.push(s),
            None => {},
        }
        v
    }
}

/// An item lying on the ground.
pub struct ItemPickup {
    pub stack: ItemStack,
}

/// Field `f` (0 to 6: attack, defense, magic mastery, agility, hit points, critical
/// rate, critical damage) of a bonus.
pub open spec fn bonus_field(b: StatBonus, f: int) -> int {
    if f == 0 { b.attack as int }
    else if f == 1 { b.defense as int }
    else if f == 2 { b.magic_mastery as int }
    else if f == 3 { b.agility as int }
    else if f == 4 { b.hp as int }
    else if f == 5 { b.crit_rate_permille as int }
    else { b.crit_damage_permille as int }
}

/// The bonus of a stack's template (none without one).
pub open spec fn stack_bonus(reg: &ItemRegistry, s: ItemStack) -> StatBonus {
    match def_of(reg, s.item_id) {
        Some(d) => d.bonus,
        None => zero_bonus(),
    }
}

/// Field `f` summed over the bonuses of the first `k` stacks.
pub open spec fn bonus_sum(reg: &ItemRegistry, s: Seq<ItemStack>, f: int, k: int) -> int
    decreases k,
{
    if k <= 0 {
        0
    } else {
        bonus_sum(reg, s, f, k - 1) + bonus_field(stack_bonus(reg, s[k - 1]), f)
    }
}

/// Every running total of every field stays within `i32`.
pub open spec fn bonus_sums_fit(reg: &ItemRegistry, s: Seq<ItemStack>) -> bool {
    forall|f: int, k: int|
        0 <= f < 7 && 0 <= k <= s.len() ==> i32::MIN <= #[trigger] bonus_sum(reg, s, f, k) <= i32::MAX
}

/// Adds `b` to `total`, field by field.
fn add_bonus(total: &mut StatBonus, b: &StatBonus)
    requires
        forall|f: int| 0 <= f < 7 ==> i32::MIN <= #[trigger] bonus_field(*old(total), f) + bonus_field(*b, f) <= i32::MAX,
    ensures
        forall|f: int| 0 <= f < 7 ==> #[trigger] bonus_field(*final(total), f) == bonus_field(*old(total), f) + bonus_field(*b, f),
{
    assert(bonus_field(*old(total), 0) + bonus_field(*b, 0) <= i32::MAX);
    assert(bonus_field(*old(total), 1) + bonus_field(*b, 1) <= i32::MAX);
    assert(bonus_field(*old(total), 2) + bonus_field(*b, 2) <= i32::MAX);
    assert(bonus_field(*old(total), 3) + bonus_field(*b, 3) <= i32::MAX);
    assert(bonus_field(*old(total), 4) + bonus_field(*b, 4) <= i32::MAX);
    assert(bonus_field(*old(total), 5) + bonus_field(*b, 5) <= i32::MAX);
    assert(bonus_field(*old(total), 6) + bonus_field(*b, 6) <= i32::MAX);
    total.attack = total.attack + b.attack;
    total.defense = total.defense + b.defense;
    total.magic_mastery = total.magic_mastery + b.magic_mastery;
    total.agility = total.agility + b.agility;
    total.hp = total.hp + b.hp;
    total.crit_rate_permille = total.crit_rate_permille + b.crit_rate_permille;
    total.crit_damage_permille = total.crit_damage_permille + b.crit_damage_permille;
}

/// The sum of the bonuses of the worn items' templates (the bag does not count).
pub fn equipment_bonus(inv: &Inventory, equip: &Equipment, reg: &ItemRegistry) -> (total: StatBonus)
    requires
        bonus_sums_fit(reg, worn(equip)),
    ensures
        forall|f: int| 0 <= f < 7 ==> #[trigger] bonus_field(total, f) == bonus_sum(reg, worn(equip), f, worn(equip).len() as int),
{
    let mut total = StatBonus::default();
    let stacks = equip.equipped_stacks();
    let ghost w = worn(equip);
    let mut i: usize = 0;
    while i < stacks.len()
        invariant
            i <= stacks@.len(),
            stacks@.len() == w.len(),
            w == worn(equip),
            forall|k: int| 0 <= k < stacks@.len() ==> *stacks@[k] == #[trigger] w[k],
            bonus_sums_fit(reg, w),
            forall|f: int| 0 <= f < 7 ==> #[trigger] bonus_field(total, f) == bonus_sum(reg, w, f, i as int),
        decreases stacks@.len() - i,
    {
        let st = stacks[i];
        proof {
            assert(*stacks@[i as int] == w[i as int]);
            assert forall|f: int| 0 <= f < 7 implies i32::MIN <= #[trigger] bonus_sum(reg, w, f, i as int + 1) <= i32::MAX by {}
        }
        match st.def(reg) {
            Some(d) => {
                proof {
                    assert(stack_bonus(reg, w[i as int]) == d.bonus);
                    assert forall|f: int| 0 <= f < 7 implies i32::MIN <= #[trigger] bonus_field(total, f) + bonus_field(
                        d.bonus,
                        f,
                    ) <= i32::MAX by {
                        assert(bonus_sum(reg, w, f, i as int + 1) == bonus_sum(reg, w, f, i as int) + bonus_field(
                            stack_bonus(reg, w[i as int]),
                            f,
                        ));
                    }
                }
                add_bonus(&mut total, &d.bonus);
            },
            None => {
                proof {
                    assert(stack_bonus(reg, w[i as int]) == zero_bonus());
                }
            },
        }
        i = i + 1;
    }
    total
}

/// Field `f` of a bonus (see [`bonus_field`]).
fn field_of(b: &StatBonus, f: usize) -> (v: i32)
    requires
        f < 7,
    ensures
        v == bonus_field(*b, f as int),
{
    if f == 0 { b.attack }
    else if f == 1 { b.defense }
    else if f == 2 { b.magic_mastery }
    else if f == 3 { b.agility }
    else if f == 4 { b.hp }
    else if f == 5 { b.crit_rate_permille }
    else { b.crit_damage_permille }
}

/// Whether every running total of every field of the worn items' bonuses stays within
/// `i32` (see [`bonus_sums_fit`]).
pub fn bonus_sums_check(equip: &Equipment, reg: &ItemRegistry) -> (b: bool)
    ensures
        b == bonus_sums_fit(reg, worn(equip)),
{
    let stacks = equip.equipped_stacks();
    let ghost w = worn(equip);
    let mut f: usize = 0;
    while f < 7
        invariant
            f <= 7,
            stacks@.len() == w.len(),
            w == worn(equip),
            forall|k: int| 0 <= k < stacks@.len() ==> *stacks@[k] == #[trigger] w[k],
            forall|g: int, k: int|
                0 <= g < f && 0 <= k <= w.len() ==> i32::MIN <= #[trigger] bonus_sum(reg, w, g, k) <= i32::MAX,
        decreases 7 - f,
    {
        let mut acc: i64 = 0;
        let mut k: usize = 0;
        while k < stacks.len()
            invariant
                f < 7,
                k <= stacks@.len(),
                stacks@.len() == w.len(),
                w == worn(equip),
                forall|j: int| 0 <= j < stacks@.len() ==> *stacks@[j] == #[trigger] w[j],
                acc == bonus_sum(reg, w, f as int, k as int),
                forall|j: int| 0 <= j <= k ==> i32::MIN <= #[trigger] bonus_sum(reg, w, f as int, j) <= i32::MAX,
            decreases stacks@.len() - k,
        {
            let st = stacks[k];
            let add: i64 = match st.def(reg) {
                Some(d) => field_of(&d.bonus, f) as i64,
                None => 0,
            };
            proof {
                assert(*stacks@[k as int] == w[k as int]);
                assert(add == bonus_field(stack_bonus(reg, w[k as int]), f as int));
                assert(bonus_sum(reg, w, f as int, k as int + 1) == bonus_sum(reg, w, f as int, k as int)
                    + bonus_field(stack_bonus(reg, w[k as int]), f as int));
            }
            acc = acc + add;
            if acc < -0x8000_0000 || acc > 0x7fff_ffff {
                proof {
                    assert(!(i32::MIN <= bonus_sum(reg, w, f as int, k as int + 1) <= i32::MAX));
                }
                return false;
            }
            k = k + 1;
        }
        f = f + 1;
    }
    true
}

} // verus!
