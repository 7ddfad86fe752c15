use vstd::prelude::*;
use crate::stats::Stats;
use crate::items::ItemStack;
use crate::rng::random_i32_in;
use rand::rngs::SmallRng;

verus! {

/// The kinds of monster.
#[derive(Clone, Copy, Debug, PartialEq, Eq, Structural)]
pub enum MonsterKindId {
    Rat,
    Scorpion,
    Goblin,
}

/// The map character of a monster kind.
pub fn monster_glyph(kind: MonsterKindId) -> (c: char)
    ensures
        c == match kind {
            MonsterKindId::Rat => 'r',
            MonsterKindId::Scorpion => 's',
            MonsterKindId::Goblin => 'g',
        },
{
    match kind {
        MonsterKindId::Rat => 'r',
        MonsterKindId::Scorpion => 's',
        MonsterKindId::Goblin => 'g',
    }
}

/// The colour of a monster kind: red rats, ochre scorpions, green goblins.
pub fn monster_color(kind: MonsterKindId) -> (c: (u8, u8, u8))
    ensures
        c == match kind {
            MonsterKindId::Rat => (255u8, 0u8, 0u8),
            MonsterKindId::Scorpion => (180u8, 180u8, 0u8),
            MonsterKindId::Goblin => (0u8, 255u8, 0u8),
        },
{
    match kind {
        MonsterKindId::Rat => (255, 0, 0),
        MonsterKindId::Scorpion => (180, 180, 0),
        MonsterKindId::Goblin => (0, 255, 0),
    }
}

/// The name of a monster kind: rat, mutant scorpion, goblin.
pub open spec fn monster_title(kind: MonsterKindId) -> Seq<char> {
    match kind {
        MonsterKindId::Rat => "老鼠"@,
        MonsterKindId::Scorpion => "变异蝎子"@,
        MonsterKindId::Goblin => "哥布林"@,
    }
}

/// The name of a monster kind.
pub fn monster_name(kind: MonsterKindId) -> (s: &'static str)
    ensures
        s@ == monster_title(kind),
{
    match kind {
        MonsterKindId::Rat => "老鼠",
        MonsterKindId::Scorpion => "变异蝎子",
        MonsterKindId::Goblin => "哥布林",
    }
}

/// The name of a monster kind's attack.
pub fn monster_attack_name(kind: MonsterKindId) -> (s: &'static str)
    ensures
        s@ == match kind {
            MonsterKindId::Rat => "撕咬"@,
            MonsterKindId::Scorpion => "螫刺"@,
            MonsterKindId::Goblin => "重击"@,
        },
{
    match kind {
        MonsterKindId::Rat => "撕咬",
        MonsterKindId::Scorpion => "螫刺",
        MonsterKindId::Goblin => "重击",
    }
}

/// Whether the stats of `kind` on `floor` stay within their types.
pub open spec fn monster_fits(kind: MonsterKindId, floor: u32) -> bool {
    let l = if floor >= 1 { floor - 1 } else { 0 };
    match kind {
        MonsterKindId::Rat => 10 + 4 * l <= i32::MAX,
        MonsterKindId::Scorpion => 14 + 5 * l <= i32::MAX,
        MonsterKindId::Goblin => 18 + 6 * l <= i32::MAX,
    }
}

/// The smaller of two numbers.
pub open spec fn min_int(a: int, b: int) -> int {
    if a < b { a } else { b }
}

/// Whether `s` are the numbers of a monster of `kind` on `floor` (see
/// [`monster_stats`]).
pub open spec fn monster_stats_are(s: Stats, kind: MonsterKindId, floor: u32) -> bool {

            let l = if floor >= 1 { floor - 1 } else { 0 };
            &&& s.level == min_int(1 + l, 20)
            &&& s.hp == s.max_hp
            &&& s.mp == 0 && s.max_mp == 0 && s.exp_to_next == 0
            &&& s.crit_rate_permille == 50 && s.crit_damage_permille == 500
            &&& match kind {
                MonsterKindId::Rat => s.max_hp == 10 + 4 * l && s.exp == 6 + 3 * l && s.attack == min_int(4 + l, 18)
                    && s.defense == 2 && s.agility == 5 && s.magic_mastery == 1,
                MonsterKindId::Scorpion => s.max_hp == 14 + 5 * l && s.exp == 10 + 5 * l && s.attack == min_int(
                    5 + (3 * l) / 2,
                    20,
                ) && s.defense == 3 && s.agility == 4 && s.magic_mastery == 1,
                MonsterKindId::Goblin => s.max_hp == 18 + 6 * l && s.exp == 15 + (15 * l + 1) / 2 && s.attack == min_int(
                    6 + 2 * l,
                    25,
                ) && s.defense == 4 && s.agility == 3 && s.magic_mastery == 3,
            }
        }

/// A monster's stats on `floor`, growing with `l = floor - 1` (0 on floor 0): level
/// `1 + l` up to 20; hit points 10 + 4l (rat), 14 + 5l (scorpion), 18 + 6l (goblin);
/// experience 6 + 3l, 10 + 5l, 15 + 7.5l rounded half up; attack 4 + l up to 18,
/// 5 + 1.5l rounded down up to 20, 6 + 2l up to 25; fixed defense, agility and
/// mastery; no magic; 5% critical rate and 50% critical damage.
pub fn monster_stats(kind: MonsterKindId, floor: u32) -> (s: Stats)
    requires
        monster_fits(kind, floor),
    ensures
        monster_stats_are(s, kind, floor),
{
    let l: u64 = if floor >= 1 { (floor - 1) as u64 } else { 0 };
    let level: u32 = if 1 + l < 20 { (1 + l) as u32 } else { 20 };
    match kind {
        MonsterKindId::Rat => {
            let hp = (10 + 4 * l) as i32;
            Stats {
                level,
                hp,
                max_hp: hp,
                mp: 0,
                max_mp: 0,
                exp: 6 + 3 * l,
                exp_to_next: 0,
                attack: if 4 + l < 18 { (4 + l) as u32 } else { 18 },
                defense: 2,
                agility: 5,
                magic_mastery: 1,
                crit_rate_permille: 50,
                crit_damage_permille: 500,
            }
        },
        MonsterKindId::Scorpion => {
            let hp = (14 + 5 * l) as i32;
            let a = 5 + (3 * l) / 2;
            Stats {
                level,
                hp,
                max_hp: hp,
                mp: 0,
                max_mp: 0,
                exp: 10 + 5 * l,
                exp_to_next: 0,
                attack: if a < 20 { a as u32 } else { 20 },
                defense: 3,
                agility: 4,
                magic_mastery: 1,
                crit_rate_permille: 50,
                crit_damage_permille: 500,
            }
        },
        MonsterKindId::Goblin => {
            let hp = (18 + 6 * l) as i32;
            Stats {
                level,
                hp,
                max_hp: hp,
                mp: 0,
                max_mp: 0,
                exp: 15 + (15 * l + 1) / 2,
                exp_to_next: 0,
                attack: if 6 + 2 * l < 25 { (6 + 2 * l) as u32 } else { 25 },
                defense: 4,
                agility: 3,
                magic_mastery: 3,
                crit_rate_permille: 50,
                crit_damage_permille: 500,
            }
        },
    }
}

/// One possible drop: an item, its chance in thousandths, and how many (from
/// `min_count` to `max_count`).
#[derive(Clone, Copy, Debug, PartialEq, Eq, Structural)]
pub struct LootEntry {
    pub item_id: usize,
    pub chance_permille: u32,
    pub min_count: u32,
    pub max_count: u32,
}

/// What a monster may drop, each entry drawn on its own.
pub struct LootTable {
    pub entries: Vec<LootEntry>,
}

/// The drops of a rat: 1 or 2 biomass, always.
pub fn rat_loot() -> (t: LootTable)
    ensures
        t.entries@ == seq![LootEntry { item_id: 10, chance_permille: 1000, min_count: 1, max_count: 2 }],
{
    let t = LootTable { entries: vec![LootEntry { item_id: 10, chance_permille: 1000, min_count: 1, max_count: 2 }] };
    assert(t.entries@ =~= seq![LootEntry { item_id: 10, chance_permille: 1000, min_count: 1, max_count: 2 }]);
    t
}

/// The drops of a goblin: 1 to 3 biomass always; cloth (60%), a stick (40%), a fang
/// (30%).
pub fn goblin_loot() -> (t: LootTable)
    ensures
        t.entries@ == seq![
            LootEntry { item_id: 10, chance_permille: 1000, min_count: 1, max_count: 3 },
            LootEntry { item_id: 11, chance_permille: 600, min_count: 1, max_count: 1 },
            LootEntry { item_id: 12, chance_permille: 400, min_count: 1, max_count: 1 },
            LootEntry { item_id: 13, chance_permille: 300, min_count: 1, max_count: 1 },
        ],
{
    let t = LootTable {
        entries: vec![
            LootEntry { item_id: 10, chance_permille: 1000, min_count: 1, max_count: 3 },
            LootEntry { item_id: 11, chance_permille: 600, min_count: 1, max_count: 1 },
            LootEntry { item_id: 12, chance_permille: 400, min_count: 1, max_count: 1 },
            LootEntry { item_id: 13, chance_permille: 300, min_count: 1, max_count: 1 },
        ],
    };
    assert(t.entries@ =~= seq![
        LootEntry { item_id: 10, chance_permille: 1000, min_count: 1, max_count: 3 },
        LootEntry { item_id: 11, chance_permille: 600, min_count: 1, max_count: 1 },
        LootEntry { item_id: 12, chance_permille: 400, min_count: 1, max_count: 1 },
        LootEntry { item_id: 13, chance_permille: 300, min_count: 1, max_count: 1 },
    ]);
    t
}

/// The drops of a monster kind: a rat's and a goblin's as above; a scorpion drops 1
/// or 2 biomass and 1 or 2 chitin, always.
pub fn monster_loot(kind: MonsterKindId) -> (t: LootTable)
    ensures
        t.entries@ == loot_of(kind),
{
    match kind {
        MonsterKindId::Rat => rat_loot(),
        MonsterKindId::Scorpion => {
            let t = LootTable {
                entries: vec![
                    LootEntry { item_id: 10, chance_permille: 1000, min_count: 1, max_count: 2 },
                    LootEntry { item_id: 14, chance_permille: 1000, min_count: 1, max_count: 2 },
                ],
            };
            assert(t.entries@ =~= seq![
                LootEntry { item_id: 10, chance_permille: 1000, min_count: 1, max_count: 2 },
                LootEntry { item_id: 14, chance_permille: 1000, min_count: 1, max_count: 2 },
            ]);
            t
        },
        MonsterKindId::Goblin => goblin_loot(),
    }
}

/// What one entry gives for the draws `d`: it drops when `d.0` is below its chance;
/// the count is its least count, plus `d.1` when the count may vary; a count of zero
/// gives no stack.
pub open spec fn entry_drop(e: LootEntry, d: (u32, u32)) -> Option<(usize, u32)> {
    if d.0 < e.chance_permille {
        let c: int = if e.min_count == e.max_count {
            e.min_count as int
        } else {
            e.min_count + d.1
        };
        if c > 0 {
            Some((e.item_id, c as u32))
        } else {
            None
        }
    } else {
        None
    }
}

/// The count draw `d.1` stays within the entry's spread.
pub open spec fn count_draw_fits(e: LootEntry, d: (u32, u32)) -> bool {
    e.min_count != e.max_count ==> d.1 <= e.max_count - e.min_count
}

/// The drops of the entries `es` for the draws `ds`, one draw per entry, in order.
pub open spec fn loot_drops(es: Seq<LootEntry>, ds: Seq<(u32, u32)>) -> Seq<(usize, u32)>
    decreases es.len(),
{
    if es.len() == 0 || ds.len() == 0 {
        seq![]
    } else {
        let rest = loot_drops(es.drop_last(), ds.drop_last());
        match entry_drop(es.last(), ds.last()) {
            Some(p) => rest.push(p),
            None => rest,
        }
    }
}

/// Every entry's least count is at most its greatest, and the spread fits the
/// generator's range.
pub open spec fn counts_fit(es: Seq<LootEntry>) -> bool {
    forall|i: int|
        0 <= i < es.len() ==> (#[trigger] es[i]).min_count <= es[i].max_count && es[i].max_count
            - es[i].min_count < i32::MAX
}

/// The stacks `v` are the pairs `p` of item and count, as the templates have them.
pub open spec fn stacks_are(v: Seq<ItemStack>, p: Seq<(usize, u32)>) -> bool {
    v.len() == p.len() && forall|k: int|
        0 <= k < v.len() ==> (#[trigger] v[k]).item_id == p[k].0 && v[k].count == p[k].1 && v[k].meta is None
}

impl LootTable {
    /// The stacks dropped for the draws `draws`, one per entry (see [`loot_drops`]).
    pub fn drops_for(&self, draws: &Vec<(u32, u32)>) -> (v: Vec<ItemStack>)
        requires
            draws@.len() == self.entries@.len(),
            counts_fit(self.entries@),
            forall|i: int| 0 <= i < draws@.len() ==> count_draw_fits(self.entries@[i], #[trigger] draws@[i]),
        ensures
            stacks_are(v@, loot_drops(self.entries@, draws@)),
    {
        let mut v: Vec<ItemStack> = Vec::new();
        let mut i: usize = 0;
        while i < self.entries.len()
            invariant
                i <= self.entries@.len(),
                draws@.len() == self.entries@.len(),
                counts_fit(self.entries@),
                forall|j: int| 0 <= j < draws@.len() ==> count_draw_fits(self.entries@[j], #[trigger] draws@[j]),
                stacks_are(v@, loot_drops(self.entries@.take(i as int), draws@.take(i as int))),
            decreases self.entries@.len() - i,
        {
            let e = self.entries[i];
            let d = draws[i];
            proof {
                assert(self.entries@.take(i + 1).drop_last() =~= self.entries@.take(i as int));
                assert(draws@.take(i + 1).drop_last() =~= draws@.take(i as int));
                assert(count_draw_fits(self.entries@[i as int], draws@[i as int]));
                assert(self.entries@[i as int].min_count <= self.entries@[i as int].max_count);
            }
            if d.0 < e.chance_permille {
                let c: u32 = if e.min_count == e.max_count {
                    e.min_count
                } else {
                    e.min_count + d.1
                };
                if c > 0 {
                    v.push(ItemStack::new(e.item_id, c));
                }
            }
            i = i + 1;
        }
        proof {
            assert(self.entries@.take(i as int) =~= self.entries@);
            assert(draws@.take(i as int) =~= draws@);
        }
        v
    }

    /// The drops of one death: each entry in turn drops with its chance (a draw from
    /// 0..1000 below it) and, when it drops and its count may vary, draws its count
    /// from its range. What comes out is the drops for some such draws.
    pub fn roll(&self, rng: &mut SmallRng) -> (v: Vec<ItemStack>)
        requires
            counts_fit(self.entries@),
        ensures
            exists|ds: Seq<(u32, u32)>|
                ds.len() == self.entries@.len() && (forall|i: int|
                    0 <= i < ds.len() ==> (#[trigger] ds[i]).0 < 1000 && count_draw_fits(self.entries@[i], ds[i]))
                    && stacks_are(v@, #[trigger] loot_drops(self.entries@, ds)),
    {
        let mut draws: Vec<(u32, u32)> = Vec::new();
        let mut i: usize = 0;
        while i < self.entries.len()
            invariant
                i <= self.entries@.len(),
                draws@.len() == i,
                counts_fit(self.entries@),
                forall|j: int|
                    0 <= j < i ==> (#[trigger] draws@[j]).0 < 1000 && count_draw_fits(self.entries@[j], draws@[j]),
            decreases self.entries@.len() - i,
        {
            let e = self.entries[i];
            proof {
                assert(e.min_count <= e.max_count && e.max_count - e.min_count < i32::MAX);
            }
            let hit = random_i32_in(rng, 0, 1000) as u32;
            let extra: u32 = if hit < e.chance_permille && e.min_count != e.max_count {
                random_i32_in(rng, 0, (e.max_count - e.min_count + 1) as i32) as u32
            } else {
                0
            };
            draws.push((hit, extra));
            i = i + 1;
        }
        let v = self.drops_for(&draws);
        proof {
            assert(draws@.len() == self.entries@.len());
        }
        v
    }
}

/// The drops of each kind (see [`monster_loot`]).
pub open spec fn loot_of(kind: MonsterKindId) -> Seq<LootEntry> {
    match kind {
        MonsterKindId::Rat => rat_loot_spec(),
        MonsterKindId::Goblin => goblin_loot_spec(),
        MonsterKindId::Scorpion => seq![
            LootEntry { item_id: 10, chance_permille: 1000, min_count: 1, max_count: 2 },
            LootEntry { item_id: 14, chance_permille: 1000, min_count: 1, max_count: 2 },
        ],
    }
}

/// Every kind's drops have sound counts.
pub proof fn lemma_loot_counts_fit(kind: MonsterKindId)
    ensures
        counts_fit(loot_of(kind)),
{
    let es = loot_of(kind);
    assert forall|i: int| 0 <= i < es.len() implies (#[trigger] es[i]).min_count <= es[i].max_count && es[i].max_count
        - es[i].min_count < i32::MAX by {
        if i == 0 {
        } else if i == 1 {
        } else if i == 2 {
        } else {
        }
    }
}

/// A rat's drops.
pub open spec fn rat_loot_spec() -> Seq<LootEntry> {
    seq![LootEntry { item_id: 10, chance_permille: 1000, min_count: 1, max_count: 2 }]
}

/// A goblin's drops.
pub open spec fn goblin_loot_spec() -> Seq<LootEntry> {
    seq![
        LootEntry { item_id: 10, chance_permille: 1000, min_count: 1, max_count: 3 },
        LootEntry { item_id: 11, chance_permille: 600, min_count: 1, max_count: 1 },
        LootEntry { item_id: 12, chance_permille: 400, min_count: 1, max_count: 1 },
        LootEntry { item_id: 13, chance_permille: 300, min_count: 1, max_count: 1 },
    ]
}

} // verus!
