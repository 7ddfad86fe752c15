use vstd::prelude::*;
use crate::text::{push_text, push_decimal, decimal};
use crate::items::{
    Inventory, Equipment, ItemRegistry, equipment_bonus, bonus_field, bonus_sum, bonus_sums_fit, worn,
    ITEM_SCROLL_HEAL, ITEM_SCROLL_SHIELD, ITEM_SCROLL_BERSERK,
};

verus! {

/// Most messages the log keeps.
pub const LOG_LIMIT: usize = 50;

/// The message log: the latest messages, at most `LOG_LIMIT`, oldest first.
pub struct EventLog {
    pub messages: Vec<String>,
}

/// The log's messages as text.
pub open spec fn log_view(l: &EventLog) -> Seq<Seq<char>> {
    Seq::new(l.messages@.len(), |i: int| l.messages@[i]@)
}

/// The messages after `msg` is logged: appended, and past the limit the oldest goes.
pub open spec fn logged(m: Seq<Seq<char>>, msg: Seq<char>) -> Seq<Seq<char>> {
    if m.len() + 1 > LOG_LIMIT { m.push(msg).remove(0) } else { m.push(msg) }
}

/// The messages after each of `msgs` is logged in turn.
pub open spec fn logged_all(m: Seq<Seq<char>>, msgs: Seq<Seq<char>>) -> Seq<Seq<char>>
    decreases msgs.len(),
{
    if msgs.len() == 0 { m } else { logged(logged_all(m, msgs.drop_last()), msgs.last()) }
}

impl EventLog {
    /// An empty log.
    pub fn new() -> (l: EventLog)
        ensures
            l.messages@.len() == 0,
    {
        EventLog { messages: Vec::new() }
    }

    /// Appends `msg`; past the limit, the oldest message goes.
    pub fn push(&mut self, msg: String)
        ensures
            log_view(final(self)) == logged(log_view(old(self)), msg@),
            final(self).messages@ == if old(self).messages@.len() + 1 > LOG_LIMIT {
                old(self).messages@.push(msg).remove(0)
            } else {
                old(self).messages@.push(msg)
            },
    {
        let ghost m0 = log_view(self);
        let ghost t = msg@;
        self.messages.push(msg);
        if self.messages.len() > LOG_LIMIT {
            self.messages.remove(0);
        }
        assert(log_view(self) =~= logged(m0, t));
    }
}

/// A log that holds at most `LOG_LIMIT` messages keeps to that after a push, and its
/// newest message is the one pushed.
pub proof fn lemma_log_bounded(before: Seq<String>, msg: String)
    requires
        before.len() <= LOG_LIMIT,
    ensures
        ({
            let after = if before.len() + 1 > LOG_LIMIT { before.push(msg).remove(0) } else { before.push(msg) };
            &&& after.len() <= LOG_LIMIT
            &&& after.len() >= 1
            &&& after.last() == msg
        }),
{
}

/// Whether the game is over and whether the player asked to quit.
pub struct TurnManager {
    pub game_over: bool,
    pub wants_quit: bool,
}

impl TurnManager {
    /// A game under way.
    pub fn new() -> (t: TurnManager)
        ensures
            !t.game_over && !t.wants_quit,
    {
        TurnManager { game_over: false, wants_quit: false }
    }
}

/// Experience still to come to the player.
pub struct PendingExp {
    pub amount: u64,
}

/// The floor the player is on (1 at the top).
pub struct FloorNumber(pub u32);

/// The seed the floors are generated from.
pub struct MapSeed(pub u64);

/// A fighter's numbers; critical rate and damage in thousandths.
#[derive(Clone, Copy, Debug, PartialEq, Eq, Structural)]
pub struct Stats {
    pub level: u32,
    pub hp: i32,
    pub max_hp: i32,
    pub mp: i32,
    pub max_mp: i32,
    pub exp: u64,
    pub exp_to_next: u64,
    pub attack: u32,
    pub defense: u32,
    pub magic_mastery: u32,
    pub agility: u32,
    pub crit_rate_permille: i32,
    pub crit_damage_permille: i32,
}

/// Hit points at `level` with `defense`: 20, 5 per level, 2 per point of defense.
pub open spec fn hp_for(level: int, defense: int) -> int {
    20 + 5 * level + 2 * defense
}

/// Magic points at `level` with `mastery`: 5, 3 per level, 1 per point of mastery.
pub open spec fn mp_for(level: int, mastery: int) -> int {
    5 + 3 * level + mastery
}

/// `r` is the integer square root of `n`.
pub open spec fn is_isqrt(n: int, r: int) -> bool {
    r >= 0 && r * r <= n < (r + 1) * (r + 1)
}

/// The integer square root of `n`.
pub open spec fn isqrt_of(n: int) -> int {
    choose|r: int| is_isqrt(n, r)
}

/// Experience needed past `level`: `25 * level^1.5 + 10 * level`, rounded down, that
/// is `10 * level` plus the integer square root of `625 * level^3`.
pub open spec fn exp_needed(level: int) -> int {
    10 * level + isqrt_of(625 * level * level * level)
}

/// A number has one integer square root.
pub proof fn lemma_isqrt_unique(n: int, r: int)
    requires
        is_isqrt(n, r),
    ensures
        isqrt_of(n) == r,
{
    let q = isqrt_of(n);
    assert(is_isqrt(n, q));
    if q < r {
        assert((q + 1) * (q + 1) <= r * r) by (nonlinear_arith)
            requires 0 <= q < r;
    } else if r < q {
        assert((r + 1) * (r + 1) <= q * q) by (nonlinear_arith)
            requires 0 <= r < q;
    }
}

/// Maximum hit points at `level` with `defense`.
pub fn max_hp_for(level: u32, defense: u32) -> (hp: i32)
    requires
        hp_for(level as int, defense as int) <= i32::MAX,
    ensures
        hp == hp_for(level as int, defense as int),
{
    20 + level as i32 * 5 + defense as i32 * 2
}

/// Maximum magic points at `level` with `mastery`.
pub fn max_mp_for(level: u32, mastery: u32) -> (mp: i32)
    requires
        mp_for(level as int, mastery as int) <= i32::MAX,
    ensures
        mp == mp_for(level as int, mastery as int),
{
    5 + level as i32 * 3 + mastery as i32
}

/// The integer square root of `n`.
fn isqrt(n: u128) -> (r: u64)
    requires
        n < 0x1_0000_0000_0000_0000_0000_0000_0000,
    ensures
        is_isqrt(n as int, r as int),
{
    let mut lo: u128 = 0;
    let mut hi: u128 = 0x1_0000_0000_0000_0000;
    proof {
        assert(hi * hi == 0x1_0000_0000_0000_0000_0000_0000_0000_0000) by (nonlinear_arith)
            requires hi == 0x1_0000_0000_0000_0000;
    }
    while hi - lo > 1
        invariant
            lo < hi <= 0x1_0000_0000_0000_0000,
            lo * lo <= n,
            n < hi * hi,
        decreases hi - lo,
    {
        let mid = lo + (hi - lo) / 2;
        proof {
            assert(mid < hi);
            assert(mid * mid < 0x1_0000_0000_0000_0000_0000_0000_0000_0000) by (nonlinear_arith)
                requires mid < 0x1_0000_0000_0000_0000, 0 <= mid;
        }
        if mid * mid <= n {
            lo = mid;
        } else {
            hi = mid;
        }
    }
    proof {
        assert(hi == lo + 1);
    }
    lo as u64
}

/// Experience needed to pass `level`: `floor(25 * level^1.5 + 10 * level)`.
pub fn exp_to_next_level(level: u32) -> (e: u64)
    ensures
        e == exp_needed(level as int),
{
    let l: u128 = level as u128;
    proof {
        assert(l * l <= 0x1_0000_0000_0000_0000) by (nonlinear_arith)
            requires l < 0x1_0000_0000;
        assert(l * l * l <= 0x1_0000_0000_0000_0000_0000_0000) by (nonlinear_arith)
            requires l < 0x1_0000_0000, l * l <= 0x1_0000_0000_0000_0000;
    }
    let n: u128 = 625 * (l * l * l);
    let root = isqrt(n);
    proof {
        assert(root <= 0x40_0000_0000_0000) by (nonlinear_arith)
            requires
                root * root <= n,
                n <= 625 * 0x1_0000_0000_0000_0000_0000_0000,
                root >= 0;
        assert(625 * (l * l * l) == 625 * l * l * l) by (nonlinear_arith);
        lemma_isqrt_unique(625 * level * level * level, root as int);
    }
    10 * level as u64 + root
}

/// The first fighter: level 1, attack 8, defense 4, magic mastery 8, agility 10,
/// full hit and magic points, 5% critical rate and 50% critical damage.
pub fn player_stats() -> (s: Stats)
    ensures
        s.level == 1,
        s.hp == hp_for(1, 4) && s.max_hp == s.hp,
        s.mp == mp_for(1, 8) && s.max_mp == s.mp,
        s.exp == 0,
        s.exp_to_next == 35,
        s.attack == 8 && s.defense == 4 && s.magic_mastery == 8 && s.agility == 10,
        s.crit_rate_permille == 50 && s.crit_damage_permille == 500,
{
    let level: u32 = 1;
    let def_val: u32 = 4;
    let magic_val: u32 = 8;
    let next = exp_to_next_level(level);
    proof {
        lemma_isqrt_unique(625, 25);
    }
    Stats {
        level,
        hp: max_hp_for(level, def_val),
        max_hp: max_hp_for(level, def_val),
        mp: max_mp_for(level, magic_val),
        max_mp: max_mp_for(level, magic_val),
        exp: 0,
        exp_to_next: next,
        attack: 8,
        defense: def_val,
        magic_mastery: magic_val,
        agility: 10,
        crit_rate_permille: 50,
        crit_damage_permille: 500,
    }
}

impl Stats {
    /// The first fighter's stats (see [`player_stats`]).
    pub fn player() -> (s: Stats)
        ensures
            s == player_stats_spec(),
    {
        let s = player_stats();
        proof {
            assert(s == player_stats_spec());
        }
        s
    }
}

/// The first fighter's stats, as numbers.
pub open spec fn player_stats_spec() -> Stats {
    Stats {
        level: 1,
        hp: 33,
        max_hp: 33,
        mp: 16,
        max_mp: 16,
        exp: 0,
        exp_to_next: 35,
        attack: 8,
        defense: 4,
        magic_mastery: 8,
        agility: 10,
        crit_rate_permille: 50,
        crit_damage_permille: 500,
    }
}

/// What a skill does.
#[derive(Clone, Copy, Debug, PartialEq, Eq, Structural)]
pub enum SkillKind {
    Heal { amount: i32 },
    Shield { def_boost: i32, duration: u32 },
    Berserk { atk_boost: i32, duration: u32 },
}

/// The player's calling.
#[derive(Clone, Copy, Debug, PartialEq, Eq, Structural)]
pub enum PlayerClass {
    Warrior,
    Mage,
    Priest,
}

/// The name of a calling.
pub open spec fn class_title(c: PlayerClass) -> Seq<char> {
    match c {
        PlayerClass::Warrior => "战士"@,
        PlayerClass::Mage => "法师"@,
        PlayerClass::Priest => "牧师"@,
    }
}

impl PlayerClass {
    /// The name of the calling.
    pub fn display_name(&self) -> (s: &'static str)
        ensures
            s@ == class_title(*self),
    {
        match self {
            PlayerClass::Warrior => "战士",
            PlayerClass::Mage => "法师",
            PlayerClass::Priest => "牧师",
        }
    }

    /// The skills a calling starts with: none, for every calling (skills come from
    /// scrolls).
    pub fn skills(&self) -> (v: Vec<Skill>)
        ensures
            v@.len() == 0,
    {
        Vec::new()
    }
}

/// A learnt skill.
pub struct Skill {
    pub name: String,
    pub key: char,
    pub cost_mp: i32,
    pub description: String,
    pub kind: SkillKind,
    pub proficiency: u32,
}

/// The skills an actor has learnt.
pub struct Skills {
    pub list: Vec<Skill>,
}

/// The name of a skill of each kind.
pub open spec fn skill_title(kind: SkillKind) -> Seq<char> {
    match kind {
        SkillKind::Heal { .. } => "治愈"@,
        SkillKind::Shield { .. } => "护盾"@,
        SkillKind::Berserk { .. } => "狂暴"@,
    }
}

/// The name of a skill of kind `kind`.
fn skill_name_of(kind: &SkillKind) -> (s: &'static str)
    ensures
        s@ == skill_title(*kind),
{
    match kind {
        SkillKind::Heal { .. } => "治愈",
        SkillKind::Shield { .. } => "护盾",
        SkillKind::Berserk { .. } => "狂暴",
    }
}

/// A new skill of kind `kind`, as a scroll teaches it: heal (key 1, 6 magic points),
/// shield (key 2, 5) or berserk (key 3, 5), at proficiency 1.
pub fn skill_from_kind(kind: &SkillKind) -> (sk: Skill)
    ensures
        sk.name@ == skill_title(*kind),
        sk.kind == *kind,
        sk.proficiency == 1,
        sk.key == match *kind {
            SkillKind::Heal { .. } => '1',
            SkillKind::Shield { .. } => '2',
            SkillKind::Berserk { .. } => '3',
        },
        sk.cost_mp == match *kind {
            SkillKind::Heal { .. } => 6i32,
            _ => 5i32,
        },
        sk.description@ == match *kind {
            SkillKind::Heal { .. } => "HP恢复"@,
            SkillKind::Shield { .. } => "防御+5"@,
            SkillKind::Berserk { .. } => "攻击+5"@,
        },
{
    match kind {
        SkillKind::Heal { .. } => Skill {
            name: "治愈".to_owned(),
            key: '1',
            cost_mp: 6,
            description: "HP恢复".to_owned(),
            kind: *kind,
            proficiency: 1,
        },
        SkillKind::Shield { .. } => Skill {
            name: "护盾".to_owned(),
            key: '2',
            cost_mp: 5,
            description: "防御+5".to_owned(),
            kind: *kind,
            proficiency: 1,
        },
        SkillKind::Berserk { .. } => Skill {
            name: "狂暴".to_owned(),
            key: '3',
            cost_mp: 5,
            description: "攻击+5".to_owned(),
            kind: *kind,
            proficiency: 1,
        },
    }
}

/// The position of the first skill named `name` (-1 when none is).
pub open spec fn first_named(list: Seq<Skill>, name: Seq<char>) -> int
    decreases list.len(),
{
    if list.len() == 0 {
        -1
    } else {
        let k = first_named(list.drop_last(), name);
        if k >= 0 { k } else if list.last().name@ == name { list.len() - 1 } else { -1 }
    }
}

proof fn lemma_first_named(list: Seq<Skill>, name: Seq<char>)
    ensures
        -1 <= first_named(list, name) < list.len(),
        first_named(list, name) >= 0 ==> list[first_named(list, name)].name@ == name,
        forall|j: int|
            0 <= j < list.len() && (first_named(list, name) < 0 || j < first_named(list, name)) ==> (#[trigger] list[j]).name@ != name,
    decreases list.len(),
{
    if list.len() > 0 {
        let t = list.drop_last();
        lemma_first_named(t, name);
        assert forall|j: int| 0 <= j < t.len() implies #[trigger] t[j] == list[j] by {}
        let k = first_named(t, name);
        if k >= 0 {
            assert(t[k] == list[k]);
            assert(first_named(list, name) == k);
            assert forall|j: int|
                0 <= j < list.len() && (first_named(list, name) < 0 || j < first_named(list, name)) implies (#[trigger] list[j]).name@ != name by {
                assert(t[j] == list[j]);
            }
        } else {
            assert forall|j: int|
                0 <= j < list.len() && (first_named(list, name) < 0 || j < first_named(list, name)) implies (#[trigger] list[j]).name@ != name by {
                if j < t.len() {
                    assert(t[j] == list[j]);
                }
            }
        }
    }
}

/// The message for a skill learnt anew.
pub open spec fn learnt_message(kind: SkillKind) -> Seq<char> {
    "学会了"@ + skill_title(kind) + "！"@
}

/// The message for a skill practised again up to proficiency `p`.
pub open spec fn practised_message(kind: SkillKind, p: nat) -> Seq<char> {
    "熟练度提升！"@ + skill_title(kind) + " 熟练度 "@ + decimal(p)
}

/// Learns a skill of kind `kind`: a skill of that name already known gains a point
/// of proficiency (the first such one), otherwise the new skill is added at the end.
/// Either way the log says so.
pub fn learn_skill(skills: &mut Skills, kind: &SkillKind, log: &mut EventLog)
    requires
        first_named(old(skills).list@, skill_title(*kind)) >= 0 ==> old(skills).list@[first_named(
            old(skills).list@,
            skill_title(*kind),
        )].proficiency < u32::MAX,
    ensures
        ({
            let k = first_named(old(skills).list@, skill_title(*kind));
            if k >= 0 {
                let sk = old(skills).list@[k];
                &&& final(skills).list@.len() == old(skills).list@.len()
                &&& forall|j: int| 0 <= j < old(skills).list@.len() && j != k ==> #[trigger] final(skills).list@[j] == old(skills).list@[j]
                &&& final(skills).list@[k].proficiency == sk.proficiency + 1
                &&& final(skills).list@[k].name == sk.name
                &&& final(skills).list@[k].key == sk.key
                &&& final(skills).list@[k].kind == sk.kind
                &&& final(skills).list@[k].cost_mp == sk.cost_mp
                &&& final(skills).list@[k].description == sk.description
                &&& log_view(final(log)) == logged(log_view(old(log)), practised_message(*kind, (sk.proficiency + 1) as nat))
            } else {
                &&& final(skills).list@.len() == old(skills).list@.len() + 1
                &&& forall|j: int| 0 <= j < old(skills).list@.len() ==> #[trigger] final(skills).list@[j] == old(skills).list@[j]
                &&& final(skills).list@.last().name@ == skill_title(*kind)
                &&& final(skills).list@.last().kind == *kind
                &&& final(skills).list@.last().proficiency == 1
                &&& log_view(final(log)) == logged(log_view(old(log)), learnt_message(*kind))
            }
        }),
{
    let title = skill_name_of(kind);
    let wanted = title.to_owned();
    let ghost list0 = skills.list@;
    proof {
        lemma_first_named(list0, title@);
    }
    let mut i: usize = 0;
    while i < skills.list.len()
        invariant
            i <= skills.list@.len(),
            skills.list@ == list0,
            list0 == old(skills).list@,
            *log == *old(log),
            wanted@ == skill_title(*kind),
            title@ == skill_title(*kind),
            first_named(list0, skill_title(*kind)) >= 0 ==> list0[first_named(list0, skill_title(*kind))].proficiency
                < u32::MAX,
            forall|j: int| 0 <= j < i ==> (#[trigger] list0[j]).name@ != wanted@,
        decreases skills.list@.len() - i,
    {
        if skills.list[i].name == wanted {
            proof {
                lemma_first_named(list0, wanted@);
                let k = first_named(list0, wanted@);
                assert(k == i as int) by {
                    if k < 0 || (i as int) < k {
                        assert(list0[i as int].name@ != wanted@);
                    }
                }
            }
            let ghost before = skills.list@;
            let mut sk = skills.list.remove(i);
            sk.proficiency = sk.proficiency + 1;
            let p = sk.proficiency;
            skills.list.insert(i, sk);
            proof {
                assert(skills.list@ =~= before.update(i as int, skills.list@[i as int]));
                assert(skills.list@.len() == list0.len());
                assert(forall|j: int| 0 <= j < list0.len() && j != i ==> #[trigger] skills.list@[j] == list0[j]);
            }
            let mut msg = String::new();
            push_text(&mut msg, "熟练度提升！");
            push_text(&mut msg, title);
            push_text(&mut msg, " 熟练度 ");
            push_decimal(&mut msg, p as u64);
            proof {
                assert(msg@ =~= practised_message(*kind, p as nat));
            }
            log.push(msg);
            return;
        }
        i = i + 1;
    }
    proof {
        lemma_first_named(list0, wanted@);
        let k = first_named(list0, wanted@);
        if k >= 0 {
            assert(list0[k].name@ == wanted@);
        }
    }
    let fresh = skill_from_kind(kind);
    skills.list.push(fresh);
    proof {
        assert(skills.list@.last() == fresh);
        assert(forall|j: int| 0 <= j < list0.len() ==> #[trigger] skills.list@[j] == list0[j]);
    }
    let mut msg = String::new();
    push_text(&mut msg, "学会了");
    push_text(&mut msg, title);
    push_text(&mut msg, "！");
    proof {
        assert(msg@ =~= learnt_message(*kind));
    }
    log.push(msg);
}

/// The skill a scroll teaches, if `item_id` is a scroll: heal 15, shield +5 for 3,
/// berserk +5 for 3.
pub open spec fn scroll_skill(item_id: usize) -> Option<SkillKind> {
    if item_id == ITEM_SCROLL_HEAL {
        Some(SkillKind::Heal { amount: 15 })
    } else if item_id == ITEM_SCROLL_SHIELD {
        Some(SkillKind::Shield { def_boost: 5, duration: 3 })
    } else if item_id == ITEM_SCROLL_BERSERK {
        Some(SkillKind::Berserk { atk_boost: 5, duration: 3 })
    } else {
        None
    }
}

/// Uses an item: a skill scroll teaches its skill (see [`learn_skill`]) and is used
/// up; any other item does nothing. Returns whether the item was used up.
pub fn use_item(item_id: usize, skills: &mut Skills, log: &mut EventLog) -> (used: bool)
    requires
        forall|k: SkillKind| scroll_skill(item_id) == Some(k) && first_named(old(skills).list@, skill_title(k)) >= 0
            ==> old(skills).list@[first_named(old(skills).list@, skill_title(k))].proficiency < u32::MAX,
    ensures
        used == scroll_skill(item_id) is Some,
        !used ==> final(skills).list@ == old(skills).list@ && log_view(final(log)) == log_view(old(log)),
{
    let kind = if item_id == ITEM_SCROLL_HEAL {
        SkillKind::Heal { amount: 15 }
    } else if item_id == ITEM_SCROLL_SHIELD {
        SkillKind::Shield { def_boost: 5, duration: 3 }
    } else if item_id == ITEM_SCROLL_BERSERK {
        SkillKind::Berserk { atk_boost: 5, duration: 3 }
    } else {
        return false;
    };
    learn_skill(skills, &kind, log);
    true
}

/// The kind of a timed effect.
#[derive(Clone, Copy, Debug, PartialEq, Eq, Structural)]
pub enum BuffKind {
    Shield,
    Berserk,
}

/// How repeated effects combine: they do not stack (a repeat only refreshes).
#[derive(Clone, Copy, Debug, PartialEq, Eq, Structural)]
pub enum BuffStackType {
    NoStack,
}

/// A timed effect, counted down in action value.
#[derive(Clone, Copy, Debug, PartialEq, Eq, Structural)]
pub struct Buff {
    pub kind: BuffKind,
    pub remaining_av: u32,
    pub magnitude: i32,
    pub stack_type: BuffStackType,
}

/// The effects on an actor.
pub struct ActiveBuffs(pub Vec<Buff>);

impl ActiveBuffs {
    /// No effects.
    pub fn new() -> (b: ActiveBuffs)
        ensures
            b.0@.len() == 0,
    {
        ActiveBuffs(Vec::new())
    }
}

/// A skill's wait before it can be used again, in action value.
#[derive(Clone, Copy, Debug, PartialEq, Eq, Structural)]
pub struct Cooldown {
    pub skill_id: usize,
    pub remaining_av: u32,
}

/// The cooldowns of an actor.
pub struct ActiveCooldowns(pub Vec<Cooldown>);

/// Where a monster last saw the player.
pub struct LastKnownPlayerPos(pub Option<(usize, usize)>);

/// Effects counted in turns (the older scheme).
#[derive(Clone, Copy, Debug, PartialEq, Eq, Structural)]
pub struct Buffs {
    pub shield_turns: i32,
    pub shield_def: i32,
    pub berserk_turns: i32,
    pub berserk_atk: i32,
}

impl Buffs {
    /// No effects.
    pub fn new() -> (b: Buffs)
        ensures
            b == (Buffs { shield_turns: 0, shield_def: 0, berserk_turns: 0, berserk_atk: 0 }),
    {
        Buffs { shield_turns: 0, shield_def: 0, berserk_turns: 0, berserk_atk: 0 }
    }

    /// One turn passes: each running effect loses a turn, and its strength goes to 0
    /// when none is left.
    pub fn tick(&mut self)
        ensures
            final(self).shield_turns == if old(self).shield_turns > 0 { old(self).shield_turns - 1 } else { old(self).shield_turns as int },
            final(self).shield_def == if old(self).shield_turns == 1 { 0 } else { old(self).shield_def as int },
            final(self).berserk_turns == if old(self).berserk_turns > 0 { old(self).berserk_turns - 1 } else { old(self).berserk_turns as int },
            final(self).berserk_atk == if old(self).berserk_turns == 1 { 0 } else { old(self).berserk_atk as int },
    {
        if self.shield_turns > 0 {
            self.shield_turns = self.shield_turns - 1;
            if self.shield_turns <= 0 {
                self.shield_def = 0;
            }
        }
        if self.berserk_turns > 0 {
            self.berserk_turns = self.berserk_turns - 1;
            if self.berserk_turns <= 0 {
                self.berserk_atk = 0;
            }
        }
    }
}

/// The strength of the first `k` effects of kind `kind`, added up.
pub open spec fn buff_total(bs: Seq<Buff>, kind: BuffKind, k: int) -> int
    decreases k,
{
    if k <= 0 {
        0
    } else {
        buff_total(bs, kind, k - 1) + if bs[k - 1].kind == kind { bs[k - 1].magnitude as int } else { 0 }
    }
}

/// The effects' list, empty when there are none.
pub open spec fn buff_list(b: Option<&ActiveBuffs>) -> Seq<Buff> {
    match b {
        Some(a) => a.0@,
        None => seq![],
    }
}

/// Whether `base` plus every running total of the effects of `kind` stays within `i32`.
pub open spec fn buff_sums_fit(base: int, bs: Seq<Buff>, kind: BuffKind) -> bool {
    forall|k: int| 0 <= k <= bs.len() ==> i32::MIN <= base + #[trigger] buff_total(bs, kind, k) <= i32::MAX
}

/// Whether `base` plus every running total of the effects of `kind` stays within
/// `i32` (see [`buff_sums_fit`]).
pub fn buff_sums_check(base: i64, bs: &Vec<Buff>, kind: BuffKind) -> (b: bool)
    requires
        i32::MIN <= base <= i32::MAX,
    ensures
        b == buff_sums_fit(base as int, bs@, kind),
{
    let mut acc: i64 = base;
    let mut i: usize = 0;
    while i < bs.len()
        invariant
            i <= bs@.len(),
            acc == base + buff_total(bs@, kind, i as int),
            forall|k: int| 0 <= k <= i ==> i32::MIN <= base + #[trigger] buff_total(bs@, kind, k) <= i32::MAX,
        decreases bs@.len() - i,
    {
        if bs[i].kind == kind {
            acc = acc + bs[i].magnitude as i64;
        }
        if acc < -0x8000_0000 || acc > 0x7fff_ffff {
            proof {
                assert(!(i32::MIN <= base + buff_total(bs@, kind, i as int + 1) <= i32::MAX));
            }
            return false;
        }
        i = i + 1;
    }
    true
}

/// `base` plus the strength of every effect of `kind`.
fn add_buffs(base: i32, bs: &Vec<Buff>, kind: BuffKind) -> (v: i32)
    requires
        buff_sums_fit(base as int, bs@, kind),
    ensures
        v == base + buff_total(bs@, kind, bs@.len() as int),
{
    let mut v = base;
    let mut i: usize = 0;
    while i < bs.len()
        invariant
            i <= bs@.len(),
            buff_sums_fit(base as int, bs@, kind),
            v == base + buff_total(bs@, kind, i as int),
        decreases bs@.len() - i,
    {
        assert(i32::MIN <= base + buff_total(bs@, kind, i as int + 1) <= i32::MAX);
        if bs[i].kind == kind {
            v = v + bs[i].magnitude;
        }
        i = i + 1;
    }
    v
}

/// Attack with worn items and berserk effects: base plus equipment bonus plus every
/// berserk effect, at least 1.
pub fn effective_attack(
    stats: &Stats,
    inv: &Inventory,
    equip: &Equipment,
    active_buffs: Option<&ActiveBuffs>,
    reg: &ItemRegistry,
) -> (a: u32)
    requires
        stats.attack <= i32::MAX,
        bonus_sums_fit(reg, worn(equip)),
        i32::MIN <= stats.attack + bonus_sum(reg, worn(equip), 0, worn(equip).len() as int) <= i32::MAX,
        buff_sums_fit(stats.attack + bonus_sum(reg, worn(equip), 0, worn(equip).len() as int), buff_list(active_buffs), BuffKind::Berserk),
    ensures
        ({
            let total = stats.attack + bonus_sum(reg, worn(equip), 0, worn(equip).len() as int) + buff_total(
                buff_list(active_buffs),
                BuffKind::Berserk,
                buff_list(active_buffs).len() as int,
            );
            a == if total >= 1 { total } else { 1 }
        }),
{
    let bonus = equipment_bonus(inv, equip, reg);
    assert(bonus_field(bonus, 0) == bonus.attack);
    let base = stats.attack as i32 + bonus.attack;
    let atk = match active_buffs {
        Some(ab) => add_buffs(base, &ab.0, BuffKind::Berserk),
        None => base,
    };
    if atk >= 1 { atk as u32 } else { 1 }
}

/// Defense with worn items and shield effects: base plus equipment bonus plus every
/// shield effect, at least 0.
pub fn effective_defense(
    stats: &Stats,
    inv: &Inventory,
    equip: &Equipment,
    active_buffs: Option<&ActiveBuffs>,
    reg: &ItemRegistry,
) -> (d: u32)
    requires
        stats.defense <= i32::MAX,
        bonus_sums_fit(reg, worn(equip)),
        i32::MIN <= stats.defense + bonus_sum(reg, worn(equip), 1, worn(equip).len() as int) <= i32::MAX,
        buff_sums_fit(stats.defense + bonus_sum(reg, worn(equip), 1, worn(equip).len() as int), buff_list(active_buffs), BuffKind::Shield),
    ensures
        ({
            let total = stats.defense + bonus_sum(reg, worn(equip), 1, worn(equip).len() as int) + buff_total(
                buff_list(active_buffs),
                BuffKind::Shield,
                buff_list(active_buffs).len() as int,
            );
            d == if total >= 0 { total } else { 0 }
        }),
{
    let bonus = equipment_bonus(inv, equip, reg);
    assert(bonus_field(bonus, 1) == bonus.defense);
    let base = stats.defense as i32 + bonus.defense;
    let def = match active_buffs {
        Some(ab) => add_buffs(base, &ab.0, BuffKind::Shield),
        None => base,
    };
    if def >= 0 { def as u32 } else { 0 }
}

/// The death check: a player with no hit points left ends the game, and the log says
/// so.
pub fn check_death(stats: &Stats, turns: &mut TurnManager, log: &mut EventLog)
    ensures
        stats.hp <= 0 ==> final(turns).game_over && final(turns).wants_quit == old(turns).wants_quit && log_view(
            final(log),
        ) == logged(log_view(old(log)), "你死了"@),
        stats.hp > 0 ==> *final(turns) == *old(turns) && *final(log) == *old(log),
{
    if stats.hp <= 0 {
        log.push("你死了".to_owned());
        turns.game_over = true;
    }
}

/// Every natural number has an integer square root.
pub proof fn lemma_isqrt_exists(n: int)
    requires
        n >= 0,
    ensures
        is_isqrt(n, isqrt_of(n)),
        isqrt_of(n) >= 0,
    decreases n,
{
    if n == 0 {
        assert(is_isqrt(0, 0));
    } else {
        lemma_isqrt_exists(n - 1);
        let r = isqrt_of(n - 1);
        if (r + 1) * (r + 1) <= n {
            assert(n < (r + 2) * (r + 2)) by (nonlinear_arith)
                requires n - 1 < (r + 1) * (r + 1), r >= 0;
            assert(is_isqrt(n, r + 1));
        } else {
            assert(is_isqrt(n, r));
        }
    }
}

/// `level`, `exp` and `exp_to_next` after every level-up the experience pays for: while
/// the experience reaches the amount needed, it is spent and the level rises.
pub open spec fn settled(level: int, exp: int, next: int) -> (int, int, int)
    decreases exp, if next == 0 { 1int } else { 0int },
    when level >= 0 && exp >= 0 && next >= 0
{
    if exp < next {
        (level, exp, next)
    } else {
        proof {
            lemma_isqrt_exists(625 * (level + 1) * (level + 1) * (level + 1));
        }
        settled(level + 1, exp - next, exp_needed(level + 1))
    }
}

/// The level only rises while settling.
pub proof fn lemma_settled_level(level: int, exp: int, next: int)
    requires
        level >= 0,
        exp >= 0,
        next >= 0,
    ensures
        settled(level, exp, next).0 >= level,
        settled(level, exp, next).1 >= 0,
    decreases exp, if next == 0 { 1int } else { 0int },
{
    if exp >= next {
        lemma_isqrt_exists(625 * (level + 1) * (level + 1) * (level + 1));
        lemma_settled_level(level + 1, exp - next, exp_needed(level + 1));
    }
}

/// The message for reaching level `k`.
pub open spec fn level_message(k: int) -> Seq<char> {
    "升级！达到 Lv."@ + decimal(k as nat)
}

/// The messages for reaching each level from `from` to `to`, in order.
pub open spec fn level_messages(from: int, to: int) -> Seq<Seq<char>> {
    Seq::new(if to >= from { (to - from + 1) as nat } else { 0 }, |i: int| level_message(from + i))
}

/// Whether settling `gained` more experience keeps every number in range: the
/// experience in `u64`, the final level in `u32`, its hit and magic points in `i32`.
pub open spec fn exp_fits(s: Stats, gained: int) -> bool {
    let fin = settled(s.level as int, s.exp + gained, s.exp_to_next as int);
    &&& s.exp + gained <= u64::MAX
    &&& fin.0 <= u32::MAX
    &&& hp_for(fin.0, s.defense as int) <= i32::MAX
    &&& mp_for(fin.0, s.magic_mastery as int) <= i32::MAX
}

/// The numbers and log (`s1`, `l1`) after `gained` experience is handed to a
/// fighter with numbers `s` and log `l0`: nothing when none is gained; otherwise the
/// level, experience and experience needed become those [`settled`] gives; on a level
/// rise hit and magic points become the new maximum; the other numbers stay; each new
/// level is logged.
pub open spec fn exp_outcome(s: Stats, gained: u64, l0: Seq<Seq<char>>, s1: Stats, l1: Seq<Seq<char>>) -> bool {
    if gained == 0 {
        s1 == s && l1 == l0
    } else {
        let fin = settled(s.level as int, s.exp + gained, s.exp_to_next as int);
        &&& s1.level == fin.0
        &&& s1.exp == fin.1
        &&& s1.exp_to_next == fin.2
        &&& fin.0 > s.level ==> s1.max_hp == hp_for(fin.0, s.defense as int) && s1.hp == s1.max_hp && s1.max_mp
            == mp_for(fin.0, s.magic_mastery as int) && s1.mp == s1.max_mp
        &&& fin.0 == s.level ==> s1.max_hp == s.max_hp && s1.hp == s.hp && s1.max_mp == s.max_mp && s1.mp == s.mp
        &&& s1.attack == s.attack && s1.defense == s.defense && s1.magic_mastery == s.magic_mastery && s1.agility
            == s.agility
        &&& s1.crit_rate_permille == s.crit_rate_permille && s1.crit_damage_permille == s.crit_damage_permille
        &&& l1 == logged_all(l0, level_messages(s.level + 1, fin.0))
    }
}

/// Gaining a level restores the fighter: after experience is handed over, when the
/// level rose, the maximum hit points are 20 plus 5 per level plus 2 per point of
/// defense and the hit points equal them, and the maximum magic points are 5 plus 3
/// per level plus the magic mastery and the magic points equal them; when it did not,
/// hit and magic points and their maxima are as they were. The level never falls.
pub proof fn lemma_level_up_refills(s: Stats, gained: u64, l0: Seq<Seq<char>>, s1: Stats, l1: Seq<Seq<char>>)
    requires
        exp_outcome(s, gained, l0, s1, l1),
    ensures
        s1.level >= s.level,
        s1.level > s.level ==> s1.max_hp == 20 + 5 * s1.level + 2 * s.defense && s1.hp == s1.max_hp && s1.max_mp == 5
            + 3 * s1.level + s.magic_mastery && s1.mp == s1.max_mp,
        s1.level == s.level ==> s1.hp == s.hp && s1.max_hp == s.max_hp && s1.mp == s.mp && s1.max_mp == s.max_mp,
{
    if gained > 0 {
        lemma_settled_level(s.level as int, s.exp + gained, s.exp_to_next as int);
    }
}

/// Modest numbers (level at most 10 000, experience at most 10^9, defense and
/// mastery at most 10^8), under which settling experience stays in range.
pub open spec fn exp_guard(s: Stats, gained: int) -> bool {
    &&& s.level <= 10_000
    &&& s.exp + gained <= 1_000_000_000
    &&& s.defense <= 100_000_000
    &&& s.magic_mastery <= 100_000_000
}

/// Each level past the first costs at least 10 experience.
proof fn lemma_exp_needed_floor(level: int)
    requires
        level >= 1,
    ensures
        exp_needed(level) >= 10,
{
    assert(625 * level * level * level >= 0) by (nonlinear_arith)
        requires
            level >= 1;
    lemma_isqrt_exists(625 * level * level * level);
}

/// With at least 10 needed per level, settling `exp` raises the level by at most a
/// tenth of it.
proof fn lemma_settled_bound_costly(level: int, exp: int, next: int)
    requires
        level >= 0,
        exp >= 0,
        next >= 10,
    ensures
        settled(level, exp, next).0 <= level + exp / 10,
    decreases exp,
{
    if exp >= next {
        lemma_exp_needed_floor(level + 1);
        lemma_isqrt_exists(625 * (level + 1) * (level + 1) * (level + 1));
        lemma_settled_bound_costly(level + 1, exp - next, exp_needed(level + 1));
    }
}

/// Settling `exp` raises the level by at most one plus a tenth of it.
proof fn lemma_settled_bound(level: int, exp: int, next: int)
    requires
        level >= 0,
        exp >= 0,
        next >= 0,
    ensures
        settled(level, exp, next).0 <= level + 1 + exp / 10,
{
    if exp >= next {
        lemma_exp_needed_floor(level + 1);
        lemma_isqrt_exists(625 * (level + 1) * (level + 1) * (level + 1));
        lemma_settled_bound_costly(level + 1, exp - next, exp_needed(level + 1));
    }
}

/// Under the guard, settling experience stays in range.
pub proof fn lemma_exp_guard(s: Stats, gained: int)
    requires
        gained >= 0,
        exp_guard(s, gained),
    ensures
        exp_fits(s, gained),
{
    lemma_settled_bound(s.level as int, s.exp + gained, s.exp_to_next as int);
}

/// Hands the pending experience to the player: each level it pays for raises the
/// level, sets hit and magic points to the new maximum, sets the experience needed
/// for the next level, and is logged. Nothing happens when none is pending.
pub fn apply_exp(stats: &mut Stats, pending: &mut PendingExp, log: &mut EventLog)
    requires
        exp_fits(*old(stats), old(pending).amount as int),
    ensures
        final(pending).amount == 0,
        exp_outcome(*old(stats), old(pending).amount, log_view(old(log)), *final(stats), log_view(final(log))),
        final(stats).level > old(stats).level ==> final(stats).mp == final(stats).max_mp && final(stats).max_mp == 5 + 3
            * final(stats).level + old(stats).magic_mastery && final(stats).hp == final(stats).max_hp
            && final(stats).max_hp == 20 + 5 * final(stats).level + 2 * old(stats).defense,
        final(stats).level == old(stats).level ==> final(stats).mp == old(stats).mp && final(stats).hp == old(stats).hp,
{
    proof {
        lemma_settled_level(old(stats).level as int, old(stats).exp + old(pending).amount, old(stats).exp_to_next as int);
    }
    if pending.amount == 0 {
        return;
    }
    let gained = pending.amount;
    pending.amount = 0;
    let ghost s0 = *stats;
    let ghost fin = settled(s0.level as int, s0.exp + gained, s0.exp_to_next as int);
    let ghost m0 = log_view(log);
    proof {
        lemma_settled_level(s0.level as int, s0.exp + gained, s0.exp_to_next as int);
        assert(level_messages(s0.level + 1, s0.level as int) =~= Seq::<Seq<char>>::empty());
    }
    stats.exp = stats.exp + gained;
    while stats.exp >= stats.exp_to_next
        invariant
            settled(stats.level as int, stats.exp as int, stats.exp_to_next as int) == fin,
            fin == settled(s0.level as int, s0.exp + gained, s0.exp_to_next as int),
            fin.0 <= u32::MAX,
            hp_for(fin.0, s0.defense as int) <= i32::MAX,
            mp_for(fin.0, s0.magic_mastery as int) <= i32::MAX,
            s0.level <= stats.level <= fin.0,
            stats.level > s0.level ==> stats.max_hp == hp_for(stats.level as int, s0.defense as int) && stats.hp
                == stats.max_hp && stats.max_mp == mp_for(stats.level as int, s0.magic_mastery as int)
                && stats.mp == stats.max_mp,
            stats.level == s0.level ==> stats.max_hp == s0.max_hp && stats.hp == s0.hp && stats.max_mp == s0.max_mp
                && stats.mp == s0.mp,
            stats.attack == s0.attack && stats.defense == s0.defense && stats.magic_mastery == s0.magic_mastery
                && stats.agility == s0.agility,
            stats.crit_rate_permille == s0.crit_rate_permille && stats.crit_damage_permille == s0.crit_damage_permille,
            log_view(log) == logged_all(m0, level_messages(s0.level + 1, stats.level as int)),
        decreases stats.exp, if stats.exp_to_next == 0 { 1int } else { 0int },
    {
        proof {
            lemma_isqrt_exists(625 * (stats.level + 1) * (stats.level + 1) * (stats.level + 1));
            lemma_settled_level(stats.level + 1, stats.exp - stats.exp_to_next, exp_needed(stats.level + 1));
            assert(hp_for(stats.level + 1, s0.defense as int) <= hp_for(fin.0, s0.defense as int));
        }
        stats.exp = stats.exp - stats.exp_to_next;
        stats.level = stats.level + 1;
        stats.max_hp = max_hp_for(stats.level, stats.defense);
        stats.max_mp = max_mp_for(stats.level, stats.magic_mastery);
        stats.hp = stats.max_hp;
        stats.mp = stats.max_mp;
        stats.exp_to_next = exp_to_next_level(stats.level);
        let mut msg = String::new();
        push_text(&mut msg, "升级！达到 Lv.");
        push_decimal(&mut msg, stats.level as u64);
        proof {
            assert(msg@ =~= level_message(stats.level as int));
            let a = level_messages(s0.level + 1, stats.level as int);
            assert(a.drop_last() =~= level_messages(s0.level + 1, stats.level - 1));
        }
        log.push(msg);
    }
}

} // verus!
