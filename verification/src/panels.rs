use vstd::prelude::*;
use crate::action::{ActionEntry, ActionKindV3};
use crate::stats::{Buff, BuffKind};
use crate::monsters::{MonsterKindId, monster_glyph, monster_name, monster_title};
use crate::text::{push_text, push_char, push_decimal_wide, push_signed, decimal, signed_decimal};
use crate::turns::PlayerPreview;
use crate::world::{World, Monster, PLAYER_ID, actor_pos, monster_index};
use crate::tile::{Tile, MAP_WIDTH, MAP_HEIGHT};
use crate::room::on_map;
use crate::map::{MAP_CELLS, cell_index};
use crate::saves::MapMemory;
use crate::items::{ItemRegistry, ItemStack, worn, bonus_sum, bonus_sums_fit, bonus_sums_check, bonus_field, equipment_bonus, stack_name};
use crate::stats::{buff_total, buff_sums_fit, buff_sums_check, effective_attack, effective_defense};
use crate::display::{bar, bar_text};

verus! {

/// A line of the action timeline beside the map.
pub enum TimelineRow {
    /// The frame's top.
    Top,
    /// What the player is about to do.
    Preview(String),
    /// A queued action of an actor in sight: its glyph, what it does and how far off.
    Queued { entity: u64, glyph: char, label: String, timer: u32 },
    /// The frame's bottom.
    Bottom,
    /// A dividing line.
    Divider,
    /// A monster in sight: glyph, name, health (shown no lower than 0) and whether it
    /// is low.
    Status { entity: u64, glyph: char, name: String, hp: i32, max_hp: i32, low: bool },
    /// An effect on the player: name, strength and seconds left (rounded up).
    Effect { name: String, magnitude: i32, seconds: u32 },
    /// Nothing in sight.
    Nothing,
    /// An empty line.
    Blank,
    /// The help line for moving and skills.
    KeysMove,
    /// The help line for waiting, the bag and looking.
    KeysOther,
}

/// A timeline line with its text as characters.
pub enum RowView {
    Top,
    Preview(Seq<char>),
    Queued { entity: u64, glyph: char, label: Seq<char>, timer: u32 },
    Bottom,
    Divider,
    Status { entity: u64, glyph: char, name: Seq<char>, hp: i32, max_hp: i32, low: bool },
    Effect { name: Seq<char>, magnitude: i32, seconds: u32 },
    Nothing,
    Blank,
    KeysMove,
    KeysOther,
}

impl View for TimelineRow {
    type V = RowView;

    open spec fn view(&self) -> RowView {
        match self {
            TimelineRow::Top => RowView::Top,
            TimelineRow::Preview(t) => RowView::Preview(t@),
            TimelineRow::Queued { entity, glyph, label, timer } => RowView::Queued {
                entity: *entity,
                glyph: *glyph,
                label: label@,
                timer: *timer,
            },
            TimelineRow::Bottom => RowView::Bottom,
            TimelineRow::Divider => RowView::Divider,
            TimelineRow::Status { entity, glyph, name, hp, max_hp, low } => RowView::Status {
                entity: *entity,
                glyph: *glyph,
                name: name@,
                hp: *hp,
                max_hp: *max_hp,
                low: *low,
            },
            TimelineRow::Effect { name, magnitude, seconds } => RowView::Effect {
                name: name@,
                magnitude: *magnitude,
                seconds: *seconds,
            },
            TimelineRow::Nothing => RowView::Nothing,
            TimelineRow::Blank => RowView::Blank,
            TimelineRow::KeysMove => RowView::KeysMove,
            TimelineRow::KeysOther => RowView::KeysOther,
        }
    }
}

/// The lines as characters.
pub open spec fn row_views(rows: Seq<TimelineRow>) -> Seq<RowView> {
    rows.map_values(|r: TimelineRow| r@)
}

/// What the player's pending action reads as.
pub open spec fn preview_text(k: Option<ActionKindV3>) -> Seq<char> {
    match k {
        Some(ActionKindV3::Move { dx, dy }) => "移动("@ + signed_decimal(dx as int) + ","@ + signed_decimal(dy as int)
            + ")"@,
        Some(ActionKindV3::Wait) => "等待"@,
        Some(ActionKindV3::Skill(i)) => "技能"@ + decimal((i + 1) as nat),
        Some(ActionKindV3::Attack { .. }) => "攻击"@,
        _ => "等待输入"@,
    }
}

/// What a queued action reads as.
pub open spec fn action_label(k: ActionKindV3) -> Seq<char> {
    match k {
        ActionKindV3::Move { .. } => "移动"@,
        ActionKindV3::Chase => "追击"@,
        ActionKindV3::Flee => "逃跑"@,
        ActionKindV3::Wander => "游荡"@,
        ActionKindV3::Wait => "等待"@,
        ActionKindV3::Attack { .. } => "攻击"@,
        ActionKindV3::Skill(i) => "技能"@ + decimal((i + 1) as nat),
        ActionKindV3::Throw { .. } => "投掷"@,
    }
}

/// The glyph of a monster kind.
pub open spec fn kind_glyph(kind: MonsterKindId) -> char {
    match kind {
        MonsterKindId::Rat => 'r',
        MonsterKindId::Scorpion => 's',
        MonsterKindId::Goblin => 'g',
    }
}

/// The glyph of actor `id` of `w`.
pub open spec fn actor_glyph(w: World, id: u64) -> char {
    if id == PLAYER_ID {
        '@'
    } else {
        kind_glyph(w.monsters@[monster_index(w.monsters@, id)].kind)
    }
}

/// Whether health `hp` is at most a third of `max_hp` (the third rounded toward zero).
pub open spec fn low_health(hp: int, max_hp: int) -> bool {
    if max_hp >= 0 {
        3 * hp <= max_hp
    } else {
        3 * hp <= max_hp + 2
    }
}

/// The lines for the entries `s` of `w` whose actor stands on a cell of `vis`.
pub open spec fn queued_rows(w: World, vis: Seq<(usize, usize)>, s: Seq<ActionEntry>) -> Seq<RowView>
    decreases s.len(),
{
    if s.len() == 0 {
        seq![]
    } else {
        let rest = queued_rows(w, vis, s.drop_last());
        let e = s.last();
        match actor_pos(w, e.entity) {
            Some(p) => if vis.contains(p) {
                rest.push(
                    RowView::Queued {
                        entity: e.entity,
                        glyph: actor_glyph(w, e.entity),
                        label: action_label(e.kind),
                        timer: e.av_remaining,
                    },
                )
            } else {
                rest
            },
            None => rest,
        }
    }
}

/// The line for monster `m`.
pub open spec fn status_row(m: Monster) -> RowView {
    RowView::Status {
        entity: m.id,
        glyph: kind_glyph(m.kind),
        name: monster_title(m.kind),
        hp: if m.stats.hp < 0 { 0 } else { m.stats.hp },
        max_hp: m.stats.max_hp,
        low: low_health(m.stats.hp as int, m.stats.max_hp as int),
    }
}

/// The lines for the monsters of `ms` on a cell of `vis`, in order.
pub open spec fn status_rows(vis: Seq<(usize, usize)>, ms: Seq<Monster>) -> Seq<RowView>
    decreases ms.len(),
{
    if ms.len() == 0 {
        seq![]
    } else {
        let rest = status_rows(vis, ms.drop_last());
        if vis.contains(ms.last().pos) {
            rest.push(status_row(ms.last()))
        } else {
            rest
        }
    }
}

/// The name of an effect.
pub open spec fn effect_name(kind: BuffKind) -> Seq<char> {
    match kind {
        BuffKind::Shield => "护盾"@,
        BuffKind::Berserk => "狂暴"@,
    }
}

/// The line for effect `b`: seconds are thousands of action value, rounded up.
pub open spec fn effect_row(b: Buff) -> RowView {
    RowView::Effect { name: effect_name(b.kind), magnitude: b.magnitude, seconds: ((b.remaining_av + 999) / 1000) as u32 }
}

/// The effect lines: none without effects, else a divider and a line per effect.
pub open spec fn effect_rows(bs: Seq<Buff>) -> Seq<RowView> {
    if bs.len() == 0 {
        seq![]
    } else {
        seq![RowView::Divider] + bs.map_values(|b: Buff| effect_row(b))
    }
}

/// The timeline of `w` with the player's pending action `preview`: the framed
/// pending action and queued actions in sight, a divider, the monsters in sight, the
/// player's effects, a note when nothing is in sight and there is at most one line
/// of queued actions or effects, and the key help.
pub open spec fn timeline_rows(w: World, preview: Option<ActionKindV3>) -> Seq<RowView> {
    let vis = w.visible@;
    let queued = queued_rows(w, vis, w.queue.entries@);
    let status = status_rows(vis, w.monsters@);
    let effects = effect_rows(w.active.0@);
    let nothing = if status.len() == 0 && queued.len() + effects.len() <= 1 {
        seq![RowView::Nothing]
    } else {
        seq![]
    };
    seq![RowView::Top, RowView::Preview(preview_text(preview))] + queued + seq![RowView::Bottom, RowView::Divider]
        + status + effects + nothing + seq![RowView::Blank, RowView::KeysMove, RowView::KeysOther]
}

fn put(rows: &mut Vec<TimelineRow>, r: TimelineRow)
    ensures
        row_views(final(rows)@) == row_views(old(rows)@).push(r@),
{
    let ghost v = r@;
    rows.push(r);
    assert(row_views(rows@) =~= row_views(old(rows)@).push(v));
}

fn sees(vis: &Vec<(usize, usize)>, p: (usize, usize)) -> (b: bool)
    ensures
        b == vis@.contains(p),
{
    let mut i: usize = 0;
    while i < vis.len()
        invariant
            i <= vis@.len(),
            forall|k: int| 0 <= k < i ==> vis@[k] != p,
        decreases vis@.len() - i,
    {
        if vis[i].0 == p.0 && vis[i].1 == p.1 {
            return true;
        }
        i = i + 1;
    }
    false
}

fn skill_number(s: &mut String, i: usize)
    ensures
        final(s)@ == old(s)@ + decimal((i + 1) as nat),
{
    push_decimal_wide(s, i as u128 + 1);
}

fn preview_string(k: Option<ActionKindV3>) -> (s: String)
    ensures
        s@ == preview_text(k),
{
    let mut s = String::new();
    match k {
        Some(ActionKindV3::Move { dx, dy }) => {
            push_text(&mut s, "移动(");
            push_signed(&mut s, dx as i64);
            push_char(&mut s, ',');
            push_signed(&mut s, dy as i64);
            push_char(&mut s, ')');
            proof {
                reveal_strlit("移动(");
                reveal_strlit(",");
                reveal_strlit(")");
            }
            assert(s@ =~= preview_text(k));
        },
        Some(ActionKindV3::Wait) => push_text(&mut s, "等待"),
        Some(ActionKindV3::Skill(i)) => {
            push_text(&mut s, "技能");
            skill_number(&mut s, i);
        },
        Some(ActionKindV3::Attack { .. }) => push_text(&mut s, "攻击"),
        _ => push_text(&mut s, "等待输入"),
    }
    assert(s@ =~= preview_text(k));
    s
}

fn label_string(k: ActionKindV3) -> (s: String)
    ensures
        s@ == action_label(k),
{
    let mut s = String::new();
    match k {
        ActionKindV3::Move { .. } => push_text(&mut s, "移动"),
        ActionKindV3::Chase => push_text(&mut s, "追击"),
        ActionKindV3::Flee => push_text(&mut s, "逃跑"),
        ActionKindV3::Wander => push_text(&mut s, "游荡"),
        ActionKindV3::Wait => push_text(&mut s, "等待"),
        ActionKindV3::Attack { .. } => push_text(&mut s, "攻击"),
        ActionKindV3::Skill(i) => {
            push_text(&mut s, "技能");
            skill_number(&mut s, i);
        },
        ActionKindV3::Throw { .. } => push_text(&mut s, "投掷"),
    }
    assert(s@ =~= action_label(k));
    s
}

fn low_check(hp: i32, max_hp: i32) -> (b: bool)
    ensures
        b == low_health(hp as int, max_hp as int),
{
    let h: i64 = hp as i64;
    let m: i64 = max_hp as i64;
    if m >= 0 {
        3 * h <= m
    } else {
        3 * h <= m + 2
    }
}

/// The timeline beside the map (see [`timeline_rows`]).
pub fn build_timeline(w: &World, preview: &PlayerPreview) -> (rows: Vec<TimelineRow>)
    requires
        w.wf(),
    ensures
        row_views(rows@) == timeline_rows(*w, preview.kind),
{
    let mut rows: Vec<TimelineRow> = Vec::new();
    assert(row_views(rows@) =~= Seq::<RowView>::empty());
    put(&mut rows, TimelineRow::Top);
    put(&mut rows, TimelineRow::Preview(preview_string(preview.kind)));
    let ghost head = row_views(rows@);
    let mut i: usize = 0;
    let mut queued: usize = 0;
    while i < w.queue.entries.len()
        invariant
            w.wf(),
            i <= w.queue.entries@.len(),
            queued <= i,
            row_views(rows@) == head + queued_rows(*w, w.visible@, w.queue.entries@.take(i as int)),
            queued == queued_rows(*w, w.visible@, w.queue.entries@.take(i as int)).len(),
        decreases w.queue.entries@.len() - i,
    {
        let e = w.queue.entries[i];
        assert(w.queue.entries@.take(i as int + 1).drop_last() =~= w.queue.entries@.take(i as int));
        match w.actor_cell(e.entity) {
            Some(p) => {
                if sees(&w.visible, p) {
                    let glyph = if e.entity == PLAYER_ID {
                        '@'
                    } else {
                        match w.find_monster(e.entity) {
                            Some(k) => monster_glyph(w.monsters[k].kind),
                            None => '?',
                        }
                    };
                    proof {
                        if e.entity != PLAYER_ID {
                            let k = choose|k: int| #[trigger] crate::world::monster_at(w.monsters@, e.entity, k);
                            crate::world::lemma_monster_index(*w, e.entity, k);
                        }
                    }
                    put(&mut rows, TimelineRow::Queued { entity: e.entity, glyph, label: label_string(e.kind), timer: e.av_remaining });
                    queued = queued + 1;
                    proof {
                        assert(head + queued_rows(*w, w.visible@, w.queue.entries@.take(i as int + 1)) =~= (head
                            + queued_rows(*w, w.visible@, w.queue.entries@.take(i as int))).push(
                            RowView::Queued {
                                entity: e.entity,
                                glyph: actor_glyph(*w, e.entity),
                                label: action_label(e.kind),
                                timer: e.av_remaining,
                            },
                        ));
                    }
                }
            },
            None => {},
        }
        i = i + 1;
    }
    assert(w.queue.entries@.take(w.queue.entries@.len() as int) =~= w.queue.entries@);
    put(&mut rows, TimelineRow::Bottom);
    put(&mut rows, TimelineRow::Divider);
    let ghost mid = row_views(rows@);
    let mut shown: usize = 0;
    i = 0;
    while i < w.monsters.len()
        invariant
            i <= w.monsters@.len(),
            shown <= i,
            row_views(rows@) == mid + status_rows(w.visible@, w.monsters@.take(i as int)),
            shown == status_rows(w.visible@, w.monsters@.take(i as int)).len(),
        decreases w.monsters@.len() - i,
    {
        assert(w.monsters@.take(i as int + 1).drop_last() =~= w.monsters@.take(i as int));
        let m = &w.monsters[i];
        if sees(&w.visible, m.pos) {
            let mut name = String::new();
            push_text(&mut name, monster_name(m.kind));
            let hp = if m.stats.hp < 0 { 0 } else { m.stats.hp };
            put(&mut rows, TimelineRow::Status {
                entity: m.id,
                glyph: monster_glyph(m.kind),
                name,
                hp,
                max_hp: m.stats.max_hp,
                low: low_check(m.stats.hp, m.stats.max_hp),
            });
            shown = shown + 1;
            proof {
                assert(name@ =~= monster_title(m.kind));
                assert(mid + status_rows(w.visible@, w.monsters@.take(i as int + 1)) =~= (mid + status_rows(
                    w.visible@,
                    w.monsters@.take(i as int),
                )).push(status_row(w.monsters@[i as int])));
            }
        }
        i = i + 1;
    }
    assert(w.monsters@.take(w.monsters@.len() as int) =~= w.monsters@);
    let ghost before_effects = row_views(rows@);
    let n_effects = w.active.0.len();
    if n_effects > 0 {
        put(&mut rows, TimelineRow::Divider);
        i = 0;
        while i < n_effects
            invariant
                n_effects == w.active.0@.len(),
                i <= n_effects,
                row_views(rows@) == before_effects + seq![RowView::Divider] + w.active.0@.take(i as int).map_values(
                    |b: Buff| effect_row(b),
                ),
            decreases n_effects - i,
        {
            let b = &w.active.0[i];
            let mut name = String::new();
            match b.kind {
                BuffKind::Shield => push_text(&mut name, "护盾"),
                BuffKind::Berserk => push_text(&mut name, "狂暴"),
            }
            let seconds: u32 = (b.remaining_av / 1000) + if b.remaining_av % 1000 == 0 { 0 } else { 1 };
            put(&mut rows, TimelineRow::Effect { name, magnitude: b.magnitude, seconds });
            proof {
                assert(name@ =~= effect_name(b.kind));
                assert(seconds == ((b.remaining_av + 999) / 1000) as u32);
                assert(w.active.0@.take(i as int + 1).map_values(|b: Buff| effect_row(b)) =~= w.active.0@.take(
                    i as int,
                ).map_values(|b: Buff| effect_row(b)).push(effect_row(w.active.0@[i as int])));
            }
            i = i + 1;
        }
        assert(w.active.0@.take(n_effects as int) =~= w.active.0@);
    }
    let ghost effects = effect_rows(w.active.0@);
    assert(row_views(rows@) =~= before_effects + effects);
    let nothing = shown == 0 && n_effects == 0 && queued <= 1;
    if nothing {
        put(&mut rows, TimelineRow::Nothing);
    }
    put(&mut rows, TimelineRow::Blank);
    put(&mut rows, TimelineRow::KeysMove);
    put(&mut rows, TimelineRow::KeysOther);
    assert(row_views(rows@) =~= timeline_rows(*w, preview.kind));
    rows
}

} // verus!

verus! {

/// A skill as the status panel lists it: key, name, cost and whether the player has
/// the mana for it.
pub struct SkillLine {
    pub key: char,
    pub name: String,
    pub cost: i32,
    pub usable: bool,
}

/// An actor under the look cursor: name and health (shown no lower than 0).
pub struct LookEntity {
    pub name: String,
    pub hp: i32,
    pub max_hp: i32,
}

/// What the status panel says of the look cursor's cell.
pub enum LookPanel {
    /// The cursor lies off the map.
    OffMap,
    /// A cell in sight: its tile and the actors on it.
    Visible { tile: Tile, entities: Vec<LookEntity> },
    /// A cell seen before: its tile only.
    Explored { tile: Tile },
    /// A cell never seen.
    Unexplored,
}

/// The status panel: level and health warning, the three bars, the fighting numbers
/// (attack and defense with worn items and effects, critical rate with worn items
/// capped at 1000 thousandths; `None` where the sums leave `i32`), the names of the
/// worn items, floor and cell, the skills, and the look cursor's cell when looking.
pub struct StatsPanel {
    pub level: u32,
    pub low_hp: bool,
    pub hp: i32,
    pub max_hp: i32,
    pub hp_bar: String,
    pub mp: i32,
    pub max_mp: i32,
    pub mp_bar: String,
    pub exp: u64,
    pub exp_to_next: u64,
    pub exp_bar: String,
    pub attack: Option<u32>,
    pub magic_mastery: u32,
    pub defense: Option<u32>,
    pub agility: u32,
    pub crit_rate: Option<i64>,
    pub crit_damage: i32,
    pub weapon: String,
    pub armor: String,
    pub ring: String,
    pub floor: u32,
    pub pos: (usize, usize),
    pub skills: Vec<SkillLine>,
    pub look: Option<((usize, usize), LookPanel)>,
}

/// Whether health `hp` is at most 30% of `max_hp`.
pub open spec fn hp_warning(hp: int, max_hp: int) -> bool {
    10 * hp <= 3 * max_hp
}

/// Attack as the panel shows it: base, worn bonus and berserk effects, at least 1;
/// none where a sum leaves `i32`.
pub open spec fn attack_shown(w: World, reg: &ItemRegistry) -> Option<u32> {
    let e = worn(&w.equip);
    let base = w.stats.attack + bonus_sum(reg, e, 0, e.len() as int);
    let bs = w.active.0@;
    if w.stats.attack <= i32::MAX && bonus_sums_fit(reg, e) && i32::MIN <= base <= i32::MAX && buff_sums_fit(
        base,
        bs,
        BuffKind::Berserk,
    ) {
        let total = base + buff_total(bs, BuffKind::Berserk, bs.len() as int);
        Some((if total >= 1 { total } else { 1 }) as u32)
    } else {
        None
    }
}

/// Defense as the panel shows it: base, worn bonus and shield effects, at least 0;
/// none where a sum leaves `i32`.
pub open spec fn defense_shown(w: World, reg: &ItemRegistry) -> Option<u32> {
    let e = worn(&w.equip);
    let base = w.stats.defense + bonus_sum(reg, e, 1, e.len() as int);
    let bs = w.active.0@;
    if w.stats.defense <= i32::MAX && bonus_sums_fit(reg, e) && i32::MIN <= base <= i32::MAX && buff_sums_fit(
        base,
        bs,
        BuffKind::Shield,
    ) {
        let total = base + buff_total(bs, BuffKind::Shield, bs.len() as int);
        Some((if total >= 0 { total } else { 0 }) as u32)
    } else {
        None
    }
}

/// Critical rate as the panel shows it: base plus worn bonus, at most 1000
/// thousandths; none where the worn bonuses leave `i32`.
pub open spec fn crit_shown(w: World, reg: &ItemRegistry) -> Option<i64> {
    let e = worn(&w.equip);
    if bonus_sums_fit(reg, e) {
        let r = w.stats.crit_rate_permille + bonus_sum(reg, e, 5, e.len() as int);
        Some((if r > 1000 { 1000 } else { r }) as i64)
    } else {
        None
    }
}

/// The name a worn slot shows: the stack's name, or `(空)` when empty.
pub open spec fn slot_name(reg: &ItemRegistry, s: Option<ItemStack>) -> Seq<char> {
    match s {
        Some(x) => stack_name(reg, &x),
        None => "(空)"@,
    }
}

/// The name of a tile.
pub open spec fn tile_title(t: Tile) -> Seq<char> {
    match t {
        Tile::Wall => "墙壁"@,
        Tile::Floor => "地板"@,
        Tile::ShallowWater => "浅水"@,
        Tile::DeepWater => "深水"@,
        Tile::Stalactite => "钟乳石"@,
    }
}

/// The name of a tile.
pub fn tile_name(t: Tile) -> (s: &'static str)
    ensures
        s@ == tile_title(t),
{
    match t {
        Tile::Wall => "墙壁",
        Tile::Floor => "地板",
        Tile::ShallowWater => "浅水",
        Tile::DeepWater => "深水",
        Tile::Stalactite => "钟乳石",
    }
}

/// The actors on cell `c` of `w` as the look panel lists them: the player first (as
/// `冒险者`), then the monsters there in order, each with name, health shown no lower
/// than 0, and maximum.
pub open spec fn look_entities(w: World, c: (usize, usize)) -> Seq<(Seq<char>, i32, i32)> {
    let player = if w.pos == c {
        seq![("冒险者"@, if w.stats.hp < 0 { 0i32 } else { w.stats.hp }, w.stats.max_hp)]
    } else {
        seq![]
    };
    player + monsters_on(w.monsters@, c)
}

/// The monsters of `ms` on cell `c`, as the look panel lists them.
pub open spec fn monsters_on(ms: Seq<Monster>, c: (usize, usize)) -> Seq<(Seq<char>, i32, i32)>
    decreases ms.len(),
{
    if ms.len() == 0 {
        seq![]
    } else {
        let rest = monsters_on(ms.drop_last(), c);
        let m = ms.last();
        if m.pos == c {
            rest.push((monster_title(m.kind), if m.stats.hp < 0 { 0i32 } else { m.stats.hp }, m.stats.max_hp))
        } else {
            rest
        }
    }
}

/// A look entry as characters.
pub open spec fn look_view(e: LookEntity) -> (Seq<char>, i32, i32) {
    (e.name@, e.hp, e.max_hp)
}

/// Whether `p` says what the look panel shows of cell `c` of `w` with the seen cells
/// `explored`: off the map; in sight with its tile and actors; seen before with its
/// tile; or never seen.
pub open spec fn looked(w: World, explored: Seq<bool>, c: (usize, usize), p: LookPanel) -> bool {
    if !on_map(c.0 as int, c.1 as int) {
        p is OffMap
    } else if w.visible@.contains(c) {
        p matches LookPanel::Visible { tile, entities } && tile == w.map.tile_at(c.0 as int, c.1 as int)
            && entities@.map_values(|e: LookEntity| look_view(e)) == look_entities(w, c)
    } else if explored[cell_index(c.0 as int, c.1 as int)] {
        p == LookPanel::Explored { tile: w.map.tile_at(c.0 as int, c.1 as int) }
    } else {
        p is Unexplored
    }
}

fn attack_check(w: &World, reg: &ItemRegistry) -> (r: Option<u32>)
    ensures
        r == attack_shown(*w, reg),
{
    if w.stats.attack > 0x7fff_ffff || !bonus_sums_check(&w.equip, reg) {
        return None;
    }
    let bonus = equipment_bonus(&w.inv, &w.equip, reg);
    assert(bonus_field(bonus, 0) == bonus.attack);
    let base: i64 = w.stats.attack as i64 + bonus.attack as i64;
    if base < -0x8000_0000 || base > 0x7fff_ffff {
        return None;
    }
    if !buff_sums_check(base, &w.active.0, BuffKind::Berserk) {
        return None;
    }
    Some(effective_attack(&w.stats, &w.inv, &w.equip, Some(&w.active), reg))
}

fn defense_check(w: &World, reg: &ItemRegistry) -> (r: Option<u32>)
    ensures
        r == defense_shown(*w, reg),
{
    if w.stats.defense > 0x7fff_ffff || !bonus_sums_check(&w.equip, reg) {
        return None;
    }
    let bonus = equipment_bonus(&w.inv, &w.equip, reg);
    assert(bonus_field(bonus, 1) == bonus.defense);
    let base: i64 = w.stats.defense as i64 + bonus.defense as i64;
    if base < -0x8000_0000 || base > 0x7fff_ffff {
        return None;
    }
    if !buff_sums_check(base, &w.active.0, BuffKind::Shield) {
        return None;
    }
    Some(effective_defense(&w.stats, &w.inv, &w.equip, Some(&w.active), reg))
}

fn crit_check(w: &World, reg: &ItemRegistry) -> (r: Option<i64>)
    ensures
        r == crit_shown(*w, reg),
{
    if !bonus_sums_check(&w.equip, reg) {
        return None;
    }
    let bonus = equipment_bonus(&w.inv, &w.equip, reg);
    assert(bonus_field(bonus, 5) == bonus.crit_rate_permille);
    let r: i64 = w.stats.crit_rate_permille as i64 + bonus.crit_rate_permille as i64;
    Some(if r > 1000 { 1000 } else { r })
}

fn slot_string(reg: &ItemRegistry, s: &Option<ItemStack>) -> (n: String)
    ensures
        n@ == slot_name(reg, *s),
{
    match s {
        Some(x) => x.name(reg),
        None => {
            let mut n = String::new();
            push_text(&mut n, "(空)");
            n
        },
    }
}

fn look_panel(w: &World, explored: &Vec<bool>, c: (usize, usize)) -> (p: LookPanel)
    requires
        w.wf(),
        explored@.len() == MAP_CELLS,
    ensures
        looked(*w, explored@, c, p),
{
    if !(c.0 < MAP_WIDTH && c.1 < MAP_HEIGHT) {
        return LookPanel::OffMap;
    }
    let tile = w.map.get(c.0, c.1);
    if sees(&w.visible, c) {
        let mut entities: Vec<LookEntity> = Vec::new();
        if w.pos.0 == c.0 && w.pos.1 == c.1 {
            let mut name = String::new();
            push_text(&mut name, "冒险者");
            entities.push(LookEntity { name, hp: if w.stats.hp < 0 { 0 } else { w.stats.hp }, max_hp: w.stats.max_hp });
        }
        let ghost head = entities@.map_values(|e: LookEntity| look_view(e));
        assert(head =~= if w.pos == c {
            seq![("冒险者"@, if w.stats.hp < 0 { 0i32 } else { w.stats.hp }, w.stats.max_hp)]
        } else {
            seq![]
        });
        let mut i: usize = 0;
        while i < w.monsters.len()
            invariant
                i <= w.monsters@.len(),
                entities@.map_values(|e: LookEntity| look_view(e)) == head + monsters_on(w.monsters@.take(i as int), c),
            decreases w.monsters@.len() - i,
        {
            assert(w.monsters@.take(i as int + 1).drop_last() =~= w.monsters@.take(i as int));
            let m = &w.monsters[i];
            if m.pos.0 == c.0 && m.pos.1 == c.1 {
                let mut name = String::new();
                push_text(&mut name, monster_name(m.kind));
                let e = LookEntity { name, hp: if m.stats.hp < 0 { 0 } else { m.stats.hp }, max_hp: m.stats.max_hp };
                let ghost ev = look_view(e);
                let ghost before = entities@;
                entities.push(e);
                assert(entities@.map_values(|e: LookEntity| look_view(e)) =~= before.map_values(|e: LookEntity| look_view(e)).push(ev));
            }
            i = i + 1;
        }
        assert(w.monsters@.take(w.monsters@.len() as int) =~= w.monsters@);
        LookPanel::Visible { tile, entities }
    } else if explored[c.1 * MAP_WIDTH + c.0] {
        LookPanel::Explored { tile }
    } else {
        LookPanel::Unexplored
    }
}

/// The status panel of `w`, with the look cursor at `look` when looking and the seen
/// cells `memory` (see [`StatsPanel`]).
pub fn build_stats_panel(w: &World, reg: &ItemRegistry, memory: &MapMemory, look: Option<(usize, usize)>) -> (p: StatsPanel)
    requires
        w.wf(),
        memory.explored@.len() == MAP_CELLS,
    ensures
        p.level == w.stats.level,
        p.low_hp == hp_warning(w.stats.hp as int, w.stats.max_hp as int),
        p.hp == (if w.stats.hp < 0 { 0 } else { w.stats.hp }),
        p.max_hp == w.stats.max_hp,
        p.hp_bar@ == bar_text(p.hp as int, w.stats.max_hp as int, 8),
        p.mp == w.stats.mp,
        p.max_mp == w.stats.max_mp,
        p.mp_bar@ == bar_text(w.stats.mp as int, w.stats.max_mp as int, 8),
        p.exp == w.stats.exp,
        p.exp_to_next == w.stats.exp_to_next,
        p.exp_bar@ == bar_text((w.stats.exp as i32) as int, (w.stats.exp_to_next as i32) as int, 8),
        p.attack == attack_shown(*w, reg),
        p.magic_mastery == w.stats.magic_mastery,
        p.defense == defense_shown(*w, reg),
        p.agility == w.stats.agility,
        p.crit_rate == crit_shown(*w, reg),
        p.crit_damage == w.stats.crit_damage_permille,
        p.weapon@ == slot_name(reg, w.equip.weapon),
        p.armor@ == slot_name(reg, w.equip.armor),
        p.ring@ == slot_name(reg, w.equip.ring),
        p.floor == w.floor,
        p.pos == w.pos,
        p.skills@.len() == w.skills.list@.len(),
        forall|i: int|
            0 <= i < p.skills@.len() ==> {
                let l = #[trigger] p.skills@[i];
                let s = w.skills.list@[i];
                &&& l.key == s.key
                &&& l.name@ == s.name@
                &&& l.cost == s.cost_mp
                &&& l.usable == (w.stats.mp >= s.cost_mp)
            },
        match look {
            Some(c) => p.look matches Some((pc, lp)) && pc == c && looked(*w, memory.explored@, c, lp),
            None => p.look is None,
        },
{
    let s = &w.stats;
    let hp = if s.hp < 0 { 0 } else { s.hp };
    let mut skills: Vec<SkillLine> = Vec::new();
    let mut i: usize = 0;
    while i < w.skills.list.len()
        invariant
            i <= w.skills.list@.len(),
            skills@.len() == i,
            forall|k: int|
                0 <= k < i ==> {
                    let l = #[trigger] skills@[k];
                    let t = w.skills.list@[k];
                    &&& l.key == t.key
                    &&& l.name@ == t.name@
                    &&& l.cost == t.cost_mp
                    &&& l.usable == (w.stats.mp >= t.cost_mp)
                },
        decreases w.skills.list@.len() - i,
    {
        let t = &w.skills.list[i];
        skills.push(SkillLine { key: t.key, name: t.name.clone(), cost: t.cost_mp, usable: w.stats.mp >= t.cost_mp });
        i = i + 1;
    }
    let look = match look {
        Some(c) => Some((c, look_panel(w, &memory.explored, c))),
        None => None,
    };
    StatsPanel {
        level: s.level,
        low_hp: (s.hp as i64) * 10 <= (s.max_hp as i64) * 3,
        hp,
        max_hp: s.max_hp,
        hp_bar: bar(hp, s.max_hp, 8),
        mp: s.mp,
        max_mp: s.max_mp,
        mp_bar: bar(s.mp, s.max_mp, 8),
        exp: s.exp,
        exp_to_next: s.exp_to_next,
        exp_bar: bar(s.exp as i32, s.exp_to_next as i32, 8),
        attack: attack_check(w, reg),
        magic_mastery: s.magic_mastery,
        defense: defense_check(w, reg),
        agility: s.agility,
        crit_rate: crit_check(w, reg),
        crit_damage: s.crit_damage_permille,
        weapon: slot_string(reg, &w.equip.weapon),
        armor: slot_string(reg, &w.equip.armor),
        ring: slot_string(reg, &w.equip.ring),
        floor: w.floor,
        pos: w.pos,
        skills,
        look,
    }
}

} // verus!
