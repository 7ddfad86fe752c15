use vstd::prelude::*;
use crate::keymap::Key;
use crate::tile::{MAP_WIDTH, MAP_HEIGHT, tile_blocks_vision};
use crate::room::{on_map, abs_int};
use crate::map::{DungeonMap, cheb};
use crate::line::{line_bresenham, line_cells, line_start, lemma_line_steps, in_box};
use crate::items::{Inventory, ItemRegistry, ItemStack, def_of, stack_name};
use crate::action::{reaction_for, scaled_duration, agility_scaled};

verus! {

/// Rows of worn items at the top of the bag's left column (weapon, armour, ring).
pub const EQUIP_ROWS: usize = 3;

/// The two columns of the bag screen.
#[derive(Clone, Copy, Debug, PartialEq, Eq, Structural)]
pub enum InvPanel {
    Left,
    Right,
}

/// Where a detailed item comes from.
#[derive(Clone, Copy, Debug, PartialEq, Eq, Structural)]
pub enum DetailSource {
    LeftInv,
    LeftEquip,
    Right,
}

/// The page shown: a list with a focused column, or one item in detail.
#[derive(Clone, Copy, Debug, PartialEq, Eq, Structural)]
pub enum InvPage {
    List(InvPanel),
    Detail(DetailSource, usize),
}

/// The bag screen's state: the page and the selected row of each column.
#[derive(Clone, Copy, Debug, PartialEq, Eq, Structural)]
pub struct InvView {
    pub page: InvPage,
    pub left_sel: usize,
    pub right_sel: usize,
}

/// What a key on the bag screen asks the game to do.
#[derive(Clone, Copy, Debug, PartialEq, Eq, Structural)]
pub enum InvCommand {
    Stay,
    Close,
    Equip(usize),
    Drop(usize),
    Use(usize),
    Unequip(usize),
    PickupAll,
}

/// What is shown of the bag: how many stacks it has, which slots are worn, and how
/// many stacks lie on the ground.
#[derive(Clone, Copy, Debug, PartialEq, Eq, Structural)]
pub struct BagShape {
    pub stacks: usize,
    pub weapon_worn: bool,
    pub armor_worn: bool,
    pub ring_worn: bool,
    pub ground: usize,
}

/// Whether worn slot `i` holds something.
pub open spec fn worn_at(b: BagShape, i: int) -> bool {
    if i == 0 { b.weapon_worn } else if i == 1 { b.armor_worn } else { b.ring_worn }
}

/// The number of rows in the left column.
pub open spec fn left_rows(b: BagShape) -> int {
    EQUIP_ROWS + b.stacks
}

/// The page opened from row `row` of the left column: the worn item of a filled slot,
/// or a stack of the bag.
pub open spec fn left_detail(b: BagShape, row: int, page: InvPage) -> InvPage {
    if row < EQUIP_ROWS {
        if worn_at(b, row) { InvPage::Detail(DetailSource::LeftEquip, row as usize) } else { page }
    } else if row - EQUIP_ROWS < b.stacks {
        InvPage::Detail(DetailSource::LeftInv, (row - EQUIP_ROWS) as usize)
    } else {
        page
    }
}

/// The row a hotkey selects: digits count from 0, letters from 10.
pub open spec fn hotkey_row(ch: char) -> Option<int> {
    if '0' <= ch && ch <= '9' {
        Some(ch as int - '0' as int + EQUIP_ROWS)
    } else if 'a' <= ch && ch <= 'z' {
        Some(ch as int - 'a' as int + 10 + EQUIP_ROWS)
    } else {
        None
    }
}

/// The bag screen after a key, and what the key asks of the game.
pub open spec fn inv_next(v: InvView, key: Key, b: BagShape) -> (InvView, InvCommand) {
    let back = InvView { page: InvPage::List(InvPanel::Left), ..v };
    match (v.page, key) {
        (InvPage::Detail(_, _), Key::Esc) => (back, InvCommand::Stay),
        (InvPage::Detail(_, _), Key::Char('q')) => (back, InvCommand::Stay),
        (InvPage::List(_), Key::Esc) => (v, InvCommand::Close),
        (InvPage::List(_), Key::Char('q')) => (v, InvCommand::Close),
        (InvPage::List(_), Key::Left) => (back, InvCommand::Stay),
        (InvPage::List(_), Key::Right) => (InvView { page: InvPage::List(InvPanel::Right), ..v }, InvCommand::Stay),
        (InvPage::List(InvPanel::Left), Key::Up) => (
            InvView { left_sel: if v.left_sel > 0 { (v.left_sel - 1) as usize } else { 0 }, ..v },
            InvCommand::Stay,
        ),
        (InvPage::List(InvPanel::Right), Key::Up) => (
            InvView { right_sel: if v.right_sel > 0 { (v.right_sel - 1) as usize } else { 0 }, ..v },
            InvCommand::Stay,
        ),
        (InvPage::List(InvPanel::Left), Key::Down) => (
            InvView { left_sel: if v.left_sel + 1 < left_rows(b) { (v.left_sel + 1) as usize } else { v.left_sel }, ..v },
            InvCommand::Stay,
        ),
        (InvPage::List(InvPanel::Right), Key::Down) => (
            InvView { right_sel: if v.right_sel + 1 < b.ground { (v.right_sel + 1) as usize } else { v.right_sel }, ..v },
            InvCommand::Stay,
        ),
        (InvPage::List(InvPanel::Left), Key::Enter) => (
            InvView { page: left_detail(b, v.left_sel as int, v.page), ..v },
            InvCommand::Stay,
        ),
        (InvPage::List(InvPanel::Right), Key::Enter) => (
            if b.ground > 0 { InvView { page: InvPage::Detail(DetailSource::Right, v.right_sel), ..v } } else { v },
            InvCommand::Stay,
        ),
        (InvPage::List(InvPanel::Left), Key::Char(ch)) => match hotkey_row(ch) {
            Some(row) => if row < left_rows(b) {
                (InvView { left_sel: row as usize, page: left_detail(b, row, v.page), ..v }, InvCommand::Stay)
            } else {
                (v, InvCommand::Stay)
            },
            None => (v, InvCommand::Stay),
        },
        (InvPage::Detail(DetailSource::LeftInv, idx), Key::Char('e')) => (back, InvCommand::Equip(idx)),
        (InvPage::Detail(DetailSource::LeftInv, idx), Key::Char('d')) => (back, InvCommand::Drop(idx)),
        (InvPage::Detail(DetailSource::LeftInv, idx), Key::Char('r')) => (back, InvCommand::Use(idx)),
        (InvPage::Detail(DetailSource::LeftEquip, idx), Key::Char('u')) => (back, InvCommand::Unequip(idx)),
        (InvPage::Detail(DetailSource::Right, _), Key::Char('g')) => (back, InvCommand::PickupAll),
        _ => (v, InvCommand::Stay),
    }
}

/// The selections kept within their lists before the screen is drawn: the focused
/// column's selection moves up to its last row when it points past the end.
pub open spec fn clamped(v: InvView, b: BagShape) -> InvView {
    let v1 = if v.page == InvPage::List(InvPanel::Left) && left_rows(b) > 0 && v.left_sel >= left_rows(b) {
        InvView { left_sel: (left_rows(b) - 1) as usize, ..v }
    } else {
        v
    };
    if v1.page == InvPage::List(InvPanel::Right) && b.ground > 0 && v1.right_sel >= b.ground {
        InvView { right_sel: (b.ground - 1) as usize, ..v1 }
    } else {
        v1
    }
}

impl InvView {
    /// The screen as it opens: the list, left column focused, first rows selected.
    pub fn new() -> (v: InvView)
        ensures
            v == (InvView { page: InvPage::List(InvPanel::Left), left_sel: 0, right_sel: 0 }),
    {
        InvView { page: InvPage::List(InvPanel::Left), left_sel: 0, right_sel: 0 }
    }

    /// Keeps the focused selection within its list (see [`clamped`]).
    pub fn clamp(&mut self, b: BagShape)
        requires
            b.stacks <= usize::MAX - EQUIP_ROWS,
        ensures
            *final(self) == clamped(*old(self), b),
    {
        let rows = EQUIP_ROWS + b.stacks;
        if self.page == InvPage::List(InvPanel::Left) && rows > 0 && self.left_sel >= rows {
            self.left_sel = rows - 1;
        }
        if self.page == InvPage::List(InvPanel::Right) && b.ground > 0 && self.right_sel >= b.ground {
            self.right_sel = b.ground - 1;
        }
    }

    /// Handles a key on the bag screen (see [`inv_next`]): moves the selection,
    /// switches columns and pages, or returns the action to carry out.
    pub fn key(&mut self, key: Key, b: BagShape) -> (c: InvCommand)
        requires
            b.stacks <= usize::MAX - EQUIP_ROWS - 40,
        ensures
            (*final(self), c) == inv_next(*old(self), key, b),
    {
        let rows = EQUIP_ROWS + b.stacks;
        let v = *self;
        let back = InvView { page: InvPage::List(InvPanel::Left), ..v };
        match (v.page, key) {
            (InvPage::Detail(_, _), Key::Esc) => {
                *self = back;
                InvCommand::Stay
            },
            (InvPage::Detail(_, _), Key::Char('q')) => {
                *self = back;
                InvCommand::Stay
            },
            (InvPage::List(_), Key::Esc) => InvCommand::Close,
            (InvPage::List(_), Key::Char('q')) => InvCommand::Close,
            (InvPage::List(_), Key::Left) => {
                *self = back;
                InvCommand::Stay
            },
            (InvPage::List(_), Key::Right) => {
                self.page = InvPage::List(InvPanel::Right);
                InvCommand::Stay
            },
            (InvPage::List(InvPanel::Left), Key::Up) => {
                if self.left_sel > 0 {
                    self.left_sel = self.left_sel - 1;
                }
                InvCommand::Stay
            },
            (InvPage::List(InvPanel::Right), Key::Up) => {
                if self.right_sel > 0 {
                    self.right_sel = self.right_sel - 1;
                }
                InvCommand::Stay
            },
            (InvPage::List(InvPanel::Left), Key::Down) => {
                if self.left_sel < rows && self.left_sel + 1 < rows {
                    self.left_sel = self.left_sel + 1;
                }
                InvCommand::Stay
            },
            (InvPage::List(InvPanel::Right), Key::Down) => {
                if self.right_sel < b.ground && self.right_sel + 1 < b.ground {
                    self.right_sel = self.right_sel + 1;
                }
                InvCommand::Stay
            },
            (InvPage::List(InvPanel::Left), Key::Enter) => {
                self.page = open_left(b, self.left_sel, self.page);
                InvCommand::Stay
            },
            (InvPage::List(InvPanel::Right), Key::Enter) => {
                if b.ground > 0 {
                    self.page = InvPage::Detail(DetailSource::Right, self.right_sel);
                }
                InvCommand::Stay
            },
            (InvPage::List(InvPanel::Left), Key::Char(ch)) => {
                let row: Option<usize> = if '0' <= ch && ch <= '9' {
                    Some((ch as u32 - '0' as u32) as usize + EQUIP_ROWS)
                } else if 'a' <= ch && ch <= 'z' {
                    Some((ch as u32 - 'a' as u32) as usize + 10 + EQUIP_ROWS)
                } else {
                    None
                };
                match row {
                    Some(r) => {
                        if r < rows {
                            self.left_sel = r;
                            self.page = open_left(b, r, v.page);
                        }
                    },
                    None => {},
                }
                InvCommand::Stay
            },
            (InvPage::Detail(DetailSource::LeftInv, idx), Key::Char('e')) => {
                *self = back;
                InvCommand::Equip(idx)
            },
            (InvPage::Detail(DetailSource::LeftInv, idx), Key::Char('d')) => {
                *self = back;
                InvCommand::Drop(idx)
            },
            (InvPage::Detail(DetailSource::LeftInv, idx), Key::Char('r')) => {
                *self = back;
                InvCommand::Use(idx)
            },
            (InvPage::Detail(DetailSource::LeftEquip, idx), Key::Char('u')) => {
                *self = back;
                InvCommand::Unequip(idx)
            },
            (InvPage::Detail(DetailSource::Right, _), Key::Char('g')) => {
                *self = back;
                InvCommand::PickupAll
            },
            _ => InvCommand::Stay,
        }
    }
}

/// The page opened from row `row` of the left column (see [`left_detail`]).
fn open_left(b: BagShape, row: usize, page: InvPage) -> (p: InvPage)
    requires
        b.stacks <= usize::MAX - EQUIP_ROWS,
    ensures
        p == left_detail(b, row as int, page),
{
    if row < EQUIP_ROWS {
        let filled = if row == 0 { b.weapon_worn } else if row == 1 { b.armor_worn } else { b.ring_worn };
        if filled { InvPage::Detail(DetailSource::LeftEquip, row) } else { page }
    } else if row - EQUIP_ROWS < b.stacks {
        InvPage::Detail(DetailSource::LeftInv, row - EQUIP_ROWS)
    } else {
        page
    }
}

/// The aiming cursor of a throw and what it shows.
pub struct ThrowPreview {
    pub active: bool,
    pub cursor: (usize, usize),
    /// The line's cells after the thrower, ending at the target.
    pub path: Vec<(usize, usize)>,
    /// Whether the target is within reach with a clear line.
    pub valid_target: bool,
}

/// The cursor after an aiming key: arrows move by one, PageUp/PageDown by five rows,
/// Home to the top left, End to the bottom right, always staying on the map.
pub open spec fn cursor_after(c: (usize, usize), key: Key) -> (usize, usize) {
    let down1 = if c.1 + 1 < MAP_HEIGHT - 1 { c.1 + 1 } else { MAP_HEIGHT - 1 };
    let right1 = if c.0 + 1 < MAP_WIDTH - 1 { c.0 + 1 } else { MAP_WIDTH - 1 };
    let down5 = if c.1 + 5 < MAP_HEIGHT - 1 { c.1 + 5 } else { MAP_HEIGHT - 1 };
    match key {
        Key::Up => (c.0, if c.1 >= 1 { (c.1 - 1) as usize } else { 0 }),
        Key::Down => (c.0, down1 as usize),
        Key::Left => (if c.0 >= 1 { (c.0 - 1) as usize } else { 0 }, c.1),
        Key::Right => (right1 as usize, c.1),
        Key::Home => (0, 0),
        Key::End => ((MAP_WIDTH - 1) as usize, (MAP_HEIGHT - 1) as usize),
        Key::PageUp => (c.0, if c.1 >= 5 { (c.1 - 5) as usize } else { 0 }),
        Key::PageDown => (c.0, down5 as usize),
        _ => c,
    }
}

/// Moves the aiming cursor by a key (see [`cursor_after`]).
pub fn move_cursor(c: (usize, usize), key: Key) -> (n: (usize, usize))
    requires
        on_map(c.0 as int, c.1 as int),
    ensures
        n == cursor_after(c, key),
{
    match key {
        Key::Up => (c.0, if c.1 >= 1 { c.1 - 1 } else { 0 }),
        Key::Down => (c.0, if c.1 + 1 < MAP_HEIGHT - 1 { c.1 + 1 } else { MAP_HEIGHT - 1 }),
        Key::Left => (if c.0 >= 1 { c.0 - 1 } else { 0 }, c.1),
        Key::Right => (if c.0 + 1 < MAP_WIDTH - 1 { c.0 + 1 } else { MAP_WIDTH - 1 }, c.1),
        Key::Home => (0, 0),
        Key::End => (MAP_WIDTH - 1, MAP_HEIGHT - 1),
        Key::PageUp => (c.0, if c.1 >= 5 { c.1 - 5 } else { 0 }),
        Key::PageDown => (c.0, if c.1 + 5 < MAP_HEIGHT - 1 { c.1 + 5 } else { MAP_HEIGHT - 1 }),
        _ => c,
    }
}

/// Greatest reach of a throw, in steps to any of the eight surrounding cells.
pub const THROW_RANGE: usize = 5;

/// Whether a throw from `from` at `to` may go: within reach, and nothing on the line
/// before the target stops sight.
pub open spec fn throw_ok(m: DungeonMap, from: (usize, usize), to: (usize, usize)) -> bool {
    let c = line_cells(
        line_start(from.0 as int, from.1 as int, to.0 as int, to.1 as int),
        (abs_int(to.0 - from.0) + abs_int(to.1 - from.1)) as nat,
    );
    &&& cheb(to.0 - from.0, to.1 - from.1) <= THROW_RANGE
    &&& forall|i: int| 0 <= i < c.len() ==> #[trigger] c[i] == (to.0 as int, to.1 as int) || !tile_blocks_vision(m.tile_at(c[i].0, c[i].1))
}

/// The line of a throw from `from` at `to` and whether the throw may go (see
/// [`throw_ok`]).
pub fn throw_line(map: &DungeonMap, from: (usize, usize), to: (usize, usize)) -> (r: (Vec<(usize, usize)>, bool))
    requires
        map.wf(),
        on_map(from.0 as int, from.1 as int),
        on_map(to.0 as int, to.1 as int),
        from != to,
    ensures
        r.1 == throw_ok(*map, from, to),
        ({
            let c = line_cells(
                line_start(from.0 as int, from.1 as int, to.0 as int, to.1 as int),
                (abs_int(to.0 - from.0) + abs_int(to.1 - from.1)) as nat,
            );
            &&& r.0@.len() == c.len()
            &&& forall|i: int| 0 <= i < c.len() ==> #[trigger] r.0@[i] == (c[i].0 as usize, c[i].1 as usize)
        }),
{
    let path = line_bresenham(from.0, from.1, to.0, to.1);
    let ghost c = line_cells(
        line_start(from.0 as int, from.1 as int, to.0 as int, to.1 as int),
        (abs_int(to.0 - from.0) + abs_int(to.1 - from.1)) as nat,
    );
    proof {
        lemma_line_steps(from.0 as int, from.1 as int, to.0 as int, to.1 as int);
    }
    let dx = if to.0 >= from.0 { to.0 - from.0 } else { from.0 - to.0 };
    let dy = if to.1 >= from.1 { to.1 - from.1 } else { from.1 - to.1 };
    let in_range = (if dx >= dy { dx } else { dy }) <= THROW_RANGE;
    let mut clear = true;
    let mut i: usize = 0;
    while i < path.len()
        invariant
            i <= path@.len(),
            map.wf(),
            path@.len() == c.len(),
            forall|k: int| 0 <= k < c.len() ==> #[trigger] path@[k] == (c[k].0 as usize, c[k].1 as usize),
            forall|k: int| 0 <= k < c.len() ==> in_box(#[trigger] c[k], from.0 as int, from.1 as int, to.0 as int, to.1 as int),
            on_map(from.0 as int, from.1 as int),
            on_map(to.0 as int, to.1 as int),
            clear == forall|k: int| 0 <= k < i ==> #[trigger] c[k] == (to.0 as int, to.1 as int) || !tile_blocks_vision(map.tile_at(c[k].0, c[k].1)),
        decreases path@.len() - i,
    {
        let p = path[i];
        proof {
            assert(in_box(c[i as int], from.0 as int, from.1 as int, to.0 as int, to.1 as int));
            assert(p == (c[i as int].0 as usize, c[i as int].1 as usize));
        }
        if !(p.0 == to.0 && p.1 == to.1) && map.get(p.0, p.1).blocks_vision() {
            clear = false;
        }
        i = i + 1;
    }
    (path, in_range && clear)
}

/// Recomputes the aiming line from the thrower at `from` to the cursor: at the
/// thrower's own cell there is no line and no target; elsewhere the line and whether
/// the throw may go are those of [`throw_line`].
pub fn update_throw_path(p: &mut ThrowPreview, map: &DungeonMap, from: (usize, usize))
    requires
        map.wf(),
        on_map(from.0 as int, from.1 as int),
        on_map(old(p).cursor.0 as int, old(p).cursor.1 as int),
    ensures
        final(p).active == old(p).active,
        final(p).cursor == old(p).cursor,
        old(p).cursor == from ==> final(p).path@.len() == 0 && !final(p).valid_target,
        old(p).cursor != from ==> {
            let to = old(p).cursor;
            let c = line_cells(
                line_start(from.0 as int, from.1 as int, to.0 as int, to.1 as int),
                (abs_int(to.0 - from.0) + abs_int(to.1 - from.1)) as nat,
            );
            &&& final(p).valid_target == throw_ok(*map, from, to)
            &&& final(p).path@.len() == c.len()
            &&& forall|i: int| 0 <= i < c.len() ==> #[trigger] final(p).path@[i] == (c[i].0 as usize, c[i].1 as usize)
        },
{
    if p.cursor.0 == from.0 && p.cursor.1 == from.1 {
        p.path = Vec::new();
        p.valid_target = false;
    } else {
        let (path, ok) = throw_line(map, from, p.cursor);
        p.path = path;
        p.valid_target = ok;
    }
}

/// The action value of a throw: the thrower's reaction time (70 when unknown) plus
/// 190 scaled by agility.
pub fn throw_value(reaction: Option<u32>, agility: u32) -> (av: u32)
    requires
        reaction matches Some(r) ==> r <= u32::MAX - 190,
    ensures
        av == match reaction {
            Some(r) => r as int,
            None => 70,
        } + scaled_duration(190, agility as int),
{
    let r = match reaction {
        Some(r) => r,
        None => 70,
    };
    r + agility_scaled(190, agility)
}

/// Whether a template carries the tag `throwable`.
pub open spec fn is_throwable(reg: &ItemRegistry, id: usize) -> bool {
    match def_of(reg, id) {
        Some(d) => exists|i: int| 0 <= i < d.tags@.len() && (#[trigger] d.tags@[i])@ == "throwable"@,
        None => false,
    }
}

/// The throwable stacks among `s`, in order: item, name and count.
pub open spec fn throwable_list(reg: &ItemRegistry, s: Seq<ItemStack>) -> Seq<(usize, Seq<char>, u32)>
    decreases s.len(),
{
    if s.len() == 0 {
        seq![]
    } else {
        let rest = throwable_list(reg, s.drop_last());
        let st = s.last();
        if is_throwable(reg, st.item_id) {
            rest.push((st.item_id, stack_name(reg, &st), st.count))
        } else {
            rest
        }
    }
}

/// The throwable stacks of the bag (their template carries the tag `throwable`), in
/// bag order: item, name and count.
pub fn throwables(inv: &Inventory, reg: &ItemRegistry) -> (v: Vec<(usize, String, u32)>)
    ensures
        v@.len() == throwable_list(reg, inv.stacks@).len(),
        forall|i: int| 0 <= i < v@.len() ==> {
            let e = throwable_list(reg, inv.stacks@)[i];
            &&& (#[trigger] v@[i]).0 == e.0
            &&& v@[i].1@ == e.1
            &&& v@[i].2 == e.2
        },
{
    let mut v: Vec<(usize, String, u32)> = Vec::new();
    let mut i: usize = 0;
    while i < inv.stacks.len()
        invariant
            i <= inv.stacks@.len(),
            v@.len() == throwable_list(reg, inv.stacks@.take(i as int)).len(),
            forall|j: int| 0 <= j < v@.len() ==> {
                let e = throwable_list(reg, inv.stacks@.take(i as int))[j];
                &&& (#[trigger] v@[j]).0 == e.0
                &&& v@[j].1@ == e.1
                &&& v@[j].2 == e.2
            },
        decreases inv.stacks@.len() - i,
    {
        proof {
            assert(inv.stacks@.take(i as int + 1).drop_last() =~= inv.stacks@.take(i as int));
        }
        let st = &inv.stacks[i];
        match st.def(reg) {
            Some(d) => {
                if d.has_tag("throwable") {
                    let name = st.name(reg);
                    v.push((st.item_id, name, st.count));
                }
            },
            None => {},
        }
        i = i + 1;
    }
    assert(inv.stacks@.take(inv.stacks@.len() as int) =~= inv.stacks@);
    v
}

/// What a key in the throwable list does.
#[derive(Clone, Copy, Debug, PartialEq, Eq, Structural)]
pub enum ThrowChoice {
    Stay,
    Throw(usize),
    Cancel,
}

/// A key in the list of `n` throwables with `selected` marked: `r` moves up, `y`
/// down, Enter throws the marked one, `x`, `X` or Esc cancel.
pub fn throw_select_key(selected: &mut usize, key: Key, n: usize) -> (c: ThrowChoice)
    ensures
        key == Key::Char('r') ==> *final(selected) == (if *old(selected) > 0 { *old(selected) - 1 } else { 0 }) && c == ThrowChoice::Stay,
        key == Key::Char('y') ==> *final(selected) == (if *old(selected) + 1 < n { *old(selected) + 1 } else { *old(selected) as int }) && c == ThrowChoice::Stay,
        key == Key::Enter ==> *final(selected) == *old(selected) && c == ThrowChoice::Throw(*old(selected)),
        key == Key::Char('x') || key == Key::Char('X') || key == Key::Esc ==> *final(selected) == *old(selected) && c
            == ThrowChoice::Cancel,
        !(key == Key::Char('r') || key == Key::Char('y') || key == Key::Enter || key == Key::Char('x') || key == Key::Char('X') || key == Key::Esc)
            ==> *final(selected) == *old(selected) && c == ThrowChoice::Stay,
{
    match key {
        Key::Char('r') => {
            if *selected > 0 {
                *selected = *selected - 1;
            }
            ThrowChoice::Stay
        },
        Key::Char('y') => {
            if *selected < n && *selected + 1 < n {
                *selected = *selected + 1;
            }
            ThrowChoice::Stay
        },
        Key::Enter => ThrowChoice::Throw(*selected),
        Key::Char('x') | Key::Char('X') | Key::Esc => ThrowChoice::Cancel,
        _ => ThrowChoice::Stay,
    }
}

} // verus!
