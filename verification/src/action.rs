use vstd::prelude::*;

verus! {

/// Reaction time from agility: 100 less 3 per point, never below 20.
pub open spec fn reaction_for(agility: int) -> int {
    if 100 - 3 * agility >= 20 { 100 - 3 * agility } else { 20 }
}

/// Time an action of `duration` takes at `agility`: 2% less per point of agility,
/// at most half off, rounded down.
pub open spec fn scaled_duration(duration: int, agility: int) -> int {
    let keep = if 50 - agility >= 25 { 50 - agility } else { 25 };
    duration * keep / 50
}

/// Reaction time derived from agility: the higher the agility, the shorter (100
/// less 3 per point, never below 20).
pub fn agility_to_reaction(agility: u32) -> (r: u32)
    ensures
        r == reaction_for(agility as int),
        20 <= r <= 100,
{
    if agility >= 27 {
        20
    } else {
        100 - agility * 3
    }
}

/// Time, in action value, of an action of base `duration` for an actor of
/// `agility`: each point of agility takes 2% off, at most 50%.
pub fn agility_scaled(duration: u32, agility: u32) -> (d: u32)
    ensures
        d == scaled_duration(duration as int, agility as int),
        d <= duration,
{
    let keep: u64 = if agility >= 25 { 25 } else { 50 - agility as u64 };
    let wide: u64 = duration as u64;
    proof {
        assert(wide * keep <= wide * 50) by (nonlinear_arith)
            requires keep <= 50;
        assert((wide * keep) / 50 <= wide) by (nonlinear_arith)
            requires wide * keep <= wide * 50;
    }
    let d = (wide * keep) / 50;
    d as u32
}

/// Action value an actor of `agility` spends on an action of base `duration`:
/// its reaction time plus the scaled duration.
pub fn action_value(duration: u32, agility: u32) -> (av: u32)
    requires
        duration <= u32::MAX - 100,
    ensures
        av == reaction_for(agility as int) + scaled_duration(duration as int, agility as int),
{
    agility_to_reaction(agility) + agility_scaled(duration, agility)
}

/// Whether the ratio `hp / max_hp` lies under a quarter.
pub open spec fn flees(hp: int, max_hp: int) -> bool {
    if max_hp > 0 {
        4 * hp < max_hp
    } else if max_hp == 0 {
        hp < 0
    } else {
        4 * hp > max_hp
    }
}

/// Moving one cell.
#[derive(Clone, Copy, Debug)]
pub struct CanMove {
    pub duration: u32,
    pub priority: u32,
}

impl CanMove {
    /// A move takes 300.
    pub fn new(priority: u32) -> (a: CanMove)
        ensures
            a.duration == 300,
            a.priority == priority,
    {
        CanMove { duration: 300, priority }
    }

    /// A move can be tried onto a walkable cell, or onto a cell an enemy holds (which
    /// makes it an attack).
    pub fn condition(target_is_walkable: bool, target_is_occupied_by_enemy: bool) -> (b: bool)
        ensures
            b == (target_is_walkable || target_is_occupied_by_enemy),
    {
        target_is_walkable || target_is_occupied_by_enemy
    }
}

/// Chasing the player (monsters only).
#[derive(Clone, Copy, Debug)]
pub struct CanChase {
    pub duration: u32,
    pub priority: u32,
}

impl CanChase {
    /// A chase step takes 250.
    pub fn new(priority: u32) -> (a: CanChase)
        ensures
            a.duration == 250,
            a.priority == priority,
    {
        CanChase { duration: 250, priority }
    }

    /// A monster chases when it sees the player.
    pub fn condition(can_see_player: bool) -> (b: bool)
        ensures
            b == can_see_player,
    {
        can_see_player
    }
}

/// Running away (monsters only).
#[derive(Clone, Copy, Debug)]
pub struct CanFlee {
    pub duration: u32,
    pub priority: u32,
}

impl CanFlee {
    /// A flight step takes 250.
    pub fn new(priority: u32) -> (a: CanFlee)
        ensures
            a.duration == 250,
            a.priority == priority,
    {
        CanFlee { duration: 250, priority }
    }

    /// A monster flees when its hit points are under a quarter of its maximum
    /// (`hp / max_hp < 1/4`; with no maximum, only when the points are negative).
    pub fn condition(hp: i32, max_hp: i32) -> (b: bool)
        ensures
            b == flees(hp as int, max_hp as int),
    {
        if max_hp > 0 {
            (hp as i64) * 4 < max_hp as i64
        } else if max_hp == 0 {
            hp < 0
        } else {
            (hp as i64) * 4 > max_hp as i64
        }
    }
}

/// Wandering about (monsters only).
#[derive(Clone, Copy, Debug)]
pub struct CanWander {
    pub duration: u32,
    pub priority: u32,
}

impl CanWander {
    /// A wander step takes 500.
    pub fn new(priority: u32) -> (a: CanWander)
        ensures
            a.duration == 500,
            a.priority == priority,
    {
        CanWander { duration: 500, priority }
    }

    /// Wandering is always possible.
    pub fn condition() -> (b: bool)
        ensures
            b,
    {
        true
    }
}

/// Waiting a turn (player and monsters).
#[derive(Clone, Copy, Debug)]
pub struct CanWait {
    pub duration: u32,
    pub priority: u32,
}

impl CanWait {
    /// Waiting takes 800.
    pub fn new(priority: u32) -> (a: CanWait)
        ensures
            a.duration == 800,
            a.priority == priority,
    {
        CanWait { duration: 800, priority }
    }

    /// Waiting is always possible.
    pub fn condition() -> (b: bool)
        ensures
            b,
    {
        true
    }
}

/// What an actor does when its turn comes; entities are named by their ids.
#[derive(Clone, Copy, Debug, PartialEq, Eq, Structural)]
pub enum ActionKindV3 {
    Move { dx: isize, dy: isize },
    Chase,
    Flee,
    Wander,
    Wait,
    Attack { target: u64 },
    Skill(usize),
    Throw { tx: usize, ty: usize },
}

/// An action waiting in the queue, with the action value left before it runs.
#[derive(Clone, Copy, Debug, PartialEq, Eq, Structural)]
pub struct ActionEntry {
    pub entity: u64,
    pub kind: ActionKindV3,
    pub av_remaining: u32,
}

/// The entries that are due (no action value left), in queue order.
pub open spec fn ready_entries(s: Seq<ActionEntry>) -> Seq<ActionEntry>
    decreases s.len(),
{
    if s.len() == 0 {
        seq![]
    } else if s.last().av_remaining == 0 {
        ready_entries(s.drop_last()).push(s.last())
    } else {
        ready_entries(s.drop_last())
    }
}

/// The entries still waiting (some action value left), in queue order.
pub open spec fn waiting_entries(s: Seq<ActionEntry>) -> Seq<ActionEntry>
    decreases s.len(),
{
    if s.len() == 0 {
        seq![]
    } else if s.last().av_remaining > 0 {
        waiting_entries(s.drop_last()).push(s.last())
    } else {
        waiting_entries(s.drop_last())
    }
}

/// The entries after `amount` more action value has passed.
pub open spec fn advanced(s: Seq<ActionEntry>, amount: int) -> Seq<ActionEntry> {
    Seq::new(
        s.len(),
        |i: int|
            ActionEntry {
                av_remaining: if s[i].av_remaining > amount { (s[i].av_remaining - amount) as u32 } else { 0 },
                ..s[i]
            },
    )
}

/// The smallest action value left among the waiting entries, if any waits.
pub open spec fn next_event(s: Seq<ActionEntry>) -> Option<u32>
    decreases s.len(),
{
    if s.len() == 0 {
        None
    } else {
        let rest = next_event(s.drop_last());
        let v = s.last().av_remaining;
        if v == 0 {
            rest
        } else {
            match rest {
                None => Some(v),
                Some(r) => if v < r { Some(v) } else { Some(r) },
            }
        }
    }
}

/// Whether some entry belongs to `entity`.
pub open spec fn holds_entity(s: Seq<ActionEntry>, entity: u64) -> bool {
    exists|i: int| 0 <= i < s.len() && (#[trigger] s[i]).entity == entity
}

/// No entity has two entries.
pub open spec fn one_entry_each(s: Seq<ActionEntry>) -> bool {
    forall|i: int, j: int| 0 <= i < j < s.len() ==> (#[trigger] s[i]).entity != (#[trigger] s[j]).entity
}

/// The queue of pending actions, in the order they were queued.
pub struct ActionQueue {
    pub entries: Vec<ActionEntry>,
}

impl ActionQueue {
    /// An empty queue.
    pub fn new() -> (q: ActionQueue)
        ensures
            q.entries@ == Seq::<ActionEntry>::empty(),
    {
        ActionQueue { entries: Vec::new() }
    }

    /// Queues `kind` for `entity`, due after `av`.
    pub fn enqueue(&mut self, entity: u64, kind: ActionKindV3, av: u32)
        ensures
            final(self).entries@ == old(self).entries@.push(ActionEntry { entity, kind, av_remaining: av }),
    {
        self.entries.push(ActionEntry { entity, kind, av_remaining: av });
    }

    /// Lets `amount` of action value pass: every waiting entry comes that much
    /// closer to due, stopping at zero.
    pub fn advance(&mut self, amount: u32)
        ensures
            final(self).entries@ == advanced(old(self).entries@, amount as int),
    {
        let ghost s0 = self.entries@;
        let mut i: usize = 0;
        while i < self.entries.len()
            invariant
                i <= self.entries@.len(),
                self.entries@.len() == s0.len(),
                forall|k: int| 0 <= k < i ==> #[trigger] self.entries@[k] == advanced(s0, amount as int)[k],
                forall|k: int| i <= k < s0.len() ==> #[trigger] self.entries@[k] == s0[k],
            decreases s0.len() - i,
        {
            let e = self.entries[i];
            if e.av_remaining > 0 {
                let left = if e.av_remaining > amount { e.av_remaining - amount } else { 0 };
                self.entries.set(i, ActionEntry { av_remaining: left, ..e });
            }
            i = i + 1;
        }
        assert(self.entries@ =~= advanced(s0, amount as int));
    }

    /// The action value until the next waiting entry is due; `None` when none waits.
    pub fn next_event_distance(&self) -> (d: Option<u32>)
        ensures
            d == next_event(self.entries@),
    {
        let mut best: Option<u32> = None;
        let mut i: usize = 0;
        while i < self.entries.len()
            invariant
                i <= self.entries@.len(),
                best == next_event(self.entries@.take(i as int)),
            decreases self.entries@.len() - i,
        {
            proof {
                assert(self.entries@.take(i as int + 1).drop_last() =~= self.entries@.take(i as int));
            }
            let v = self.entries[i].av_remaining;
            if v > 0 {
                best = match best {
                    None => Some(v),
                    Some(r) => if v < r { Some(v) } else { Some(r) },
                };
            }
            i = i + 1;
        }
        assert(self.entries@.take(self.entries@.len() as int) =~= self.entries@);
        best
    }

    /// Takes out the due entries and returns them in queue order; the waiting ones
    /// stay, in their order.
    pub fn pop_ready(&mut self) -> (ready: Vec<ActionEntry>)
        ensures
            ready@ == ready_entries(old(self).entries@),
            final(self).entries@ == waiting_entries(old(self).entries@),
    {
        let mut ready: Vec<ActionEntry> = Vec::new();
        let mut keep: Vec<ActionEntry> = Vec::new();
        let mut i: usize = 0;
        while i < self.entries.len()
            invariant
                i <= self.entries@.len(),
                ready@ == ready_entries(self.entries@.take(i as int)),
                keep@ == waiting_entries(self.entries@.take(i as int)),
            decreases self.entries@.len() - i,
        {
            proof {
                assert(self.entries@.take(i as int + 1).drop_last() =~= self.entries@.take(i as int));
            }
            let e = self.entries[i];
            if e.av_remaining == 0 {
                ready.push(e);
            } else {
                keep.push(e);
            }
            i = i + 1;
        }
        assert(self.entries@.take(self.entries@.len() as int) =~= self.entries@);
        self.entries = keep;
        ready
    }

    /// Whether `entity` has an entry.
    pub fn has_entity(&self, entity: u64) -> (b: bool)
        ensures
            b == holds_entity(self.entries@, entity),
    {
        let mut i: usize = 0;
        while i < self.entries.len()
            invariant
                i <= self.entries@.len(),
                forall|k: int| 0 <= k < i ==> (#[trigger] self.entries@[k]).entity != entity,
            decreases self.entries@.len() - i,
        {
            if self.entries[i].entity == entity {
                return true;
            }
            i = i + 1;
        }
        false
    }

    /// Queues `kind` for `entity` unless it already has an entry.
    pub fn enqueue_if_absent(&mut self, entity: u64, kind: ActionKindV3, av: u32)
        ensures
            final(self).entries@ == if holds_entity(old(self).entries@, entity) {
                old(self).entries@
            } else {
                old(self).entries@.push(ActionEntry { entity, kind, av_remaining: av })
            },
    {
        if !self.has_entity(entity) {
            self.entries.push(ActionEntry { entity, kind, av_remaining: av });
        }
    }

    /// Sets `entity`'s action to `kind`, due after `av`: its first entry is replaced
    /// where it stands, or a new entry is queued when it has none.
    pub fn enqueue_or_replace(&mut self, entity: u64, kind: ActionKindV3, av: u32)
        ensures
            holds_entity(old(self).entries@, entity) ==> exists|k: int|
                0 <= k < old(self).entries@.len() && (#[trigger] old(self).entries@[k]).entity == entity && (forall|
                    j: int,
                | 0 <= j < k ==> (#[trigger] old(self).entries@[j]).entity != entity) && final(self).entries@
                    == old(self).entries@.update(k, ActionEntry { entity, kind, av_remaining: av }),
            !holds_entity(old(self).entries@, entity) ==> final(self).entries@ == old(self).entries@.push(
                ActionEntry { entity, kind, av_remaining: av },
            ),
    {
        let mut i: usize = 0;
        while i < self.entries.len()
            invariant
                i <= self.entries@.len(),
                self.entries@ == old(self).entries@,
                forall|k: int| 0 <= k < i ==> (#[trigger] self.entries@[k]).entity != entity,
            decreases self.entries@.len() - i,
        {
            if self.entries[i].entity == entity {
                self.entries.set(i, ActionEntry { entity, kind, av_remaining: av });
                return;
            }
            i = i + 1;
        }
        self.entries.push(ActionEntry { entity, kind, av_remaining: av });
    }
}

/// Every entry lies in exactly one of the due and the waiting parts, and nothing in
/// the waiting part is due: taking out the due entries twice in a row finds nothing
/// the second time.
pub proof fn lemma_pop_ready_partition(s: Seq<ActionEntry>)
    ensures
        ready_entries(s).len() + waiting_entries(s).len() == s.len(),
        forall|i: int| 0 <= i < ready_entries(s).len() ==> (#[trigger] ready_entries(s)[i]).av_remaining == 0,
        forall|i: int| 0 <= i < waiting_entries(s).len() ==> (#[trigger] waiting_entries(s)[i]).av_remaining > 0,
        ready_entries(waiting_entries(s)) == Seq::<ActionEntry>::empty(),
    decreases s.len(),
{
    if s.len() > 0 {
        lemma_pop_ready_partition(s.drop_last());
    }
    lemma_none_due(waiting_entries(s));
}

/// A queue of waiting entries has nothing due.
proof fn lemma_none_due(w: Seq<ActionEntry>)
    requires
        forall|i: int| 0 <= i < w.len() ==> (#[trigger] w[i]).av_remaining > 0,
    ensures
        ready_entries(w) == Seq::<ActionEntry>::empty(),
    decreases w.len(),
{
    if w.len() > 0 {
        assert(w.last().av_remaining > 0);
        lemma_none_due(w.drop_last());
    }
}

/// The next event is the smallest action value left among the waiting entries:
/// none when nothing waits.
pub proof fn lemma_next_event_is_min(s: Seq<ActionEntry>)
    ensures
        next_event(s) is None <==> forall|i: int| 0 <= i < s.len() ==> (#[trigger] s[i]).av_remaining == 0,
        next_event(s) matches Some(d) ==> d > 0 && (exists|i: int|
            0 <= i < s.len() && (#[trigger] s[i]).av_remaining == d) && forall|i: int|
            0 <= i < s.len() && (#[trigger] s[i]).av_remaining > 0 ==> d <= s[i].av_remaining,
    decreases s.len(),
{
    if s.len() > 0 {
        let t = s.drop_last();
        lemma_next_event_is_min(t);
        assert forall|i: int| 0 <= i < t.len() implies #[trigger] t[i] == s[i] by {}
        if next_event(s) is None {
            assert forall|i: int| 0 <= i < s.len() implies (#[trigger] s[i]).av_remaining == 0 by {
                if i < t.len() {
                    assert(t[i] == s[i]);
                }
            }
        }
        match next_event(s) {
            Some(d) => {
                if next_event(t) is Some && d == next_event(t)->0 {
                    let i = choose|i: int| 0 <= i < t.len() && (#[trigger] t[i]).av_remaining == d;
                    assert(s[i] == t[i]);
                } else {
                    assert(s[s.len() - 1].av_remaining == d);
                }
                assert forall|i: int| 0 <= i < s.len() && (#[trigger] s[i]).av_remaining > 0 implies d
                    <= s[i].av_remaining by {
                    if i < t.len() {
                        assert(t[i] == s[i]);
                    }
                }
            },
            None => {},
        }
    }
}

/// Letting pass exactly the action value up to the next event makes at least one
/// entry due, and leaves every entry that needed more still waiting.
pub proof fn lemma_advance_to_next_event(s: Seq<ActionEntry>, d: u32)
    requires
        next_event(s) == Some(d),
    ensures
        ready_entries(advanced(s, d as int)).len() > 0,
        forall|i: int|
            0 <= i < s.len() && (#[trigger] s[i]).av_remaining > d ==> advanced(s, d as int)[i].av_remaining > 0,
{
    lemma_next_event_is_min(s);
    let i = choose|i: int| 0 <= i < s.len() && (#[trigger] s[i]).av_remaining == d;
    let a = advanced(s, d as int);
    assert(a[i].av_remaining == 0);
    lemma_some_due(a, i);
}

/// A queue with a due entry has a non-empty due part.
proof fn lemma_some_due(s: Seq<ActionEntry>, i: int)
    requires
        0 <= i < s.len(),
        s[i].av_remaining == 0,
    ensures
        ready_entries(s).len() > 0,
    decreases s.len(),
{
    if i < s.len() - 1 {
        lemma_some_due(s.drop_last(), i);
        if s.last().av_remaining == 0 {
        }
    }
}

/// Queueing only where the entity is absent, letting action value pass, and taking
/// out the due entries all keep each entity to at most one entry; after queueing, the
/// entity has an entry.
pub proof fn lemma_one_entry_each_kept(s: Seq<ActionEntry>, entity: u64, kind: ActionKindV3, av: u32, amount: u32)
    requires
        one_entry_each(s),
    ensures
        ({
            let q = if holds_entity(s, entity) { s } else { s.push(ActionEntry { entity, kind, av_remaining: av }) };
            one_entry_each(q) && holds_entity(q, entity)
        }),
        one_entry_each(advanced(s, amount as int)),
        one_entry_each(waiting_entries(s)),
{
    let q = if holds_entity(s, entity) { s } else { s.push(ActionEntry { entity, kind, av_remaining: av }) };
    if !holds_entity(s, entity) {
        assert forall|i: int, j: int| 0 <= i < j < q.len() implies (#[trigger] q[i]).entity != (#[trigger] q[j]).entity by {
            if j == s.len() {
                assert(q[i] == s[i]);
                assert(s[i].entity != entity);
            } else {
                assert(q[i] == s[i] && q[j] == s[j]);
            }
        }
        assert(q[s.len() as int].entity == entity);
    }
    let a = advanced(s, amount as int);
    assert forall|i: int, j: int| 0 <= i < j < a.len() implies (#[trigger] a[i]).entity != (#[trigger] a[j]).entity by {
        assert(s[i].entity != s[j].entity);
    }
    lemma_waiting_subseq(s);
}

/// The waiting part keeps each entity to at most one entry, and its entries come
/// from the queue.
proof fn lemma_waiting_subseq(s: Seq<ActionEntry>)
    requires
        one_entry_each(s),
    ensures
        one_entry_each(waiting_entries(s)),
        forall|i: int| 0 <= i < waiting_entries(s).len() ==> holds_entity(s, (#[trigger] waiting_entries(s)[i]).entity),
    decreases s.len(),
{
    if s.len() > 0 {
        let t = s.drop_last();
        assert forall|i: int, j: int| 0 <= i < j < t.len() implies (#[trigger] t[i]).entity != (#[trigger] t[j]).entity by {
            assert(t[i] == s[i] && t[j] == s[j]);
        }
        lemma_waiting_subseq(t);
        let w = waiting_entries(s);
        let wt = waiting_entries(t);
        assert forall|i: int| 0 <= i < wt.len() implies holds_entity(s, (#[trigger] wt[i]).entity) by {
            let k = choose|k: int| 0 <= k < t.len() && (#[trigger] t[k]).entity == wt[i].entity;
            assert(s[k] == t[k]);
        }
        if s.last().av_remaining > 0 {
            assert forall|i: int| 0 <= i < wt.len() implies (#[trigger] wt[i]).entity != s.last().entity by {
                let k = choose|k: int| 0 <= k < t.len() && (#[trigger] t[k]).entity == wt[i].entity;
                assert(s[k] == t[k]);
                assert(s[k].entity != s[s.len() - 1].entity);
            }
            assert forall|i: int, j: int| 0 <= i < j < w.len() implies (#[trigger] w[i]).entity != (#[trigger] w[j]).entity by {
                if j == wt.len() {
                    assert(w[i] == wt[i]);
                } else {
                    assert(w[i] == wt[i] && w[j] == wt[j]);
                }
            }
            assert forall|i: int| 0 <= i < w.len() implies holds_entity(s, (#[trigger] w[i]).entity) by {
                if i == wt.len() {
                    assert(s[s.len() - 1] == w[i]);
                } else {
                    assert(w[i] == wt[i]);
                }
            }
        }
    }
}

} // verus!
