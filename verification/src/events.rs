use vstd::prelude::*;
use crate::ranking::{first_top, ranked, lemma_first_top};

verus! {

/// What a subscriber did with an event.
#[derive(Clone, Copy, Debug, PartialEq, Eq, Structural)]
pub enum DispatchResult {
    /// Taken; lower subscribers do not see it.
    Consumed,
    /// Not taken; the next subscriber sees it.
    Pass,
    /// Taken, and the subscriber leaves (its modal view is over).
    Unsubscribe,
}

/// A subscriber's place in the chain: its id and priority (its handler is kept by
/// the caller, under the id).
#[derive(Clone, Copy, Debug, PartialEq, Eq, Structural)]
pub struct Subscription {
    pub id: usize,
    pub priority: i8,
}

/// What to do after a subscriber has answered.
#[derive(Clone, Copy, Debug, PartialEq, Eq, Structural)]
pub enum DispatchStep {
    /// The event was taken; stop.
    Done,
    /// Offer the event to the subscriber at this position next (none past the end).
    Next(usize),
}

/// A subscription's priority, as a rank.
pub open spec fn sub_rank(s: Subscription) -> int {
    s.priority as int
}

/// Whether the chain `c` is sorted by priority, highest first.
pub open spec fn by_priority(c: Seq<Subscription>) -> bool {
    forall|i: int, j: int| 0 <= i < j < c.len() ==> (#[trigger] c[i]).priority >= (#[trigger] c[j]).priority
}

/// One answer settled: the subscriber at `position` of chain `c0` answered `result`,
/// giving chain `c1` and the next `step`. One that leaves is taken out, the others
/// keeping their order, and the event is taken; a taken event stops the dispatch; a
/// passed one goes to the next position.
pub open spec fn settled(c0: Seq<Subscription>, position: int, result: DispatchResult, c1: Seq<Subscription>, step: DispatchStep) -> bool {
    &&& 0 <= position < c0.len()
    &&& match result {
        DispatchResult::Unsubscribe => step == DispatchStep::Done && c1 == c0.remove(position),
        DispatchResult::Consumed => step == DispatchStep::Done && c1 == c0,
        DispatchResult::Pass => step == DispatchStep::Next((position + 1) as usize) && c1 == c0,
    }
}

/// What dispatching an event to chain `c` does, from `position` on, when the
/// subscriber at place `i` answers `answers[i]`: it goes down the chain past the
/// subscribers that pass; the first that takes the event ends it (and is taken out
/// when it leaves), and the event is taken; past the end the chain stays and the event
/// is not taken.
pub open spec fn dispatch_outcome(c: Seq<Subscription>, answers: Seq<DispatchResult>, position: int) -> (Seq<Subscription>, bool)
    decreases c.len() - position,
{
    if position < 0 || position >= c.len() || position >= answers.len() {
        (c, false)
    } else {
        match answers[position] {
            DispatchResult::Pass => dispatch_outcome(c, answers, position + 1),
            DispatchResult::Consumed => (c, true),
            DispatchResult::Unsubscribe => (c.remove(position), true),
        }
    }
}

/// Taking one subscription out keeps the chain sorted by priority.
proof fn lemma_remove_keeps_order(c: Seq<Subscription>, position: int)
    requires
        by_priority(c),
        0 <= position < c.len(),
    ensures
        by_priority(c.remove(position)),
{
    let c2 = c.remove(position);
    assert forall|i: int, j: int| 0 <= i < j < c2.len() implies (#[trigger] c2[i]).priority >= (#[trigger] c2[j]).priority by {
        let i0 = if i < position { i } else { i + 1 };
        let j0 = if j < position { j } else { j + 1 };
        assert(c2[i] == c[i0] && c2[j] == c[j0]);
    }
}

/// The steps before the last of a dispatch run were passes at the chain's first places.
#[verifier::spinoff_prover]
#[verifier::rlimit(40)]
proof fn lemma_passes_before(
    c0: Seq<Subscription>,
    answers: Seq<DispatchResult>,
    cs: Seq<Seq<Subscription>>,
    steps: Seq<DispatchStep>,
    k: int,
)
    requires
        cs.len() == steps.len() + 1,
        cs[0] == c0,
        forall|j: int| 0 <= j < steps.len() ==> settled(#[trigger] cs[j], j, answers[j], cs[j + 1], steps[j]),
        forall|j: int| 0 <= j < steps.len() - 1 ==> #[trigger] steps[j] == DispatchStep::Next((j + 1) as usize),
        0 <= k < steps.len(),
        k <= c0.len(),
        answers.len() == c0.len(),
    ensures
        cs[k] == c0,
        forall|j: int| 0 <= j < k ==> #[trigger] answers[j] == DispatchResult::Pass,
        dispatch_outcome(c0, answers, k) == dispatch_outcome(c0, answers, 0),
    decreases k,
{
    if k > 0 {
        lemma_passes_before(c0, answers, cs, steps, k - 1);
        assert(steps[k - 1] == DispatchStep::Next(k as usize));
        assert(settled(cs[k - 1], k - 1, answers[k - 1], cs[k], steps[k - 1]));
        assert(answers[k - 1] == DispatchResult::Pass);
    }
}

/// Dispatching an event: when the subscribers are offered the event one after the
/// other from the first place of the chain, each answer settled (see [`settled`]) and
/// the next offered only after a pass, until the event is taken or the chain ends,
/// then every subscriber offered but the last passed, and the chain and whether the
/// event was taken are as [`dispatch_outcome`] says: the first subscriber that does
/// not pass takes the event (leaving the chain when it unsubscribes), none after it is
/// offered the event, and a chain sorted by priority stays sorted.
pub proof fn lemma_dispatch(
    c0: Seq<Subscription>,
    answers: Seq<DispatchResult>,
    cs: Seq<Seq<Subscription>>,
    steps: Seq<DispatchStep>,
)
    requires
        answers.len() == c0.len(),
        cs.len() == steps.len() + 1,
        cs[0] == c0,
        forall|j: int| 0 <= j < steps.len() ==> settled(#[trigger] cs[j], j, answers[j], cs[j + 1], steps[j]),
        forall|j: int| 0 <= j < steps.len() - 1 ==> #[trigger] steps[j] == DispatchStep::Next((j + 1) as usize),
        steps.len() == c0.len() || (steps.len() >= 1 && steps.last() == DispatchStep::Done),
    ensures
        forall|j: int| 0 <= j < steps.len() - 1 ==> #[trigger] answers[j] == DispatchResult::Pass,
        (cs.last(), steps.len() >= 1 && steps.last() == DispatchStep::Done) == dispatch_outcome(c0, answers, 0),
        by_priority(c0) ==> by_priority(cs.last()),
{
    let n = steps.len() as int;
    if n == 0 {
        assert(cs.last() == c0);
    } else {
        assert(n <= c0.len()) by {
            if n > c0.len() {
                lemma_passes_before(c0, answers, cs, steps, c0.len() as int);
                assert(settled(cs[c0.len() as int], c0.len() as int, answers[c0.len() as int], cs[c0.len() + 1int], steps[c0.len() as int]));
            }
        }
        lemma_passes_before(c0, answers, cs, steps, n - 1);
        assert(settled(cs[n - 1], n - 1, answers[n - 1], cs[n], steps[n - 1]));
        if answers[n - 1] == DispatchResult::Pass {
            assert(n == c0.len());
            assert(dispatch_outcome(c0, answers, n) == (c0, false));
        } else if answers[n - 1] == DispatchResult::Unsubscribe {
            if by_priority(c0) {
                lemma_remove_keeps_order(c0, n - 1);
            }
        }
    }
}

/// The chain of subscribers by priority: higher priority sees events first.
pub struct EventBus {
    subscribers: Vec<Subscription>,
    next_id: usize,
}

impl EventBus {
    /// The subscriptions, in the order they see events.
    pub closed spec fn chain(&self) -> Seq<Subscription> {
        self.subscribers@
    }

    /// The id the next subscriber gets.
    pub closed spec fn next_id_spec(&self) -> usize {
        self.next_id
    }

    /// No subscribers.
    pub fn new() -> (b: EventBus)
        ensures
            b.chain() == Seq::<Subscription>::empty(),
            b.next_id_spec() == 0,
    {
        EventBus { subscribers: Vec::new(), next_id: 0 }
    }

    /// Adds a subscriber of `priority` and returns its id (ids count up from 0). The
    /// chain is then sorted by priority, highest first, keeping the order among equal
    /// priorities.
    pub fn subscribe(&mut self, priority: i8) -> (id: usize)
        requires
            old(self).next_id_spec() < usize::MAX,
        ensures
            id == old(self).next_id_spec(),
            final(self).next_id_spec() == id + 1,
            final(self).chain() == ranked(
                old(self).chain().push(Subscription { id, priority }),
                |s: Subscription| sub_rank(s),
            ),
    {
        let id = self.next_id;
        self.next_id = self.next_id + 1;
        self.subscribers.push(Subscription { id, priority });
        let ghost all0 = self.subscribers@;
        let mut rest = Vec::new();
        std::mem::swap(&mut rest, &mut self.subscribers);
        let mut out: Vec<Subscription> = Vec::new();
        while rest.len() > 0
            invariant
                out@ + ranked(rest@, |s: Subscription| sub_rank(s)) == ranked(all0, |s: Subscription| sub_rank(s)),
            decreases rest@.len(),
        {
            let k = first_highest(&rest);
            proof {
                lemma_first_top(rest@, |s: Subscription| sub_rank(s));
            }
            let ghost before = rest@;
            let s = rest.remove(k);
            out.push(s);
            proof {
                assert(ranked(before, |s: Subscription| sub_rank(s)) == seq![s] + ranked(rest@, |s: Subscription| sub_rank(s)));
                assert(out@ + ranked(rest@, |s: Subscription| sub_rank(s)) =~= out@.drop_last() + ranked(before, |s: Subscription| sub_rank(s)));
            }
        }
        assert(out@ =~= ranked(all0, |s: Subscription| sub_rank(s)));
        self.subscribers = out;
        id
    }

    /// Removes every subscription with id `id`.
    pub fn unsubscribe(&mut self, id: usize)
        ensures
            final(self).next_id_spec() == old(self).next_id_spec(),
            final(self).chain() == old(self).chain().filter(|s: Subscription| s.id != id),
    {
        let ghost c0 = self.subscribers@;
        let mut kept: Vec<Subscription> = Vec::new();
        let mut i: usize = 0;
        while i < self.subscribers.len()
            invariant
                i <= self.subscribers@.len(),
                self.subscribers@ == c0,
                kept@ == c0.take(i as int).filter(|s: Subscription| s.id != id),
            decreases self.subscribers@.len() - i,
        {
            proof {
                assert(c0.take(i as int + 1).drop_last() =~= c0.take(i as int));
                reveal(Seq::filter);
            }
            let s = self.subscribers[i];
            if s.id != id {
                kept.push(s);
            }
            i = i + 1;
        }
        assert(c0.take(c0.len() as int) =~= c0);
        self.subscribers = kept;
    }

    /// The id of the subscriber at `position` in the chain, if there is one.
    pub fn subscriber_at(&self, position: usize) -> (id: Option<usize>)
        ensures
            position < self.chain().len() ==> id == Some(self.chain()[position as int].id),
            position >= self.chain().len() ==> id is None,
    {
        if position < self.subscribers.len() {
            Some(self.subscribers[position].id)
        } else {
            None
        }
    }

    /// Settles the answer of the subscriber at `position` to an event: one that leaves
    /// is taken out, the others keeping their order (so the chain stays sorted by
    /// priority, highest first); a taken event stops the dispatch;
    /// otherwise the event goes to the next position (the same one after a removal).
    pub fn settle(&mut self, position: usize, result: DispatchResult) -> (step: DispatchStep)
        requires
            position < old(self).chain().len(),
        ensures
            final(self).next_id_spec() == old(self).next_id_spec(),
            settled(old(self).chain(), position as int, result, final(self).chain(), step),
            by_priority(old(self).chain()) ==> by_priority(final(self).chain()),
    {
        let n = self.subscribers.len();
        assert(position < n);
        match result {
            DispatchResult::Consumed => DispatchStep::Done,
            DispatchResult::Pass => DispatchStep::Next(position + 1),
            DispatchResult::Unsubscribe => {
                let ghost c = self.subscribers@;
                self.subscribers.remove(position);
                proof {
                    let c2 = self.subscribers@;
                    assert forall|i: int, j: int| by_priority(c) && 0 <= i < j < c2.len() implies (#[trigger] c2[i]).priority
                        >= (#[trigger] c2[j]).priority by {
                        let i0 = if i < position { i } else { i + 1 };
                        let j0 = if j < position { j } else { j + 1 };
                        assert(c2[i] == c[i0] && c2[j] == c[j0]);
                        assert(c[i0].priority >= c[j0].priority);
                    }
                }
                DispatchStep::Done
            },
        }
    }

    /// Dispatches an event whose subscriber at place `i` of the chain answers
    /// `answers[i]`, by settling the answers from the first place on (see
    /// [`lemma_dispatch`]); returns whether the event was taken. Only the answers up to
    /// the first that does not pass are read.
    pub fn dispatch_answers(&mut self, answers: &Vec<DispatchResult>) -> (taken: bool)
        requires
            answers@.len() == old(self).chain().len(),
        ensures
            (final(self).chain(), taken) == dispatch_outcome(old(self).chain(), answers@, 0),
            final(self).next_id_spec() == old(self).next_id_spec(),
            by_priority(old(self).chain()) ==> by_priority(final(self).chain()),
    {
        let ghost c0 = self.chain();
        let mut i: usize = 0;
        while i < self.subscribers.len()
            invariant
                self.chain() == c0,
                c0 == old(self).chain(),
                self.next_id_spec() == old(self).next_id_spec(),
                answers@.len() == c0.len(),
                i <= c0.len(),
                dispatch_outcome(c0, answers@, i as int) == dispatch_outcome(c0, answers@, 0),
            decreases c0.len() - i,
        {
            let a = answers[i];
            let ghost before = self.chain();
            let step = self.settle(i, a);
            proof {
                assert(answers@[i as int] == a);
                assert(settled(before, i as int, a, self.chain(), step));
            }
            match step {
                DispatchStep::Done => {
                    proof {
                        assert(a != DispatchResult::Pass);
                        assert(dispatch_outcome(c0, answers@, i as int) == (self.chain(), true));
                        if by_priority(c0) && a == DispatchResult::Unsubscribe {
                            lemma_remove_keeps_order(c0, i as int);
                        }
                    }
                    return true;
                },
                DispatchStep::Next(_) => {},
            }
            i = i + 1;
        }
        false
    }

    /// Whether some subscriber has priority above `threshold`.
    pub fn has_priority_above(&self, threshold: i8) -> (b: bool)
        ensures
            b == exists|i: int| 0 <= i < self.chain().len() && (#[trigger] self.chain()[i]).priority > threshold,
    {
        let mut i: usize = 0;
        while i < self.subscribers.len()
            invariant
                i <= self.subscribers@.len(),
                forall|k: int| 0 <= k < i ==> (#[trigger] self.subscribers@[k]).priority <= threshold,
            decreases self.subscribers@.len() - i,
        {
            if self.subscribers[i].priority > threshold {
                assert(self.chain()[i as int].priority > threshold);
                return true;
            }
            i = i + 1;
        }
        false
    }
}

/// The position of the first subscription of highest priority.
fn first_highest(s: &Vec<Subscription>) -> (k: usize)
    requires
        s@.len() >= 1,
    ensures
        k == first_top(s@, |x: Subscription| sub_rank(x)),
{
    let mut k: usize = 0;
    let mut i: usize = 1;
    while i < s.len()
        invariant
            1 <= i <= s@.len(),
            k == first_top(s@.take(i as int), |x: Subscription| sub_rank(x)),
            k < i,
        decreases s@.len() - i,
    {
        proof {
            assert(s@.take(i as int + 1).drop_last() =~= s@.take(i as int));
            lemma_first_top(s@.take(i as int), |x: Subscription| sub_rank(x));
        }
        if s[i].priority > s[k].priority {
            k = i;
        }
        i = i + 1;
    }
    assert(s@.take(s@.len() as int) =~= s@);
    k
}

} // verus!
