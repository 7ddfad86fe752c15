use dungeon::action::{
    agility_scaled, agility_to_reaction, action_value, ActionEntry, ActionKindV3, ActionQueue, CanChase, CanFlee,
    CanMove, CanWait, CanWander,
};
use dungeon::turns::{
    arbitration, chase_decision, flee_decision, handle_skill, handle_timed_action, handle_wait, wander_decision, InputBuffer,
    Intent, MonsterSense, PlayerPreview, RecognizedInput,
};
use dungeon::stats::{learn_skill, EventLog, SkillKind, Skills};

#[test]
fn tests_test_conditions() {
    assert!(CanMove::condition(true, false));
    assert!(CanMove::condition(true, true));
    assert!(!CanMove::condition(false, false));
    // A hit-point ratio of 0.2 flees, 0.5 does not.
    assert!(CanFlee::condition(2, 10));
    assert!(!CanFlee::condition(5, 10));
    assert!(CanChase::condition(true));
    assert!(!CanChase::condition(false));
    assert!(CanWander::condition());
}

#[test]
fn tests_test_reaction_from_agility() {
    let r10 = agility_to_reaction(10);
    let r20 = agility_to_reaction(20);
    assert!(r20 < r10);
    assert!(r10 >= 20);
    assert!(r10 <= 100);
}

#[test]
fn reaction_values() {
    assert_eq!(agility_to_reaction(0), 100);
    assert_eq!(agility_to_reaction(10), 70);
    assert_eq!(agility_to_reaction(26), 22);
    assert_eq!(agility_to_reaction(27), 20);
    assert_eq!(agility_to_reaction(1000), 20);
}

#[test]
fn scaled_durations() {
    assert_eq!(agility_scaled(300, 10), 240);
    assert_eq!(agility_scaled(300, 0), 300);
    assert_eq!(agility_scaled(300, 25), 150);
    assert_eq!(agility_scaled(300, 90), 150);
    assert_eq!(agility_scaled(190, 1), 186);
    assert_eq!(action_value(300, 10), 310);
    assert_eq!(CanMove::new(100).duration, 300);
    assert_eq!(CanWait::new(0).duration, 800);
    assert_eq!(CanWander::new(50).duration, 500);
    assert_eq!(CanFlee::new(200).duration, 250);
    assert_eq!(CanChase::new(100).duration, 250);
}

#[test]
fn test_action_queue_advance() {
    let player = 1u64;
    let reaction_time = agility_to_reaction(10);
    let duration = CanMove::new(100).duration;
    let av = reaction_time + duration;
    let mut q = ActionQueue::new();
    q.enqueue(player, ActionKindV3::Move { dx: 1, dy: 0 }, av);
    q.advance(av / 2);
    assert_eq!(q.entries.len(), 1);
    q.advance(av);
    let ready = q.pop_ready();
    assert_eq!(ready.len(), 1);
}

#[test]
fn test_player_preview_tap_tap() {
    let player = 7u64;
    let mut preview = PlayerPreview::new();
    preview.kind = Some(ActionKindV3::Move { dx: 1, dy: 0 });
    assert!(matches!(preview.kind, Some(ActionKindV3::Move { dx: 1, dy: 0 })));
    let reaction = agility_to_reaction(10);
    let duration = CanMove::new(100).duration;
    let mut q = ActionQueue::new();
    q.enqueue(player, ActionKindV3::Move { dx: 1, dy: 0 }, reaction + duration);
    preview.kind = None;
    assert_eq!(q.entries.len(), 1);
}

#[test]
fn test_tap_tap_wait() {
    let mut preview = PlayerPreview::new();
    let mut q = ActionQueue::new();
    let first = handle_wait(&mut preview, &mut q, 1, 10, Some(CanWait::new(0)));
    assert!(!first);
    assert_eq!(preview.kind, Some(ActionKindV3::Wait));
    let second = handle_wait(&mut preview, &mut q, 1, 10, Some(CanWait::new(0)));
    assert!(second);
    assert!(preview.kind.is_none());
    assert_eq!(q.entries.len(), 1);
    // 70 reaction + 800 * 0.8
    assert_eq!(q.entries[0].av_remaining, 70 + 640);
}

#[test]
fn timed_action_replaces_earlier_entry() {
    let mut preview = PlayerPreview::new();
    let mut q = ActionQueue::new();
    q.enqueue(9, ActionKindV3::Wander, 5);
    q.enqueue(1, ActionKindV3::Wait, 100);
    assert!(!handle_timed_action(&mut preview, &mut q, 1, ActionKindV3::Skill(2), 50));
    assert!(handle_timed_action(&mut preview, &mut q, 1, ActionKindV3::Skill(2), 50));
    assert_eq!(q.entries.len(), 2);
    assert_eq!(q.entries[1], ActionEntry { entity: 1, kind: ActionKindV3::Skill(2), av_remaining: 50 });
    // A different skill only previews.
    assert!(!handle_timed_action(&mut preview, &mut q, 1, ActionKindV3::Skill(3), 50));
    assert_eq!(preview.kind, Some(ActionKindV3::Skill(3)));
}

#[test]
fn next_event_then_advance_makes_something_due() {
    let mut q = ActionQueue::new();
    q.enqueue(1, ActionKindV3::Wait, 300);
    q.enqueue(2, ActionKindV3::Chase, 120);
    q.enqueue(3, ActionKindV3::Flee, 0);
    let d = q.next_event_distance();
    assert_eq!(d, Some(120));
    q.advance(120);
    let ready = q.pop_ready();
    assert_eq!(ready.len(), 2);
    assert_eq!(ready[0].entity, 2);
    assert_eq!(ready[1].entity, 3);
    assert_eq!(q.entries.len(), 1);
    assert_eq!(q.entries[0].av_remaining, 180);
    assert!(q.pop_ready().is_empty());
    let mut empty = ActionQueue::new();
    assert_eq!(empty.next_event_distance(), None);
    assert!(empty.pop_ready().is_empty());
}

#[test]
fn enqueue_if_absent_keeps_one_entry() {
    let mut q = ActionQueue::new();
    q.enqueue_if_absent(4, ActionKindV3::Wait, 10);
    q.enqueue_if_absent(4, ActionKindV3::Chase, 20);
    assert_eq!(q.entries.len(), 1);
    assert!(q.has_entity(4));
    assert!(!q.has_entity(5));
    q.enqueue_or_replace(5, ActionKindV3::Wait, 3);
    q.enqueue_or_replace(4, ActionKindV3::Flee, 7);
    assert_eq!(q.entries[0], ActionEntry { entity: 4, kind: ActionKindV3::Flee, av_remaining: 7 });
    assert_eq!(q.entries.len(), 2);
}

#[test]
fn input_buffer_keeps_two_and_drops_repeats() {
    let mut b = InputBuffer::new();
    b.push(RecognizedInput::Direction(1, 0));
    b.push(RecognizedInput::Direction(1, 0));
    assert_eq!(b.buffer.len(), 1);
    b.push(RecognizedInput::Wait);
    b.push(RecognizedInput::Skill(1));
    assert_eq!(b.buffer, vec![RecognizedInput::Wait, RecognizedInput::Skill(1)]);
    assert_eq!(b.pop(), Some(RecognizedInput::Wait));
    assert_eq!(b.pop(), Some(RecognizedInput::Skill(1)));
    assert_eq!(b.pop(), None);
}

fn sense(entity: u64, hp: i32, visible: Vec<(usize, usize)>) -> MonsterSense {
    MonsterSense {
        entity,
        agility: 5,
        hp,
        max_hp: 10,
        visible,
        chase: Some(CanChase::new(100)),
        flee: Some(CanFlee::new(200)),
        wander: Some(CanWander::new(50)),
    }
}

#[test]
fn monster_decisions_and_arbitration() {
    let monsters = vec![sense(1, 10, vec![(3, 3)]), sense(2, 1, vec![]), sense(3, 10, vec![])];
    let chase = chase_decision(&monsters, Some((3, 3)));
    let flee = flee_decision(&monsters);
    let wander = wander_decision(&monsters, &chase, &flee);
    assert_eq!(chase.len(), 1);
    assert_eq!(chase[0].entity, 1);
    // reaction 85 + 250 * 0.9
    assert_eq!(chase[0].av, 85 + 225);
    assert_eq!(flee.len(), 1);
    assert_eq!(flee[0].entity, 2);
    assert_eq!(wander.len(), 1);
    assert_eq!(wander[0].entity, 3);
    let mut q = ActionQueue::new();
    arbitration(&chase, &flee, &wander, &mut q);
    let order: Vec<u64> = q.entries.iter().map(|e| e.entity).collect();
    assert_eq!(order, vec![2, 1, 3]);
    // Nothing is queued twice.
    arbitration(&chase, &flee, &wander, &mut q);
    assert_eq!(q.entries.len(), 3);
}

#[test]
fn arbitration_is_stable_among_equal_priorities() {
    let a = Intent { entity: 1, priority: 5, av: 1, kind: ActionKindV3::Chase };
    let b = Intent { entity: 2, priority: 5, av: 2, kind: ActionKindV3::Chase };
    let c = Intent { entity: 3, priority: 9, av: 3, kind: ActionKindV3::Flee };
    let mut q = ActionQueue::new();
    arbitration(&vec![a, b], &vec![c], &vec![], &mut q);
    let order: Vec<u64> = q.entries.iter().map(|e| e.entity).collect();
    assert_eq!(order, vec![3, 1, 2]);
}

#[test]
fn skill_press_needs_a_learnt_skill() {
    let mut preview = PlayerPreview::new();
    let mut queue = ActionQueue::new();
    let mut log = EventLog::new();
    let mut skills = Skills { list: Vec::new() };
    assert!(!handle_skill(&mut preview, &mut queue, &skills, &mut log, 0, 1, 10));
    assert_eq!(log.messages.last().unwrap(), "技能 2 未学习");
    assert!(preview.kind.is_none());
    learn_skill(&mut skills, &SkillKind::Heal { amount: 20 }, &mut log);
    // The heal skill answers to key 1, slot 0; the first press previews it.
    assert!(!handle_skill(&mut preview, &mut queue, &skills, &mut log, 0, 0, 10));
    assert_eq!(preview.kind, Some(ActionKindV3::Skill(0)));
    assert!(handle_skill(&mut preview, &mut queue, &skills, &mut log, 0, 0, 10));
    let av = agility_to_reaction(10) + agility_scaled(600, 10);
    assert_eq!(queue.entries, vec![ActionEntry { entity: 0, kind: ActionKindV3::Skill(0), av_remaining: av }]);
}
