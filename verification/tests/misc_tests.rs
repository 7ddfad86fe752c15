use dungeon::action::{ActionKindV3, ActionQueue, CanMove};
use dungeon::conduct::{can_move_to, chase_step, flee_continues, flee_step, ChaseMove};
use dungeon::display::{bar, unique_color};
use dungeon::events::{DispatchResult, DispatchStep, EventBus};
use dungeon::floors::{floor_banner, pick_stair_pos};
use dungeon::keymap::{resolve, Key};
use dungeon::line::line_bresenham;
use dungeon::map::DungeonMap;
use dungeon::occupancy::OccupancyMap;
use dungeon::room::{Room, RoomShape};
use dungeon::saves::{load_kind, map_from_saved, save_kind, MapMemory};
use dungeon::screens::{move_cursor, throw_line, throw_select_key, update_throw_path, BagShape, InvCommand, InvPage, InvPanel, InvView, DetailSource, ThrowChoice, ThrowPreview};
use dungeon::tile::Tile;
use dungeon::turns::{direction_action, handle_player_direction, PlayerAction, PlayerPreview};

fn open_map() -> DungeonMap {
    let mut m = DungeonMap::new();
    for y in 1..20 {
        for x in 1..30 {
            m.set(x, y, Tile::Floor);
        }
    }
    m
}

#[test]
fn colours_shift_per_entity() {
    assert_eq!(unique_color((100, 100, 100), 32 | (32 << 8) | (32 << 16)), (100, 100, 100));
    assert_eq!(unique_color((100, 100, 100), 0), (68, 68, 68));
    assert_eq!(unique_color((250, 5, 128), 63 | (0 << 8) | (40 << 16)), (255, 0, 136));
}

#[test]
fn bars() {
    assert_eq!(bar(5, 10, 4), "██░░");
    assert_eq!(bar(10, 10, 3), "███");
    assert_eq!(bar(0, 10, 3), "░░░");
    assert_eq!(bar(-3, 10, 2), "░░");
    assert_eq!(bar(3, 0, 2), "░░");
    assert_eq!(bar(1, 4, 2), "█░");
    assert_eq!(bar(20, 10, 2), "██");
}

#[test]
fn key_bindings_resolve() {
    assert_eq!(resolve(Key::Up), Some(PlayerAction::Move(0, -1)));
    assert_eq!(resolve(Key::PageDown), Some(PlayerAction::Move(1, 1)));
    assert_eq!(resolve(Key::Char('.')), Some(PlayerAction::Wait));
    assert_eq!(resolve(Key::Char('3')), Some(PlayerAction::Skill(2)));
    assert_eq!(resolve(Key::F(5)), Some(PlayerAction::SaveGame));
    assert_eq!(resolve(Key::Esc), Some(PlayerAction::Quit));
    assert_eq!(resolve(Key::Char('z')), None);
}

#[test]
fn event_bus_orders_by_priority() {
    let mut bus = EventBus::new();
    let low = bus.subscribe(0);
    let high = bus.subscribe(10);
    let mid = bus.subscribe(5);
    let mid2 = bus.subscribe(5);
    assert_eq!((low, high, mid, mid2), (0, 1, 2, 3));
    assert_eq!(bus.subscriber_at(0), Some(high));
    assert_eq!(bus.subscriber_at(1), Some(mid));
    assert_eq!(bus.subscriber_at(2), Some(mid2));
    assert_eq!(bus.subscriber_at(3), Some(low));
    assert!(bus.has_priority_above(5));
    assert!(!bus.has_priority_above(10));
    assert_eq!(bus.settle(0, DispatchResult::Pass), DispatchStep::Next(1));
    assert_eq!(bus.settle(1, DispatchResult::Consumed), DispatchStep::Done);
    // The leaving subscriber is taken out; the rest keep their priority order.
    assert_eq!(bus.settle(0, DispatchResult::Unsubscribe), DispatchStep::Done);
    assert_eq!(bus.subscriber_at(0), Some(mid));
    assert_eq!(bus.subscriber_at(1), Some(mid2));
    assert_eq!(bus.subscriber_at(2), Some(low));
    bus.unsubscribe(mid);
    assert_eq!(bus.subscriber_at(0), Some(mid2));
    assert_eq!(bus.subscriber_at(1), Some(low));
    assert_eq!(bus.subscriber_at(2), None);
}

#[test]
fn lines() {
    assert_eq!(line_bresenham(0, 0, 3, 0), vec![(1, 0), (2, 0), (3, 0)]);
    assert_eq!(line_bresenham(0, 0, 2, 2), vec![(1, 1), (2, 2)]);
    assert_eq!(line_bresenham(5, 5, 4, 3), vec![(4, 4), (4, 3)]);
    let l = line_bresenham(2, 7, 9, 3);
    assert_eq!(*l.last().unwrap(), (9, 3));
    assert_eq!(l.len(), 7);
}

#[test]
fn line_with_equal_ends_is_empty() {
    assert_eq!(line_bresenham(3, 4, 3, 4), Vec::<(usize, usize)>::new());
}

#[test]
fn throwing() {
    let mut m = open_map();
    let (path, ok) = throw_line(&m, (5, 5), (8, 7));
    assert!(ok);
    assert_eq!(*path.last().unwrap(), (8, 7));
    let (_, far) = throw_line(&m, (5, 5), (12, 5));
    assert!(!far);
    m.set(6, 5, Tile::Wall);
    let (_, blocked) = throw_line(&m, (5, 5), (8, 5));
    assert!(!blocked);
    let (_, at_wall) = throw_line(&m, (5, 5), (6, 5));
    assert!(at_wall);
    assert_eq!(move_cursor((0, 0), Key::Up), (0, 0));
    assert_eq!(move_cursor((3, 57), Key::PageDown), (3, 59));
    assert_eq!(move_cursor((3, 3), Key::End), (79, 59));
    let mut sel = 0usize;
    assert_eq!(throw_select_key(&mut sel, Key::Char('y'), 2), ThrowChoice::Stay);
    assert_eq!(sel, 1);
    assert_eq!(throw_select_key(&mut sel, Key::Char('y'), 2), ThrowChoice::Stay);
    assert_eq!(sel, 1);
    assert_eq!(throw_select_key(&mut sel, Key::Enter, 2), ThrowChoice::Throw(1));
    assert_eq!(throw_select_key(&mut sel, Key::Esc, 2), ThrowChoice::Cancel);
}

#[test]
fn bag_screen_keys() {
    let shape = BagShape { stacks: 2, weapon_worn: true, armor_worn: false, ring_worn: false, ground: 1 };
    let mut v = InvView::new();
    assert_eq!(v.key(Key::Down, shape), InvCommand::Stay);
    assert_eq!(v.left_sel, 1);
    assert_eq!(v.key(Key::Enter, shape), InvCommand::Stay);
    assert_eq!(v.page, InvPage::List(InvPanel::Left));
    v.left_sel = 0;
    v.key(Key::Enter, shape);
    assert_eq!(v.page, InvPage::Detail(DetailSource::LeftEquip, 0));
    assert_eq!(v.key(Key::Char('u'), shape), InvCommand::Unequip(0));
    assert_eq!(v.page, InvPage::List(InvPanel::Left));
    v.key(Key::Char('1'), shape);
    assert_eq!(v.page, InvPage::Detail(DetailSource::LeftInv, 1));
    assert_eq!(v.key(Key::Char('d'), shape), InvCommand::Drop(1));
    v.key(Key::Right, shape);
    v.key(Key::Enter, shape);
    assert_eq!(v.key(Key::Char('g'), shape), InvCommand::PickupAll);
    assert_eq!(v.key(Key::Esc, shape), InvCommand::Close);
    let mut w = InvView { page: InvPage::List(InvPanel::Left), left_sel: 9, right_sel: 0 };
    w.clamp(shape);
    assert_eq!(w.left_sel, 4);
}

#[test]
fn player_direction_press_twice() {
    let mut m = open_map();
    m.set(6, 5, Tile::Wall);
    let mut occ = OccupancyMap::new();
    occ.set(4, 5, 42);
    let monsters = vec![42u64];
    assert_eq!(direction_action(&m, &occ, &monsters, 5, 5, 1, 0), None);
    assert_eq!(direction_action(&m, &occ, &monsters, 5, 5, -1, 0), Some(ActionKindV3::Attack { target: 42 }));
    assert_eq!(direction_action(&m, &occ, &monsters, 5, 5, 0, 1), Some(ActionKindV3::Move { dx: 0, dy: 1 }));
    let mut preview = PlayerPreview::new();
    let mut q = ActionQueue::new();
    assert!(!handle_player_direction(&mut preview, &mut q, &m, &occ, &monsters, 1, 5, 5, 0, 1, 10, Some(CanMove::new(100))));
    assert!(handle_player_direction(&mut preview, &mut q, &m, &occ, &monsters, 1, 5, 5, 0, 1, 10, Some(CanMove::new(100))));
    assert_eq!(q.entries.len(), 1);
    assert_eq!(q.entries[0].av_remaining, 70 + 240);
    assert!(!handle_player_direction(&mut preview, &mut q, &m, &occ, &monsters, 1, 5, 5, 1, 0, 10, None));
    assert!(preview.kind.is_none());
}

#[test]
fn monster_moves() {
    let m = open_map();
    let occ = OccupancyMap::new();
    assert!(can_move_to(&m, &occ, 5, 5, 1, 1));
    assert!(!can_move_to(&m, &occ, 1, 1, -1, 0));
    assert_eq!(flee_step(&m, &occ, (5, 5), (4, 5)), Some((6, 4)));
    assert!(flee_continues(2, 10));
    assert!(!flee_continues(3, 10));
    assert_eq!(chase_step(&m, &occ, (5, 5), (6, 6), true), ChaseMove::Attack);
    assert!(matches!(chase_step(&m, &occ, (5, 5), (8, 5), true), ChaseMove::Step(6, _)));
    assert_eq!(chase_step(&m, &occ, (5, 5), (40, 40), false), ChaseMove::Stay);
}

#[test]
fn stairs_and_banner() {
    let mut m = open_map();
    m.rooms.push(Room { x: 2, y: 2, w: 4, h: 4, shape: RoomShape::Rect });
    m.rooms.push(Room { x: 20, y: 10, w: 4, h: 4, shape: RoomShape::Rect });
    let mut rng = <rand::rngs::SmallRng as rand::SeedableRng>::seed_from_u64(1);
    assert_eq!(pick_stair_pos(&m, (4, 4), &mut rng), (22, 12));
    let single = open_map();
    let p = pick_stair_pos(&single, (3, 3), &mut rng);
    assert!(single.is_walkable(p.0, p.1));
    assert_ne!(p, (3, 3));
    assert_eq!(floor_banner(3), "=== 第 3 层 ===");
}

#[test]
fn saving_round_trips() {
    let mut mem = MapMemory::new();
    mem.remember(&vec![(1, 1), (79, 59), (200, 3)]);
    let bytes = mem.to_bytes();
    let back = MapMemory::from_bytes(&bytes);
    assert_eq!(back.explored, mem.explored);
    assert!(back.explored[1 * 80 + 1]);
    let m = open_map();
    let copy = map_from_saved(&m.tiles, vec![]);
    assert_eq!(copy.tiles, m.tiles);
    for k in [ActionKindV3::Move { dx: 1, dy: -1 }, ActionKindV3::Chase, ActionKindV3::Skill(2), ActionKindV3::Wait] {
        assert_eq!(load_kind(save_kind(k).unwrap()), k);
    }
    assert_eq!(save_kind(ActionKindV3::Attack { target: 3 }), None);
    assert_eq!(save_kind(ActionKindV3::Throw { tx: 1, ty: 2 }), None);
}

#[test]
fn occupancy() {
    let mut o = OccupancyMap::new();
    assert!(!o.is_occupied(3, 3));
    assert!(o.is_occupied(80, 3));
    o.rebuild(&vec![(5, 3, 3), (6, 3, 3), (7, 200, 1)]);
    assert_eq!(o.occupant(3, 3), Some(6));
    o.clear();
    assert_eq!(o.occupant(3, 3), None);
}

#[test]
fn aiming_at_the_thrower_gives_no_target() {
    let mut m = DungeonMap::new();
    for x in 1..10 {
        m.set(x, 5, Tile::Floor);
    }
    let mut p = ThrowPreview { active: true, cursor: (3, 5), path: vec![(9, 9)], valid_target: true };
    update_throw_path(&mut p, &m, (3, 5));
    assert!(p.path.is_empty());
    assert!(!p.valid_target);
    p.cursor = (6, 5);
    update_throw_path(&mut p, &m, (3, 5));
    assert_eq!(p.path, vec![(4, 5), (5, 5), (6, 5)]);
    assert!(p.valid_target);
    // A wall on the line stops the throw; so does a target out of reach.
    m.set(5, 5, Tile::Wall);
    update_throw_path(&mut p, &m, (3, 5));
    assert!(!p.valid_target);
    p.cursor = (9, 5);
    m.set(5, 5, Tile::Floor);
    update_throw_path(&mut p, &m, (3, 5));
    assert!(!p.valid_target);
}

#[test]
fn flight_starts_under_a_quarter_and_lasts_under_thirty_percent() {
    assert!(dungeon::action::CanFlee::condition(24, 100));
    assert!(flee_continues(24, 100));
    // Between 25% and 30%: no new flight, but one under way goes on.
    assert!(!dungeon::action::CanFlee::condition(27, 100));
    assert!(flee_continues(27, 100));
    assert!(!flee_continues(30, 100));
}

#[test]
fn dispatch_goes_down_the_chain_until_taken() {
    let mut bus = EventBus::new();
    let a = bus.subscribe(9);
    let b = bus.subscribe(5);
    let c = bus.subscribe(1);
    use_pass_then_leave(&mut bus, a, b, c);
}

fn use_pass_then_leave(bus: &mut EventBus, a: usize, b: usize, c: usize) {
    // The first passes, the second leaves: taken, the second is gone, the order kept.
    let answers = vec![DispatchResult::Pass, DispatchResult::Unsubscribe, DispatchResult::Consumed];
    assert!(bus.dispatch_answers(&answers));
    assert_eq!(bus.subscriber_at(0), Some(a));
    assert_eq!(bus.subscriber_at(1), Some(c));
    assert_eq!(bus.subscriber_at(2), None);
    let _ = b;
    // Everyone passes: not taken, nothing changes.
    assert!(!bus.dispatch_answers(&vec![DispatchResult::Pass, DispatchResult::Pass]));
    assert_eq!(bus.subscriber_at(1), Some(c));
}
