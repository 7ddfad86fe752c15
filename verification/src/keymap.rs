use vstd::prelude::*;
use crate::turns::PlayerAction;

verus! {

/// A key of the keyboard, as far as the game tells keys apart.
#[derive(Clone, Copy, Debug, PartialEq, Eq, Structural)]
pub enum Key {
    Up,
    Down,
    Left,
    Right,
    Home,
    End,
    PageUp,
    PageDown,
    Enter,
    Esc,
    Char(char),
    F(u8),
    Other,
}

/// One key binding.
#[derive(Clone, Copy, Debug, PartialEq, Eq, Structural)]
pub struct KeyBinding {
    pub key: Key,
    pub action: PlayerAction,
}

/// The bindings, in the order they are searched.
pub open spec fn binding_table() -> Seq<KeyBinding> {
    seq![
        KeyBinding { key: Key::Up, action: PlayerAction::Move(0isize, -1isize) },
        KeyBinding { key: Key::Down, action: PlayerAction::Move(0isize, 1isize) },
        KeyBinding { key: Key::Left, action: PlayerAction::Move(-1isize, 0isize) },
        KeyBinding { key: Key::Right, action: PlayerAction::Move(1isize, 0isize) },
        KeyBinding { key: Key::Home, action: PlayerAction::Move(-1isize, -1isize) },
        KeyBinding { key: Key::End, action: PlayerAction::Move(-1isize, 1isize) },
        KeyBinding { key: Key::PageUp, action: PlayerAction::Move(1isize, -1isize) },
        KeyBinding { key: Key::PageDown, action: PlayerAction::Move(1isize, 1isize) },
        KeyBinding { key: Key::Char('.'), action: PlayerAction::Wait },
        KeyBinding { key: Key::Char('1'), action: PlayerAction::Skill(0) },
        KeyBinding { key: Key::Char('2'), action: PlayerAction::Skill(1) },
        KeyBinding { key: Key::Char('3'), action: PlayerAction::Skill(2) },
        KeyBinding { key: Key::Char('4'), action: PlayerAction::Skill(3) },
        KeyBinding { key: Key::Char('e'), action: PlayerAction::OpenInventory },
        KeyBinding { key: Key::Char('x'), action: PlayerAction::OpenLook },
        KeyBinding { key: Key::Char('t'), action: PlayerAction::Throw },
        KeyBinding { key: Key::Char('g'), action: PlayerAction::PickupGround },
        KeyBinding { key: Key::Char('>'), action: PlayerAction::DescendStairs },
        KeyBinding { key: Key::F(5), action: PlayerAction::SaveGame },
        KeyBinding { key: Key::F(9), action: PlayerAction::LoadGame },
        KeyBinding { key: Key::Char('q'), action: PlayerAction::Quit },
        KeyBinding { key: Key::Esc, action: PlayerAction::Quit },
    ]
}

/// The action of the first binding of `key` among `t`, if any.
pub open spec fn first_binding(t: Seq<KeyBinding>, key: Key) -> Option<PlayerAction>
    decreases t.len(),
{
    if t.len() == 0 {
        None
    } else if t[0].key == key {
        Some(t[0].action)
    } else {
        first_binding(t.drop_first(), key)
    }
}

/// The key bindings: arrows and Home/End/PageUp/PageDown move (or attack) in the
/// eight directions, `.` waits, `1`-`4` use skills, `e` opens the bag, `x` looks, `t`
/// throws, `g` picks up, `>` goes down, F5 saves, F9 loads, `q` and Esc quit.
pub fn key_bindings() -> (v: Vec<KeyBinding>)
    ensures
        v@ == binding_table(),
{
    let v = vec![
        KeyBinding { key: Key::Up, action: PlayerAction::Move(0, -1) },
        KeyBinding { key: Key::Down, action: PlayerAction::Move(0, 1) },
        KeyBinding { key: Key::Left, action: PlayerAction::Move(-1, 0) },
        KeyBinding { key: Key::Right, action: PlayerAction::Move(1, 0) },
        KeyBinding { key: Key::Home, action: PlayerAction::Move(-1, -1) },
        KeyBinding { key: Key::End, action: PlayerAction::Move(-1, 1) },
        KeyBinding { key: Key::PageUp, action: PlayerAction::Move(1, -1) },
        KeyBinding { key: Key::PageDown, action: PlayerAction::Move(1, 1) },
        KeyBinding { key: Key::Char('.'), action: PlayerAction::Wait },
        KeyBinding { key: Key::Char('1'), action: PlayerAction::Skill(0) },
        KeyBinding { key: Key::Char('2'), action: PlayerAction::Skill(1) },
        KeyBinding { key: Key::Char('3'), action: PlayerAction::Skill(2) },
        KeyBinding { key: Key::Char('4'), action: PlayerAction::Skill(3) },
        KeyBinding { key: Key::Char('e'), action: PlayerAction::OpenInventory },
        KeyBinding { key: Key::Char('x'), action: PlayerAction::OpenLook },
        KeyBinding { key: Key::Char('t'), action: PlayerAction::Throw },
        KeyBinding { key: Key::Char('g'), action: PlayerAction::PickupGround },
        KeyBinding { key: Key::Char('>'), action: PlayerAction::DescendStairs },
        KeyBinding { key: Key::F(5), action: PlayerAction::SaveGame },
        KeyBinding { key: Key::F(9), action: PlayerAction::LoadGame },
        KeyBinding { key: Key::Char('q'), action: PlayerAction::Quit },
        KeyBinding { key: Key::Esc, action: PlayerAction::Quit },
    ];
    assert(v@ =~= binding_table());
    v
}

/// The action bound to `code`: the first binding of that key, or none.
pub fn resolve(code: Key) -> (a: Option<PlayerAction>)
    ensures
        a == first_binding(binding_table(), code),
{
    let table = key_bindings();
    let mut i: usize = 0;
    assert(table@.skip(0) =~= table@);
    while i < table.len()
        invariant
            i <= table@.len(),
            table@ == binding_table(),
            first_binding(table@, code) == first_binding(table@.skip(i as int), code),
        decreases table@.len() - i,
    {
        let ghost rest = table@.skip(i as int);
        assert(rest.drop_first() =~= table@.skip(i as int + 1));
        if table[i].key == code {
            return Some(table[i].action);
        }
        i = i + 1;
    }
    assert(table@.skip(table@.len() as int) =~= Seq::<KeyBinding>::empty());
    None
}

} // verus!
