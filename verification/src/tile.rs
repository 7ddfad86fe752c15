use vstd::prelude::*;

verus! {

/// Width of the dungeon map in cells.
pub const MAP_WIDTH: usize = 80;
/// Height of the dungeon map in cells.
pub const MAP_HEIGHT: usize = 60;
/// Width of the camera window shown around the player.
pub const VIEWPORT_WIDTH: usize = 40;
/// Height of the camera window shown around the player.
pub const VIEWPORT_HEIGHT: usize = 20;

/// One cell of terrain. The save format stores it as a byte in this order:
/// Wall = 0, Floor = 1, ShallowWater = 2, DeepWater = 3, Stalactite = 4.
#[derive(Clone, Copy, Debug, PartialEq, Eq, Structural)]
pub enum Tile {
    Wall,
    Floor,
    ShallowWater,
    DeepWater,
    Stalactite,
}

/// The character drawn for a tile.
pub open spec fn tile_glyph(t: Tile) -> char {
    match t {
        Tile::Wall | Tile::Stalactite => '#',
        Tile::Floor => '.',
        Tile::ShallowWater => '~',
        Tile::DeepWater => '≈',
    }
}

/// Whether a creature may stand on the tile.
pub open spec fn tile_walkable(t: Tile) -> bool {
    t == Tile::Floor || t == Tile::ShallowWater
}

/// Foreground colour of a tile in view.
pub open spec fn tile_fg(t: Tile) -> (u8, u8, u8) {
    match t {
        Tile::Wall => (180u8, 180u8, 180u8),
        Tile::Stalactite => (255u8, 255u8, 0u8),
        Tile::Floor => (200u8, 200u8, 200u8),
        Tile::ShallowWater => (220u8, 240u8, 255u8),
        Tile::DeepWater => (80u8, 150u8, 220u8),
    }
}

/// Background colour of a tile; only water has one.
pub open spec fn tile_bg(t: Tile) -> Option<(u8, u8, u8)> {
    match t {
        Tile::ShallowWater => Some((120u8, 190u8, 250u8)),
        Tile::DeepWater => Some((20u8, 60u8, 140u8)),
        _ => None,
    }
}

/// Whether the tile stops line of sight.
pub open spec fn tile_blocks_vision(t: Tile) -> bool {
    t == Tile::Wall || t == Tile::Stalactite
}

/// The byte that stands for a tile in a save file.
pub open spec fn tile_code(t: Tile) -> u8 {
    match t {
        Tile::Wall => 0,
        Tile::Floor => 1,
        Tile::ShallowWater => 2,
        Tile::DeepWater => 3,
        Tile::Stalactite => 4,
    }
}

impl Tile {
    /// The character drawn for the tile.
    pub fn glyph(self) -> (c: char)
        ensures
            c == tile_glyph(self),
    {
        match self {
            Tile::Wall | Tile::Stalactite => '#',
            Tile::Floor => '.',
            Tile::ShallowWater => '~',
            Tile::DeepWater => '≈',
        }
    }

    /// Whether a creature may stand here (floor and shallow water).
    pub fn walkable(self) -> (b: bool)
        ensures
            b == tile_walkable(self),
    {
        match self {
            Tile::Floor | Tile::ShallowWater => true,
            _ => false,
        }
    }

    /// Whether the tile stops line of sight (wall and stalactite).
    pub fn blocks_vision(self) -> (b: bool)
        ensures
            b == tile_blocks_vision(self),
    {
        match self {
            Tile::Wall | Tile::Stalactite => true,
            _ => false,
        }
    }

    /// Foreground colour when the tile is in view.
    pub fn fg_color(self) -> (c: (u8, u8, u8))
        ensures
            c == tile_fg(self),
    {
        match self {
            Tile::Wall => (180, 180, 180),
            Tile::Stalactite => (255, 255, 0),
            Tile::Floor => (200, 200, 200),
            Tile::ShallowWater => (220, 240, 255),
            Tile::DeepWater => (80, 150, 220),
        }
    }

    /// Background colour; only water has one.
    pub fn bg_color(self) -> (c: Option<(u8, u8, u8)>)
        ensures
            c == tile_bg(self),
    {
        match self {
            Tile::ShallowWater => Some((120, 190, 250)),
            Tile::DeepWater => Some((20, 60, 140)),
            _ => None,
        }
    }

    /// The byte that stands for the tile in a save file.
    pub fn to_code(self) -> (b: u8)
        ensures
            b == tile_code(self),
    {
        match self {
            Tile::Wall => 0,
            Tile::Floor => 1,
            Tile::ShallowWater => 2,
            Tile::DeepWater => 3,
            Tile::Stalactite => 4,
        }
    }

    /// Reads a tile back from its save byte; bytes above 4 are refused.
    pub fn from_code(b: u8) -> (r: Option<Tile>)
        ensures
            r matches Some(t) ==> tile_code(t) == b,
            r is None <==> b > 4,
    {
        match b {
            0 => Some(Tile::Wall),
            1 => Some(Tile::Floor),
            2 => Some(Tile::ShallowWater),
            3 => Some(Tile::DeepWater),
            4 => Some(Tile::Stalactite),
            _ => None,
        }
    }
}

/// Reading back the save byte of a tile gives the same tile.
pub proof fn lemma_tile_code_roundtrip(t: Tile)
    ensures
        tile_code(t) <= 4,
        forall|u: Tile| tile_code(u) == tile_code(t) ==> u == t,
{
}

} // verus!
