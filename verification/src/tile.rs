//! Tiles, the cells of a level grid, and the symbols that stand for them in
//! level text.

use vstd::prelude::*;

verus! {

/// The terrain of a tile. It never changes while a level is played.
#[derive(Clone, Copy, Debug, PartialEq, Eq, Structural)]
pub enum TileKind {
    /// Padding outside the playable region.
    Outside,
    /// Plain walkable ground.
    Floor,
    /// Walkable ground on which a box should come to rest.
    Goal,
}

/// What currently sits on a tile.
#[derive(Clone, Copy, Debug, PartialEq, Eq, Structural)]
pub enum TileOccupant {
    /// Nothing: the tile is free.
    Empty,
    /// A box that the pusher can push.
    Box,
    /// The player's token.
    Pusher,
    /// A wall. Walls are permanent.
    Wall,
}

/// A property of tiles by which the cells of a grid are listed.
#[derive(Clone, Copy, Debug, PartialEq, Eq, Structural)]
pub enum Feature {
    /// The occupant is a wall.
    Wall,
    /// The terrain is walkable: plain floor or a goal.
    Floor,
    /// The terrain is a goal.
    Goal,
    /// The occupant is a box.
    Box,
    /// The occupant is the pusher.
    Pusher,
}

/// One cell of the grid: its terrain and its current occupant.
#[derive(Clone, Copy, Debug, PartialEq, Eq, Structural)]
pub struct Tile {
    pub kind: TileKind,
    pub occupant: TileOccupant,
}

impl Tile {
    /// Whether the tile shows the given feature.
    pub open spec fn has(self, feature: Feature) -> bool {
        match feature {
            Feature::Wall => self.occupant == TileOccupant::Wall,
            Feature::Floor => self.kind != TileKind::Outside,
            Feature::Goal => self.kind == TileKind::Goal,
            Feature::Box => self.occupant == TileOccupant::Box,
            Feature::Pusher => self.occupant == TileOccupant::Pusher,
        }
    }

    /// What level text can describe: a wall stands on plain floor, and nothing
    /// stands on a tile outside the playable region.
    pub open spec fn consistent(self) -> bool {
        &&& self.occupant == TileOccupant::Wall ==> self.kind == TileKind::Floor
        &&& self.kind == TileKind::Outside ==> self.occupant == TileOccupant::Empty
    }

    /// The tile that a symbol of level text stands for, if it stands for one.
    ///
    /// `inside` says whether a wall has already been seen on the same row; it
    /// decides whether `-` and `_` are interior floor or outside padding.
    pub open spec fn of_symbol(c: char, inside: bool) -> Option<Tile> {
        if c == '#' {
            Some(Tile { kind: TileKind::Floor, occupant: TileOccupant::Wall })
        } else if c == 'p' || c == '@' {
            Some(Tile { kind: TileKind::Floor, occupant: TileOccupant::Pusher })
        } else if c == 'P' || c == '+' {
            Some(Tile { kind: TileKind::Goal, occupant: TileOccupant::Pusher })
        } else if c == 'b' || c == '$' {
            Some(Tile { kind: TileKind::Floor, occupant: TileOccupant::Box })
        } else if c == 'B' || c == '*' {
            Some(Tile { kind: TileKind::Goal, occupant: TileOccupant::Box })
        } else if c == '.' {
            Some(Tile { kind: TileKind::Goal, occupant: TileOccupant::Empty })
        } else if c == '-' || c == '_' {
            Some(
                Tile {
                    kind: if inside {
                        TileKind::Floor
                    } else {
                        TileKind::Outside
                    },
                    occupant: TileOccupant::Empty,
                },
            )
        } else {
            None
        }
    }

    /// Whether the tile shows the given feature.
    pub fn shows(&self, feature: Feature) -> (yes: bool)
        ensures
            yes == self.has(feature),
    {
        match feature {
            Feature::Wall => matches!(self.occupant, TileOccupant::Wall),
            Feature::Floor => !matches!(self.kind, TileKind::Outside),
            Feature::Goal => matches!(self.kind, TileKind::Goal),
            Feature::Box => matches!(self.occupant, TileOccupant::Box),
            Feature::Pusher => matches!(self.occupant, TileOccupant::Pusher),
        }
    }

    /// Reads one symbol of level text. Symbols outside the table give `None`.
    pub fn from_symbol(c: char, inside: bool) -> (tile: Option<Tile>)
        ensures
            tile == Tile::of_symbol(c, inside),
    {
        match c {
            '#' => Some(Tile { kind: TileKind::Floor, occupant: TileOccupant::Wall }),
            'p' | '@' => Some(Tile { kind: TileKind::Floor, occupant: TileOccupant::Pusher }),
            'P' | '+' => Some(Tile { kind: TileKind::Goal, occupant: TileOccupant::Pusher }),
            'b' | '$' => Some(Tile { kind: TileKind::Floor, occupant: TileOccupant::Box }),
            'B' | '*' => Some(Tile { kind: TileKind::Goal, occupant: TileOccupant::Box }),
            '.' => Some(Tile { kind: TileKind::Goal, occupant: TileOccupant::Empty }),
            '-' | '_' => if inside {
                Some(Tile { kind: TileKind::Floor, occupant: TileOccupant::Empty })
            } else {
                Some(Tile { kind: TileKind::Outside, occupant: TileOccupant::Empty })
            },
            _ => None,
        }
    }
}

/// Every tile that a symbol stands for is consistent.
pub proof fn lemma_symbol_tiles_are_consistent(c: char, inside: bool)
    ensures
        Tile::of_symbol(c, inside) matches Some(tile) ==> tile.consistent(),
{
}

} // verus!
