//! Game configuration: board presets, the adjustable options, and building a
//! board ready to play from them.

use vstd::prelude::*;
use crate::tilemap::{GridError, Position, TileMap, TileType};

verus! {

/// The standard board sizes.
#[derive(Clone, Copy, PartialEq, Eq, Structural, Debug)]
pub enum Preset {
    Beginner,
    Intermediate,
    Expert,
}

impl Preset {
    /// Columns and rows of the preset.
    pub open spec fn spec_size(self) -> (u32, u32) {
        match self {
            Preset::Beginner => (9, 9),
            Preset::Intermediate => (16, 16),
            Preset::Expert => (30, 16),
        }
    }

    /// Number of mines of the preset.
    pub open spec fn spec_bomb_count(self) -> u32 {
        match self {
            Preset::Beginner => 10,
            Preset::Intermediate => 40,
            Preset::Expert => 99,
        }
    }

    /// All presets, from the smallest board to the largest.
    pub fn values() -> (r: Vec<Preset>)
        ensures
            r@ == seq![Preset::Beginner, Preset::Intermediate, Preset::Expert],
    {
        let mut r: Vec<Preset> = Vec::new();
        r.push(Preset::Beginner);
        r.push(Preset::Intermediate);
        r.push(Preset::Expert);
        assert(r@ =~= seq![Preset::Beginner, Preset::Intermediate, Preset::Expert]);
        r
    }

    pub fn size(&self) -> (r: (u32, u32))
        ensures
            r == self.spec_size(),
    {
        match self {
            Preset::Beginner => (9, 9),
            Preset::Intermediate => (16, 16),
            Preset::Expert => (30, 16),
        }
    }

    pub fn bomb_count(&self) -> (r: u32)
        ensures
            r == self.spec_bomb_count(),
    {
        match self {
            Preset::Beginner => 10,
            Preset::Intermediate => 40,
            Preset::Expert => 99,
        }
    }
}

/// What a new game is built from.
#[derive(Clone, Copy, PartialEq, Eq, Structural, Debug)]
pub struct GameOptions {
    pub columns: u32,
    pub rows: u32,
    pub bomb_count: u32,
    /// Open one empty tile before the first move.
    pub safe_start: bool,
}

impl Default for GameOptions {
    /// The beginner board, with a safe start.
    fn default() -> (r: GameOptions)
        ensures
            r == (GameOptions { columns: 9, rows: 9, bomb_count: 10, safe_start: true }),
    {
        let preset = Preset::Beginner;
        let (columns, rows) = preset.size();
        GameOptions { columns, rows, bomb_count: preset.bomb_count(), safe_start: true }
    }
}

/// One step up or down, stopping at the ends of the `u32` range.
pub open spec fn stepped(v: u32, increase: bool) -> u32 {
    if increase {
        if v == u32::MAX { v } else { (v + 1) as u32 }
    } else {
        if v == 0 { v } else { (v - 1) as u32 }
    }
}

impl GameOptions {
    /// Takes the size and mine count of `preset`.
    pub fn apply_preset(&mut self, preset: Preset)
        ensures
            final(self).columns == preset.spec_size().0,
            final(self).rows == preset.spec_size().1,
            final(self).bomb_count == preset.spec_bomb_count(),
            final(self).safe_start == old(self).safe_start,
    {
        let (columns, rows) = preset.size();
        self.columns = columns;
        self.rows = rows;
        self.bomb_count = preset.bomb_count();
    }

    /// One row more or less.
    pub fn change_rows(&mut self, increase: bool)
        ensures
            *final(self) == (GameOptions { rows: stepped(old(self).rows, increase), ..*old(self) }),
    {
        self.rows = if increase {
            self.rows.saturating_add(1)
        } else {
            self.rows.saturating_sub(1)
        };
    }

    /// One column more or less.
    pub fn change_columns(&mut self, increase: bool)
        ensures
            *final(self) == (GameOptions { columns: stepped(old(self).columns, increase), ..*old(self) }),
    {
        self.columns = if increase {
            self.columns.saturating_add(1)
        } else {
            self.columns.saturating_sub(1)
        };
    }

    /// One mine more or less.
    pub fn change_bomb_count(&mut self, increase: bool)
        ensures
            *final(self) == (GameOptions { bomb_count: stepped(old(self).bomb_count, increase), ..*old(self) }),
    {
        self.bomb_count = if increase {
            self.bomb_count.saturating_add(1)
        } else {
            self.bomb_count.saturating_sub(1)
        };
    }

    pub fn toggle_safe_start(&mut self)
        ensures
            *final(self) == (GameOptions { safe_start: !old(self).safe_start, ..*old(self) }),
    {
        self.safe_start = !self.safe_start;
    }

    /// A board ready for play: built, seeded with the mines, and, with a safe
    /// start, one covered empty tile opened (when the board has one).
    pub fn start_board(&self) -> (r: Result<TileMap, GridError>)
        requires
            self.columns as nat * self.rows as nat <= usize::MAX,
        ensures
            (self.columns == 0 || self.rows == 0) ==> r == Err::<TileMap, GridError>(GridError::InvalidDimensions),
            (self.columns > 0 && self.rows > 0 && self.bomb_count > self.columns as nat * self.rows as nat)
                ==> r == Err::<TileMap, GridError>(GridError::TooManyMines),
            r is Ok <==> (self.columns > 0 && self.rows > 0 && self.bomb_count <= self.columns as nat
                * self.rows as nat),
            r matches Ok(m) ==> {
                &&& m.wf()
                &&& m@.width() == self.columns
                &&& m@.height() == self.rows
                &&& m@.mines == self.bomb_count
                &&& forall|p: Position| m@.in_bounds(p) ==> !#[trigger] m@.is_flagged(p)
                &&& forall|p: Position|
                    m@.in_bounds(p) && !#[trigger] m@.is_covered(p) ==> self.safe_start && m@.kind(p)
                        is Empty
                &&& forall|p: Position, q: Position|
                    m@.in_bounds(p) && m@.in_bounds(q) && !#[trigger] m@.is_covered(p)
                        && !#[trigger] m@.is_covered(q) ==> p == q
                &&& (self.safe_start && exists|p: Position| m@.in_bounds(p) && #[trigger] m@.kind(p) is Empty)
                    ==> exists|p: Position| m@.in_bounds(p) && !#[trigger] m@.is_covered(p)
            },
    {
        let mut map = match TileMap::empty(self.columns, self.rows) {
            Ok(m) => m,
            Err(e) => return Err(e),
        };
        let ghost fresh = map@;
        match map.set_bombs(self.bomb_count) {
            Ok(()) => {},
            Err(e) => return Err(e),
        }
        let ghost seeded = map@;
        proof {
            assert forall|p: Position| seeded.in_bounds(p) implies #[trigger] seeded.is_covered(p) && !seeded.is_flagged(p) by {
                assert(fresh.tile(p) == (crate::tilemap::Tile { tile_type: TileType::Empty, covered: true, flagged: false }));
            }
        }
        if self.safe_start {
            let opened = map.safe_start();
            proof {
                let l = seeded.layout;
                if let Some(s) = opened {
                    crate::lemmas::lemma_index_in_range(l, s);
                    assert forall|p: Position| map@.in_bounds(p) && !#[trigger] map@.is_covered(p) implies p == s by {
                        crate::lemmas::lemma_index_in_range(l, p);
                        assert(seeded.is_covered(p));
                        if l.index(p) == l.index(s) {
                            crate::lemmas::lemma_index_injective(l, p, s);
                        }
                    }
                    assert(!map@.is_covered(s));
                } else {
                    assert forall|p: Position| map@.in_bounds(p) && #[trigger] map@.kind(p) is Empty implies false by {
                        assert(seeded.is_covered(p));
                        assert(seeded.is_covered_empty(p));
                    }
                }
            }
        }
        assert forall|p: Position| map@.in_bounds(p) implies !#[trigger] map@.is_flagged(p) by {
            assert(seeded.is_covered(p));
            assert(!seeded.is_flagged(p));
        }
        Ok(map)
    }
}

} // verus!
