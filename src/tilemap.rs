//! The tile map: a fixed-size, row-major grid of tiles.

use vstd::prelude::*;
use vstd::std_specs::iter::IteratorSpec;
use crate::lemmas::{
    lemma_bomb_total_bounds, lemma_bomb_total_update, lemma_index_in_range, lemma_index_injective,
    lemma_marked_around_none, lemma_neighbors, lemma_position_at, lemma_push_contains, position_at,
};
use crate::random::{choose_position, shuffle_positions};

verus! {

/// A cell coordinate: `x` is the column, `y` the row.
#[derive(Clone, Copy, PartialEq, Eq, Structural, Debug, Hash)]
pub struct Position {
    pub x: u32,
    pub y: u32,
}

/// What a tile holds.
#[derive(Clone, Copy, PartialEq, Eq, Structural, Debug)]
pub enum TileType {
    /// No mine, and no mine among the neighbours.
    Empty,
    /// A mine.
    Bomb,
    /// No mine, and this many mines among the neighbours (at least one).
    Number(usize),
}

/// One square of the grid.
#[derive(Clone, Copy, PartialEq, Eq, Structural, Debug)]
pub struct Tile {
    pub tile_type: TileType,
    /// True until the tile is revealed.
    pub covered: bool,
    /// A flag marks a covered tile; it never outlives the cover.
    pub flagged: bool,
}

/// Why a grid could not be built or seeded.
#[derive(Clone, Copy, PartialEq, Eq, Structural, Debug)]
pub enum GridError {
    /// A grid needs at least one column and one row.
    InvalidDimensions,
    /// More mines were asked for than the grid has cells.
    TooManyMines,
}

/// The part of a grid that is fixed once the mines are placed: its size and
/// what each cell holds, row by row.
pub struct Layout {
    pub width: nat,
    pub height: nat,
    pub kinds: Seq<TileType>,
}

/// The abstract state of a tile map.
pub struct GridModel {
    pub layout: Layout,
    /// The number of mines the map was seeded with.
    pub mines: nat,
    pub covered: Seq<bool>,
    pub flagged: Seq<bool>,
}

/// The tile kind that a non-mine cell with `count` neighbouring mines has.
pub open spec fn kind_for(count: nat) -> TileType {
    if count == 0 {
        TileType::Empty
    } else {
        TileType::Number(count as usize)
    }
}

/// Column of the `k`-th cell of the 3x3 block centred on `p`, read row by row
/// (`k == 4` is `p` itself).
pub open spec fn block_x(p: Position, k: int) -> int {
    p.x + k % 3 - 1
}

/// Row of the `k`-th cell of the 3x3 block centred on `p`.
pub open spec fn block_y(p: Position, k: int) -> int {
    p.y + k / 3 - 1
}

/// Whether `q` touches `p` by a side or a corner (and is not `p`).
pub open spec fn adjacent(p: Position, q: Position) -> bool {
    &&& q != p
    &&& -1 <= q.x as int - p.x as int <= 1
    &&& -1 <= q.y as int - p.y as int <= 1
}

/// The in-bounds cells among the first `k` cells of the 3x3 block around `p`,
/// leaving out `p` itself, in block order.
pub open spec fn neighbors_upto(width: nat, height: nat, p: Position, k: nat) -> Seq<Position>
    decreases k,
{
    if k == 0 {
        Seq::empty()
    } else {
        let prev = neighbors_upto(width, height, p, (k - 1) as nat);
        let j = k - 1;
        let tx = block_x(p, j);
        let ty = block_y(p, j);
        if j != 4 && 0 <= tx < width && 0 <= ty < height {
            prev.push(Position { x: tx as u32, y: ty as u32 })
        } else {
            prev
        }
    }
}

/// The neighbours of `p` on a `width` x `height` grid, row by row.
pub open spec fn neighbors_of(width: nat, height: nat, p: Position) -> Seq<Position> {
    neighbors_upto(width, height, p, 9)
}

/// How many neighbours of `p` carry a mark in the row-major `marks`.
pub open spec fn marked_around(width: nat, height: nat, marks: Seq<bool>, p: Position) -> nat {
    neighbors_of(width, height, p).filter(|q: Position| marks[q.y * width + q.x]).len()
}

/// The number of mines in a row-major sequence of tile kinds.
pub open spec fn bomb_total(kinds: Seq<TileType>) -> nat
    decreases kinds.len(),
{
    if kinds.len() == 0 {
        0
    } else {
        bomb_total(kinds.drop_last()) + if kinds.last() is Bomb {
            1nat
        } else {
            0nat
        }
    }
}

impl Layout {
    pub open spec fn cells(self) -> nat {
        self.width * self.height
    }

    pub open spec fn in_bounds(self, p: Position) -> bool {
        p.x < self.width && p.y < self.height
    }

    /// Row-major index of a cell.
    pub open spec fn index(self, p: Position) -> int {
        p.y * self.width + p.x
    }

    pub open spec fn kind(self, p: Position) -> TileType {
        self.kinds[self.index(p)]
    }

    pub open spec fn is_bomb(self, p: Position) -> bool {
        self.kind(p) is Bomb
    }

    /// `q` is an in-bounds neighbour of `p`.
    pub open spec fn is_neighbor(self, p: Position, q: Position) -> bool {
        self.in_bounds(q) && adjacent(p, q)
    }

    pub open spec fn neighbors(self, p: Position) -> Seq<Position> {
        neighbors_of(self.width, self.height, p)
    }

    /// Where the mines are, row by row.
    pub open spec fn mine_map(self) -> Seq<bool> {
        self.kinds.map_values(|k: TileType| k is Bomb)
    }

    /// The number of mines among the neighbours of `p`.
    pub open spec fn bombs_around(self, p: Position) -> nat {
        marked_around(self.width, self.height, self.mine_map(), p)
    }

    /// Every non-mine cell is `Empty` or `Number(n)` as its neighbouring mines say.
    pub open spec fn numbers_consistent(self) -> bool {
        forall|p: Position|
            self.in_bounds(p) && !self.is_bomb(p) ==> #[trigger] self.kind(p) == kind_for(
                self.bombs_around(p),
            )
    }
}

impl GridModel {
    pub open spec fn width(self) -> nat {
        self.layout.width
    }

    pub open spec fn height(self) -> nat {
        self.layout.height
    }

    pub open spec fn in_bounds(self, p: Position) -> bool {
        self.layout.in_bounds(p)
    }

    pub open spec fn kind(self, p: Position) -> TileType {
        self.layout.kind(p)
    }

    pub open spec fn is_bomb(self, p: Position) -> bool {
        self.layout.is_bomb(p)
    }

    pub open spec fn is_covered(self, p: Position) -> bool {
        self.covered[self.layout.index(p)]
    }

    pub open spec fn is_flagged(self, p: Position) -> bool {
        self.flagged[self.layout.index(p)]
    }

    pub open spec fn tile(self, p: Position) -> Tile {
        Tile { tile_type: self.kind(p), covered: self.is_covered(p), flagged: self.is_flagged(p) }
    }

    /// The number of flagged neighbours of `p`.
    pub open spec fn flags_around(self, p: Position) -> nat {
        marked_around(self.layout.width, self.layout.height, self.flagged, p)
    }

    /// Sizes fit and agree, and no flag sits on an uncovered tile.
    pub open spec fn well_formed(self) -> bool {
        &&& 1 <= self.layout.width <= u32::MAX
        &&& 1 <= self.layout.height <= u32::MAX
        &&& self.layout.kinds.len() == self.layout.cells()
        &&& self.covered.len() == self.layout.cells()
        &&& self.flagged.len() == self.layout.cells()
        &&& forall|i: int| 0 <= i < self.flagged.len() && #[trigger] self.flagged[i] ==> self.covered[i]
    }

    /// The mine count is the number of mines, and every number is right.
    pub open spec fn consistent(self) -> bool {
        &&& self.mines == bomb_total(self.layout.kinds)
        &&& self.layout.numbers_consistent()
    }

    pub open spec fn wf(self) -> bool {
        self.well_formed() && self.consistent()
    }

    /// Every cell without a mine is uncovered: the game is won.
    pub open spec fn all_cleared(self) -> bool {
        forall|p: Position| self.in_bounds(p) && !self.is_bomb(p) ==> !#[trigger] self.is_covered(p)
    }

    /// The tiles row by row.
    pub open spec fn tiles(self) -> Seq<Tile> {
        Seq::new(
            self.layout.kinds.len(),
            |i: int| Tile { tile_type: self.layout.kinds[i], covered: self.covered[i], flagged: self.flagged[i] },
        )
    }

    /// A covered empty cell: a candidate for the safe start.
    pub open spec fn is_covered_empty(self, p: Position) -> bool {
        self.in_bounds(p) && self.kind(p) is Empty && self.is_covered(p)
    }
}

/// A grid of tiles: `width` columns by `height` rows, stored row by row.
pub struct TileMap {
    width: u32,
    height: u32,
    bomb_count: usize,
    grid: Vec<Tile>,
}

impl View for TileMap {
    type V = GridModel;

    closed spec fn view(&self) -> GridModel {
        GridModel {
            layout: Layout {
                width: self.width as nat,
                height: self.height as nat,
                kinds: self.grid@.map_values(|t: Tile| t.tile_type),
            },
            mines: self.bomb_count as nat,
            covered: self.grid@.map_values(|t: Tile| t.covered),
            flagged: self.grid@.map_values(|t: Tile| t.flagged),
        }
    }
}

impl TileMap {
    pub open spec fn wf(&self) -> bool {
        self@.wf()
    }

    /// A map of `width` columns and `height` rows, every tile empty and covered.
    pub fn empty(width: u32, height: u32) -> (r: Result<TileMap, GridError>)
        requires
            width as nat * height as nat <= usize::MAX,
        ensures
            (width == 0 || height == 0) ==> r == Err::<TileMap, GridError>(GridError::InvalidDimensions),
            (width > 0 && height > 0) ==> r is Ok,
            r is Ok ==> {
                let m = r->Ok_0;
                &&& m.wf()
                &&& m@.width() == width && m@.height() == height
                &&& m@.mines == 0
                &&& forall|p: Position| m@.in_bounds(p) ==> #[trigger] m@.tile(p) == (Tile { tile_type: TileType::Empty, covered: true, flagged: false })
            },
    {
        if width == 0 || height == 0 {
            return Err(GridError::InvalidDimensions);
        }
        let cells = width as usize * height as usize;
        let tile = Tile { tile_type: TileType::Empty, covered: true, flagged: false };
        let mut grid: Vec<Tile> = Vec::new();
        for i in 0..cells
            invariant
                grid@.len() == i,
                forall|j: int| 0 <= j < i ==> grid@[j] == tile,
        {
            grid.push(tile);
        }
        let m = TileMap { width, height, bomb_count: 0, grid };
        let ghost l = m@.layout;
        proof {
            assert forall|p: Position| m@.in_bounds(p) implies #[trigger] m@.tile(p) == tile by {
                lemma_index_in_range(l, p);
            }
            lemma_bomb_total_bounds(l.kinds);
            assert forall|p: Position| l.in_bounds(p) && !l.is_bomb(p) implies #[trigger] l.kind(p)
                == kind_for(l.bombs_around(p)) by {
                lemma_index_in_range(l, p);
                lemma_marked_around_none(l.width, l.height, l.mine_map(), p);
            }
        }
        Ok(m)
    }
}


impl TileMap {
    /// Row-major index of an in-bounds cell.
    pub fn index_of(&self, pos: Position) -> (r: usize)
        requires
            self@.well_formed(),
            self@.in_bounds(pos),
        ensures
            r == self@.layout.index(pos),
            r < self@.layout.cells(),
    {
        let n = self.grid.len();
        proof {
            lemma_index_in_range(self@.layout, pos);
            assert(pos.y * self.width <= pos.y * self.width + pos.x);
        }
        pos.y as usize * self.width as usize + pos.x as usize
    }

    /// The number of columns and rows.
    pub fn size(&self) -> (r: (u32, u32))
        ensures
            r.0 == self@.width(),
            r.1 == self@.height(),
    {
        (self.width, self.height)
    }

    /// An iterator over the tiles, row by row.
    pub fn iter(&self) -> (r: std::slice::Iter<'_, Tile>)
        ensures
            r.remaining().unref() == self@.tiles(),
    {
        let r = self.grid.as_slice().iter();
        assert(r.remaining().unref() =~= self@.tiles());
        r
    }

    /// The tile at an in-bounds `pos`.
    pub fn tile_at(&self, pos: Position) -> (r: Tile)
        requires
            self@.well_formed(),
            self@.in_bounds(pos),
        ensures
            r == self@.tile(pos),
    {
        let i = self.index_of(pos);
        self.grid[i]
    }

    /// The tile at `pos`, or `None` outside the grid.
    pub fn get_tile(&self, pos: Position) -> (r: Option<&Tile>)
        requires
            self@.well_formed(),
        ensures
            r is Some <==> self@.in_bounds(pos),
            r matches Some(t) ==> *t == self@.tile(pos),
    {
        if pos.x < self.width && pos.y < self.height {
            let i = self.index_of(pos);
            Some(&self.grid[i])
        } else {
            None
        }
    }

    /// The in-bounds neighbours of `pos`, row by row.
    pub fn get_neighbors(&self, pos: Position) -> (r: Vec<Position>)
        requires
            self@.well_formed(),
        ensures
            r@ == self@.layout.neighbors(pos),
    {
        let mut r: Vec<Position> = Vec::new();
        let mut k: usize = 0;
        while k < 9
            invariant
                k <= 9,
                r@ == neighbors_upto(self@.width(), self@.height(), pos, k as nat),
            decreases 9 - k,
        {
            let nx: i64 = pos.x as i64 + (k % 3) as i64 - 1;
            let ny: i64 = pos.y as i64 + (k / 3) as i64 - 1;
            if k != 4 && 0 <= nx && nx < self.width as i64 && 0 <= ny && ny < self.height as i64 {
                r.push(Position { x: nx as u32, y: ny as u32 });
            }
            k += 1;
        }
        r
    }

    /// The number of mines among the neighbours of `pos`.
    pub fn bomb_count(&self, pos: Position) -> (r: usize)
        requires
            self@.well_formed(),
        ensures
            r == self@.layout.bombs_around(pos),
    {
        let nbrs = self.get_neighbors(pos);
        let ghost marks = self@.layout.mine_map();
        let ghost w = self@.width();
        let ghost pred = |q: Position| marks[q.y * w + q.x];
        proof {
            lemma_neighbors(self@.layout, pos);
        }
        let mut count: usize = 0;
        let mut i: usize = 0;
        while i < nbrs.len()
            invariant
                self@.well_formed(),
                nbrs@ == self@.layout.neighbors(pos),
                marks == self@.layout.mine_map(),
                w == self@.width(),
                pred == (|q: Position| marks[q.y * w + q.x]),
                forall|j: int| 0 <= j < nbrs@.len() ==> self@.in_bounds(#[trigger] nbrs@[j]),
                i <= nbrs.len(),
                nbrs.len() <= 8,
                count == nbrs@.take(i as int).filter(pred).len(),
                count <= i,
            decreases nbrs.len() - i,
        {
            let q = nbrs[i];
            let idx = self.index_of(q);
            proof {
                assert(nbrs@.take(i + 1) =~= nbrs@.take(i as int).push(q));
                nbrs@.take(i as int).lemma_filter_push(q, pred);
                assert(self@.layout.kinds[idx as int] == self.grid@[idx as int].tile_type);
                assert(marks[idx as int] == (self@.layout.kinds[idx as int] is Bomb));
                assert(pred(q) == marks[idx as int]);
            }
            if self.grid[idx].tile_type.is_bomb() {
                count += 1;
            }
            i += 1;
        }
        assert(nbrs@.take(nbrs.len() as int) =~= nbrs@);
        count
    }

    /// The number of flagged neighbours of `pos`.
    pub fn flag_count(&self, pos: Position) -> (r: usize)
        requires
            self@.well_formed(),
        ensures
            r == self@.flags_around(pos),
    {
        let nbrs = self.get_neighbors(pos);
        let ghost marks = self@.flagged;
        let ghost w = self@.width();
        let ghost pred = |q: Position| marks[q.y * w + q.x];
        proof {
            lemma_neighbors(self@.layout, pos);
        }
        let mut count: usize = 0;
        let mut i: usize = 0;
        while i < nbrs.len()
            invariant
                self@.well_formed(),
                nbrs@ == self@.layout.neighbors(pos),
                marks == self@.flagged,
                w == self@.width(),
                pred == (|q: Position| marks[q.y * w + q.x]),
                forall|j: int| 0 <= j < nbrs@.len() ==> self@.in_bounds(#[trigger] nbrs@[j]),
                i <= nbrs.len(),
                nbrs.len() <= 8,
                count == nbrs@.take(i as int).filter(pred).len(),
                count <= i,
            decreases nbrs.len() - i,
        {
            let q = nbrs[i];
            let idx = self.index_of(q);
            proof {
                assert(nbrs@.take(i + 1) =~= nbrs@.take(i as int).push(q));
                nbrs@.take(i as int).lemma_filter_push(q, pred);
                assert(marks[idx as int] == self.grid@[idx as int].flagged);
                assert(pred(q) == marks[idx as int]);
            }
            if self.grid[idx].flagged {
                count += 1;
            }
            i += 1;
        }
        assert(nbrs@.take(nbrs.len() as int) =~= nbrs@);
        count
    }
}

impl TileMap {
    /// Every cell of the map, in row-major order.
    fn positions(&self) -> (r: Vec<Position>)
        requires
            self@.well_formed(),
        ensures
            r@.len() == self@.layout.cells(),
            r@.no_duplicates(),
            forall|j: int| 0 <= j < r@.len() ==> self@.in_bounds(#[trigger] r@[j]),
    {
        let ghost l = self@.layout;
        let n = self.grid.len();
        let w = self.width as usize;
        let mut r: Vec<Position> = Vec::new();
        for i in 0..n
            invariant
                l == self@.layout,
                self@.well_formed(),
                n == l.cells(),
                w == l.width,
                r@.len() == i,
                forall|j: int| 0 <= j < i ==> #[trigger] r@[j] == position_at(l, j),
                forall|j: int| 0 <= j < i ==> l.in_bounds(#[trigger] r@[j]) && l.index(r@[j]) == j,
        {
            proof {
                lemma_position_at(l, i as int);
            }
            r.push(Position { x: (i % w) as u32, y: (i / w) as u32 });
        }
        assert forall|a: int, b: int| 0 <= a < r@.len() && 0 <= b < r@.len() && a != b implies r@[a]
            != r@[b] by {
            assert(l.index(r@[a]) == a && l.index(r@[b]) == b);
        }
        r
    }

    /// Places a mine on each in-bounds cell of `positions` (a cell listed twice
    /// gets one mine; cells outside the grid are skipped), then gives every other
    /// cell its kind from its neighbouring mines.
    pub fn place_bombs(&mut self, positions: &Vec<Position>)
        requires
            old(self).wf(),
            old(self)@.mines == 0,
        ensures
            final(self).wf(),
            final(self)@.width() == old(self)@.width(),
            final(self)@.height() == old(self)@.height(),
            final(self)@.covered == old(self)@.covered,
            final(self)@.flagged == old(self)@.flagged,
            forall|p: Position|
                final(self)@.in_bounds(p) ==> (#[trigger] final(self)@.is_bomb(p) <==> positions@.contains(p)),
            (positions@.no_duplicates() && forall|j: int|
                0 <= j < positions@.len() ==> old(self)@.in_bounds(#[trigger] positions@[j]))
                ==> final(self)@.mines == positions@.len(),
    {
        let ghost old_model = self@;
        proof {
            lemma_bomb_total_bounds(old_model.layout.kinds);
            assert forall|p: Position| old_model.in_bounds(p) implies !old_model.is_bomb(p) by {
                lemma_index_in_range(old_model.layout, p);
            }
        }
        let mut placed: usize = 0;
        for i in 0..positions.len()
            invariant
                self@.well_formed(),
                self.grid@.len() == old_model.layout.cells(),
                self@.width() == old_model.width(),
                self@.height() == old_model.height(),
                self@.covered == old_model.covered,
                self@.flagged == old_model.flagged,
                placed == bomb_total(self@.layout.kinds),
                forall|p: Position|
                    self@.in_bounds(p) ==> (#[trigger] self@.is_bomb(p) <==> positions@.take(
                        i as int,
                    ).contains(p)),
                (positions@.no_duplicates() && forall|j: int|
                    0 <= j < positions@.len() ==> old_model.in_bounds(#[trigger] positions@[j]))
                    ==> placed == i,
        {
            let p = positions[i];
            let ghost before = self@;
            let glen = self.grid.len();
            proof {
                assert(positions@.take(i + 1) =~= positions@.take(i as int).push(p));
            }
            if p.x < self.width && p.y < self.height {
                let idx = self.index_of(p);
                if !self.grid[idx].tile_type.is_bomb() {
                    let mut t = self.grid[idx];
                    t.tile_type = TileType::Bomb;
                    self.grid.set(idx, t);
                    proof {
                        assert(self@.layout.kinds =~= before.layout.kinds.update(idx as int, TileType::Bomb));
                        assert(self@.covered =~= before.covered);
                        assert(self@.flagged =~= before.flagged);
                        lemma_bomb_total_update(before.layout.kinds, idx as int, TileType::Bomb);
                        lemma_bomb_total_bounds(self@.layout.kinds);
                    }
                    placed += 1;
                    proof {
                        assert forall|q: Position| self@.in_bounds(q) implies (#[trigger] self@.is_bomb(q)
                            <==> positions@.take(i + 1).contains(q)) by {
                            lemma_index_in_range(self@.layout, q);
                            lemma_push_contains(positions@.take(i as int), p, q);
                            if self@.layout.index(q) == idx {
                                lemma_index_injective(self@.layout, p, q);
                            } else {
                                assert(before.is_bomb(q) == self@.is_bomb(q));
                            }
                        }
                    }
                } else {
                    proof {
                        assert(before.is_bomb(p));
                        assert forall|q: Position| self@.in_bounds(q) implies (#[trigger] self@.is_bomb(q)
                            <==> positions@.take(i + 1).contains(q)) by {
                            lemma_push_contains(positions@.take(i as int), p, q);
                        }
                        if positions@.no_duplicates() {
                            let j = choose|j: int| 0 <= j < i && positions@.take(i as int)[j] == p;
                            assert(positions@[j] == positions@[i as int]);
                        }
                    }
                }
            } else {
                proof {
                    assert(!old_model.in_bounds(positions@[i as int]));
                    assert forall|q: Position| self@.in_bounds(q) implies (#[trigger] self@.is_bomb(q)
                        <==> positions@.take(i + 1).contains(q)) by {
                        lemma_push_contains(positions@.take(i as int), p, q);
                    }
                }
            }
        }
        assert(positions@.take(positions.len() as int) =~= positions@);
        let ghost marks = self@.layout.mine_map();
        let ghost with_mines = self@;
        let n = self.grid.len();
        let w = self.width as usize;
        for i in 0..n
            invariant
                self@.well_formed(),
                self.grid@.len() == n,
                n == with_mines.layout.cells(),
                w == with_mines.width(),
                self@.width() == with_mines.width(),
                self@.height() == with_mines.height(),
                self@.covered == old_model.covered,
                self@.flagged == old_model.flagged,
                self@.layout.mine_map() == marks,
                placed == bomb_total(self@.layout.kinds),
                forall|p: Position| self@.in_bounds(p) ==> #[trigger] self@.is_bomb(p) == with_mines.is_bomb(p),
                forall|p: Position|
                    self@.in_bounds(p) && self@.layout.index(p) < i && !self@.is_bomb(p)
                        ==> #[trigger] self@.kind(p) == kind_for(self@.layout.bombs_around(p)),
        {
            let ghost before = self@;
            let p = Position { x: (i % w) as u32, y: (i / w) as u32 };
            proof {
                lemma_position_at(self@.layout, i as int);
            }
            if !self.grid[i].tile_type.is_bomb() {
                let c = self.bomb_count(p);
                let kind = if c == 0 {
                    TileType::Empty
                } else {
                    TileType::Number(c)
                };
                let mut t = self.grid[i];
                t.tile_type = kind;
                self.grid.set(i, t);
                proof {
                    assert(self@.layout.kinds =~= before.layout.kinds.update(i as int, kind));
                    assert(self@.layout.mine_map() =~= marks);
                    assert(self@.covered =~= before.covered);
                    assert(self@.flagged =~= before.flagged);
                    lemma_bomb_total_update(before.layout.kinds, i as int, kind);
                    assert forall|q: Position| self@.in_bounds(q) implies #[trigger] self@.is_bomb(q)
                        == before.is_bomb(q) by {
                        let k = self@.layout.index(q);
                        lemma_index_in_range(self@.layout, q);
                        assert(self@.layout.mine_map()[k] == before.layout.mine_map()[k]);
                    }
                    assert forall|q: Position| self@.in_bounds(q) && self@.layout.index(q) < i + 1
                        && !self@.is_bomb(q) implies #[trigger] self@.kind(q) == kind_for(
                        self@.layout.bombs_around(q),
                    ) by {
                        lemma_index_in_range(self@.layout, q);
                        assert(self@.layout.bombs_around(q) == before.layout.bombs_around(q));
                        if self@.layout.index(q) == i {
                            lemma_index_injective(self@.layout, p, q);
                        } else {
                            assert(self@.kind(q) == before.kind(q));
                        }
                    }
                }
            } else {
                proof {
                    assert(self@.is_bomb(p));
                    assert forall|q: Position| self@.in_bounds(q) && self@.layout.index(q) < i + 1
                        && !self@.is_bomb(q) implies #[trigger] self@.kind(q) == kind_for(
                        self@.layout.bombs_around(q),
                    ) by {
                        lemma_index_in_range(self@.layout, q);
                        if self@.layout.index(q) == i {
                            lemma_index_injective(self@.layout, p, q);
                        }
                    }
                }
            }
        }
        let ghost numbered = self@;
        self.bomb_count = placed;
        proof {
            assert(self@.layout == numbered.layout);
            assert forall|p: Position| self@.layout.in_bounds(p) && !self@.layout.is_bomb(p) implies #[trigger] self@.layout.kind(p)
                == kind_for(self@.layout.bombs_around(p)) by {
                lemma_index_in_range(self@.layout, p);
                assert(numbered.kind(p) == kind_for(numbered.layout.bombs_around(p)));
            }
            assert forall|p: Position| self@.in_bounds(p) implies (#[trigger] self@.is_bomb(p) <==> positions@.contains(p)) by {
                assert(with_mines.is_bomb(p) == numbered.is_bomb(p));
            }
        }
    }

    /// Places `bomb_count` mines on distinct cells picked uniformly at random
    /// and numbers the other cells. Meant for a freshly built map.
    pub fn set_bombs(&mut self, bomb_count: u32) -> (r: Result<(), GridError>)
        requires
            old(self).wf(),
            old(self)@.mines == 0,
        ensures
            r is Err <==> bomb_count > old(self)@.layout.cells(),
            r is Err ==> r == Err::<(), GridError>(GridError::TooManyMines) && final(self)@ == old(self)@,
            final(self).wf(),
            r is Ok ==> {
                &&& final(self)@.mines == bomb_count
                &&& bomb_total(final(self)@.layout.kinds) == bomb_count
                &&& final(self)@.layout.numbers_consistent()
                &&& final(self)@.width() == old(self)@.width()
                &&& final(self)@.height() == old(self)@.height()
                &&& final(self)@.covered == old(self)@.covered
                &&& final(self)@.flagged == old(self)@.flagged
            },
    {
        let n = self.grid.len();
        if bomb_count as usize > n {
            return Err(GridError::TooManyMines);
        }
        let mut positions = self.positions();
        let ghost listed = positions@;
        shuffle_positions(&mut positions);
        proof {
            listed.lemma_multiset_has_no_duplicates();
            positions@.lemma_multiset_has_no_duplicates_conv();
            assert forall|j: int| 0 <= j < positions@.len() implies self@.in_bounds(#[trigger] positions@[j]) by {
                vstd::seq_lib::to_multiset_contains(positions@, positions@[j]);
                vstd::seq_lib::to_multiset_contains(listed, positions@[j]);
                let k = choose|k: int| 0 <= k < listed.len() && listed[k] == positions@[j];
            }
            vstd::seq_lib::to_multiset_len(positions@);
            vstd::seq_lib::to_multiset_len(listed);
        }
        let ghost shuffled = positions@;
        positions.truncate(bomb_count as usize);
        proof {
            assert(positions@ =~= shuffled.subrange(0, bomb_count as int));
            assert forall|j: int| 0 <= j < positions@.len() implies self@.in_bounds(#[trigger] positions@[j]) by {
                assert(positions@[j] == shuffled[j]);
            }
        }
        self.place_bombs(&positions);
        Ok(())
    }
}

impl TileMap {
    /// The number of cells.
    pub fn cell_count(&self) -> (r: usize)
        requires
            self@.well_formed(),
        ensures
            r == self@.layout.cells(),
    {
        self.grid.len()
    }

    /// Takes the cover off the tile at `pos`, unless it is flagged; nothing
    /// happens outside the grid.
    pub fn uncover(&mut self, pos: Position)
        requires
            old(self).wf(),
        ensures
            final(self).wf(),
            final(self)@.layout == old(self)@.layout,
            final(self)@.mines == old(self)@.mines,
            final(self)@.flagged == old(self)@.flagged,
            final(self)@.covered == if old(self)@.in_bounds(pos) && !old(self)@.is_flagged(pos) {
                old(self)@.covered.update(old(self)@.layout.index(pos), false)
            } else {
                old(self)@.covered
            },
    {
        if pos.x < self.width && pos.y < self.height {
            let i = self.index_of(pos);
            let ghost before = self@;
            let mut t = self.grid[i];
            if !t.flagged {
                t.covered = false;
                self.grid.set(i, t);
                proof {
                    assert(self@.layout.kinds =~= before.layout.kinds);
                    assert(self@.flagged =~= before.flagged);
                    assert(self@.covered =~= before.covered.update(i as int, false));
                }
            }
        }
    }

    /// Sets the flag of the covered tile at `pos` to `on`; uncovered tiles and
    /// positions outside the grid are left alone.
    pub fn set_flag(&mut self, pos: Position, on: bool)
        requires
            old(self).wf(),
        ensures
            final(self).wf(),
            final(self)@.layout == old(self)@.layout,
            final(self)@.mines == old(self)@.mines,
            final(self)@.covered == old(self)@.covered,
            final(self)@.flagged == if old(self)@.in_bounds(pos) && old(self)@.is_covered(pos) {
                old(self)@.flagged.update(old(self)@.layout.index(pos), on)
            } else {
                old(self)@.flagged
            },
    {
        if pos.x < self.width && pos.y < self.height {
            let i = self.index_of(pos);
            let ghost before = self@;
            let mut t = self.grid[i];
            if t.covered {
                t.flagged = on;
                self.grid.set(i, t);
                proof {
                    assert(self@.layout.kinds =~= before.layout.kinds);
                    assert(self@.covered =~= before.covered);
                    assert(self@.flagged =~= before.flagged.update(i as int, on));
                }
            }
        }
    }
}

impl TileMap {
    /// Whether every tile without a mine has been uncovered.
    pub fn all_revealed(&self) -> (r: bool)
        requires
            self@.well_formed(),
        ensures
            r == self@.all_cleared(),
    {
        let ghost l = self@.layout;
        let n = self.grid.len();
        for i in 0..n
            invariant
                self@.well_formed(),
                l == self@.layout,
                n == l.cells(),
                forall|p: Position|
                    self@.in_bounds(p) && l.index(p) < i && !self@.is_bomb(p) ==> !#[trigger] self@.is_covered(p),
        {
            let t = self.grid[i];
            proof {
                lemma_position_at(l, i as int);
            }
            if !t.tile_type.is_bomb() && t.covered {
                assert(!self@.is_bomb(position_at(l, i as int)) && self@.is_covered(position_at(l, i as int)));
                return false;
            }
            proof {
                assert forall|p: Position| self@.in_bounds(p) && l.index(p) < i + 1 && !self@.is_bomb(p) implies !#[trigger] self@.is_covered(p) by {
                    if l.index(p) == i {
                        lemma_index_injective(l, p, position_at(l, i as int));
                    }
                }
            }
        }
        proof {
            assert forall|p: Position| self@.in_bounds(p) && !self@.is_bomb(p) implies !#[trigger] self@.is_covered(p) by {
                lemma_index_in_range(l, p);
            }
        }
        true
    }

    /// The covered empty tiles, in row-major order.
    pub fn empty_tiles(&self) -> (r: Vec<Position>)
        requires
            self@.well_formed(),
        ensures
            r@.no_duplicates(),
            forall|p: Position| #[trigger] r@.contains(p) <==> self@.is_covered_empty(p),
    {
        let ghost l = self@.layout;
        let n = self.grid.len();
        let w = self.width as usize;
        let mut r: Vec<Position> = Vec::new();
        for i in 0..n
            invariant
                self@.well_formed(),
                l == self@.layout,
                n == l.cells(),
                w == l.width,
                r@.no_duplicates(),
                forall|j: int| 0 <= j < r@.len() ==> l.index(#[trigger] r@[j]) < i,
                forall|p: Position| #[trigger] r@.contains(p) <==> self@.is_covered_empty(p) && l.index(p) < i,
        {
            let t = self.grid[i];
            let p = Position { x: (i % w) as u32, y: (i / w) as u32 };
            proof {
                lemma_position_at(l, i as int);
            }
            let ghost before = r@;
            if t.covered && matches!(t.tile_type, TileType::Empty) {
                r.push(p);
                proof {
                    assert forall|a: int, b: int| 0 <= a < r@.len() && 0 <= b < r@.len() && a != b implies r@[a] != r@[b] by {
                        if a == r@.len() - 1 {
                            assert(l.index(r@[b]) < i);
                        }
                        if b == r@.len() - 1 {
                            assert(l.index(r@[a]) < i);
                        }
                    }
                }
            }
            proof {
                assert forall|q: Position| #[trigger] r@.contains(q) <==> self@.is_covered_empty(q) && l.index(q) < i + 1 by {
                    lemma_push_contains(before, p, q);
                    if self@.in_bounds(q) && l.index(q) == i {
                        lemma_index_injective(l, p, q);
                    }
                    if r@.contains(q) && !before.contains(q) {
                        assert(q == p);
                    }
                }
            }
        }
        proof {
            assert forall|p: Position| #[trigger] r@.contains(p) <==> self@.is_covered_empty(p) by {
                if self@.is_covered_empty(p) {
                    lemma_index_in_range(l, p);
                }
            }
        }
        r
    }

    /// A covered empty tile picked uniformly at random, or `None` if there is none.
    pub fn find_empty_tile(&self) -> (r: Option<Position>)
        requires
            self@.well_formed(),
        ensures
            r is None <==> !exists|p: Position| #[trigger] self@.is_covered_empty(p),
            r matches Some(p) ==> self@.is_covered_empty(p),
    {
        let candidates = self.empty_tiles();
        let ghost c = candidates@;
        let r = choose_position(candidates);
        proof {
            if exists|p: Position| #[trigger] self@.is_covered_empty(p) {
                let p = choose|p: Position| #[trigger] self@.is_covered_empty(p);
                assert(c.contains(p));
            }
        }
        r
    }

    /// Opens one covered empty tile picked at random, without spreading, so
    /// that the first tile the player sees open is never a mine. Returns it,
    /// or `None` (and changes nothing) when the map has no covered empty tile.
    pub fn safe_start(&mut self) -> (r: Option<Position>)
        requires
            old(self).wf(),
        ensures
            final(self).wf(),
            final(self)@.layout == old(self)@.layout,
            final(self)@.mines == old(self)@.mines,
            final(self)@.flagged == old(self)@.flagged,
            r is None <==> !exists|p: Position| #[trigger] old(self)@.is_covered_empty(p),
            r is None ==> final(self)@ == old(self)@,
            r matches Some(p) ==> {
                &&& old(self)@.is_covered_empty(p)
                &&& final(self)@.covered == if old(self)@.is_flagged(p) {
                    old(self)@.covered
                } else {
                    old(self)@.covered.update(old(self)@.layout.index(p), false)
                }
            },
    {
        let r = self.find_empty_tile();
        if let Some(p) = r {
            self.uncover(p);
        }
        r
    }

    /// Uncovers every mine (and drops the flags on them), as at the end of a game.
    pub fn uncover_bombs(&mut self)
        requires
            old(self).wf(),
        ensures
            final(self).wf(),
            final(self)@.layout == old(self)@.layout,
            final(self)@.mines == old(self)@.mines,
            forall|p: Position|
                old(self)@.in_bounds(p) ==> #[trigger] final(self)@.tile(p) == if old(self)@.is_bomb(p) {
                    Tile { tile_type: TileType::Bomb, covered: false, flagged: false }
                } else {
                    old(self)@.tile(p)
                },
    {
        let ghost m0 = self@;
        let ghost l = m0.layout;
        let n = self.grid.len();
        for i in 0..n
            invariant
                self@.well_formed(),
                self.grid@.len() == n,
                l == self@.layout,
                m0.layout == l,
                m0.well_formed(),
                n == l.cells(),
                self@.mines == m0.mines,
                forall|k: int| 0 <= k < n ==> #[trigger] self@.covered[k] == (m0.covered[k] && !(k < i && l.kinds[k] is Bomb)),
                forall|k: int| 0 <= k < n ==> #[trigger] self@.flagged[k] == (m0.flagged[k] && !(k < i && l.kinds[k] is Bomb)),
        {
            let mut t = self.grid[i];
            let ghost before = self@;
            if t.tile_type.is_bomb() {
                t.covered = false;
                t.flagged = false;
                self.grid.set(i, t);
                proof {
                    assert(self@.layout.kinds =~= before.layout.kinds);
                    assert(self@.covered =~= before.covered.update(i as int, false));
                    assert(self@.flagged =~= before.flagged.update(i as int, false));
                }
            }
        }
        proof {
            assert forall|p: Position| old(self)@.in_bounds(p) implies #[trigger] self@.tile(p) == if old(self)@.is_bomb(p) {
                    Tile { tile_type: TileType::Bomb, covered: false, flagged: false }
                } else {
                    old(self)@.tile(p)
                } by {
                lemma_index_in_range(l, p);
            }
        }
    }
}

impl TileType {
    /// Whether this is a mine.
    pub fn is_bomb(&self) -> (r: bool)
        ensures
            r == (*self is Bomb),
    {
        match self {
            TileType::Bomb => true,
            _ => false,
        }
    }
}

impl Tile {
    /// Whether this tile holds a mine.
    pub fn is_bomb(&self) -> (r: bool)
        ensures
            r == (self.tile_type is Bomb),
    {
        self.tile_type.is_bomb()
    }
}

} // verus!
