//! The reveal engine: cascading reveal, chording and flagging.

use vstd::prelude::*;
use crate::lemmas::{lemma_index_in_range, lemma_index_injective, lemma_neighbors, lemma_push_contains};
use crate::tilemap::{GridModel, Position, TileMap, TileType};

verus! {

/// What a reveal did.
#[derive(Debug, PartialEq, Eq)]
pub enum RevealOutcome {
    /// Nothing was done.
    Unchanged,
    /// These tiles lost their cover.
    Revealed(Vec<Position>),
    /// A mine at this position was uncovered.
    Lost(Position),
}

/// What a flag toggle did.
#[derive(Clone, Copy, Debug, PartialEq, Eq, Structural)]
pub enum FlagOutcome {
    Unchanged,
    Flagged(Position),
    Unflagged(Position),
}

/// An uncovered numbered tile whose number equals its flagged neighbours.
pub open spec fn chord_ready(m: GridModel, pos: Position) -> bool {
    &&& m.in_bounds(pos)
    &&& !m.is_covered(pos)
    &&& m.kind(pos) matches TileType::Number(n) && m.flags_around(pos) == n
}

/// A reveal at `pos` does something: the tile is in bounds, not flagged, and
/// either covered or ready for a chord.
pub open spec fn reveal_acts(m: GridModel, pos: Position) -> bool {
    &&& m.in_bounds(pos)
    &&& !m.is_flagged(pos)
    &&& (m.is_covered(pos) || chord_ready(m, pos))
}

/// The cells a reveal at `pos` starts from: the tile itself when covered,
/// else (a chord) its covered, unflagged neighbours.
pub open spec fn is_start(m: GridModel, pos: Position, q: Position) -> bool {
    &&& reveal_acts(m, pos)
    &&& if m.is_covered(pos) {
        q == pos
    } else {
        m.layout.is_neighbor(pos, q) && m.is_covered(q) && !m.is_flagged(q)
    }
}

/// A revealed cell passes the reveal on to its neighbours: an unflagged empty cell.
pub open spec fn spreads(m: GridModel, p: Position) -> bool {
    &&& m.in_bounds(p)
    &&& !m.is_flagged(p)
    &&& m.kind(p) is Empty
}

/// A walk from a start cell where each step leaves a spreading cell for one of
/// its neighbours.
pub open spec fn is_trail(m: GridModel, pos: Position, path: Seq<Position>) -> bool {
    &&& path.len() > 0
    &&& is_start(m, pos, path[0])
    &&& forall|i: int|
        0 <= i < path.len() - 1 ==> #[trigger] spreads(m, path[i]) && m.layout.is_neighbor(
            path[i],
            path[i + 1],
        )
}

/// Some trail of a reveal at `pos` ends at `q`.
pub open spec fn on_trail(m: GridModel, pos: Position, q: Position) -> bool {
    exists|path: Seq<Position>| #[trigger] is_trail(m, pos, path) && path.last() == q
}

/// The cells a reveal at `pos` reaches: the unflagged ends of its trails.
pub open spec fn reached(m: GridModel, pos: Position, q: Position) -> bool {
    on_trail(m, pos, q) && !m.is_flagged(q)
}

proof fn lemma_trail_in_bounds(m: GridModel, pos: Position, path: Seq<Position>, k: int)
    requires
        is_trail(m, pos, path),
        0 <= k < path.len(),
    ensures
        m.in_bounds(path[k]),
{
    if k > 0 {
        assert(spreads(m, path[k - 1]));
    }
}

/// A trail extended by a neighbour of its spreading end is a trail.
proof fn lemma_trail_extend(m: GridModel, pos: Position, p: Position, q: Position)
    requires
        on_trail(m, pos, p),
        spreads(m, p),
        m.layout.is_neighbor(p, q),
    ensures
        on_trail(m, pos, q),
{
    let path = choose|path: Seq<Position>| #[trigger] is_trail(m, pos, path) && path.last() == p;
    let longer = path.push(q);
    assert forall|i: int| 0 <= i < longer.len() - 1 implies #[trigger] spreads(m, longer[i])
        && m.layout.is_neighbor(longer[i], longer[i + 1]) by {
        if i < path.len() - 1 {
            assert(spreads(m, path[i]));
        }
    }
    assert(is_trail(m, pos, longer));
}

/// Every cell of a trail has been seen, when the queue is exhausted.
proof fn lemma_trail_seen(
    m: GridModel,
    pos: Position,
    queue: Seq<Position>,
    seen: Seq<bool>,
    path: Seq<Position>,
    k: int,
)
    requires
        m.well_formed(),
        is_trail(m, pos, path),
        0 <= k < path.len(),
        forall|q: Position| is_start(m, pos, q) ==> queue.contains(q),
        forall|j: int| 0 <= j < queue.len() ==> #[trigger] seen[m.layout.index(queue[j])],
        forall|p: Position, q: Position|
            m.in_bounds(p) && seen[m.layout.index(p)] && spreads(m, p) && m.layout.is_neighbor(p, q)
                ==> #[trigger] queue.contains(q) && #[trigger] spreads(m, p),
    ensures
        seen[m.layout.index(path[k])],
    decreases k,
{
    if k == 0 {
        assert(queue.contains(path[0]));
    } else {
        lemma_trail_seen(m, pos, queue, seen, path, k - 1);
        assert(spreads(m, path[k - 1]));
        lemma_trail_in_bounds(m, pos, path, k - 1);
        assert(queue.contains(path[k]));
    }
    let j = choose|j: int| 0 <= j < queue.len() && queue[j] == path[k];
    assert(seen[m.layout.index(queue[j])]);
}

/// The cells a reveal at `pos` starts from, or `None` when it does nothing.
fn start_cells(map: &TileMap, pos: Position) -> (r: Option<Vec<Position>>)
    requires
        map.wf(),
    ensures
        r is Some <==> reveal_acts(map@, pos),
        r matches Some(v) ==> {
            &&& forall|j: int| 0 <= j < v@.len() ==> is_start(map@, pos, #[trigger] v@[j])
            &&& forall|q: Position| is_start(map@, pos, q) ==> v@.contains(q)
        },
{
    let tile = match map.get_tile(pos) {
        Some(t) => t,
        None => return None,
    };
    if tile.flagged {
        return None;
    }
    let mut cells: Vec<Position> = Vec::new();
    if tile.covered {
        cells.push(pos);
        assert(cells@[0] == pos);
        return Some(cells);
    }
    let n = match tile.tile_type {
        TileType::Number(n) => n,
        _ => return None,
    };
    if map.flag_count(pos) != n {
        return None;
    }
    let nbrs = map.get_neighbors(pos);
    proof {
        lemma_neighbors(map@.layout, pos);
    }
    for j in 0..nbrs.len()
        invariant
            map.wf(),
            reveal_acts(map@, pos),
            !map@.is_covered(pos),
            nbrs@ == map@.layout.neighbors(pos),
            forall|k: int| 0 <= k < nbrs@.len() ==> map@.layout.is_neighbor(pos, #[trigger] nbrs@[k]),
            forall|k: int| 0 <= k < cells@.len() ==> is_start(map@, pos, #[trigger] cells@[k]),
            forall|k: int| 0 <= k < j && is_start(map@, pos, #[trigger] nbrs@[k]) ==> cells@.contains(nbrs@[k]),
    {
        let q = nbrs[j];
        let t = map.get_tile(q);
        if let Some(t) = t {
            if t.covered && !t.flagged {
                let ghost before = cells@;
                cells.push(q);
                proof {
                    assert forall|k: int| 0 <= k < j + 1 && is_start(map@, pos, #[trigger] nbrs@[k]) implies cells@.contains(nbrs@[k]) by {
                        lemma_push_contains(before, q, nbrs@[k]);
                    }
                }
            }
        }
    }
    proof {
        assert forall|q: Position| is_start(map@, pos, q) implies cells@.contains(q) by {
            assert(nbrs@.contains(q));
            let k = choose|k: int| 0 <= k < nbrs@.len() && nbrs@[k] == q;
        }
    }
    Some(cells)
}

/// What a reveal at `pos` that acts leaves behind in `new`, with outcome `r`:
/// either every reached cell is uncovered and none is a mine, or a reached mine
/// was hit and only reached cells lost their cover.
pub open spec fn cascade_result(old: GridModel, pos: Position, new: GridModel, r: RevealOutcome) -> bool {
    match r {
        RevealOutcome::Unchanged => false,
        RevealOutcome::Revealed(v) => {
            &&& forall|q: Position| reached(old, pos, q) ==> !old.is_bomb(q)
            &&& v@.no_duplicates()
            &&& forall|q: Position| #[trigger] v@.contains(q) <==> reached(old, pos, q) && old.is_covered(q)
            &&& forall|q: Position|
                old.in_bounds(q) ==> #[trigger] new.is_covered(q) == (old.is_covered(q) && !reached(
                    old,
                    pos,
                    q,
                ))
        },
        RevealOutcome::Lost(b) => {
            &&& reached(old, pos, b)
            &&& old.is_bomb(b)
            &&& !new.is_covered(b)
            &&& forall|q: Position|
                old.in_bounds(q) ==> (#[trigger] new.is_covered(q) ==> old.is_covered(q)) && (
                old.is_covered(q) && !new.is_covered(q) ==> reached(old, pos, q))
        },
    }
}

/// Breadth-first reveal from `queue`, the start cells of a reveal at `pos`.
#[verifier::rlimit(60)]
fn cascade(map: &mut TileMap, pos: Position, queue: Vec<Position>) -> (r: RevealOutcome)
    requires
        old(map).wf(),
        reveal_acts(old(map)@, pos),
        forall|j: int| 0 <= j < queue@.len() ==> is_start(old(map)@, pos, #[trigger] queue@[j]),
        forall|q: Position| is_start(old(map)@, pos, q) ==> queue@.contains(q),
    ensures
        final(map).wf(),
        final(map)@.layout == old(map)@.layout,
        final(map)@.mines == old(map)@.mines,
        final(map)@.flagged == old(map)@.flagged,
        cascade_result(old(map)@, pos, final(map)@, r),
{
    let ghost m0 = map@;
    let ghost l = m0.layout;
    let cells = map.cell_count();
    let mut seen: Vec<bool> = Vec::new();
    for k in 0..cells
        invariant
            seen@.len() == k,
            forall|j: int| 0 <= j < k ==> !#[trigger] seen@[j],
    {
        seen.push(false);
    }
    let mut queue = queue;
    let mut revealed: Vec<Position> = Vec::new();
    let mut head: usize = 0;
    let ghost mut seen_set: Set<int> = Set::empty();
    proof {
        assert forall|j: int| 0 <= j < queue@.len() implies m0.in_bounds(#[trigger] queue@[j])
            && on_trail(m0, pos, queue@[j]) by {
            let q = queue@[j];
            assert(is_trail(m0, pos, seq![q]));
        }
        vstd::set_lib::lemma_int_range(0, cells as int);
        assert forall|q: Position| m0.in_bounds(q) implies !#[trigger] seen@[l.index(q)] by {
            lemma_index_in_range(l, q);
        }
    }
    while head < queue.len()
        invariant
            map.wf(),
            m0 == old(map)@,
            map@.layout == l,
            m0.layout == l,
            m0.wf(),
            map@.mines == m0.mines,
            map@.flagged == m0.flagged,
            cells == l.cells(),
            seen@.len() == cells,
            head <= queue@.len(),
            forall|j: int| 0 <= j < queue@.len() ==> m0.in_bounds(#[trigger] queue@[j]) && on_trail(m0, pos, queue@[j]),
            forall|q: Position| is_start(m0, pos, q) ==> queue@.contains(q),
            forall|j: int| 0 <= j < head ==> #[trigger] seen@[l.index(queue@[j])],
            forall|q: Position| m0.in_bounds(q) && #[trigger] seen@[l.index(q)] ==> on_trail(m0, pos, q),
            forall|p: Position, q: Position|
                m0.in_bounds(p) && seen@[l.index(p)] && spreads(m0, p) && #[trigger] l.is_neighbor(p, q)
                    ==> queue@.contains(q),
            forall|p: Position|
                m0.in_bounds(p) && #[trigger] seen@[l.index(p)] && !m0.is_flagged(p) ==> !m0.is_bomb(p),
            forall|q: Position|
                m0.in_bounds(q) ==> #[trigger] map@.is_covered(q) == (m0.is_covered(q) && !(seen@[l.index(q)]
                    && !m0.is_flagged(q))),
            revealed@.no_duplicates(),
            forall|q: Position|
                #[trigger] revealed@.contains(q) <==> m0.in_bounds(q) && seen@[l.index(q)] && !m0.is_flagged(q)
                    && m0.is_covered(q),
            seen_set.finite(),
            seen_set.subset_of(vstd::set_lib::set_int_range(0, cells as int)),
            vstd::set_lib::set_int_range(0, cells as int).len() == cells,
            vstd::set_lib::set_int_range(0, cells as int).finite(),
            forall|k: int| 0 <= k < cells ==> (seen_set.contains(k) <==> #[trigger] seen@[k]),
        decreases 9 * (cells - seen_set.len()) + (queue@.len() - head),
    {
        proof {
            vstd::set_lib::lemma_len_subset(seen_set, vstd::set_lib::set_int_range(0, cells as int));
        }
        let p = queue[head];
        head += 1;
        let i = map.index_of(p);
        if seen[i] {
            continue;
        }
        let ghost seen_before = seen@;
        let ghost covered_before = map@;
        let ghost revealed_before = revealed@;
        seen.set(i, true);
        proof {
            seen_set = seen_set.insert(i as int);
            vstd::set_lib::lemma_len_subset(seen_set, vstd::set_lib::set_int_range(0, cells as int));
            assert forall|q: Position| m0.in_bounds(q) implies #[trigger] seen@[l.index(q)] == (seen_before[l.index(q)] || q == p) by {
                lemma_index_in_range(l, q);
                if l.index(q) == i {
                    lemma_index_injective(l, p, q);
                }
            }
        }
        let t = map.tile_at(p);
        if t.flagged {
            continue;
        }
        if t.covered {
            map.uncover(p);
            revealed.push(p);
            proof {
                assert forall|q: Position| #[trigger] revealed@.contains(q) <==> m0.in_bounds(q) && seen@[l.index(q)] && !m0.is_flagged(q)
                    && m0.is_covered(q) by {
                    lemma_push_contains(revealed_before, p, q);
                }
                assert forall|a: int, b: int| 0 <= a < revealed@.len() && 0 <= b < revealed@.len() && a != b implies revealed@[a] != revealed@[b] by {
                    if b == revealed@.len() - 1 {
                        assert(revealed_before.contains(revealed@[a]));
                    }
                    if a == revealed@.len() - 1 {
                        assert(revealed_before.contains(revealed@[b]));
                    }
                }
            }
        }
        proof {
            assert forall|q: Position| m0.in_bounds(q) implies #[trigger] map@.is_covered(q) == (m0.is_covered(q) && !(seen@[l.index(q)]
                && !m0.is_flagged(q))) by {
                lemma_index_in_range(l, q);
                if l.index(q) == i {
                    lemma_index_injective(l, p, q);
                }
                assert(covered_before.is_covered(q) == (m0.is_covered(q) && !(seen_before[l.index(q)]
                && !m0.is_flagged(q))));
            }
        }
        match t.tile_type {
            TileType::Bomb => {
                return RevealOutcome::Lost(p);
            },
            TileType::Empty => {
                let ghost queue_before = queue@;
                let mut nbrs = map.get_neighbors(p);
                proof {
                    lemma_neighbors(l, p);
                }
                let ghost added = nbrs@;
                queue.append(&mut nbrs);
                proof {
                    assert(spreads(m0, p));
                    assert forall|j: int| 0 <= j < queue@.len() implies m0.in_bounds(#[trigger] queue@[j]) && on_trail(m0, pos, queue@[j]) by {
                        if j >= queue_before.len() {
                            assert(queue@[j] == added[j - queue_before.len()]);
                            lemma_trail_extend(m0, pos, p, queue@[j]);
                        } else {
                            assert(queue@[j] == queue_before[j]);
                        }
                    }
                    assert forall|q: Position| queue_before.contains(q) implies queue@.contains(q) by {
                        let j = choose|j: int| 0 <= j < queue_before.len() && queue_before[j] == q;
                        assert(queue@[j] == q);
                    }
                    assert forall|a: Position, q: Position|
                        m0.in_bounds(a) && seen@[l.index(a)] && spreads(m0, a) && #[trigger] l.is_neighbor(a, q)
                            implies queue@.contains(q) by {
                        if a == p {
                            assert(added.contains(q));
                            let j = choose|j: int| 0 <= j < added.len() && added[j] == q;
                            assert(queue@[queue_before.len() + j] == q);
                        } else {
                            assert(queue_before.contains(q));
                        }
                    }
                    assert forall|j: int| 0 <= j < head implies #[trigger] seen@[l.index(queue@[j])] by {
                        assert(queue@[j] == queue_before[j]);
                    }
                }
            },
            TileType::Number(_) => {},
        }
    }
    proof {
        assert forall|q: Position| #[trigger] reached(m0, pos, q) implies m0.in_bounds(q) && seen@[l.index(q)] by {
            let path = choose|path: Seq<Position>| #[trigger] is_trail(m0, pos, path) && path.last() == q;
            lemma_trail_in_bounds(m0, pos, path, path.len() - 1);
            lemma_trail_seen(m0, pos, queue@, seen@, path, path.len() - 1);
        }
        assert forall|q: Position| reached(m0, pos, q) implies !m0.is_bomb(q) by {
            assert(seen@[l.index(q)]);
        }
        assert forall|q: Position| #[trigger] revealed@.contains(q) <==> reached(m0, pos, q) && m0.is_covered(q) by {
            if revealed@.contains(q) {
                assert(seen@[l.index(q)]);
            }
        }
        assert forall|q: Position| m0.in_bounds(q) implies #[trigger] map@.is_covered(q) == (m0.is_covered(q) && !reached(m0, pos, q)) by {
            if seen@[l.index(q)] && !m0.is_flagged(q) {
                assert(on_trail(m0, pos, q));
            }
        }
    }
    RevealOutcome::Revealed(revealed)
}

/// The whole contract of a reveal at `pos`: when it does not act, nothing
/// changes; otherwise the cascade result holds.
pub open spec fn reveal_result(old: GridModel, pos: Position, new: GridModel, r: RevealOutcome) -> bool {
    if reveal_acts(old, pos) {
        cascade_result(old, pos, new, r)
    } else {
        r is Unchanged && new == old
    }
}

/// Reveals the tile at `pos`.
///
/// Outside the grid, on a flagged tile, on an uncovered tile that is not a
/// ready chord, nothing happens. A covered tile is uncovered; when it is empty
/// the reveal spreads breadth-first through empty cells to their neighbours,
/// stopping at flags. A chord (an uncovered number with as many flagged
/// neighbours) reveals the covered, unflagged neighbours in the same way. The
/// first mine uncovered ends the reveal with `Lost`.
pub fn reveal_tile(map: &mut TileMap, pos: Position) -> (r: RevealOutcome)
    requires
        old(map).wf(),
    ensures
        final(map).wf(),
        final(map)@.layout == old(map)@.layout,
        final(map)@.mines == old(map)@.mines,
        final(map)@.flagged == old(map)@.flagged,
        reveal_result(old(map)@, pos, final(map)@, r),
{
    match start_cells(map, pos) {
        None => RevealOutcome::Unchanged,
        Some(cells) => cascade(map, pos, cells),
    }
}

/// The contract of a flag toggle at `pos`: a covered tile in bounds has its
/// flag flipped; anything else is left alone.
pub open spec fn toggle_result(old: GridModel, pos: Position, new: GridModel, r: FlagOutcome) -> bool {
    if old.in_bounds(pos) && old.is_covered(pos) {
        &&& new.layout == old.layout
        &&& new.mines == old.mines
        &&& new.covered == old.covered
        &&& new.flagged == old.flagged.update(old.layout.index(pos), !old.is_flagged(pos))
        &&& r == if old.is_flagged(pos) {
            FlagOutcome::Unflagged(pos)
        } else {
            FlagOutcome::Flagged(pos)
        }
    } else {
        r == FlagOutcome::Unchanged && new == old
    }
}

/// Puts a flag on the covered tile at `pos`, or takes it off.
pub fn toggle_flag(map: &mut TileMap, pos: Position) -> (r: FlagOutcome)
    requires
        old(map).wf(),
    ensures
        final(map).wf(),
        toggle_result(old(map)@, pos, final(map)@, r),
{
    let tile = match map.get_tile(pos) {
        Some(t) => *t,
        None => return FlagOutcome::Unchanged,
    };
    if !tile.covered {
        return FlagOutcome::Unchanged;
    }
    map.set_flag(pos, !tile.flagged);
    if tile.flagged {
        FlagOutcome::Unflagged(pos)
    } else {
        FlagOutcome::Flagged(pos)
    }
}

} // verus!
