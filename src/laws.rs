//! Properties of the engine that relate several calls or hold of every input.

use vstd::prelude::*;
use crate::engine::{
    cascade_result, is_start, is_trail, on_trail, reached, reveal_acts, reveal_result, spreads,
    toggle_result, FlagOutcome, RevealOutcome,
};
use crate::lemmas::{lemma_index_in_range, lemma_neighbor_len, lemma_neighbors, span};
use crate::tilemap::{kind_for, GridModel, Position, TileType};

verus! {

/// An empty cell has no mine among its neighbours.
pub proof fn lemma_empty_has_no_mine_near(m: GridModel, p: Position, q: Position)
    requires
        m.wf(),
        m.in_bounds(p),
        m.kind(p) is Empty,
        m.layout.is_neighbor(p, q),
    ensures
        !m.is_bomb(q),
{
    let l = m.layout;
    assert(l.kind(p) == kind_for(l.bombs_around(p)));
    assert(l.bombs_around(p) == 0);
    lemma_neighbors(l, p);
    let s = l.neighbors(p);
    let marks = l.mine_map();
    let pred = |c: Position| marks[c.y * l.width + c.x];
    assert(s.contains(q));
    if m.is_bomb(q) {
        lemma_index_in_range(l, q);
        assert(pred(q));
        s.lemma_filter_contains_rev(pred, q);
        assert(s.filter(pred).contains(q));
        assert(s.filter(pred).len() > 0);
    }
}

/// Every cell on a trail of a reveal at a covered cell is the cell itself or a
/// neighbour of an empty cell.
proof fn lemma_trail_end(m: GridModel, pos: Position, path: Seq<Position>)
    requires
        m.wf(),
        is_trail(m, pos, path),
        m.is_covered(pos),
    ensures
        path.last() == pos || (spreads(m, path[path.len() - 2]) && m.layout.is_neighbor(
            path[path.len() - 2],
            path.last(),
        )),
{
    if path.len() > 1 {
        assert(spreads(m, path[path.len() - 2]));
    }
}

/// The neighbour list never holds the cell itself nor a cell off the grid. Its
/// length is that of the 3x3 block around the cell clipped to the grid, less
/// one: on a grid of at least two columns and two rows, three in a corner,
/// five on an edge and eight inside.
pub proof fn neighbor_count_bounds(m: GridModel, p: Position)
    requires
        m.well_formed(),
        m.in_bounds(p),
    ensures
        !m.layout.neighbors(p).contains(p),
        forall|q: Position| #[trigger] m.layout.neighbors(p).contains(q) ==> m.in_bounds(q),
        m.layout.neighbors(p).len() == span(p.x as nat, m.width()) * span(p.y as nat, m.height()) - 1,
        m.layout.neighbors(p).len() <= 8,
        m.width() >= 2 && m.height() >= 2 ==> 3 <= m.layout.neighbors(p).len(),
{
    lemma_neighbors(m.layout, p);
    lemma_neighbor_len(m.layout, p);
    let sx = span(p.x as nat, m.width());
    let sy = span(p.y as nat, m.height());
    if m.width() >= 2 && m.height() >= 2 {
        assert(sx >= 2 && sy >= 2);
        assert(sx * sy >= 4) by (nonlinear_arith)
            requires sx >= 2, sy >= 2;
    }
}

/// Revealing a covered, unflagged empty cell never hits a mine. It uncovers
/// the cell, spreads through the connected empty cells to all their unflagged
/// neighbours (the numbered border), and uncovers nothing else.
pub proof fn empty_reveal_opens_region(
    old: GridModel,
    pos: Position,
    new: GridModel,
    r: RevealOutcome,
)
    requires
        old.wf(),
        old.in_bounds(pos),
        old.is_covered(pos),
        !old.is_flagged(pos),
        old.kind(pos) is Empty,
        reveal_result(old, pos, new, r),
    ensures
        r is Revealed,
        reached(old, pos, pos),
        forall|p: Position, q: Position|
            reached(old, pos, p) && spreads(old, p) && old.layout.is_neighbor(p, q) && !old.is_flagged(q)
                ==> #[trigger] reached(old, pos, q) && #[trigger] old.layout.is_neighbor(p, q),
        forall|q: Position| #[trigger] reached(old, pos, q) ==> !old.is_bomb(q),
        forall|q: Position|
            old.in_bounds(q) ==> (!#[trigger] new.is_covered(q) <==> !old.is_covered(q) || reached(
                old,
                pos,
                q,
            )),
{
    assert(is_trail(old, pos, seq![pos]));
    assert(reached(old, pos, pos));
    assert forall|q: Position| #[trigger] reached(old, pos, q) implies !old.is_bomb(q) by {
        let path = choose|path: Seq<Position>| #[trigger] is_trail(old, pos, path) && path.last() == q;
        lemma_trail_end(old, pos, path);
        if q != pos {
            lemma_empty_has_no_mine_near(old, path[path.len() - 2], q);
        }
    }
    assert forall|p: Position, q: Position|
        reached(old, pos, p) && spreads(old, p) && old.layout.is_neighbor(p, q) && !old.is_flagged(q)
            implies #[trigger] reached(old, pos, q) && #[trigger] old.layout.is_neighbor(p, q) by {
        let path = choose|path: Seq<Position>| #[trigger] is_trail(old, pos, path) && path.last() == p;
        let longer = path.push(q);
        assert forall|i: int| 0 <= i < longer.len() - 1 implies #[trigger] spreads(old, longer[i])
            && old.layout.is_neighbor(longer[i], longer[i + 1]) by {
            if i < path.len() - 1 {
                assert(spreads(old, path[i]));
            }
        }
        assert(is_trail(old, pos, longer));
    }
    if r is Lost {
        assert(reached(old, pos, r->Lost_0));
    }
}

/// Revealing a covered, unflagged mine loses with that very mine, and no other
/// tile changes.
pub proof fn mine_reveal_is_lost(old: GridModel, pos: Position, new: GridModel, r: RevealOutcome)
    requires
        old.wf(),
        old.in_bounds(pos),
        old.is_covered(pos),
        !old.is_flagged(pos),
        old.is_bomb(pos),
        reveal_result(old, pos, new, r),
    ensures
        r == RevealOutcome::Lost(pos),
        !new.is_covered(pos),
        forall|q: Position| old.in_bounds(q) && q != pos ==> #[trigger] new.is_covered(q) == old.is_covered(q),
{
    assert(is_trail(old, pos, seq![pos]));
    assert(reached(old, pos, pos));
    assert forall|q: Position| #[trigger] reached(old, pos, q) implies q == pos by {
        let path = choose|path: Seq<Position>| #[trigger] is_trail(old, pos, path) && path.last() == q;
        if path.len() > 1 {
            assert(spreads(old, path[0]));
        }
    }
    if r is Lost {
        assert(reached(old, pos, r->Lost_0));
    }
}

/// A chord on an uncovered number acts exactly when as many neighbours are
/// flagged as the number says; then, unless a mine is hit, every unflagged
/// neighbour ends up uncovered. Otherwise nothing changes.
pub proof fn chord_reveals_neighbors(
    old: GridModel,
    pos: Position,
    n: usize,
    new: GridModel,
    r: RevealOutcome,
)
    requires
        old.wf(),
        old.in_bounds(pos),
        !old.is_covered(pos),
        old.kind(pos) == TileType::Number(n),
        reveal_result(old, pos, new, r),
    ensures
        reveal_acts(old, pos) <==> old.flags_around(pos) == n,
        old.flags_around(pos) != n ==> r is Unchanged && new == old,
        old.flags_around(pos) == n ==> !(r is Unchanged),
        old.flags_around(pos) == n && r is Revealed ==> forall|q: Position|
            old.layout.is_neighbor(pos, q) && !old.is_flagged(q) ==> !#[trigger] new.is_covered(q),
{
    lemma_index_in_range(old.layout, pos);
    assert(!old.is_flagged(pos));
    if old.flags_around(pos) == n && r is Revealed {
        assert forall|q: Position| old.layout.is_neighbor(pos, q) && !old.is_flagged(q) implies !#[trigger] new.is_covered(q) by {
            if old.is_covered(q) {
                assert(is_start(old, pos, q));
                assert(is_trail(old, pos, seq![q]));
                assert(reached(old, pos, q));
            }
        }
    }
}

/// Flagging an uncovered tile does nothing; toggling a covered tile's flag
/// twice gives back the map as it was.
pub proof fn flag_toggle_round_trip(
    m0: GridModel,
    pos: Position,
    m1: GridModel,
    r1: FlagOutcome,
    m2: GridModel,
    r2: FlagOutcome,
)
    requires
        m0.wf(),
        toggle_result(m0, pos, m1, r1),
        toggle_result(m1, pos, m2, r2),
    ensures
        m0.in_bounds(pos) && !m0.is_covered(pos) ==> r1 == FlagOutcome::Unchanged && m1 == m0,
        m2 == m0,
        m0.in_bounds(pos) && m0.is_covered(pos) ==> (r1 == FlagOutcome::Flagged(pos) <==> r2
            == FlagOutcome::Unflagged(pos)),
{
    if m0.in_bounds(pos) && m0.is_covered(pos) {
        lemma_index_in_range(m0.layout, pos);
        assert(m2.flagged =~= m0.flagged);
    }
}

} // verus!
