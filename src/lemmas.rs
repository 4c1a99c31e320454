//! Facts about the grid model: cell indices, neighbourhoods and mine counts.

use vstd::prelude::*;
use vstd::arithmetic::div_mod::{lemma_fundamental_div_mod, lemma_fundamental_div_mod_converse};
use crate::tilemap::{
    adjacent, block_x, block_y, bomb_total, marked_around, neighbors_of, neighbors_upto, Layout,
    Position, TileType,
};

verus! {

/// A cell in bounds has an index within the grid.
pub proof fn lemma_index_in_range(l: Layout, p: Position)
    requires
        l.in_bounds(p),
    ensures
        0 <= l.index(p) < l.cells(),
{
    assert(0 <= p.y * l.width + p.x < l.width * l.height) by (nonlinear_arith)
        requires
            p.x < l.width,
            p.y < l.height,
    ;
}

/// The cell at row-major index `i`.
pub open spec fn position_at(l: Layout, i: int) -> Position {
    Position { x: (i % l.width as int) as u32, y: (i / l.width as int) as u32 }
}

/// Index and position are inverse to each other on the grid.
pub proof fn lemma_position_at(l: Layout, i: int)
    requires
        l.width >= 1,
        l.width <= u32::MAX,
        l.height <= u32::MAX,
        0 <= i < l.cells(),
    ensures
        l.in_bounds(position_at(l, i)),
        l.index(position_at(l, i)) == i,
{
    let w = l.width as int;
    lemma_fundamental_div_mod(i, w);
    let q = i / w;
    let r = i % w;
    assert(0 <= r < w);
    assert(0 <= q < l.height) by (nonlinear_arith)
        requires
            i == w * q + r,
            0 <= r < w,
            0 <= i < w * l.height,
            w >= 1,
    ;
    assert(q * w == w * q) by (nonlinear_arith);
}

/// Two cells in bounds with the same index are the same cell.
pub proof fn lemma_index_injective(l: Layout, p: Position, q: Position)
    requires
        l.in_bounds(p),
        l.in_bounds(q),
        l.index(p) == l.index(q),
    ensures
        p == q,
{
    let w = l.width as int;
    lemma_fundamental_div_mod_converse(l.index(p), w, p.y as int, p.x as int);
    lemma_fundamental_div_mod_converse(l.index(q), w, q.y as int, q.x as int);
}

/// The block offset code of `q` relative to `p` (0..9, row by row).
pub open spec fn block_code(p: Position, q: Position) -> int {
    (q.y - p.y + 1) * 3 + (q.x - p.x + 1)
}

proof fn lemma_block_cell(p: Position, j: int)
    requires
        0 <= j < 9,
    ensures
        block_x(p, j) - p.x + 1 == j % 3,
        block_y(p, j) - p.y + 1 == j / 3,
        (block_x(p, j) == p.x && block_y(p, j) == p.y) <==> j == 4,
        (j / 3) * 3 + j % 3 == j,
        -1 <= block_x(p, j) - p.x <= 1,
        -1 <= block_y(p, j) - p.y <= 1,
{
    assert(j == 0 || j == 1 || j == 2 || j == 3 || j == 4 || j == 5 || j == 6 || j == 7 || j == 8);
}

proof fn lemma_neighbors_upto(width: nat, height: nat, p: Position, k: nat)
    requires
        k <= 9,
        width <= u32::MAX,
        height <= u32::MAX,
    ensures
        ({
            let s = neighbors_upto(width, height, p, k);
            &&& s.len() <= k
            &&& s.no_duplicates()
            &&& forall|i: int|
                0 <= i < s.len() ==> {
                    &&& (#[trigger] s[i]).x < width
                    &&& s[i].y < height
                    &&& adjacent(p, s[i])
                    &&& block_code(p, s[i]) < k
                }
            &&& forall|q: Position|
                q.x < width && q.y < height && adjacent(p, q) && block_code(p, q) < k
                    ==> s.contains(q)
        }),
    decreases k,
{
    if k > 0 {
        let j = k - 1;
        lemma_neighbors_upto(width, height, p, j as nat);
        lemma_block_cell(p, j);
        let prev = neighbors_upto(width, height, p, j as nat);
        let s = neighbors_upto(width, height, p, k);
        let tx = block_x(p, j);
        let ty = block_y(p, j);
        let t = Position { x: tx as u32, y: ty as u32 };
        if j != 4 && 0 <= tx < width && 0 <= ty < height {
            assert(s == prev.push(t));
            assert(block_code(p, t) == j);
            assert forall|q: Position|
                q.x < width && q.y < height && adjacent(p, q) && block_code(p, q) < k implies s.contains(q) by {
                if block_code(p, q) < j {
                    assert(prev.contains(q));
                    let n = choose|n: int| 0 <= n < prev.len() && prev[n] == q;
                    assert(s[n] == q);
                } else {
                    assert(q == t);
                    assert(s[s.len() - 1] == t);
                }
            }
        } else {
            assert(s == prev);
            assert forall|q: Position|
                q.x < width && q.y < height && adjacent(p, q) && block_code(p, q) < k implies s.contains(q) by {
                if block_code(p, q) == j {
                    assert(q.x as int == tx && q.y as int == ty);
                    assert(false);
                }
            }
        }
    }
}

/// The neighbour list of `p` holds each in-bounds cell adjacent to `p` once,
/// and nothing else.
pub proof fn lemma_neighbors(l: Layout, p: Position)
    requires
        l.width <= u32::MAX,
        l.height <= u32::MAX,
    ensures
        l.neighbors(p).no_duplicates(),
        l.neighbors(p).len() <= 8,
        forall|i: int| 0 <= i < l.neighbors(p).len() ==> l.is_neighbor(p, #[trigger] l.neighbors(p)[i]),
        forall|q: Position| l.is_neighbor(p, q) <==> #[trigger] l.neighbors(p).contains(q),
{
    lemma_neighbors_upto(l.width, l.height, p, 9);
    let s = l.neighbors(p);
    assert forall|q: Position| l.is_neighbor(p, q) implies #[trigger] s.contains(q) by {
        assert(block_code(p, q) < 9);
    }
    assert forall|q: Position| #[trigger] s.contains(q) implies l.is_neighbor(p, q) by {
        let n = choose|n: int| 0 <= n < s.len() && s[n] == q;
    }
    lemma_adjacent_count(p, s);
}

/// At most eight distinct cells touch a cell.
proof fn lemma_adjacent_count(p: Position, s: Seq<Position>)
    requires
        s.no_duplicates(),
        forall|i: int| 0 <= i < s.len() ==> adjacent(p, #[trigger] s[i]),
    ensures
        s.len() <= 8,
{
    // each entry has a block code in 0..9 other than 4, and distinct entries have distinct codes
    let codes = s.map_values(|q: Position| block_code(p, q));
    assert forall|i: int, j: int| 0 <= i < s.len() && 0 <= j < s.len() && i != j implies codes[i]
        != codes[j] by {
        let a = s[i];
        let b = s[j];
        if codes[i] == codes[j] {
            assert(a.x == b.x && a.y == b.y);
        }
    }
    assert forall|i: int| 0 <= i < s.len() implies 0 <= #[trigger] codes[i] < 9 && codes[i] != 4 by {
        let a = s[i];
    }
    let range = vstd::set_lib::set_int_range(0, 9).remove(4);
    codes.unique_seq_to_set();
    assert(codes.to_set().subset_of(range));
    vstd::set_lib::lemma_int_range(0, 9);
    vstd::set_lib::lemma_len_subset(codes.to_set(), range);
}

/// How many of the columns (or rows) `c - 1`, `c`, `c + 1` lie in `0..n`.
pub open spec fn span(c: nat, n: nat) -> nat {
    1 + (if c > 0 { 1nat } else { 0nat }) + (if c + 1 < n { 1nat } else { 0nat })
}

/// The neighbour count of a cell in bounds: the 3x3 block clipped to the
/// grid, less the cell itself.
pub proof fn lemma_neighbor_len(l: Layout, p: Position)
    requires
        l.in_bounds(p),
        l.width <= u32::MAX,
        l.height <= u32::MAX,
    ensures
        l.neighbors(p).len() == span(p.x as nat, l.width) * span(p.y as nat, l.height) - 1,
{
    reveal_with_fuel(neighbors_upto, 10);
    let w = l.width;
    let h = l.height;
    let sx = span(p.x as nat, w);
    let sy = span(p.y as nat, h);
    assert(sx * sy == if sy == 1 { sx } else if sy == 2 { sx + sx } else { sx + sx + sx }) by (nonlinear_arith)
        requires 1 <= sy <= 3;
    lemma_block_cell(p, 0);
    lemma_block_cell(p, 1);
    lemma_block_cell(p, 2);
    lemma_block_cell(p, 3);
    lemma_block_cell(p, 5);
    lemma_block_cell(p, 6);
    lemma_block_cell(p, 7);
    lemma_block_cell(p, 8);
}

/// Counting marked neighbours only looks at the marks.
pub proof fn lemma_marked_around_none(width: nat, height: nat, marks: Seq<bool>, p: Position)
    requires
        width <= u32::MAX,
        height <= u32::MAX,
        marks.len() == width * height,
        forall|i: int| 0 <= i < marks.len() ==> !#[trigger] marks[i],
    ensures
        marked_around(width, height, marks, p) == 0,
{
    let l = Layout { width, height, kinds: Seq::empty() };
    lemma_neighbors(l, p);
    let s = neighbors_of(width, height, p);
    let pred = |q: Position| marks[q.y * width + q.x];
    assert forall|i: int| 0 <= i < s.len() implies !#[trigger] pred(s[i]) by {
        lemma_index_in_range(l, s[i]);
    }
    s.lemma_all_neg_filter_empty(pred);
}

/// The mine total after one tile changes.
pub proof fn lemma_bomb_total_update(s: Seq<TileType>, i: int, v: TileType)
    requires
        0 <= i < s.len(),
    ensures
        bomb_total(s.update(i, v)) + (if s[i] is Bomb { 1int } else { 0int })
            == bomb_total(s) + (if v is Bomb { 1int } else { 0int }),
    decreases s.len(),
{
    let t = s.update(i, v);
    if i == s.len() - 1 {
        assert(t.drop_last() =~= s.drop_last());
    } else {
        assert(t.drop_last() =~= s.drop_last().update(i, v));
        lemma_bomb_total_update(s.drop_last(), i, v);
    }
}

/// There are no more mines than tiles, and none exactly when no tile is a mine.
pub proof fn lemma_bomb_total_bounds(s: Seq<TileType>)
    ensures
        bomb_total(s) <= s.len(),
        bomb_total(s) == 0 <==> forall|i: int| 0 <= i < s.len() ==> !(#[trigger] s[i] is Bomb),
    decreases s.len(),
{
    if s.len() > 0 {
        lemma_bomb_total_bounds(s.drop_last());
        if bomb_total(s) == 0 {
            assert forall|i: int| 0 <= i < s.len() implies !(#[trigger] s[i] is Bomb) by {
                if i < s.len() - 1 {
                    assert(s[i] == s.drop_last()[i]);
                }
            }
        }
        if forall|i: int| 0 <= i < s.len() ==> !(#[trigger] s[i] is Bomb) {
            assert forall|i: int| 0 <= i < s.drop_last().len() implies !(
            #[trigger] s.drop_last()[i] is Bomb) by {
                assert(s[i] == s.drop_last()[i]);
            }
            assert(!(s[s.len() - 1] is Bomb));
        }
    }
}

/// What a sequence with one more element contains.
pub proof fn lemma_push_contains<A>(s: Seq<A>, x: A, q: A)
    ensures
        s.push(x).contains(q) <==> s.contains(q) || q == x,
{
    if s.contains(q) {
        let j = choose|j: int| 0 <= j < s.len() && s[j] == q;
        assert(s.push(x)[j] == q);
    }
    if q == x {
        assert(s.push(x)[s.len() as int] == q);
    }
    if s.push(x).contains(q) {
        let j = choose|j: int| 0 <= j < s.len() + 1 && s.push(x)[j] == q;
        if j < s.len() {
            assert(s[j] == q);
        }
    }
}

} // verus!
