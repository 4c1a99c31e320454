use minesweeper::{reveal_tile, toggle_flag, FlagOutcome, Position, RevealOutcome, TileMap, TileType};

fn pos(x: u32, y: u32) -> Position {
    Position { x, y }
}

fn board(w: u32, h: u32, mines: &[Position]) -> TileMap {
    let mut map = TileMap::empty(w, h).unwrap();
    map.place_bombs(&mines.to_vec());
    map
}

fn covered(map: &TileMap, x: u32, y: u32) -> bool {
    map.get_tile(pos(x, y)).unwrap().covered
}

fn snapshot(map: &TileMap) -> Vec<(TileType, bool, bool)> {
    let (w, h) = map.size();
    let mut v = Vec::new();
    for y in 0..h {
        for x in 0..w {
            let t = map.get_tile(pos(x, y)).unwrap();
            v.push((t.tile_type, t.covered, t.flagged));
        }
    }
    v
}

fn sorted(mut v: Vec<Position>) -> Vec<(u32, u32)> {
    let mut out: Vec<(u32, u32)> = v.drain(..).map(|p| (p.x, p.y)).collect();
    out.sort();
    out
}

#[test]
fn three_by_three_single_mine_cascade() {
    let mut map = board(3, 3, &[pos(2, 2)]);
    assert_eq!(map.get_tile(pos(0, 0)).unwrap().tile_type, TileType::Empty);
    assert_eq!(map.get_tile(pos(1, 1)).unwrap().tile_type, TileType::Number(1));
    assert_eq!(map.get_tile(pos(1, 2)).unwrap().tile_type, TileType::Number(1));
    assert_eq!(map.get_tile(pos(2, 1)).unwrap().tile_type, TileType::Number(1));
    match reveal_tile(&mut map, pos(0, 0)) {
        RevealOutcome::Revealed(v) => {
            assert_eq!(v.len(), 8);
            let mut expected = Vec::new();
            for y in 0..3 {
                for x in 0..3 {
                    if (x, y) != (2, 2) {
                        expected.push((x, y));
                    }
                }
            }
            expected.sort();
            assert_eq!(sorted(v), expected);
        }
        other => panic!("unexpected outcome {:?}", other),
    }
    assert!(covered(&map, 2, 2));
    assert!(map.all_revealed());
}

#[test]
fn reveal_out_of_bounds_is_unchanged() {
    let mut map = board(3, 3, &[pos(2, 2)]);
    let before = snapshot(&map);
    assert_eq!(reveal_tile(&mut map, pos(3, 0)), RevealOutcome::Unchanged);
    assert_eq!(reveal_tile(&mut map, pos(0, 9)), RevealOutcome::Unchanged);
    assert_eq!(snapshot(&map), before);
}

#[test]
fn reveal_mine_is_lost() {
    let mut map = board(3, 3, &[pos(2, 2), pos(0, 0)]);
    let before = snapshot(&map);
    assert_eq!(reveal_tile(&mut map, pos(2, 2)), RevealOutcome::Lost(pos(2, 2)));
    assert!(!covered(&map, 2, 2));
    let after = snapshot(&map);
    for i in 0..9 {
        if i != 8 {
            assert_eq!(after[i], before[i]);
        }
    }
}

#[test]
fn reveal_number_uncovers_only_itself() {
    let mut map = board(3, 3, &[pos(2, 2)]);
    assert_eq!(reveal_tile(&mut map, pos(1, 1)), RevealOutcome::Revealed(vec![pos(1, 1)]));
    assert!(covered(&map, 0, 0));
}

#[test]
fn reveal_stops_at_numbers() {
    // mines in the right column: the left column is empty, the middle numbered
    let mut map = board(3, 3, &[pos(2, 0), pos(2, 1), pos(2, 2)]);
    match reveal_tile(&mut map, pos(0, 1)) {
        RevealOutcome::Revealed(v) => {
            assert_eq!(sorted(v), vec![(0, 0), (0, 1), (0, 2), (1, 0), (1, 1), (1, 2)]);
        }
        other => panic!("unexpected outcome {:?}", other),
    }
    for y in 0..3 {
        assert!(covered(&map, 2, y));
    }
    assert!(map.all_revealed());
}

#[test]
fn flag_blocks_reveal() {
    let mut map = board(3, 3, &[pos(2, 2)]);
    assert_eq!(toggle_flag(&mut map, pos(0, 0)), FlagOutcome::Flagged(pos(0, 0)));
    let before = snapshot(&map);
    assert_eq!(reveal_tile(&mut map, pos(0, 0)), RevealOutcome::Unchanged);
    assert_eq!(snapshot(&map), before);
}

#[test]
fn cascade_skips_flagged_cells() {
    let mut map = board(3, 3, &[pos(2, 2)]);
    toggle_flag(&mut map, pos(0, 2));
    match reveal_tile(&mut map, pos(0, 0)) {
        RevealOutcome::Revealed(v) => {
            assert_eq!(v.len(), 7);
            assert!(!v.contains(&pos(0, 2)));
        }
        other => panic!("unexpected outcome {:?}", other),
    }
    let t = map.get_tile(pos(0, 2)).unwrap();
    assert!(t.covered && t.flagged);
}

#[test]
fn reveal_on_uncovered_empty_is_unchanged() {
    let mut map = board(3, 3, &[pos(2, 2)]);
    reveal_tile(&mut map, pos(0, 0));
    assert_eq!(reveal_tile(&mut map, pos(0, 0)), RevealOutcome::Unchanged);
}

#[test]
fn chord_with_matching_flags_reveals_neighbours() {
    // mine at (0,0); (1,1) shows 1; flag the mine and chord on (1,1)
    let mut map = board(4, 4, &[pos(0, 0)]);
    assert_eq!(reveal_tile(&mut map, pos(1, 1)), RevealOutcome::Revealed(vec![pos(1, 1)]));
    toggle_flag(&mut map, pos(0, 0));
    match reveal_tile(&mut map, pos(1, 1)) {
        RevealOutcome::Revealed(v) => {
            // every other cell opens: (2,2) is empty and spreads
            assert_eq!(v.len(), 14);
            assert!(!v.contains(&pos(0, 0)));
        }
        other => panic!("unexpected outcome {:?}", other),
    }
    assert!(map.all_revealed());
}

#[test]
fn chord_with_too_few_flags_is_unchanged() {
    let mut map = board(4, 4, &[pos(0, 0), pos(2, 0)]);
    reveal_tile(&mut map, pos(1, 1));
    assert_eq!(map.get_tile(pos(1, 1)).unwrap().tile_type, TileType::Number(2));
    toggle_flag(&mut map, pos(0, 0));
    let before = snapshot(&map);
    assert_eq!(reveal_tile(&mut map, pos(1, 1)), RevealOutcome::Unchanged);
    assert_eq!(snapshot(&map), before);
}

#[test]
fn chord_with_wrong_flag_hits_mine() {
    let mut map = board(3, 3, &[pos(0, 0)]);
    reveal_tile(&mut map, pos(1, 1));
    toggle_flag(&mut map, pos(2, 2));
    assert_eq!(reveal_tile(&mut map, pos(1, 1)), RevealOutcome::Lost(pos(0, 0)));
}

#[test]
fn flag_on_uncovered_is_unchanged() {
    let mut map = board(3, 3, &[pos(2, 2)]);
    reveal_tile(&mut map, pos(1, 1));
    assert_eq!(toggle_flag(&mut map, pos(1, 1)), FlagOutcome::Unchanged);
    assert!(!map.get_tile(pos(1, 1)).unwrap().flagged);
    assert_eq!(toggle_flag(&mut map, pos(5, 1)), FlagOutcome::Unchanged);
}

#[test]
fn flag_toggle_twice_restores() {
    let mut map = board(3, 3, &[pos(2, 2)]);
    let before = snapshot(&map);
    assert_eq!(toggle_flag(&mut map, pos(2, 2)), FlagOutcome::Flagged(pos(2, 2)));
    assert!(map.get_tile(pos(2, 2)).unwrap().flagged);
    assert_eq!(toggle_flag(&mut map, pos(2, 2)), FlagOutcome::Unflagged(pos(2, 2)));
    assert_eq!(snapshot(&map), before);
}

#[test]
fn all_revealed_false_while_safe_cell_covered() {
    let mut map = board(2, 2, &[pos(0, 0)]);
    reveal_tile(&mut map, pos(1, 0));
    reveal_tile(&mut map, pos(0, 1));
    assert!(!map.all_revealed());
    reveal_tile(&mut map, pos(1, 1));
    assert!(map.all_revealed());
}

#[test]
fn cascade_through_safe_start_cell() {
    let mut map = board(4, 1, &[pos(3, 0)]);
    let p = map.safe_start().unwrap();
    assert!(p == pos(0, 0) || p == pos(1, 0));
    // the opened cell did not spread
    let open: usize = (0..4).filter(|&x| !covered(&map, x, 0)).count();
    assert_eq!(open, 1);
    let other = if p == pos(0, 0) { pos(1, 0) } else { pos(0, 0) };
    match reveal_tile(&mut map, other) {
        RevealOutcome::Revealed(v) => {
            assert_eq!(sorted(v), vec![(other.x, 0), (2, 0)]);
        }
        o => panic!("unexpected outcome {:?}", o),
    }
    assert!(map.all_revealed());
}
