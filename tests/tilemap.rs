use minesweeper::{GridError, Position, Tile, TileMap, TileType};

fn pos(x: u32, y: u32) -> Position {
    Position { x, y }
}

fn fresh(w: u32, h: u32) -> TileMap {
    TileMap::empty(w, h).unwrap()
}

fn mines_near(map: &TileMap, p: Position) -> usize {
    let (w, h) = map.size();
    let mut n = 0;
    for dy in -1i64..=1 {
        for dx in -1i64..=1 {
            let x = p.x as i64 + dx;
            let y = p.y as i64 + dy;
            if (dx, dy) != (0, 0) && x >= 0 && y >= 0 && x < w as i64 && y < h as i64 {
                if map.get_tile(pos(x as u32, y as u32)).unwrap().is_bomb() {
                    n += 1;
                }
            }
        }
    }
    n
}

fn count_mines(map: &TileMap) -> usize {
    let (w, h) = map.size();
    let mut n = 0;
    for y in 0..h {
        for x in 0..w {
            if map.get_tile(pos(x, y)).unwrap().is_bomb() {
                n += 1;
            }
        }
    }
    n
}

fn assert_numbers_match(map: &TileMap) {
    let (w, h) = map.size();
    for y in 0..h {
        for x in 0..w {
            let t = map.get_tile(pos(x, y)).unwrap();
            if !t.is_bomb() {
                let n = mines_near(map, pos(x, y));
                let expected = if n == 0 { TileType::Empty } else { TileType::Number(n) };
                assert_eq!(t.tile_type, expected, "cell ({}, {})", x, y);
            }
        }
    }
}

#[test]
fn empty_rejects_zero_dimensions() {
    assert!(matches!(TileMap::empty(0, 3), Err(GridError::InvalidDimensions)));
    assert!(matches!(TileMap::empty(3, 0), Err(GridError::InvalidDimensions)));
    assert!(matches!(TileMap::empty(0, 0), Err(GridError::InvalidDimensions)));
}

#[test]
fn empty_map_is_covered_and_clear() {
    let map = fresh(4, 3);
    assert_eq!(map.size(), (4, 3));
    assert_eq!(map.cell_count(), 12);
    for y in 0..3 {
        for x in 0..4 {
            assert_eq!(
                map.get_tile(pos(x, y)),
                Some(&Tile { tile_type: TileType::Empty, covered: true, flagged: false })
            );
        }
    }
    assert_eq!(count_mines(&map), 0);
}

#[test]
fn get_tile_out_of_bounds_is_none() {
    let map = fresh(3, 3);
    assert_eq!(map.get_tile(pos(3, 0)), None);
    assert_eq!(map.get_tile(pos(0, 3)), None);
    assert_eq!(map.get_tile(pos(u32::MAX, u32::MAX)), None);
}

#[test]
fn set_bombs_rejects_too_many() {
    let mut map = fresh(2, 2);
    assert_eq!(map.set_bombs(5), Err(GridError::TooManyMines));
    assert_eq!(count_mines(&map), 0);
}

#[test]
fn set_bombs_places_exact_count_and_numbers() {
    for _ in 0..20 {
        let mut map = fresh(9, 9);
        assert_eq!(map.set_bombs(10), Ok(()));
        assert_eq!(count_mines(&map), 10);
        assert_numbers_match(&map);
    }
}

#[test]
fn set_bombs_fills_every_cell() {
    let mut map = fresh(3, 3);
    assert_eq!(map.set_bombs(9), Ok(()));
    assert_eq!(count_mines(&map), 9);
}

#[test]
fn set_bombs_zero_leaves_all_empty() {
    let mut map = fresh(5, 4);
    assert_eq!(map.set_bombs(0), Ok(()));
    assert_eq!(count_mines(&map), 0);
    assert_numbers_match(&map);
}

#[test]
fn set_bombs_placement_varies() {
    // a shuffle that left the cells in order would always mine the first row
    let mut first_row_only = 0;
    for _ in 0..30 {
        let mut map = fresh(10, 10);
        map.set_bombs(10).unwrap();
        if (0..10).all(|x| map.get_tile(pos(x, 0)).unwrap().is_bomb()) {
            first_row_only += 1;
        }
    }
    assert!(first_row_only < 30);
}

#[test]
fn place_bombs_numbers_neighbours() {
    let mut map = fresh(3, 3);
    map.place_bombs(&vec![pos(2, 2)]);
    assert!(map.get_tile(pos(2, 2)).unwrap().is_bomb());
    assert_eq!(map.get_tile(pos(0, 0)).unwrap().tile_type, TileType::Empty);
    assert_eq!(map.get_tile(pos(1, 1)).unwrap().tile_type, TileType::Number(1));
    assert_eq!(map.get_tile(pos(1, 2)).unwrap().tile_type, TileType::Number(1));
    assert_eq!(map.get_tile(pos(2, 1)).unwrap().tile_type, TileType::Number(1));
    assert_eq!(map.get_tile(pos(0, 2)).unwrap().tile_type, TileType::Empty);
    assert_eq!(map.bomb_count(pos(1, 1)), 1);
    assert_eq!(map.bomb_count(pos(0, 0)), 0);
}

#[test]
fn place_bombs_skips_duplicates_and_outside() {
    let mut map = fresh(3, 3);
    map.place_bombs(&vec![pos(0, 0), pos(0, 0), pos(5, 5), pos(2, 0)]);
    assert_eq!(count_mines(&map), 2);
    assert_eq!(map.get_tile(pos(1, 0)).unwrap().tile_type, TileType::Number(2));
    assert_eq!(map.get_tile(pos(1, 1)).unwrap().tile_type, TileType::Number(2));
    assert_eq!(map.get_tile(pos(0, 2)).unwrap().tile_type, TileType::Empty);
    assert_numbers_match(&map);
}

#[test]
fn eight_mines_around_centre() {
    let mut map = fresh(3, 3);
    let mut ring = Vec::new();
    for y in 0..3 {
        for x in 0..3 {
            if (x, y) != (1, 1) {
                ring.push(pos(x, y));
            }
        }
    }
    map.place_bombs(&ring);
    assert_eq!(map.get_tile(pos(1, 1)).unwrap().tile_type, TileType::Number(8));
    assert_eq!(map.bomb_count(pos(1, 1)), 8);
}

#[test]
fn neighbors_by_location() {
    let map = fresh(4, 3);
    let corner = map.get_neighbors(pos(0, 0));
    assert_eq!(corner, vec![pos(1, 0), pos(0, 1), pos(1, 1)]);
    assert_eq!(map.get_neighbors(pos(3, 2)).len(), 3);
    let edge = map.get_neighbors(pos(1, 0));
    assert_eq!(edge.len(), 5);
    let inside = map.get_neighbors(pos(1, 1));
    assert_eq!(inside.len(), 8);
    for p in [pos(0, 0), pos(1, 0), pos(1, 1), pos(3, 2), pos(3, 1)] {
        let n = map.get_neighbors(p);
        assert!(n.len() >= 3 && n.len() <= 8);
        assert!(!n.contains(&p));
        for q in &n {
            assert!(q.x < 4 && q.y < 3);
            assert!((q.x as i64 - p.x as i64).abs() <= 1 && (q.y as i64 - p.y as i64).abs() <= 1);
        }
    }
}

#[test]
fn neighbors_on_single_cell_grid() {
    let map = fresh(1, 1);
    assert!(map.get_neighbors(pos(0, 0)).is_empty());
    let line = fresh(3, 1);
    assert_eq!(line.get_neighbors(pos(1, 0)), vec![pos(0, 0), pos(2, 0)]);
}

#[test]
fn all_revealed_tracks_non_mine_cells() {
    let mut map = fresh(2, 2);
    map.place_bombs(&vec![pos(1, 1)]);
    assert!(!map.all_revealed());
    map.uncover(pos(0, 0));
    map.uncover(pos(1, 0));
    assert!(!map.all_revealed());
    map.uncover(pos(0, 1));
    assert!(map.all_revealed());
}

#[test]
fn all_revealed_on_all_mines() {
    let mut map = fresh(2, 1);
    map.place_bombs(&vec![pos(0, 0), pos(1, 0)]);
    assert!(map.all_revealed());
}

#[test]
fn find_empty_tile_picks_covered_empty() {
    let mut map = fresh(3, 3);
    map.place_bombs(&vec![pos(2, 2)]);
    for _ in 0..20 {
        let p = map.find_empty_tile().unwrap();
        let t = map.get_tile(p).unwrap();
        assert_eq!(t.tile_type, TileType::Empty);
        assert!(t.covered);
    }
    let candidates = map.empty_tiles();
    assert_eq!(candidates.len(), 5);
}

#[test]
fn find_empty_tile_none_when_no_empty() {
    let mut map = fresh(2, 2);
    map.place_bombs(&vec![pos(0, 0)]);
    assert_eq!(map.find_empty_tile(), None);
    assert!(map.empty_tiles().is_empty());
}

#[test]
fn safe_start_opens_one_empty_tile() {
    let mut map = fresh(3, 3);
    map.place_bombs(&vec![pos(2, 2)]);
    let p = map.safe_start().unwrap();
    let t = map.get_tile(p).unwrap();
    assert_eq!(t.tile_type, TileType::Empty);
    assert!(!t.covered);
    let mut open = 0;
    for y in 0..3 {
        for x in 0..3 {
            if !map.get_tile(pos(x, y)).unwrap().covered {
                open += 1;
            }
        }
    }
    assert_eq!(open, 1);
}

#[test]
fn safe_start_without_candidates_changes_nothing() {
    let mut map = fresh(1, 2);
    map.place_bombs(&vec![pos(0, 0)]);
    assert_eq!(map.safe_start(), None);
    assert!(map.get_tile(pos(0, 1)).unwrap().covered);
}

#[test]
fn uncover_bombs_shows_every_mine() {
    let mut map = fresh(3, 2);
    map.place_bombs(&vec![pos(0, 0), pos(2, 1)]);
    map.set_flag(pos(0, 0), true);
    map.uncover_bombs();
    let a = map.get_tile(pos(0, 0)).unwrap();
    assert!(!a.covered && !a.flagged);
    assert!(!map.get_tile(pos(2, 1)).unwrap().covered);
    assert!(map.get_tile(pos(1, 0)).unwrap().covered);
}

#[test]
fn uncover_skips_flagged_and_outside() {
    let mut map = fresh(2, 2);
    map.set_flag(pos(0, 0), true);
    map.uncover(pos(0, 0));
    assert!(map.get_tile(pos(0, 0)).unwrap().covered);
    map.uncover(pos(7, 7));
    map.uncover(pos(1, 1));
    assert!(!map.get_tile(pos(1, 1)).unwrap().covered);
    map.set_flag(pos(1, 1), true);
    assert!(!map.get_tile(pos(1, 1)).unwrap().flagged);
}

#[test]
fn flag_count_counts_flagged_neighbours() {
    let mut map = fresh(3, 3);
    map.set_flag(pos(0, 0), true);
    map.set_flag(pos(2, 2), true);
    assert_eq!(map.flag_count(pos(1, 1)), 2);
    assert_eq!(map.flag_count(pos(0, 0)), 0);
    assert_eq!(map.flag_count(pos(0, 1)), 1);
}

#[test]
fn tile_type_is_bomb() {
    assert!(TileType::Bomb.is_bomb());
    assert!(!TileType::Empty.is_bomb());
    assert!(!TileType::Number(3).is_bomb());
    let t = Tile { tile_type: TileType::Bomb, covered: true, flagged: false };
    assert!(t.is_bomb());
}
