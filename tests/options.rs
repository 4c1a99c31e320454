use minesweeper::{GameOptions, GridError, Position, Preset, TileType};

#[test]
fn presets_in_order() {
    assert_eq!(Preset::values(), vec![Preset::Beginner, Preset::Intermediate, Preset::Expert]);
}

#[test]
fn preset_sizes_and_mines() {
    assert_eq!(Preset::Beginner.size(), (9, 9));
    assert_eq!(Preset::Beginner.bomb_count(), 10);
    assert_eq!(Preset::Intermediate.size(), (16, 16));
    assert_eq!(Preset::Intermediate.bomb_count(), 40);
    assert_eq!(Preset::Expert.size(), (30, 16));
    assert_eq!(Preset::Expert.bomb_count(), 99);
}

#[test]
fn default_options_are_beginner_with_safe_start() {
    let o = GameOptions::default();
    assert_eq!(o, GameOptions { columns: 9, rows: 9, bomb_count: 10, safe_start: true });
}

#[test]
fn apply_preset_keeps_safe_start() {
    let mut o = GameOptions { columns: 3, rows: 4, bomb_count: 1, safe_start: false };
    o.apply_preset(Preset::Expert);
    assert_eq!(o, GameOptions { columns: 30, rows: 16, bomb_count: 99, safe_start: false });
}

#[test]
fn option_steps_saturate() {
    let mut o = GameOptions { columns: 0, rows: u32::MAX, bomb_count: 5, safe_start: true };
    o.change_columns(false);
    assert_eq!(o.columns, 0);
    o.change_columns(true);
    assert_eq!(o.columns, 1);
    o.change_rows(true);
    assert_eq!(o.rows, u32::MAX);
    o.change_rows(false);
    assert_eq!(o.rows, u32::MAX - 1);
    o.change_bomb_count(true);
    assert_eq!(o.bomb_count, 6);
    o.change_bomb_count(false);
    o.change_bomb_count(false);
    assert_eq!(o.bomb_count, 4);
    o.toggle_safe_start();
    assert!(!o.safe_start);
    o.toggle_safe_start();
    assert!(o.safe_start);
}

#[test]
fn start_board_errors() {
    let o = GameOptions { columns: 0, rows: 4, bomb_count: 0, safe_start: true };
    assert!(matches!(o.start_board(), Err(GridError::InvalidDimensions)));
    let o = GameOptions { columns: 2, rows: 2, bomb_count: 5, safe_start: true };
    assert!(matches!(o.start_board(), Err(GridError::TooManyMines)));
}

#[test]
fn start_board_with_safe_start_opens_one_empty_tile() {
    for _ in 0..20 {
        let o = GameOptions::default();
        let map = o.start_board().unwrap();
        assert_eq!(map.size(), (9, 9));
        let mut mines = 0;
        let mut open = Vec::new();
        for y in 0..9 {
            for x in 0..9 {
                let t = map.get_tile(Position { x, y }).unwrap();
                if t.is_bomb() {
                    mines += 1;
                }
                if !t.covered {
                    open.push(t);
                }
                assert!(!t.flagged);
            }
        }
        assert_eq!(mines, 10);
        assert_eq!(open.len(), 1);
        assert_eq!(open[0].tile_type, TileType::Empty);
    }
}

#[test]
fn start_board_without_safe_start_is_all_covered() {
    let o = GameOptions { columns: 5, rows: 3, bomb_count: 4, safe_start: false };
    let map = o.start_board().unwrap();
    assert!(map.iter().all(|t| t.covered && !t.flagged));
    assert_eq!(map.iter().filter(|t| t.is_bomb()).count(), 4);
}

#[test]
fn iter_walks_rows() {
    let o = GameOptions { columns: 3, rows: 2, bomb_count: 0, safe_start: false };
    let map = o.start_board().unwrap();
    assert_eq!(map.iter().count(), 6);
}
