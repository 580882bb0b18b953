use minesweeper::commands::CommandResult;
use minesweeper::field::{Field, TileStatus};

fn statuses(field: &Field) -> Vec<Vec<TileStatus>> {
    let mut all = Vec::new();
    for y in 0..field.rows() {
        let mut row = Vec::new();
        for x in 0..field.columns() {
            row.push(field.status_of(y, x).unwrap());
        }
        all.push(row);
    }
    all
}

#[test]
fn new_board_mine_density() {
    let field = Field::new(5, 20);
    assert_eq!(field.rows(), 5);
    assert_eq!(field.columns(), 20);
    let mut mines = 0;
    for y in 0..5 {
        for x in 0..20 {
            assert_eq!(field.status_of(y, x), Some(TileStatus::Unknown));
            if field.is_mined(y, x).unwrap() {
                mines += 1;
            }
        }
    }
    // 100 cells: the drawn count lies in [100/6, 100/4).
    assert!((16..25).contains(&mines), "mine count {mines} out of range");
}

#[test]
fn mines_fixed_by_construction() {
    let mines = vec![(0usize, 0usize), (2, 3)];
    let mut field = Field::with_mines(3, 4, &mines);
    for y in 0..3 {
        for x in 0..4 {
            let expect = (y, x) == (0, 0) || (y, x) == (2, 3);
            assert_eq!(field.is_mined(y, x), Some(expect));
        }
    }
    field.dig_tile(1, 0);
    field.flag_tile(2, 0);
    field.dig_tile(0, 0);
    field.reveal_all();
    for y in 0..3 {
        for x in 0..4 {
            let expect = (y, x) == (0, 0) || (y, x) == (2, 3);
            assert_eq!(field.is_mined(y, x), Some(expect));
        }
    }
}

#[test]
fn out_of_bounds_dig_changes_nothing() {
    let mines = vec![(4usize, 19usize)];
    let mut field = Field::with_mines(5, 20, &mines);
    let before = statuses(&field);
    // "dig z99" on a 5 by 20 board.
    assert_eq!(field.dig_tile(25, 98), CommandResult::OutOfBounds);
    assert_eq!(statuses(&field), before);
}

#[test]
fn chain_reveal_opens_zero_region() {
    let mines = vec![(4usize, 19usize)];
    let mut field = Field::with_mines(5, 20, &mines);
    // "dig a1": no mine at (0, 0) and no mined neighbor.
    assert_eq!(field.dig_tile(0, 0), CommandResult::Revealed);
    for y in 0..5 {
        for x in 0..20 {
            let expected = if (y, x) == (4, 19) {
                TileStatus::Unknown
            } else if (y, x) == (3, 18) || (y, x) == (3, 19) || (y, x) == (4, 18) {
                TileStatus::Open(1)
            } else {
                TileStatus::Open(0)
            };
            assert_eq!(field.status_of(y, x), Some(expected), "cell ({y}, {x})");
        }
    }
}

#[test]
fn dig_is_idempotent_on_open_cells() {
    let mines = vec![(4usize, 19usize)];
    let mut field = Field::with_mines(5, 20, &mines);
    assert_eq!(field.dig_tile(0, 0), CommandResult::Revealed);
    let before = statuses(&field);
    assert_eq!(field.dig_tile(0, 0), CommandResult::AlreadyOpen);
    assert_eq!(field.dig_tile(2, 5), CommandResult::AlreadyOpen);
    assert_eq!(statuses(&field), before);
}

#[test]
fn flag_blocks_digging() {
    let mines = vec![(4usize, 19usize)];
    let mut field = Field::with_mines(5, 20, &mines);
    field.flag_tile(0, 0);
    assert_eq!(field.status_of(0, 0), Some(TileStatus::Flagged));
    let before = statuses(&field);
    assert_eq!(field.dig_tile(0, 0), CommandResult::AlreadyFlagged);
    assert_eq!(statuses(&field), before);
    assert_eq!(field.status_of(0, 0), Some(TileStatus::Flagged));
}

#[test]
fn unflag_allows_digging_again() {
    let mines = vec![(4usize, 19usize)];
    let mut field = Field::with_mines(5, 20, &mines);
    field.flag_tile(0, 0);
    assert_eq!(field.dig_tile(0, 0), CommandResult::AlreadyFlagged);
    field.unflag_tile(0, 0);
    assert_eq!(field.status_of(0, 0), Some(TileStatus::Unknown));
    assert_eq!(field.dig_tile(0, 0), CommandResult::Revealed);
}

#[test]
fn mine_explodes_exactly_once() {
    let mines = vec![(0usize, 0usize)];
    let mut field = Field::with_mines(2, 2, &mines);
    assert_eq!(field.dig_tile(0, 0), CommandResult::Boom);
    assert_eq!(field.status_of(0, 0), Some(TileStatus::Exploded));
    let before = statuses(&field);
    assert_eq!(field.dig_tile(0, 0), CommandResult::Boom);
    assert_eq!(statuses(&field), before);
    assert_eq!(field.status_of(0, 0), Some(TileStatus::Exploded));
}

#[test]
fn flood_fill_stops_at_counted_boundary() {
    // A lone mine in a corner: the flood opens the cells that count it as
    // sinks, never explodes it, and leaves the mine itself hidden.
    let mines = vec![(0usize, 0usize)];
    let mut field = Field::with_mines(3, 3, &mines);
    assert_eq!(field.dig_tile(2, 2), CommandResult::Revealed);
    assert_eq!(field.status_of(0, 0), Some(TileStatus::Unknown));
    assert_eq!(field.status_of(0, 1), Some(TileStatus::Open(1)));
    assert_eq!(field.status_of(1, 0), Some(TileStatus::Open(1)));
    assert_eq!(field.status_of(1, 1), Some(TileStatus::Open(1)));
    assert_eq!(field.status_of(0, 2), Some(TileStatus::Open(0)));
    assert_eq!(field.status_of(1, 2), Some(TileStatus::Open(0)));
    assert_eq!(field.status_of(2, 0), Some(TileStatus::Open(0)));
    assert_eq!(field.status_of(2, 1), Some(TileStatus::Open(0)));
    assert_eq!(field.status_of(2, 2), Some(TileStatus::Open(0)));
}

#[test]
fn neighbour_coordinates() {
    let field = Field::with_mines(3, 3, &Vec::new());
    let mut corner = field.get_neigbours_coords(0, 0);
    corner.sort();
    assert_eq!(corner, vec![(0, 1), (1, 0), (1, 1)]);
    let mut centre = field.get_neigbours_coords(1, 1);
    centre.sort();
    assert_eq!(
        centre,
        vec![
            (0, 0),
            (0, 1),
            (0, 2),
            (1, 0),
            (1, 2),
            (2, 0),
            (2, 1),
            (2, 2)
        ]
    );
}

#[test]
fn duplicate_mine_entries_place_one_mine() {
    let mines = vec![(1usize, 1usize), (1, 1)];
    let field = Field::with_mines(2, 2, &mines);
    assert_eq!(field.is_mined(1, 1), Some(true));
    assert_eq!(field.is_mined(0, 0), Some(false));
    assert_eq!(field.is_mined(0, 1), Some(false));
    assert_eq!(field.is_mined(1, 0), Some(false));
}

#[test]
fn reveal_all_discloses_everything() {
    let mines = vec![(0usize, 0usize)];
    let mut field = Field::with_mines(2, 2, &mines);
    field.reveal_all();
    assert_eq!(field.status_of(0, 0), Some(TileStatus::Flagged));
    assert_eq!(field.status_of(0, 1), Some(TileStatus::Open(1)));
    assert_eq!(field.status_of(1, 0), Some(TileStatus::Open(1)));
    assert_eq!(field.status_of(1, 1), Some(TileStatus::Open(1)));
}

#[test]
fn render_small_board() {
    let mines = vec![(0usize, 0usize)];
    let mut field = Field::with_mines(2, 3, &mines);
    field.reveal_all();
    assert_eq!(field.render(), "  1 2 3 \na X|1| \n  -+-+-\nb 1|1| ");
}

#[test]
fn render_wide_board_has_tens_row() {
    let field = Field::with_mines(1, 12, &Vec::new());
    assert_eq!(
        field.render(),
        "  0 0 0 0 0 0 0 0 0 1 1 1 \n  1 2 3 4 5 6 7 8 9 0 1 2 \na ?|?|?|?|?|?|?|?|?|?|?|?"
    );
}
