use rust_wasm::game_of_life::{CellValue, Field, ParseError};

fn field(text: &str) -> Field {
    Field::from_str(text).unwrap()
}

#[test]
fn test_string_parse() {
    let field_str = "_____
_###_
#____
____#
__#__
";
    let field = Field::from_str(field_str).unwrap();
    assert_eq!(field_str, field.to_string());
    assert_eq!(CellValue::Dead, field.get_by_coords(0, 0).unwrap());
    assert_eq!(CellValue::Alive, field.get_by_coords(1, 1).unwrap());
}

#[test]
fn test_glider() {
    let init_state = "
__#____
___#___
_###___
_______
_______
";
    let mut field = Field::from_str(init_state).unwrap();
    assert_eq!(init_state.trim(), field.to_string().trim());
    field.update();
    let expected_state = "
_______
_#_#___
__##___
__#____
_______
";
    assert_eq!(expected_state.trim(), field.to_string().trim());
    field.update();
    let expected_state = "
_______
___#___
_#_#___
__##___
_______
";
    assert_eq!(expected_state.trim(), field.to_string().trim());
    field.update();
    let expected_state = "
_______
__#____
___##__
__##___
_______
";
    assert_eq!(expected_state.trim(), field.to_string().trim());
    field.update();
    let expected_state = "
_______
___#___
____#__
__###__
_______
";
    assert_eq!(expected_state.trim(), field.to_string().trim());
}

#[test]
fn glider_keeps_previous_generation() {
    let mut f = field("__#____\n___#___\n_###___\n_______\n_______\n");
    let before = f.view().to_vec();
    assert!(f.update());
    assert_eq!(before, f.view_old().to_vec());
    assert_eq!(f.to_string(), "_______\n_#_#___\n__##___\n__#____\n_______\n");
}

#[test]
fn dead_grid_stays_dead() {
    for (w, h) in [(1usize, 1usize), (1, 5), (3, 3), (7, 2), (64, 64)] {
        let mut f = Field::new(w, h);
        assert!(!f.update());
        assert!(f.view().iter().all(|c| *c == CellValue::Dead));
        assert_eq!(f.view().len(), w * h);
        assert!(!f.update());
        assert!(f.view().iter().all(|c| *c == CellValue::Dead));
    }
}

#[test]
fn new_grid_dimensions() {
    let f = Field::new(4, 3);
    assert_eq!(f.get_width(), 4);
    assert_eq!(f.get_height(), 3);
    assert_eq!(f.view().len(), 12);
    assert_eq!(f.view_old().len(), 12);
    assert!(f.view_old().iter().all(|c| *c == CellValue::Dead));
}

#[test]
fn round_trip_normalizes_whitespace() {
    let f = field("  \n  #_#  \r\n\t_#_\n  ##_ \n\n");
    assert_eq!(f.to_string(), "#_#\n_#_\n##_\n");
    assert_eq!(f.get_width(), 3);
    assert_eq!(f.get_height(), 3);
    let again = field(&f.to_string());
    assert_eq!(again.to_string(), f.to_string());
}

#[test]
fn single_line_without_break() {
    let f = field("#_#");
    assert_eq!(f.to_string(), "#_#\n");
    assert_eq!(f.get_height(), 1);
}

#[test]
fn corner_counts_opposite_corner() {
    for n in [3usize, 4, 6] {
        let mut f = Field::new(n, n);
        f.toggle_by_coords(n - 1, n - 1).unwrap();
        assert_eq!(f.count_live_neighbours_slow(0, 0), 1);
        let mut g = Field::new(n, n);
        g.toggle_by_coords(0, 0).unwrap();
        assert_eq!(g.count_live_neighbours_slow(n - 1, n - 1), 1);
    }
}

#[test]
fn edges_wrap_around() {
    let f = field("_____\n_____\n_____\n_____\n#____\n");
    // bottom-left cell neighbours the top row and the right column
    assert_eq!(f.count_live_neighbours_slow(0, 0), 1);
    assert_eq!(f.count_live_neighbours_slow(0, 4), 1);
    assert_eq!(f.count_live_neighbours_slow(4, 4), 1);
    assert_eq!(f.count_live_neighbours_slow(3, 1), 1);
    assert_eq!(f.count_live_neighbours_slow(2, 2), 0);
}

#[test]
fn blinker_wraps_across_edge() {
    let mut f = field("____\n____\n____\n____\n###_\n");
    f.update();
    assert_eq!(f.to_string(), "_#__\n____\n____\n_#__\n_#__\n");
    f.update();
    assert_eq!(f.to_string(), "____\n____\n____\n____\n###_\n");
}

#[test]
fn step_matches_slow_count() {
    let mut f = Field::generate_by_fn(9, 7, |i| i % 2 == 0 || i % 7 == 0);
    let w = f.get_width();
    let h = f.get_height();
    let mut expected = Vec::new();
    for row in 0..h {
        for col in 0..w {
            let n = f.count_live_neighbours_slow(row, col);
            let alive = f.get_by_coords(row, col).unwrap() == CellValue::Alive;
            let next = if n == 3 || (alive && n == 2) { CellValue::Alive } else { CellValue::Dead };
            expected.push(next);
        }
    }
    let any = f.update();
    assert_eq!(f.view().to_vec(), expected);
    assert_eq!(any, expected.contains(&CellValue::Alive));
}

#[test]
fn generate_follows_predicate() {
    let f = Field::generate_by_fn(4, 2, |i| i % 3 == 0);
    assert_eq!(f.to_string(), "#__#\n__#_\n");
    assert!(f.view_old().iter().all(|c| *c == CellValue::Dead));
}

#[test]
fn out_of_range_access_is_none() {
    let mut f = field("#__\n_#_\n");
    let before = f.to_string();
    assert_eq!(f.get_by_coords(2, 0), None);
    assert_eq!(f.get_by_coords(0, 3), None);
    assert_eq!(f.get_by_coords(usize::MAX, usize::MAX), None);
    assert_eq!(f.toggle_by_coords(2, 0), None);
    assert_eq!(f.toggle_by_coords(0, 3), None);
    assert_eq!(f.set_by_coords(5, 5, CellValue::Alive), None);
    assert_eq!(f.to_string(), before);
    // a non-square grid: the last row and the last column are in range
    assert_eq!(f.get_by_coords(1, 2), Some(CellValue::Dead));
    assert_eq!(f.get_by_coords(0, 0), Some(CellValue::Alive));
}

#[test]
fn toggle_flips_one_cell() {
    let mut f = field("___\n___\n");
    assert_eq!(f.toggle_by_coords(1, 2), Some(()));
    assert_eq!(f.to_string(), "___\n__#\n");
    assert_eq!(f.toggle_by_coords(1, 2), Some(()));
    assert_eq!(f.to_string(), "___\n___\n");
    assert_eq!(f.set_by_coords(0, 1, CellValue::Alive), Some(()));
    assert_eq!(f.to_string(), "_#_\n___\n");
}

#[test]
fn parse_empty_input() {
    assert_eq!(Field::from_str("").err(), Some(ParseError::EmptyInput));
    assert_eq!(Field::from_str("   \n\t \r\n ").err(), Some(ParseError::EmptyInput));
}

#[test]
fn parse_invalid_character() {
    assert_eq!(Field::from_str("#_\n#x\n").err(), Some(ParseError::InvalidCharacter));
    assert_eq!(Field::from_str("#_.").err(), Some(ParseError::InvalidCharacter));
    assert_eq!(Field::from_str("# _\n___").err(), Some(ParseError::InvalidCharacter));
}

#[test]
fn parse_inconsistent_row_width() {
    assert_eq!(Field::from_str("#_\n#__\n").err(), Some(ParseError::InconsistentRowWidth));
    assert_eq!(Field::from_str("#__\n#_\n").err(), Some(ParseError::InconsistentRowWidth));
    assert_eq!(Field::from_str("#_\n\n#_\n").err(), Some(ParseError::InconsistentRowWidth));
}

#[test]
fn parse_first_bad_line_decides() {
    assert_eq!(Field::from_str("##\n#\n#x\n").err(), Some(ParseError::InconsistentRowWidth));
    assert_eq!(Field::from_str("##\nx#\n#\n").err(), Some(ParseError::InvalidCharacter));
}

#[test]
fn rows_split_current_generation() {
    let f = field("#__\n_#_\n__#\n_##\n");
    let rows = f.rows();
    assert_eq!(rows.len(), 4);
    assert_eq!(rows[0], &[CellValue::Alive, CellValue::Dead, CellValue::Dead][..]);
    assert_eq!(rows[3], &[CellValue::Dead, CellValue::Alive, CellValue::Alive][..]);
}

#[test]
fn rows_with_old_pairs_generations() {
    let mut f = field("____\n_##_\n_##_\n____\n");
    let mut g = field("____\n_##_\n_##_\n____\n");
    g.toggle_by_coords(0, 0).unwrap();
    g.update();
    let pairs = g.rows_with_old();
    assert_eq!(pairs.len(), 4);
    assert_eq!(pairs[0].1[0], CellValue::Alive);
    assert_eq!(pairs[0].0[0], CellValue::Dead);
    f.update();
    for (current, previous) in f.rows_with_old() {
        assert_eq!(current, previous);
    }
}

#[test]
fn cell_value_helpers() {
    assert_eq!(CellValue::Dead.other(), CellValue::Alive);
    assert_eq!(CellValue::Alive.other(), CellValue::Dead);
    assert_eq!(CellValue::Alive.alive_count(), 1);
    assert_eq!(CellValue::Dead.alive_count(), 0);
}

#[test]
fn redraw_changed_cells_only() {
    let mut f = field("_____\n_____\n_###_\n_____\n_____\n");
    f.update();
    // the blinker turns from a row into a column
    assert_eq!(f.to_string(), "_____\n__#__\n__#__\n__#__\n_____\n");
    assert_eq!(f.cells_to_redraw(CellValue::Alive, false), vec![7, 17]);
    assert_eq!(f.cells_to_redraw(CellValue::Dead, false), vec![11, 13]);
    assert_eq!(f.cells_to_redraw(CellValue::Alive, true), vec![7, 12, 17]);
    let dead: Vec<usize> = (0..25).filter(|i| ![7, 12, 17].contains(i)).collect();
    assert_eq!(f.cells_to_redraw(CellValue::Dead, true), dead);
}

#[test]
fn fast_count_wraps_like_slow_count() {
    let f = field("#___\n____\n__#_\n___#\n");
    let (w, h) = (f.get_width(), f.get_height());
    assert_eq!(f.count_live_neighbours(0, 0, h - 1, w - 1), 1);
    assert_eq!(f.count_live_neighbours(3, 3, h - 1, w - 1), 2);
    for row in 0..h {
        for col in 0..w {
            assert_eq!(
                f.count_live_neighbours(row, col, h - 1, w - 1),
                f.count_live_neighbours_slow(row, col)
            );
        }
    }
}

#[test]
fn generated_grid_has_every_cell() {
    let f = Field::generate_by_fn(5, 3, |i| i < 4);
    assert_eq!(f.view().len(), 15);
    assert_eq!(f.view_old().len(), 15);
    assert_eq!(f.to_string(), "####_\n_____\n_____\n");
}
