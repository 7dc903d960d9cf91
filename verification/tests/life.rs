use artifacts::life::{Cell, Universe};

const SEEDED: [usize; 15] = [
    64 * 32 + 32,
    64 * 32 + 33,
    64 * 32 + 34,
    64 * 33 + 31,
    64 * 34 + 31,
    64 * 35 + 31,
    64 * 36 + 32,
    64 * 37 + 33,
    64 * 38 + 34,
    64 * 39 + 35,
    64 * 40 + 35,
    64 * 41 + 35,
    64 * 42 + 34,
    64 * 43 + 33,
    64 * 44 + 32,
];

fn population(cells: &[Cell]) -> usize {
    cells.iter().filter(|c| **c == Cell::Alive).count()
}

/// A plain reference generation step on a wrapping board.
fn reference_step(width: usize, height: usize, cells: &[Cell]) -> Vec<Cell> {
    let mut next = cells.to_vec();
    for row in 0..height {
        for col in 0..width {
            let mut live = 0;
            for dr in [height - 1, 0, 1] {
                for dc in [width - 1, 0, 1] {
                    if dr == 0 && dc == 0 {
                        continue;
                    }
                    let r = (row + dr) % height;
                    let c = (col + dc) % width;
                    if cells[r * width + c] == Cell::Alive {
                        live += 1;
                    }
                }
            }
            let cell = cells[row * width + col];
            next[row * width + col] = match (cell, live) {
                (Cell::Alive, 2) | (Cell::Alive, 3) => Cell::Alive,
                (Cell::Alive, _) => Cell::Dead,
                (Cell::Dead, 3) => Cell::Alive,
                (Cell::Dead, _) => Cell::Dead,
            };
        }
    }
    next
}

#[test]
fn new_board_is_64_by_64() {
    let u = Universe::new();
    assert_eq!(u.width(), 64);
    assert_eq!(u.height(), 64);
    assert_eq!(u.cells().len(), 4096);
}

#[test]
fn new_board_holds_exactly_the_seeded_cells() {
    let u = Universe::new();
    for (i, cell) in u.cells().iter().enumerate() {
        let expected = if SEEDED.contains(&i) { Cell::Alive } else { Cell::Dead };
        assert_eq!(*cell, expected, "cell {}", i);
    }
    assert_eq!(population(u.cells()), 15);
}

#[test]
fn tick_keeps_the_dimensions() {
    let mut u = Universe::new();
    u.tick();
    assert_eq!(u.width(), 64);
    assert_eq!(u.height(), 64);
    assert_eq!(u.cells().len(), 4096);
}

#[test]
fn tick_populations_of_the_first_generations() {
    let mut u = Universe::new();
    let expected = [22, 26, 37, 25, 31];
    for pop in expected {
        u.tick();
        assert_eq!(population(u.cells()), pop);
    }
}

#[test]
fn tick_matches_the_reference_rules() {
    let mut u = Universe::new();
    let mut reference = u.cells().to_vec();
    for _ in 0..40 {
        u.tick();
        reference = reference_step(64, 64, &reference);
        assert_eq!(u.cells(), &reference[..]);
    }
}

#[test]
fn first_tick_applies_the_rules_to_the_seed() {
    // Row 32 holds three live cells at columns 32, 33 and 34; the middle one
    // has exactly two live neighbours, so it survives.
    let mut u = Universe::new();
    u.tick();
    assert_eq!(u.cells()[64 * 32 + 33], Cell::Alive);
    // A far-away dead cell with no live neighbours stays dead.
    assert_eq!(u.cells()[0], Cell::Dead);
}

#[test]
fn clone_is_an_equal_board() {
    let mut u = Universe::new();
    u.tick();
    let v = u.clone();
    assert_eq!(v.width(), u.width());
    assert_eq!(v.height(), u.height());
    assert_eq!(v.cells(), u.cells());
    let mut w = v.clone();
    w.tick();
    u.tick();
    assert_eq!(w.cells(), u.cells());
}

#[test]
fn render_has_one_line_per_row() {
    let u = Universe::new();
    let text = u.render();
    let lines: Vec<&str> = text.split_terminator('\n').collect();
    assert_eq!(lines.len(), 64);
    assert!(text.ends_with('\n'));
    assert_eq!(text.chars().count(), 64 * 65);
    for (row, line) in lines.iter().enumerate() {
        let chars: Vec<char> = line.chars().collect();
        assert_eq!(chars.len(), 64);
        for (col, ch) in chars.iter().enumerate() {
            let expected = if SEEDED.contains(&(row * 64 + col)) { '\u{25FC}' } else { '\u{25FB}' };
            assert_eq!(*ch, expected);
        }
    }
}

#[test]
fn render_first_line_is_all_dead() {
    let u = Universe::new();
    let text = u.render();
    let first: String = text.chars().take(65).collect();
    let expected: String = "\u{25FB}".repeat(64) + "\n";
    assert_eq!(first, expected);
}

#[test]
fn render_after_tick_follows_the_cells() {
    let mut u = Universe::new();
    u.tick();
    let text = u.render();
    let glyphs: Vec<char> = text.chars().filter(|c| *c != '\n').collect();
    for (i, cell) in u.cells().iter().enumerate() {
        let expected = if *cell == Cell::Dead { '\u{25FB}' } else { '\u{25FC}' };
        assert_eq!(glyphs[i], expected);
    }
}

#[test]
fn fill_style_is_white_for_dead_and_black_for_alive() {
    assert_eq!(Cell::Dead.fill_style(), "#fff");
    assert_eq!(Cell::Alive.fill_style(), "#000");
}

#[test]
fn get_index_is_row_major() {
    let u = Universe::new();
    assert_eq!(u.get_index(0, 0), 0);
    assert_eq!(u.get_index(1, 0), 64);
    assert_eq!(u.get_index(32, 33), 64 * 32 + 33);
    assert_eq!(u.get_index(63, 63), 4095);
}

#[test]
fn get_index_outside_the_board() {
    let u = Universe::new();
    assert_eq!(u.get_index(64, 0), 4096);
    assert_eq!(u.get_index(0, 100), 100);
    assert_eq!(u.get_index(1000, 5), 64005);
}

#[test]
fn different_generations_render_differently() {
    let mut u = Universe::new();
    let before = u.render();
    u.tick();
    let after = u.render();
    assert_ne!(before, after);
    let copy = u.clone();
    assert_eq!(copy.render(), after);
}
