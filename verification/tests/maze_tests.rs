use maze::grid::{Maze, Pos, Spot};

/// The 10x10 snake-like fixture grid: corridors wind from the top-left to
/// the bottom-right corner.
fn snake_maze() -> Maze {
    let w = Spot::Wall;
    let e = Spot::Empty;
    let mut m = Maze::new(10);
    m.cells = vec![
        e, e, e, e, e, e, e, e, e, e,
        w, w, e, w, w, w, w, w, w, e,
        e, e, e, w, w, w, w, e, e, e,
        e, w, e, e, w, w, w, e, w, w,
        e, w, w, e, e, e, w, e, e, e,
        e, w, w, e, w, e, w, w, w, e,
        e, w, w, e, w, e, w, e, e, e,
        e, w, w, e, e, e, w, e, w, w,
        e, e, e, e, w, e, w, e, e, e,
        w, w, w, w, w, e, e, e, e, e,
    ];
    m
}

#[test]
fn new_grid_is_all_open() {
    let m = Maze::new(4);
    assert_eq!(m.size, 4);
    assert_eq!(m.cells.len(), 16);
    assert!(m.cells.iter().all(|c| *c == Spot::Empty));
    assert_eq!(m.target, Pos::new(3, 3));
}

#[test]
fn lookups_read_row_major_cells() {
    let mut m = Maze::new(3);
    m.cells[5] = Spot::Wall; // the cell at (2, 1)
    assert_eq!(m.get(2, 1), Spot::Wall);
    assert_eq!(m.get(1, 2), Spot::Empty);
    assert!(!m.open(&Pos::new(2, 1)));
    assert!(m.open(&Pos::new(0, 0)));
    assert_eq!(m.target, Pos::new(2, 2));
}

#[test]
fn neighbors_follow_generation_order() {
    let m = Maze::new(3);
    let middle = Pos::new(1, 1);
    assert_eq!(
        middle.next(&m),
        vec![Pos::new(0, 1), Pos::new(2, 1), Pos::new(1, 0), Pos::new(1, 2)]
    );
    let corner = Pos::new(0, 0);
    assert_eq!(corner.next(&m), vec![Pos::new(1, 0), Pos::new(0, 1)]);
}

#[test]
fn neighbors_skip_walls() {
    let mut m = Maze::new(3);
    m.cells[1] = Spot::Wall; // the cell at (1, 0)
    let corner = Pos::new(0, 0);
    assert_eq!(corner.next(&m), vec![Pos::new(0, 1)]);
}

#[test]
fn start_equals_target_is_single_step() {
    let mut m = Maze::new(3);
    for i in 0..8 {
        m.cells[i] = Spot::Wall;
    }
    let path = m.solve(Pos::new(2, 2)).expect("the trivial route exists");
    assert_eq!(path, vec![Pos::new(2, 2)]);
}

#[test]
fn start_equals_target_on_single_wall_cell() {
    let mut m = Maze::new(1);
    m.cells[0] = Spot::Wall;
    let path = m.solve(Pos::new(0, 0)).expect("the trivial route exists");
    assert_eq!(path, vec![Pos::new(0, 0)]);
}

#[test]
fn walled_grid_is_unsolvable() {
    let mut m = Maze::new(3);
    for i in 0..9 {
        m.cells[i] = Spot::Wall;
    }
    m.cells[0] = Spot::Empty; // the start cell
    assert_eq!(m.solve(Pos::new(0, 0)), None);
}

#[test]
fn walled_target_is_unsolvable() {
    let mut m = Maze::new(2);
    m.cells[3] = Spot::Wall; // the target cell itself
    assert_eq!(m.solve(Pos::new(0, 0)), None);
}

#[test]
fn open_grid_takes_first_shortest_path() {
    let m = Maze::new(2);
    let path = m.solve(Pos::new(0, 0)).expect("the open grid is solvable");
    assert_eq!(path, vec![Pos::new(0, 0), Pos::new(1, 0), Pos::new(1, 1)]);
}

#[test]
fn start_cell_state_is_not_inspected() {
    let mut m = Maze::new(2);
    m.cells[0] = Spot::Wall; // the start cell itself is never looked up
    let path = m.solve(Pos::new(0, 0)).expect("the route past the start exists");
    assert_eq!(path, vec![Pos::new(0, 0), Pos::new(1, 0), Pos::new(1, 1)]);
}

#[test]
fn solves_snake_fixture() {
    let m = snake_maze();
    let path = m.solve(Pos::new(0, 0)).expect("the fixture is solvable");
    assert_eq!(path.len(), 19);
    assert_eq!(path[0], Pos::new(0, 0));
    assert_eq!(path[18], Pos::new(9, 9));
    for i in 0..path.len() - 1 {
        let a = path[i];
        let b = path[i + 1];
        assert_eq!((a.x - b.x).abs() + (a.y - b.y).abs(), 1);
    }
    for i in 0..path.len() {
        for j in 0..i {
            assert_ne!(path[i], path[j]);
        }
        assert_eq!(m.get(path[i].x, path[i].y), Spot::Empty);
    }
}

#[test]
fn renders_snake_path_without_gaps() {
    let m = snake_maze();
    let path = m.solve(Pos::new(0, 0)).expect("the fixture is solvable");
    let s: Vec<char> = m.render(&path).chars().collect();
    assert_eq!(s.len(), 10 * 21);
    for y in 0..10i32 {
        for x in 0..10i32 {
            let c = s[(y * 21 + 1 + 2 * x) as usize];
            if path.contains(&Pos::new(x, y)) {
                assert_eq!(c, '+');
            } else if m.get(x, y) == Spot::Empty {
                assert_eq!(c, '.');
            } else {
                assert_eq!(c, '@');
            }
        }
    }
}

#[test]
fn renders_empty_path_without_path_glyph() {
    let mut m = Maze::new(2);
    m.cells[2] = Spot::Wall; // the cell at (0, 1)
    let s = m.render(&vec![]);
    assert_eq!(s, "\n. . \n@ . ");
    assert!(!s.contains('+'));
}

#[test]
fn renders_path_glyphs_exactly_on_path() {
    let m = Maze::new(2);
    let path = vec![Pos::new(0, 0), Pos::new(1, 0), Pos::new(1, 1)];
    assert_eq!(m.render(&path), "\n+ + \n. + ");
}

#[test]
fn colored_render_wraps_path_glyphs() {
    let m = Maze::new(2);
    let path = vec![Pos::new(0, 0)];
    assert_eq!(m.render_colored(&path), "\n\x1b[1;31m+\x1b[0m . \n. . ");
    assert_eq!(m.render_colored(&vec![]), m.render(&vec![]));
}
