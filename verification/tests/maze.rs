use knights_tour::maze::Maze;

#[test]
fn init_opens_borders_and_walls_interior() {
    let m = Maze::init(7, 10);
    assert_eq!(m.width(), 10);
    assert_eq!(m.height(), 7);
    for x in 0..10 {
        assert!(!m.is_wall(x, 0));
        assert!(!m.is_wall(x, 6));
    }
    for y in 0..7 {
        assert!(!m.is_wall(0, y));
        assert!(!m.is_wall(9, y));
    }
    for x in 1..9 {
        for y in 1..6 {
            assert!(m.is_wall(x, y));
        }
    }
}

#[test]
fn init_render_shape() {
    let m = Maze::init(3, 4);
    let s = m.render();
    let lines: Vec<&str> = s.lines().collect();
    assert_eq!(lines.len(), 3);
    for line in &lines {
        assert_eq!(line.len(), 8);
    }
    assert_eq!(lines[0], "        ");
    assert_eq!(lines[1], "  [][]  ");
    assert_eq!(lines[2], "        ");
}

#[test]
fn generate_keeps_borders_open() {
    let m = Maze::generate(39, 31);
    // the two size arguments land swapped in the grid, as init receives them
    assert_eq!(m.width(), 31);
    assert_eq!(m.height(), 39);
    let w = m.width() as isize;
    let h = m.height() as isize;
    for x in 0..w {
        assert!(!m.is_wall(x, 0));
        assert!(!m.is_wall(x, h - 1));
    }
    for y in 0..h {
        assert!(!m.is_wall(0, y));
        assert!(!m.is_wall(w - 1, y));
    }
}

#[test]
fn carve_opens_start_and_leaves_no_wall_pair() {
    let mut m = Maze::init(9, 9);
    assert!(m.is_wall(2, 2));
    m.carve(2, 2);
    assert!(!m.is_wall(2, 2));
    for (dx, dy) in [(1, 0), (-1, 0), (0, 1), (0, -1)] {
        assert!(!(m.is_wall(2 + dx, 2 + dy) && m.is_wall(2 + 2 * dx, 2 + 2 * dy)));
    }
}

#[test]
fn generate_opens_start_and_entrances() {
    let m = Maze::generate(39, 31);
    // the carve start, and the two entrance cells the flat writes reach
    assert!(!m.is_wall(2, 2));
    assert!(!m.is_wall(10, 1));
    assert!(!m.is_wall(20, 37));
}

#[test]
fn generate_is_well_formed() {
    let m = Maze::generate(9, 9);
    let s = m.render();
    let lines: Vec<&str> = s.lines().collect();
    assert_eq!(lines.len(), 9);
    for line in lines {
        assert_eq!(line.len(), 18);
    }
}
