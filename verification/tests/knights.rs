use knights_tour::knights::Board;
use knights_tour::knights::Point;
use knights_tour::knights::knights_tour;
use knights_tour::knights::move_offset;

/// Checks that a solved board is a complete tour: every step number 1..n*n
/// exactly once, and consecutive steps one knight move apart.
fn assert_complete_tour(b: &Board, n: usize) {
    assert_eq!(b.dimension(), n);
    let nn = (n * n) as i32;
    let mut seen = vec![false; n * n + 1];
    let mut pos = vec![(0usize, 0usize); n * n + 1];
    for x in 0..n {
        for y in 0..n {
            let v = b.at(x, y);
            assert!(1 <= v && v <= nn, "cell ({x}, {y}) holds {v}");
            assert!(!seen[v as usize], "step {v} appears twice");
            seen[v as usize] = true;
            pos[v as usize] = (x, y);
        }
    }
    for v in 1..=(n * n) {
        assert!(seen[v], "step {v} missing");
    }
    for v in 1..(n * n) {
        let (x1, y1) = pos[v];
        let (x2, y2) = pos[v + 1];
        let dx = x2 as i32 - x1 as i32;
        let dy = y2 as i32 - y1 as i32;
        let mut adjacent = false;
        for k in 0..8 {
            let d = move_offset(k);
            if d.0 == dx && d.1 == dy {
                adjacent = true;
            }
        }
        assert!(adjacent, "steps {v} and {} are not a knight move apart", v + 1);
    }
}

fn grids_equal(a: &Board, b: &Board) -> bool {
    let n = a.dimension();
    if b.dimension() != n {
        return false;
    }
    for x in 0..n {
        for y in 0..n {
            if a.at(x, y) != b.at(x, y) {
                return false;
            }
        }
    }
    true
}

#[test]
fn availability_boundary() {
    let b = Board::new(8);
    assert!(!b.available(Point { x: -1, y: 3 }));
    assert!(!b.available(Point { x: 8, y: 0 }));
    assert!(!b.available(Point { x: 0, y: -2 }));
    assert!(!b.available(Point { x: 3, y: 8 }));
    assert!(!b.available(Point { x: 100, y: 100 }));
    assert!(b.available(Point { x: 0, y: 0 }));
    assert!(b.available(Point { x: 7, y: 7 }));
}

#[test]
fn availability_after_mark() {
    let mut b = Board::new(8);
    assert!(b.available(Point { x: 4, y: 4 }));
    b.mark(Point { x: 4, y: 4 }, 1);
    assert!(!b.available(Point { x: 4, y: 4 }));
    assert_eq!(b.at(4, 4), 1);
    assert!(b.available(Point { x: 4, y: 5 }));
}

#[test]
fn degree_fresh_board() {
    let b = Board::new(8);
    assert_eq!(b.count_degree(Point { x: 4, y: 4 }), 8);
    assert_eq!(b.count_degree(Point { x: 0, y: 0 }), 2);
    assert_eq!(b.count_degree(Point { x: 7, y: 7 }), 2);
    assert_eq!(b.count_degree(Point { x: 0, y: 7 }), 2);
}

#[test]
fn degree_shrinks_as_neighbors_fill() {
    let mut b = Board::new(8);
    assert_eq!(b.count_degree(Point { x: 0, y: 0 }), 2);
    b.mark(Point { x: 2, y: 1 }, 1);
    assert_eq!(b.count_degree(Point { x: 0, y: 0 }), 1);
    b.mark(Point { x: 1, y: 2 }, 2);
    assert_eq!(b.count_degree(Point { x: 0, y: 0 }), 0);
}

#[test]
fn point_mov_adds_offsets() {
    let p = Point { x: 3, y: 4 };
    let q = p.mov(&(2, -1));
    assert_eq!(q.x, 5);
    assert_eq!(q.y, 3);
    assert_eq!(p.x, 3);
}

#[test]
fn pick_move_ties_are_deterministic() {
    let b = Board::new(8);
    let first = b.pick_move(Point { x: 0, y: 0 });
    let second = b.pick_move(Point { x: 0, y: 0 });
    assert_eq!(first, second);
    // both knight moves from the corner have degree 6; the coordinate order
    // decides for (1, 2)
    assert_eq!(first, Some(Point { x: 1, y: 2 }));
}

#[test]
fn tour_from_corner_is_deterministic() {
    let r1 = knights_tour(8, 0, 0);
    let r2 = knights_tour(8, 0, 0);
    match (r1, r2) {
        (Some(b1), Some(b2)) => {
            assert!(grids_equal(&b1, &b2));
            assert_complete_tour(&b1, 8);
            assert_eq!(b1.at(0, 0), 1);
        }
        (None, None) => {}
        _ => panic!("two runs from the same start disagreed"),
    }
}

#[test]
fn tour_from_center_is_deterministic() {
    let r1 = knights_tour(8, 4, 4);
    let r2 = knights_tour(8, 4, 4);
    match (r1, r2) {
        (Some(b1), Some(b2)) => {
            assert!(grids_equal(&b1, &b2));
            assert_complete_tour(&b1, 8);
            assert_eq!(b1.at(4, 4), 1);
        }
        (None, None) => {}
        _ => panic!("two runs from the same start disagreed"),
    }
}

#[test]
fn tour_on_five_board() {
    let r1 = knights_tour(5, 0, 0);
    let r2 = knights_tour(5, 0, 0);
    match (r1, r2) {
        (Some(b1), Some(b2)) => {
            assert!(grids_equal(&b1, &b2));
            assert_complete_tour(&b1, 5);
        }
        (None, None) => {}
        _ => panic!("two runs from the same start disagreed"),
    }
}

#[test]
fn tour_every_start_terminates_with_valid_outcome() {
    for n in [5usize, 6, 8] {
        for x in 0..n {
            for y in 0..n {
                match knights_tour(n, x as i32, y as i32) {
                    Some(b) => assert_complete_tour(&b, n),
                    None => {}
                }
            }
        }
    }
}

#[test]
fn render_fresh_board() {
    let b = Board::new(2);
    assert_eq!(b.render(), "  0   0 \n  0   0 \n");
}

#[test]
fn render_marked_board() {
    let mut b = Board::new(2);
    b.mark(Point { x: 0, y: 1 }, 12);
    b.mark(Point { x: 1, y: 0 }, 345);
    assert_eq!(b.render(), "  0  12 \n345   0 \n");
}
