//! Maze generation: a grid of walls whose interior is carved into passages
//! by a randomized depth-first walk.
use vstd::prelude::*;
use crate::rng::random_usize;

verus! {

/// One cell of the maze grid.
pub enum Element {
    Wall,
    Passage,
}

/// Row-major position of cell (x, y) in a grid of width `w`.
pub open spec fn midx(w: int, x: int, y: int) -> int {
    y * w + x
}

/// Number of wall cells in the grid.
pub open spec fn wall_count(d: Seq<Element>) -> int
    decreases d.len(),
{
    if d.len() == 0 {
        0
    } else {
        wall_count(d.drop_last()) + if d.last() is Wall {
            1int
        } else {
            0int
        }
    }
}

proof fn lemma_wall_count_nonneg(d: Seq<Element>)
    ensures
        wall_count(d) >= 0,
    decreases d.len(),
{
    if d.len() > 0 {
        lemma_wall_count_nonneg(d.drop_last());
    }
}

proof fn lemma_wall_count_update(d: Seq<Element>, i: int, v: Element)
    requires
        0 <= i < d.len(),
    ensures
        wall_count(d.update(i, v)) == wall_count(d) - (if d[i] is Wall {
            1int
        } else {
            0int
        }) + (if v is Wall {
            1int
        } else {
            0int
        }),
    decreases d.len(),
{
    let e = d.update(i, v);
    if i == d.len() - 1 {
        assert(e.drop_last() =~= d.drop_last());
    } else {
        assert(e.drop_last() =~= d.drop_last().update(i, v));
        lemma_wall_count_update(d.drop_last(), i, v);
    }
}

proof fn lemma_cell_bound(w: int, h: int, x: int, y: int)
    requires
        0 <= x < w,
        0 <= y < h,
    ensures
        0 <= midx(w, x, y) < w * h,
{
    assert(0 <= y * w + x < w * h) by (nonlinear_arith)
        requires
            0 <= x < w,
            0 <= y < h,
    ;
}

proof fn lemma_midx_injective(w: int, x1: int, y1: int, x2: int, y2: int)
    requires
        0 <= x1 < w,
        0 <= x2 < w,
        0 <= y1,
        0 <= y2,
        midx(w, x1, y1) == midx(w, x2, y2),
    ensures
        x1 == x2 && y1 == y2,
{
    assert(x1 == x2 && y1 == y2) by (nonlinear_arith)
        requires
            0 <= x1 < w,
            0 <= x2 < w,
            0 <= y1,
            0 <= y2,
            y1 * w + x1 == y2 * w + x2,
    ;
}

proof fn lemma_pair_open_preserved(before: Maze, after: Maze, x: int, y: int, k: int)
    requires
        before.wf(),
        before.borders_open(),
        after.width_spec() == before.width_spec(),
        after.height_spec() == before.height_spec(),
        after.cells().len() == before.cells().len(),
        forall|i: int|
            0 <= i < after.cells().len() ==> after.cells()[i] == before.cells()[i] || (
            #[trigger] after.cells()[i]) is Passage,
        0 <= k < 4,
        1 <= x && x + 1 < before.width_spec(),
        1 <= y && y + 1 < before.height_spec(),
        pair_open(before.width_spec(), before.cells(), x, y, k),
    ensures
        pair_open(before.width_spec(), after.cells(), x, y, k),
{
    let w = before.width_spec();
    let h = before.height_spec();
    let nx = x + dir4(k).0;
    let ny = y + dir4(k).1;
    lemma_cell_bound(w, h, nx, ny);
    if after.cells()[midx(w, nx, ny)] is Wall {
        assert(before.cells()[midx(w, nx, ny)] is Wall);
        // a wall is never on the border, so the cell beyond it is on the grid
        assert(before.cell_is_wall(nx, ny));
        assert(1 <= nx && nx + 1 < w && 1 <= ny && ny + 1 < h);
        lemma_cell_bound(w, h, x + 2 * dir4(k).0, y + 2 * dir4(k).1);
        assert(!(before.cells()[midx(w, x + 2 * dir4(k).0, y + 2 * dir4(k).1)] is Wall));
    }
}

proof fn lemma_open_preserved(before: Maze, after: Maze, at: int)
    requires
        before.wf(),
        before.borders_open(),
        after.width_spec() == before.width_spec(),
        after.height_spec() == before.height_spec(),
        after.cells() == before.cells().update(at, Element::Passage),
        0 <= at < before.cells().len(),
    ensures
        after.borders_open(),
{
    assert forall|x: int, y: int|
        0 <= x < after.width_spec() && 0 <= y < after.height_spec() && (x == 0 || x
            == after.width_spec() - 1 || y == 0 || y == after.height_spec() - 1) implies !(
    #[trigger] after.cell_is_wall(x, y)) by {
        lemma_cell_bound(before.width_spec(), before.height_spec(), x, y);
        assert(!before.cell_is_wall(x, y));
    }
}

/// The four carving directions, in their fixed enumeration order.
pub open spec fn dir4(k: int) -> (int, int) {
    if k == 0 {
        (1, 0)
    } else if k == 1 {
        (-1, 0)
    } else if k == 2 {
        (0, 1)
    } else {
        (0, -1)
    }
}

fn carve_dir(k: usize) -> (r: (isize, isize))
    requires
        k < 4,
    ensures
        r.0 == dir4(k as int).0,
        r.1 == dir4(k as int).1,
{
    match k {
        0 => (1, 0),
        1 => (-1, 0),
        2 => (0, 1),
        _ => (0, -1),
    }
}

/// One rendered cell: brackets for a wall, blanks for a passage.
pub open spec fn maze_cell_chars(e: Element) -> Seq<char> {
    if e is Wall {
        seq!['[', ']']
    } else {
        seq![' ', ' ']
    }
}

/// The first `k` cells of row `y`, rendered.
pub open spec fn maze_row(w: int, d: Seq<Element>, y: int, k: int) -> Seq<char>
    decreases k,
{
    if k <= 0 {
        Seq::empty()
    } else {
        maze_row(w, d, y, k - 1) + maze_cell_chars(d[midx(w, k - 1, y)])
    }
}

/// The first `k` rows of the grid, rendered, each ending in a newline.
pub open spec fn maze_rows(w: int, d: Seq<Element>, k: int) -> Seq<char>
    decreases k,
{
    if k <= 0 {
        Seq::empty()
    } else {
        maze_rows(w, d, k - 1) + maze_row(w, d, k - 1, w) + seq!['\n']
    }
}

/// The direction index used on the `k`-th try when the rotation starts
/// at `d`.
spec fn dir_at(d: int, k: int) -> int {
    (d + k) % 4
}

/// The first `i` tries of a rotation starting at `d` include direction `j`.
spec fn tried(d: int, i: int, j: int) -> bool {
    exists|k: int| 0 <= k < i && j == #[trigger] dir_at(d, k)
}

/// No wall pair remains in direction `k` seen from (x, y): if the adjacent
/// cell is still a wall, the cell one step beyond it is not.
pub open spec fn pair_open(w: int, d: Seq<Element>, x: int, y: int, k: int) -> bool {
    d[midx(w, x + dir4(k).0, y + dir4(k).1)] is Wall ==> !(d[midx(
        w,
        x + 2 * dir4(k).0,
        y + 2 * dir4(k).1,
    )] is Wall)
}

/// A rectangular maze held as a flat row-major grid of cells.
pub struct Maze {
    width: usize,
    height: usize,
    data: Vec<Element>,
}

impl Maze {
    /// Number of columns.
    pub closed spec fn width_spec(&self) -> int {
        self.width as int
    }

    /// Number of rows.
    pub closed spec fn height_spec(&self) -> int {
        self.height as int
    }

    /// The grid contents, row-major.
    pub closed spec fn cells(&self) -> Seq<Element> {
        self.data@
    }

    /// Structural invariant: storage matches the declared dimensions.
    pub closed spec fn wf(&self) -> bool {
        &&& self.data@.len() == self.width * self.height
        &&& self.width * self.height <= isize::MAX
    }

    /// The cell at (x, y) is a wall.
    pub open spec fn cell_is_wall(&self, x: int, y: int) -> bool {
        self.cells()[midx(self.width_spec(), x, y)] is Wall
    }

    /// Every cell on the outer border is a passage.
    pub open spec fn borders_open(&self) -> bool {
        forall|x: int, y: int|
            0 <= x < self.width_spec() && 0 <= y < self.height_spec() && (x == 0 || x
                == self.width_spec() - 1 || y == 0 || y == self.height_spec() - 1)
                ==> !(#[trigger] self.cell_is_wall(x, y))
    }

    /// Number of columns, as a runtime value.
    pub fn width(&self) -> (r: usize)
        ensures
            r == self.width_spec(),
    {
        self.width
    }

    /// Number of rows, as a runtime value.
    pub fn height(&self) -> (r: usize)
        ensures
            r == self.height_spec(),
    {
        self.height
    }

    /// Builds the initial grid: passages along the whole border, walls
    /// everywhere in the interior.
    pub fn init(height: usize, width: usize) -> (m: Maze)
        requires
            width * height <= isize::MAX,
        ensures
            m.wf(),
            m.width_spec() == width,
            m.height_spec() == height,
            m.borders_open(),
            forall|x: int, y: int|
                0 <= x < width && 0 <= y < height ==> (#[trigger] m.cell_is_wall(x, y) <==> (1 <= x
                    < width - 1 && 1 <= y < height - 1)),
    {
        let mut data: Vec<Element> = Vec::new();
        let mut y: usize = 0;
        while y < height
            invariant
                y <= height,
                width * height <= isize::MAX,
                data@.len() == y * width,
                forall|xx: int, yy: int|
                    0 <= xx < width && 0 <= yy && midx(width as int, xx, yy) < data@.len() ==> ((
                    #[trigger] data@[midx(width as int, xx, yy)]) is Wall <==> (1 <= xx < width - 1
                        && 1 <= yy < height - 1)),
            decreases height - y,
        {
            let mut x: usize = 0;
            while x < width
                invariant
                    x <= width,
                    y < height,
                    width * height <= isize::MAX,
                    data@.len() == y * width + x,
                    forall|xx: int, yy: int|
                        0 <= xx < width && 0 <= yy && midx(width as int, xx, yy) < data@.len()
                            ==> ((#[trigger] data@[midx(width as int, xx, yy)]) is Wall <==> (1
                            <= xx < width - 1 && 1 <= yy < height - 1)),
                decreases width - x,
            {
                let val = if y == 0 || y == height - 1 {
                    Element::Passage
                } else if x == 0 || x == width - 1 {
                    Element::Passage
                } else {
                    Element::Wall
                };
                data.push(val);
                proof {
                    assert(data@.len() == y * width + x + 1);
                    assert(y * width + x + 1 <= width * height) by (nonlinear_arith)
                        requires
                            0 <= x < width,
                            0 <= y < height,
                    ;
                    assert forall|xx: int, yy: int|
                        0 <= xx < width && 0 <= yy && midx(width as int, xx, yy)
                            < data@.len() implies ((#[trigger] data@[midx(width as int, xx, yy)])
                        is Wall <==> (1 <= xx < width - 1 && 1 <= yy < height - 1)) by {
                        if midx(width as int, xx, yy) == y * width + x {
                            lemma_midx_injective(width as int, xx, yy, x as int, y as int);
                        }
                    }
                }
                x = x + 1;
            }
            proof {
                assert((y + 1) * width == y * width + width) by (nonlinear_arith);
            }
            y = y + 1;
        }
        let m = Maze { width, height, data };
        proof {
            assert(m.data@.len() == width * height) by (nonlinear_arith)
                requires
                    m.data@.len() == (height as int) * (width as int),
            ;
            assert forall|x: int, y: int| 0 <= x < width && 0 <= y < height implies ((
            #[trigger] m.cell_is_wall(x, y)) <==> (1 <= x < width - 1 && 1 <= y < height - 1)) by {
                lemma_cell_bound(width as int, height as int, x, y);
            }
        }
        m
    }

    /// Carves passages outward from (x, y) by a randomized depth-first walk:
    /// from each newly opened cell it tries the four directions in a random
    /// rotation, breaking through a wall whenever the cell two steps away is
    /// also still a wall. Carving only ever turns walls into passages, so the
    /// walk terminates once no reachable pair of walls remains.
    #[verifier::loop_isolation(false)]
    pub fn carve(&mut self, x: usize, y: usize)
        requires
            old(self).wf(),
            old(self).borders_open(),
            1 <= x && x + 1 < old(self).width_spec(),
            1 <= y && y + 1 < old(self).height_spec(),
        ensures
            final(self).wf(),
            final(self).borders_open(),
            final(self).width_spec() == old(self).width_spec(),
            final(self).height_spec() == old(self).height_spec(),
            wall_count(final(self).cells()) <= wall_count(old(self).cells()),
            (final(self).cells()[midx(old(self).width_spec(), x as int, y as int)]) is Passage,
            forall|k: int|
                0 <= k < 4 ==> #[trigger] pair_open(
                    old(self).width_spec(),
                    final(self).cells(),
                    x as int,
                    y as int,
                    k,
                ),
            forall|i: int|
                0 <= i < final(self).cells().len() ==> final(self).cells()[i] == old(
                    self,
                ).cells()[i] || (#[trigger] final(self).cells()[i]) is Passage,
        decreases wall_count(old(self).cells()),
    {
        let ghost w0 = self.width_spec();
        let ghost h0 = self.height_spec();
        let ghost entry_cells = self.cells();
        let ghost entry_walls = wall_count(entry_cells);
        proof {
            lemma_cell_bound(w0, h0, x as int, y as int);
            lemma_wall_count_update(entry_cells, midx(w0, x as int, y as int), Element::Passage);
            assert(w0 <= w0 * h0 && h0 <= w0 * h0) by (nonlinear_arith)
                requires
                    w0 >= 1 && h0 >= 1,
            ;
        }
        let idx0 = y * self.width + x;
        self.data[idx0] = Element::Passage;
        proof {
            lemma_open_preserved(*old(self), *self, midx(w0, x as int, y as int));
        }
        let d = random_usize() % 4;
        let mut i: usize = 0;
        while i < 4
            invariant
                self.wf(),
                self.borders_open(),
                self.width_spec() == w0,
                self.height_spec() == h0,
                w0 <= isize::MAX,
                h0 <= isize::MAX,
                d < 4,
                i <= 4,
                1 <= x && x + 1 < w0,
                1 <= y && y + 1 < h0,
                entry_walls <= wall_count(old(self).cells()),
                wall_count(self.cells()) <= entry_walls,
                self.cells().len() == entry_cells.len(),
                (self.cells()[midx(w0, x as int, y as int)]) is Passage,
                forall|j: int|
                    0 <= j < 4 && tried(d as int, i as int, j) ==> #[trigger] pair_open(
                        w0,
                        self.cells(),
                        x as int,
                        y as int,
                        j,
                    ),
                forall|j: int|
                    0 <= j < self.cells().len() ==> self.cells()[j] == entry_cells[j] || (
                    #[trigger] self.cells()[j]) is Passage,
            decreases 4 - i,
        {
            let ghost at_start = *self;
            let dir = carve_dir((d + i) % 4);
            let ghost j0 = dir_at(d as int, i as int);
            proof {
                assert(j0 == ((d + i) % 4) as int);
                assert(dir.0 == dir4(j0).0 && dir.1 == dir4(j0).1);
            }
            let x2 = (x as isize) + dir.0;
            let y2 = (y as isize) + dir.1;
            if self.is_wall(x2, y2) {
                proof {
                    // a wall cell is never on the border
                    assert(1 <= x2 && x2 + 1 < w0 && 1 <= y2 && y2 + 1 < h0);
                }
                let nx = x2 + dir.0;
                let ny = y2 + dir.1;
                if self.is_wall(nx, ny) {
                    let ghost before = self.cells();
                    proof {
                        lemma_cell_bound(w0, h0, x2 as int, y2 as int);
                        lemma_wall_count_update(
                            before,
                            midx(w0, x2 as int, y2 as int),
                            Element::Passage,
                        );
                    }
                    let ghost snapshot = *self;
                    let index = (y2 as usize) * self.width + (x2 as usize);
                    self.data[index] = Element::Passage;
                    let ghost mid_cells = self.cells();
                    proof {
                        lemma_open_preserved(snapshot, *self, midx(w0, x2 as int, y2 as int));
                        lemma_wall_count_nonneg(mid_cells);
                        assert(wall_count(mid_cells) < entry_walls);
                        assert(entry_walls <= wall_count(old(self).cells()));
                    }
                    self.carve(nx as usize, ny as usize);
                    proof {
                        assert forall|j: int|
                            0 <= j < self.cells().len() implies self.cells()[j] == entry_cells[j]
                            || (#[trigger] self.cells()[j]) is Passage by {
                            assert(self.cells()[j] == mid_cells[j] || self.cells()[j] is Passage);
                            assert(mid_cells[j] == before[j] || mid_cells[j] is Passage);
                            assert(before[j] == entry_cells[j] || before[j] is Passage);
                        }
                        assert forall|q: int|
                            0 <= q < self.cells().len() implies self.cells()[q]
                            == at_start.cells()[q] || (#[trigger] self.cells()[q]) is Passage by {
                            assert(self.cells()[q] == mid_cells[q] || self.cells()[q] is Passage);
                            assert(mid_cells[q] == before[q] || mid_cells[q] is Passage);
                            assert(before[q] == at_start.cells()[q]);
                        }
                        // the wall just broken through stays open, so this
                        // direction no longer holds a wall pair
                        assert(self.cells()[midx(w0, x2 as int, y2 as int)] is Passage);
                        assert(pair_open(w0, self.cells(), x as int, y as int, j0));
                    }
                } else {
                    proof {
                        assert(x as int + 2 * dir4(j0).0 == nx as int && y as int + 2 * dir4(
                            j0,
                        ).1 == ny as int);
                        assert(pair_open(w0, self.cells(), x as int, y as int, j0));
                    }
                }
            } else {
                proof {
                    assert(pair_open(w0, self.cells(), x as int, y as int, j0));
                }
            }
            proof {
                // directions already tried stay free of wall pairs: the
                // body only opened cells
                assert(forall|q: int|
                    0 <= q < self.cells().len() ==> self.cells()[q] == at_start.cells()[q] || (
                    #[trigger] self.cells()[q]) is Passage);
                assert forall|j: int|
                    0 <= j < 4 && tried(d as int, i as int, j) implies #[trigger] pair_open(
                    w0,
                    self.cells(),
                    x as int,
                    y as int,
                    j,
                ) by {
                    lemma_pair_open_preserved(at_start, *self, x as int, y as int, j);
                }
                assert forall|j: int|
                    0 <= j < 4 && tried(d as int, i as int + 1, j) implies #[trigger] pair_open(
                    w0,
                    self.cells(),
                    x as int,
                    y as int,
                    j,
                ) by {
                    let k = choose|k: int| 0 <= k < i as int + 1 && j == #[trigger] dir_at(
                        d as int,
                        k,
                    );
                    if k < i as int {
                        assert(tried(d as int, i as int, j));
                    } else {
                        assert(j == j0);
                    }
                }
            }
            i = i + 1;
        }
        proof {
            // after four tries the rotation has visited every direction
            assert forall|j: int| 0 <= j < 4 implies tried(d as int, 4, j) by {
                let k = if j >= d as int {
                    j - d
                } else {
                    j + 4 - d
                };
                assert(0 <= k < 4);
                assert(dir_at(d as int, k) == j);
            }
        }
    }

    /// Builds a maze: an all-wall interior carved from (2, 2), then the two
    /// entry openings. The two size arguments are handed to `init` in the
    /// order it takes them.
    pub fn generate(width: i64, height: i64) -> (m: Maze)
        requires
            5 <= width,
            5 <= height,
            width * height <= isize::MAX,
        ensures
            m.wf(),
            m.borders_open(),
            m.width_spec() == height,
            m.height_spec() == width,
            (m.cells()[midx(m.width_spec(), 2, 2)]) is Passage,
            (m.cells()[1 * width + 2]) is Passage,
            (m.cells()[(height - 2) * width + (width - 3)]) is Passage,
    {
        proof {
            assert(width * 5 <= (width as int) * (height as int) && height * 5 <= (width as int) * (
            height as int)) by (nonlinear_arith)
                requires
                    5 <= width,
                    5 <= height,
            ;
            assert(width <= isize::MAX && height <= isize::MAX);
        }
        let w = width as usize;
        let h = height as usize;
        proof {
            assert(w == width as int && h == height as int);
            assert((h as int) * (w as int) <= isize::MAX && (w as int) * (h as int) <= isize::MAX)
                by (nonlinear_arith)
                requires
                    (w as int) == width as int,
                    (h as int) == height as int,
                    (width as int) * (height as int) <= isize::MAX,
            ;
        }
        let mut maze = Maze::init(w, h);
        maze.carve(2, 2);
        proof {
            assert(1 * (w as int) + 2 < (h as int) * (w as int) && ((h as int) - 2) * (w as int) + (
            (w as int) - 3) < (h as int) * (w as int)) by (nonlinear_arith)
                requires
                    5 <= w as int,
                    5 <= h as int,
            ;
        }
        let ghost carved = maze;
        let i1 = 1 * w + 2;
        maze.data[i1] = Element::Passage;
        let ghost opened = maze;
        let i2 = (h - 2) * w + (w - 3);
        maze.data[i2] = Element::Passage;
        proof {
            lemma_open_preserved(carved, opened, i1 as int);
            lemma_open_preserved(opened, maze, i2 as int);
        }
        maze
    }

    /// Renders the maze one row at a time: two brackets for a wall, two
    /// spaces for a passage, each row ending in a newline.
    pub fn render(&self) -> (s: String)
        requires
            self.wf(),
        ensures
            s@ == maze_rows(self.width_spec(), self.cells(), self.height_spec()),
    {
        let mut s = String::new();
        let mut y: usize = 0;
        while y < self.height
            invariant
                self.wf(),
                y <= self.height,
                s@ == maze_rows(self.width_spec(), self.cells(), y as int),
            decreases self.height - y,
        {
            let mut x: usize = 0;
            while x < self.width
                invariant
                    self.wf(),
                    y < self.height,
                    x <= self.width,
                    s@ == maze_rows(self.width_spec(), self.cells(), y as int) + maze_row(
                        self.width_spec(),
                        self.cells(),
                        y as int,
                        x as int,
                    ),
                decreases self.width - x,
            {
                proof {
                    lemma_cell_bound(self.width_spec(), self.height_spec(), x as int, y as int);
                    reveal_strlit("[]");
                    reveal_strlit("  ");
                }
                match self.data[y * self.width + x] {
                    Element::Wall => s.append("[]"),
                    Element::Passage => s.append("  "),
                }
                proof {
                    assert(s@ =~= maze_rows(self.width_spec(), self.cells(), y as int) + maze_row(
                        self.width_spec(),
                        self.cells(),
                        y as int,
                        x as int + 1,
                    ));
                }
                x = x + 1;
            }
            s.append("\n");
            proof {
                reveal_strlit("\n");
                assert(s@ =~= maze_rows(self.width_spec(), self.cells(), y as int + 1));
            }
            y = y + 1;
        }
        s
    }

    /// Tells whether the cell at (x, y) is still a wall.
    pub fn is_wall(&self, x: isize, y: isize) -> (r: bool)
        requires
            self.wf(),
            0 <= x < self.width_spec(),
            0 <= y < self.height_spec(),
        ensures
            r == self.cell_is_wall(x as int, y as int),
    {
        let (ux, uy) = (x as usize, y as usize);
        proof {
            lemma_cell_bound(self.width_spec(), self.height_spec(), ux as int, uy as int);
        }
        match self.data[(uy * self.width + ux) as usize] {
            Element::Wall => true,
            Element::Passage => false,
        }
    }
}

} // verus!
