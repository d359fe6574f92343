//! Knight's tour solver: a board of visitation marks and a deterministic
//! Warnsdorff-heuristic solver that either completes a tour or reports failure.
use vstd::prelude::*;

verus! {

/// A square of the board, as a pair of coordinates. Values outside the board
/// are legal: they simply denote squares that are never available.
#[derive(Copy, Clone, PartialEq, Eq, Structural, Debug)]
pub struct Point {
    pub x: i32,
    pub y: i32,
}

impl Point {
    /// Moves a point's position from (self.x, self.y) by (dx, dy).
    pub fn mov(&self, d: &(i32, i32)) -> (r: Point)
        requires
            i32::MIN <= self.x + d.0 <= i32::MAX,
            i32::MIN <= self.y + d.1 <= i32::MAX,
        ensures
            r.x == self.x + d.0,
            r.y == self.y + d.1,
    {
        Point { x: self.x + d.0, y: self.y + d.1 }
    }
}

/// The eight legal relative knight moves, in their fixed enumeration order.
pub open spec fn offset(k: int) -> (int, int) {
    if k == 0 {
        (2, 1)
    } else if k == 1 {
        (1, 2)
    } else if k == 2 {
        (-1, 2)
    } else if k == 3 {
        (-2, 1)
    } else if k == 4 {
        (-2, -1)
    } else if k == 5 {
        (-1, -2)
    } else if k == 6 {
        (1, -2)
    } else {
        (2, -1)
    }
}

/// Executable form of the fixed knight-move table; `k` indexes `offset`.
pub fn move_offset(k: usize) -> (r: (i32, i32))
    requires
        k < 8,
    ensures
        r.0 == offset(k as int).0,
        r.1 == offset(k as int).1,
{
    match k {
        0 => (2, 1),
        1 => (1, 2),
        2 => (-1, 2),
        3 => (-2, 1),
        4 => (-2, -1),
        5 => (-1, -2),
        6 => (1, -2),
        _ => (2, -1),
    }
}

/// Both coordinates lie on an `n` by `n` board.
pub open spec fn in_range(n: int, x: int, y: int) -> bool {
    0 <= x < n && 0 <= y < n
}

/// Row-major position of a square in the flat grid.
pub open spec fn idx_of(n: int, x: int, y: int) -> int {
    x * n + y
}

/// A square is available iff it is on the board and still unvisited.
pub open spec fn grid_avail(n: int, g: Seq<int>, x: int, y: int) -> bool {
    in_range(n, x, y) && g[idx_of(n, x, y)] == 0
}

/// Number of available knight neighbors among the first `k` offsets.
pub open spec fn degree_part(n: int, g: Seq<int>, x: int, y: int, k: int) -> int
    decreases k,
{
    if k <= 0 {
        0
    } else {
        degree_part(n, g, x, y, k - 1) + if grid_avail(
            n,
            g,
            x + offset(k - 1).0,
            y + offset(k - 1).1,
        ) {
            1int
        } else {
            0int
        }
    }
}

/// Warnsdorff degree: how many of the 8 knight neighbors are available.
pub open spec fn grid_degree(n: int, g: Seq<int>, x: int, y: int) -> int {
    degree_part(n, g, x, y, 8)
}

proof fn lemma_idx_bound(n: int, x: int, y: int)
    requires
        in_range(n, x, y),
    ensures
        0 <= idx_of(n, x, y) < n * n,
{
    assert(0 <= x * n + y < n * n) by (nonlinear_arith)
        requires
            0 <= x < n,
            0 <= y < n,
    ;
}

proof fn lemma_idx_injective(n: int, x1: int, y1: int, x2: int, y2: int)
    requires
        in_range(n, x1, y1),
        in_range(n, x2, y2),
        idx_of(n, x1, y1) == idx_of(n, x2, y2),
    ensures
        x1 == x2 && y1 == y2,
{
    assert(x1 == x2 && y1 == y2) by (nonlinear_arith)
        requires
            0 <= x1 < n,
            0 <= y1 < n,
            0 <= x2 < n,
            0 <= y2 < n,
            x1 * n + y1 == x2 * n + y2,
    ;
}

/// An `n` by `n` grid of visitation marks: 0 for an unvisited square, a
/// positive step number for a visited one.
pub struct Board {
    n: usize,
    field: Vec<i32>,
}

impl Board {
    /// Side length of the board.
    pub closed spec fn size(&self) -> int {
        self.n as int
    }

    /// The grid as a flat row-major sequence of cell values.
    pub closed spec fn grid(&self) -> Seq<int> {
        self.field@.map_values(|v: i32| v as int)
    }

    /// Structural invariant: the storage matches the declared side length,
    /// and every step number fits the cell type.
    pub closed spec fn wf(&self) -> bool {
        &&& self.field@.len() == self.n * self.n
        &&& self.n * self.n <= i32::MAX
        &&& forall|i: int| 0 <= i < self.grid().len() ==> 0 <= #[trigger] self.grid()[i]
    }

    /// Value of the cell at (x, y).
    pub open spec fn cell(&self, x: int, y: int) -> int {
        self.grid()[idx_of(self.size(), x, y)]
    }

    /// Specification-level availability of a square on this board.
    pub open spec fn avail(&self, x: int, y: int) -> bool {
        grid_avail(self.size(), self.grid(), x, y)
    }

    /// Specification-level Warnsdorff degree of a square on this board.
    pub open spec fn degree_of(&self, x: int, y: int) -> int {
        grid_degree(self.size(), self.grid(), x, y)
    }

    /// Creates a new board of side `n` with every square unvisited.
    pub fn new(n: usize) -> (b: Board)
        requires
            n * n <= i32::MAX,
        ensures
            b.wf(),
            b.size() == n,
            b.grid() == Seq::new((n * n) as nat, |i: int| 0int),
    {
        let field = vec![0i32; n * n];
        let b = Board { n, field };
        proof {
            assert(b.grid() =~= Seq::new((n * n) as nat, |i: int| 0int));
        }
        b
    }

    /// Side length, as a runtime value.
    pub fn dimension(&self) -> (r: usize)
        ensures
            r == self.size(),
    {
        self.n
    }

    /// Reads the cell at (x, y).
    pub fn at(&self, x: usize, y: usize) -> (v: i32)
        requires
            self.wf(),
            x < self.size(),
            y < self.size(),
        ensures
            v == self.cell(x as int, y as int),
    {
        proof {
            lemma_idx_bound(self.size(), x as int, y as int);
        }
        self.field[x * self.n + y]
    }

    /// Check if a point is both on the board and open.
    pub fn available(&self, p: Point) -> (r: bool)
        requires
            self.wf(),
        ensures
            r == self.avail(p.x as int, p.y as int),
    {
        proof {
            if self.n >= 1 {
                assert(self.n <= self.n * self.n) by (nonlinear_arith)
                    requires
                        self.n >= 1,
                ;
            }
        }
        if 0 <= p.x && p.x < self.n as i32 && 0 <= p.y && p.y < self.n as i32 {
            let xi = p.x as usize;
            let yi = p.y as usize;
            proof {
                lemma_idx_bound(self.size(), xi as int, yi as int);
            }
            self.field[xi * self.n + yi] == 0
        } else {
            false
        }
    }

    /// Counts the number of available moves from `p` on this board.
    pub fn count_degree(&self, p: Point) -> (r: i32)
        requires
            self.wf(),
            i32::MIN + 2 <= p.x <= i32::MAX - 2,
            i32::MIN + 2 <= p.y <= i32::MAX - 2,
        ensures
            r == self.degree_of(p.x as int, p.y as int),
            0 <= r <= 8,
    {
        let mut count: i32 = 0;
        let mut k: usize = 0;
        while k < 8
            invariant
                self.wf(),
                k <= 8,
                i32::MIN + 2 <= p.x <= i32::MAX - 2,
                i32::MIN + 2 <= p.y <= i32::MAX - 2,
                0 <= count <= k,
                count == degree_part(self.size(), self.grid(), p.x as int, p.y as int, k as int),
            decreases 8 - k,
        {
            let d = move_offset(k);
            let next = p.mov(&d);
            if self.available(next) {
                count = count + 1;
            }
            k = k + 1;
        }
        count
    }

    /// Records that the knight reached `p` on step `step`. The caller must
    /// guarantee that `p` is currently available.
    pub fn mark(&mut self, p: Point, step: i32)
        requires
            old(self).wf(),
            old(self).avail(p.x as int, p.y as int),
            step >= 1,
        ensures
            final(self).wf(),
            final(self).size() == old(self).size(),
            final(self).grid() == old(self).grid().update(
                idx_of(old(self).size(), p.x as int, p.y as int),
                step as int,
            ),
    {
        let xi = p.x as usize;
        let yi = p.y as usize;
        proof {
            lemma_idx_bound(self.size(), xi as int, yi as int);
        }
        self.field[xi * self.n + yi] = step;
        proof {
            assert(self.grid() =~= old(self).grid().update(
                idx_of(old(self).size(), p.x as int, p.y as int),
                step as int,
            ));
        }
    }
}

proof fn lemma_side_bound(n: int)
    requires
        0 <= n,
        n * n <= i32::MAX,
    ensures
        n <= 46340,
{
    assert(n <= 46340) by (nonlinear_arith)
        requires
            0 <= n,
            n * n <= 0x7fff_ffff,
    ;
}

/// Candidate (degree, x, y) at `1` precedes candidate at `2` in the fixed
/// selection order: first by degree, then by x, then by y.
pub open spec fn lex_before(d1: int, x1: int, y1: int, d2: int, x2: int, y2: int) -> bool {
    d1 < d2 || (d1 == d2 && (x1 < x2 || (x1 == x2 && y1 < y2)))
}

/// Best candidate among the first `k` knight moves out of (x, y): the
/// available neighbor with the least degree, ties broken by coordinate order.
/// The result carries (degree, x, y) of the chosen square.
pub open spec fn best_part(n: int, g: Seq<int>, x: int, y: int, k: int) -> Option<(int, int, int)>
    decreases k,
{
    if k <= 0 {
        None
    } else {
        let prev = best_part(n, g, x, y, k - 1);
        let nx = x + offset(k - 1).0;
        let ny = y + offset(k - 1).1;
        if grid_avail(n, g, nx, ny) {
            let d = grid_degree(n, g, nx, ny);
            match prev {
                Option::None => Some((d, nx, ny)),
                Option::Some(c) => if lex_before(d, nx, ny, c.0, c.1, c.2) {
                    Some((d, nx, ny))
                } else {
                    prev
                },
            }
        } else {
            prev
        }
    }
}

/// The move the heuristic commits to from (x, y), if any candidate exists.
pub open spec fn best_choice(n: int, g: Seq<int>, x: int, y: int) -> Option<(int, int, int)> {
    best_part(n, g, x, y, 8)
}

proof fn lemma_best_part_props(n: int, g: Seq<int>, x: int, y: int, k: int)
    requires
        0 <= k <= 8,
    ensures
        match best_part(n, g, x, y, k) {
            Option::None => forall|j: int|
                0 <= j < k ==> !grid_avail(n, g, x + (#[trigger] offset(j)).0, y + offset(j).1),
            Option::Some(c) => {
                &&& exists|j: int|
                    0 <= j < k && x + (#[trigger] offset(j)).0 == c.1 && y + offset(j).1 == c.2
                &&& grid_avail(n, g, c.1, c.2)
                &&& c.0 == grid_degree(n, g, c.1, c.2)
                &&& forall|j: int|
                    0 <= j < k && grid_avail(n, g, x + (#[trigger] offset(j)).0, y + offset(j).1)
                        ==> !lex_before(
                        grid_degree(n, g, x + offset(j).0, y + offset(j).1),
                        x + offset(j).0,
                        y + offset(j).1,
                        c.0,
                        c.1,
                        c.2,
                    )
            },
        },
    decreases k,
{
    if k > 0 {
        lemma_best_part_props(n, g, x, y, k - 1);
    }
}

/// Tie-breaking law: whenever the heuristic has a choice, the committed move
/// is an available knight neighbor of least degree, and among the candidates
/// of least degree it is the one least in coordinate order. When it has no
/// choice, no knight neighbor is available. Both facts are stated over the
/// board state alone, so the selection is a function of that state.
pub proof fn lemma_best_choice_minimal(n: int, g: Seq<int>, x: int, y: int)
    ensures
        match best_choice(n, g, x, y) {
            Option::None => forall|j: int|
                0 <= j < 8 ==> !grid_avail(n, g, x + (#[trigger] offset(j)).0, y + offset(j).1),
            Option::Some(c) => {
                &&& exists|j: int|
                    0 <= j < 8 && x + (#[trigger] offset(j)).0 == c.1 && y + offset(j).1 == c.2
                &&& grid_avail(n, g, c.1, c.2)
                &&& c.0 == grid_degree(n, g, c.1, c.2)
                &&& forall|j: int|
                    0 <= j < 8 && grid_avail(n, g, x + (#[trigger] offset(j)).0, y + offset(j).1)
                        ==> !lex_before(
                        grid_degree(n, g, x + offset(j).0, y + offset(j).1),
                        x + offset(j).0,
                        y + offset(j).1,
                        c.0,
                        c.1,
                        c.2,
                    )
            },
        },
{
    lemma_best_part_props(n, g, x, y, 8);
}

impl Board {
    /// Enumerates the 8 knight moves from `p` and picks the available square
    /// with the fewest onward moves, ties broken by coordinate order.
    pub fn pick_move(&self, p: Point) -> (r: Option<Point>)
        requires
            self.wf(),
            in_range(self.size(), p.x as int, p.y as int),
        ensures
            (r is None) == (best_choice(self.size(), self.grid(), p.x as int, p.y as int)
                is None),
            r matches Some(q) ==> {
                let c = best_choice(self.size(), self.grid(), p.x as int, p.y as int)->Some_0;
                q.x == c.1 && q.y == c.2 && self.avail(q.x as int, q.y as int)
            },
    {
        proof {
            lemma_side_bound(self.n as int);
        }
        let mut best: Option<(i32, Point)> = None;
        let mut k: usize = 0;
        while k < 8
            invariant
                self.wf(),
                k <= 8,
                self.n <= 46340,
                in_range(self.size(), p.x as int, p.y as int),
                match best_part(self.size(), self.grid(), p.x as int, p.y as int, k as int) {
                    Option::None => best is None,
                    Option::Some(c) => best matches Some(b) && b.0 == c.0 && b.1.x == c.1 && b.1.y
                        == c.2 && self.avail(b.1.x as int, b.1.y as int),
                },
            decreases 8 - k,
        {
            let d = move_offset(k);
            let next = p.mov(&d);
            if self.available(next) {
                let deg = self.count_degree(next);
                let replace = match best {
                    Option::None => true,
                    Option::Some((bd, bq)) => deg < bd || (deg == bd && (next.x < bq.x || (next.x
                        == bq.x && next.y < bq.y))),
                };
                if replace {
                    best = Some((deg, next));
                }
            }
            k = k + 1;
        }
        match best {
            Option::None => None,
            Option::Some((_, q)) => Some(q),
        }
    }
}

/// One rendered cell: the step number right-justified in a field of three
/// characters, followed by a single space.
pub open spec fn cell_render(v: int) -> Seq<char> {
    if v < 10 {
        seq![' ', ' '] + crate::digits::dec_digits(v) + seq![' ']
    } else if v < 100 {
        seq![' '] + crate::digits::dec_digits(v) + seq![' ']
    } else {
        crate::digits::dec_digits(v) + seq![' ']
    }
}

/// The first `k` cells of row `x`, rendered.
pub open spec fn row_render(n: int, g: Seq<int>, x: int, k: int) -> Seq<char>
    decreases k,
{
    if k <= 0 {
        Seq::empty()
    } else {
        row_render(n, g, x, k - 1) + cell_render(g[idx_of(n, x, k - 1)])
    }
}

/// The first `k` rows of the grid, rendered, each row ending in a newline.
pub open spec fn rows_render(n: int, g: Seq<int>, k: int) -> Seq<char>
    decreases k,
{
    if k <= 0 {
        Seq::empty()
    } else {
        rows_render(n, g, k - 1) + row_render(n, g, k - 1, n) + seq!['\n']
    }
}

/// The whole board as text, row by row.
pub open spec fn board_render(n: int, g: Seq<int>) -> Seq<char> {
    rows_render(n, g, n)
}

impl Board {
    /// Renders the board one row at a time, each cell as its step number in
    /// a fixed-width field.
    pub fn render(&self) -> (s: String)
        requires
            self.wf(),
        ensures
            s@ == board_render(self.size(), self.grid()),
    {
        let mut s = String::new();
        let n = self.n;
        let mut x: usize = 0;
        while x < n
            invariant
                self.wf(),
                n == self.n,
                x <= n,
                s@ == rows_render(n as int, self.grid(), x as int),
            decreases n - x,
        {
            let mut y: usize = 0;
            while y < n
                invariant
                    self.wf(),
                    n == self.n,
                    x < n,
                    y <= n,
                    s@ == rows_render(n as int, self.grid(), x as int) + row_render(
                        n as int,
                        self.grid(),
                        x as int,
                        y as int,
                    ),
                decreases n - y,
            {
                let v = self.at(x, y);
                proof {
                    lemma_idx_bound(n as int, x as int, y as int);
                    reveal_strlit("  ");
                    reveal_strlit(" ");
                }
                if v < 10 {
                    s.append("  ");
                } else if v < 100 {
                    s.append(" ");
                }
                let d = crate::digits::decimal_string(v as u32);
                s.append(d.as_str());
                s.append(" ");
                proof {
                    assert(s@ =~= rows_render(n as int, self.grid(), x as int) + row_render(
                        n as int,
                        self.grid(),
                        x as int,
                        y as int + 1,
                    ));
                }
                y = y + 1;
            }
            s.append("\n");
            proof {
                reveal_strlit("\n");
                assert(s@ =~= rows_render(n as int, self.grid(), x as int + 1));
            }
            x = x + 1;
        }
        s
    }
}

/// (x2, y2) is one legal knight move away from (x1, y1).
pub open spec fn knight_adj(x1: int, y1: int, x2: int, y2: int) -> bool {
    exists|k: int|
        0 <= k < 8 && x2 == x1 + (#[trigger] offset(k)).0 && y2 == y1 + offset(k).1
}

/// Some cell of the grid holds the value `v`.
pub open spec fn appears(g: Seq<int>, v: int) -> bool {
    exists|i: int| 0 <= i < g.len() && g[i] == v
}

/// Number of unvisited cells in the grid.
pub open spec fn count_zeros(g: Seq<int>) -> int
    decreases g.len(),
{
    if g.len() == 0 {
        0
    } else {
        count_zeros(g.drop_last()) + if g.last() == 0 {
            1int
        } else {
            0int
        }
    }
}

proof fn lemma_count_zeros_all_zero(m: nat)
    ensures
        count_zeros(Seq::new(m, |i: int| 0int)) == m,
    decreases m,
{
    let g = Seq::new(m, |i: int| 0int);
    if m > 0 {
        lemma_count_zeros_all_zero((m - 1) as nat);
        assert(g.drop_last() =~= Seq::new((m - 1) as nat, |i: int| 0int));
    }
}

proof fn lemma_count_zeros_update(g: Seq<int>, i: int, v: int)
    requires
        0 <= i < g.len(),
    ensures
        count_zeros(g.update(i, v)) == count_zeros(g) - (if g[i] == 0 {
            1int
        } else {
            0int
        }) + (if v == 0 {
            1int
        } else {
            0int
        }),
    decreases g.len(),
{
    let h = g.update(i, v);
    if i == g.len() - 1 {
        assert(h.drop_last() =~= g.drop_last());
    } else {
        assert(h.drop_last() =~= g.drop_last().update(i, v));
        lemma_count_zeros_update(g.drop_last(), i, v);
    }
}

proof fn lemma_count_zeros_none(g: Seq<int>)
    requires
        count_zeros(g) == 0,
    ensures
        forall|i: int| 0 <= i < g.len() ==> g[i] != 0,
    decreases g.len(),
{
    lemma_count_zeros_nonneg(g);
    if g.len() > 0 {
        lemma_count_zeros_nonneg(g.drop_last());
        lemma_count_zeros_none(g.drop_last());
        assert forall|i: int| 0 <= i < g.len() implies g[i] != 0 by {
            if i < g.len() - 1 {
                assert(g.drop_last()[i] != 0);
            }
        }
    }
}

proof fn lemma_count_zeros_nonneg(g: Seq<int>)
    ensures
        count_zeros(g) >= 0,
    decreases g.len(),
{
    if g.len() > 0 {
        lemma_count_zeros_nonneg(g.drop_last());
    }
}

/// The grid describes a complete knight's tour: every cell carries a step
/// number in [1, n*n], no step number repeats, every step number occurs,
/// and consecutive step numbers sit a single knight move apart.
pub open spec fn complete_tour(n: int, g: Seq<int>) -> bool {
    &&& g.len() == n * n
    &&& forall|i: int| 0 <= i < g.len() ==> 1 <= #[trigger] g[i] <= n * n
    &&& forall|i: int, j: int|
        #![trigger g[i], g[j]]
        0 <= i < g.len() && 0 <= j < g.len() && i != j ==> g[i] != g[j]
    &&& forall|v: int| 1 <= v <= n * n ==> #[trigger] appears(g, v)
    &&& forall|x1: int, y1: int, x2: int, y2: int|
        #![trigger g[idx_of(n, x1, y1)], g[idx_of(n, x2, y2)]]
        in_range(n, x1, y1) && in_range(n, x2, y2) && 1 <= g[idx_of(n, x1, y1)] && g[
            idx_of(n, x2, y2)
        ] == g[idx_of(n, x1, y1)] + 1 ==> knight_adj(x1, y1, x2, y2)
}

/// One step of the heuristic, iterated: the final grid of the tour that
/// starts from the state `g` at square (x, y) about to take step `step`,
/// or `None` when the heuristic runs out of moves first.
pub open spec fn tour_from(n: int, g: Seq<int>, x: int, y: int, step: int) -> Option<Seq<int>>
    decreases n * n + 1 - step,
{
    if step > n * n {
        Some(g)
    } else {
        match best_choice(n, g, x, y) {
            Option::None => None,
            Option::Some(c) => tour_from(n, g.update(idx_of(n, c.1, c.2), step), c.1, c.2, step + 1),
        }
    }
}

/// Outcome of the whole solve attempt from the start square (x, y): the
/// start is marked 1 and the heuristic then runs until the board is full
/// or no move remains. The solver's result equals this function of its
/// inputs, which is what makes repeated runs agree.
pub open spec fn tour_outcome(n: int, x: int, y: int) -> Option<Seq<int>> {
    tour_from(n, Seq::new((n * n) as nat, |i: int| 0int).update(idx_of(n, x, y), 1), x, y, 2)
}

/// Determinism law: the outcome is a function of the board size and the
/// start square alone, so two successful solves from the same start carry
/// the same grid.
pub proof fn lemma_tour_deterministic(n: int, x: int, y: int, g1: Seq<int>, g2: Seq<int>)
    requires
        tour_outcome(n, x, y) == Some(g1),
        tour_outcome(n, x, y) == Some(g2),
    ensures
        g1 == g2,
{
}

/// Boundary law: availability never holds for a square off the board,
/// whatever the grid contents.
pub proof fn lemma_avail_out_of_range(n: int, g: Seq<int>, x: int, y: int)
    requires
        !in_range(n, x, y),
    ensures
        !grid_avail(n, g, x, y),
{
}

/// Runs the Warnsdorff heuristic from (x, y) on an `n` by `n` board. The
/// caller is responsible for supplying an in-range start square. Returns
/// the fully numbered board on success and `None` when the heuristic has
/// no move before the board is full.
pub fn knights_tour(n: usize, x: i32, y: i32) -> (r: Option<Board>)
    requires
        n * n < i32::MAX,
        0 <= x < n,
        0 <= y < n,
    ensures
        match r {
            Option::Some(b) => {
                &&& b.wf()
                &&& b.size() == n
                &&& tour_outcome(n as int, x as int, y as int) == Some(b.grid())
                &&& complete_tour(n as int, b.grid())
                &&& b.cell(x as int, y as int) == 1
            },
            Option::None => tour_outcome(n as int, x as int, y as int) is None,
        },
{
    proof {
        lemma_side_bound(n as int);
    }
    let mut board = Board::new(n);
    let mut p = Point { x, y };
    let mut step: i32 = 1;
    proof {
        lemma_idx_bound(n as int, x as int, y as int);
        lemma_count_zeros_all_zero((n * n) as nat);
    }
    board.mark(p, step);
    proof {
        lemma_count_zeros_update(
            Seq::new((n * n) as nat, |i: int| 0int),
            idx_of(n as int, x as int, y as int),
            1,
        );
    }
    step = step + 1;
    let nn: i32 = (n * n) as i32;
    proof {
        let ni = n as int;
        let g1 = board.grid();
        let sidx = idx_of(ni, x as int, y as int);
        assert(g1[sidx] == 1);
        assert(appears(g1, 1));
        assert forall|x1: int, y1: int, x2: int, y2: int|
            in_range(ni, x1, y1) && in_range(ni, x2, y2) && 1 <= #[trigger] g1[idx_of(ni, x1, y1)]
                && #[trigger] g1[idx_of(ni, x2, y2)] == g1[idx_of(ni, x1, y1)]
                + 1 implies knight_adj(x1, y1, x2, y2) by {
            lemma_idx_bound(ni, x1, y1);
            lemma_idx_bound(ni, x2, y2);
            assert(g1[idx_of(ni, x2, y2)] <= 1);
        }
    }
    while step <= nn
        invariant
            board.wf(),
            board.size() == n,
            n * n < i32::MAX,
            n <= 46340,
            nn == n * n,
            2 <= step <= nn + 1,
            in_range(n as int, p.x as int, p.y as int),
            in_range(n as int, x as int, y as int),
            board.grid()[idx_of(n as int, x as int, y as int)] == 1,
            board.grid()[idx_of(n as int, p.x as int, p.y as int)] == step - 1,
            forall|i: int|
                0 <= i < board.grid().len() ==> 0 <= #[trigger] board.grid()[i] <= step - 1,
            forall|i: int, j: int|
                #![trigger board.grid()[i], board.grid()[j]]
                0 <= i < board.grid().len() && 0 <= j < board.grid().len() && i != j
                    && board.grid()[i] != 0 ==> board.grid()[i] != board.grid()[j],
            forall|v: int| 1 <= v <= step - 1 ==> #[trigger] appears(board.grid(), v),
            count_zeros(board.grid()) == n * n - (step - 1),
            forall|x1: int, y1: int, x2: int, y2: int|
                #![trigger board.grid()[idx_of(n as int, x1, y1)], board.grid()[idx_of(n as int, x2, y2)]]
                in_range(n as int, x1, y1) && in_range(n as int, x2, y2) && 1 <= board.grid()[
                    idx_of(n as int, x1, y1)
                ] && board.grid()[idx_of(n as int, x2, y2)] == board.grid()[
                    idx_of(n as int, x1, y1)
                ] + 1 ==> knight_adj(x1, y1, x2, y2),
            tour_from(n as int, board.grid(), p.x as int, p.y as int, step as int)
                == tour_outcome(n as int, x as int, y as int),
        decreases nn + 1 - step,
    {
        let ghost g = board.grid();
        let ghost ni = n as int;
        match board.pick_move(p) {
            Option::None => {
                proof {
                    assert(tour_from(ni, g, p.x as int, p.y as int, step as int) is None);
                }
                return None;
            },
            Option::Some(q) => {
                proof {
                    lemma_best_part_props(ni, g, p.x as int, p.y as int, 8);
                    lemma_idx_bound(ni, q.x as int, q.y as int);
                    lemma_count_zeros_update(g, idx_of(ni, q.x as int, q.y as int), step as int);
                }
                board.mark(q, step);
                proof {
                    let g2 = board.grid();
                    let idx1 = idx_of(ni, p.x as int, p.y as int);
                    let idx2 = idx_of(ni, q.x as int, q.y as int);
                    lemma_idx_bound(ni, p.x as int, p.y as int);
                    // the start square keeps its mark: the new mark fell on
                    // a square that was still unvisited
                    lemma_idx_bound(ni, x as int, y as int);
                    assert(g[idx_of(ni, x as int, y as int)] == 1 && g[idx2] == 0);
                    // the new mark preserves the adjacency invariant
                    assert forall|x1: int, y1: int, x2: int, y2: int|
                        in_range(ni, x1, y1) && in_range(ni, x2, y2) && 1 <= #[trigger] g2[
                            idx_of(ni, x1, y1)
                        ] && #[trigger] g2[idx_of(ni, x2, y2)] == g2[idx_of(ni, x1, y1)]
                        + 1 implies knight_adj(x1, y1, x2, y2) by {
                        lemma_idx_bound(ni, x1, y1);
                        lemma_idx_bound(ni, x2, y2);
                        let i1 = idx_of(ni, x1, y1);
                        let i2 = idx_of(ni, x2, y2);
                        if i2 == idx2 {
                            // the new cell was reached from the previous one
                            assert(g2[i1] == step - 1);
                            assert(i1 != idx2);
                            assert(g[i1] == g[idx1]);
                            assert(i1 == idx1);
                            lemma_idx_injective(ni, x1, y1, p.x as int, p.y as int);
                            lemma_idx_injective(ni, x2, y2, q.x as int, q.y as int);
                            let c = best_choice(ni, g, p.x as int, p.y as int)->Some_0;
                            let j = choose|j: int|
                                0 <= j < 8 && p.x + (#[trigger] offset(j)).0 == c.1 && p.y + offset(
                                    j,
                                ).1 == c.2;
                            assert(x2 == x1 + offset(j).0 && y2 == y1 + offset(j).1);
                        } else if i1 == idx2 {
                            // nothing yet carries the step number after the new one
                            assert(g2[i2] <= step);
                            assert(false);
                        } else {
                            assert(1 <= g[i1] && g[i2] == g[i1] + 1);
                        }
                    }
                    // every step number taken so far still occurs
                    assert forall|v: int| 1 <= v <= step implies #[trigger] appears(g2, v) by {
                        if v <= step - 1 {
                            assert(appears(g, v));
                            let i = choose|i: int| 0 <= i < g.len() && g[i] == v;
                            assert(g2[i] == v);
                        } else {
                            assert(g2[idx2] == v);
                        }
                    }
                }
                p = q;
                step = step + 1;
            },
        }
    }
    proof {
        lemma_count_zeros_none(board.grid());
        assert forall|v: int| 1 <= v <= n * n implies #[trigger] appears(board.grid(), v) by {
            assert(1 <= v <= step - 1);
        }
    }
    Some(board)
}

} // verus!
