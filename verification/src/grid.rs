//! Broad-phase collision bookkeeping: a grid of cells that lists which balls
//! stand in which cell, and the candidate pairs of balls that may touch.
use vstd::prelude::*;

verus! {

/// The index that stands for the cue ball in cells, pair lists and pocket lists;
/// every other index is the place of a red ball in the list of red balls.
pub const WHITE_BALL: usize = 69;

/// Number of neighbouring cells looked at around a ball's own cell (a 3 by 3 block).
pub const NEIGHBOURHOOD: usize = 9;

/// A grid of cells, each listing the indices of the balls that were added to it.
pub struct Grid {
    cell_size: u32,
    cells: Vec<Vec<Vec<usize>>>,
}

/// Every row of the grid has as many cells as the first row.
pub open spec fn rectangular(g: Seq<Seq<Seq<usize>>>) -> bool {
    forall|r: int| 0 <= r < g.len() ==> #[trigger] g[r].len() == g[0].len()
}

/// Number of columns of a grid.
pub open spec fn columns(g: Seq<Seq<Seq<usize>>>) -> int {
    if g.len() == 0 {
        0
    } else {
        g[0].len() as int
    }
}

/// Whether (r, c) names a cell of the grid.
pub open spec fn on_grid(g: Seq<Seq<Seq<usize>>>, r: int, c: int) -> bool {
    0 <= r < g.len() && 0 <= c < columns(g)
}

/// The pairs (`ball`, other) for every index `other` recorded in `cell`
/// except `ball` itself, in the order of the cell.
pub open spec fn pairs_in_cell(cell: Seq<usize>, ball: usize) -> Seq<(usize, usize)>
    decreases cell.len(),
{
    if cell.len() == 0 {
        Seq::empty()
    } else {
        let rest = pairs_in_cell(cell.drop_last(), ball);
        if cell.last() != ball {
            rest.push((ball, cell.last()))
        } else {
            rest
        }
    }
}

/// Row offset of the `n`-th neighbouring cell: -1, 0 or 1 (rows outer).
pub open spec fn row_offset(n: int) -> int {
    n / 3 - 1
}

/// Column offset of the `n`-th neighbouring cell: -1, 0 or 1 (columns inner).
pub open spec fn col_offset(n: int) -> int {
    n % 3 - 1
}

/// The pairs for `ball` found in the `n`-th neighbouring cell of (`r`, `c`),
/// none when that cell lies off the grid.
pub open spec fn neighbour_pairs(g: Seq<Seq<Seq<usize>>>, ball: usize, r: int, c: int, n: int) -> Seq<
    (usize, usize),
> {
    let nr = r + row_offset(n);
    let nc = c + col_offset(n);
    if on_grid(g, nr, nc) {
        pairs_in_cell(g[nr][nc], ball)
    } else {
        Seq::empty()
    }
}

/// The pairs for `ball` found in the first `k` neighbouring cells of (`r`, `c`).
pub open spec fn neighbourhood_pairs(g: Seq<Seq<Seq<usize>>>, ball: usize, r: int, c: int, k: nat) -> Seq<
    (usize, usize),
>
    decreases k,
{
    if k == 0 {
        Seq::empty()
    } else {
        neighbourhood_pairs(g, ball, r, c, (k - 1) as nat) + neighbour_pairs(g, ball, r, c, k - 1)
    }
}

/// The candidate pairs of one red ball standing in cell (`r`, `c`): those of its
/// own cell, then those of the 3 by 3 block of cells around it (its own cell again
/// among them), row by row.
pub open spec fn ball_pairs(g: Seq<Seq<Seq<usize>>>, ball: usize, r: int, c: int) -> Seq<(usize, usize)> {
    pairs_in_cell(g[r][c], ball) + neighbourhood_pairs(g, ball, r, c, NEIGHBOURHOOD as nat)
}

/// The candidate pairs of all red balls, ball `k` standing in cell `cells[k]`,
/// in the order of the balls.
pub open spec fn candidate_pairs_of(g: Seq<Seq<Seq<usize>>>, cells: Seq<(usize, usize)>) -> Seq<
    (usize, usize),
>
    decreases cells.len(),
{
    if cells.len() == 0 {
        Seq::empty()
    } else {
        let k = cells.len() - 1;
        candidate_pairs_of(g, cells.drop_last()) + ball_pairs(g, k as usize, cells[k].0 as int, cells[k].1 as int)
    }
}

impl View for Grid {
    type V = Seq<Seq<Seq<usize>>>;

    closed spec fn view(&self) -> Seq<Seq<Seq<usize>>> {
        self.cells@.map_values(|row: Vec<Vec<usize>>| row@.map_values(|cell: Vec<usize>| cell@))
    }
}

impl Grid {
    #[verifier::type_invariant]
    spec fn shape(self) -> bool {
        rectangular(self@)
    }

    /// The side of a cell, in the units of the balls' positions.
    pub closed spec fn spec_cell_size(&self) -> u32 {
        self.cell_size
    }

    /// An empty grid of `height + 1` rows and `width + 1` columns, covering a
    /// field `width` cells wide and `height` cells high (edges included).
    pub fn new(width: usize, height: usize, cell_size: u32) -> (grid: Grid)
        requires
            width < usize::MAX,
            height < usize::MAX,
        ensures
            grid@.len() == height + 1,
            forall|r: int| 0 <= r <= height ==> #[trigger] grid@[r].len() == width + 1,
            forall|r: int, c: int|
                0 <= r <= height && 0 <= c <= width ==> #[trigger] grid@[r][c].len() == 0,
            grid.spec_cell_size() == cell_size,
            rectangular(grid@),
    {
        let rows = height + 1;
        let cols = width + 1;
        let mut cells: Vec<Vec<Vec<usize>>> = Vec::new();
        let mut r: usize = 0;
        while r < rows
            invariant
                rows == height + 1,
                cols == width + 1,
                0 <= r <= rows,
                cells@.len() == r,
                forall|i: int| 0 <= i < r ==> #[trigger] cells@[i]@.len() == cols,
                forall|i: int, j: int|
                    0 <= i < r && 0 <= j < cols ==> #[trigger] cells@[i]@[j]@.len() == 0,
            decreases rows - r,
        {
            let mut row: Vec<Vec<usize>> = Vec::new();
            let mut c: usize = 0;
            while c < cols
                invariant
                    0 <= c <= cols,
                    row@.len() == c,
                    forall|j: int| 0 <= j < c ==> #[trigger] row@[j]@.len() == 0,
                decreases cols - c,
            {
                row.push(Vec::new());
                c = c + 1;
            }
            cells.push(row);
            r = r + 1;
        }
        Grid { cell_size, cells }
    }

    /// The side of a cell.
    pub fn cell_size(&self) -> (s: u32)
        ensures
            s == self.spec_cell_size(),
    {
        self.cell_size
    }

    /// Number of rows.
    pub fn rows(&self) -> (n: usize)
        ensures
            n == self@.len(),
            rectangular(self@),
    {
        proof {
            use_type_invariant(self);
        }
        self.cells.len()
    }

    /// Number of columns.
    pub fn cols(&self) -> (n: usize)
        ensures
            n == columns(self@),
    {
        proof {
            use_type_invariant(self);
        }
        if self.cells.len() == 0 {
            0
        } else {
            self.cells[0].len()
        }
    }

    /// The indices recorded in the cell at (`row`, `col`), in the order they were added.
    pub fn cell(&self, row: usize, col: usize) -> (cell: &Vec<usize>)
        requires
            on_grid(self@, row as int, col as int),
        ensures
            cell@ == self@[row as int][col as int],
    {
        proof {
            use_type_invariant(self);
            assert(self@[row as int] == self.cells@[row as int]@.map_values(|c: Vec<usize>| c@));
            assert(self@[row as int].len() == self@[0].len());
        }
        &self.cells[row][col]
    }

    /// Records `ball_index` in the cell at (`row`, `col`); a ball whose cell
    /// lies off the grid is not recorded.
    pub fn add_to_cell(&mut self, ball_index: usize, row: usize, col: usize)
        ensures
            on_grid(old(self)@, row as int, col as int) ==> final(self)@ == old(self)@.update(
                row as int,
                old(self)@[row as int].update(col as int, old(self)@[row as int][col as int].push(ball_index)),
            ),
            !on_grid(old(self)@, row as int, col as int) ==> final(self)@ == old(self)@,
            final(self).spec_cell_size() == old(self).spec_cell_size(),
            rectangular(old(self)@),
            rectangular(final(self)@),
    {
        proof {
            use_type_invariant(&*self);
        }
        if row < self.cells.len() && col < self.cells[0].len() {
            let ghost before = self@;
            let mut cells: Vec<Vec<Vec<usize>>> = Vec::new();
            std::mem::swap(&mut cells, &mut self.cells);
            assert(cells@[row as int]@.len() == before[row as int].len());
            cells[row][col].push(ball_index);
            let ghost after = cells@.map_values(
                |r: Vec<Vec<usize>>| r@.map_values(|cell: Vec<usize>| cell@),
            );
            assert(after =~= before.update(
                row as int,
                before[row as int].update(col as int, before[row as int][col as int].push(ball_index)),
            )) by {
                assert(after[row as int] =~= before[row as int].update(
                    col as int,
                    before[row as int][col as int].push(ball_index),
                ));
            }
            assert(rectangular(after));
            self.cells = cells;
        }
    }

    /// Appends to `out` the pairs (`ball`, other) for the indices recorded in
    /// cell (`r`, `c`), leaving out `ball` itself.
    fn push_cell_pairs(&self, out: &mut Vec<(usize, usize)>, ball: usize, r: usize, c: usize)
        requires
            on_grid(self@, r as int, c as int),
        ensures
            final(out)@ == old(out)@ + pairs_in_cell(self@[r as int][c as int], ball),
    {
        proof {
            use_type_invariant(self);
        }
        let ghost cv = self@[r as int][c as int];
        assert(self@[r as int] == self.cells@[r as int]@.map_values(|cell: Vec<usize>| cell@));
        assert(self@[r as int].len() == self@[0].len());
        assert(self@[r as int][c as int] == self.cells@[r as int]@[c as int]@);
        let cell: &Vec<usize> = &self.cells[r][c];
        assert(cell@ == cv);
        let mut j: usize = 0;
        while j < cell.len()
            invariant
                cell@ == cv,
                0 <= j <= cv.len(),
                out@ == old(out)@ + pairs_in_cell(cv.take(j as int), ball),
            decreases cv.len() - j,
        {
            let other = cell[j];
            proof {
                assert(cv.take(j + 1).drop_last() =~= cv.take(j as int));
                assert(cv.take(j + 1).last() == other);
            }
            if other != ball {
                out.push((ball, other));
                assert(out@ =~= old(out)@ + pairs_in_cell(cv.take(j + 1), ball));
            } else {
                assert(out@ =~= old(out)@ + pairs_in_cell(cv.take(j + 1), ball));
            }
            j = j + 1;
        }
        assert(cv.take(cv.len() as int) =~= cv);
    }

    /// The broad phase: for each red ball `k`, standing in cell `red_cells[k]`,
    /// the pairs (`k`, other) for every other ball recorded in its own cell and
    /// then in each cell of the 3 by 3 block around it.
    pub fn candidate_pairs(&self, red_cells: &Vec<(usize, usize)>) -> (pairs: Vec<(usize, usize)>)
        requires
            forall|k: int|
                0 <= k < red_cells@.len() ==> on_grid(self@, #[trigger] red_cells@[k].0 as int, red_cells@[k].1 as int),
        ensures
            pairs@ == candidate_pairs_of(self@, red_cells@),
    {
        proof {
            use_type_invariant(self);
        }
        let ghost g = self@;
        let rows = self.rows();
        let cols = self.cols();
        let mut pairs: Vec<(usize, usize)> = Vec::new();
        let mut k: usize = 0;
        while k < red_cells.len()
            invariant
                g == self@,
                rows == g.len(),
                cols == columns(g),
                0 <= k <= red_cells@.len(),
                forall|i: int|
                    0 <= i < red_cells@.len() ==> on_grid(g, #[trigger] red_cells@[i].0 as int, red_cells@[i].1 as int),
                pairs@ == candidate_pairs_of(g, red_cells@.take(k as int)),
            decreases red_cells@.len() - k,
        {
            let (r, c) = red_cells[k];
            let ghost before = pairs@;
            self.push_cell_pairs(&mut pairs, k, r, c);
            let mut n: usize = 0;
            while n < NEIGHBOURHOOD
                invariant
                    g == self@,
                    rows == g.len(),
                    cols == columns(g),
                    on_grid(g, r as int, c as int),
                    0 <= n <= NEIGHBOURHOOD,
                    pairs@ == before + pairs_in_cell(g[r as int][c as int], k) + neighbourhood_pairs(
                        g,
                        k,
                        r as int,
                        c as int,
                        n as nat,
                    ),
                decreases NEIGHBOURHOOD - n,
            {
                let ghost mid = pairs@;
                let dr = n / 3;
                let dc = n % 3;
                if (r > 0 || dr > 0) && (c > 0 || dc > 0) {
                    let nr = if dr == 0 { r - 1 } else { r + (dr - 1) };
                    let nc = if dc == 0 { c - 1 } else { c + (dc - 1) };
                    if nr < rows && nc < cols {
                        self.push_cell_pairs(&mut pairs, k, nr, nc);
                    }
                }
                assert(pairs@ =~= mid + neighbour_pairs(g, k, r as int, c as int, n as int));
                n = n + 1;
            }
            proof {
                let cells = red_cells@.take(k + 1);
                assert(cells.drop_last() =~= red_cells@.take(k as int));
                assert(cells[k as int] == (r, c));
                assert(pairs@ =~= candidate_pairs_of(g, cells));
            }
            k = k + 1;
        }
        assert(red_cells@.take(red_cells@.len() as int) =~= red_cells@);
        pairs
    }
}

/// How a candidate pair is resolved: two red balls, or the cue ball and a red ball.
#[derive(Clone, Copy, Debug, PartialEq, Eq, Structural)]
pub enum Contact {
    /// Red ball at the first index against red ball at the second.
    RedRed(usize, usize),
    /// The cue ball against the red ball at this index.
    CueRed(usize),
}

/// The contact a pair stands for: a pair without the cue ball is two reds;
/// otherwise the red one is the second index unless that is the cue ball, in
/// which case it is the first.
pub open spec fn contact_spec(pair: (usize, usize)) -> Contact {
    if pair.0 != WHITE_BALL && pair.1 != WHITE_BALL {
        Contact::RedRed(pair.0, pair.1)
    } else if pair.1 == WHITE_BALL {
        Contact::CueRed(pair.0)
    } else {
        Contact::CueRed(pair.1)
    }
}

/// Tells which balls a candidate pair brings together.
pub fn contact_of(pair: (usize, usize)) -> (c: Contact)
    ensures
        c == contact_spec(pair),
{
    let (index1, mut index2) = pair;
    if index1 != WHITE_BALL && index2 != WHITE_BALL {
        Contact::RedRed(index1, index2)
    } else {
        if index2 == WHITE_BALL {
            index2 = index1;
        }
        Contact::CueRed(index2)
    }
}

/// Ball `x` is recorded in the cell (`r`, `c`) or in one of the eight cells around it.
pub open spec fn near(g: Seq<Seq<Seq<usize>>>, r: int, c: int, x: usize) -> bool {
    exists|nr: int, nc: int|
        on_grid(g, nr, nc) && r - 1 <= nr <= r + 1 && c - 1 <= nc <= c + 1 && #[trigger] g[nr][nc].contains(x)
}

proof fn lemma_concat_contains<A>(a: Seq<A>, b: Seq<A>, x: A)
    requires
        a.contains(x) || b.contains(x),
    ensures
        (a + b).contains(x),
{
    if a.contains(x) {
        let i = choose|i: int| 0 <= i < a.len() && a[i] == x;
        assert((a + b)[i] == x);
    } else {
        let i = choose|i: int| 0 <= i < b.len() && b[i] == x;
        assert((a + b)[a.len() + i] == x);
    }
}

proof fn lemma_pairs_in_cell_members(cell: Seq<usize>, ball: usize)
    ensures
        forall|i: int|
            0 <= i < pairs_in_cell(cell, ball).len() ==> {
                let p = #[trigger] pairs_in_cell(cell, ball)[i];
                p.0 == ball && p.1 != ball && cell.contains(p.1)
            },
    decreases cell.len(),
{
    if cell.len() > 0 {
        let rest = cell.drop_last();
        lemma_pairs_in_cell_members(rest, ball);
        assert forall|x: usize| rest.contains(x) implies cell.contains(x) by {
            let j = choose|j: int| 0 <= j < rest.len() && rest[j] == x;
            assert(cell[j] == x);
        }
        let t = pairs_in_cell(rest, ball);
        assert forall|i: int| 0 <= i < pairs_in_cell(cell, ball).len() implies {
            let p = #[trigger] pairs_in_cell(cell, ball)[i];
            p.0 == ball && p.1 != ball && cell.contains(p.1)
        } by {
            if i < t.len() {
                assert(pairs_in_cell(cell, ball)[i] == t[i]);
                assert(rest.contains(t[i].1));
            } else {
                assert(cell[cell.len() - 1] == cell.last());
            }
        }
    }
}

proof fn lemma_pairs_in_cell_complete(cell: Seq<usize>, ball: usize, x: usize)
    requires
        cell.contains(x),
        x != ball,
    ensures
        pairs_in_cell(cell, ball).contains((ball, x)),
    decreases cell.len(),
{
    let s = pairs_in_cell(cell, ball);
    if cell.last() == x {
        assert(s[s.len() - 1] == (ball, x));
    } else {
        let rest = cell.drop_last();
        let j = choose|j: int| 0 <= j < cell.len() && cell[j] == x;
        assert(j < cell.len() - 1);
        assert(rest[j] == x);
        lemma_pairs_in_cell_complete(rest, ball, x);
        let t = pairs_in_cell(rest, ball);
        let i = choose|i: int| 0 <= i < t.len() && t[i] == (ball, x);
        assert(s[i] == (ball, x));
    }
}

proof fn lemma_neighbourhood_members(g: Seq<Seq<Seq<usize>>>, ball: usize, r: int, c: int, k: nat)
    requires
        k <= NEIGHBOURHOOD,
    ensures
        forall|i: int|
            0 <= i < neighbourhood_pairs(g, ball, r, c, k).len() ==> {
                let p = #[trigger] neighbourhood_pairs(g, ball, r, c, k)[i];
                p.0 == ball && p.1 != ball && near(g, r, c, p.1)
            },
    decreases k,
{
    if k > 0 {
        let n = k - 1;
        lemma_neighbourhood_members(g, ball, r, c, n as nat);
        let prev = neighbourhood_pairs(g, ball, r, c, n as nat);
        let nb = neighbour_pairs(g, ball, r, c, n);
        let nr = r + row_offset(n);
        let nc = c + col_offset(n);
        assert(-1 <= row_offset(n) <= 1 && -1 <= col_offset(n) <= 1);
        if on_grid(g, nr, nc) {
            lemma_pairs_in_cell_members(g[nr][nc], ball);
        }
        assert forall|i: int| 0 <= i < neighbourhood_pairs(g, ball, r, c, k).len() implies {
            let p = #[trigger] neighbourhood_pairs(g, ball, r, c, k)[i];
            p.0 == ball && p.1 != ball && near(g, r, c, p.1)
        } by {
            if i >= prev.len() {
                let p = nb[i - prev.len()];
                assert(on_grid(g, nr, nc));
                assert(g[nr][nc].contains(p.1));
            }
        }
    }
}

proof fn lemma_neighbourhood_complete(
    g: Seq<Seq<Seq<usize>>>,
    ball: usize,
    r: int,
    c: int,
    k: nat,
    n: int,
    x: usize,
)
    requires
        0 <= n < k <= NEIGHBOURHOOD,
        on_grid(g, r + row_offset(n), c + col_offset(n)),
        g[r + row_offset(n)][c + col_offset(n)].contains(x),
        x != ball,
    ensures
        neighbourhood_pairs(g, ball, r, c, k).contains((ball, x)),
    decreases k,
{
    let prev = neighbourhood_pairs(g, ball, r, c, (k - 1) as nat);
    let nb = neighbour_pairs(g, ball, r, c, k - 1);
    if n == k - 1 {
        lemma_pairs_in_cell_complete(g[r + row_offset(n)][c + col_offset(n)], ball, x);
        lemma_concat_contains(prev, nb, (ball, x));
    } else {
        lemma_neighbourhood_complete(g, ball, r, c, (k - 1) as nat, n, x);
        lemma_concat_contains(prev, nb, (ball, x));
    }
}

/// The broad phase never pairs a red ball with itself, names only red balls it
/// was given as the first of a pair, and pairs a ball only with a ball recorded
/// in its own cell or a cell next to it.
pub proof fn lemma_candidates_are_nearby(g: Seq<Seq<Seq<usize>>>, cells: Seq<(usize, usize)>)
    requires
        cells.len() <= usize::MAX,
        forall|k: int| 0 <= k < cells.len() ==> on_grid(g, #[trigger] cells[k].0 as int, cells[k].1 as int),
    ensures
        forall|i: int|
            0 <= i < candidate_pairs_of(g, cells).len() ==> {
                let p = #[trigger] candidate_pairs_of(g, cells)[i];
                &&& p.0 < cells.len()
                &&& p.0 != p.1
                &&& near(g, cells[p.0 as int].0 as int, cells[p.0 as int].1 as int, p.1)
            },
    decreases cells.len(),
{
    if cells.len() > 0 {
        let k = cells.len() - 1;
        let rest = cells.drop_last();
        assert forall|j: int| 0 <= j < rest.len() implies on_grid(g, #[trigger] rest[j].0 as int, rest[j].1 as int) by {
            assert(rest[j] == cells[j]);
        }
        lemma_candidates_are_nearby(g, rest);
        let (r, c) = cells[k];
        lemma_pairs_in_cell_members(g[r as int][c as int], k as usize);
        lemma_neighbourhood_members(g, k as usize, r as int, c as int, NEIGHBOURHOOD as nat);
        let prev = candidate_pairs_of(g, rest);
        let own = pairs_in_cell(g[r as int][c as int], k as usize);
        let around = neighbourhood_pairs(g, k as usize, r as int, c as int, NEIGHBOURHOOD as nat);
        assert(on_grid(g, r as int, c as int));
        assert forall|i: int| 0 <= i < candidate_pairs_of(g, cells).len() implies {
            let p = #[trigger] candidate_pairs_of(g, cells)[i];
            &&& p.0 < cells.len()
            &&& p.0 != p.1
            &&& near(g, cells[p.0 as int].0 as int, cells[p.0 as int].1 as int, p.1)
        } by {
            if i < prev.len() {
                let p = prev[i];
                assert(rest[p.0 as int] == cells[p.0 as int]);
            } else if i < prev.len() + own.len() {
                let p = own[i - prev.len()];
                assert(g[r as int][c as int].contains(p.1));
            } else {
                let p = around[i - prev.len() - own.len()];
            }
        }
    }
}

/// The broad phase misses no pair: every ball other than red ball `k` that is
/// recorded in `k`'s cell or a cell next to it is paired with `k`.
pub proof fn lemma_nearby_balls_are_candidates(
    g: Seq<Seq<Seq<usize>>>,
    cells: Seq<(usize, usize)>,
    k: int,
    nr: int,
    nc: int,
    x: usize,
)
    requires
        cells.len() <= usize::MAX,
        0 <= k < cells.len(),
        on_grid(g, cells[k].0 as int, cells[k].1 as int),
        on_grid(g, nr, nc),
        cells[k].0 - 1 <= nr <= cells[k].0 + 1,
        cells[k].1 - 1 <= nc <= cells[k].1 + 1,
        g[nr][nc].contains(x),
        x != k,
    ensures
        candidate_pairs_of(g, cells).contains((k as usize, x)),
    decreases cells.len(),
{
    let last = cells.len() - 1;
    let rest = cells.drop_last();
    if k == last {
        let (r, c) = cells[k];
        let n = 3 * (nr - r + 1) + (nc - c + 1);
        assert(row_offset(n) == nr - r && col_offset(n) == nc - c);
        lemma_neighbourhood_complete(g, k as usize, r as int, c as int, NEIGHBOURHOOD as nat, n, x);
        lemma_concat_contains(
            pairs_in_cell(g[r as int][c as int], k as usize),
            neighbourhood_pairs(g, k as usize, r as int, c as int, NEIGHBOURHOOD as nat),
            (k as usize, x),
        );
        lemma_concat_contains(
            candidate_pairs_of(g, rest),
            ball_pairs(g, k as usize, r as int, c as int),
            (k as usize, x),
        );
    } else {
        assert(rest[k] == cells[k]);
        lemma_nearby_balls_are_candidates(g, rest, k, nr, nc, x);
        let (r, c) = cells[last];
        lemma_concat_contains(
            candidate_pairs_of(g, rest),
            ball_pairs(g, last as usize, r as int, c as int),
            (k as usize, x),
        );
    }
}

/// A pair of two red balls is resolved as those two red balls, in the pair's
/// order; a pair holding the cue ball once is resolved as the cue ball against
/// the other ball; swapping a pair of reds swaps the contact.
pub proof fn lemma_contact_names_the_pair(a: usize, b: usize)
    ensures
        a != WHITE_BALL && b != WHITE_BALL ==> contact_spec((a, b)) == Contact::RedRed(a, b)
            && contact_spec((b, a)) == Contact::RedRed(b, a),
        a != WHITE_BALL && b == WHITE_BALL ==> contact_spec((a, b)) == Contact::CueRed(a) && contact_spec((b, a))
            == Contact::CueRed(a),
        contact_spec((a, b)) is CueRed ==> a == WHITE_BALL || b == WHITE_BALL,
{
}

/// On a rectangular grid, a cell is on the grid exactly when its row is below
/// the number of rows and its column below the length of the first row.
pub proof fn lemma_on_grid_bounds(g: Seq<Seq<Seq<usize>>>, r: int, c: int)
    requires
        rectangular(g),
    ensures
        on_grid(g, r, c) <==> (0 <= r < g.len() && 0 <= c < g[0].len()),
        on_grid(g, r, c) ==> c < g[r].len(),
{
}

} // verus!
