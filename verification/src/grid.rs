//! The static warehouse map: a rectangular grid of cells, loaded from text,
//! with bounded lookup and a scoped obstruction mutation.

use vstd::prelude::*;
use crate::text::{to_chars, split_lines, split_lines_spec};

verus! {

/// One cell of the map. A temporary obstruction blocks like a wall but can
/// be reverted to open without losing the original state.
#[derive(Clone, Copy, PartialEq, Eq, Structural, Debug)]
pub enum Cell {
    Open,
    Wall,
    TemporaryObstruction,
}

/// The four directions the agent can face; turning right cycles
/// Up, Right, Down, Left.
#[derive(Clone, Copy, PartialEq, Eq, Structural, Debug)]
pub enum Heading {
    Up,
    Right,
    Down,
    Left,
}

/// A grid cell address; may be transiently out of bounds.
#[derive(Clone, Copy, PartialEq, Eq, Structural, Debug)]
pub struct Position {
    pub row: i64,
    pub col: i64,
}

/// The full agent state: where it stands and where it faces.
#[derive(Clone, Copy, PartialEq, Eq, Structural, Debug)]
pub struct GuardState {
    pub pos: Position,
    pub heading: Heading,
}

/// Configuration errors surfaced to the caller.
#[derive(Clone, Copy, PartialEq, Eq, Structural, Debug)]
pub enum GridError {
    MalformedGrid,
    NoStart,
}

/// The mathematical model of a grid: dimensions, row-major cells, and the
/// start marker discovered while loading.
#[verifier::ext_equal]
pub ghost struct GridView {
    pub rows: int,
    pub cols: int,
    pub cells: Seq<Cell>,
    pub start: Option<GuardState>,
}

impl GridView {
    pub open spec fn in_bounds(self, r: int, c: int) -> bool {
        0 <= r < self.rows && 0 <= c < self.cols
    }

    pub open spec fn idx(self, r: int, c: int) -> int {
        r * self.cols + c
    }

    /// Bounded lookup: `None` outside the grid, never an error.
    pub open spec fn cell(self, r: int, c: int) -> Option<Cell> {
        if self.in_bounds(r, c) {
            Some(self.cells[self.idx(r, c)])
        } else {
            None
        }
    }

    pub open spec fn cell_at(self, p: Position) -> Option<Cell> {
        self.cell(p.row as int, p.col as int)
    }

    /// Is `p` the discovered start position?
    pub open spec fn is_start(self, p: Position) -> bool {
        match self.start {
            Some(s) => s.pos == p,
            None => false,
        }
    }

    /// An obstruction may go on a previously open cell that is not the start.
    pub open spec fn placeable(self, p: Position) -> bool {
        self.cell_at(p) == Some(Cell::Open) && !self.is_start(p)
    }

    /// The grid after `place_obstruction(p)`.
    pub open spec fn place(self, p: Position) -> GridView {
        if self.placeable(p) {
            GridView {
                cells: self.cells.update(
                    self.idx(p.row as int, p.col as int),
                    Cell::TemporaryObstruction,
                ),
                ..self
            }
        } else {
            self
        }
    }

    /// The grid after `clear_obstruction(p)`.
    pub open spec fn clear(self, p: Position) -> GridView {
        if self.cell_at(p) == Some(Cell::TemporaryObstruction) {
            GridView {
                cells: self.cells.update(
                    self.idx(p.row as int, p.col as int),
                    Cell::Open,
                ),
                ..self
            }
        } else {
            self
        }
    }

    /// Well-formedness: a rectangular cell store whose full state space
    /// (four headings per cell) fits in `usize`, and a start, if any, that
    /// stands on an open cell.
    pub open spec fn wf(self) -> bool {
        &&& self.rows >= 0
        &&& self.cols >= 0
        &&& self.cells.len() == self.rows * self.cols
        &&& 4 * self.cells.len() <= usize::MAX
        &&& match self.start {
            Some(s) => self.cell_at(s.pos) == Some(Cell::Open),
            None => true,
        }
    }
}

/// Row-major indices of distinct in-bounds positions are distinct.
pub proof fn lemma_idx_injective(v: GridView, r1: int, c1: int, r2: int, c2: int)
    requires
        v.in_bounds(r1, c1),
        v.in_bounds(r2, c2),
        v.idx(r1, c1) == v.idx(r2, c2),
    ensures
        r1 == r2 && c1 == c2,
{
    vstd::arithmetic::div_mod::lemma_fundamental_div_mod_converse(
        v.idx(r1, c1), v.cols, r1, c1);
    vstd::arithmetic::div_mod::lemma_fundamental_div_mod_converse(
        v.idx(r2, c2), v.cols, r2, c2);
}

/// In-bounds row-major indices lie inside the cell store.
pub proof fn lemma_idx_bound(v: GridView, r: int, c: int)
    requires
        v.wf(),
        v.in_bounds(r, c),
    ensures
        0 <= v.idx(r, c) < v.cells.len(),
{
    assert(r * v.cols + c < v.rows * v.cols) by (nonlinear_arith)
        requires 0 <= r < v.rows, 0 <= c < v.cols,
    ;
    assert(r * v.cols + c >= 0) by (nonlinear_arith)
        requires r >= 0, c >= 0, v.cols >= 0,
    ;
}

/// Placing an obstruction and clearing it again restores the grid exactly,
/// provided the cell did not already hold a temporary obstruction.
pub proof fn lemma_place_clear_restores(v: GridView, p: Position)
    requires
        v.wf(),
        v.cell_at(p) != Some(Cell::TemporaryObstruction),
    ensures
        v.place(p).clear(p) == v,
{
    if v.placeable(p) {
        let i = v.idx(p.row as int, p.col as int);
        lemma_idx_bound(v, p.row as int, p.col as int);
        let w = v.place(p);
        assert(w.cell_at(p) == Some(Cell::TemporaryObstruction));
        assert(w.clear(p).cells =~= v.cells);
        assert(w.clear(p) =~= v);
    } else {
        assert(v.place(p) == v);
        assert(v.clear(p) == v);
    }
}

/// Placing an obstruction preserves well-formedness and touches no other
/// cell; in particular the start cell stays open.
pub proof fn lemma_place_wf(v: GridView, p: Position)
    requires
        v.wf(),
    ensures
        v.place(p).wf(),
        v.place(p).rows == v.rows,
        v.place(p).cols == v.cols,
        v.place(p).start == v.start,
        forall|q: Position| q != p ==> v.place(p).cell_at(q) == #[trigger] v.cell_at(q),
{
    if v.placeable(p) {
        let i = v.idx(p.row as int, p.col as int);
        lemma_idx_bound(v, p.row as int, p.col as int);
        assert forall|q: Position| q != p implies v.place(p).cell_at(q)
            == #[trigger] v.cell_at(q) by {
            if v.in_bounds(q.row as int, q.col as int) {
                lemma_idx_bound(v, q.row as int, q.col as int);
                if v.idx(q.row as int, q.col as int) == i {
                    lemma_idx_injective(
                        v, q.row as int, q.col as int, p.row as int, p.col as int);
                }
            }
        }
        match v.start {
            Some(s) => {
                assert(v.place(p).cell_at(s.pos) == v.cell_at(s.pos));
            },
            None => {},
        }
    }
}

/// Which cell a map character denotes; direction markers stand on open floor.
pub open spec fn cell_of_char(c: char) -> Cell {
    if c == '#' {
        Cell::Wall
    } else {
        Cell::Open
    }
}

/// The heading a start marker denotes, if the character is a marker.
pub open spec fn heading_of_char(c: char) -> Option<Heading> {
    if c == '^' {
        Some(Heading::Up)
    } else if c == '>' {
        Some(Heading::Right)
    } else if c == 'v' {
        Some(Heading::Down)
    } else if c == '<' {
        Some(Heading::Left)
    } else {
        None
    }
}

/// Column of the first marker in line `l` at or after `j`, if any.
pub open spec fn row_marker(l: Seq<char>, j: int) -> Option<int>
    decreases l.len() - j,
{
    if j < 0 || j >= l.len() {
        None
    } else if heading_of_char(l[j]) is Some {
        Some(j)
    } else {
        row_marker(l, j + 1)
    }
}

/// First marker (row-major) in the lines at or after row `i`.
pub open spec fn marker_scan(lines: Seq<Seq<char>>, i: int) -> Option<(int, int)>
    decreases lines.len() - i,
{
    if i < 0 || i >= lines.len() {
        None
    } else {
        match row_marker(lines[i], 0) {
            Some(j) => Some((i, j)),
            None => marker_scan(lines, i + 1),
        }
    }
}

pub open spec fn grid_lines(t: Seq<char>) -> Seq<Seq<char>> {
    split_lines_spec(t)
}

pub open spec fn grid_rows(t: Seq<char>) -> int {
    grid_lines(t).len() as int
}

pub open spec fn grid_cols(t: Seq<char>) -> int {
    if grid_lines(t).len() == 0 {
        0
    } else {
        grid_lines(t)[0].len() as int
    }
}

/// All rows have the same length.
pub open spec fn rectangular(t: Seq<char>) -> bool {
    forall|i: int|
        0 <= i < grid_lines(t).len() ==> (#[trigger] grid_lines(t)[i]).len()
            == grid_cols(t)
}

/// The loaded text is accepted: rectangular, and small enough that each
/// (cell, heading) pair can be indexed by a `usize`.
pub open spec fn load_ok(t: Seq<char>) -> bool {
    rectangular(t) && 4 * grid_rows(t) * grid_cols(t) <= usize::MAX
}

/// The start state written in the text, if a marker is present.
pub open spec fn start_of(t: Seq<char>) -> Option<GuardState> {
    match marker_scan(grid_lines(t), 0) {
        Some((i, j)) => Some(
            GuardState {
                pos: Position { row: i as i64, col: j as i64 },
                heading: heading_of_char(grid_lines(t)[i][j]).unwrap(),
            },
        ),
        None => None,
    }
}

/// The grid denoted by accepted text.
pub open spec fn grid_of(t: Seq<char>) -> GridView {
    let lines = grid_lines(t);
    let rows = grid_rows(t);
    let cols = grid_cols(t);
    GridView {
        rows: rows,
        cols: cols,
        cells: Seq::new(
            (rows * cols) as nat,
            |k: int| cell_of_char(lines[k / cols][k % cols]),
        ),
        start: start_of(t),
    }
}

/// The static map. Construction parses the text once; afterwards the cell
/// store changes only through the scoped obstruction operations.
pub struct GridModel {
    rows: usize,
    cols: usize,
    cells: Vec<Cell>,
    start: Option<GuardState>,
}

impl View for GridModel {
    type V = GridView;

    closed spec fn view(&self) -> GridView {
        GridView {
            rows: self.rows as int,
            cols: self.cols as int,
            cells: self.cells@,
            start: self.start,
        }
    }
}

impl GridModel {
    /// Parse the raw grid text. Rows of unequal length are rejected, as is
    /// a grid too large to enumerate its agent states.
    #[verifier::loop_isolation(false)]
    pub fn load(text: &str) -> (r: Result<GridModel, GridError>)
        ensures
            match r {
                Ok(g) => load_ok(text@) && g@ == grid_of(text@) && g@.wf(),
                Err(e) => !load_ok(text@) && e == GridError::MalformedGrid,
            },
    {
        let chars = to_chars(text);
        let lines = split_lines(&chars);
        let rows = lines.len();
        let cols = if rows > 0 { lines[0].len() } else { 0 };
        // Reject ragged rows.
        let mut i: usize = 0;
        while i < rows
            invariant
                rows == grid_lines(chars@).len(),
                lines@.len() == rows,
                forall|k: int|
                    0 <= k < rows ==> lines@[k]@ == #[trigger] grid_lines(chars@)[k],
                cols == grid_cols(chars@),
                i <= rows,
                forall|k: int|
                    0 <= k < i ==> (#[trigger] grid_lines(chars@)[k]).len() == cols,
            decreases rows - i,
        {
            if lines[i].len() != cols {
                proof {
                    assert(grid_lines(chars@)[i as int].len() != grid_cols(chars@));
                    assert(!rectangular(chars@));
                    assert(chars@ == text@);
                    assert(!load_ok(text@));
                }
                return Err(GridError::MalformedGrid);
            }
            i = i + 1;
        }
        assert(rectangular(chars@));
        // Reject grids whose state space would overflow `usize`.
        if cols > 0 && rows > usize::MAX / 4 / cols {
            proof {
                let ri = rows as int;
                let ci = cols as int;
                let m = (usize::MAX / 4) as int;
                assert((m / ci) * ci > m - ci) by (nonlinear_arith)
                    requires ci > 0, m >= 0,
                ;
                assert(ri * ci >= ((m / ci) + 1) * ci) by (nonlinear_arith)
                    requires ci > 0, ri >= m / ci + 1,
                ;
                assert(((m / ci) + 1) * ci == (m / ci) * ci + ci)
                    by (nonlinear_arith);
                assert(ri * ci > m);
                assert(4 * (ri * ci) > 4 * m + 3) by (nonlinear_arith)
                    requires ri * ci > m,
                ;
                assert(4 * m + 3 == usize::MAX);
                assert(4 * ri * ci == 4 * (ri * ci)) by (nonlinear_arith);
                assert(!(4 * grid_rows(chars@) * grid_cols(chars@) <= usize::MAX));
                assert(chars@ == text@);
                assert(!load_ok(text@));
            }
            return Err(GridError::MalformedGrid);
        }
        proof {
            let ri = rows as int;
            let ci = cols as int;
            let m = (usize::MAX / 4) as int;
            if ci > 0 {
                assert(ri * ci <= (m / ci) * ci) by (nonlinear_arith)
                    requires ci > 0, ri <= m / ci,
                ;
                assert((m / ci) * ci <= m) by (nonlinear_arith)
                    requires ci > 0, m >= 0,
                ;
            } else {
                assert(ri * ci == 0) by (nonlinear_arith)
                    requires ci == 0,
                ;
            }
            assert(4 * (ri * ci) <= usize::MAX);
            assert(4 * ri * ci <= usize::MAX) by (nonlinear_arith)
                requires 4 * (ri * ci) <= usize::MAX,
            ;
            assert(load_ok(chars@));
        }
        // Build the row-major cell store.
        let mut cells: Vec<Cell> = Vec::new();
        let mut r: usize = 0;
        while r < rows
            invariant
                rows == grid_lines(chars@).len(),
                lines@.len() == rows,
                forall|k: int|
                    0 <= k < rows ==> lines@[k]@ == #[trigger] grid_lines(chars@)[k],
                cols == grid_cols(chars@),
                rectangular(chars@),
                4 * (rows as int) * (cols as int) <= usize::MAX,
                r <= rows,
                cells@.len() == r * cols,
                forall|k: int|
                    0 <= k < cells@.len() ==> cells@[k] == #[trigger] grid_of(
                        chars@,
                    ).cells[k],
            decreases rows - r,
        {
            let line = &lines[r];
            let mut c: usize = 0;
            while c < cols
                invariant
                    rows == grid_lines(chars@).len(),
                    lines@.len() == rows,
                    forall|k: int|
                        0 <= k < rows ==> lines@[k]@ == #[trigger] grid_lines(
                            chars@,
                        )[k],
                    cols == grid_cols(chars@),
                    rectangular(chars@),
                    4 * (rows as int) * (cols as int) <= usize::MAX,
                    r < rows,
                    line@ == grid_lines(chars@)[r as int],
                    c <= cols,
                    cells@.len() == r * cols + c,
                    forall|k: int|
                        0 <= k < cells@.len() ==> cells@[k] == #[trigger] grid_of(
                            chars@,
                        ).cells[k],
                decreases cols - c,
            {
                proof {
                    assert(r * cols + c < rows * cols) by (nonlinear_arith)
                        requires 0 <= r < rows, 0 <= c < cols,
                    ;
                }
                let ch = line[c];
                let cell = if ch == '#' { Cell::Wall } else { Cell::Open };
                cells.push(cell);
                proof {
                    vstd::arithmetic::div_mod::lemma_fundamental_div_mod_converse(
                        r * cols + c, cols as int, r as int, c as int);
                    assert(grid_of(chars@).cells[r * cols + c]
                        == cell_of_char(line@[c as int]));
                }
                c = c + 1;
            }
            proof {
                assert(((r + 1) as int) * (cols as int) == (r as int) * (cols as int)
                    + (cols as int)) by (nonlinear_arith);
            }
            r = r + 1;
        }
        proof {
            assert(cells@ =~= grid_of(chars@).cells);
        }
        // Find the first direction marker, row-major.
        let start = find_marker(&lines, Ghost(chars@));
        let g = GridModel { rows, cols, cells, start };
        proof {
            assert(g@ =~= grid_of(chars@));
            assert(g@.wf()) by {
                match start_of(chars@) {
                    Some(s) => {
                        lemma_marker_scan_in_bounds(chars@);
                    },
                    None => {},
                }
            }
        }
        Ok(g)
    }

    /// The start state discovered while loading, if any; its absence is the
    /// caller's `NoStart` condition.
    pub fn find_start(&self) -> (r: Option<GuardState>)
        ensures
            r == self@.start,
    {
        self.start
    }

    pub fn rows(&self) -> (r: usize)
        ensures
            r == self@.rows,
    {
        self.rows
    }

    pub fn cols(&self) -> (r: usize)
        ensures
            r == self@.cols,
    {
        self.cols
    }

    /// Bounded lookup; `None` outside `[0, rows) x [0, cols)`.
    pub fn get(&self, pos: Position) -> (r: Option<Cell>)
        requires
            self@.wf(),
        ensures
            r == self@.cell_at(pos),
    {
        if pos.row < 0 || pos.col < 0 {
            return None;
        }
        let rr = pos.row as u64;
        let cc = pos.col as u64;
        if !(rr < self.rows as u64 && cc < self.cols as u64) {
            return None;
        }
        proof {
            lemma_idx_bound(self@, pos.row as int, pos.col as int);
        }
        let i = (pos.row as usize) * self.cols + (pos.col as usize);
        Some(self.cells[i])
    }

    /// Put a temporary obstruction on a previously open, non-start cell;
    /// anywhere else the grid is left unchanged.
    pub fn place_obstruction(&mut self, pos: Position)
        requires
            old(self)@.wf(),
        ensures
            final(self)@ == old(self)@.place(pos),
            final(self)@.wf(),
    {
        proof {
            lemma_place_wf(old(self)@, pos);
        }
        let cell = self.get(pos);
        if !(matches!(cell, Some(Cell::Open))) {
            return ;
        }
        if let Some(s) = self.start {
            if s.pos == pos {
                return ;
            }
        }
        proof {
            lemma_idx_bound(self@, pos.row as int, pos.col as int);
        }
        let i = (pos.row as usize) * self.cols + (pos.col as usize);
        self.cells.set(i, Cell::TemporaryObstruction);
        proof {
            assert(self@ =~= old(self)@.place(pos));
        }
    }

    /// Revert a temporary obstruction to open floor; on any other cell the
    /// grid is left unchanged.
    pub fn clear_obstruction(&mut self, pos: Position)
        requires
            old(self)@.wf(),
        ensures
            final(self)@ == old(self)@.clear(pos),
            final(self)@.wf(),
    {
        let cell = self.get(pos);
        if !(matches!(cell, Some(Cell::TemporaryObstruction))) {
            return ;
        }
        proof {
            lemma_idx_bound(self@, pos.row as int, pos.col as int);
        }
        let i = (pos.row as usize) * self.cols + (pos.col as usize);
        self.cells.set(i, Cell::Open);
        proof {
            assert(self@ =~= old(self)@.clear(pos));
            let v = old(self)@;
            assert(i as int == v.idx(pos.row as int, pos.col as int));
            assert(v.cell_at(pos) == Some(Cell::TemporaryObstruction));
            match v.start {
                Some(s) => {
                    assert(v.cell_at(s.pos) == Some(Cell::Open));
                    assert(s.pos != pos);
                    lemma_idx_bound(v, s.pos.row as int, s.pos.col as int);
                    lemma_idx_bound(v, pos.row as int, pos.col as int);
                    if v.idx(s.pos.row as int, s.pos.col as int) == v.idx(
                        pos.row as int, pos.col as int) {
                        lemma_idx_injective(
                            v, s.pos.row as int, s.pos.col as int,
                            pos.row as int, pos.col as int);
                        assert(false);
                    }
                    assert(self@.cell_at(s.pos) == v.cell_at(s.pos));
                },
                None => {},
            }
            assert(self@.wf());
        }
    }
}

/// A found marker lies in bounds and stands on open floor.
proof fn lemma_row_marker_props(l: Seq<char>, j: int)
    ensures
        match row_marker(l, j) {
            Some(m) => j <= m < l.len() && heading_of_char(l[m]) is Some,
            None => true,
        },
    decreases l.len() - j,
{
    if !(j < 0 || j >= l.len()) && heading_of_char(l[j]) is None {
        lemma_row_marker_props(l, j + 1);
    }
}

proof fn lemma_marker_scan_props(lines: Seq<Seq<char>>, i: int)
    ensures
        match marker_scan(lines, i) {
            Some((r, c)) => i <= r < lines.len() && 0 <= c < lines[r].len()
                && heading_of_char(lines[r][c]) is Some,
            None => true,
        },
    decreases lines.len() - i,
{
    if !(i < 0 || i >= lines.len()) {
        lemma_row_marker_props(lines[i], 0);
        if row_marker(lines[i], 0) is None {
            lemma_marker_scan_props(lines, i + 1);
        }
    }
}

/// The start written in accepted text is in bounds and stands on open floor.
pub proof fn lemma_marker_scan_in_bounds(t: Seq<char>)
    requires
        load_ok(t),
        start_of(t) is Some,
    ensures
        grid_of(t).cell_at(start_of(t).unwrap().pos) == Some(Cell::Open),
{
    lemma_marker_scan_props(grid_lines(t), 0);
    let (i, j) = marker_scan(grid_lines(t), 0).unwrap();
    let v = grid_of(t);
    assert(grid_lines(t)[i].len() == grid_cols(t));
    let rows_g = grid_rows(t);
    let cols_g = grid_cols(t);
    assert(4 * rows_g <= 4 * rows_g * cols_g) by (nonlinear_arith)
        requires rows_g >= 1, cols_g >= 1,
    ;
    assert(4 * cols_g <= 4 * rows_g * cols_g) by (nonlinear_arith)
        requires rows_g >= 1, cols_g >= 1,
    ;
    assert(i <= i64::MAX);
    assert(j <= i64::MAX);
    assert(v.in_bounds(i, j));
    lemma_idx_bound_raw(v.rows, v.cols, i, j);
    vstd::arithmetic::div_mod::lemma_fundamental_div_mod_converse(
        i * v.cols + j, v.cols, i, j);
    let ch = grid_lines(t)[i][j];
    assert(heading_of_char(ch) is Some);
    assert(cell_of_char(ch) == Cell::Open);
}

proof fn lemma_idx_bound_raw(rows: int, cols: int, r: int, c: int)
    requires
        0 <= r < rows,
        0 <= c < cols,
    ensures
        0 <= r * cols + c < rows * cols,
{
    assert(r * cols + c < rows * cols) by (nonlinear_arith)
        requires 0 <= r < rows, 0 <= c < cols,
    ;
    assert(r * cols + c >= 0) by (nonlinear_arith)
        requires r >= 0, c >= 0, cols > 0,
    ;
}

/// Scan the lines row-major for the first direction marker.
#[verifier::loop_isolation(false)]
fn find_marker(lines: &Vec<Vec<char>>, Ghost(t): Ghost<Seq<char>>) -> (r: Option<
    GuardState,
>)
    requires
        lines@.len() == grid_lines(t).len(),
        forall|k: int|
            0 <= k < lines@.len() ==> lines@[k]@ == #[trigger] grid_lines(t)[k],
        load_ok(t),
    ensures
        r == start_of(t),
{
    let ghost glines = grid_lines(t);
    let mut i: usize = 0;
    while i < lines.len()
        invariant
            lines@.len() == glines.len(),
            glines == grid_lines(t),
            forall|k: int| 0 <= k < lines@.len() ==> lines@[k]@ == #[trigger] glines[k],
            i <= lines@.len(),
            marker_scan(glines, 0) == marker_scan(glines, i as int),
        decreases lines@.len() - i,
    {
        let line = &lines[i];
        let mut j: usize = 0;
        while j < line.len()
            invariant
                line@ == glines[i as int],
                0 <= i < glines.len(),
                j <= line@.len(),
                row_marker(glines[i as int], 0) == row_marker(glines[i as int], j as int),
            decreases line@.len() - j,
        {
            let ch = line[j];
            let h = heading_of(ch);
            if let Some(heading) = h {
                proof {
                    let rows_g = glines.len() as int;
                    let cols_g = grid_cols(t);
                    assert(grid_lines(t)[i as int].len() == cols_g);
                    assert(glines[i as int].len() == cols_g);
                    assert(4 * rows_g <= 4 * rows_g * cols_g) by (nonlinear_arith)
                        requires rows_g >= 1, cols_g >= 1,
                    ;
                    assert(4 * cols_g <= 4 * rows_g * cols_g) by (nonlinear_arith)
                        requires rows_g >= 1, cols_g >= 1,
                    ;
                    assert(i as int <= i64::MAX);
                    assert(j as int <= i64::MAX);
                    assert(row_marker(glines[i as int], j as int) == Some(j as int));
                    assert(marker_scan(glines, i as int) == Some((i as int, j as int)));
                }
                return Some(
                    GuardState {
                        pos: Position { row: i as i64, col: j as i64 },
                        heading,
                    },
                );
            }
            j = j + 1;
        }
        proof {
            assert(row_marker(glines[i as int], line@.len() as int) is None);
            assert(row_marker(glines[i as int], 0) is None);
        }
        i = i + 1;
    }
    proof {
        assert(marker_scan(glines, lines@.len() as int) is None);
    }
    None
}

/// Executable twin of [`heading_of_char`].
pub fn heading_of(c: char) -> (r: Option<Heading>)
    ensures
        r == heading_of_char(c),
{
    if c == '^' {
        Some(Heading::Up)
    } else if c == '>' {
        Some(Heading::Right)
    } else if c == 'v' {
        Some(Heading::Down)
    } else if c == '<' {
        Some(Heading::Left)
    } else {
        None
    }
}

} // verus!
