//! Word search: count straight four-letter windows spelling the target
//! word forwards or backwards, along rows, columns and both diagonals; the
//! second mode counts crossed three-letter diagonals around a centre.

use vstd::prelude::*;
use crate::text::{split_lines, split_lines_spec, to_chars};

verus! {

pub open spec fn search_lines(t: Seq<char>) -> Seq<Seq<char>> {
    split_lines_spec(t)
}

pub open spec fn rows_of(lines: Seq<Seq<char>>) -> int {
    lines.len() as int
}

pub open spec fn cols_of(lines: Seq<Seq<char>>) -> int {
    if lines.len() == 0 {
        0
    } else {
        lines[0].len() as int
    }
}

pub open spec fn rect(lines: Seq<Seq<char>>) -> bool {
    forall|r: int|
        0 <= r < lines.len() ==> (#[trigger] lines[r]).len() == cols_of(lines)
}

pub open spec fn xmas_word() -> Seq<char> {
    seq!['X', 'M', 'A', 'S']
}

pub open spec fn samx_word() -> Seq<char> {
    seq!['S', 'A', 'M', 'X']
}

/// The four window cells in direction `(dr, dc)` all lie on the grid.
pub open spec fn win_ok(lines: Seq<Seq<char>>, r: int, c: int, dr: int, dc: int) -> bool {
    &&& 0 <= r < lines.len() && 0 <= c < lines[r].len()
    &&& 0 <= r + dr < lines.len() && 0 <= c + dc < lines[r + dr].len()
    &&& 0 <= r + 2 * dr < lines.len() && 0 <= c + 2 * dc < lines[r + 2 * dr].len()
    &&& 0 <= r + 3 * dr < lines.len() && 0 <= c + 3 * dc < lines[r + 3 * dr].len()
}

/// The four characters of the window.
pub open spec fn win(lines: Seq<Seq<char>>, r: int, c: int, dr: int, dc: int) -> Seq<
    char,
> {
    seq![
        lines[r][c],
        lines[r + dr][c + dc],
        lines[r + 2 * dr][c + 2 * dc],
        lines[r + 3 * dr][c + 3 * dc],
    ]
}

/// How many of the two spellings the window shows: zero or one.
pub open spec fn hit(lines: Seq<Seq<char>>, r: int, c: int, dr: int, dc: int) -> int {
    if win_ok(lines, r, c, dr, dc) {
        (if win(lines, r, c, dr, dc) == xmas_word() {
            1int
        } else {
            0
        }) + (if win(lines, r, c, dr, dc) == samx_word() {
            1int
        } else {
            0
        })
    } else {
        0
    }
}

pub open spec fn row_cnt(
    lines: Seq<Seq<char>>,
    r: int,
    c: int,
    chi: int,
    dr: int,
    dc: int,
) -> int
    decreases chi - c,
{
    if c >= chi {
        0
    } else {
        hit(lines, r, c, dr, dc) + row_cnt(lines, r, c + 1, chi, dr, dc)
    }
}

pub open spec fn rect_cnt(
    lines: Seq<Seq<char>>,
    r: int,
    rhi: int,
    clo: int,
    chi: int,
    dr: int,
    dc: int,
) -> int
    decreases rhi - r,
{
    if r >= rhi {
        0
    } else {
        row_cnt(lines, r, clo, chi, dr, dc) + rect_cnt(
            lines, r + 1, rhi, clo, chi, dr, dc)
    }
}

pub proof fn lemma_row_cnt_nonneg(
    lines: Seq<Seq<char>>,
    r: int,
    c: int,
    chi: int,
    dr: int,
    dc: int,
)
    ensures
        row_cnt(lines, r, c, chi, dr, dc) >= 0,
    decreases chi - c,
{
    if c < chi {
        lemma_row_cnt_nonneg(lines, r, c + 1, chi, dr, dc);
    }
}

pub proof fn lemma_rect_cnt_nonneg(
    lines: Seq<Seq<char>>,
    r: int,
    rhi: int,
    clo: int,
    chi: int,
    dr: int,
    dc: int,
)
    ensures
        rect_cnt(lines, r, rhi, clo, chi, dr, dc) >= 0,
    decreases rhi - r,
{
    if r < rhi {
        lemma_row_cnt_nonneg(lines, r, clo, chi, dr, dc);
        lemma_rect_cnt_nonneg(lines, r + 1, rhi, clo, chi, dr, dc);
    }
}

/// The grid accepts the four-letter search: rectangular with room for a
/// window in every direction.
pub open spec fn search_ok(t: Seq<char>) -> bool {
    let lines = search_lines(t);
    rect(lines) && rows_of(lines) >= 4 && cols_of(lines) >= 4
}

/// The whole straight-window total: rows forwards and backwards, then the
/// two diagonal families and the verticals.
pub open spec fn straight_total(t: Seq<char>) -> int {
    let lines = search_lines(t);
    let rows = rows_of(lines);
    let cols = cols_of(lines);
    rect_cnt(lines, 0, rows, 0, cols - 3, 0, 1) + rect_cnt(
        lines, 0, rows - 3, 0, cols - 3, 1, 1) + rect_cnt(
        lines, 0, rows - 3, 3, cols, 1, -1) + rect_cnt(
        lines, 0, rows - 3, 0, cols, 1, 0)
}

/// `x + d` on indices, for small signed offsets.
fn add_off(x: usize, d: i64) -> (r: usize)
    requires
        -4 <= d <= 4,
        0 <= x as int + d <= usize::MAX,
    ensures
        r as int == x as int + d,
{
    if d >= 0 {
        x + (d as usize)
    } else {
        x - ((-d) as usize)
    }
}

/// Count the window hits over a rectangle of start positions.
#[verifier::loop_isolation(false)]
fn count_family(
    lines: &Vec<Vec<char>>,
    Ghost(gl): Ghost<Seq<Seq<char>>>,
    rlo: usize,
    rhi: usize,
    clo: usize,
    chi: usize,
    dr: i64,
    dc: i64,
) -> (r: Option<u64>)
    requires
        lines@.len() == gl.len(),
        forall|k: int| 0 <= k < gl.len() ==> lines@[k]@ == #[trigger] gl[k],
        rhi <= gl.len(),
        forall|r0: int, c0: int|
            rlo <= r0 < rhi && clo <= c0 < chi ==> win_ok(
                gl, r0, c0, dr as int, dc as int),
        -4 <= dr <= 4 && -4 <= dc <= 4,
    ensures
        match r {
            Some(n) => n as int == rect_cnt(
                gl, rlo as int, rhi as int, clo as int, chi as int, dr as int,
                dc as int),
            None => rect_cnt(
                gl, rlo as int, rhi as int, clo as int, chi as int, dr as int,
                dc as int) > u64::MAX,
        },
{
    let mut total: u64 = 0;
    let mut r: usize = rlo;
    if r >= rhi {
        proof {
            assert(rect_cnt(
                gl, rlo as int, rhi as int, clo as int, chi as int, dr as int,
                dc as int) == 0);
        }
        return Some(0);
    }
    while r < rhi
        invariant
            rlo <= r <= rhi,
            rect_cnt(gl, rlo as int, rhi as int, clo as int, chi as int, dr as int,
                dc as int) == total + rect_cnt(
                gl, r as int, rhi as int, clo as int, chi as int, dr as int,
                dc as int),
        decreases rhi - r,
    {
        let mut c: usize = clo;
        if c >= chi {
            proof {
                assert(row_cnt(gl, r as int, clo as int, chi as int, dr as int,
                    dc as int) == 0);
            }
        }
        while c < chi
            invariant
                r < rhi,
                clo <= c <= chi || (clo > chi && c == clo),
                rect_cnt(gl, rlo as int, rhi as int, clo as int, chi as int,
                    dr as int, dc as int) == total + row_cnt(
                    gl, r as int, c as int, chi as int, dr as int, dc as int)
                    + rect_cnt(
                    gl, r + 1, rhi as int, clo as int, chi as int, dr as int,
                    dc as int),
            decreases chi - c,
        {
            proof {
                assert(win_ok(gl, r as int, c as int, dr as int, dc as int));
            }
            // The length calls below pin each index range inside `usize`.
            let _rows_fit = lines.len();
            let w0 = lines[r][c];
            let r1 = add_off(r, dr);
            let row1 = &lines[r1];
            let _fit1 = row1.len();
            let c1 = add_off(c, dc);
            let w1 = row1[c1];
            let r2 = add_off(r1, dr);
            let row2 = &lines[r2];
            let _fit2 = row2.len();
            let c2 = add_off(c1, dc);
            let w2 = row2[c2];
            let r3 = add_off(r2, dr);
            let row3 = &lines[r3];
            let _fit3 = row3.len();
            let c3 = add_off(c2, dc);
            let w3 = row3[c3];
            let mut here: u64 = 0;
            if w0 == 'X' && w1 == 'M' && w2 == 'A' && w3 == 'S' {
                here = here + 1;
                proof {
                    assert(win(gl, r as int, c as int, dr as int, dc as int)
                        =~= xmas_word());
                }
            } else {
                proof {
                    assert(win(gl, r as int, c as int, dr as int, dc as int)
                        != xmas_word()) by {
                        if win(gl, r as int, c as int, dr as int, dc as int)
                            == xmas_word() {
                            assert(win(
                                gl, r as int, c as int, dr as int, dc as int,
                            )[0] == 'X');
                        }
                    }
                }
            }
            if w0 == 'S' && w1 == 'A' && w2 == 'M' && w3 == 'X' {
                here = here + 1;
                proof {
                    assert(win(gl, r as int, c as int, dr as int, dc as int)
                        =~= samx_word());
                }
            } else {
                proof {
                    assert(win(gl, r as int, c as int, dr as int, dc as int)
                        != samx_word()) by {
                        if win(gl, r as int, c as int, dr as int, dc as int)
                            == samx_word() {
                            assert(win(
                                gl, r as int, c as int, dr as int, dc as int,
                            )[0] == 'S');
                        }
                    }
                }
            }
            proof {
                assert(here as int == hit(gl, r as int, c as int, dr as int,
                    dc as int));
            }
            match total.checked_add(here) {
                Some(s) => {
                    total = s;
                },
                None => {
                    proof {
                        lemma_row_cnt_nonneg(
                            gl, r as int, c + 1, chi as int, dr as int, dc as int);
                        lemma_rect_cnt_nonneg(
                            gl, r + 1, rhi as int, clo as int, chi as int,
                            dr as int, dc as int);
                    }
                    return None;
                },
            }
            c = c + 1;
        }
        r = r + 1;
    }
    Some(total)
}

/// Straight four-letter count; `None` exactly when the grid is rejected
/// (ragged, or smaller than one window) or the count exceeds `u64::MAX`.
#[verifier::loop_isolation(false)]
pub fn part_one(input: &str) -> (r: Option<u64>)
    ensures
        match r {
            Some(n) => search_ok(input@) && n as int == straight_total(input@),
            None => !search_ok(input@) || straight_total(input@) > u64::MAX,
        },
{
    let chars = to_chars(input);
    let lines = split_lines(&chars);
    let ghost gl = search_lines(chars@);
    let rows = lines.len();
    let cols = if rows > 0 { lines[0].len() } else { 0 };
    let mut i: usize = 0;
    while i < rows
        invariant
            i <= rows,
            rows == gl.len(),
            lines@.len() == gl.len(),
            forall|k: int| 0 <= k < gl.len() ==> lines@[k]@ == #[trigger] gl[k],
            cols as int == cols_of(gl),
            forall|k: int| 0 <= k < i ==> (#[trigger] gl[k]).len() == cols,
        decreases rows - i,
    {
        if lines[i].len() != cols {
            proof {
                assert(gl[i as int].len() != cols_of(gl));
                assert(!rect(gl));
            }
            return None;
        }
        i = i + 1;
    }
    assert(rect(gl));
    if rows < 4 || cols < 4 {
        return None;
    }
    proof {
        assert forall|r0: int, c0: int|
            #![trigger win_ok(gl, r0, c0, 0, 1)]
            0 <= r0 < rows as int && 0 <= c0 < cols - 3 implies win_ok(
            gl, r0, c0, 0, 1) by {
            assert(gl[r0].len() == cols_of(gl));
        }
        assert forall|r0: int, c0: int|
            #![trigger win_ok(gl, r0, c0, 1, 1)]
            0 <= r0 < rows - 3 && 0 <= c0 < cols - 3 implies win_ok(
            gl, r0, c0, 1, 1) by {
            assert(gl[r0].len() == cols_of(gl));
            assert(gl[r0 + 1].len() == cols_of(gl));
            assert(gl[r0 + 2].len() == cols_of(gl));
            assert(gl[r0 + 3].len() == cols_of(gl));
        }
        assert forall|r0: int, c0: int|
            #![trigger win_ok(gl, r0, c0, 1, -1)]
            0 <= r0 < rows - 3 && 3 <= c0 < cols as int implies win_ok(
            gl, r0, c0, 1, -1) by {
            assert(gl[r0].len() == cols_of(gl));
            assert(gl[r0 + 1].len() == cols_of(gl));
            assert(gl[r0 + 2].len() == cols_of(gl));
            assert(gl[r0 + 3].len() == cols_of(gl));
        }
        assert forall|r0: int, c0: int|
            #![trigger win_ok(gl, r0, c0, 1, 0)]
            0 <= r0 < rows - 3 && 0 <= c0 < cols as int implies win_ok(
            gl, r0, c0, 1, 0) by {
            assert(gl[r0].len() == cols_of(gl));
            assert(gl[r0 + 1].len() == cols_of(gl));
            assert(gl[r0 + 2].len() == cols_of(gl));
            assert(gl[r0 + 3].len() == cols_of(gl));
        }
    }
    let a = match count_family(&lines, Ghost(gl), 0, rows, 0, cols - 3, 0, 1) {
        Some(a) => a,
        None => {
            proof {
                lemma_rect_cnt_nonneg(gl, 0, rows - 3, 0, cols - 3, 1, 1);
                lemma_rect_cnt_nonneg(gl, 0, rows - 3, 3, cols as int, 1, -1);
                lemma_rect_cnt_nonneg(gl, 0, rows - 3, 0, cols as int, 1, 0);
            }
            return None;
        },
    };
    let b = match count_family(&lines, Ghost(gl), 0, rows - 3, 0, cols - 3, 1, 1) {
        Some(b) => b,
        None => {
            proof {
                lemma_rect_cnt_nonneg(gl, 0, rows as int, 0, cols - 3, 0, 1);
                lemma_rect_cnt_nonneg(gl, 0, rows - 3, 3, cols as int, 1, -1);
                lemma_rect_cnt_nonneg(gl, 0, rows - 3, 0, cols as int, 1, 0);
            }
            return None;
        },
    };
    let c = match count_family(&lines, Ghost(gl), 0, rows - 3, 3, cols, 1, -1) {
        Some(c) => c,
        None => {
            proof {
                lemma_rect_cnt_nonneg(gl, 0, rows as int, 0, cols - 3, 0, 1);
                lemma_rect_cnt_nonneg(gl, 0, rows - 3, 0, cols - 3, 1, 1);
                lemma_rect_cnt_nonneg(gl, 0, rows - 3, 0, cols as int, 1, 0);
            }
            return None;
        },
    };
    let d = match count_family(&lines, Ghost(gl), 0, rows - 3, 0, cols, 1, 0) {
        Some(d) => d,
        None => {
            proof {
                lemma_rect_cnt_nonneg(gl, 0, rows as int, 0, cols - 3, 0, 1);
                lemma_rect_cnt_nonneg(gl, 0, rows - 3, 0, cols - 3, 1, 1);
                lemma_rect_cnt_nonneg(gl, 0, rows - 3, 3, cols as int, 1, -1);
            }
            return None;
        },
    };
    proof {
        lemma_rect_cnt_nonneg(gl, 0, rows as int, 0, cols - 3, 0, 1);
        lemma_rect_cnt_nonneg(gl, 0, rows - 3, 0, cols - 3, 1, 1);
        lemma_rect_cnt_nonneg(gl, 0, rows - 3, 3, cols as int, 1, -1);
        lemma_rect_cnt_nonneg(gl, 0, rows - 3, 0, cols as int, 1, 0);
    }
    let ab = match a.checked_add(b) {
        Some(s) => s,
        None => {
            return None;
        },
    };
    let abc = match ab.checked_add(c) {
        Some(s) => s,
        None => {
            return None;
        },
    };
    match abc.checked_add(d) {
        Some(s) => Some(s),
        None => None,
    }
}

/// Do the two three-letter diagonals crossed at `(r, c)` both spell the
/// middle word forwards or backwards?
pub open spec fn x_hit(lines: Seq<Seq<char>>, r: int, c: int) -> int {
    if 1 <= r && r + 1 < lines.len() && 1 <= c && c + 1 < cols_of(lines) && lines[r][c]
        == 'A' && three_ok(lines, r, c) {
        1
    } else {
        0
    }
}

pub open spec fn mas_word() -> Seq<char> {
    seq!['M', 'A', 'S']
}

pub open spec fn sam_word() -> Seq<char> {
    seq!['S', 'A', 'M']
}

pub open spec fn tl_diag(lines: Seq<Seq<char>>, r: int, c: int) -> Seq<char> {
    seq![lines[r - 1][c - 1], lines[r][c], lines[r + 1][c + 1]]
}

pub open spec fn tr_diag(lines: Seq<Seq<char>>, r: int, c: int) -> Seq<char> {
    seq![lines[r - 1][c + 1], lines[r][c], lines[r + 1][c - 1]]
}

pub open spec fn three_ok(lines: Seq<Seq<char>>, r: int, c: int) -> bool {
    (tl_diag(lines, r, c) == mas_word() || tl_diag(lines, r, c) == sam_word())
        && (tr_diag(lines, r, c) == mas_word() || tr_diag(lines, r, c) == sam_word())
}

pub open spec fn x_row_cnt(lines: Seq<Seq<char>>, r: int, c: int, chi: int) -> int
    decreases chi - c,
{
    if c >= chi {
        0
    } else {
        x_hit(lines, r, c) + x_row_cnt(lines, r, c + 1, chi)
    }
}

pub open spec fn x_rect_cnt(lines: Seq<Seq<char>>, r: int, rhi: int, chi: int) -> int
    decreases rhi - r,
{
    if r >= rhi {
        0
    } else {
        x_row_cnt(lines, r, 1, chi) + x_rect_cnt(lines, r + 1, rhi, chi)
    }
}

/// The crossed-diagonal total over all centres.
pub open spec fn crossed_total(t: Seq<char>) -> int {
    let lines = search_lines(t);
    x_rect_cnt(lines, 1, rows_of(lines), cols_of(lines))
}

/// The grid accepts the crossed search: rectangular and non-empty.
pub open spec fn crossed_ok(t: Seq<char>) -> bool {
    let lines = search_lines(t);
    rect(lines) && rows_of(lines) >= 1 && cols_of(lines) >= 1
}

pub proof fn lemma_x_row_cnt_nonneg(lines: Seq<Seq<char>>, r: int, c: int, chi: int)
    ensures
        x_row_cnt(lines, r, c, chi) >= 0,
    decreases chi - c,
{
    if c < chi {
        lemma_x_row_cnt_nonneg(lines, r, c + 1, chi);
    }
}

pub proof fn lemma_x_rect_cnt_nonneg(lines: Seq<Seq<char>>, r: int, rhi: int, chi: int)
    ensures
        x_rect_cnt(lines, r, rhi, chi) >= 0,
    decreases rhi - r,
{
    if r < rhi {
        lemma_x_row_cnt_nonneg(lines, r, 1, chi);
        lemma_x_rect_cnt_nonneg(lines, r + 1, rhi, chi);
    }
}

/// Crossed three-letter count; `None` exactly when the grid is rejected
/// or the count exceeds `u64::MAX`.
#[verifier::loop_isolation(false)]
pub fn part_two(input: &str) -> (r: Option<u64>)
    ensures
        match r {
            Some(n) => crossed_ok(input@) && n as int == crossed_total(input@),
            None => !crossed_ok(input@) || crossed_total(input@) > u64::MAX,
        },
{
    let chars = to_chars(input);
    let lines = split_lines(&chars);
    let ghost gl = search_lines(chars@);
    let rows = lines.len();
    let cols = if rows > 0 { lines[0].len() } else { 0 };
    let mut i: usize = 0;
    while i < rows
        invariant
            i <= rows,
            rows == gl.len(),
            lines@.len() == gl.len(),
            forall|k: int| 0 <= k < gl.len() ==> lines@[k]@ == #[trigger] gl[k],
            cols as int == cols_of(gl),
            forall|k: int| 0 <= k < i ==> (#[trigger] gl[k]).len() == cols,
        decreases rows - i,
    {
        if lines[i].len() != cols {
            proof {
                assert(gl[i as int].len() != cols_of(gl));
                assert(!rect(gl));
            }
            return None;
        }
        i = i + 1;
    }
    assert(rect(gl));
    if rows < 1 || cols < 1 {
        return None;
    }
    let mut total: u64 = 0;
    let mut r: usize = 1;
    while r < rows
        invariant
            1 <= r <= rows || (rows < 1 && r == 1),
            x_rect_cnt(gl, 1, rows as int, cols as int) == total + x_rect_cnt(
                gl, r as int, rows as int, cols as int),
        decreases rows - r,
    {
        let mut c: usize = 1;
        if cols == 1 {
            proof {
                assert(x_row_cnt(gl, r as int, 1, cols as int) == 0);
            }
        }
        while c < cols
            invariant
                1 <= r < rows,
                1 <= c <= cols || (cols < 1 && c == 1),
                x_rect_cnt(gl, 1, rows as int, cols as int) == total + x_row_cnt(
                    gl, r as int, c as int, cols as int) + x_rect_cnt(
                    gl, r + 1, rows as int, cols as int),
            decreases cols - c,
        {
            let mut here: u64 = 0;
            if r + 1 < rows && c + 1 < cols {
                if lines[r][c] == 'A' {
                    let a0 = lines[r - 1][c - 1];
                    let a2 = lines[r + 1][c + 1];
                    let b0 = lines[r - 1][c + 1];
                    let b2 = lines[r + 1][c - 1];
                    let tl_good = (a0 == 'M' && a2 == 'S') || (a0 == 'S' && a2 == 'M');
                    let tr_good = (b0 == 'M' && b2 == 'S') || (b0 == 'S' && b2 == 'M');
                    if tl_good && tr_good {
                        here = 1;
                        proof {
                            assert(three_ok(gl, r as int, c as int)) by {
                                assert(tl_diag(gl, r as int, c as int)[0] == a0);
                                assert(tl_diag(gl, r as int, c as int)[1] == 'A');
                                assert(tl_diag(gl, r as int, c as int)[2] == a2);
                                assert(tr_diag(gl, r as int, c as int)[0] == b0);
                                assert(tr_diag(gl, r as int, c as int)[1] == 'A');
                                assert(tr_diag(gl, r as int, c as int)[2] == b2);
                                if a0 == 'M' {
                                    assert(tl_diag(gl, r as int, c as int)
                                        =~= mas_word());
                                } else {
                                    assert(tl_diag(gl, r as int, c as int)
                                        =~= sam_word());
                                }
                                if b0 == 'M' {
                                    assert(tr_diag(gl, r as int, c as int)
                                        =~= mas_word());
                                } else {
                                    assert(tr_diag(gl, r as int, c as int)
                                        =~= sam_word());
                                }
                            }
                        }
                    } else {
                        proof {
                            assert(!three_ok(gl, r as int, c as int)) by {
                                let tl = tl_diag(gl, r as int, c as int);
                                let tr = tr_diag(gl, r as int, c as int);
                                assert(tl[0] == a0 && tl[2] == a2);
                                assert(tr[0] == b0 && tr[2] == b2);
                            }
                        }
                    }
                }
            }
            proof {
                assert(here as int == x_hit(gl, r as int, c as int));
            }
            match total.checked_add(here) {
                Some(s) => {
                    total = s;
                },
                None => {
                    proof {
                        lemma_x_row_cnt_nonneg(gl, r as int, c + 1, cols as int);
                        lemma_x_rect_cnt_nonneg(gl, r + 1, rows as int, cols as int);
                    }
                    return None;
                },
            }
            c = c + 1;
        }
        r = r + 1;
    }
    Some(total)
}

} // verus!
