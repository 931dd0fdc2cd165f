//! Level reports: each line is a row of numbers. A row is safe when it is
//! strictly monotone with adjacent gaps of one to three; the dampened mode
//! also accepts rows that pass after removing one entry.

use vstd::prelude::*;
use crate::text::{
    parse_i64, parse_i64_spec, sep_fields, split_lines, split_lines_spec,
    split_sep, to_chars,
};

verus! {

/// The cells of a row: each space-separated field parsed if possible.
pub open spec fn cells_of(fs: Seq<Seq<char>>, k: int) -> Seq<Option<i64>>
    decreases fs.len() - k,
{
    if k < 0 || k >= fs.len() {
        Seq::empty()
    } else {
        seq![parse_i64_spec(fs[k])] + cells_of(fs, k + 1)
    }
}

pub open spec fn row_of_line(l: Seq<char>) -> Seq<Option<i64>> {
    cells_of(sep_fields(l, ' '), 0)
}

/// The rows of the text; empty lines carry no row.
pub open spec fn rows_of_lines(lines: Seq<Seq<char>>, i: int) -> Seq<Seq<Option<i64>>>
    decreases lines.len() - i,
{
    if i < 0 || i >= lines.len() {
        Seq::empty()
    } else if lines[i].len() == 0 {
        rows_of_lines(lines, i + 1)
    } else {
        seq![row_of_line(lines[i])] + rows_of_lines(lines, i + 1)
    }
}

pub open spec fn rows_of(t: Seq<char>) -> Seq<Seq<Option<i64>>> {
    rows_of_lines(split_lines_spec(t), 0)
}

/// One left-to-right pass over adjacent pairs, carrying the three flags:
/// still strictly increasing, still strictly decreasing, and all gaps in
/// one to three. A gap out of range, or a missing cell, ends the pass.
pub open spec fn check_seq(
    row: Seq<Option<i64>>,
    k: int,
    inc: bool,
    dec: bool,
    val: bool,
) -> (bool, bool, bool)
    decreases row.len() - k,
{
    if k < 0 || k + 1 >= row.len() {
        (inc, dec, val)
    } else {
        match (row[k], row[k + 1]) {
            (Some(a), Some(b)) => {
                let d = if b >= a {
                    b - a
                } else {
                    a - b
                };
                if !(1 <= d && d <= 3) {
                    (inc, dec, false)
                } else {
                    check_seq(row, k + 1, inc && a < b, dec && a > b, val)
                }
            },
            _ => (inc, dec, val),
        }
    }
}

/// Is a row safe as written?
pub open spec fn safe(row: Seq<Option<i64>>) -> bool {
    let (inc, dec, val) = check_seq(row, 0, true, true, true);
    (inc || dec) && val
}

/// Is a row safe as written, or after removing one cell?
pub open spec fn dampened_safe(row: Seq<Option<i64>>) -> bool {
    safe(row) || exists|d: int| 0 <= d < row.len() && safe(#[trigger] row.remove(d))
}

pub open spec fn safe_count(rows: Seq<Seq<Option<i64>>>) -> int
    decreases rows.len(),
{
    if rows.len() == 0 {
        0
    } else {
        (if safe(rows[0]) {
            1int
        } else {
            0
        }) + safe_count(rows.drop_first())
    }
}

pub open spec fn dampened_count(rows: Seq<Seq<Option<i64>>>) -> int
    decreases rows.len(),
{
    if rows.len() == 0 {
        0
    } else {
        (if dampened_safe(rows[0]) {
            1int
        } else {
            0
        }) + dampened_count(rows.drop_first())
    }
}

/// Executable twin of [`check_seq`], from the start with all flags up.
pub fn check_sequence_no_skip(row: &Vec<Option<i64>>) -> (r: (bool, bool, bool))
    ensures
        r == check_seq(row@, 0, true, true, true),
{
    let mut inc = true;
    let mut dec = true;
    let mut val = true;
    let mut k: usize = 0;
    let n = row.len();
    while n > 0 && k < n - 1
        invariant_except_break
            k <= n,
            n == row@.len(),
            check_seq(row@, 0, true, true, true) == check_seq(
                row@, k as int, inc, dec, val),
        ensures
            (inc, dec, val) == check_seq(row@, 0, true, true, true),
        decreases n - k,
    {
        match (row[k], row[k + 1]) {
            (Some(a), Some(b)) => {
                let d: i64 = if b >= a {
                    if (b as i128 - a as i128) > 3 {
                        4
                    } else {
                        b - a
                    }
                } else {
                    if (a as i128 - b as i128) > 3 {
                        4
                    } else {
                        a - b
                    }
                };
                if !(1 <= d && d <= 3) {
                    proof {
                        let ghost dd = if row@[k as int].unwrap()
                            <= row@[k + 1].unwrap() {
                            row@[k + 1].unwrap() - row@[k as int].unwrap()
                        } else {
                            row@[k as int].unwrap() - row@[k + 1].unwrap()
                        };
                        assert(!(1 <= dd && dd <= 3));
                    }
                    val = false;
                    break ;
                }
                inc = inc && a < b;
                dec = dec && a > b;
            },
            _ => {
                break ;
            },
        }
        k = k + 1;
    }
    (inc, dec, val)
}

/// Is the row safe as written?
pub fn row_safe(row: &Vec<Option<i64>>) -> (r: bool)
    ensures
        r == safe(row@),
{
    let (inc, dec, val) = check_sequence_no_skip(row);
    (inc || dec) && val
}

/// Copy the row without the cell at `d`.
fn remove_cell(row: &Vec<Option<i64>>, d: usize) -> (r: Vec<Option<i64>>)
    requires
        d < row@.len(),
    ensures
        r@ == row@.remove(d as int),
{
    let mut r: Vec<Option<i64>> = Vec::new();
    let mut i: usize = 0;
    while i < row.len()
        invariant
            i <= row@.len(),
            d < row@.len(),
            i <= d ==> r@ == row@.subrange(0, i as int),
            i > d ==> r@ == row@.subrange(0, d as int) + row@.subrange(
                d + 1, i as int),
        decreases row@.len() - i,
    {
        if i != d {
            r.push(row[i]);
        }
        i = i + 1;
        proof {
            if i <= d {
                assert(r@ =~= row@.subrange(0, i as int));
            } else if i - 1 == d {
                assert(r@ =~= row@.subrange(0, d as int) + row@.subrange(
                    d + 1, i as int));
            } else {
                assert(r@ =~= row@.subrange(0, d as int) + row@.subrange(
                    d + 1, i as int));
            }
        }
    }
    proof {
        assert(r@ =~= row@.remove(d as int));
    }
    r
}

/// Is the row safe as written or after one removal?
#[verifier::loop_isolation(false)]
pub fn row_dampened_safe(row: &Vec<Option<i64>>) -> (r: bool)
    ensures
        r == dampened_safe(row@),
{
    if row_safe(row) {
        return true;
    }
    let mut d: usize = 0;
    while d < row.len()
        invariant
            d <= row@.len(),
            forall|d2: int| 0 <= d2 < d ==> !safe(#[trigger] row@.remove(d2)),
        decreases row@.len() - d,
    {
        let shorter = remove_cell(row, d);
        if row_safe(&shorter) {
            proof {
                assert(safe(row@.remove(d as int)));
            }
            return true;
        }
        d = d + 1;
    }
    false
}

/// Parse the rows, mirroring [`rows_of`].
#[verifier::loop_isolation(false)]
pub fn parse(input: &str) -> (rows: Vec<Vec<Option<i64>>>)
    ensures
        rows@.len() == rows_of(input@).len(),
        forall|i: int| 0 <= i < rows@.len() ==> rows@[i]@ == rows_of(input@)[i],
{
    let chars = to_chars(input);
    let lines = split_lines(&chars);
    let ghost glines = split_lines_spec(chars@);
    let mut rows: Vec<Vec<Option<i64>>> = Vec::new();
    let mut li: usize = 0;
    while li < lines.len()
        invariant
            li <= lines@.len(),
            rows_of_lines(glines, 0) =~= row_views(rows@) + rows_of_lines(
                glines, li as int),
        decreases lines@.len() - li,
    {
        let line = &lines[li];
        if line.len() > 0 {
            let fields = split_sep(line, ' ');
            let ghost gf = sep_fields(line@, ' ');
            let mut row: Vec<Option<i64>> = Vec::new();
            let mut k: usize = 0;
            proof {
                assert(row@ + cells_of(gf, 0) =~= cells_of(gf, 0));
            }
            while k < fields.len()
                invariant
                    k <= fields@.len(),
                    cells_of(gf, 0) =~= row@ + cells_of(gf, k as int),
                decreases fields@.len() - k,
            {
                let cell = parse_i64(&fields[k]);
                proof {
                    assert(fields@[k as int]@ == gf[k as int]);
                }
                let ghost pre = row@;
                row.push(cell);
                proof {
                    assert(cells_of(gf, k as int) == seq![
                        parse_i64_spec(gf[k as int])] + cells_of(gf, k + 1));
                    assert(pre + (seq![parse_i64_spec(gf[k as int])] + cells_of(
                        gf, k + 1)) =~= row@ + cells_of(gf, k + 1));
                }
                k = k + 1;
            }
            proof {
                assert(cells_of(gf, fields@.len() as int) =~= Seq::empty());
                assert(row@ + Seq::<Option<i64>>::empty() =~= row@);
                assert(row@ == row_of_line(line@));
            }
            rows.push(row);
            proof {
                assert(row_views(rows@) =~= row_views(rows@.drop_last()).push(
                    rows@.last()@));
                assert(glines[li as int] == line@);
            }
        } else {
            proof {
                assert(glines[li as int].len() == 0);
            }
        }
        li = li + 1;
    }
    proof {
        assert(rows_of_lines(glines, lines@.len() as int) =~= Seq::empty());
        assert forall|i: int|
            0 <= i < rows@.len() implies rows@[i]@ == rows_of(input@)[i] by {
            assert(row_views(rows@)[i] == rows@[i]@);
        }
    }
    rows
}

/// The views of parsed rows.
pub open spec fn row_views(rs: Seq<Vec<Option<i64>>>) -> Seq<Seq<Option<i64>>> {
    rs.map_values(|r: Vec<Option<i64>>| r@)
}

/// Count of safe rows.
#[verifier::loop_isolation(false)]
pub fn part_one(input: &str) -> (r: Option<u64>)
    ensures
        r == Some((safe_count(rows_of(input@)) as u64)),
{
    let rows = parse(input);
    let ghost grows = rows_of(input@);
    let mut count: u64 = 0;
    let mut i: usize = 0;
    proof {
        assert(grows.subrange(0, grows.len() as int) =~= grows);
        lemma_safe_count_bounds(grows, 0);
    }
    while i < rows.len()
        invariant
            i <= rows@.len(),
            safe_count(grows) == count + safe_count(
                grows.subrange(i as int, grows.len() as int)),
            count <= i,
        decreases rows@.len() - i,
    {
        let ghost rest = grows.subrange(i as int, grows.len() as int);
        proof {
            assert(rest[0] == grows[i as int]);
            assert(rest.drop_first() =~= grows.subrange(i + 1, grows.len() as int));
        }
        if row_safe(&rows[i]) {
            count = count + 1;
        }
        i = i + 1;
    }
    proof {
        assert(safe_count(grows.subrange(rows@.len() as int, grows.len() as int))
            == 0);
    }
    Some(count)
}

/// Count of rows safe outright or after removing one cell.
#[verifier::loop_isolation(false)]
pub fn part_two(input: &str) -> (r: Option<u64>)
    ensures
        r == Some((dampened_count(rows_of(input@)) as u64)),
{
    let rows = parse(input);
    let ghost grows = rows_of(input@);
    let mut count: u64 = 0;
    let mut i: usize = 0;
    proof {
        assert(grows.subrange(0, grows.len() as int) =~= grows);
    }
    while i < rows.len()
        invariant
            i <= rows@.len(),
            dampened_count(grows) == count + dampened_count(
                grows.subrange(i as int, grows.len() as int)),
            count <= i,
        decreases rows@.len() - i,
    {
        let ghost rest = grows.subrange(i as int, grows.len() as int);
        proof {
            assert(rest[0] == grows[i as int]);
            assert(rest.drop_first() =~= grows.subrange(i + 1, grows.len() as int));
        }
        if row_dampened_safe(&rows[i]) {
            count = count + 1;
        }
        i = i + 1;
    }
    proof {
        assert(dampened_count(grows.subrange(rows@.len() as int, grows.len() as int))
            == 0);
    }
    Some(count)
}

proof fn lemma_safe_count_bounds(rows: Seq<Seq<Option<i64>>>, k: int)
    ensures
        safe_count(rows) >= 0,
    decreases rows.len(),
{
    if rows.len() > 0 {
        lemma_safe_count_bounds(rows.drop_first(), k);
    }
}

} // verus!
