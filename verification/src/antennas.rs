//! Antenna antinodes: every pair of same-frequency antennas projects an
//! antinode one step beyond each end of the pair; the answer counts the
//! distinct antinodes that land on the map.

use vstd::prelude::*;
use crate::text::{split_lines, split_lines_spec, to_chars};

verus! {

/// A map cell address.
#[derive(Clone, Copy, PartialEq, Eq, Structural, Debug)]
pub struct Point {
    pub x: i64,
    pub y: i64,
}

/// The map rows as character lines.
pub open spec fn map_lines(t: Seq<char>) -> Seq<Seq<char>> {
    split_lines_spec(t)
}

/// Is `p` a cell of the (possibly ragged) map?
pub open spec fn on_map(lines: Seq<Seq<char>>, p: Point) -> bool {
    0 <= p.x < lines.len() && 0 <= p.y < lines[p.x as int].len()
}

/// Does an antenna stand at `p`?
pub open spec fn antenna_at(lines: Seq<Seq<char>>, p: Point) -> bool {
    on_map(lines, p) && lines[p.x as int][p.y as int] != '.'
}

/// The frequency symbol at `p`.
pub open spec fn sym_at(lines: Seq<Seq<char>>, p: Point) -> char {
    lines[p.x as int][p.y as int]
}

/// Is `q` the antinode beyond `p1` of the pair `(p1, p2)`?
pub open spec fn node_of(p1: Point, p2: Point, q: Point) -> bool {
    q.x == 2 * p1.x - p2.x && q.y == 2 * p1.y - p2.y
}

/// The on-map antinodes of all distinct same-frequency antenna pairs.
pub open spec fn antinode_set(lines: Seq<Seq<char>>) -> Set<Point> {
    Set::new(
        |q: Point|
            on_map(lines, q) && exists|p1: Point, p2: Point|
                #[trigger] antenna_at(lines, p1) && #[trigger] antenna_at(lines, p2)
                    && sym_at(lines, p1) == sym_at(lines, p2) && p1 != p2 && node_of(
                    p1, p2, q),
    )
}

/// Dimensions small enough that antinode arithmetic stays inside `i64`.
pub open spec fn dims_ok(lines: Seq<Seq<char>>) -> bool {
    lines.len() <= usize::MAX / 4 && forall|r: int|
        0 <= r < lines.len() ==> (#[trigger] lines[r]).len() <= usize::MAX / 4
}

/// Pushing keeps old points, adds the new one, and nothing else.
proof fn lemma_push_point(s: Seq<Point>, x: Point)
    ensures
        s.push(x).contains(x),
        forall|y: Point| s.contains(y) ==> #[trigger] s.push(x).contains(y),
        forall|y: Point| #[trigger] s.push(x).contains(y) ==> y == x || s.contains(y),
{
    assert(s.push(x)[s.len() as int] == x);
    assert forall|y: Point| s.contains(y) implies #[trigger] s.push(x).contains(y) by {
        let i = choose|i: int| 0 <= i < s.len() && s[i] == y;
        assert(s.push(x)[i] == y);
    }
    assert forall|y: Point| #[trigger] s.push(x).contains(y) implies y == x
        || s.contains(y) by {
        let i = choose|i: int| 0 <= i < s.push(x).len() && s.push(x)[i] == y;
        if i < s.len() {
            assert(s[i] == y);
        }
    }
}

/// Executable membership test.
fn contains_point(v: &Vec<Point>, q: Point) -> (r: bool)
    ensures
        r == v@.contains(q),
{
    let mut i: usize = 0;
    while i < v.len()
        invariant
            i <= v@.len(),
            forall|k: int| 0 <= k < i ==> v@[k] != q,
        decreases v@.len() - i,
    {
        if v[i] == q {
            proof {
                assert(v@[i as int] == q);
            }
            return true;
        }
        i = i + 1;
    }
    false
}

/// Collect every antenna with its frequency, row-major.
#[verifier::loop_isolation(false)]
fn collect_antennas(lines: &Vec<Vec<char>>, Ghost(gl): Ghost<Seq<Seq<char>>>) -> (ants:
    Vec<(char, Point)>)
    requires
        lines@.len() == gl.len(),
        forall|k: int| 0 <= k < gl.len() ==> lines@[k]@ == #[trigger] gl[k],
        dims_ok(gl),
    ensures
        forall|k: int|
            0 <= k < ants@.len() ==> antenna_at(gl, (#[trigger] ants@[k]).1)
                && ants@[k].0 == sym_at(gl, ants@[k].1),
        forall|p: Point| antenna_at(gl, p) ==> exists|k: int|
            0 <= k < ants@.len() && (#[trigger] ants@[k]) == (sym_at(gl, p), p),
{
    let mut ants: Vec<(char, Point)> = Vec::new();
    let mut r: usize = 0;
    while r < lines.len()
        invariant
            r <= gl.len(),
            forall|k: int|
                0 <= k < ants@.len() ==> antenna_at(gl, (#[trigger] ants@[k]).1)
                    && ants@[k].0 == sym_at(gl, ants@[k].1),
            forall|p: Point|
                antenna_at(gl, p) && p.x < r ==> exists|k: int|
                    0 <= k < ants@.len() && (#[trigger] ants@[k]) == (sym_at(gl, p), p),
        decreases gl.len() - r,
    {
        let line = &lines[r];
        let mut c: usize = 0;
        while c < line.len()
            invariant
                r < gl.len(),
                line@ == gl[r as int],
                c <= line@.len(),
                forall|k: int|
                    0 <= k < ants@.len() ==> antenna_at(gl, (#[trigger] ants@[k]).1)
                        && ants@[k].0 == sym_at(gl, ants@[k].1),
                forall|p: Point|
                    antenna_at(gl, p) && (p.x < r || (p.x == r && p.y < c))
                        ==> exists|k: int|
                        0 <= k < ants@.len() && (#[trigger] ants@[k]) == (
                        sym_at(gl, p), p),
            decreases line@.len() - c,
        {
            let ch = line[c];
            if ch != '.' {
                let p = Point { x: r as i64, y: c as i64 };
                let ghost pre = ants@;
                ants.push((ch, p));
                proof {
                    assert(ants@[pre.len() as int] == (ch, p));
                    assert(antenna_at(gl, p));
                    assert forall|k: int|
                        0 <= k < ants@.len() implies antenna_at(
                        gl, (#[trigger] ants@[k]).1) && ants@[k].0 == sym_at(
                        gl, ants@[k].1) by {
                        if k < pre.len() {
                            assert(ants@[k] == pre[k]);
                        }
                    }
                    assert forall|p2: Point|
                        antenna_at(gl, p2) && (p2.x < r || (p2.x == r && p2.y < c + 1))
                            implies exists|k: int|
                            0 <= k < ants@.len() && (#[trigger] ants@[k]) == (
                            sym_at(gl, p2), p2) by {
                        if p2 == p {
                            assert(ants@[pre.len() as int] == (sym_at(gl, p2), p2));
                        } else {
                            let k = choose|k: int|
                                0 <= k < pre.len() && (#[trigger] pre[k]) == (
                                sym_at(gl, p2), p2);
                            assert(ants@[k] == (sym_at(gl, p2), p2));
                        }
                    }
                }
            } else {
                proof {
                    assert forall|p2: Point|
                        antenna_at(gl, p2) && (p2.x < r || (p2.x == r && p2.y < c + 1))
                            implies exists|k: int|
                            0 <= k < ants@.len() && (#[trigger] ants@[k]) == (
                            sym_at(gl, p2), p2) by {
                        if p2.x == r && p2.y == c {
                            assert(!antenna_at(gl, p2));
                        }
                    }
                }
            }
            c = c + 1;
        }
        r = r + 1;
    }
    ants
}

/// Count of distinct on-map antinodes; `None` exactly when the map is too
/// large for the coordinate arithmetic.
#[verifier::loop_isolation(false)]
pub fn part_one(input: &str) -> (r: Option<u64>)
    ensures
        match r {
            Some(n) => dims_ok(map_lines(input@)) && n as nat == antinode_set(
                map_lines(input@)).len(),
            None => !dims_ok(map_lines(input@)),
        },
{
    let chars = to_chars(input);
    let lines = split_lines(&chars);
    let ghost gl = map_lines(chars@);
    if lines.len() > usize::MAX / 4 {
        return None;
    }
    let mut r: usize = 0;
    while r < lines.len()
        invariant
            r <= gl.len(),
            lines@.len() == gl.len(),
            forall|k: int| 0 <= k < gl.len() ==> lines@[k]@ == #[trigger] gl[k],
            forall|k: int| 0 <= k < r ==> (#[trigger] gl[k]).len() <= usize::MAX / 4,
        decreases gl.len() - r,
    {
        if lines[r].len() > usize::MAX / 4 {
            proof {
                assert(gl[r as int].len() > usize::MAX / 4);
                assert(!dims_ok(gl));
            }
            return None;
        }
        r = r + 1;
    }
    assert(dims_ok(gl));
    let ants = collect_antennas(&lines, Ghost(gl));
    let mut out: Vec<Point> = Vec::new();
    let mut i: usize = 0;
    while i < ants.len()
        invariant
            i <= ants@.len(),
            out@.no_duplicates(),
            forall|q: Point|
                #[trigger] out@.contains(q) <==> (on_map(gl, q) && exists|
                ia: int,
                ja: int,
            |
                    0 <= ia < ants@.len() && 0 <= ja < ants@.len() && (ia < i || (ia
                        == i && ja < 0)) && pair_node(ants@, ia, ja, q)),
        decreases ants@.len() - i,
    {
        let (s1, p1) = ants[i];
        let mut j: usize = 0;
        while j < ants.len()
            invariant
                i < ants@.len(),
                j <= ants@.len(),
                (s1, p1) == ants@[i as int],
                out@.no_duplicates(),
                forall|q: Point|
                    #[trigger] out@.contains(q) <==> (on_map(gl, q) && exists|
                    ia: int,
                    ja: int,
                |
                        0 <= ia < ants@.len() && 0 <= ja < ants@.len() && (ia < i || (
                        ia == i && ja < j)) && pair_node(ants@, ia, ja, q)),
            decreases ants@.len() - j,
        {
            let (s2, p2) = ants[j];
            if s1 == s2 && !(p1 == p2) {
                proof {
                    assert(antenna_at(gl, p1));
                    assert(antenna_at(gl, p2));
                    assert(0 <= p1.x < gl.len());
                    assert(0 <= p1.y < gl[p1.x as int].len());
                    assert(gl[p1.x as int].len() <= usize::MAX / 4);
                    assert(0 <= p2.x < gl.len());
                    assert(0 <= p2.y < gl[p2.x as int].len());
                    assert(gl[p2.x as int].len() <= usize::MAX / 4);
                }
                let q = Point { x: 2 * p1.x - p2.x, y: 2 * p1.y - p2.y };
                let mut on = false;
                if q.x >= 0 && q.y >= 0 {
                    let qx = q.x as usize;
                    if qx < lines.len() {
                        let qy = q.y as usize;
                        if qy < lines[qx].len() {
                            on = true;
                        }
                    }
                }
                proof {
                    assert(on == on_map(gl, q));
                }
                if on {
                    if !contains_point(&out, q) {
                        let ghost pre = out@;
                        proof {
                            lemma_push_point(out@, q);
                        }
                        out.push(q);
                        proof {
                            assert(out@.no_duplicates());
                        }
                    }
                }
                proof {
                    assert(pair_node(ants@, i as int, j as int, q));
                }
            }
            j = j + 1;
            proof {
                let ghost jj = j as int;
                assert forall|q2: Point|
                    #[trigger] out@.contains(q2) implies (on_map(gl, q2) && exists|
                    ia: int,
                    ja: int,
                |
                        0 <= ia < ants@.len() && 0 <= ja < ants@.len() && (ia < i || (
                        ia == i && ja < jj)) && pair_node(ants@, ia, ja, q2)) by {}
                assert forall|q2: Point|
                    (on_map(gl, q2) && exists|ia: int, ja: int|
                        0 <= ia < ants@.len() && 0 <= ja < ants@.len() && (ia < i || (
                        ia == i && ja < jj)) && pair_node(ants@, ia, ja, q2))
                        implies #[trigger] out@.contains(q2) by {
                    let (ia, ja) = choose|ia: int, ja: int|
                        0 <= ia < ants@.len() && 0 <= ja < ants@.len() && (ia < i || (
                        ia == i && ja < jj)) && pair_node(ants@, ia, ja, q2);
                    if ia < i || ja < jj - 1 {
                    } else {
                        assert(ia == i && ja == jj - 1);
                    }
                }
            }
        }
        i = i + 1;
        proof {
            assert forall|q2: Point|
                (on_map(gl, q2) && exists|ia: int, ja: int|
                    0 <= ia < ants@.len() && 0 <= ja < ants@.len() && (ia < i || (ia
                    == i && ja < 0)) && pair_node(ants@, ia, ja, q2))
                    implies #[trigger] out@.contains(q2) by {
                let (ia, ja) = choose|ia: int, ja: int|
                    0 <= ia < ants@.len() && 0 <= ja < ants@.len() && (ia < i || (ia
                    == i && ja < 0)) && pair_node(ants@, ia, ja, q2);
                assert(ia < i - 1 || (ia == i - 1 && ja < ants@.len()));
            }
        }
    }
    proof {
        assert(out@.to_set() =~= antinode_set(gl)) by {
            assert forall|q: Point|
                out@.to_set().contains(q) implies antinode_set(gl).contains(q) by {
                assert(out@.contains(q));
                let (ia, ja) = choose|ia: int, ja: int|
                    0 <= ia < ants@.len() && 0 <= ja < ants@.len() && (ia < i || (ia
                    == i && ja < 0)) && pair_node(ants@, ia, ja, q);
                assert(antenna_at(gl, ants@[ia].1));
                assert(antenna_at(gl, ants@[ja].1));
            }
            assert forall|q: Point|
                antinode_set(gl).contains(q) implies out@.to_set().contains(q) by {
                let (p1, p2) = choose|p1: Point, p2: Point|
                    #[trigger] antenna_at(gl, p1) && #[trigger] antenna_at(gl, p2)
                        && sym_at(gl, p1) == sym_at(gl, p2) && p1 != p2 && node_of(
                        p1, p2, q);
                let ka = choose|k: int|
                    0 <= k < ants@.len() && (#[trigger] ants@[k]) == (sym_at(gl, p1), p1);
                let kb = choose|k: int|
                    0 <= k < ants@.len() && (#[trigger] ants@[k]) == (sym_at(gl, p2), p2);
                assert(pair_node(ants@, ka, kb, q));
                assert(out@.contains(q));
            }
        }
        out@.unique_seq_to_set();
    }
    Some(out.len() as u64)
}

/// Does the ordered antenna pair `(ia, ja)` produce antinode `q`?
pub open spec fn pair_node(ants: Seq<(char, Point)>, ia: int, ja: int, q: Point) -> bool {
    ants[ia].0 == ants[ja].0 && ants[ia].1 != ants[ja].1 && node_of(
        ants[ia].1, ants[ja].1, q)
}

/// The second half of this puzzle is not solved here.
pub fn part_two(input: &str) -> (r: Option<u64>)
    ensures
        r is None,
{
    let _ = input;
    None
}

} // verus!
