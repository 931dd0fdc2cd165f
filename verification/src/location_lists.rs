//! Two location lists side by side: pair the sorted columns and sum the
//! absolute distances, or score each left entry by its occurrences on the
//! right.

use vstd::prelude::*;
use vstd::multiset::Multiset;
use crate::text::{
    parse_i64, parse_i64_spec, split_lines, split_lines_spec, split_ws, to_chars,
    ws_tokens,
};

verus! {

/// The `(left, right)` pair a line denotes: its first two numeric tokens;
/// lines without two parseable tokens carry no pair.
pub open spec fn pair_of_line(l: Seq<char>) -> Option<(i64, i64)> {
    let toks = ws_tokens(l);
    if toks.len() >= 2 {
        match (parse_i64_spec(toks[0]), parse_i64_spec(toks[1])) {
            (Some(a), Some(b)) => Some((a, b)),
            _ => None,
        }
    } else {
        None
    }
}

pub open spec fn pairs_of_lines(lines: Seq<Seq<char>>, i: int) -> Seq<(i64, i64)>
    decreases lines.len() - i,
{
    if i < 0 || i >= lines.len() {
        Seq::empty()
    } else {
        match pair_of_line(lines[i]) {
            Some(p) => seq![p] + pairs_of_lines(lines, i + 1),
            None => pairs_of_lines(lines, i + 1),
        }
    }
}

pub open spec fn pairs_of(t: Seq<char>) -> Seq<(i64, i64)> {
    pairs_of_lines(split_lines_spec(t), 0)
}

pub open spec fn lefts(ps: Seq<(i64, i64)>) -> Seq<i64> {
    ps.map_values(|p: (i64, i64)| p.0)
}

pub open spec fn rights(ps: Seq<(i64, i64)>) -> Seq<i64> {
    ps.map_values(|p: (i64, i64)| p.1)
}

/// Insert into an ascending sequence, keeping it ascending.
pub open spec fn insert_sorted(x: i64, s: Seq<i64>) -> Seq<i64>
    decreases s.len(),
{
    if s.len() == 0 {
        seq![x]
    } else if x <= s[0] {
        seq![x] + s
    } else {
        seq![s[0]] + insert_sorted(x, s.drop_first())
    }
}

/// Insertion sort, one element at a time onto an accumulator.
pub open spec fn sort_acc(s: Seq<i64>, k: int, acc: Seq<i64>) -> Seq<i64>
    decreases s.len() - k,
{
    if k < 0 || k >= s.len() {
        acc
    } else {
        sort_acc(s, k + 1, insert_sorted(s[k], acc))
    }
}

/// The ascending rearrangement of `s`.
pub open spec fn sort_spec(s: Seq<i64>) -> Seq<i64> {
    sort_acc(s, 0, Seq::empty())
}

pub open spec fn sorted(s: Seq<i64>) -> bool {
    forall|i: int, j: int| 0 <= i < j < s.len() ==> s[i] <= s[j]
}

proof fn lemma_insert_sorted_len(x: i64, s: Seq<i64>)
    ensures
        insert_sorted(x, s).len() == s.len() + 1,
    decreases s.len(),
{
    if s.len() > 0 && !(x <= s[0]) {
        lemma_insert_sorted_len(x, s.drop_first());
    }
}

proof fn lemma_insert_sorted_multiset(x: i64, s: Seq<i64>)
    ensures
        insert_sorted(x, s).to_multiset() == s.to_multiset().insert(x),
    decreases s.len(),
{
    broadcast use vstd::seq_lib::group_seq_properties;

    if s.len() == 0 {
        assert(insert_sorted(x, s) =~= Seq::empty().push(x));
        assert(Seq::<i64>::empty().push(x).to_multiset() =~= s.to_multiset().insert(
            x));
    } else if x <= s[0] {
        assert(insert_sorted(x, s) =~= seq![x] + s);
        assert((seq![x] + s) =~= (Seq::empty().push(x) + s));
        vstd::seq_lib::lemma_multiset_commutative(Seq::empty().push(x), s);
        assert(Seq::<i64>::empty().push(x).to_multiset() =~= Multiset::empty().insert(
            x));
        assert((Seq::empty().push(x) + s).to_multiset() =~= s.to_multiset().insert(
            x));
    } else {
        lemma_insert_sorted_multiset(x, s.drop_first());
        let rest = insert_sorted(x, s.drop_first());
        assert(insert_sorted(x, s) =~= seq![s[0]] + rest);
        vstd::seq_lib::lemma_multiset_commutative(seq![s[0]], rest);
        vstd::seq_lib::lemma_multiset_commutative(seq![s[0]], s.drop_first());
        assert(s =~= seq![s[0]] + s.drop_first());
        assert(seq![s[0]].to_multiset() =~= Multiset::empty().insert(s[0]));
        assert((seq![s[0]] + rest).to_multiset() =~= s.to_multiset().insert(x));
    }
}

proof fn lemma_insert_sorted_keeps(x: i64, s: Seq<i64>)
    requires
        sorted(s),
    ensures
        sorted(insert_sorted(x, s)),
    decreases s.len(),
{
    let r = insert_sorted(x, s);
    if s.len() == 0 {
    } else if x <= s[0] {
        assert forall|i: int, j: int| 0 <= i < j < r.len() implies r[i] <= r[j] by {
            if i == 0 {
                if j > 0 {
                    assert(r[j] == s[j - 1]);
                    if j - 1 > 0 {
                        assert(s[0] <= s[j - 1]);
                    }
                }
            }
        }
    } else {
        assert(sorted(s.drop_first())) by {
            assert(forall|i: int, j: int|
                0 <= i < j < s.drop_first().len() ==> #[trigger] s.drop_first()[i]
                    <= #[trigger] s.drop_first()[j]);
        }
        lemma_insert_sorted_keeps(x, s.drop_first());
        let rest = insert_sorted(x, s.drop_first());
        lemma_insert_sorted_len(x, s.drop_first());
        assert forall|i: int, j: int| 0 <= i < j < r.len() implies r[i] <= r[j] by {
            if i == 0 {
                assert(r[0] == s[0]);
                assert(r[j] == rest[j - 1]);
                lemma_insert_sorted_head(x, s);
            } else {
                assert(r[i] == rest[i - 1] && r[j] == rest[j - 1]);
            }
        }
    }
}

/// Every element of the inserted result is `x` or an element of `s`, so in
/// the recursive case the head stays a lower bound.
proof fn lemma_insert_sorted_head(x: i64, s: Seq<i64>)
    requires
        sorted(s),
        s.len() > 0,
        x > s[0],
    ensures
        forall|j: int|
            0 <= j < insert_sorted(x, s.drop_first()).len()
                ==> s[0] <= #[trigger] insert_sorted(x, s.drop_first())[j],
    decreases s.len(),
{
    let rest = insert_sorted(x, s.drop_first());
    lemma_insert_sorted_multiset(x, s.drop_first());
    assert forall|j: int| 0 <= j < rest.len() implies s[0] <= #[trigger] rest[j] by {
        broadcast use vstd::seq_lib::group_seq_properties;

        assert(rest.to_multiset().count(rest[j]) > 0) by {
            rest.to_multiset_ensures();
            assert(rest.contains(rest[j]));
        }
        if rest[j] == x {
        } else {
            assert(s.drop_first().to_multiset().count(rest[j]) > 0);
            s.drop_first().to_multiset_ensures();
            assert(s.drop_first().contains(rest[j]));
            let m = choose|m: int|
                0 <= m < s.drop_first().len() && s.drop_first()[m] == rest[j];
            assert(s[m + 1] == rest[j]);
        }
    }
}

/// The sorted rearrangement: same multiset, ascending order.
pub proof fn lemma_sort_spec_props(s: Seq<i64>)
    ensures
        sort_spec(s).to_multiset() == s.to_multiset(),
        sorted(sort_spec(s)),
        sort_spec(s).len() == s.len(),
{
    lemma_sort_acc_props(s, 0, Seq::empty());
    assert(s.subrange(0, s.len() as int) =~= s);
    broadcast use vstd::seq_lib::group_seq_properties;

    assert(Seq::<i64>::empty().to_multiset() =~= Multiset::empty());
    assert(sort_spec(s).to_multiset() =~= s.to_multiset());
}

proof fn lemma_sort_acc_props(s: Seq<i64>, k: int, acc: Seq<i64>)
    requires
        0 <= k <= s.len(),
        sorted(acc),
    ensures
        sort_acc(s, k, acc).to_multiset() == acc.to_multiset().add(
            s.subrange(k, s.len() as int).to_multiset()),
        sorted(sort_acc(s, k, acc)),
        sort_acc(s, k, acc).len() == acc.len() + s.len() - k,
    decreases s.len() - k,
{
    broadcast use vstd::seq_lib::group_seq_properties;

    if k >= s.len() {
        assert(s.subrange(k, s.len() as int) =~= Seq::empty());
        assert(Seq::<i64>::empty().to_multiset() =~= Multiset::empty());
        assert(acc.to_multiset().add(Multiset::empty()) =~= acc.to_multiset());
    } else {
        lemma_insert_sorted_keeps(s[k], acc);
        lemma_insert_sorted_multiset(s[k], acc);
        lemma_insert_sorted_len(s[k], acc);
        lemma_sort_acc_props(s, k + 1, insert_sorted(s[k], acc));
        let tail1 = s.subrange(k, s.len() as int);
        let tail2 = s.subrange(k + 1, s.len() as int);
        assert(tail1 =~= seq![s[k]] + tail2);
        vstd::seq_lib::lemma_multiset_commutative(seq![s[k]], tail2);
        assert(seq![s[k]].to_multiset() =~= Multiset::empty().insert(s[k]));
        assert(insert_sorted(s[k], acc).to_multiset().add(tail2.to_multiset())
            =~= acc.to_multiset().add(tail1.to_multiset()));
    }
}

/// Sort ascending, mirroring [`sort_spec`].
#[verifier::loop_isolation(false)]
pub fn sort_column(input: &Vec<i64>) -> (r: Vec<i64>)
    ensures
        r@ == sort_spec(input@),
        sorted(r@),
        r@.to_multiset() == input@.to_multiset(),
{
    proof {
        lemma_sort_spec_props(input@);
    }
    let mut out: Vec<i64> = Vec::new();
    let mut k: usize = 0;
    while k < input.len()
        invariant
            k <= input@.len(),
            sort_spec(input@) == sort_acc(input@, k as int, out@),
        decreases input@.len() - k,
    {
        let x = input[k];
        // Find the insertion point.
        let mut p: usize = 0;
        while p < out.len() && out[p] < x
            invariant
                p <= out@.len(),
                forall|m: int| 0 <= m < p ==> out@[m] < x,
            decreases out@.len() - p,
        {
            p = p + 1;
        }
        let ghost pre = out@;
        out.insert(p, x);
        proof {
            assert(insert_sorted(x, pre) =~= out@) by {
                lemma_insert_at_point(x, pre, p as int);
            }
        }
        k = k + 1;
    }
    out
}

/// Inserting at the first position whose element is not smaller matches
/// the recursive insertion.
proof fn lemma_insert_at_point(x: i64, s: Seq<i64>, p: int)
    requires
        0 <= p <= s.len(),
        forall|m: int| 0 <= m < p ==> s[m] < x,
        p < s.len() ==> !(s[p] < x),
    ensures
        insert_sorted(x, s) == s.subrange(0, p).push(x) + s.subrange(
            p, s.len() as int),
    decreases s.len(),
{
    if s.len() == 0 {
        assert(insert_sorted(x, s) =~= s.subrange(0, 0).push(x) + s.subrange(0, 0));
    } else if x <= s[0] {
        assert(p == 0);
        assert(insert_sorted(x, s) =~= s.subrange(0, 0).push(x) + s.subrange(
            0, s.len() as int));
    } else {
        assert(p >= 1);
        assert(forall|m: int|
            0 <= m < p - 1 ==> #[trigger] s.drop_first()[m] < x);
        lemma_insert_at_point(x, s.drop_first(), p - 1);
        assert(s.drop_first().subrange(0, p - 1) =~= s.subrange(1, p));
        assert(s.drop_first().subrange(p - 1, s.drop_first().len() as int)
            =~= s.subrange(p, s.len() as int));
        assert(insert_sorted(x, s) =~= seq![s[0]] + insert_sorted(
            x, s.drop_first()));
        assert(insert_sorted(x, s) =~= s.subrange(0, p).push(x) + s.subrange(
            p, s.len() as int));
    }
}

/// Sum of pairwise absolute differences of the two sequences.
pub open spec fn abs_diff_sum(a: Seq<i64>, b: Seq<i64>, k: int) -> int
    decreases a.len() - k,
{
    if k < 0 || k >= a.len() || k >= b.len() {
        0
    } else {
        (if a[k] >= b[k] {
            a[k] - b[k]
        } else {
            b[k] - a[k]
        }) + abs_diff_sum(a, b, k + 1)
    }
}

proof fn lemma_abs_diff_sum_nonneg(a: Seq<i64>, b: Seq<i64>, k: int)
    ensures
        abs_diff_sum(a, b, k) >= 0,
    decreases a.len() - k,
{
    if !(k < 0 || k >= a.len() || k >= b.len()) {
        lemma_abs_diff_sum_nonneg(a, b, k + 1);
    }
}

/// How often `x` occurs in `s`.
pub open spec fn occurrences(s: Seq<i64>, x: i64, k: int) -> int
    decreases s.len() - k,
{
    if k < 0 || k >= s.len() {
        0
    } else {
        (if s[k] == x {
            1int
        } else {
            0
        }) + occurrences(s, x, k + 1)
    }
}

/// Sum over the left column of `|left * occurrences-on-the-right|`.
pub open spec fn similarity_sum(a: Seq<i64>, b: Seq<i64>, k: int) -> int
    decreases a.len() - k,
{
    if k < 0 || k >= a.len() {
        0
    } else {
        (if a[k] * occurrences(b, a[k], 0) >= 0 {
            a[k] * occurrences(b, a[k], 0)
        } else {
            -(a[k] * occurrences(b, a[k], 0))
        }) + similarity_sum(a, b, k + 1)
    }
}

proof fn lemma_similarity_sum_nonneg(a: Seq<i64>, b: Seq<i64>, k: int)
    ensures
        similarity_sum(a, b, k) >= 0,
    decreases a.len() - k,
{
    if !(k < 0 || k >= a.len()) {
        lemma_similarity_sum_nonneg(a, b, k + 1);
    }
}

/// Parse the two columns, mirroring [`pairs_of`].
#[verifier::loop_isolation(false)]
pub fn parse(input: &str) -> (r: (Vec<i64>, Vec<i64>))
    ensures
        r.0@ == lefts(pairs_of(input@)),
        r.1@ == rights(pairs_of(input@)),
{
    let chars = to_chars(input);
    let lines = split_lines(&chars);
    let ghost glines = split_lines_spec(chars@);
    let mut a: Vec<i64> = Vec::new();
    let mut b: Vec<i64> = Vec::new();
    let mut li: usize = 0;
    while li < lines.len()
        invariant
            li <= lines@.len(),
            a@.len() == b@.len(),
            lefts(pairs_of_lines(glines, 0)) =~= a@ + lefts(
                pairs_of_lines(glines, li as int)),
            rights(pairs_of_lines(glines, 0)) =~= b@ + rights(
                pairs_of_lines(glines, li as int)),
        decreases lines@.len() - li,
    {
        let line = &lines[li];
        let tokens = split_ws(line);
        proof {
            assert(glines[li as int] == line@);
        }
        if tokens.len() >= 2 {
            proof {
                assert(tokens@[0]@ == ws_tokens(line@)[0]);
                assert(tokens@[1]@ == ws_tokens(line@)[1]);
            }
            match (parse_i64(&tokens[0]), parse_i64(&tokens[1])) {
                (Some(x), Some(y)) => {
                    proof {
                        assert(pair_of_line(line@) == Some((x, y)));
                    }
                    a.push(x);
                    b.push(y);
                    proof {
                        let p = pairs_of_lines(glines, li as int);
                        assert(lefts(p) =~= seq![x] + lefts(
                            pairs_of_lines(glines, li + 1)));
                        assert(rights(p) =~= seq![y] + rights(
                            pairs_of_lines(glines, li + 1)));
                        assert(a@ =~= a@.drop_last().push(x));
                        assert(b@ =~= b@.drop_last().push(y));
                    }
                },
                _ => {
                    proof {
                        assert(pair_of_line(line@) is None);
                    }
                },
            }
        } else {
            proof {
                assert(pair_of_line(line@) is None);
            }
        }
        li = li + 1;
    }
    proof {
        assert(lefts(pairs_of_lines(glines, lines@.len() as int)) =~= Seq::empty());
        assert(rights(pairs_of_lines(glines, lines@.len() as int)) =~= Seq::empty());
        assert(a@ + Seq::<i64>::empty() =~= a@);
        assert(b@ + Seq::<i64>::empty() =~= b@);
    }
    (a, b)
}

/// Sum of absolute distances of the sorted columns; `None` exactly when
/// that sum exceeds `u64::MAX`.
#[verifier::loop_isolation(false)]
pub fn part_one(input: &str) -> (r: Option<u64>)
    ensures
        match r {
            Some(v) => v as int == abs_diff_sum(
                sort_spec(lefts(pairs_of(input@))),
                sort_spec(rights(pairs_of(input@))), 0),
            None => abs_diff_sum(
                sort_spec(lefts(pairs_of(input@))),
                sort_spec(rights(pairs_of(input@))), 0) > u64::MAX,
        },
{
    let (a, b) = parse(input);
    let sa = sort_column(&a);
    let sb = sort_column(&b);
    proof {
        lemma_sort_spec_props(a@);
        lemma_sort_spec_props(b@);
    }
    let ghost ga = sort_spec(a@);
    let ghost gb = sort_spec(b@);
    let mut total: u64 = 0;
    let mut k: usize = 0;
    while k < sa.len()
        invariant
            k <= sa@.len(),
            sa@.len() == sb@.len(),
            abs_diff_sum(ga, gb, 0) == total + abs_diff_sum(ga, gb, k as int),
        decreases sa@.len() - k,
    {
        let x = sa[k];
        let y = sb[k];
        let d: u64 = if x >= y {
            ((x as i128) - (y as i128)) as u64
        } else {
            ((y as i128) - (x as i128)) as u64
        };
        match total.checked_add(d) {
            Some(s) => {
                total = s;
            },
            None => {
                proof {
                    lemma_abs_diff_sum_nonneg(ga, gb, k + 1);
                }
                return None;
            },
        }
        k = k + 1;
    }
    Some(total)
}

/// Count occurrences of `x` in `s`.
fn count_occurrences(s: &Vec<i64>, x: i64) -> (r: u64)
    ensures
        r as int == occurrences(s@, x, 0),
        r <= s@.len(),
{
    let mut count: u64 = 0;
    let mut k: usize = 0;
    while k < s.len()
        invariant
            k <= s@.len(),
            count <= k,
            occurrences(s@, x, 0) == count + occurrences(s@, x, k as int),
        decreases s@.len() - k,
    {
        if s[k] == x {
            count = count + 1;
        }
        k = k + 1;
    }
    count
}

/// Similarity score: each left entry times its occurrences on the right,
/// in absolute value; `None` exactly when the sum exceeds `u64::MAX`.
#[verifier::loop_isolation(false)]
pub fn part_two(input: &str) -> (r: Option<u64>)
    ensures
        match r {
            Some(v) => v as int == similarity_sum(
                lefts(pairs_of(input@)), rights(pairs_of(input@)), 0),
            None => similarity_sum(
                lefts(pairs_of(input@)), rights(pairs_of(input@)), 0) > u64::MAX,
        },
{
    let (a, b) = parse(input);
    let ghost ga = lefts(pairs_of(input@));
    let ghost gb = rights(pairs_of(input@));
    let mut total: u64 = 0;
    let mut k: usize = 0;
    while k < a.len()
        invariant
            k <= a@.len(),
            similarity_sum(ga, gb, 0) == total + similarity_sum(ga, gb, k as int),
        decreases a@.len() - k,
    {
        let x = a[k];
        let cnt = count_occurrences(&b, x);
        proof {
            assert(-0x8000_0000_0000_0000 * 0xffff_ffff_ffff_ffff
                <= (x as int) * (cnt as int)
                < 0x8000_0000_0000_0000_0000_0000_0000_0000) by (nonlinear_arith)
                requires -0x8000_0000_0000_0000 <= x as int <= 0x7fff_ffff_ffff_ffff,
                    0 <= cnt as int <= 0xffff_ffff_ffff_ffff,
            ;
            assert(-0x8000_0000_0000_0000 * 0xffff_ffff_ffff_ffff
                > -0x8000_0000_0000_0000_0000_0000_0000_0000);
        }
        let prod: i128 = (x as i128) * (cnt as i128);
        let mag: u128 = if prod >= 0 {
            prod as u128
        } else {
            (-prod) as u128
        };
        let d: u64 = if mag > u64::MAX as u128 {
            proof {
                lemma_similarity_sum_nonneg(ga, gb, k + 1);
            }
            return None;
        } else {
            mag as u64
        };
        match total.checked_add(d) {
            Some(s) => {
                total = s;
            },
            None => {
                proof {
                    lemma_similarity_sum_nonneg(ga, gb, k + 1);
                }
                return None;
            },
        }
        k = k + 1;
    }
    Some(total)
}

} // verus!
