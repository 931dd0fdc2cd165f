//! Page-ordering rules: `a|b` lines demand that page `a` come before page
//! `b`; comma lines are page sequences. In-order sequences contribute their
//! middle page; out-of-order ones are reordered first.

use vstd::prelude::*;
use crate::text::{
    find_char, find_char_at, parse_u64, parse_u64_spec, sep_fields, split_lines,
    split_lines_spec, split_sep, to_chars, trim, trim_spec,
};

verus! {

/// Does the line hold the given character?
pub open spec fn has_char(l: Seq<char>, c: char) -> bool {
    find_char(l, 0, c) < l.len()
}

/// The ordering rule a line denotes: two numeric fields around one bar.
pub open spec fn rule_of_line(l: Seq<char>) -> Option<(u64, u64)> {
    if has_char(l, '|') {
        let fs = sep_fields(l, '|');
        if fs.len() == 2 {
            match (
                parse_u64_spec(trim_spec(fs[0])),
                parse_u64_spec(trim_spec(fs[1])),
            ) {
                (Some(a), Some(b)) => Some((a, b)),
                _ => None,
            }
        } else {
            None
        }
    } else {
        None
    }
}

/// All fields parsed as pages, or `None` if any fails.
pub open spec fn parse_all(fs: Seq<Seq<char>>, k: int) -> Option<Seq<u64>>
    decreases fs.len() - k,
{
    if k < 0 || k >= fs.len() {
        Some(Seq::empty())
    } else {
        match (parse_u64_spec(trim_spec(fs[k])), parse_all(fs, k + 1)) {
            (Some(n), Some(rest)) => Some(seq![n] + rest),
            _ => None,
        }
    }
}

/// The page sequence a line denotes: comma-separated numeric fields on a
/// line without a bar.
pub open spec fn record_of_line(l: Seq<char>) -> Option<Seq<u64>> {
    if !has_char(l, '|') && has_char(l, ',') {
        parse_all(sep_fields(l, ','), 0)
    } else {
        None
    }
}

pub open spec fn rules_of_lines(lines: Seq<Seq<char>>, i: int) -> Seq<(u64, u64)>
    decreases lines.len() - i,
{
    if i < 0 || i >= lines.len() {
        Seq::empty()
    } else {
        match rule_of_line(lines[i]) {
            Some(r) => seq![r] + rules_of_lines(lines, i + 1),
            None => rules_of_lines(lines, i + 1),
        }
    }
}

pub open spec fn records_of_lines(lines: Seq<Seq<char>>, i: int) -> Seq<Seq<u64>>
    decreases lines.len() - i,
{
    if i < 0 || i >= lines.len() {
        Seq::empty()
    } else {
        match record_of_line(lines[i]) {
            Some(r) => seq![r] + records_of_lines(lines, i + 1),
            None => records_of_lines(lines, i + 1),
        }
    }
}

pub open spec fn rules_of(t: Seq<char>) -> Seq<(u64, u64)> {
    rules_of_lines(split_lines_spec(t), 0)
}

pub open spec fn records_of(t: Seq<char>) -> Seq<Seq<u64>> {
    records_of_lines(split_lines_spec(t), 0)
}

/// Is there a rule demanding `a` before `b`?
pub open spec fn rule_exists(rules: Seq<(u64, u64)>, a: u64, b: u64) -> bool {
    exists|r: int| 0 <= r < rules.len() && rules[r] == (a, b)
}

/// A record is in order when no rule demands a later page before an
/// earlier one.
pub open spec fn record_ok(rec: Seq<u64>, rules: Seq<(u64, u64)>) -> bool {
    forall|i: int, j: int|
        0 <= i < rec.len() && 0 <= j < rec.len() && rule_exists(
            rules, #[trigger] rec[i], #[trigger] rec[j]) ==> i < j
}

/// Adjacent swap.
pub open spec fn swapped(s: Seq<u64>, i: int) -> Seq<u64> {
    s.update(i, s[i + 1]).update(i + 1, s[i])
}

/// One bubble pass from position `i`: swap an adjacent pair whenever a
/// rule demands the later page first.
pub open spec fn bubble_pass(s: Seq<u64>, rules: Seq<(u64, u64)>, i: int) -> Seq<u64>
    decreases s.len() - i,
{
    if i < 0 || i + 1 >= s.len() {
        s
    } else if rule_exists(rules, s[i + 1], s[i]) {
        bubble_pass(swapped(s, i), rules, i + 1)
    } else {
        bubble_pass(s, rules, i + 1)
    }
}

/// Bubble passes until a fixed point, but at most `fuel` of them.
pub open spec fn bubble(s: Seq<u64>, rules: Seq<(u64, u64)>, fuel: int) -> Seq<u64>
    decreases fuel,
{
    if fuel <= 0 {
        s
    } else {
        let p = bubble_pass(s, rules, 0);
        if p == s {
            s
        } else {
            bubble(p, rules, fuel - 1)
        }
    }
}

pub proof fn lemma_bubble_pass_len(s: Seq<u64>, rules: Seq<(u64, u64)>, i: int)
    ensures
        bubble_pass(s, rules, i).len() == s.len(),
    decreases s.len() - i,
{
    if !(i < 0 || i + 1 >= s.len()) {
        if rule_exists(rules, s[i + 1], s[i]) {
            lemma_bubble_pass_len(swapped(s, i), rules, i + 1);
        } else {
            lemma_bubble_pass_len(s, rules, i + 1);
        }
    }
}

pub proof fn lemma_bubble_len(s: Seq<u64>, rules: Seq<(u64, u64)>, fuel: int)
    ensures
        bubble(s, rules, fuel).len() == s.len(),
    decreases fuel,
{
    if fuel > 0 {
        lemma_bubble_pass_len(s, rules, 0);
        let p = bubble_pass(s, rules, 0);
        if p != s {
            lemma_bubble_len(p, rules, fuel - 1);
        }
    }
}

proof fn lemma_swapped_multiset(s: Seq<u64>, i: int)
    requires
        0 <= i,
        i + 1 < s.len(),
    ensures
        swapped(s, i).to_multiset() == s.to_multiset(),
{
    broadcast use vstd::seq_lib::group_to_multiset_ensures;

    let a = s[i];
    let b = s[i + 1];
    let pre = s.subrange(0, i);
    let suf = s.subrange(i + 2, s.len() as int);
    let mid1 = seq![a, b];
    let mid2 = seq![b, a];
    assert(s =~= pre + (mid1 + suf));
    assert(swapped(s, i) =~= pre + (mid2 + suf));
    vstd::seq_lib::lemma_multiset_commutative(pre, mid1 + suf);
    vstd::seq_lib::lemma_multiset_commutative(mid1, suf);
    vstd::seq_lib::lemma_multiset_commutative(pre, mid2 + suf);
    vstd::seq_lib::lemma_multiset_commutative(mid2, suf);
    assert(mid1 =~= Seq::empty().push(a).push(b));
    assert(mid2 =~= Seq::empty().push(b).push(a));
    assert(mid1.to_multiset() =~= mid2.to_multiset());
}

proof fn lemma_bubble_pass_multiset(s: Seq<u64>, rules: Seq<(u64, u64)>, i: int)
    ensures
        bubble_pass(s, rules, i).to_multiset() == s.to_multiset(),
    decreases s.len() - i,
{
    if !(i < 0 || i + 1 >= s.len()) {
        if rule_exists(rules, s[i + 1], s[i]) {
            lemma_swapped_multiset(s, i);
            lemma_bubble_pass_multiset(swapped(s, i), rules, i + 1);
        } else {
            lemma_bubble_pass_multiset(s, rules, i + 1);
        }
    }
}

/// Reordering never invents or drops pages: the result of the bounded
/// bubble passes is a permutation of the record.
pub proof fn lemma_bubble_multiset(s: Seq<u64>, rules: Seq<(u64, u64)>, fuel: int)
    ensures
        bubble(s, rules, fuel).to_multiset() == s.to_multiset(),
    decreases fuel,
{
    if fuel > 0 {
        lemma_bubble_pass_multiset(s, rules, 0);
        let p = bubble_pass(s, rules, 0);
        if p != s {
            lemma_bubble_multiset(p, rules, fuel - 1);
        }
    }
}

/// The middle page of a record.
pub open spec fn middle_of(rec: Seq<u64>) -> u64
    recommends
        rec.len() > 0,
{
    rec[rec.len() as int / 2]
}

/// Sum of middle pages of the in-order records.
pub open spec fn ordered_total(recs: Seq<Seq<u64>>, rules: Seq<(u64, u64)>) -> int
    decreases recs.len(),
{
    if recs.len() == 0 {
        0
    } else {
        (if record_ok(recs[0], rules) && recs[0].len() > 0 {
            middle_of(recs[0]) as int
        } else {
            0
        }) + ordered_total(recs.drop_first(), rules)
    }
}

/// Sum of middle pages of the out-of-order records after reordering.
pub open spec fn reordered_total(recs: Seq<Seq<u64>>, rules: Seq<(u64, u64)>) -> int
    decreases recs.len(),
{
    if recs.len() == 0 {
        0
    } else {
        (if !record_ok(recs[0], rules) && recs[0].len() > 0 {
            middle_of(bubble(recs[0], rules, recs[0].len() as int)) as int
        } else {
            0
        }) + reordered_total(recs.drop_first(), rules)
    }
}

pub proof fn lemma_ordered_total_nonneg(recs: Seq<Seq<u64>>, rules: Seq<(u64, u64)>)
    ensures
        ordered_total(recs, rules) >= 0,
    decreases recs.len(),
{
    if recs.len() > 0 {
        lemma_ordered_total_nonneg(recs.drop_first(), rules);
    }
}

pub proof fn lemma_reordered_total_nonneg(recs: Seq<Seq<u64>>, rules: Seq<(u64, u64)>)
    ensures
        reordered_total(recs, rules) >= 0,
    decreases recs.len(),
{
    if recs.len() > 0 {
        lemma_reordered_total_nonneg(recs.drop_first(), rules);
    }
}

/// Executable twin of [`rule_exists`].
fn has_rule(rules: &Vec<(u64, u64)>, a: u64, b: u64) -> (r: bool)
    ensures
        r == rule_exists(rules@, a, b),
{
    let mut i: usize = 0;
    while i < rules.len()
        invariant
            i <= rules@.len(),
            forall|k: int| 0 <= k < i ==> rules@[k] != (a, b),
        decreases rules@.len() - i,
    {
        let (x, y) = rules[i];
        if x == a && y == b {
            proof {
                assert(rules@[i as int] == (a, b));
            }
            return true;
        }
        i = i + 1;
    }
    false
}

/// Does every rule hold between every pair of pages in the record?
/// Mirrors [`record_ok`].
#[verifier::loop_isolation(false)]
pub fn check_rules(record: &Vec<u64>, rules: &Vec<(u64, u64)>) -> (r: bool)
    ensures
        r == record_ok(record@, rules@),
{
    let n = record.len();
    let mut i: usize = 0;
    while i < n
        invariant
            i <= n,
            forall|i2: int, j2: int|
                0 <= i2 < i && 0 <= j2 < n && rule_exists(
                    rules@, #[trigger] record@[i2], #[trigger] record@[j2])
                    ==> i2 < j2,
        decreases n - i,
    {
        let mut j: usize = 0;
        while j < n
            invariant
                i < n,
                j <= n,
                forall|j2: int|
                    0 <= j2 < j && rule_exists(
                        rules@, record@[i as int], #[trigger] record@[j2])
                        ==> i < j2,
            decreases n - j,
        {
            if j <= i {
                if has_rule(rules, record[i], record[j]) {
                    proof {
                        assert(rule_exists(
                            rules@, record@[i as int], record@[j as int]));
                        assert(!record_ok(record@, rules@));
                    }
                    return false;
                }
            }
            j = j + 1;
        }
        i = i + 1;
    }
    true
}

/// Reorder an out-of-order record by bounded bubble passes, mirroring
/// [`bubble`] with one pass of fuel per page.
pub fn correctly_sort(input: Vec<u64>, rules: &Vec<(u64, u64)>) -> (r: Vec<u64>)
    ensures
        r@ == bubble(input@, rules@, input@.len() as int),
        r@.to_multiset() == input@.to_multiset(),
{
    proof {
        lemma_bubble_multiset(input@, rules@, input@.len() as int);
    }
    let mut v = input;
    let ghost s0_all = v@;
    let mut fuel = v.len();
    while fuel > 0
        invariant_except_break
            v@.len() == s0_all.len(),
            bubble(s0_all, rules@, s0_all.len() as int) == bubble(
                v@, rules@, fuel as int),
        ensures
            v@ == bubble(s0_all, rules@, s0_all.len() as int),
        decreases fuel,
    {
        let ghost s0 = v@;
        let mut changed = false;
        let mut i: usize = 0;
        if v.len() >= 1 {
            while i < v.len() - 1
                invariant
                    v@.len() == s0.len(),
                    v@.len() >= 1,
                    i <= v@.len(),
                    bubble_pass(s0, rules@, 0) == bubble_pass(v@, rules@, i as int),
                    !changed ==> v@ == s0,
                    changed ==> exists|idx: int|
                        0 <= idx < i && #[trigger] v@[idx] != s0[idx],
                decreases v@.len() - i,
            {
                let a = v[i];
                let b = v[i + 1];
                if has_rule(rules, b, a) {
                    let ghost pre_v = v@;
                    v.set(i, b);
                    v.set(i + 1, a);
                    proof {
                        assert(v@ =~= swapped(pre_v, i as int));
                        assert(bubble_pass(pre_v, rules@, i as int) == bubble_pass(
                            v@, rules@, i + 1));
                    }
                    if a != b {
                        proof {
                            if !changed {
                                assert(v@[i as int] != s0[i as int]);
                            }
                        }
                        changed = true;
                    } else {
                        proof {
                            assert(v@ =~= pre_v);
                        }
                    }
                    proof {
                        if changed {
                            if exists|idx: int|
                                0 <= idx < i && #[trigger] pre_v[idx] != s0[idx] {
                                let idx = choose|idx: int|
                                    0 <= idx < i && #[trigger] pre_v[idx] != s0[idx];
                                assert(v@[idx] == pre_v[idx]);
                                assert(0 <= idx < i + 1 && v@[idx] != s0[idx]);
                            } else {
                                assert(v@[i as int] != s0[i as int]);
                            }
                        }
                    }
                }
                i = i + 1;
            }
        }
        proof {
            assert(bubble_pass(v@, rules@, i as int) == v@);
            assert(bubble_pass(s0, rules@, 0) == v@);
            if changed {
                let idx = choose|idx: int|
                    0 <= idx < i && #[trigger] v@[idx] != s0[idx];
                assert(v@ != s0);
            }
        }
        if !changed {
            break ;
        }
        fuel = fuel - 1;
    }
    v
}


/// Parse the text into ordering rules and page records, mirroring
/// [`rules_of`] and [`records_of`].
#[verifier::loop_isolation(false)]
pub fn parse(input: &str) -> (r: (Vec<(u64, u64)>, Vec<Vec<u64>>))
    ensures
        r.0@ == rules_of(input@),
        r.1@.len() == records_of(input@).len(),
        forall|i: int| 0 <= i < r.1@.len() ==> r.1@[i]@ == records_of(input@)[i],
{
    let chars = to_chars(input);
    let lines = split_lines(&chars);
    let ghost glines = split_lines_spec(chars@);
    let mut rules: Vec<(u64, u64)> = Vec::new();
    let mut records: Vec<Vec<u64>> = Vec::new();
    let mut li: usize = 0;
    while li < lines.len()
        invariant
            li <= lines@.len(),
            rules_of_lines(glines, 0) =~= rules@ + rules_of_lines(glines, li as int),
            records_of_lines(glines, 0) =~= record_views(records@)
                + records_of_lines(glines, li as int),
        decreases lines@.len() - li,
    {
        let line = &lines[li];
        let bar = find_char_at(line, 0, '|');
        if bar < line.len() {
            proof {
                assert(has_char(line@, '|'));
            }
            let fields = split_sep(line, '|');
            if fields.len() == 2 {
                let t0 = trim(&fields[0]);
                let t1 = trim(&fields[1]);
                proof {
                    assert(fields@[0]@ == sep_fields(line@, '|')[0]);
                    assert(fields@[1]@ == sep_fields(line@, '|')[1]);
                    assert(t0@.subrange(0, t0@.len() as int) =~= t0@);
                    assert(t1@.subrange(0, t1@.len() as int) =~= t1@);
                }
                match (parse_u64(&t0, 0, t0.len()), parse_u64(&t1, 0, t1.len())) {
                    (Some(a), Some(b)) => {
                        proof {
                            assert(rule_of_line(line@) == Some((a, b)));
                        }
                        rules.push((a, b));
                        proof {
                            assert(rules@ =~= rules@.drop_last().push((a, b)));
                        }
                    },
                    _ => {
                        proof {
                            assert(rule_of_line(line@) is None);
                        }
                    },
                }
            } else {
                proof {
                    assert(rule_of_line(line@) is None);
                }
            }
            proof {
                assert(record_of_line(line@) is None);
            }
        } else {
            proof {
                assert(!has_char(line@, '|'));
                assert(rule_of_line(line@) is None);
            }
            let comma = find_char_at(line, 0, ',');
            if comma < line.len() {
                proof {
                    assert(has_char(line@, ','));
                }
                let fields = split_sep(line, ',');
                let ghost gf = sep_fields(line@, ',');
                let mut rec: Vec<u64> = Vec::new();
                let mut ok = true;
                let mut k: usize = 0;
                proof {
                    assert(rec@ + parse_all(gf, 0).unwrap() =~= parse_all(
                        gf, 0).unwrap());
                }
                while k < fields.len() && ok
                    invariant
                        k <= fields@.len(),
                        ok ==> parse_all(gf, 0) == (match parse_all(gf, k as int) {
                            Some(rest) => Some(rec@ + rest),
                            None => None::<Seq<u64>>,
                        }),
                        !ok ==> parse_all(gf, 0) is None,
                    decreases fields@.len() - k,
                {
                    let t = trim(&fields[k]);
                    proof {
                        assert(fields@[k as int]@ == gf[k as int]);
                        assert(t@.subrange(0, t@.len() as int) =~= t@);
                    }
                    match parse_u64(&t, 0, t.len()) {
                        Some(n) => {
                            let ghost pre = rec@;
                            rec.push(n);
                            proof {
                                match parse_all(gf, k + 1) {
                                    Some(rest) => {
                                        assert(parse_all(gf, k as int)
                                            == Some(seq![n] + rest));
                                        assert(pre + (seq![n] + rest) =~= rec@
                                            + rest);
                                    },
                                    None => {
                                        assert(parse_all(gf, k as int) is None);
                                    },
                                }
                            }
                        },
                        None => {
                            proof {
                                assert(parse_all(gf, k as int) is None);
                            }
                            ok = false;
                        },
                    }
                    k = k + 1;
                }
                if ok {
                    proof {
                        assert(parse_all(gf, fields@.len() as int)
                            == Some(Seq::<u64>::empty()));
                        assert(rec@ + Seq::<u64>::empty() =~= rec@);
                        assert(record_of_line(line@) == Some(rec@));
                    }
                    records.push(rec);
                    proof {
                        assert(record_views(records@) =~= record_views(
                            records@.drop_last()).push(records@.last()@));
                    }
                } else {
                    proof {
                        assert(record_of_line(line@) is None);
                    }
                }
            } else {
                proof {
                    assert(record_of_line(line@) is None);
                }
            }
        }
        proof {
            assert(glines[li as int] == line@);
        }
        li = li + 1;
    }
    proof {
        assert forall|i: int|
            0 <= i < records@.len() implies records@[i]@ == records_of(input@)[i] by {
            assert(record_views(records@)[i] == records@[i]@);
        }
    }
    (rules, records)
}

/// The views of parsed records.
pub open spec fn record_views(rs: Seq<Vec<u64>>) -> Seq<Seq<u64>> {
    rs.map_values(|r: Vec<u64>| r@)
}

/// Copy a record.
fn copy_pages(v: &Vec<u64>) -> (r: Vec<u64>)
    ensures
        r@ == v@,
{
    let mut r: Vec<u64> = Vec::new();
    let mut i: usize = 0;
    while i < v.len()
        invariant
            i <= v@.len(),
            r@ == v@.subrange(0, i as int),
        decreases v@.len() - i,
    {
        r.push(v[i]);
        i = i + 1;
        proof {
            assert(r@ =~= v@.subrange(0, i as int));
        }
    }
    proof {
        assert(r@ =~= v@);
    }
    r
}

/// Sum of the middle pages of the in-order records; `None` exactly when
/// the sum exceeds `u64::MAX`.
#[verifier::loop_isolation(false)]
pub fn part_one(input: &str) -> (r: Option<u64>)
    ensures
        match r {
            Some(v) => v as int == ordered_total(records_of(input@), rules_of(input@)),
            None => ordered_total(records_of(input@), rules_of(input@)) > u64::MAX,
        },
{
    let (rules, records) = parse(input);
    let ghost grecs = records_of(input@);
    let ghost grules = rules_of(input@);
    let mut total: u64 = 0;
    let mut i: usize = 0;
    proof {
        assert(grecs.subrange(0, grecs.len() as int) =~= grecs);
    }
    while i < records.len()
        invariant
            i <= records@.len(),
            ordered_total(grecs, grules) == total + ordered_total(
                grecs.subrange(i as int, grecs.len() as int), grules),
        decreases records@.len() - i,
    {
        let ghost rest = grecs.subrange(i as int, grecs.len() as int);
        proof {
            assert(rest[0] == grecs[i as int]);
            assert(rest.drop_first() =~= grecs.subrange(i + 1, grecs.len() as int));
        }
        let rec = &records[i];
        if check_rules(rec, &rules) && rec.len() > 0 {
            let mid = rec[rec.len() / 2];
            proof {
                assert(mid == middle_of(grecs[i as int]));
            }
            match total.checked_add(mid) {
                Some(s) => {
                    total = s;
                },
                None => {
                    proof {
                        lemma_ordered_total_nonneg(rest.drop_first(), grules);
                    }
                    return None;
                },
            }
        }
        i = i + 1;
    }
    proof {
        assert(ordered_total(grecs.subrange(
            records@.len() as int, grecs.len() as int), grules) == 0);
    }
    Some(total)
}

/// Sum of the middle pages of the out-of-order records after reordering;
/// `None` exactly when the sum exceeds `u64::MAX`.
#[verifier::loop_isolation(false)]
pub fn part_two(input: &str) -> (r: Option<u64>)
    ensures
        match r {
            Some(v) => v as int == reordered_total(
                records_of(input@), rules_of(input@)),
            None => reordered_total(records_of(input@), rules_of(input@)) > u64::MAX,
        },
{
    let (rules, records) = parse(input);
    let ghost grecs = records_of(input@);
    let ghost grules = rules_of(input@);
    let mut total: u64 = 0;
    let mut i: usize = 0;
    proof {
        assert(grecs.subrange(0, grecs.len() as int) =~= grecs);
    }
    while i < records.len()
        invariant
            i <= records@.len(),
            reordered_total(grecs, grules) == total + reordered_total(
                grecs.subrange(i as int, grecs.len() as int), grules),
        decreases records@.len() - i,
    {
        let ghost rest = grecs.subrange(i as int, grecs.len() as int);
        proof {
            assert(rest[0] == grecs[i as int]);
            assert(rest.drop_first() =~= grecs.subrange(i + 1, grecs.len() as int));
        }
        let rec = &records[i];
        if !check_rules(rec, &rules) && rec.len() > 0 {
            let sorted = correctly_sort(copy_pages(rec), &rules);
            proof {
                lemma_bubble_len(rec@, grules, rec@.len() as int);
            }
            let mid = sorted[sorted.len() / 2];
            proof {
                assert(sorted@ == bubble(
                    grecs[i as int], grules, grecs[i as int].len() as int));
                assert(mid == middle_of(sorted@));
            }
            match total.checked_add(mid) {
                Some(s) => {
                    total = s;
                },
                None => {
                    proof {
                        lemma_reordered_total_nonneg(rest.drop_first(), grules);
                    }
                    return None;
                },
            }
        }
        i = i + 1;
    }
    proof {
        assert(reordered_total(grecs.subrange(
            records@.len() as int, grecs.len() as int), grules) == 0);
    }
    Some(total)
}

} // verus!
