//! Calibration equations: each line holds a target value, a colon, and a
//! list of numbers; the target counts when some left-to-right combination
//! of the numbers under the allowed operators produces it.

use vstd::prelude::*;
use crate::text::{
    find_char, find_char_at, parse_u64, parse_u64_spec, split_lines,
    split_lines_spec, split_ws, to_chars, ws_tokens,
};

verus! {

/// The numbers that parse, in order; unparseable tokens are skipped.
pub open spec fn nums_of(tokens: Seq<Seq<char>>) -> Seq<u64>
    decreases tokens.len(),
{
    if tokens.len() == 0 {
        Seq::empty()
    } else {
        match parse_u64_spec(tokens[0]) {
            Some(n) => seq![n] + nums_of(tokens.drop_first()),
            None => nums_of(tokens.drop_first()),
        }
    }
}

/// One line as `(target, numbers)`: the part before the first colon must
/// parse as the target; a line without a colon or with an unparseable
/// target is skipped.
pub open spec fn line_entry(l: Seq<char>) -> Option<(u64, Seq<u64>)> {
    let k = find_char(l, 0, ':');
    if k >= l.len() {
        None
    } else {
        match parse_u64_spec(l.subrange(0, k)) {
            Some(ans) => Some(
                (ans, nums_of(ws_tokens(l.subrange(k + 1, l.len() as int)))),
            ),
            None => None,
        }
    }
}

pub open spec fn entries_of(lines: Seq<Seq<char>>) -> Seq<(u64, Seq<u64>)>
    decreases lines.len(),
{
    if lines.len() == 0 {
        Seq::empty()
    } else {
        match line_entry(lines[0]) {
            Some(e) => seq![e] + entries_of(lines.drop_first()),
            None => entries_of(lines.drop_first()),
        }
    }
}

pub open spec fn calibration_entries(t: Seq<char>) -> Seq<(u64, Seq<u64>)> {
    entries_of(split_lines_spec(t))
}

/// Decimal digit count of a nonnegative value (one digit for zero).
pub open spec fn digit_count(n: int) -> int
    decreases n,
{
    if n < 10 {
        1
    } else {
        1 + digit_count(n / 10)
    }
}

pub open spec fn pow10(d: int) -> int
    decreases d,
{
    if d <= 0 {
        1
    } else {
        10 * pow10(d - 1)
    }
}

pub proof fn lemma_pow10_pos(d: int)
    ensures
        pow10(d) >= 1,
    decreases d,
{
    if d > 0 {
        lemma_pow10_pos(d - 1);
    }
}

pub proof fn lemma_pow10_mono(d1: int, d2: int)
    requires
        d1 <= d2,
    ensures
        pow10(d1) <= pow10(d2),
    decreases d2 - d1,
{
    if d1 < d2 {
        lemma_pow10_mono(d1, d2 - 1);
        lemma_pow10_pos(d2 - 1);
    }
}

/// Writing `b` directly after `a` in decimal.
pub open spec fn concat_val(a: int, b: int) -> int {
    a * pow10(digit_count(b)) + b
}

/// One allowed combination step; results past `u64::MAX` are not values
/// of the calculation and are discarded.
pub open spec fn step_ok(prev: int, n: u64, val: int, with_concat: bool) -> bool {
    val <= u64::MAX && (val == prev + n || val == prev * n || (with_concat && val
        == concat_val(prev, n as int)))
}

/// Operator codes in a combination: add, multiply, concatenate.
pub open spec fn op_ok(op: int, wc: bool) -> bool {
    op == 0 || op == 1 || (wc && op == 2)
}

pub open spec fn ops_ok(ops: Seq<int>, wc: bool) -> bool {
    forall|i: int| 0 <= i < ops.len() ==> op_ok(#[trigger] ops[i], wc)
}

pub open spec fn apply_op(op: int, prev: int, n: u64) -> int {
    if op == 0 {
        prev + n
    } else if op == 1 {
        prev * n
    } else {
        concat_val(prev, n as int)
    }
}

/// Value after combining the first `k` numbers with the given operators;
/// `None` once any intermediate value leaves the `u64` range.
pub open spec fn eval_ops(nums: Seq<u64>, ops: Seq<int>, k: int) -> Option<int>
    decreases k,
{
    if k <= 0 {
        None
    } else if k == 1 {
        Some(nums[0] as int)
    } else {
        match eval_ops(nums, ops, k - 1) {
            None => None,
            Some(prev) => {
                let r = apply_op(ops[k - 2], prev, nums[k - 1]);
                if r <= u64::MAX {
                    Some(r)
                } else {
                    None
                }
            },
        }
    }
}

/// Is `val` producible from the first `k` numbers, combining strictly left
/// to right?
pub open spec fn reachable(nums: Seq<u64>, k: int, val: int, wc: bool) -> bool {
    exists|ops: Seq<int>|
        ops.len() == k - 1 && ops_ok(ops, wc) && #[trigger] eval_ops(nums, ops, k)
            == Some(val)
}

/// A produced value is a `u64` value.
pub proof fn lemma_eval_bounded(nums: Seq<u64>, ops: Seq<int>, k: int)
    requires
        eval_ops(nums, ops, k) is Some,
    ensures
        0 <= eval_ops(nums, ops, k).unwrap() <= u64::MAX,
    decreases k,
{
    if k > 1 {
        lemma_eval_bounded(nums, ops, k - 1);
        let prev = eval_ops(nums, ops, k - 1).unwrap();
        let op = ops[k - 2];
        let n = nums[k - 1];
        if apply_op(op, prev, n) == prev * n {
            assert(prev * n >= 0) by (nonlinear_arith)
                requires prev >= 0, n >= 0,
            ;
        }
        if apply_op(op, prev, n) == concat_val(prev, n as int) {
            lemma_pow10_pos(digit_count(n as int));
            assert(prev * pow10(digit_count(n as int)) >= 0) by (nonlinear_arith)
                requires prev >= 0, pow10(digit_count(n as int)) >= 0,
            ;
        }
    }
}

/// The value depends only on the first `k - 1` operators.
pub proof fn lemma_eval_agrees(nums: Seq<u64>, ops1: Seq<int>, ops2: Seq<int>, k: int)
    requires
        forall|j: int| 0 <= j < k - 1 ==> ops1[j] == ops2[j],
    ensures
        eval_ops(nums, ops1, k) == eval_ops(nums, ops2, k),
    decreases k,
{
    if k > 1 {
        lemma_eval_agrees(nums, ops1, ops2, k - 1);
    }
}

/// Can the whole number list produce the target?
pub open spec fn solvable(target: u64, nums: Seq<u64>, wc: bool) -> bool {
    reachable(nums, nums.len() as int, target as int, wc)
}

/// Sum of the targets of the solvable entries.
pub open spec fn total_spec(entries: Seq<(u64, Seq<u64>)>, wc: bool) -> int
    decreases entries.len(),
{
    if entries.len() == 0 {
        0
    } else {
        (if solvable(entries[0].0, entries[0].1, wc) {
            entries[0].0 as int
        } else {
            0
        }) + total_spec(entries.drop_first(), wc)
    }
}

pub proof fn lemma_total_nonneg(entries: Seq<(u64, Seq<u64>)>, wc: bool)
    ensures
        total_spec(entries, wc) >= 0,
    decreases entries.len(),
{
    if entries.len() > 0 {
        lemma_total_nonneg(entries.drop_first(), wc);
    }
}

pub proof fn lemma_digit_count_pos(n: int)
    ensures
        digit_count(n) >= 1,
    decreases n,
{
    if n >= 10 {
        lemma_digit_count_pos(n / 10);
    }
}

/// Pushing keeps old elements, adds the new one, and nothing else.
proof fn lemma_push_effect(s: Seq<u64>, x: u64)
    ensures
        s.push(x).contains(x),
        forall|y: u64| s.contains(y) ==> #[trigger] s.push(x).contains(y),
        forall|y: u64| #[trigger] s.push(x).contains(y) ==> y == x || s.contains(y),
{
    assert(s.push(x)[s.len() as int] == x);
    assert forall|y: u64| s.contains(y) implies #[trigger] s.push(x).contains(y) by {
        let i = choose|i: int| 0 <= i < s.len() && s[i] == y;
        assert(s.push(x)[i] == y);
    }
    assert forall|y: u64| #[trigger] s.push(x).contains(y) implies y == x
        || s.contains(y) by {
        let i = choose|i: int| 0 <= i < s.push(x).len() && s.push(x)[i] == y;
        if i < s.len() {
            assert(s[i] == y);
        }
    }
}

/// `10` to the number of digits of `b`, when that still fits; `None` means
/// the power itself exceeds `u64::MAX`.
fn pow10_digits(b: u64) -> (r: Option<u64>)
    ensures
        match r {
            Some(p) => p as int == pow10(digit_count(b as int)),
            None => pow10(digit_count(b as int)) > u64::MAX,
        },
{
    let mut m = b;
    let mut p: u64 = 10;
    let ghost mut d: int = 1;
    proof {
        assert(pow10(0) == 1);
        assert(pow10(1) == 10);
        assert(digit_count(b as int) == d - 1 + digit_count(m as int));
    }
    while m >= 10
        invariant
            d >= 1,
            p as int == pow10(d),
            digit_count(b as int) == d - 1 + digit_count(m as int),
        decreases m,
    {
        if p > u64::MAX / 10 {
            proof {
                lemma_digit_count_pos(m as int / 10);
                assert(digit_count(m as int) >= 2);
                lemma_pow10_mono(d + 1, digit_count(b as int));
                assert(pow10(d + 1) == 10 * pow10(d));
                assert(10 * (p as int) > u64::MAX) by {
                    assert(p as int >= u64::MAX / 10 + 1);
                }
            }
            return None;
        }
        p = p * 10;
        m = m / 10;
        proof {
            d = d + 1;
        }
    }
    proof {
        assert(digit_count(m as int) == 1);
        assert(digit_count(b as int) == d);
    }
    Some(p)
}

/// `concat_val(a, b)` as a checked `u64` computation.
fn concat_checked(a: u64, b: u64) -> (r: Option<u64>)
    ensures
        match r {
            Some(v) => v as int == concat_val(a as int, b as int) && v <= u64::MAX,
            None => concat_val(a as int, b as int) > u64::MAX,
        },
{
    if a == 0 {
        proof {
            lemma_pow10_pos(digit_count(b as int));
        }
        return Some(b);
    }
    let p = match pow10_digits(b) {
        Some(p) => p,
        None => {
            proof {
                let pw = pow10(digit_count(b as int));
                assert((a as int) * pw >= 1 * pw) by (nonlinear_arith)
                    requires a as int >= 1, pw >= 0,
                ;
            }
            return None;
        },
    };
    let hi = match a.checked_mul(p) {
        Some(h) => h,
        None => {
            return None;
        },
    };
    match hi.checked_add(b) {
        Some(v) => Some(v),
        None => None,
    }
}

/// Append every value one combination step can make from `prev` and `n`.
fn push_steps(acc: &mut Vec<u64>, prev: u64, n: u64, wc: bool)
    ensures
        forall|val: u64|
            final(acc)@.contains(val) <==> (old(acc)@.contains(val) || step_ok(
                prev as int, n, val as int, wc)),
{
    let ghost pre = acc@;
    let a = prev.checked_add(n);
    if let Some(v) = a {
        proof {
            lemma_push_effect(acc@, v);
        }
        acc.push(v);
    }
    let ghost s1 = acc@;
    let m = prev.checked_mul(n);
    if let Some(v) = m {
        proof {
            lemma_push_effect(acc@, v);
        }
        acc.push(v);
    }
    let ghost s2 = acc@;
    let cc = if wc {
        concat_checked(prev, n)
    } else {
        None
    };
    if let Some(v) = cc {
        proof {
            lemma_push_effect(acc@, v);
        }
        acc.push(v);
    }
    proof {
        assert forall|val: u64|
            acc@.contains(val) <==> (pre.contains(val) || step_ok(
                prev as int, n, val as int, wc)) by {
            if acc@.contains(val) {
                if !pre.contains(val) {
                    assert(val == a.unwrap() || val == m.unwrap()
                        || val == cc.unwrap());
                    assert(step_ok(prev as int, n, val as int, wc));
                }
            }
            if pre.contains(val) {
                assert(s1.contains(val));
                assert(s2.contains(val));
                assert(acc@.contains(val));
            }
            if step_ok(prev as int, n, val as int, wc) {
                if val as int == prev + n {
                    assert(a == Some(val));
                    assert(s1.contains(val));
                    assert(s2.contains(val));
                } else if val as int == prev * n {
                    assert(m == Some(val));
                    assert(s2.contains(val));
                } else {
                    assert(wc && val as int == concat_val(prev as int, n as int));
                    assert(cc == Some(val));
                }
                assert(acc@.contains(val));
            }
        }
    }
}

/// Does some left-to-right combination of `nums` produce `test`?
#[verifier::loop_isolation(false)]
pub fn solve(test: u64, nums: &Vec<u64>, with_concat: bool) -> (r: bool)
    ensures
        r == solvable(test, nums@, with_concat),
{
    if nums.len() == 0 {
        return false;
    }
    let mut vals: Vec<u64> = Vec::new();
    vals.push(nums[0]);
    proof {
        assert forall|val: u64|
            #[trigger] vals@.contains(val) <==> reachable(
                nums@, 1, val as int, with_concat) by {
            if vals@.contains(val) {
                let ix = choose|ix: int| 0 <= ix < vals@.len() && vals@[ix] == val;
                assert(val == nums@[0]);
                let ops = Seq::<int>::empty();
                assert(eval_ops(nums@, ops, 1) == Some(val as int));
                assert(ops_ok(ops, with_concat));
                assert(reachable(nums@, 1, val as int, with_concat));
            }
            if reachable(nums@, 1, val as int, with_concat) {
                let ops = choose|ops: Seq<int>|
                    ops.len() == 0 && ops_ok(ops, with_concat) && #[trigger] eval_ops(
                        nums@, ops, 1) == Some(val as int);
                assert(val as int == nums@[0] as int);
                assert(vals@[0] == val);
            }
        }
    }
    let mut i: usize = 1;
    while i < nums.len()
        invariant
            1 <= i <= nums@.len(),
            forall|val: u64|
                #[trigger] vals@.contains(val) <==> reachable(
                    nums@, i as int, val as int, with_concat),
        decreases nums@.len() - i,
    {
        let n = nums[i];
        let mut next: Vec<u64> = Vec::new();
        let mut j: usize = 0;
        while j < vals.len()
            invariant
                j <= vals@.len(),
                forall|val: u64|
                    #[trigger] next@.contains(val) <==> exists|m: int|
                        0 <= m < j && step_ok(
                            vals@[m] as int, n, val as int, with_concat),
            decreases vals@.len() - j,
        {
            let ghost pre_next = next@;
            push_steps(&mut next, vals[j], n, with_concat);
            j = j + 1;
            proof {
                assert forall|val: u64|
                    #[trigger] next@.contains(val) <==> exists|m: int|
                        0 <= m < j && step_ok(
                            vals@[m] as int, n, val as int, with_concat) by {
                    if next@.contains(val) {
                        if pre_next.contains(val) {
                            let m = choose|m: int|
                                0 <= m < j - 1 && step_ok(
                                    vals@[m] as int, n, val as int, with_concat);
                            assert(0 <= m < j && step_ok(
                                vals@[m] as int, n, val as int, with_concat));
                        } else {
                            assert(step_ok(
                                vals@[j - 1] as int, n, val as int, with_concat));
                        }
                    }
                    if exists|m: int|
                        0 <= m < j && step_ok(
                            vals@[m] as int, n, val as int, with_concat) {
                        let m = choose|m: int|
                            0 <= m < j && step_ok(
                                vals@[m] as int, n, val as int, with_concat);
                        if m < j - 1 {
                            assert(pre_next.contains(val));
                        }
                        assert(next@.contains(val));
                    }
                }
            }
        }
        i = i + 1;
        proof {
            let ki = i as int;
            assert forall|val: u64|
                #[trigger] next@.contains(val) <==> reachable(
                    nums@, ki, val as int, with_concat) by {
                if next@.contains(val) {
                    let m = choose|m: int|
                        0 <= m < vals@.len() && step_ok(
                            vals@[m] as int, n, val as int, with_concat);
                    assert(vals@.contains(vals@[m]));
                    assert(reachable(nums@, ki - 1, vals@[m] as int, with_concat));
                    let prev = vals@[m] as int;
                    let ops = choose|ops: Seq<int>|
                        ops.len() == ki - 2 && ops_ok(ops, with_concat)
                            && #[trigger] eval_ops(nums@, ops, ki - 1) == Some(prev);
                    let op: int = if val as int == prev + n {
                        0
                    } else if val as int == prev * n {
                        1
                    } else {
                        2
                    };
                    let ops2 = ops.push(op);
                    assert(ops_ok(ops2, with_concat)) by {
                        assert forall|x: int|
                            0 <= x < ops2.len() implies op_ok(
                                #[trigger] ops2[x], with_concat) by {
                            if x < ops.len() {
                                assert(op_ok(ops[x], with_concat));
                            }
                        }
                    }
                    lemma_eval_agrees(nums@, ops, ops2, ki - 1);
                    assert(eval_ops(nums@, ops2, ki - 1) == Some(prev));
                    assert(ops2[ki - 2] == op);
                    assert(apply_op(op, prev, nums@[ki - 1]) == val as int);
                    assert(eval_ops(nums@, ops2, ki) == Some(val as int));
                    assert(reachable(nums@, ki, val as int, with_concat));
                }
                if reachable(nums@, ki, val as int, with_concat) {
                    let ops = choose|ops: Seq<int>|
                        ops.len() == ki - 1 && ops_ok(ops, with_concat)
                            && #[trigger] eval_ops(nums@, ops, ki) == Some(
                            val as int);
                    assert(eval_ops(nums@, ops, ki - 1) is Some);
                    let prev = eval_ops(nums@, ops, ki - 1).unwrap();
                    lemma_eval_bounded(nums@, ops, ki - 1);
                    let pv = prev as u64;
                    let opsp = ops.subrange(0, ki - 2);
                    assert(ops_ok(opsp, with_concat)) by {
                        assert forall|x: int|
                            0 <= x < opsp.len() implies op_ok(
                                #[trigger] opsp[x], with_concat) by {
                            assert(opsp[x] == ops[x]);
                            assert(op_ok(ops[x], with_concat));
                        }
                    }
                    lemma_eval_agrees(nums@, ops, opsp, ki - 1);
                    assert(eval_ops(nums@, opsp, ki - 1) == Some(prev));
                    assert(reachable(nums@, ki - 1, prev, with_concat));
                    assert(vals@.contains(pv));
                    let m = choose|m: int| 0 <= m < vals@.len() && vals@[m] == pv;
                    assert(op_ok(ops[ki - 2], with_concat));
                    assert(val as int == apply_op(ops[ki - 2], prev, nums@[ki - 1]));
                    assert(step_ok(vals@[m] as int, n, val as int, with_concat));
                    assert(next@.contains(val));
                }
            }
        }
        vals = next;
    }
    let mut j: usize = 0;
    while j < vals.len()
        invariant
            j <= vals@.len(),
            forall|m: int| 0 <= m < j ==> vals@[m] != test,
        decreases vals@.len() - j,
    {
        if vals[j] == test {
            proof {
                assert(vals@.contains(test));
            }
            return true;
        }
        j = j + 1;
    }
    proof {
        if solvable(test, nums@, with_concat) {
            assert(vals@.contains(test));
            let m = choose|m: int| 0 <= m < vals@.len() && vals@[m] == test;
        }
    }
    false
}

/// Parse every line into `(target, numbers)`, skipping lines without a
/// parseable target.
#[verifier::loop_isolation(false)]
pub fn parse(input: &str) -> (r: Vec<(u64, Vec<u64>)>)
    ensures
        r@.len() == calibration_entries(input@).len(),
        forall|i: int|
            0 <= i < r@.len() ==> r@[i].0 == calibration_entries(input@)[i].0
                && r@[i].1@ == calibration_entries(input@)[i].1,
{
    let chars = to_chars(input);
    let lines = split_lines(&chars);
    let ghost glines = split_lines_spec(chars@);
    let mut out: Vec<(u64, Vec<u64>)> = Vec::new();
    let mut li: usize = 0;
    proof {
        assert(glines.subrange(0, glines.len() as int) =~= glines);
    }
    while li < lines.len()
        invariant
            li <= lines@.len(),
            entries_of(glines) =~= entry_views(out@) + entries_of(
                glines.subrange(li as int, glines.len() as int)),
        decreases lines@.len() - li,
    {
        let ghost rest = glines.subrange(li as int, glines.len() as int);
        proof {
            assert(rest[0] == glines[li as int]);
            assert(rest.drop_first() =~= glines.subrange(
                li + 1, glines.len() as int));
        }
        let line = &lines[li];
        let k = find_char_at(line, 0, ':');
        if k < line.len() {
            match parse_u64(line, 0, k) {
                Some(ans) => {
                    let mut restv: Vec<char> = Vec::new();
                    let mut ci: usize = k + 1;
                    while ci < line.len()
                        invariant
                            k + 1 <= ci <= line@.len(),
                            restv@ == line@.subrange(k + 1, ci as int),
                        decreases line@.len() - ci,
                    {
                        restv.push(line[ci]);
                        ci = ci + 1;
                        proof {
                            assert(restv@ =~= line@.subrange(k + 1, ci as int));
                        }
                    }
                    proof {
                        assert(restv@ =~= line@.subrange(
                            k + 1, line@.len() as int));
                    }
                    let tokens = split_ws(&restv);
                    let ghost gtokens = ws_tokens(restv@);
                    let mut nums: Vec<u64> = Vec::new();
                    let mut ti: usize = 0;
                    proof {
                        assert(gtokens.subrange(0, gtokens.len() as int)
                            =~= gtokens);
                    }
                    while ti < tokens.len()
                        invariant
                            ti <= tokens@.len(),
                            nums_of(gtokens) =~= nums@ + nums_of(
                                gtokens.subrange(ti as int, gtokens.len() as int)),
                        decreases tokens@.len() - ti,
                    {
                        let ghost trest = gtokens.subrange(
                            ti as int, gtokens.len() as int);
                        proof {
                            assert(trest[0] == gtokens[ti as int]);
                            assert(trest.drop_first() =~= gtokens.subrange(
                                ti + 1, gtokens.len() as int));
                        }
                        let tok = &tokens[ti];
                        match parse_u64(tok, 0, tok.len()) {
                            Some(n) => {
                                proof {
                                    assert(tok@.subrange(0, tok@.len() as int)
                                        =~= tok@);
                                }
                                nums.push(n);
                            },
                            None => {
                                proof {
                                    assert(tok@.subrange(0, tok@.len() as int)
                                        =~= tok@);
                                }
                            },
                        }
                        ti = ti + 1;
                    }
                    proof {
                        assert(nums_of(gtokens) =~= nums@);
                        assert(line_entry(line@) == Some((ans, nums@)));
                    }
                    out.push((ans, nums));
                    proof {
                        assert(entry_views(out@) =~= entry_views(
                            out@.drop_last(),
                        ).push((ans, nums@)));
                    }
                },
                None => {
                    proof {
                        assert(line_entry(line@) is None);
                    }
                },
            }
        } else {
            proof {
                assert(line_entry(line@) is None);
            }
        }
        li = li + 1;
    }
    proof {
        assert(entries_of(glines.subrange(
            lines@.len() as int, glines.len() as int)) =~= Seq::empty());
        assert(entries_of(glines) =~= entry_views(out@));
        assert forall|i: int|
            0 <= i < out@.len() implies out@[i].0 == calibration_entries(input@)[i].0
                && out@[i].1@ == calibration_entries(input@)[i].1 by {
            assert(entry_views(out@)[i] == (out@[i].0, out@[i].1@));
        }
    }
    out
}

/// The view of parsed entries.
pub open spec fn entry_views(s: Seq<(u64, Vec<u64>)>) -> Seq<(u64, Seq<u64>)> {
    s.map_values(|e: (u64, Vec<u64>)| (e.0, e.1@))
}

/// Sum of targets producible with addition and multiplication alone;
/// `None` exactly when that sum exceeds `u64::MAX`.
pub fn part_one(input: &str) -> (r: Option<u64>)
    ensures
        match r {
            Some(n) => n as int == total_spec(calibration_entries(input@), false),
            None => total_spec(calibration_entries(input@), false) > u64::MAX,
        },
{
    sum_solvable(input, false)
}

/// Sum of targets producible when digit concatenation is also allowed;
/// `None` exactly when that sum exceeds `u64::MAX`.
pub fn part_two(input: &str) -> (r: Option<u64>)
    ensures
        match r {
            Some(n) => n as int == total_spec(calibration_entries(input@), true),
            None => total_spec(calibration_entries(input@), true) > u64::MAX,
        },
{
    sum_solvable(input, true)
}

#[verifier::loop_isolation(false)]
fn sum_solvable(input: &str, wc: bool) -> (r: Option<u64>)
    ensures
        match r {
            Some(n) => n as int == total_spec(calibration_entries(input@), wc),
            None => total_spec(calibration_entries(input@), wc) > u64::MAX,
        },
{
    let entries = parse(input);
    let ghost gentries = calibration_entries(input@);
    let mut sum: u64 = 0;
    let mut i: usize = 0;
    proof {
        assert(gentries.subrange(0, gentries.len() as int) =~= gentries);
    }
    while i < entries.len()
        invariant
            i <= entries@.len(),
            total_spec(gentries, wc) == sum + total_spec(
                gentries.subrange(i as int, gentries.len() as int), wc),
        decreases entries@.len() - i,
    {
        let ghost rest = gentries.subrange(i as int, gentries.len() as int);
        proof {
            assert(rest[0] == gentries[i as int]);
            assert(rest.drop_first() =~= gentries.subrange(
                i + 1, gentries.len() as int));
        }
        let (target, nums) = (entries[i].0, &entries[i].1);
        let hit = solve(target, nums, wc);
        if hit {
            match sum.checked_add(target) {
                Some(s) => {
                    sum = s;
                },
                None => {
                    proof {
                        lemma_total_nonneg(rest.drop_first(), wc);
                    }
                    return None;
                },
            }
        }
        i = i + 1;
    }
    proof {
        assert(total_spec(gentries.subrange(
            entries@.len() as int, gentries.len() as int), wc) == 0);
    }
    Some(sum)
}

} // verus!
