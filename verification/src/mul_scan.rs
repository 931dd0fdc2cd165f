//! Corrupted-memory scan: sum every well-formed `mul(x,y)` instruction,
//! and, in the gated mode, only those inside regions enabled by `do()` and
//! disabled by `don't()`.

use vstd::prelude::*;
use crate::text::{
    all_digits, digits_val, is_digit, lemma_digits_val_nonneg, parse_u64, to_chars,
};
use crate::calibration::{pow10, lemma_pow10_pos};

verus! {

/// Length of the digit run starting at `j`.
pub open spec fn digit_run(s: Seq<char>, j: int) -> int
    decreases s.len() - j,
{
    if j < 0 || j >= s.len() || !is_digit(s[j]) {
        0
    } else {
        1 + digit_run(s, j + 1)
    }
}

pub proof fn lemma_digit_run(s: Seq<char>, j: int)
    requires
        0 <= j <= s.len(),
    ensures
        j <= j + digit_run(s, j) <= s.len(),
        forall|m: int| j <= m < j + digit_run(s, j) ==> is_digit(s[m]),
        j + digit_run(s, j) < s.len() ==> !is_digit(s[j + digit_run(s, j)]),
    decreases s.len() - j,
{
    if j < s.len() && is_digit(s[j]) {
        lemma_digit_run(s, j + 1);
    }
}

/// A digit string is smaller than ten to its length.
pub proof fn lemma_digits_val_lt(t: Seq<char>)
    requires
        all_digits(t),
    ensures
        0 <= digits_val(t) < pow10(t.len() as int),
    decreases t.len(),
{
    if t.len() == 0 {
    } else {
        assert(all_digits(t.drop_last())) by {
            assert(forall|j: int|
                0 <= j < t.len() - 1 ==> is_digit(#[trigger] t.drop_last()[j]));
        }
        lemma_digits_val_lt(t.drop_last());
    }
}

/// Does a complete `mul(x,y)` instruction, with one- to three-digit
/// operands, start at position `i`?
pub open spec fn mul_match_at(s: Seq<char>, i: int) -> bool {
    let d1 = digit_run(s, i + 4);
    let c1 = i + 4 + d1;
    let d2 = digit_run(s, c1 + 1);
    let c2 = c1 + 1 + d2;
    &&& i >= 0
    &&& i + 4 <= s.len()
    &&& s[i] == 'm'
    &&& s[i + 1] == 'u'
    &&& s[i + 2] == 'l'
    &&& s[i + 3] == '('
    &&& 1 <= d1 <= 3
    &&& c1 < s.len()
    &&& s[c1] == ','
    &&& 1 <= d2 <= 3
    &&& c2 < s.len()
    &&& s[c2] == ')'
}

/// Character length of the instruction starting at `i`.
pub open spec fn mul_len(s: Seq<char>, i: int) -> int {
    let d1 = digit_run(s, i + 4);
    let d2 = digit_run(s, i + 4 + d1 + 1);
    4 + d1 + 1 + d2 + 1
}

/// The product the instruction at `i` denotes.
pub open spec fn mul_value(s: Seq<char>, i: int) -> int {
    let d1 = digit_run(s, i + 4);
    let c1 = i + 4 + d1;
    let d2 = digit_run(s, c1 + 1);
    digits_val(s.subrange(i + 4, c1)) * digits_val(s.subrange(c1 + 1, c1 + 1 + d2))
}

/// Sum of the products of all instructions at or after `i`, scanning left
/// to right and stepping over each whole match.
pub open spec fn scan_total(s: Seq<char>, i: int) -> int
    decreases s.len() - i,
{
    if i < 0 || i >= s.len() {
        0
    } else if mul_match_at(s, i) {
        mul_value(s, i) + scan_total(s, i + mul_len(s, i))
    } else {
        scan_total(s, i + 1)
    }
}

pub proof fn lemma_scan_total_nonneg(s: Seq<char>, i: int)
    ensures
        scan_total(s, i) >= 0,
    decreases s.len() - i,
{
    if 0 <= i < s.len() {
        if mul_match_at(s, i) {
            lemma_scan_total_nonneg(s, i + mul_len(s, i));
            lemma_digit_run(s, i + 4);
            let d1 = digit_run(s, i + 4);
            let c1 = i + 4 + d1;
            lemma_digit_run(s, c1 + 1);
            let d2 = digit_run(s, c1 + 1);
            let x = digits_val(s.subrange(i + 4, c1));
            let y = digits_val(s.subrange(c1 + 1, c1 + 1 + d2));
            assert(all_digits(s.subrange(i + 4, c1)));
            assert(all_digits(s.subrange(c1 + 1, c1 + 1 + d2)));
            lemma_digits_val_nonneg(s.subrange(i + 4, c1));
            lemma_digits_val_nonneg(s.subrange(c1 + 1, c1 + 1 + d2));
            assert(x * y >= 0) by (nonlinear_arith)
                requires x >= 0, y >= 0,
            ;
        } else {
            lemma_scan_total_nonneg(s, i + 1);
        }
    }
}

/// Length of the digit run starting at `j`, executably.
fn digit_run_at(chars: &Vec<char>, j: usize) -> (k: usize)
    requires
        j <= chars@.len(),
    ensures
        k as int == j + digit_run(chars@, j as int),
        j <= k <= chars@.len(),
{
    proof {
        lemma_digit_run(chars@, j as int);
    }
    let mut k = j;
    while k < chars.len() && chars[k] >= '0' && chars[k] <= '9'
        invariant
            j <= k <= chars@.len(),
            j + digit_run(chars@, j as int) == k + digit_run(chars@, k as int),
        decreases chars@.len() - k,
    {
        proof {
            assert(is_digit(chars@[k as int]));
        }
        k = k + 1;
    }
    k
}

/// Sum every `mul(x,y)` instruction in `chars`; `None` exactly when the
/// sum exceeds `u64::MAX`.
#[verifier::loop_isolation(false)]
pub fn mul_total(chars: &Vec<char>) -> (r: Option<u64>)
    ensures
        match r {
            Some(v) => v as int == scan_total(chars@, 0),
            None => scan_total(chars@, 0) > u64::MAX,
        },
{
    let n = chars.len();
    let mut total: u64 = 0;
    let mut i: usize = 0;
    while i < n
        invariant
            i <= n,
            scan_total(chars@, 0) == total + scan_total(chars@, i as int),
        decreases n - i,
    {
        let mut matched = false;
        if n - i >= 4 && chars[i] == 'm' && chars[i + 1] == 'u' && chars[i + 2] == 'l'
            && chars[i + 3] == '(' {
            let p1 = digit_run_at(chars, i + 4);
            let d1 = p1 - (i + 4);
            if 1 <= d1 && d1 <= 3 && p1 < n && chars[p1] == ',' {
                let p2 = digit_run_at(chars, p1 + 1);
                let d2 = p2 - (p1 + 1);
                if 1 <= d2 && d2 <= 3 && p2 < n && chars[p2] == ')' {
                    proof {
                        assert(mul_match_at(chars@, i as int));
                    }
                    let x = match parse_u64(chars, i + 4, p1) {
                        Some(x) => x,
                        None => {
                            proof {
                                let t = chars@.subrange(i + 4, p1 as int);
                                lemma_digit_run(chars@, i + 4);
                                assert(all_digits(t));
                                lemma_digits_val_lt(t);
                                assert(pow10(0) == 1);
                                assert(pow10(1) == 10);
                                assert(pow10(2) == 100);
                                assert(pow10(3) == 1000);
                                assert(false);
                            }
                            return None;
                        },
                    };
                    let y = match parse_u64(chars, p1 + 1, p2) {
                        Some(y) => y,
                        None => {
                            proof {
                                let t = chars@.subrange(p1 + 1, p2 as int);
                                lemma_digit_run(chars@, p1 + 1);
                                assert(all_digits(t));
                                lemma_digits_val_lt(t);
                                assert(pow10(0) == 1);
                                assert(pow10(1) == 10);
                                assert(pow10(2) == 100);
                                assert(pow10(3) == 1000);
                                assert(false);
                            }
                            return None;
                        },
                    };
                    proof {
                        let t1 = chars@.subrange(i + 4, p1 as int);
                        let t2 = chars@.subrange(p1 + 1, p2 as int);
                        lemma_digit_run(chars@, i + 4);
                        lemma_digit_run(chars@, p1 + 1);
                        assert(all_digits(t1));
                        assert(all_digits(t2));
                        lemma_digits_val_lt(t1);
                        lemma_digits_val_lt(t2);
                        assert(pow10(0) == 1);
                                assert(pow10(1) == 10);
                                assert(pow10(2) == 100);
                                assert(pow10(3) == 1000);
                        lemma_pow10_pos(t1.len() as int);
                        lemma_pow10_pos(t2.len() as int);
                        assert(x <= 999 && y <= 999);
                        assert((x as int) * (y as int) <= 999 * 999)
                            by (nonlinear_arith)
                            requires 0 <= x as int <= 999, 0 <= y as int <= 999,
                        ;
                    }
                    let prod = x * y;
                    proof {
                        assert(prod as int == mul_value(chars@, i as int));
                        assert(mul_len(chars@, i as int) == p2 + 1 - i);
                    }
                    match total.checked_add(prod) {
                        Some(s) => {
                            total = s;
                        },
                        None => {
                            proof {
                                lemma_scan_total_nonneg(chars@, p2 + 1);
                            }
                            return None;
                        },
                    }
                    i = p2 + 1;
                    matched = true;
                }
            }
        }
        if !matched {
            proof {
                assert(!mul_match_at(chars@, i as int));
            }
            i = i + 1;
        }
    }
    Some(total)
}

/// Does `pat` occur in `s` starting exactly at `j`?
pub open spec fn matches_at(s: Seq<char>, j: int, pat: Seq<char>) -> bool {
    j >= 0 && j + pat.len() <= s.len() && forall|k: int|
        0 <= k < pat.len() ==> s[j + k] == pat[k]
}

/// First occurrence of `pat` at or after `j`; `s.len()` if there is none.
pub open spec fn find_sub(s: Seq<char>, j: int, pat: Seq<char>) -> int
    decreases s.len() - j,
{
    if j < 0 || j + pat.len() > s.len() {
        s.len() as int
    } else if matches_at(s, j, pat) {
        j
    } else {
        find_sub(s, j + 1, pat)
    }
}

pub proof fn lemma_find_sub(s: Seq<char>, j: int, pat: Seq<char>)
    requires
        0 <= j <= s.len(),
        pat.len() >= 1,
    ensures
        j <= find_sub(s, j, pat) <= s.len(),
        find_sub(s, j, pat) < s.len() ==> matches_at(s, find_sub(s, j, pat), pat),
        forall|m: int| j <= m < find_sub(s, j, pat) ==> !matches_at(s, m, pat),
    decreases s.len() - j,
{
    if !(j + pat.len() > s.len()) && !matches_at(s, j, pat) {
        lemma_find_sub(s, j + 1, pat);
    }
}

pub open spec fn do_pat() -> Seq<char> {
    seq!['d', 'o', '(', ')']
}

pub open spec fn dont_pat() -> Seq<char> {
    seq!['d', 'o', 'n', '\'', 't', '(', ')']
}

/// The leftover piece once no further token occurs.
pub open spec fn chunks_tail(s: Seq<char>, collecting: bool, chunk_start: int) -> Seq<
    Seq<char>,
> {
    if collecting && chunk_start < s.len() {
        seq![s.subrange(chunk_start, s.len() as int)]
    } else {
        Seq::empty()
    }
}

/// The enabled pieces of the text from position `i`, given whether
/// collection is currently on and where the open piece began: a `don't()`
/// closes the open piece, a `do()` opens a new one, and an open piece at
/// the end is kept.
pub open spec fn chunks_rec(
    s: Seq<char>,
    i: int,
    collecting: bool,
    chunk_start: int,
) -> Seq<Seq<char>>
    decreases s.len() - i,
{
    if i < 0 || i >= s.len() {
        chunks_tail(s, collecting, chunk_start)
    } else {
        let dp = find_sub(s, i, do_pat());
        let dn = find_sub(s, i, dont_pat());
        if dp >= s.len() && dn >= s.len() {
            chunks_tail(s, collecting, chunk_start)
        } else if dp < dn {
            let i2 = dp + 4;
            if i2 <= i || i2 > s.len() {
                chunks_tail(s, collecting, chunk_start)
            } else if collecting {
                chunks_rec(s, i2, true, chunk_start)
            } else {
                chunks_rec(s, i2, true, i2)
            }
        } else {
            let i2 = dn + 7;
            if i2 <= i || i2 > s.len() {
                chunks_tail(s, collecting, chunk_start)
            } else if collecting {
                seq![s.subrange(chunk_start, dn)] + chunks_rec(
                    s, i2, false, chunk_start)
            } else {
                chunks_rec(s, i2, false, chunk_start)
            }
        }
    }
}

/// The enabled pieces of the whole text; collection starts on.
pub open spec fn enabled_chunks(t: Seq<char>) -> Seq<Seq<char>> {
    chunks_rec(t, 0, true, 0)
}

/// First `do()` at or after `from`, mirroring [`find_sub`].
fn find_do(chars: &Vec<char>, from: usize) -> (k: usize)
    requires
        from <= chars@.len(),
    ensures
        k as int == find_sub(chars@, from as int, do_pat()),
{
    let n = chars.len();
    let mut p = from;
    loop
        invariant
            from <= p,
            p <= n,
            n == chars@.len(),
            find_sub(chars@, from as int, do_pat()) == find_sub(
                chars@, p as int, do_pat()),
        decreases n - p,
    {
        if n - p < 4 {
            proof {
                assert(find_sub(chars@, p as int, do_pat()) == n);
            }
            return n;
        }
        if chars[p] == 'd' && chars[p + 1] == 'o' && chars[p + 2] == '('
            && chars[p + 3] == ')' {
            proof {
                assert(matches_at(chars@, p as int, do_pat()));
            }
            return p;
        }
        proof {
            assert(!matches_at(chars@, p as int, do_pat())) by {
                if matches_at(chars@, p as int, do_pat()) {
                    assert(chars@[p as int] == do_pat()[0]);
                    assert(chars@[p + 1] == do_pat()[1]);
                    assert(chars@[p + 2] == do_pat()[2]);
                    assert(chars@[p + 3] == do_pat()[3]);
                }
            }
        }
        p = p + 1;
    }
}

/// First `don't()` at or after `from`, mirroring [`find_sub`].
fn find_dont(chars: &Vec<char>, from: usize) -> (k: usize)
    requires
        from <= chars@.len(),
    ensures
        k as int == find_sub(chars@, from as int, dont_pat()),
{
    let n = chars.len();
    let mut p = from;
    loop
        invariant
            from <= p,
            p <= n,
            n == chars@.len(),
            find_sub(chars@, from as int, dont_pat()) == find_sub(
                chars@, p as int, dont_pat()),
        decreases n - p,
    {
        if n - p < 7 {
            proof {
                assert(find_sub(chars@, p as int, dont_pat()) == n);
            }
            return n;
        }
        if chars[p] == 'd' && chars[p + 1] == 'o' && chars[p + 2] == 'n'
            && chars[p + 3] == '\'' && chars[p + 4] == 't' && chars[p + 5] == '('
            && chars[p + 6] == ')' {
            proof {
                assert(matches_at(chars@, p as int, dont_pat()));
            }
            return p;
        }
        proof {
            assert(!matches_at(chars@, p as int, dont_pat())) by {
                if matches_at(chars@, p as int, dont_pat()) {
                    assert(chars@[p as int] == dont_pat()[0]);
                    assert(chars@[p + 1] == dont_pat()[1]);
                    assert(chars@[p + 2] == dont_pat()[2]);
                    assert(chars@[p + 3] == dont_pat()[3]);
                    assert(chars@[p + 4] == dont_pat()[4]);
                    assert(chars@[p + 5] == dont_pat()[5]);
                    assert(chars@[p + 6] == dont_pat()[6]);
                }
            }
        }
        p = p + 1;
    }
}

/// Copy `chars[from..to]` into a fresh vector.
fn copy_range(chars: &Vec<char>, from: usize, to: usize) -> (r: Vec<char>)
    requires
        from <= to <= chars@.len(),
    ensures
        r@ == chars@.subrange(from as int, to as int),
{
    let mut r: Vec<char> = Vec::new();
    let mut i = from;
    while i < to
        invariant
            from <= i <= to <= chars@.len(),
            r@ == chars@.subrange(from as int, i as int),
        decreases to - i,
    {
        r.push(chars[i]);
        i = i + 1;
        proof {
            assert(r@ =~= chars@.subrange(from as int, i as int));
        }
    }
    r
}

/// The enabled pieces of the text, mirroring [`enabled_chunks`].
#[verifier::loop_isolation(false)]
pub fn collect_do_dont(chars: &Vec<char>) -> (out: Vec<Vec<char>>)
    ensures
        out@.len() == enabled_chunks(chars@).len(),
        forall|i: int|
            0 <= i < out@.len() ==> out@[i]@ == enabled_chunks(chars@)[i],
{
    let n = chars.len();
    let mut out: Vec<Vec<char>> = Vec::new();
    let mut collecting = true;
    let mut chunk_start: usize = 0;
    let mut i: usize = 0;
    while i < n
        invariant
            chunk_start <= i <= n,
            enabled_chunks(chars@) =~= views_of(out@) + chunks_rec(
                chars@, i as int, collecting, chunk_start as int),
        decreases n - i,
    {
        let dp = find_do(chars, i);
        let dn = find_dont(chars, i);
        proof {
            lemma_find_sub(chars@, i as int, do_pat());
            lemma_find_sub(chars@, i as int, dont_pat());
        }
        if dp == n && dn == n {
            proof {
                assert(chunks_rec(chars@, i as int, collecting, chunk_start as int)
                    == chunks_tail(chars@, collecting, chunk_start as int));
            }
            i = n;
        } else if dp < dn {
            if !collecting {
                collecting = true;
                chunk_start = dp + 4;
            }
            i = dp + 4;
        } else {
            if collecting {
                let piece = copy_range(chars, chunk_start, dn);
                out.push(piece);
                collecting = false;
                proof {
                    assert(views_of(out@) =~= views_of(out@.drop_last()).push(
                        out@.last()@));
                }
            }
            i = dn + 7;
        }
    }
    if collecting && chunk_start < n {
        let piece = copy_range(chars, chunk_start, n);
        out.push(piece);
        proof {
            assert(views_of(out@) =~= views_of(out@.drop_last()).push(
                out@.last()@));
        }
    }
    proof {
        assert forall|i2: int|
            0 <= i2 < out@.len() implies out@[i2]@ == enabled_chunks(chars@)[i2] by {
            assert(views_of(out@)[i2] == out@[i2]@);
        }
    }
    out
}

/// The views of collected pieces.
pub open spec fn views_of(ls: Seq<Vec<char>>) -> Seq<Seq<char>> {
    ls.map_values(|l: Vec<char>| l@)
}

/// Sum of the `mul` totals of a sequence of pieces.
pub open spec fn chunks_total(cs: Seq<Seq<char>>) -> int
    decreases cs.len(),
{
    if cs.len() == 0 {
        0
    } else {
        scan_total(cs[0], 0) + chunks_total(cs.drop_first())
    }
}

pub proof fn lemma_chunks_total_nonneg(cs: Seq<Seq<char>>)
    ensures
        chunks_total(cs) >= 0,
    decreases cs.len(),
{
    if cs.len() > 0 {
        lemma_scan_total_nonneg(cs[0], 0);
        lemma_chunks_total_nonneg(cs.drop_first());
    }
}

/// Sum of all `mul` instructions in the whole text; `None` exactly when
/// the sum exceeds `u64::MAX`.
pub fn part_one(input: &str) -> (r: Option<u64>)
    ensures
        match r {
            Some(v) => v as int == scan_total(input@, 0),
            None => scan_total(input@, 0) > u64::MAX,
        },
{
    let chars = to_chars(input);
    mul_total(&chars)
}

/// Sum of the `mul` instructions inside enabled regions only; `None`
/// exactly when that sum exceeds `u64::MAX`.
#[verifier::loop_isolation(false)]
pub fn part_two(input: &str) -> (r: Option<u64>)
    ensures
        match r {
            Some(v) => v as int == chunks_total(enabled_chunks(input@)),
            None => chunks_total(enabled_chunks(input@)) > u64::MAX,
        },
{
    let chars = to_chars(input);
    let chunks = collect_do_dont(&chars);
    let ghost gchunks = enabled_chunks(chars@);
    let mut total: u64 = 0;
    let mut j: usize = 0;
    proof {
        assert(gchunks.subrange(0, gchunks.len() as int) =~= gchunks);
    }
    while j < chunks.len()
        invariant
            j <= chunks@.len(),
            chunks_total(gchunks) == total + chunks_total(
                gchunks.subrange(j as int, gchunks.len() as int)),
        decreases chunks@.len() - j,
    {
        let ghost rest = gchunks.subrange(j as int, gchunks.len() as int);
        proof {
            assert(rest[0] == gchunks[j as int]);
            assert(rest.drop_first() =~= gchunks.subrange(
                j + 1, gchunks.len() as int));
        }
        let piece = &chunks[j];
        match mul_total(piece) {
            Some(v) => {
                match total.checked_add(v) {
                    Some(s) => {
                        total = s;
                    },
                    None => {
                        proof {
                            lemma_chunks_total_nonneg(rest.drop_first());
                        }
                        return None;
                    },
                }
            },
            None => {
                proof {
                    lemma_chunks_total_nonneg(rest.drop_first());
                    assert(total >= 0);
                }
                return None;
            },
        }
        j = j + 1;
    }
    proof {
        assert(chunks_total(gchunks.subrange(
            chunks@.len() as int, gchunks.len() as int)) == 0);
    }
    Some(total)
}

} // verus!
