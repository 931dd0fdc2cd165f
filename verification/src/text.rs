//! Shared text utilities: turning a `&str` into characters, splitting it
//! into lines, tokens and fields, and parsing decimal numbers.

use vstd::prelude::*;

verus! {

/// Collect the characters of a string slice into a vector.
///
/// `str::get_char` is O(i), so this is quadratic; inputs here are small.
pub fn to_chars(s: &str) -> (v: Vec<char>)
    ensures
        v@ == s@,
{
    let n = s.unicode_len();
    let mut v: Vec<char> = Vec::new();
    let mut i: usize = 0;
    while i < n
        invariant
            n == s@.len(),
            i <= n,
            v@ == s@.subrange(0, i as int),
        decreases n - i,
    {
        let c = s.get_char(i);
        v.push(c);
        i = i + 1;
        proof {
            assert(v@ =~= s@.subrange(0, i as int));
        }
    }
    proof {
        assert(v@ =~= s@);
    }
    v
}

/// Index of the first newline in `t`, or `t.len()` if there is none.
pub open spec fn first_nl(t: Seq<char>) -> int
    decreases t.len(),
{
    if t.len() == 0 {
        0
    } else if t[0] == '\n' {
        0
    } else {
        1 + first_nl(t.drop_first())
    }
}

pub proof fn lemma_first_nl(t: Seq<char>)
    ensures
        0 <= first_nl(t) <= t.len(),
        forall|j: int| 0 <= j < first_nl(t) ==> t[j] != '\n',
        first_nl(t) < t.len() ==> t[first_nl(t)] == '\n',
    decreases t.len(),
{
    if t.len() > 0 && t[0] != '\n' {
        lemma_first_nl(t.drop_first());
        assert forall|j: int| 0 <= j < first_nl(t) implies t[j] != '\n' by {
            if j > 0 {
                assert(t.drop_first()[j - 1] != '\n');
            }
        }
    }
}

/// Remove one trailing carriage return, as line splitting does.
pub open spec fn strip_cr(p: Seq<char>) -> Seq<char> {
    if p.len() > 0 && p[p.len() - 1] == '\r' {
        p.drop_last()
    } else {
        p
    }
}

/// The lines of `t`: pieces between newlines, each stripped of a trailing
/// carriage return; a final piece without a newline is kept as written, and
/// a trailing newline does not produce an extra empty line.
pub open spec fn split_lines_spec(t: Seq<char>) -> Seq<Seq<char>>
    decreases t.len(),
{
    if t.len() == 0 {
        Seq::empty()
    } else {
        let i = first_nl(t);
        if i < 0 || i >= t.len() {
            seq![t]
        } else {
            seq![strip_cr(t.subrange(0, i))] + split_lines_spec(
                t.subrange(i + 1, t.len() as int),
            )
        }
    }
}

/// Split a character sequence into lines, mirroring [`split_lines_spec`].
pub fn split_lines(chars: &Vec<char>) -> (lines: Vec<Vec<char>>)
    ensures
        lines@.len() == split_lines_spec(chars@).len(),
        forall|i: int|
            0 <= i < lines@.len() ==> lines@[i]@ == split_lines_spec(chars@)[i],
{
    let n = chars.len();
    let mut lines: Vec<Vec<char>> = Vec::new();
    let mut cur: Vec<char> = Vec::new();
    let ghost mut line_start: int = 0;
    let mut idx: usize = 0;
    proof {
        assert(chars@.subrange(0, n as int) =~= chars@);
    }
    while idx < n
        invariant
            n == chars@.len(),
            0 <= line_start <= idx <= n,
            cur@ == chars@.subrange(line_start, idx as int),
            forall|j: int| line_start <= j < idx ==> chars@[j] != '\n',
            split_lines_spec(chars@) =~= lines_views(lines@) + split_lines_spec(
                chars@.subrange(line_start, n as int),
            ),
        decreases n - idx,
    {
        let c = chars[idx];
        if c == '\n' {
            proof {
                let suffix = chars@.subrange(line_start, n as int);
                lemma_first_nl(suffix);
                assert(suffix[idx - line_start] == '\n');
                assert(forall|j: int|
                    0 <= j < idx - line_start ==> suffix[j] != '\n');
                assert(first_nl(suffix) == idx - line_start);
                assert(suffix.subrange(0, idx - line_start) =~= cur@);
                assert(suffix.subrange(
                    idx - line_start + 1,
                    suffix.len() as int,
                ) =~= chars@.subrange(idx + 1, n as int));
            }
            if cur.len() > 0 && cur[cur.len() - 1] == '\r' {
                cur.pop();
            }
            proof {
                assert(cur@ == strip_cr(chars@.subrange(line_start, idx as int)));
            }
            lines.push(cur);
            cur = Vec::new();
            proof {
                line_start = idx + 1;
                assert(cur@ =~= chars@.subrange(line_start, idx + 1));
                assert(lines_views(lines@) =~= lines_views(
                    lines@.drop_last(),
                ).push(lines@.last()@));
            }
        } else {
            cur.push(c);
            proof {
                assert(cur@ =~= chars@.subrange(line_start, idx + 1));
            }
        }
        idx = idx + 1;
    }
    proof {
        let suffix = chars@.subrange(line_start, n as int);
        lemma_first_nl(suffix);
        assert(first_nl(suffix) == suffix.len());
        if suffix.len() > 0 {
            assert(split_lines_spec(suffix) == seq![suffix]);
        }
    }
    if cur.len() > 0 {
        lines.push(cur);
        proof {
            assert(lines_views(lines@) =~= lines_views(
                lines@.drop_last(),
            ).push(lines@.last()@));
        }
    }
    proof {
        assert forall|i: int|
            0 <= i < lines@.len() implies lines@[i]@ == split_lines_spec(
            chars@,
        )[i] by {
            assert(lines_views(lines@)[i] == lines@[i]@);
        }
    }
    lines
}

/// The views of a sequence of character vectors.
pub open spec fn lines_views(ls: Seq<Vec<char>>) -> Seq<Seq<char>> {
    ls.map_values(|l: Vec<char>| l@)
}

/// Blank characters inside a line: space, tab, and a stray carriage return.
pub open spec fn is_blank(c: char) -> bool {
    c == ' ' || c == '\t' || c == '\r'
}

/// Index of the first `ch` in `t` at or after `j`, or `t.len()` if none.
pub open spec fn find_char(t: Seq<char>, j: int, ch: char) -> int
    decreases t.len() - j,
{
    if j < 0 || j >= t.len() {
        t.len() as int
    } else if t[j] == ch {
        j
    } else {
        find_char(t, j + 1, ch)
    }
}

pub proof fn lemma_find_char(t: Seq<char>, j: int, ch: char)
    requires
        0 <= j <= t.len(),
    ensures
        j <= find_char(t, j, ch) <= t.len(),
        forall|m: int| j <= m < find_char(t, j, ch) ==> t[m] != ch,
        find_char(t, j, ch) < t.len() ==> t[find_char(t, j, ch)] == ch,
    decreases t.len() - j,
{
    if j < t.len() && t[j] != ch {
        lemma_find_char(t, j + 1, ch);
    }
}

/// Executable twin of [`find_char`], from position `from`.
pub fn find_char_at(s: &Vec<char>, from: usize, ch: char) -> (k: usize)
    requires
        from <= s@.len(),
    ensures
        k as int == find_char(s@, from as int, ch),
        from <= k <= s@.len(),
{
    proof {
        lemma_find_char(s@, from as int, ch);
    }
    let mut i: usize = from;
    while i < s.len()
        invariant
            from <= i <= s@.len(),
            find_char(s@, from as int, ch) == find_char(s@, i as int, ch),
        decreases s@.len() - i,
    {
        if s[i] == ch {
            return i;
        }
        i = i + 1;
    }
    i
}

/// The whitespace-separated tokens of `t` after position `j`, with `cur`
/// the token being read.
pub open spec fn ws_tokens_acc(t: Seq<char>, j: int, cur: Seq<char>) -> Seq<Seq<char>>
    decreases t.len() - j,
{
    if j < 0 || j >= t.len() {
        if cur.len() > 0 {
            seq![cur]
        } else {
            Seq::empty()
        }
    } else if is_blank(t[j]) {
        if cur.len() > 0 {
            seq![cur] + ws_tokens_acc(t, j + 1, Seq::empty())
        } else {
            ws_tokens_acc(t, j + 1, Seq::empty())
        }
    } else {
        ws_tokens_acc(t, j + 1, cur.push(t[j]))
    }
}

/// The whitespace-separated tokens of `t`; no token is empty.
pub open spec fn ws_tokens(t: Seq<char>) -> Seq<Seq<char>> {
    ws_tokens_acc(t, 0, Seq::empty())
}

/// Split on blanks, mirroring [`ws_tokens`].
pub fn split_ws(chars: &Vec<char>) -> (tokens: Vec<Vec<char>>)
    ensures
        tokens@.len() == ws_tokens(chars@).len(),
        forall|i: int|
            0 <= i < tokens@.len() ==> tokens@[i]@ == ws_tokens(chars@)[i],
{
    let n = chars.len();
    let mut tokens: Vec<Vec<char>> = Vec::new();
    let mut cur: Vec<char> = Vec::new();
    let mut idx: usize = 0;
    while idx < n
        invariant
            n == chars@.len(),
            idx <= n,
            ws_tokens(chars@) =~= lines_views(tokens@) + ws_tokens_acc(
                chars@, idx as int, cur@),
        decreases n - idx,
    {
        let c = chars[idx];
        if c == ' ' || c == '\t' || c == '\r' {
            if cur.len() > 0 {
                let ghost pre_tokens = tokens@;
                let ghost pre_cur = cur@;
                tokens.push(cur);
                cur = Vec::new();
                proof {
                    assert(cur@ =~= Seq::<char>::empty());
                    assert(is_blank(chars@[idx as int]));
                    assert(ws_tokens_acc(chars@, idx as int, pre_cur) == seq![pre_cur]
                        + ws_tokens_acc(chars@, idx + 1, Seq::empty()));
                    assert(lines_views(tokens@) =~= lines_views(pre_tokens).push(
                        pre_cur));
                    assert(lines_views(pre_tokens) + (seq![pre_cur] + ws_tokens_acc(
                        chars@, idx + 1, Seq::empty())) =~= lines_views(tokens@)
                        + ws_tokens_acc(chars@, idx + 1, Seq::empty()));
                }
            } else {
                proof {
                    assert(is_blank(chars@[idx as int]));
                    assert(cur@ =~= Seq::<char>::empty());
                    assert(ws_tokens_acc(chars@, idx as int, cur@)
                        == ws_tokens_acc(chars@, idx + 1, Seq::empty()));
                }
            }
        } else {
            proof {
                assert(!is_blank(chars@[idx as int]));
            }
            cur.push(c);
        }
        idx = idx + 1;
    }
    if cur.len() > 0 {
        tokens.push(cur);
        proof {
            assert(lines_views(tokens@) =~= lines_views(
                tokens@.drop_last(),
            ).push(tokens@.last()@));
        }
    }
    proof {
        assert forall|i: int|
            0 <= i < tokens@.len() implies tokens@[i]@ == ws_tokens(chars@)[i] by {
            assert(lines_views(tokens@)[i] == tokens@[i]@);
        }
    }
    tokens
}

/// The fields of `t` after position `j` when split at `sep`, with `cur` the
/// field being read; empty fields are kept, as `str::split` does.
pub open spec fn sep_fields_acc(t: Seq<char>, j: int, sep: char, cur: Seq<char>) -> Seq<
    Seq<char>,
>
    decreases t.len() - j,
{
    if j < 0 || j >= t.len() {
        seq![cur]
    } else if t[j] == sep {
        seq![cur] + sep_fields_acc(t, j + 1, sep, Seq::empty())
    } else {
        sep_fields_acc(t, j + 1, sep, cur.push(t[j]))
    }
}

/// The fields of `t` split at `sep`; always at least one field.
pub open spec fn sep_fields(t: Seq<char>, sep: char) -> Seq<Seq<char>> {
    sep_fields_acc(t, 0, sep, Seq::empty())
}

/// Split at a separator, mirroring [`sep_fields`].
pub fn split_sep(chars: &Vec<char>, sep: char) -> (fields: Vec<Vec<char>>)
    ensures
        fields@.len() == sep_fields(chars@, sep).len(),
        forall|i: int|
            0 <= i < fields@.len() ==> fields@[i]@ == sep_fields(chars@, sep)[i],
{
    let n = chars.len();
    let mut fields: Vec<Vec<char>> = Vec::new();
    let mut cur: Vec<char> = Vec::new();
    let mut idx: usize = 0;
    while idx < n
        invariant
            n == chars@.len(),
            idx <= n,
            sep_fields(chars@, sep) =~= lines_views(fields@) + sep_fields_acc(
                chars@, idx as int, sep, cur@),
        decreases n - idx,
    {
        let c = chars[idx];
        if c == sep {
            fields.push(cur);
            cur = Vec::new();
            proof {
                assert(lines_views(fields@) =~= lines_views(
                    fields@.drop_last(),
                ).push(fields@.last()@));
            }
        } else {
            cur.push(c);
        }
        idx = idx + 1;
    }
    fields.push(cur);
    proof {
        assert(lines_views(fields@) =~= lines_views(
            fields@.drop_last(),
        ).push(fields@.last()@));
        assert forall|i: int|
            0 <= i < fields@.len() implies fields@[i]@ == sep_fields(chars@, sep)[i] by {
            assert(lines_views(fields@)[i] == fields@[i]@);
        }
    }
    fields
}

/// `t` without leading blanks.
pub open spec fn trim_front(t: Seq<char>) -> Seq<char>
    decreases t.len(),
{
    if t.len() > 0 && is_blank(t[0]) {
        trim_front(t.drop_first())
    } else {
        t
    }
}

/// `t` without trailing blanks.
pub open spec fn trim_back(t: Seq<char>) -> Seq<char>
    decreases t.len(),
{
    if t.len() > 0 && is_blank(t.last()) {
        trim_back(t.drop_last())
    } else {
        t
    }
}

/// `t` without leading and trailing blanks.
pub open spec fn trim_spec(t: Seq<char>) -> Seq<char> {
    trim_back(trim_front(t))
}

proof fn lemma_trim_front_subrange(t: Seq<char>, a: int)
    requires
        0 <= a <= t.len(),
        forall|m: int| 0 <= m < a ==> is_blank(t[m]),
        a < t.len() ==> !is_blank(t[a]),
    ensures
        trim_front(t) == t.subrange(a, t.len() as int),
    decreases a,
{
    if a == 0 {
        assert(t.subrange(0, t.len() as int) =~= t);
    } else {
        let u = t.drop_first();
        assert(forall|m: int| 0 <= m < a - 1 ==> is_blank(#[trigger] u[m]));
        lemma_trim_front_subrange(u, a - 1);
        assert(u.subrange(a - 1, u.len() as int) =~= t.subrange(a, t.len() as int));
    }
}

proof fn lemma_trim_back_subrange(t: Seq<char>, b: int)
    requires
        0 <= b <= t.len(),
        forall|m: int| b <= m < t.len() ==> is_blank(t[m]),
        b > 0 ==> !is_blank(t[b - 1]),
    ensures
        trim_back(t) == t.subrange(0, b),
    decreases t.len() - b,
{
    if b == t.len() {
        assert(t.subrange(0, b) =~= t);
    } else {
        let u = t.drop_last();
        assert(forall|m: int| b <= m < u.len() ==> is_blank(#[trigger] u[m]));
        lemma_trim_back_subrange(u, b);
        assert(u.subrange(0, b) =~= t.subrange(0, b));
    }
}

/// Trim blanks from both ends, mirroring [`trim_spec`].
pub fn trim(chars: &Vec<char>) -> (r: Vec<char>)
    ensures
        r@ == trim_spec(chars@),
{
    let n = chars.len();
    let mut a: usize = 0;
    while a < n && (chars[a] == ' ' || chars[a] == '\t' || chars[a] == '\r')
        invariant
            a <= n,
            n == chars@.len(),
            forall|m: int| 0 <= m < a ==> is_blank(chars@[m]),
        decreases n - a,
    {
        a = a + 1;
    }
    let mut b: usize = n;
    while b > a && (chars[b - 1] == ' ' || chars[b - 1] == '\t' || chars[b - 1] == '\r')
        invariant
            a <= b <= n,
            n == chars@.len(),
            forall|m: int| 0 <= m < a ==> is_blank(chars@[m]),
            forall|m: int| b <= m < n ==> is_blank(chars@[m]),
        decreases b,
    {
        b = b - 1;
    }
    let mut r: Vec<char> = Vec::new();
    let mut i: usize = a;
    while i < b
        invariant
            a <= i <= b <= n,
            n == chars@.len(),
            r@ == chars@.subrange(a as int, i as int),
        decreases b - i,
    {
        r.push(chars[i]);
        proof {
            assert(r@ =~= chars@.subrange(a as int, i + 1));
        }
        i = i + 1;
    }
    proof {
        lemma_trim_front_subrange(chars@, a as int);
        let f = chars@.subrange(a as int, n as int);
        if b == a {
            lemma_trim_back_subrange(f, 0);
        } else {
            assert(!is_blank(f[b - a - 1]));
            lemma_trim_back_subrange(f, b - a);
        }
        assert(f.subrange(0, b - a) =~= chars@.subrange(a as int, b as int));
        assert(r@ =~= chars@.subrange(a as int, b as int));
    }
    r
}

/// Is `c` a decimal digit?
pub open spec fn is_digit(c: char) -> bool {
    '0' <= c && c <= '9'
}

/// Numeric value of a digit character.
pub open spec fn digit_val(c: char) -> int {
    c as int - '0' as int
}

/// Are all characters of `t` decimal digits?
pub open spec fn all_digits(t: Seq<char>) -> bool {
    forall|j: int| 0 <= j < t.len() ==> is_digit(#[trigger] t[j])
}

/// The numeric value of a digit string (most significant digit first).
pub open spec fn digits_val(t: Seq<char>) -> int
    decreases t.len(),
{
    if t.len() == 0 {
        0
    } else {
        digits_val(t.drop_last()) * 10 + digit_val(t.last())
    }
}

pub proof fn lemma_digits_val_nonneg(t: Seq<char>)
    requires
        all_digits(t),
    ensures
        digits_val(t) >= 0,
    decreases t.len(),
{
    if t.len() > 0 {
        assert(all_digits(t.drop_last())) by {
            assert(forall|j: int|
                0 <= j < t.len() - 1 ==> is_digit(#[trigger] t.drop_last()[j]));
        }
        lemma_digits_val_nonneg(t.drop_last());
    }
}

pub proof fn lemma_digits_val_prefix(t: Seq<char>, i: int)
    requires
        all_digits(t),
        0 <= i <= t.len(),
    ensures
        digits_val(t) >= digits_val(t.subrange(0, i)),
    decreases t.len() - i,
{
    if i < t.len() {
        lemma_digits_val_prefix(t, i + 1);
        let p = t.subrange(0, i);
        let q = t.subrange(0, i + 1);
        assert(q.drop_last() =~= p);
        assert(all_digits(p));
        lemma_digits_val_nonneg(p);
        assert(digits_val(q) == digits_val(p) * 10 + digit_val(q.last()));
        assert(digit_val(q.last()) >= 0);
        assert(digits_val(q) >= digits_val(p));
    } else {
        assert(t.subrange(0, i) =~= t);
    }
}

/// Parse `s[from..to]` as an unsigned decimal number, mirroring
/// [`parse_u64_spec`]: `None` on an empty range, a non-digit, or overflow.
pub open spec fn parse_u64_spec(t: Seq<char>) -> Option<u64> {
    if t.len() > 0 && all_digits(t) && digits_val(t) <= u64::MAX {
        Some(digits_val(t) as u64)
    } else {
        None
    }
}

pub fn parse_u64(s: &Vec<char>, from: usize, to: usize) -> (r: Option<u64>)
    requires
        from <= to <= s@.len(),
    ensures
        r == parse_u64_spec(s@.subrange(from as int, to as int)),
{
    let ghost t = s@.subrange(from as int, to as int);
    if from == to {
        return None;
    }
    let mut acc: u64 = 0;
    let mut i: usize = from;
    while i < to
        invariant
            from <= i <= to <= s@.len(),
            t == s@.subrange(from as int, to as int),
            all_digits(t.subrange(0, i - from)),
            acc == digits_val(t.subrange(0, i - from)),
        decreases to - i,
    {
        let c = s[i];
        proof {
            assert(t[i - from] == c);
        }
        if !(c >= '0' && c <= '9') {
            proof {
                assert(!is_digit(t[i - from]));
            }
            return None;
        }
        let d: u64 = (c as u32 as u64) - ('0' as u32 as u64);
        proof {
            assert(d == digit_val(c));
        }
        if acc > (u64::MAX - d) / 10 {
            proof {
                let p = t.subrange(0, i - from);
                let q = t.subrange(0, i - from + 1);
                assert(q.drop_last() =~= p);
                assert(q.last() == c);
                assert(digits_val(q) == acc * 10 + d);
                assert(acc * 10 + d > u64::MAX) by {
                    assert(acc >= (u64::MAX - d) / 10 + 1);
                    assert(acc * 10 >= ((u64::MAX - d) / 10 + 1) * 10)
                        by (nonlinear_arith)
                        requires acc >= (u64::MAX - d) / 10 + 1,
                    ;
                    assert(((u64::MAX - d) / 10) * 10 + 10 > u64::MAX - d);
                }
                assert(all_digits(q));
                if all_digits(t) {
                    lemma_digits_val_prefix(t, i - from + 1);
                    assert(digits_val(t) > u64::MAX);
                }
            }
            return None;
        }
        proof {
            assert(acc * 10 + d <= u64::MAX) by {
                assert(acc <= (u64::MAX - d) / 10);
                assert(acc * 10 <= ((u64::MAX - d) / 10) * 10)
                    by (nonlinear_arith)
                    requires acc <= (u64::MAX - d) / 10,
                ;
                assert(((u64::MAX - d) / 10) * 10 <= u64::MAX - d);
            }
        }
        acc = acc * 10 + d;
        i = i + 1;
        proof {
            let p = t.subrange(0, i - from - 1);
            let q = t.subrange(0, i - from);
            assert(q.drop_last() =~= p);
            assert(q.last() == c);
        }
    }
    proof {
        assert(t.subrange(0, to - from) =~= t);
    }
    Some(acc)
}

/// Parse a signed decimal number: an optional minus sign, then digits;
/// `None` on an empty string, a stray character, or overflow.
pub open spec fn parse_i64_spec(t: Seq<char>) -> Option<i64> {
    if t.len() >= 2 && t[0] == '-' {
        let mag = t.subrange(1, t.len() as int);
        if all_digits(mag) && -digits_val(mag) >= i64::MIN {
            Some((-digits_val(mag)) as i64)
        } else {
            None
        }
    } else if t.len() >= 1 && all_digits(t) && digits_val(t) <= i64::MAX {
        Some(digits_val(t) as i64)
    } else {
        None
    }
}

/// Executable twin of [`parse_i64_spec`] on a whole vector.
pub fn parse_i64(s: &Vec<char>) -> (r: Option<i64>)
    ensures
        r == parse_i64_spec(s@),
{
    let n = s.len();
    proof {
        if !(n >= 2 && s@[0] == '-') && n >= 1 {
            assert(s@.subrange(0, n as int) =~= s@);
        }
    }
    if n >= 2 && s[0] == '-' {
        let ghost mag = s@.subrange(1, n as int);
        match parse_u64(s, 1, n) {
            Some(m) => {
                proof {
                    lemma_digits_val_nonneg(mag);
                    assert(digits_val(mag) == m as int);
                }
                if m <= i64::MAX as u64 {
                    Some(-(m as i64))
                } else if m == i64::MAX as u64 + 1 {
                    Some(i64::MIN)
                } else {
                    None
                }
            },
            None => {
                proof {
                    if all_digits(mag) {
                        lemma_digits_val_nonneg(mag);
                    }
                }
                None
            },
        }
    } else if n >= 1 {
        proof {
            assert(s@.subrange(0, n as int) =~= s@);
        }
        match parse_u64(s, 0, n) {
            Some(m) => {
                proof {
                    lemma_digits_val_nonneg(s@);
                    assert(digits_val(s@) == m as int);
                }
                if m <= i64::MAX as u64 {
                    Some(m as i64)
                } else {
                    None
                }
            },
            None => None,
        }
    } else {
        None
    }
}

} // verus!
