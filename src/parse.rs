//! The board file: one row per line, labels separated by whitespace, and `#`
//! starting a comment that runs to the end of the line.
use vstd::prelude::*;
use std::collections::HashSet;
use vstd::utf8::encode_utf8;

use crate::board::{board_view, in_grid, has_label, is_square, valid_board, MAX_SIDE};
use crate::solvability::rows_flat;

verus! {

broadcast use vstd::std_specs::hash::group_hash_axioms;

/// Why a board file is refused.
#[derive(Clone, Copy, PartialEq, Eq, Structural, Debug)]
pub enum ParseError {
    /// No line holds a label.
    NoInput,
    /// The rows differ in length, or their number differs from their length.
    NotSquare,
    /// A label appears twice.
    DuplicateValue,
    /// Some label of `0..n*n` is missing.
    InvalidValue,
    /// The board is wider than the library handles.
    TooLarge,
}

impl ParseError {
    /// A short description of the error.
    pub fn message(&self) -> (r: &'static str)
        ensures
            *self == ParseError::NoInput ==> r@ == "no input"@,
            *self == ParseError::NotSquare ==> r@ == "not a square"@,
            *self == ParseError::DuplicateValue ==> r@ == "duplicate value"@,
            *self == ParseError::InvalidValue ==> r@ == "invalid value"@,
            *self == ParseError::TooLarge ==> r@ == "too large"@,
    {
        match self {
            ParseError::NoInput => "no input",
            ParseError::NotSquare => "not a square",
            ParseError::DuplicateValue => "duplicate value",
            ParseError::InvalidValue => "invalid value",
            ParseError::TooLarge => "too large",
        }
    }
}

/// ASCII whitespace: space, tab, line feed, vertical tab, form feed, carriage return.
pub open spec fn is_space(c: u8) -> bool {
    c == 32 || c == 9 || c == 10 || c == 11 || c == 12 || c == 13
}

/// An ASCII decimal digit.
pub open spec fn is_digit(c: u8) -> bool {
    48 <= c <= 57
}

/// The lines of `s`: the runs of bytes between line feeds.
pub open spec fn lines(s: Seq<u8>) -> Seq<Seq<u8>>
    decreases s.len(),
{
    if s.len() == 0 {
        seq![Seq::empty()]
    } else {
        let ls = lines(s.drop_last());
        if s.last() == 10u8 {
            ls.push(Seq::empty())
        } else {
            ls.update(ls.len() - 1, ls.last().push(s.last()))
        }
    }
}

/// The words of `s`: its maximal runs of bytes that are not whitespace.
pub open spec fn words(s: Seq<u8>) -> Seq<Seq<u8>>
    decreases s.len(),
{
    if s.len() == 0 {
        Seq::empty()
    } else {
        let ws = words(s.drop_last());
        let c = s.last();
        if is_space(c) {
            ws
        } else if s.len() >= 2 && !is_space(s[s.len() - 2]) {
            ws.update(ws.len() - 1, ws.last().push(c))
        } else {
            ws.push(seq![c])
        }
    }
}

/// The words before the first one that starts with `#`.
pub open spec fn before_comment(ws: Seq<Seq<u8>>) -> Seq<Seq<u8>>
    decreases ws.len(),
{
    if ws.len() == 0 {
        ws
    } else if ws[0].len() > 0 && ws[0][0] == 35u8 {
        Seq::empty()
    } else {
        seq![ws[0]] + before_comment(ws.drop_first())
    }
}

/// The number written by the decimal digits `d`.
pub open spec fn digits_value(d: Seq<u8>) -> nat
    decreases d.len(),
{
    if d.len() == 0 {
        0
    } else {
        digits_value(d.drop_last()) * 10 + (d.last() - 48) as nat
    }
}

/// A word without its leading `+`, if it has one.
pub open spec fn unsigned_part(w: Seq<u8>) -> Seq<u8> {
    if w.len() > 0 && w[0] == 43u8 {
        w.drop_first()
    } else {
        w
    }
}

/// The label a word stands for: the unsigned decimal number it writes
/// (a leading `+` allowed), or 0 when it writes none that fits a `usize`.
pub open spec fn word_value(w: Seq<u8>) -> usize {
    let d = unsigned_part(w);
    if d.len() > 0 && (forall|i: int| 0 <= i < d.len() ==> is_digit(#[trigger] d[i]))
        && digits_value(d) <= usize::MAX {
        digits_value(d) as usize
    } else {
        0
    }
}

/// The labels of one line: the values of its words before any comment.
pub open spec fn line_row(line: Seq<u8>) -> Seq<usize> {
    let ws = before_comment(words(line));
    Seq::new(ws.len(), |i: int| word_value(ws[i]))
}

/// The rows of lines `ls` that hold at least one label, in order.
pub open spec fn rows_of(ls: Seq<Seq<u8>>) -> Seq<Seq<usize>>
    decreases ls.len(),
{
    if ls.len() == 0 {
        Seq::empty()
    } else {
        let r = rows_of(ls.drop_last());
        let v = line_row(ls.last());
        if v.len() > 0 {
            r.push(v)
        } else {
            r
        }
    }
}

/// The rows a board file holds.
pub open spec fn parsed_rows(s: Seq<u8>) -> Seq<Seq<usize>> {
    rows_of(lines(s))
}

/// The bytes of each line or word.
pub open spec fn bytes_view(v: Vec<Vec<u8>>) -> Seq<Seq<u8>> {
    v@.map_values(|r: Vec<u8>| r@)
}

proof fn lemma_lines_nonempty(s: Seq<u8>)
    ensures
        lines(s).len() >= 1,
    decreases s.len(),
{
    if s.len() > 0 {
        lemma_lines_nonempty(s.drop_last());
    }
}

/// Splits `s` at its line feeds.
fn split_lines(s: &[u8]) -> (r: Vec<Vec<u8>>)
    ensures
        bytes_view(r) == lines(s@),
{
    let mut done: Vec<Vec<u8>> = Vec::new();
    let mut cur: Vec<u8> = Vec::new();
    let mut i: usize = 0;
    while i < s.len()
        invariant
            i <= s@.len(),
            lines(s@.take(i as int)) == bytes_view(done).push(cur@),
        decreases s@.len() - i,
    {
        proof {
            assert(s@.take(i as int + 1).drop_last() =~= s@.take(i as int));
            lemma_lines_nonempty(s@.take(i as int));
        }
        let c = s[i];
        if c == 10u8 {
            let line = cur;
            let ghost prev = bytes_view(done);
            done.push(line);
            cur = Vec::new();
            proof {
                assert(bytes_view(done) =~= prev.push(line@));
                assert(lines(s@.take(i as int + 1)) =~= bytes_view(done).push(cur@));
            }
        } else {
            cur.push(c);
            proof {
                assert(lines(s@.take(i as int + 1)) =~= bytes_view(done).push(cur@));
            }
        }
        i += 1;
    }
    let ghost prev = bytes_view(done);
    done.push(cur);
    proof {
        assert(s@.take(s@.len() as int) =~= s@);
        assert(bytes_view(done) =~= prev.push(cur@));
    }
    done
}

/// Splits `line` into its words.
fn split_words(line: &Vec<u8>) -> (r: Vec<Vec<u8>>)
    ensures
        bytes_view(r) == words(line@),
{
    let mut done: Vec<Vec<u8>> = Vec::new();
    let mut cur: Vec<u8> = Vec::new();
    let mut in_word = false;
    let mut i: usize = 0;
    while i < line.len()
        invariant
            i <= line@.len(),
            in_word == (i > 0 && !is_space(line@[i - 1])),
            in_word ==> words(line@.take(i as int)) == bytes_view(done).push(cur@),
            !in_word ==> words(line@.take(i as int)) == bytes_view(done) && cur@.len() == 0,
        decreases line@.len() - i,
    {
        let ghost pre = line@.take(i as int);
        let ghost post = line@.take(i as int + 1);
        proof {
            assert(post.drop_last() =~= pre);
            assert(post.last() == line@[i as int]);
            if i > 0 {
                assert(post[post.len() - 2] == line@[i - 1]);
            }
        }
        let c = line[i];
        let space = c == 32u8 || c == 9u8 || c == 10u8 || c == 11u8 || c == 12u8 || c == 13u8;
        if space {
            if in_word {
                let w = cur;
                let ghost prev = bytes_view(done);
                done.push(w);
                cur = Vec::new();
                proof {
                    assert(bytes_view(done) =~= prev.push(w@));
                }
            }
            in_word = false;
        } else {
            cur.push(c);
            proof {
                if in_word {
                    assert(words(post) =~= bytes_view(done).push(cur@));
                } else {
                    assert(cur@ =~= seq![c]);
                    assert(words(post) =~= bytes_view(done).push(cur@));
                }
            }
            in_word = true;
        }
        i += 1;
    }
    proof {
        assert(line@.take(line@.len() as int) =~= line@);
    }
    if in_word {
        let ghost prev = bytes_view(done);
        done.push(cur);
        proof {
            assert(bytes_view(done) =~= prev.push(cur@));
        }
    }
    done
}

proof fn lemma_digits_value_prefix(d: Seq<u8>, k: int)
    requires
        0 <= k <= d.len(),
        forall|i: int| 0 <= i < d.len() ==> is_digit(#[trigger] d[i]),
    ensures
        digits_value(d.take(k)) <= digits_value(d),
    decreases d.len() - k,
{
    if k < d.len() {
        lemma_digits_value_prefix(d, k + 1);
        assert(d.take(k + 1).drop_last() =~= d.take(k));
        assert(is_digit(d[k]));
    } else {
        assert(d.take(k) =~= d);
    }
}

/// The label `w` stands for.
fn parse_word(w: &Vec<u8>) -> (r: usize)
    ensures
        r == word_value(w@),
{
    let start: usize = if w.len() > 0 && w[0] == 43u8 {
        1
    } else {
        0
    };
    let ghost d = unsigned_part(w@);
    proof {
        assert(d =~= w@.subrange(start as int, w@.len() as int));
    }
    if start >= w.len() {
        return 0;
    }
    let mut k: usize = start;
    while k < w.len()
        invariant
            start <= k <= w@.len(),
            d == w@.subrange(start as int, w@.len() as int),
            d == unsigned_part(w@),
            forall|i: int| start <= i < k ==> is_digit(#[trigger] w@[i]),
        decreases w@.len() - k,
    {
        let c = w[k];
        if !(48u8 <= c && c <= 57u8) {
            proof {
                assert(!is_digit(d[k - start]));
                assert(!(forall|i: int| 0 <= i < d.len() ==> is_digit(#[trigger] d[i])));
            }
            return 0;
        }
        k += 1;
    }
    proof {
        assert forall|i: int| 0 <= i < d.len() implies is_digit(#[trigger] d[i]) by {
            assert(d[i] == w@[i + start]);
        }
    }
    let mut value: usize = 0;
    let mut k: usize = start;
    while k < w.len()
        invariant
            start <= k <= w@.len(),
            d == w@.subrange(start as int, w@.len() as int),
            d == unsigned_part(w@),
            forall|i: int| 0 <= i < d.len() ==> is_digit(#[trigger] d[i]),
            value == digits_value(d.take(k - start)),
        decreases w@.len() - k,
    {
        proof {
            assert(d[k - start] == w@[k as int]);
            assert(d.take(k - start + 1).drop_last() =~= d.take(k - start));
            assert(is_digit(d[k - start]));
        }
        let digit = (w[k] - 48u8) as usize;
        if value > (usize::MAX - digit) / 10 {
            proof {
                assert(value * 10 + digit > usize::MAX) by (nonlinear_arith)
                    requires
                        value > (usize::MAX - digit) / 10,
                        digit <= 9,
                ;
                lemma_digits_value_prefix(d, k - start + 1);
                assert(d.take(k - start + 1).last() == d[k - start]);
                assert(digits_value(d.take(k - start + 1)) == value * 10 + digit);
            }
            return 0;
        }
        proof {
            assert(value * 10 + digit <= usize::MAX) by (nonlinear_arith)
                requires
                    value <= (usize::MAX - digit) / 10,
                    digit <= 9,
            ;
        }
        value = value * 10 + digit;
        k += 1;
    }
    proof {
        assert(d.take(d.len() as int) =~= d);
    }
    value
}

/// The first row from `k` on whose length differs from the first row's
/// (the number of rows when there is none).
pub open spec fn first_unlike(rows: Seq<Seq<usize>>, k: int) -> int
    decreases rows.len() - k,
{
    if k >= rows.len() {
        rows.len() as int
    } else if rows[k].len() != rows[0].len() {
        k
    } else {
        first_unlike(rows, k + 1)
    }
}

/// Some label appears twice in `s`.
pub open spec fn has_duplicate(s: Seq<usize>) -> bool {
    exists|p: int, q: int| 0 <= p < q < s.len() && s[p] == s[q]
}

/// `s` holds each label `0..n*n` and nothing else.
pub open spec fn holds_labels(s: Seq<usize>, n: int) -> bool {
    &&& forall|v: usize| (v as int) < n * n ==> #[trigger] s.contains(v)
    &&& forall|i: int| 0 <= i < s.len() ==> s[i] < n * n
}

/// The verdict on the rows of a board file, in the order the rows are read:
/// a label seen twice before the first row of another length, then rows of
/// unequal length or a number of rows other than their length, then a board
/// too wide, then labels missing.
pub open spec fn check_spec(rows: Seq<Seq<usize>>) -> Result<(), ParseError> {
    if rows.len() == 0 {
        Err(ParseError::NoInput)
    } else {
        let w = rows[0].len() as int;
        let r = first_unlike(rows, 0);
        let f = rows_flat(rows, r);
        if has_duplicate(f) {
            Err(ParseError::DuplicateValue)
        } else if r < rows.len() || rows.len() != w {
            Err(ParseError::NotSquare)
        } else if w > MAX_SIDE {
            Err(ParseError::TooLarge)
        } else if !holds_labels(f, w) {
            Err(ParseError::InvalidValue)
        } else {
            Ok(())
        }
    }
}

/// What `first_unlike` finds: rows of the first row's length up to it, and
/// one of another length at it, unless it is the end.
proof fn lemma_first_unlike(rows: Seq<Seq<usize>>, k: int)
    requires
        0 <= k <= rows.len(),
    ensures
        k <= first_unlike(rows, k) <= rows.len(),
        forall|r: int| k <= r < first_unlike(rows, k) ==> #[trigger] rows[r].len() == rows[0].len(),
        first_unlike(rows, k) < rows.len() ==> rows[first_unlike(rows, k)].len() != rows[0].len(),
    decreases rows.len() - k,
{
    if k < rows.len() && rows[k].len() == rows[0].len() {
        lemma_first_unlike(rows, k + 1);
    }
}

proof fn lemma_rows_flat_prefix_of(rows: Seq<Seq<usize>>, a: int, b: int)
    requires
        0 <= a <= b <= rows.len(),
    ensures
        rows_flat(rows, a).len() <= rows_flat(rows, b).len(),
        rows_flat(rows, b).take(rows_flat(rows, a).len() as int) == rows_flat(rows, a),
    decreases b - a,
{
    if a < b {
        lemma_rows_flat_prefix_of(rows, a, b - 1);
        assert(rows_flat(rows, b).take(rows_flat(rows, b - 1).len() as int) =~= rows_flat(rows, b - 1));
        assert(rows_flat(rows, b).take(rows_flat(rows, a).len() as int) =~= rows_flat(rows, b - 1).take(
            rows_flat(rows, a).len() as int,
        ));
    } else {
        assert(rows_flat(rows, b).take(rows_flat(rows, a).len() as int) =~= rows_flat(rows, a));
    }
}

/// In rows of equal width `w`, cell (a, c) is entry `a * w + c` of the rows read in order.
proof fn lemma_rows_flat_index(rows: Seq<Seq<usize>>, w: int, k: int)
    requires
        0 <= k <= rows.len(),
        w >= 0,
        forall|r: int| 0 <= r < rows.len() ==> #[trigger] rows[r].len() == w,
    ensures
        rows_flat(rows, k).len() == k * w,
        forall|a: int, c: int|
            0 <= a < k && 0 <= c < w ==> rows_flat(rows, k)[a * w + c] == #[trigger] rows[a][c],
    decreases k,
{
    if k > 0 {
        lemma_rows_flat_index(rows, w, k - 1);
        assert(rows[k - 1].len() == w);
        assert(rows_flat(rows, k) == rows_flat(rows, k - 1) + rows[k - 1]);
        assert((k - 1) * w + w == k * w) by (nonlinear_arith);
        assert(rows_flat(rows, k).len() == k * w);
        assert forall|a: int, c: int| 0 <= a < k && 0 <= c < w implies rows_flat(rows, k)[a * w + c]
            == #[trigger] rows[a][c] by {
            if a < k - 1 {
                assert(a * w + c < (k - 1) * w) by (nonlinear_arith)
                    requires
                        0 <= a < k - 1,
                        0 <= c < w,
                ;
                assert(a * w + c >= 0) by (nonlinear_arith)
                    requires
                        0 <= a,
                        0 <= c,
                        w >= 0,
                ;
            }
        }
    } else {
        assert(0 * w == 0);
    }
}

/// Rows that pass the checks form a board the library accepts.
proof fn lemma_checked_rows_valid(rows: Seq<Seq<usize>>)
    requires
        check_spec(rows) is Ok,
    ensures
        valid_board(rows),
{
    let n = rows.len() as int;
    let w = rows[0].len() as int;
    lemma_first_unlike(rows, 0);
    let f = rows_flat(rows, n);
    assert(n * n <= MAX_SIDE * MAX_SIDE) by (nonlinear_arith)
        requires
            0 <= n <= MAX_SIDE,
    ;
    lemma_rows_flat_index(rows, w, n);
    assert(is_square(rows, n));
    assert forall|i: int, j: int| in_grid(n, i, j) implies #[trigger] rows[i][j] < n * n by {
        assert(f[i * w + j] == rows[i][j]);
        assert(0 <= i * w + j < n * w) by (nonlinear_arith)
            requires
                0 <= i < n,
                0 <= j < w,
                w == n,
        ;
    }
    assert forall|i1: int, j1: int, i2: int, j2: int|
        in_grid(n, i1, j1) && in_grid(n, i2, j2) && #[trigger] rows[i1][j1] == #[trigger] rows[i2][j2]
        implies i1 == i2 && j1 == j2 by {
        let p = i1 * w + j1;
        let q = i2 * w + j2;
        assert(f[p] == rows[i1][j1]);
        assert(f[q] == rows[i2][j2]);
        assert(0 <= p < n * w && 0 <= q < n * w) by (nonlinear_arith)
            requires
                0 <= i1 < n,
                0 <= j1 < w,
                0 <= i2 < n,
                0 <= j2 < w,
                w == n,
                p == i1 * w + j1,
                q == i2 * w + j2,
        ;
        if p < q {
            assert(has_duplicate(f));
        } else if q < p {
            assert(has_duplicate(f));
        } else {
            assert(i1 == i2 && j1 == j2) by (nonlinear_arith)
                requires
                    p == q,
                    0 <= j1 < w,
                    0 <= j2 < w,
                    p == i1 * w + j1,
                    q == i2 * w + j2,
            ;
        }
    }
    assert forall|v: int| 0 <= v < n * n implies #[trigger] has_label(rows, v) by {
        assert(f.contains(v as usize));
        let p = choose|p: int| 0 <= p < f.len() && f[p] == v as usize;
        let i = p / w;
        let j = p % w;
        assert(0 <= i < n && 0 <= j < w && p == i * w + j) by (nonlinear_arith)
            requires
                0 <= p < n * w,
                w == n,
                w > 0,
                i == p / w,
                j == p % w,
        ;
        assert(f[i * w + j] == rows[i][j]);
        assert(in_grid(rows.len() as int, i, j) && rows[i][j] == v);
    }
}

/// Checks the rows of a board file in reading order.
fn check_rows(rows: &Vec<Vec<usize>>) -> (r: Result<(), ParseError>)
    ensures
        r == check_spec(board_view(*rows)),
{
    let ghost rv = board_view(*rows);
    if rows.len() == 0 {
        return Err(ParseError::NoInput);
    }
    let len = rows[0].len();
    let mut seen: HashSet<usize> = HashSet::new();
    let mut max: usize = 0;
    let mut i: usize = 0;
    while i < rows.len()
        invariant
            rv == board_view(*rows),
            rv.len() > 0,
            len == rv[0].len(),
            i <= rv.len(),
            forall|r: int| 0 <= r < i ==> #[trigger] rv[r].len() == len,
            !has_duplicate(rows_flat(rv, i as int)),
            forall|x: usize| seen@.contains(x) <==> rows_flat(rv, i as int).contains(x),
            forall|p: int| 0 <= p < rows_flat(rv, i as int).len() ==> #[trigger] rows_flat(rv, i as int)[p] <= max,
            max == 0 || rows_flat(rv, i as int).contains(max),
        decreases rv.len() - i,
    {
        if rows[i].len() != len {
            proof {
                lemma_first_unlike(rv, 0);
                let fu = first_unlike(rv, 0);
                if fu < i {
                    assert(rv[fu].len() == len);
                }
                if fu > i {
                    assert(rv[i as int].len() == len);
                }
                assert(fu == i);
            }
            return Err(ParseError::NotSquare);
        }
        let ghost start = rows_flat(rv, i as int);
        let mut j: usize = 0;
        while j < rows[i].len()
            invariant
                rv == board_view(*rows),
                rv.len() > 0,
                len == rv[0].len(),
                i < rv.len(),
                rv[i as int].len() == len,
                forall|r: int| 0 <= r < i ==> #[trigger] rv[r].len() == len,
                start == rows_flat(rv, i as int),
                j <= len,
                !has_duplicate(start + rv[i as int].take(j as int)),
                forall|x: usize| seen@.contains(x) <==> (start + rv[i as int].take(j as int)).contains(x),
                forall|p: int|
                    0 <= p < (start + rv[i as int].take(j as int)).len() ==> #[trigger] (start
                        + rv[i as int].take(j as int))[p] <= max,
                max == 0 || (start + rv[i as int].take(j as int)).contains(max),
            decreases len - j,
        {
            let ghost cur = start + rv[i as int].take(j as int);
            let ghost next = start + rv[i as int].take(j as int + 1);
            let e = rows[i][j];
            proof {
                assert(next =~= cur.push(e));
            }
            if seen.contains(&e) {
                proof {
                    lemma_first_unlike(rv, 0);
                    let fu = first_unlike(rv, 0);
                    assert(fu > i);
                    lemma_rows_flat_prefix_of(rv, i as int + 1, fu);
                    assert(rows_flat(rv, i as int + 1) == start + rv[i as int]);
                    let whole = rows_flat(rv, fu);
                    assert(whole.take(rows_flat(rv, i as int + 1).len() as int) == start + rv[i as int]);
                    let p = choose|p: int| 0 <= p < cur.len() && cur[p] == e;
                    let q = cur.len() as int;
                    assert(whole[p] == (start + rv[i as int])[p]);
                    assert(whole[q] == (start + rv[i as int])[q]);
                    assert((start + rv[i as int])[q] == e);
                    assert(has_duplicate(whole));
                }
                return Err(ParseError::DuplicateValue);
            }
            seen.insert(e);
            if e > max {
                max = e;
            }
            proof {
                assert(!has_duplicate(next)) by {
                    if has_duplicate(next) {
                        let (p, q) = choose|p: int, q: int| 0 <= p < q < next.len() && next[p] == next[q];
                        if q < cur.len() {
                            assert(cur[p] == cur[q]);
                        } else {
                            assert(cur[p] == e);
                        }
                    }
                }
                assert forall|x: usize| seen@.contains(x) <==> next.contains(x) by {
                    if next.contains(x) && x != e {
                        let p = choose|p: int| 0 <= p < next.len() && next[p] == x;
                        assert(cur[p] == x);
                    }
                    if cur.contains(x) {
                        let p = choose|p: int| 0 <= p < cur.len() && cur[p] == x;
                        assert(next[p] == x);
                    }
                    if x == e {
                        assert(next[cur.len() as int] == e);
                    }
                }
                assert forall|p: int| 0 <= p < next.len() implies #[trigger] next[p] <= max by {
                    if p < cur.len() {
                        assert(next[p] == cur[p]);
                    }
                }
                if max == e {
                    assert(next[cur.len() as int] == e);
                } else if max != 0 {
                    let p = choose|p: int| 0 <= p < cur.len() && cur[p] == max;
                    assert(next[p] == max);
                }
            }
            j += 1;
        }
        proof {
            assert(rv[i as int].take(len as int) =~= rv[i as int]);
            assert(rows_flat(rv, i as int + 1) == start + rv[i as int]);
        }
        i += 1;
    }
    proof {
        lemma_first_unlike(rv, 0);
        assert(first_unlike(rv, 0) == rv.len());
    }
    if rows.len() != len {
        return Err(ParseError::NotSquare);
    }
    if len > MAX_SIDE {
        return Err(ParseError::TooLarge);
    }
    proof {
        assert(len * len <= MAX_SIDE * MAX_SIDE) by (nonlinear_arith)
            requires
                len <= MAX_SIDE,
        ;
    }
    let n = len * len;
    let ghost f = rows_flat(rv, rv.len() as int);
    let mut v: usize = 0;
    while v < n
        invariant
            n == len * len,
            v <= n,
            f == rows_flat(rv, rv.len() as int),
            forall|x: usize| seen@.contains(x) <==> f.contains(x),
            forall|x: usize| (x as int) < v ==> #[trigger] f.contains(x),
            max == 0 || f.contains(max),
            rv == board_view(*rows),
            rv.len() == len,
            len == rv[0].len(),
            1 <= len <= MAX_SIDE,
            first_unlike(rv, 0) == rv.len(),
            !has_duplicate(f),
        decreases n - v,
    {
        if !seen.contains(&v) {
            proof {
                assert(!f.contains(v));
                assert(!holds_labels(f, len as int));
            }
            return Err(ParseError::InvalidValue);
        }
        v += 1;
    }
    if max >= n {
        proof {
            assert(n >= 1) by (nonlinear_arith)
                requires
                    n == len * len,
                    len >= 1,
            ;
            let p = choose|p: int| 0 <= p < f.len() && f[p] == max;
            assert(!holds_labels(f, len as int));
        }
        return Err(ParseError::InvalidValue);
    }
    Ok(())
}

/// Reads a board from the text of a board file: each line that holds a label
/// is a row; words are separated by ASCII whitespace; a word starting with
/// `#` ends its line; a word that is not an unsigned decimal number reads as
/// 0. The rows must form a square holding each label `0..n*n` exactly once.
pub fn parse_input(contents: String) -> (r: Result<Vec<Vec<usize>>, ParseError>)
    ensures
        check_spec(parsed_rows(encode_utf8(contents@))) matches Err(e) ==> r == Err::<
            Vec<Vec<usize>>,
            ParseError,
        >(e),
        check_spec(parsed_rows(encode_utf8(contents@))) is Ok ==> (r matches Ok(b)
            && board_view(b) == parsed_rows(encode_utf8(contents@)) && valid_board(
            board_view(b),
        )),
{
    let bytes = contents.as_str().as_bytes();
    let out = rows_of_bytes(bytes);
    match check_rows(&out) {
        Ok(()) => {
            proof {
                lemma_checked_rows_valid(board_view(out));
            }
            Ok(out)
        },
        Err(e) => Err(e),
    }
}

/// The labels of `line`: the values of its words before any comment.
fn row_of_line(line: &Vec<u8>) -> (r: Vec<usize>)
    ensures
        r@ == line_row(line@),
{
    let ws = split_words(line);
    let ghost w = bytes_view(ws);
    let mut row: Vec<usize> = Vec::new();
    let mut i: usize = 0;
    proof {
        assert(w.subrange(0, w.len() as int) =~= w);
        assert(w.take(0) + before_comment(w) =~= before_comment(w));
    }
    while i < ws.len()
        invariant
            w == bytes_view(ws),
            w == words(line@),
            i <= w.len(),
            before_comment(w) == w.take(i as int) + before_comment(w.subrange(i as int, w.len() as int)),
            row@ == Seq::new(i as nat, |k: int| word_value(w[k])),
        decreases w.len() - i,
    {
        let ghost tail = w.subrange(i as int, w.len() as int);
        proof {
            assert(tail[0] == w[i as int]);
            assert(tail.drop_first() =~= w.subrange(i as int + 1, w.len() as int));
        }
        if ws[i].len() > 0 && ws[i][0] == 35u8 {
            proof {
                assert(before_comment(w) =~= w.take(i as int));
                assert(row@ =~= line_row(line@));
            }
            return row;
        }
        let v = parse_word(&ws[i]);
        row.push(v);
        proof {
            assert(w.take(i as int + 1) =~= w.take(i as int) + seq![w[i as int]]);
            assert(before_comment(w) =~= w.take(i as int + 1) + before_comment(
                w.subrange(i as int + 1, w.len() as int),
            ));
            assert(row@ =~= Seq::new(i as nat + 1, |k: int| word_value(w[k])));
        }
        i += 1;
    }
    proof {
        assert(w.subrange(w.len() as int, w.len() as int) =~= Seq::<Seq<u8>>::empty());
        assert(before_comment(w) =~= w.take(w.len() as int));
        assert(row@ =~= line_row(line@));
    }
    row
}

/// The rows of the board file `s`.
fn rows_of_bytes(s: &[u8]) -> (r: Vec<Vec<usize>>)
    ensures
        board_view(r) == parsed_rows(s@),
{
    let ls = split_lines(s);
    let ghost l = bytes_view(ls);
    let mut rows: Vec<Vec<usize>> = Vec::new();
    let mut i: usize = 0;
    while i < ls.len()
        invariant
            l == bytes_view(ls),
            l == lines(s@),
            i <= l.len(),
            board_view(rows) == rows_of(l.take(i as int)),
        decreases l.len() - i,
    {
        proof {
            assert(l.take(i as int + 1).drop_last() =~= l.take(i as int));
            assert(l.take(i as int + 1).last() == l[i as int]);
        }
        let row = row_of_line(&ls[i]);
        if row.len() > 0 {
            let ghost prev = board_view(rows);
            rows.push(row);
            proof {
                assert(board_view(rows) =~= prev.push(row@));
            }
        }
        i += 1;
    }
    proof {
        assert(l.take(l.len() as int) =~= l);
    }
    rows
}

} // verus!
