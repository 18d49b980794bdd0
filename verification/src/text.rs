//! The text form of a board: a row of numbers read from a line, and the
//! grid drawn for a reader.
//!
//! A line holds nine numbers from 0 to 9 separated by whitespace, 0 for an
//! empty cell. Text is handled as bytes in UTF-8; whitespace is every
//! character that Unicode calls white space.

use vstd::prelude::*;
use crate::grid::{Cell, Table};

verus! {

/// ASCII whitespace: space, tab, line feed, vertical tab, form feed and
/// carriage return.
pub open spec fn is_space(b: u8) -> bool {
    b == 32 || 9 <= b <= 13
}

/// The two bytes that write U+0085 (next line) or U+00A0 (no-break
/// space).
pub open spec fn is_space_pair(a: u8, b: u8) -> bool {
    a == 0xC2 && (b == 0x85 || b == 0xA0)
}

/// The three bytes that write one of the other white-space characters:
/// U+1680, U+2000 to U+200A, U+2028, U+2029, U+202F, U+205F or U+3000.
pub open spec fn is_space_triple(a: u8, b: u8, c: u8) -> bool {
    ||| a == 0xE1 && b == 0x9A && c == 0x80
    ||| a == 0xE2 && b == 0x80 && (0x80 <= c <= 0x8A || c == 0xA8 || c == 0xA9 || c == 0xAF)
    ||| a == 0xE2 && b == 0x81 && c == 0x9F
    ||| a == 0xE3 && b == 0x80 && c == 0x80
}

/// How many bytes the white-space character that starts at place `i`
/// takes, and 0 where none starts.
pub open spec fn space_len(line: Seq<u8>, i: int) -> int {
    if i < 0 || i >= line.len() {
        0
    } else if is_space(line[i]) {
        1
    } else if i + 1 < line.len() && is_space_pair(line[i], line[i + 1]) {
        2
    } else if i + 2 < line.len() && is_space_triple(line[i], line[i + 1], line[i + 2]) {
        3
    } else {
        0
    }
}

/// An ASCII decimal digit.
pub open spec fn is_digit(b: u8) -> bool {
    48 <= b <= 57
}

/// Where the token that holds the byte at place `i` ends: the first place
/// after `i` at which the line ends or white space starts.
pub open spec fn token_end(line: Seq<u8>, i: int) -> int
    decreases line.len() - i,
{
    if i + 1 >= line.len() || space_len(line, i + 1) > 0 {
        i + 1
    } else {
        token_end(line, i + 1)
    }
}

/// The tokens of the line from place `i` on: the maximal runs of bytes
/// between white space, in the order in which the line holds them.
pub open spec fn tokens_from(line: Seq<u8>, i: int) -> Seq<Seq<u8>>
    decreases line.len() - i,
{
    if i < 0 || i >= line.len() {
        Seq::empty()
    } else if space_len(line, i) > 0 {
        tokens_from(line, i + space_len(line, i))
    } else {
        proof {
            lemma_token_end_bounds(line, i);
        }
        seq![line.subrange(i, token_end(line, i))] + tokens_from(line, token_end(line, i))
    }
}

/// The tokens of the line.
pub open spec fn tokens(line: Seq<u8>) -> Seq<Seq<u8>> {
    tokens_from(line, 0)
}

/// A token ends after the place it is asked from, and within the line.
pub proof fn lemma_token_end_bounds(line: Seq<u8>, i: int)
    requires
        0 <= i < line.len(),
    ensures
        i < token_end(line, i) <= line.len(),
    decreases line.len() - i,
{
    if !(i + 1 >= line.len() || space_len(line, i + 1) > 0) {
        lemma_token_end_bounds(line, i + 1);
    }
}

/// One or more decimal digits.
pub open spec fn is_numeral(s: Seq<u8>) -> bool {
    s.len() > 0 && forall|k: int| 0 <= k < s.len() ==> is_digit(#[trigger] s[k])
}

/// The number that a string of decimal digits writes.
pub open spec fn numeral_value(s: Seq<u8>) -> int
    decreases s.len(),
{
    if s.len() == 0 {
        0
    } else {
        10 * numeral_value(s.drop_last()) + (s.last() - 48)
    }
}

/// The token without the plus sign that may lead it.
pub open spec fn unsigned_part(tok: Seq<u8>) -> Seq<u8> {
    if tok.len() > 0 && tok[0] == 43 {
        tok.drop_first()
    } else {
        tok
    }
}

/// The number from 0 to 9 that a token writes, if it writes one: decimal
/// digits, a plus sign before them allowed, leading zeros too.
pub open spec fn token_digit(tok: Seq<u8>) -> Option<u8> {
    let body = unsigned_part(tok);
    if is_numeral(body) && numeral_value(body) <= 9 {
        Some(numeral_value(body) as u8)
    } else {
        None
    }
}

/// The nine numbers of a line, if the line holds exactly nine tokens and
/// each writes a number from 0 to 9.
pub open spec fn row_of(line: Seq<u8>) -> Option<Seq<u8>> {
    let toks = tokens(line);
    if toks.len() == 9 && forall|k: int| 0 <= k < 9 ==> token_digit(#[trigger] toks[k]) is Some {
        Some(Seq::new(9, |k: int| token_digit(toks[k])->0))
    } else {
        None
    }
}

/// The byte at place `k` of the drawing of a board. Each row takes 72
/// bytes: its nine numbers, each between two spaces and followed by a bar,
/// the last by a line feed; then a line of 35 dashes.
pub open spec fn drawn_byte(g: Seq<Seq<Cell>>, k: int) -> u8 {
    let r = k / 72;
    let j = k % 72;
    let c = j / 4;
    if j >= 36 {
        if j == 71 {
            10
        } else {
            45
        }
    } else if j % 4 == 1 {
        (48 + g[r][c].value()) as u8
    } else if j % 4 != 3 {
        32
    } else if c == 8 {
        10
    } else {
        124
    }
}

/// The drawing of a board, 648 bytes of ASCII.
pub open spec fn drawn(g: Seq<Seq<Cell>>) -> Seq<u8> {
    Seq::new(648, |k: int| drawn_byte(g, k))
}

proof fn lemma_numeral_value_bounds(s: Seq<u8>)
    requires
        forall|k: int| 0 <= k < s.len() ==> is_digit(#[trigger] s[k]),
    ensures
        numeral_value(s) >= 0,
    decreases s.len(),
{
    if s.len() > 0 {
        lemma_numeral_value_bounds(s.drop_last());
    }
}

/// A numeral writes at least ten times what any shorter start of it
/// writes.
proof fn lemma_numeral_grows(s: Seq<u8>, m: int)
    requires
        forall|k: int| 0 <= k < s.len() ==> is_digit(#[trigger] s[k]),
        0 <= m < s.len(),
    ensures
        numeral_value(s) >= 10 * numeral_value(s.take(m)),
    decreases s.len(),
{
    let front = s.drop_last();
    lemma_numeral_value_bounds(front);
    if m == s.len() - 1 {
        assert(s.take(m) =~= front);
    } else {
        lemma_numeral_grows(front, m);
        assert(front.take(m) =~= s.take(m));
        lemma_numeral_value_bounds(s.take(m));
    }
}

/// How many bytes the white-space character that starts at `line[i]`
/// takes, and 0 where none starts.
fn space_len_at(line: &[u8], i: usize) -> (k: usize)
    requires
        i < line@.len(),
    ensures
        k == space_len(line@, i as int),
        i + k <= line@.len(),
{
    let n = line.len();
    let b = line[i];
    if b == 32 || (9 <= b && b <= 13) {
        1
    } else if n - i > 1 && b == 0xC2 && (line[i + 1] == 0x85 || line[i + 1] == 0xA0) {
        2
    } else if n - i > 2 {
        let c = line[i + 1];
        let d = line[i + 2];
        if (b == 0xE1 && c == 0x9A && d == 0x80) || (b == 0xE2 && c == 0x80 && ((0x80 <= d && d
            <= 0x8A) || d == 0xA8 || d == 0xA9 || d == 0xAF)) || (b == 0xE2 && c == 0x81 && d
            == 0x9F) || (b == 0xE3 && c == 0x80 && d == 0x80) {
            3
        } else {
            0
        }
    } else {
        0
    }
}

/// The number that the token `line[a..b]` writes, if it writes one from 0
/// to 9.
fn parse_token(line: &[u8], a: usize, b: usize) -> (res: Option<u8>)
    requires
        a < b <= line@.len(),
    ensures
        res == token_digit(line@.subrange(a as int, b as int)),
        res matches Some(v) ==> v <= 9,
{
    let ghost tok = line@.subrange(a as int, b as int);
    let mut j = a;
    if line[j] == 43 {
        j += 1;
    }
    let ghost start = j as int;
    let ghost body = line@.subrange(start, b as int);
    proof {
        assert(tok[0] == line@[a as int]);
        if start > a {
            assert(tok.drop_first() =~= body);
        } else {
            assert(tok =~= body);
        }
        assert(unsigned_part(tok) == body);
    }
    if j == b {
        return None;
    }
    let mut value: u8 = 0;
    while j < b
        invariant
            0 <= start <= j <= b <= line@.len(),
            start < b,
            body == line@.subrange(start, b as int),
            unsigned_part(line@.subrange(a as int, b as int)) == body,
            forall|k: int| 0 <= k < j - start ==> is_digit(#[trigger] body[k]),
            value == numeral_value(body.take(j - start)),
            value <= 9,
        decreases b - j,
    {
        let byte = line[j];
        proof {
            assert(body[j - start] == byte);
        }
        if byte < 48 || byte > 57 {
            return None;
        }
        if value != 0 {
            proof {
                if is_numeral(body) {
                    lemma_numeral_grows(body, j - start);
                }
            }
            return None;
        }
        proof {
            assert(body.take(j - start + 1).drop_last() =~= body.take(j - start));
            assert(body.take(j - start + 1).last() == byte);
        }
        value = byte - 48;
        j += 1;
    }
    proof {
        assert(body.take(b - start) =~= body);
    }
    Some(value)
}

/// Reads a line as a row of the board: nine numbers from 0 to 9 between
/// white space, 0 for an empty cell.
///
/// A line with fewer or more than nine tokens, or with a token that does
/// not write a number from 0 to 9, is refused with
/// `Err("Please follow input format.")`.
pub fn parse_row(line: &[u8]) -> (res: Result<[u8; 9], &'static str>)
    ensures
        match res {
            Ok(row) => row_of(line@) == Some(row@) && forall|k: int|
                0 <= k < 9 ==> #[trigger] row[k] <= 9,
            Err(e) => row_of(line@) is None && e@ == "Please follow input format."@,
        },
{
    let n = line.len();
    let mut row: [u8; 9] = [0u8; 9];
    let mut count: usize = 0;
    let mut ok = true;
    let mut i: usize = 0;
    let ghost mut done: Seq<Seq<u8>> = Seq::empty();
    proof {
        assert(done + tokens_from(line@, 0) =~= tokens(line@));
    }
    while i < n
        invariant
            i <= n == line@.len(),
            count <= i,
            count == done.len(),
            tokens(line@) == done + tokens_from(line@, i as int),
            ok <==> forall|k: int| 0 <= k < count ==> token_digit(#[trigger] done[k]) is Some,
            ok ==> forall|k: int|
                0 <= k < count && k < 9 ==> token_digit(done[k]) == Some(#[trigger] row[k]),
            forall|k: int| 0 <= k < 9 ==> #[trigger] row[k] <= 9,
        decreases n - i,
    {
        let width = space_len_at(line, i);
        if width > 0 {
            i += width;
        } else {
            let start = i;
            i += 1;
            while i < n && space_len_at(line, i) == 0
                invariant
                    start < i <= n == line@.len(),
                    token_end(line@, start as int) == token_end(line@, i - 1),
                decreases n - i,
            {
                i += 1;
            }
            let ghost tok = line@.subrange(start as int, i as int);
            proof {
                assert(token_end(line@, start as int) == i);
                assert(done + tokens_from(line@, start as int) =~= done.push(tok) + tokens_from(
                    line@,
                    i as int,
                ));
            }
            let digit = parse_token(line, start, i);
            match digit {
                Some(v) => {
                    if count < 9 {
                        row[count] = v;
                    }
                },
                None => {
                    ok = false;
                },
            }
            proof {
                let after = done.push(tok);
                assert forall|k: int| 0 <= k < count implies after[k] == done[k] by {}
                assert(after[count as int] == tok);
                done = after;
            }
            count += 1;
        }
    }
    proof {
        assert(done + tokens_from(line@, n as int) =~= done);
    }
    if ok && count == 9 {
        proof {
            let toks = tokens(line@);
            let parsed = Seq::new(9, |k: int| token_digit(toks[k])->0);
            assert forall|k: int| 0 <= k < 9 implies row@[k] == parsed[k] by {
                assert(token_digit(toks[k]) == Some(row[k]));
            }
            assert(row@ =~= parsed);
        }
        Ok(row)
    } else {
        Err("Please follow input format.")
    }
}

impl Table {
    /// Draws the board as text: each row on a line of its own, the numbers
    /// between bars, 0 for an empty cell, and a line of dashes under each
    /// row.
    pub fn render(&self) -> (text: Vec<u8>)
        requires
            self.wf(),
        ensures
            text@ == drawn(self@),
    {
        let mut out: Vec<u8> = Vec::new();
        for r in 0..9usize
            invariant
                self.wf(),
                out@.len() == 72 * r,
                forall|k: int| 0 <= k < out@.len() ==> #[trigger] out@[k] == drawn_byte(self@, k),
        {
            for c in 0..9usize
                invariant
                    self.wf(),
                    r < 9,
                    out@.len() == 72 * r + 4 * c,
                    forall|k: int|
                        0 <= k < out@.len() ==> #[trigger] out@[k] == drawn_byte(self@, k),
            {
                let v = self.get(r, c).number();
                proof {
                    let base = 72 * r + 4 * c;
                    assert(base / 72 == r && base % 72 == 4 * c);
                    assert((base + 1) / 72 == r && (base + 1) % 72 == 4 * c + 1);
                    assert((base + 2) / 72 == r && (base + 2) % 72 == 4 * c + 2);
                    assert((base + 3) / 72 == r && (base + 3) % 72 == 4 * c + 3);
                    assert(self@[r as int][c as int].wf());
                }
                out.push(32);
                out.push(48 + v);
                out.push(32);
                if c != 8 {
                    out.push(124);
                } else {
                    out.push(10);
                }
            }
            for k in 0..35usize
                invariant
                    r < 9,
                    out@.len() == 72 * r + 36 + k,
                    forall|k: int|
                        0 <= k < out@.len() ==> #[trigger] out@[k] == drawn_byte(self@, k),
            {
                proof {
                    let at = 72 * r + 36 + k;
                    assert(at / 72 == r && at % 72 == 36 + k);
                }
                out.push(45);
            }
            proof {
                let at = 72 * r + 71;
                assert(at / 72 == r && at % 72 == 71);
            }
            out.push(10);
        }
        out
    }
}

} // verus!
