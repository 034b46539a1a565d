//! Errors of table construction, parsing and lexing, with the source
//! position they were found at.
use vstd::prelude::*;
use crate::token::Token;
use crate::table::LRAction;
use vstd::utf8::encode_utf8;

verus! {

/// An error of LR table construction or of LR parsing.
#[derive(Debug)]
pub enum LRError {
    /// Two actions were claimed for one cell of the table.
    Conflilct {
        action_a: LRAction,
        action_b: LRAction,
    },
    /// A token was read where no action is defined.
    UnexpectedToken {
        actual: String,
    },
    /// The input ended where no action is defined.
    UnexpectedEOF,
}

/// An error of the table-driven parser.
#[derive(Debug)]
pub enum ParseError {
    /// A token of kind `actual` was read where no action is defined.
    UnexpectedToken {
        actual: usize,
    },
    /// The input ended where no action is defined.
    UnexpectedEOF,
}

/// The cause of a `DiagnosticError`.
#[derive(Debug)]
pub enum ErrorBody {
    LR(LRError),
    Parse(ParseError),
    /// A regular expression that did not compile, with the error of the
    /// regular-expression engine.
    Regex(regex::Error),
}

/// The source text and the byte range that an error points at.
#[derive(Debug)]
pub struct Diagnostics {
    pub src: String,
    pub range: (usize, usize),
}

/// An error with, where known, the source position it was found at.
#[derive(Debug)]
pub struct DiagnosticError {
    pub err: ErrorBody,
    pub diagnostics: Option<Diagnostics>,
}

/// `d` reports a conflict between two actions of a table, at no source
/// position.
pub open spec fn is_conflict(d: DiagnosticError) -> bool {
    &&& d.err matches ErrorBody::LR(LRError::Conflilct { .. })
    &&& d.diagnostics is None
}

impl Diagnostics {
    /// The diagnostics of a token: its source and the range of its body.
    pub fn from(token: Token) -> (res: Diagnostics)
        ensures
            res.src@ == token.src@,
            res.range == token.body,
    {
        Diagnostics { src: token.src.to_owned(), range: token.body }
    }
}

impl DiagnosticError {
    /// An error without a position.
    pub fn from(err: ErrorBody) -> (res: DiagnosticError)
        ensures
            res.err == err,
            res.diagnostics is None,
    {
        DiagnosticError { err, diagnostics: None }
    }

    /// The same error, pointing at `token`.
    pub fn with(self, token: Token) -> (res: DiagnosticError)
        ensures
            res.err == self.err,
            res.diagnostics matches Some(d) && d.src@ == token.src@ && d.range == token.body,
    {
        DiagnosticError { err: self.err, diagnostics: Some(Diagnostics::from(token)) }
    }
}

impl LRError {
    /// The conflict between two actions claimed for one cell.
    pub fn new_conflict(action_a: LRAction, action_b: LRAction) -> (res: DiagnosticError)
        ensures
            res.err == ErrorBody::LR(LRError::Conflilct { action_a, action_b }),
            res.diagnostics is None,
    {
        DiagnosticError::from(ErrorBody::LR(LRError::Conflilct { action_a, action_b }))
    }

    /// An unexpected token, pointing at the token. The message names no
    /// token kind: it holds the text `"TODO"`, quotes included.
    pub fn new_unexpected_token(token: Token) -> (res: DiagnosticError)
        ensures
            res.err matches ErrorBody::LR(LRError::UnexpectedToken { actual }) && actual@ == "\"TODO\""@,
            res.diagnostics matches Some(d) && d.src@ == token.src@ && d.range == token.body,
    {
        let actual = String::from_str("\"TODO\"");
        DiagnosticError::from(ErrorBody::LR(LRError::UnexpectedToken { actual })).with(token)
    }

    /// An unexpected end of input.
    pub fn new_unexpected_eof() -> (res: DiagnosticError)
        ensures
            res.err matches ErrorBody::LR(LRError::UnexpectedEOF),
            res.diagnostics is None,
    {
        DiagnosticError::from(ErrorBody::LR(LRError::UnexpectedEOF))
    }
}

impl ParseError {
    /// An unexpected token, pointing at the token.
    pub fn new_unexpected_token(token: Token) -> (res: DiagnosticError)
        ensures
            res.err matches ErrorBody::Parse(ParseError::UnexpectedToken { actual }) && actual == token.kind,
            res.diagnostics matches Some(d) && d.src@ == token.src@ && d.range == token.body,
    {
        DiagnosticError::from(ErrorBody::Parse(ParseError::UnexpectedToken { actual: token.kind })).with(token)
    }
}

/// Turning the error of a `Result` into a `DiagnosticError`.
pub trait ResultExt<T>: Sized {
    fn into_diagnostics(self) -> Result<T, DiagnosticError>;
}

impl<T> ResultExt<T> for Result<T, LRError> {
    fn into_diagnostics(self) -> (res: Result<T, DiagnosticError>)
        ensures
            match self {
                Ok(v) => res == Ok::<T, DiagnosticError>(v),
                Err(e) => res matches Err(d) && d.err == ErrorBody::LR(e) && d.diagnostics is None,
            },
    {
        match self {
            Ok(v) => Ok(v),
            Err(e) => Err(DiagnosticError::from(ErrorBody::LR(e))),
        }
    }
}

impl<T> ResultExt<T> for Result<T, ParseError> {
    fn into_diagnostics(self) -> (res: Result<T, DiagnosticError>)
        ensures
            match self {
                Ok(v) => res == Ok::<T, DiagnosticError>(v),
                Err(e) => res matches Err(d) && d.err == ErrorBody::Parse(e) && d.diagnostics is None,
            },
    {
        match self {
            Ok(v) => Ok(v),
            Err(e) => Err(DiagnosticError::from(ErrorBody::Parse(e))),
        }
    }
}

/// The width of the UTF-8 encoded character whose first byte is `b`.
pub open spec fn utf8_width(b: u8) -> int {
    if b < 0x80 {
        1
    } else if b < 0xE0 {
        2
    } else if b < 0xF0 {
        3
    } else {
        4
    }
}

/// The 1-based row and column reached by walking the characters of the
/// text with bytes `bytes` from byte `b` (at row `rows`, column `cols`),
/// for as long as they start before byte `target`: a newline moves to the
/// start of the next row, any other character one column on.
pub open spec fn row_col_from(bytes: Seq<u8>, target: int, b: int, rows: int, cols: int) -> (int, int)
    decreases bytes.len() + 4 - b,
{
    if b < 0 || b >= bytes.len() || target <= b {
        (rows, cols)
    } else if bytes[b] == 10u8 {
        row_col_from(bytes, target, b + utf8_width(bytes[b]), rows + 1, 1)
    } else {
        row_col_from(bytes, target, b + utf8_width(bytes[b]), rows, cols + 1)
    }
}

/// The position of the first newline of `s` from `i` on, or `s.len()`.
pub open spec fn next_nl(s: Seq<char>, i: int) -> int
    decreases s.len() - i,
{
    if i >= s.len() || s[i] == '\n' {
        i
    } else {
        next_nl(s, i + 1)
    }
}

pub proof fn lemma_next_nl(s: Seq<char>, i: int)
    requires
        0 <= i <= s.len(),
    ensures
        i <= next_nl(s, i) <= s.len(),
        next_nl(s, i) < s.len() ==> s[next_nl(s, i)] == '\n',
        forall|j: int| i <= j < next_nl(s, i) ==> #[trigger] s[j] != '\n',
    decreases s.len() - i,
{
    if i < s.len() && s[i] != '\n' {
        lemma_next_nl(s, i + 1);
    }
}

/// The pieces of `s[i..]` between its newlines (an empty piece after a
/// final newline).
pub open spec fn split_lines_from(s: Seq<char>, i: int) -> Seq<Seq<char>>
    decreases s.len() - i,
{
    if i < 0 || i > s.len() {
        seq![]
    } else {
        let k = next_nl(s, i);
        proof {
            lemma_next_nl(s, i);
        }
        if k >= s.len() {
            seq![s.subrange(i, s.len() as int)]
        } else {
            seq![s.subrange(i, k)] + split_lines_from(s, k + 1)
        }
    }
}

impl Diagnostics {
    /// The 1-based row and column of the start of the range in the source.
    pub open spec fn spec_position(&self) -> (int, int) {
        row_col_from(encode_utf8(self.src@), self.range.0 as int, 0, 1, 1)
    }

    /// The row and column (both from 1) at which the range starts: rows
    /// are counted by newlines, columns by characters.
    pub fn position(&self) -> (res: (usize, usize))
        requires
            encode_utf8(self.src@).len() <= isize::MAX,
        ensures
            res.0 == self.spec_position().0,
            res.1 == self.spec_position().1,
            res.0 >= 1,
            res.1 >= 1,
    {
        let bytes = self.src.as_str().as_bytes();
        let ghost bs = encode_utf8(self.src@);
        assert(bytes@ == bs);
        let n = bytes.len();
        let target = self.range.0;
        let mut b: usize = 0;
        let mut rows: usize = 1;
        let mut cols: usize = 1;
        while b < n && b < target
            invariant
                bytes@ == bs,
                n == bs.len(),
                target == self.range.0,
                n <= isize::MAX,
                b <= n + 3,
                1 <= rows <= b + 1,
                1 <= cols <= b + 1,
                row_col_from(bs, target as int, 0, 1, 1) == row_col_from(bs, target as int, b as int, rows as int, cols as int),
            decreases n + 4 - b,
        {
            let byte = bytes[b];
            let w: usize = if byte < 0x80 {
                1
            } else if byte < 0xE0 {
                2
            } else if byte < 0xF0 {
                3
            } else {
                4
            };
            assert(w == utf8_width(byte));
            if byte == 10u8 {
                rows = rows + 1;
                cols = 1;
            } else {
                cols = cols + 1;
            }
            b = b + w;
        }
        (rows, cols)
    }
}

/// The lines that a report shows around row `rows` (from 1): up to three
/// lines ending with that row, each with its number (from 1).
pub open spec fn neighbor_lines_spec(src: Seq<char>, rows: int) -> Seq<(int, Seq<char>)> {
    let row = rows - 1;
    let lines = split_lines_from(src, 0);
    let skip = if row - 2 > 0 { row - 2 } else { 0 };
    let take = if row + 1 < 3 { row + 1 } else { 3 };
    let avail = if lines.len() > skip { lines.len() - skip } else { 0 };
    let cnt = if take < avail { take } else { avail };
    let first = if row - 1 > 1 { row - 1 } else { 1 };
    Seq::new(cnt as nat, |i: int| (first + i, lines[skip + i]))
}

pub open spec fn lines_view(v: Seq<(usize, String)>) -> Seq<(int, Seq<char>)> {
    Seq::new(v.len(), |i: int| (v[i].0 as int, v[i].1@))
}

/// The pieces of `s` between its newlines.
pub fn split_lines(s: &str) -> (res: Vec<String>)
    ensures
        Seq::new(res@.len(), |i: int| res@[i]@) == split_lines_from(s@, 0),
{
    let n = s.unicode_len();
    let mut res: Vec<String> = Vec::new();
    let mut i: usize = 0;
    loop
        invariant
            n == s@.len(),
            i <= n,
            split_lines_from(s@, 0) == Seq::new(res@.len(), |q: int| res@[q]@) + split_lines_from(s@, i as int),
        decreases n - i,
    {
        let mut k: usize = i;
        while k < n && s.get_char(k) != '\n'
            invariant
                n == s@.len(),
                i <= k <= n,
                next_nl(s@, i as int) == next_nl(s@, k as int),
            decreases n - k,
        {
            k = k + 1;
        }
        proof {
            lemma_next_nl(s@, i as int);
        }
        let piece = String::from_str(s.substring_char(i, k));
        let ghost old_view = Seq::new(res@.len(), |q: int| res@[q]@);
        res.push(piece);
        let ghost new_view = Seq::new(res@.len(), |q: int| res@[q]@);
        assert(new_view == old_view.push(s@.subrange(i as int, k as int)));
        if k >= n {
            proof {
                assert(split_lines_from(s@, i as int) == seq![s@.subrange(i as int, n as int)]);
                assert(old_view + seq![s@.subrange(i as int, n as int)] == new_view);
            }
            return res;
        }
        proof {
            assert(split_lines_from(s@, i as int) == seq![s@.subrange(i as int, k as int)] + split_lines_from(s@, k + 1));
            assert(old_view + (seq![s@.subrange(i as int, k as int)] + split_lines_from(s@, k + 1)) == new_view + split_lines_from(s@, k + 1));
        }
        i = k + 1;
    }
}

impl Diagnostics {
    /// The lines that a report shows around row `rows`: up to three lines
    /// ending with that row, each with its number.
    pub fn neighbor_lines(&self, rows: usize) -> (res: Vec<(usize, String)>)
        requires
            rows >= 1,
        ensures
            lines_view(res@) == neighbor_lines_spec(self.src@, rows as int),
    {
        let lines = split_lines(self.src.as_str());
        let ghost ls = split_lines_from(self.src@, 0);
        let row = rows - 1;
        let skip: usize = if row > 2 { row - 2 } else { 0 };
        let take: usize = if row + 1 < 3 { row + 1 } else { 3 };
        let avail: usize = if lines.len() > skip { lines.len() - skip } else { 0 };
        let cnt: usize = if take < avail { take } else { avail };
        let first: usize = if row > 2 { row - 1 } else { 1 };
        let mut res: Vec<(usize, String)> = Vec::new();
        let mut i: usize = 0;
        while i < cnt
            invariant
                Seq::new(lines@.len(), |q: int| lines@[q]@) == ls,
                cnt <= take,
                take <= 3,
                cnt > 0 ==> skip + cnt <= lines@.len(),
                lines@.len() == ls.len(),
                first + cnt <= rows + 1,
                i <= cnt,
                res@.len() == i,
                forall|q: int| 0 <= q < i ==> (#[trigger] res@[q]).0 == first + q && res@[q].1@ == ls[skip + q],
            decreases cnt - i,
        {
            let ln = lines.len();
            assert(skip + i < ln);
            let line = String::from_str(lines[skip + i].as_str());
            assert(line@ == ls[skip + i]);
            res.push((first + i, line));
            i = i + 1;
        }
        assert(lines_view(res@) == neighbor_lines_spec(self.src@, rows as int));
        res
    }
}

/// The decimal digit `d`.
pub open spec fn digit(d: nat) -> Seq<char> {
    if d == 0 { "0"@ } else if d == 1 { "1"@ } else if d == 2 { "2"@ } else if d == 3 { "3"@ } else if d == 4 {
        "4"@
    } else if d == 5 { "5"@ } else if d == 6 { "6"@ } else if d == 7 { "7"@ } else if d == 8 { "8"@ } else { "9"@ }
}

/// The decimal digits of `n`.
pub open spec fn dec(n: nat) -> Seq<char>
    decreases n,
{
    if n < 10 {
        digit(n)
    } else {
        dec(n / 10) + digit(n % 10)
    }
}

/// `s` right-aligned in a field of two characters.
pub open spec fn pad2(s: Seq<char>) -> Seq<char> {
    if s.len() < 2 { " "@ + s } else { s }
}

/// `n` spaces.
pub open spec fn spaces(n: nat) -> Seq<char>
    decreases n,
{
    if n == 0 { seq![] } else { spaces((n - 1) as nat) + " "@ }
}

/// The numbered lines of a report, one per line: the number right-aligned
/// in two places, a colon, a space, the line.
pub open spec fn lines_text(lines: Seq<(int, Seq<char>)>) -> Seq<char>
    decreases lines.len(),
{
    if lines.len() == 0 {
        seq![]
    } else {
        let (row, line) = lines.last();
        lines_text(lines.drop_last()) + pad2(dec(row as nat)) + ": "@ + line + "\n"@
    }
}

/// The text of a report of a source position: a rule of dashes, the
/// numbered lines around the row, a caret under the column, the line
/// `Found at line r, column c.`, and a rule of dashes.
pub open spec fn report_text(rows: int, cols: int, lines: Seq<(int, Seq<char>)>) -> Seq<char> {
    "-----\n"@ + lines_text(lines) + "    "@ + spaces((cols - 1) as nat) + "^ here\n"@ + "Found at line "@ + dec(rows as nat)
        + ", column "@ + dec(cols as nat) + ".\n"@ + "-----\n"@
}

fn digit_str(d: usize) -> (res: &'static str)
    requires
        d < 10,
    ensures
        res@ == digit(d as nat),
{
    if d == 0 { "0" } else if d == 1 { "1" } else if d == 2 { "2" } else if d == 3 { "3" } else if d == 4 {
        "4"
    } else if d == 5 { "5" } else if d == 6 { "6" } else if d == 7 { "7" } else if d == 8 { "8" } else { "9" }
}

/// The decimal digits of `n`.
pub fn dec_string(n: usize) -> (res: String)
    ensures
        res@ == dec(n as nat),
    decreases n,
{
    if n < 10 {
        String::from_str(digit_str(n))
    } else {
        let mut s = dec_string(n / 10);
        s.append(digit_str(n % 10));
        s
    }
}

impl Diagnostics {
    /// The report of the position of the range: the lines around it, a
    /// caret under its column, and its line and column.
    pub fn report(&self) -> (res: String)
        requires
            encode_utf8(self.src@).len() <= isize::MAX,
        ensures
            res@ == report_text(
                self.spec_position().0,
                self.spec_position().1,
                neighbor_lines_spec(self.src@, self.spec_position().0),
            ),
    {
        let (rows, cols) = self.position();
        let lines = self.neighbor_lines(rows);
        let ghost lv = lines_view(lines@);
        let mut s = String::from_str("-----\n");
        let mut i: usize = 0;
        while i < lines.len()
            invariant
                lv == lines_view(lines@),
                i <= lines@.len(),
                s@ == "-----\n"@ + lines_text(lv.subrange(0, i as int)),
            decreases lines@.len() - i,
        {
            let ghost pre = lv.subrange(0, i as int);
            let ghost cur = lv.subrange(0, i + 1);
            assert(cur.drop_last() == pre);
            assert(cur.last() == (lines@[i as int].0 as int, lines@[i as int].1@));
            let num = dec_string(lines[i].0);
            let ghost before = s@;
            if num.as_str().unicode_len() < 2 {
                s.append(" ");
            }
            s.append(num.as_str());
            s.append(": ");
            s.append(lines[i].1.as_str());
            s.append("\n");
            proof {
                let d = dec(lines@[i as int].0 as nat);
                let t = "-----\n"@ + lines_text(pre);
                if d.len() < 2 {
                    assert(s@ == t + " "@ + d + ": "@ + lines@[i as int].1@ + "\n"@);
                    assert(t + " "@ + d == t + (" "@ + d));
                } else {
                    assert(s@ == t + d + ": "@ + lines@[i as int].1@ + "\n"@);
                }
                assert(lines_text(cur) == lines_text(pre) + pad2(d) + ": "@ + lines@[i as int].1@ + "\n"@);
                assert(s@ == "-----\n"@ + lines_text(cur));
            }
            i = i + 1;
        }
        assert(lv.subrange(0, lines@.len() as int) == lv);
        s.append("    ");
        let mut k: usize = 0;
        let ghost base = s@;
        while k < cols - 1
            invariant
                k <= cols - 1,
                cols >= 1,
                s@ == base + spaces(k as nat),
            decreases cols - 1 - k,
        {
            s.append(" ");
            k = k + 1;
        }
        s.append("^ here\n");
        s.append("Found at line ");
        let r = dec_string(rows);
        s.append(r.as_str());
        s.append(", column ");
        let c = dec_string(cols);
        s.append(c.as_str());
        s.append(".\n");
        s.append("-----\n");
        s
    }
}

} // verus!
