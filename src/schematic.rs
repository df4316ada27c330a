//! Engine schematics: a grid of digits, symbols and dots, tokenized into numbers
//! and symbols with their positions, then reduced to the sum of part numbers and
//! the sum of gear ratios.
use vstd::prelude::*;

use crate::text::{
    chars_of, decimal_value, is_digit, lemma_decimal_value_grows, lines, lines_of, views_of,
};

verus! {

/// What a token holds: a symbol character or a number.
#[derive(Clone, Copy, Debug, PartialEq, Eq, Structural, Hash)]
pub enum TokenValue {
    Symbol(char),
    Number(u32),
}

/// A number or symbol of the grid, on row `row`, over columns
/// `col_start..=col_end`.
#[derive(Clone, Copy, Debug, PartialEq, Eq, Structural, Hash)]
pub struct Token {
    pub row: u32,
    pub col_start: u32,
    pub col_end: u32,
    pub value: TokenValue,
}

/// A cell of the grid.
#[derive(Clone, Copy, Debug, PartialEq, Eq, Structural, Hash)]
pub struct Location {
    pub row: u32,
    pub column: u32,
}

/// Why a schematic could not be read or reduced.
#[derive(Clone, Copy, Debug, PartialEq, Eq, Structural)]
pub enum SchematicError {
    /// A character that is neither a digit, a dot nor a known symbol.
    UnknownCharacter(char),
    /// A run of digits whose value does not fit in a `u32`.
    MalformedNumber,
    /// A sum that does not fit in a `u64`.
    Overflow,
}

/// The symbol characters of a schematic.
pub open spec fn is_symbol_char(c: char) -> bool {
    c == '*' || c == '#' || c == '+' || c == '$' || c == '-' || c == '@' || c == '='
        || c == '%' || c == '/' || c == '&'
}

/// The number of digits in `line` from position `i` on, up to the first non-digit.
pub open spec fn digit_run(line: Seq<char>, i: int) -> nat
    decreases line.len() - i,
{
    if 0 <= i < line.len() && is_digit(line[i]) {
        1 + digit_run(line, i + 1)
    } else {
        0
    }
}

/// `ts` put in front of the tokens of `r`, or the error of `r`.
pub open spec fn prepend(ts: Seq<Token>, r: Result<Seq<Token>, SchematicError>) -> Result<
    Seq<Token>,
    SchematicError,
> {
    match r {
        Ok(rest) => Ok(ts + rest),
        Err(e) => Err(e),
    }
}

/// The tokens of row `row`, whose characters are `line`, from column `i` on: a
/// maximal run of digits is a number, a symbol character is a symbol, a dot is
/// skipped, and the first other character, or a number too large for a `u32`,
/// is the error.
pub open spec fn scan_line(line: Seq<char>, row: u32, i: int) -> Result<
    Seq<Token>,
    SchematicError,
>
    decreases line.len() - i,
{
    if i < 0 || i >= line.len() {
        Ok(seq![])
    } else {
        let c = line[i];
        if c == '.' {
            scan_line(line, row, i + 1)
        } else if is_digit(c) {
            let n = 1 + digit_run(line, i + 1);
            let v = decimal_value(line.subrange(i, i + n));
            if v > u32::MAX {
                Err(SchematicError::MalformedNumber)
            } else {
                proof {
                    lemma_digit_run_bound(line, i + 1);
                }
                prepend(
                    seq![
                        Token {
                            row,
                            col_start: i as u32,
                            col_end: (i + n - 1) as u32,
                            value: TokenValue::Number(v as u32),
                        },
                    ],
                    scan_line(line, row, i + n),
                )
            }
        } else if is_symbol_char(c) {
            prepend(
                seq![
                    Token {
                        row,
                        col_start: i as u32,
                        col_end: i as u32,
                        value: TokenValue::Symbol(c),
                    },
                ],
                scan_line(line, row, i + 1),
            )
        } else {
            Err(SchematicError::UnknownCharacter(c))
        }
    }
}

/// A vector of tokens, or an error, seen as a sequence of tokens or that error.
pub open spec fn result_view(r: Result<Vec<Token>, SchematicError>) -> Result<
    Seq<Token>,
    SchematicError,
> {
    match r {
        Ok(v) => Ok(v@),
        Err(e) => Err(e),
    }
}

/// A run of digits ends within its line.
pub proof fn lemma_digit_run_bound(line: Seq<char>, i: int)
    requires
        0 <= i <= line.len(),
    ensures
        i + digit_run(line, i) <= line.len(),
    decreases line.len() - i,
{
    if i < line.len() && is_digit(line[i]) {
        lemma_digit_run_bound(line, i + 1);
    }
}

/// Tokenizes row `row` of a schematic, whose characters are `line`.
pub fn parse_line(row: u32, line: &str) -> (r: Result<Vec<Token>, SchematicError>)
    requires
        line@.len() <= u32::MAX,
    ensures
        result_view(r) == scan_line(line@, row, 0),
{
    parse_line_chars(row, &chars_of(line))
}

fn parse_line_chars(row: u32, line: &Vec<char>) -> (r: Result<Vec<Token>, SchematicError>)
    requires
        line@.len() <= u32::MAX,
    ensures
        result_view(r) == scan_line(line@, row, 0),
{
    let mut tokens: Vec<Token> = Vec::new();
    let mut i: usize = 0;
    while i < line.len()
        invariant
            i <= line@.len() <= u32::MAX,
            prepend(tokens@, scan_line(line@, row, i as int)) == scan_line(line@, row, 0),
        decreases line@.len() - i,
    {
        let c = line[i];
        let ghost before = tokens@;
        if c == '.' {
            i = i + 1;
        } else if '0' <= c && c <= '9' {
            let mut value: u64 = (c as u32 - '0' as u32) as u64;
            let mut too_large = false;
            let mut j: usize = i + 1;
            proof {
                let one = line@.subrange(i as int, j as int);
                assert(one.drop_last() =~= Seq::<char>::empty());
                assert(decimal_value(Seq::<char>::empty()) == 0);
                assert(one.last() == c);
                assert(decimal_value(one) == c as int - '0' as int);
            }
            while j < line.len() && '0' <= line[j] && line[j] <= '9'
                invariant
                    i < j <= line@.len(),
                    is_digit(line@[i as int]),
                    digit_run(line@, i + 1) == (j - (i + 1)) + digit_run(line@, j as int),
                    too_large ==> decimal_value(line@.subrange(i as int, j as int)) > u32::MAX,
                    !too_large ==> value == decimal_value(line@.subrange(i as int, j as int)),
                    !too_large ==> value <= u32::MAX,
                decreases line@.len() - j,
            {
                let d = line[j];
                let ghost prev = line@.subrange(i as int, j as int);
                let ghost next = line@.subrange(i as int, j + 1);
                assert(next.drop_last() =~= prev);
                assert(decimal_value(next) == decimal_value(prev) * 10 + (d as int - '0' as int));
                if !too_large {
                    value = value * 10 + (d as u32 - '0' as u32) as u64;
                    if value > u32::MAX as u64 {
                        too_large = true;
                    }
                } else {
                    assert(decimal_value(prev) * 10 + (d as int - '0' as int) >= decimal_value(prev))
                        by (nonlinear_arith)
                        requires
                            decimal_value(prev) >= 0,
                            (d as int - '0' as int) >= 0,
                    ;
                }
                j = j + 1;
            }
            assert(digit_run(line@, j as int) == 0);
            if too_large {
                return Err(SchematicError::MalformedNumber);
            }
            tokens.push(
                Token {
                    row,
                    col_start: i as u32,
                    col_end: (j - 1) as u32,
                    value: TokenValue::Number(value as u32),
                },
            );
            assert(prepend(tokens@, scan_line(line@, row, j as int)) == prepend(
                before,
                scan_line(line@, row, i as int),
            )) by {
                assert(tokens@ =~= before + seq![tokens@.last()]);
                match scan_line(line@, row, j as int) {
                    Ok(rest) => {
                        assert(tokens@ + rest =~= before + (seq![tokens@.last()] + rest));
                    },
                    Err(e) => {},
                }
            }
            i = j;
        } else if c == '*' || c == '#' || c == '+' || c == '$' || c == '-' || c == '@' || c
            == '=' || c == '%' || c == '/' || c == '&' {
            tokens.push(
                Token {
                    row,
                    col_start: i as u32,
                    col_end: i as u32,
                    value: TokenValue::Symbol(c),
                },
            );
            assert(prepend(tokens@, scan_line(line@, row, i + 1)) == prepend(
                before,
                scan_line(line@, row, i as int),
            )) by {
                assert(tokens@ =~= before + seq![tokens@.last()]);
                match scan_line(line@, row, i + 1) {
                    Ok(rest) => {
                        assert(tokens@ + rest =~= before + (seq![tokens@.last()] + rest));
                    },
                    Err(e) => {},
                }
            }
            i = i + 1;
        } else {
            return Err(SchematicError::UnknownCharacter(c));
        }
    }
    assert(tokens@ + seq![] =~= tokens@);
    Ok(tokens)
}

/// The tokens of the rows of `ls` from row `r` on, row after row, or the first
/// error met.
pub open spec fn scan_rows(ls: Seq<Seq<char>>, r: int) -> Result<Seq<Token>, SchematicError>
    decreases ls.len() - r,
{
    if r < 0 || r >= ls.len() {
        Ok(seq![])
    } else {
        match scan_line(ls[r], r as u32, 0) {
            Ok(ts) => prepend(ts, scan_rows(ls, r + 1)),
            Err(e) => Err(e),
        }
    }
}

/// The tokens of a schematic text, or the first error met.
pub open spec fn tokens_of(s: Seq<char>) -> Result<Seq<Token>, SchematicError> {
    scan_rows(lines_of(s), 0)
}

/// Tokenizes a schematic: rows in order, and left to right within a row.
pub fn parse_tokens(contents: &str) -> (r: Result<Vec<Token>, SchematicError>)
    requires
        contents@.len() <= u32::MAX,
    ensures
        result_view(r) == tokens_of(contents@),
{
    let ls = lines(contents);
    proof {
        crate::text::lemma_lines_bounds(contents@);
    }
    let ghost lv = lines_of(contents@);
    let mut tokens: Vec<Token> = Vec::new();
    let mut row: usize = 0;
    while row < ls.len()
        invariant
            views_of(ls@) == lv,
            lv == lines_of(contents@),
            lv.len() <= contents@.len() + 1 <= u32::MAX + 1,
            forall|k: int| 0 <= k < lv.len() ==> #[trigger] lv[k].len() <= contents@.len(),
            row <= ls@.len(),
            prepend(tokens@, scan_rows(lv, row as int)) == scan_rows(lv, 0),
        decreases ls@.len() - row,
    {
        assert(ls@[row as int]@ == lv[row as int]);
        let ghost before = tokens@;
        match parse_line_chars(row as u32, &ls[row]) {
            Ok(found) => {
                let ghost fv = found@;
                let mut more = found;
                tokens.append(&mut more);
                assert(tokens@ =~= before + fv);
                proof {
                    match scan_rows(lv, row + 1) {
                        Ok(rest) => {
                            assert(tokens@ + rest =~= before + (fv + rest));
                        },
                        Err(e) => {},
                    }
                }
            },
            Err(e) => {
                return Err(e);
            },
        }
        row = row + 1;
    }
    assert(tokens@ + seq![] =~= tokens@);
    Ok(tokens)
}

/// A `*` symbol touching exactly two numbers, with their values.
#[derive(Clone, Copy, Debug, PartialEq, Eq)]
pub struct Gear {
    pub adjacent_part_numbers: [u32; 2],
}

/// The number a token holds, or zero for a symbol.
pub open spec fn number_of(t: Token) -> int {
    match t.value {
        TokenValue::Number(n) => n as int,
        TokenValue::Symbol(_) => 0,
    }
}

/// The cells a token stands on.
pub open spec fn span_locations(t: Token) -> Seq<Location> {
    Seq::new(
        if t.col_start <= t.col_end {
            (t.col_end - t.col_start + 1) as nat
        } else {
            0
        },
        |k: int| Location { row: t.row, column: (t.col_start + k) as u32 },
    )
}

/// Whether a token stands on cell `l`.
pub open spec fn covers(t: Token, l: Location) -> bool {
    l.row == t.row && t.col_start <= l.column <= t.col_end
}

/// Whether cell `l` lies in the neighbourhood of a token: within one row of it
/// and within one column of its span, the token's own cells included.
pub open spec fn surrounds(t: Token, l: Location) -> bool {
    t.row - 1 <= l.row <= t.row + 1 && t.col_start - 1 <= l.column <= t.col_end + 1
}

/// Whether some cell that a symbol of `ts` stands on lies in the neighbourhood of
/// the number token `n`.
pub open spec fn is_part_number(ts: Seq<Token>, n: Token) -> bool {
    &&& n.value is Number
    &&& exists|k: int, l: Location|
        0 <= k < ts.len() && ts[k].value is Symbol && covers(ts[k], l) && surrounds(n, l)
}

/// The sum of the part numbers among the first `k` tokens of `ts`.
pub open spec fn part_sum(ts: Seq<Token>, k: int) -> int
    decreases k,
{
    if k <= 0 {
        0
    } else {
        part_sum(ts, k - 1) + if is_part_number(ts, ts[k - 1]) {
            number_of(ts[k - 1])
        } else {
            0
        }
    }
}

/// The distinct number tokens of `ts` that stand on a cell in the neighbourhood
/// of `g`.
pub open spec fn adjacent_numbers(ts: Seq<Token>, g: Token) -> Set<Token> {
    Set::new(
        |t: Token|
            ts.contains(t) && t.value is Number && exists|l: Location| covers(t, l) && surrounds(g, l),
    )
}

/// The product of the numbers of the two tokens of `s`.
pub open spec fn pair_product(s: Set<Token>) -> int {
    let a = s.choose();
    let b = s.remove(a).choose();
    number_of(a) * number_of(b)
}

/// The ratio of `g` as a gear among `ts`: the product of its two adjacent
/// numbers if it is a `*` with exactly two, else zero.
pub open spec fn gear_ratio(ts: Seq<Token>, g: Token) -> int {
    if g.value == TokenValue::Symbol('*') && adjacent_numbers(ts, g).len() == 2 {
        pair_product(adjacent_numbers(ts, g))
    } else {
        0
    }
}

/// The sum of the gear ratios of the first `k` tokens of `ts`.
pub open spec fn gear_sum(ts: Seq<Token>, k: int) -> int
    decreases k,
{
    if k <= 0 {
        0
    } else {
        gear_sum(ts, k - 1) + gear_ratio(ts, ts[k - 1])
    }
}

impl Token {
    pub fn is_symbol(&self) -> (r: bool)
        ensures
            r == self.value is Symbol,
    {
        match self.value {
            TokenValue::Symbol(_) => true,
            TokenValue::Number(_) => false,
        }
    }

    pub fn is_number(&self) -> (r: bool)
        ensures
            r == self.value is Number,
    {
        match self.value {
            TokenValue::Number(_) => true,
            TokenValue::Symbol(_) => false,
        }
    }

    /// The character of a symbol token.
    pub fn symbol(&self) -> (r: Option<char>)
        ensures
            r == match self.value {
                TokenValue::Symbol(c) => Some(c),
                TokenValue::Number(_) => None::<char>,
            },
    {
        match self.value {
            TokenValue::Symbol(c) => Some(c),
            TokenValue::Number(_) => None,
        }
    }

    /// The value of a number token.
    pub fn number(&self) -> (r: Option<u32>)
        ensures
            r == match self.value {
                TokenValue::Number(n) => Some(n),
                TokenValue::Symbol(_) => None::<u32>,
            },
    {
        match self.value {
            TokenValue::Number(n) => Some(n),
            TokenValue::Symbol(_) => None,
        }
    }

    /// The cells the token stands on, left to right.
    pub fn locations(&self) -> (r: Vec<Location>)
        ensures
            r@ == span_locations(*self),
    {
        let mut out: Vec<Location> = Vec::new();
        if self.col_start <= self.col_end {
            let mut col: u64 = self.col_start as u64;
            while col <= self.col_end as u64
                invariant
                    self.col_start <= col <= self.col_end as int + 1,
                    out@ =~= span_locations(*self).subrange(0, col - self.col_start),
                decreases self.col_end as int + 1 - col,
            {
                out.push(Location { row: self.row, column: col as u32 });
                col = col + 1;
            }
        }
        assert(out@ =~= span_locations(*self));
        out
    }

    /// The cells of the token's neighbourhood, row by row.
    pub fn surrounding_locations(&self) -> (r: Vec<Location>)
        ensures
            forall|l: Location| r@.contains(l) <==> surrounds(*self, l),
            forall|i: int, j: int| 0 <= i < j < r@.len() ==> cell_before(r@[i], r@[j]),
    {
        let min_row = self.row.saturating_sub(1);
        let max_row = self.row.saturating_add(1);
        let min_col = self.col_start.saturating_sub(1);
        let max_col = self.col_end.saturating_add(1);
        let mut out: Vec<Location> = Vec::new();
        let mut row: u64 = min_row as u64;
        while row <= max_row as u64
            invariant
                min_row <= row <= max_row as int + 1,
                min_row == if self.row == 0 { 0 } else { self.row - 1 },
                max_row == if self.row == u32::MAX { u32::MAX as int } else { self.row + 1 },
                min_col == if self.col_start == 0 { 0 } else { self.col_start - 1 },
                max_col == if self.col_end == u32::MAX { u32::MAX as int } else { self.col_end + 1 },
                forall|l: Location| #[trigger]
                    out@.contains(l) <==> (surrounds(*self, l) && l.row < row),
                forall|i: int, j: int| 0 <= i < j < out@.len() ==> cell_before(out@[i], out@[j]),
            decreases max_row as int + 1 - row,
        {
            let mut col: u64 = min_col as u64;
            assert forall|l: Location| #[trigger]
                out@.contains(l) implies (surrounds(*self, l) && (l.row < row || (l.row == row
                    && l.column < col))) by {}
            assert forall|l: Location|
                (surrounds(*self, l) && (l.row < row || (l.row == row
                    && l.column < col))) implies #[trigger] out@.contains(l) by {
                assert(l.column >= min_col);
            }
            while col <= max_col as u64
                invariant
                    min_row <= row <= max_row,
                    min_col <= col,
                    col <= max_col as int + 1 || col == min_col,
                    min_row == if self.row == 0 { 0 } else { self.row - 1 },
                    max_row == if self.row == u32::MAX { u32::MAX as int } else { self.row + 1 },
                    min_col == if self.col_start == 0 { 0 } else { self.col_start - 1 },
                    max_col == if self.col_end == u32::MAX { u32::MAX as int } else { self.col_end + 1 },
                    forall|l: Location| #[trigger]
                        out@.contains(l) <==> (surrounds(*self, l) && (l.row < row || (l.row == row
                            && l.column < col))),
                    forall|i: int, j: int| 0 <= i < j < out@.len() ==> cell_before(out@[i], out@[j]),
                decreases max_col as int + 1 - col,
            {
                let ghost before = out@;
                let loc = Location { row: row as u32, column: col as u32 };
                assert forall|i: int| 0 <= i < before.len() implies cell_before(before[i], loc) by {
                    assert(before.contains(before[i]));
                }
                out.push(loc);
                assert forall|i: int, j: int| 0 <= i < j < out@.len() implies cell_before(
                    out@[i],
                    out@[j],
                ) by {
                    if j < before.len() {
                        assert(out@[i] == before[i] && out@[j] == before[j]);
                    } else {
                        assert(out@[i] == before[i] && out@[j] == loc);
                    }
                }
                assert forall|l: Location|
                    out@.contains(l) <==> (surrounds(*self, l) && (l.row < row || (l.row == row
                        && l.column < col + 1))) by {
                    if l == loc {
                        assert(out@[before.len() as int] == l);
                    }
                    if out@.contains(l) && l != loc {
                        let k = choose|k: int| 0 <= k < out@.len() && out@[k] == l;
                        assert(before[k] == l);
                    }
                    if before.contains(l) {
                        let k = choose|k: int| 0 <= k < before.len() && before[k] == l;
                        assert(out@[k] == l);
                    }
                }
                col = col + 1;
            }
            assert forall|l: Location| #[trigger]
                out@.contains(l) implies (surrounds(*self, l) && l.row < row + 1) by {}
            assert forall|l: Location|
                (surrounds(*self, l) && l.row < row + 1) implies #[trigger] out@.contains(l) by {
                assert(l.column <= max_col);
            }
            row = row + 1;
        }
        out
    }
}

/// Whether cell `a` comes before cell `b` row by row, left to right.
pub open spec fn cell_before(a: Location, b: Location) -> bool {
    a.row < b.row || (a.row == b.row && a.column < b.column)
}

/// The value of a number token, or `None` for a symbol.
pub open spec fn number_opt(t: Token) -> Option<u32> {
    match t.value {
        TokenValue::Number(n) => Some(n),
        TokenValue::Symbol(_) => None,
    }
}

/// The distinct tokens that entries of `nl` place in the neighbourhood of `g`.
pub open spec fn adjacent_entries(nl: Seq<(Location, Token)>, g: Token) -> Set<Token> {
    Set::new(|t: Token| exists|k: int| 0 <= k < nl.len() && nl[k].1 == t && surrounds(g, nl[k].0))
}

/// A token stands on exactly the cells of its span.
pub proof fn lemma_span_locations(t: Token, l: Location)
    ensures
        span_locations(t).contains(l) <==> covers(t, l),
{
    if covers(t, l) {
        assert(span_locations(t)[l.column - t.col_start] == l);
    }
}

/// The two numbers of a pair, multiplied in either order.
pub proof fn lemma_pair_product(a: Token, b: Token)
    requires
        a != b,
    ensures
        pair_product(set![a, b]) == number_of(a) * number_of(b),
        set![a, b].len() == 2,
{
    let s = set![a, b];
    let x = s.choose();
    assert(s.contains(a));
    assert(s.contains(x));
    if x == a {
        assert(s.remove(a) =~= set![b]);
    } else {
        assert(s.remove(b) =~= set![a]);
        assert(number_of(b) * number_of(a) == number_of(a) * number_of(b)) by (nonlinear_arith);
    }
    assert(set![a].insert(b).len() == 2);
}

/// Whether cell `l` lies in the neighbourhood of `t`.
fn in_neighbourhood(t: &Token, l: &Location) -> (r: bool)
    ensures
        r == surrounds(*t, *l),
{
    l.row as u64 + 1 >= t.row as u64 && l.row as u64 <= t.row as u64 + 1 && l.column as u64 + 1
        >= t.col_start as u64 && l.column as u64 <= t.col_end as u64 + 1
}

/// The cells that the symbols of `tokens` stand on.
pub fn symbol_locations(tokens: &Vec<Token>) -> (r: Vec<Location>)
    ensures
        forall|l: Location| #[trigger]
            r@.contains(l) <==> exists|k: int|
                0 <= k < tokens@.len() && tokens@[k].value is Symbol && covers(tokens@[k], l),
{
    let mut out: Vec<Location> = Vec::new();
    let mut i: usize = 0;
    while i < tokens.len()
        invariant
            i <= tokens@.len(),
            forall|l: Location| #[trigger]
                out@.contains(l) <==> exists|k: int|
                    0 <= k < i && tokens@[k].value is Symbol && covers(tokens@[k], l),
        decreases tokens@.len() - i,
    {
        let t = tokens[i];
        let ghost before = out@;
        if t.is_symbol() {
            let mut locs = t.locations();
            let ghost lv = locs@;
            out.append(&mut locs);
            assert(out@ =~= before + lv);
            assert forall|l: Location| #[trigger]
                out@.contains(l) <==> exists|k: int|
                    0 <= k < i + 1 && tokens@[k].value is Symbol && covers(tokens@[k], l) by {
                lemma_span_locations(t, l);
                if out@.contains(l) {
                    let j = choose|j: int| 0 <= j < out@.len() && out@[j] == l;
                    if j < before.len() {
                        assert(before.contains(l));
                    } else {
                        assert(lv[j - before.len()] == l);
                    }
                }
                if exists|k: int| 0 <= k < i && tokens@[k].value is Symbol && covers(tokens@[k], l) {
                    assert(before.contains(l));
                    let j = choose|j: int| 0 <= j < before.len() && before[j] == l;
                    assert(out@[j] == l);
                } else if covers(t, l) {
                    let j = choose|j: int| 0 <= j < lv.len() && lv[j] == l;
                    assert(out@[before.len() + j] == l);
                }
            }
        }
        i = i + 1;
    }
    out
}

/// The cells that the numbers of `tokens` stand on, each with its number token.
pub fn number_locations(tokens: &Vec<Token>) -> (r: Vec<(Location, Token)>)
    ensures
        forall|l: Location, t: Token| #[trigger]
            r@.contains((l, t)) <==> (tokens@.contains(t) && t.value is Number && covers(t, l)),
{
    let mut out: Vec<(Location, Token)> = Vec::new();
    let mut i: usize = 0;
    while i < tokens.len()
        invariant
            i <= tokens@.len(),
            forall|l: Location, t: Token| #[trigger]
                out@.contains((l, t)) <==> (tokens@.subrange(0, i as int).contains(t)
                    && t.value is Number && covers(t, l)),
        decreases tokens@.len() - i,
    {
        let t = tokens[i];
        let ghost before = out@;
        if t.is_number() {
            let locs = t.locations();
            let mut j: usize = 0;
            while j < locs.len()
                invariant
                    j <= locs@.len(),
                    i < tokens@.len(),
                    t == tokens@[i as int],
                    t.value is Number,
                    locs@ == span_locations(t),
                    forall|l: Location, u: Token| #[trigger]
                        out@.contains((l, u)) <==> ((tokens@.subrange(0, i as int).contains(u)
                            && u.value is Number && covers(u, l)) || (u == t
                            && locs@.subrange(0, j as int).contains(l))),
                decreases locs@.len() - j,
            {
                let ghost mid = out@;
                let loc = locs[j];
                out.push((loc, t));
                assert forall|l: Location, u: Token| #[trigger]
                    out@.contains((l, u)) <==> ((tokens@.subrange(0, i as int).contains(u)
                        && u.value is Number && covers(u, l)) || (u == t && locs@.subrange(
                        0,
                        j + 1,
                    ).contains(l))) by {
                    if out@.contains((l, u)) {
                        let m = choose|m: int| 0 <= m < out@.len() && out@[m] == (l, u);
                        if m < mid.len() {
                            assert(mid.contains((l, u)));
                            if u == t && locs@.subrange(0, j as int).contains(l) {
                                let n = choose|n: int|
                                    0 <= n < j && locs@.subrange(0, j as int)[n] == l;
                                assert(locs@.subrange(0, j + 1)[n] == l);
                            }
                        } else {
                            assert(locs@.subrange(0, j + 1)[j as int] == l);
                        }
                    }
                    if mid.contains((l, u)) {
                        let m = choose|m: int| 0 <= m < mid.len() && mid[m] == (l, u);
                        assert(out@[m] == (l, u));
                    }
                    let pre = locs@.subrange(0, j + 1);
                    if u == t && pre.contains(l) {
                        let n = choose|n: int| 0 <= n < pre.len() && pre[n] == l;
                        if n < j {
                            assert(locs@.subrange(0, j as int)[n] == l);
                            let m = choose|m: int| 0 <= m < mid.len() && mid[m] == (l, u);
                            assert(out@[m] == (l, u));
                        } else {
                            assert(out@[mid.len() as int] == (l, u));
                        }
                    }
                }
                j = j + 1;
            }
            assert(locs@.subrange(0, j as int) =~= locs@);
        }
        assert forall|l: Location, u: Token| #[trigger]
            out@.contains((l, u)) <==> (tokens@.subrange(0, i + 1).contains(u)
                && u.value is Number && covers(u, l)) by {
            lemma_span_locations(t, l);
            let pre = tokens@.subrange(0, i + 1);
            if pre.contains(u) {
                let n = choose|n: int| 0 <= n < pre.len() && pre[n] == u;
                if n < i {
                    assert(tokens@.subrange(0, i as int)[n] == u);
                }
            }
            if tokens@.subrange(0, i as int).contains(u) {
                let n = choose|n: int| 0 <= n < i && tokens@.subrange(0, i as int)[n] == u;
                assert(tokens@.subrange(0, i + 1)[n] == u);
            }
            assert(tokens@.subrange(0, i + 1)[i as int] == t);
        }
        i = i + 1;
    }
    assert(tokens@.subrange(0, i as int) =~= tokens@);
    out
}

/// The value of `token` if it is a number with a cell of `symbol_locations` in
/// its neighbourhood.
pub fn part_number(token: &Token, symbol_locations: &Vec<Location>) -> (r: Option<u32>)
    ensures
        r == if exists|k: int|
            0 <= k < symbol_locations@.len() && surrounds(*token, symbol_locations@[k]) {
            number_opt(*token)
        } else {
            None
        },
{
    let mut i: usize = 0;
    while i < symbol_locations.len()
        invariant
            i <= symbol_locations@.len(),
            forall|k: int| 0 <= k < i ==> !surrounds(*token, #[trigger] symbol_locations@[k]),
        decreases symbol_locations@.len() - i,
    {
        if in_neighbourhood(token, &symbol_locations[i]) {
            return token.number();
        }
        i = i + 1;
    }
    None
}

impl Gear {
    /// The product of the two numbers.
    pub fn ratio(&self) -> (r: u64)
        ensures
            r == self.adjacent_part_numbers@[0] * self.adjacent_part_numbers@[1],
    {
        let a = self.adjacent_part_numbers[0] as u64;
        let b = self.adjacent_part_numbers[1] as u64;
        assert(a * b <= u32::MAX * u32::MAX) by (nonlinear_arith)
            requires
                a <= u32::MAX,
                b <= u32::MAX,
        ;
        a * b
    }
}

/// Whether `v` holds token `t`.
fn contains_token(v: &Vec<Token>, t: &Token) -> (r: bool)
    ensures
        r == v@.contains(*t),
{
    let mut i: usize = 0;
    while i < v.len()
        invariant
            i <= v@.len(),
            forall|k: int| 0 <= k < i ==> v@[k] != *t,
        decreases v@.len() - i,
    {
        if v[i] == *t {
            return true;
        }
        i = i + 1;
    }
    false
}

/// The gear that `token` is: a `*` whose neighbourhood holds cells of exactly two
/// distinct number tokens of `number_locations`.
pub fn gear(token: &Token, number_locations: &Vec<(Location, Token)>) -> (r: Option<Gear>)
    requires
        forall|k: int|
            0 <= k < number_locations@.len() ==> (#[trigger] number_locations@[k]).1.value is Number,
    ensures
        r is Some <==> (token.value == TokenValue::Symbol('*') && adjacent_entries(
            number_locations@,
            *token,
        ).len() == 2),
        r is Some ==> exists|a: Token, b: Token|
            a != b && adjacent_entries(number_locations@, *token) == set![a, b]
                && r->0.adjacent_part_numbers@ == seq![number_of(a) as u32, number_of(b) as u32],
{
    let ghost adj = adjacent_entries(number_locations@, *token);
    match token.symbol() {
        Some(c) => {
            if c != '*' {
                return None;
            }
        },
        None => {
            return None;
        },
    }
    let mut found: Vec<Token> = Vec::new();
    let mut i: usize = 0;
    while i < number_locations.len()
        invariant
            i <= number_locations@.len(),
            found@.no_duplicates(),
            forall|t: Token| #[trigger]
                found@.contains(t) <==> exists|k: int|
                    0 <= k < i && number_locations@[k].1 == t && surrounds(
                        *token,
                        number_locations@[k].0,
                    ),
        decreases number_locations@.len() - i,
    {
        let (loc, t) = number_locations[i];
        if in_neighbourhood(token, &loc) && !contains_token(&found, &t) {
            let ghost before = found@;
            found.push(t);
            assert forall|u: Token| #[trigger] found@.contains(u) <==> before.contains(u) || u == t by {
                if found@.contains(u) {
                    let m = choose|m: int| 0 <= m < found@.len() && found@[m] == u;
                    if m < before.len() {
                        assert(before[m] == u);
                    }
                }
                if before.contains(u) {
                    let m = choose|m: int| 0 <= m < before.len() && before[m] == u;
                    assert(found@[m] == u);
                }
                assert(found@[before.len() as int] == t);
            }
        }
        assert forall|u: Token| #[trigger]
            found@.contains(u) <==> exists|k: int|
                0 <= k < i + 1 && number_locations@[k].1 == u && surrounds(
                    *token,
                    number_locations@[k].0,
                ) by {
            if u == t && surrounds(*token, loc) {
                assert(number_locations@[i as int].1 == u);
            }
        }
        i = i + 1;
    }
    proof {
        assert(found@.to_set() =~= adj);
        found@.unique_seq_to_set();
    }
    if found.len() == 2 {
        let a = found[0];
        let b = found[1];
        proof {
            assert(found@.contains(a));
            assert(found@.contains(b));
            assert(found@.to_set() =~= set![a, b]);
            assert(a.value is Number);
            assert(b.value is Number);
        }
        let x = match a.number() {
            Some(n) => n,
            None => 0,
        };
        let y = match b.number() {
            Some(n) => n,
            None => 0,
        };
        let g = Gear { adjacent_part_numbers: [x, y] };
        assert(g.adjacent_part_numbers@ =~= seq![number_of(a) as u32, number_of(b) as u32]);
        Some(g)
    } else {
        None
    }
}

/// A sum result: the sum if it fits in a `u64`, else an overflow.
pub open spec fn sum_result(total: int) -> Result<u64, SchematicError> {
    if total <= u64::MAX {
        Ok(total as u64)
    } else {
        Err(SchematicError::Overflow)
    }
}

/// The sum of the part numbers of a schematic text, or the first error met.
pub open spec fn part_number_total(s: Seq<char>) -> Result<u64, SchematicError> {
    match tokens_of(s) {
        Ok(ts) => sum_result(part_sum(ts, ts.len() as int)),
        Err(e) => Err(e),
    }
}

/// The sum of the gear ratios of a schematic text, or the first error met.
pub open spec fn gear_ratio_total(s: Seq<char>) -> Result<u64, SchematicError> {
    match tokens_of(s) {
        Ok(ts) => sum_result(gear_sum(ts, ts.len() as int)),
        Err(e) => Err(e),
    }
}

/// Part sums only grow.
pub proof fn lemma_part_sum_monotone(ts: Seq<Token>, j: int, k: int)
    requires
        0 <= j <= k,
    ensures
        part_sum(ts, j) <= part_sum(ts, k),
    decreases k - j,
{
    if j < k {
        lemma_part_sum_monotone(ts, j, k - 1);
    }
}

/// A gear ratio is never negative.
pub proof fn lemma_gear_ratio_nonnegative(ts: Seq<Token>, g: Token)
    ensures
        gear_ratio(ts, g) >= 0,
{
    let adj = adjacent_numbers(ts, g);
    let a = adj.choose();
    let b = adj.remove(a).choose();
    assert(number_of(a) * number_of(b) >= 0) by (nonlinear_arith)
        requires
            number_of(a) >= 0,
            number_of(b) >= 0,
    ;
}

/// Gear sums only grow.
pub proof fn lemma_gear_sum_monotone(ts: Seq<Token>, j: int, k: int)
    requires
        0 <= j <= k,
    ensures
        gear_sum(ts, j) <= gear_sum(ts, k),
    decreases k - j,
{
    if j < k {
        lemma_gear_sum_monotone(ts, j, k - 1);
        lemma_gear_ratio_nonnegative(ts, ts[k - 1]);
    }
}

/// Sums the part numbers of a schematic: the numbers with a symbol in their
/// neighbourhood.
pub fn sum_of_part_numbers(contents: &str) -> (r: Result<u64, SchematicError>)
    requires
        contents@.len() <= u32::MAX,
    ensures
        r == part_number_total(contents@),
{
    let tokens = match parse_tokens(contents) {
        Ok(t) => t,
        Err(e) => {
            return Err(e);
        },
    };
    let ghost ts = tokens@;
    let symbols = symbol_locations(&tokens);
    let mut sum: u64 = 0;
    let mut i: usize = 0;
    while i < tokens.len()
        invariant
            ts == tokens@,
            tokens_of(contents@) == Ok::<Seq<Token>, SchematicError>(ts),
            i <= ts.len(),
            sum == part_sum(ts, i as int),
            forall|l: Location| #[trigger]
                symbols@.contains(l) <==> exists|k: int|
                    0 <= k < ts.len() && ts[k].value is Symbol && covers(ts[k], l),
        decreases ts.len() - i,
    {
        let t = tokens[i];
        let found = part_number(&t, &symbols);
        proof {
            if is_part_number(ts, t) {
                let (k, l) = choose|k: int, l: Location|
                    0 <= k < ts.len() && ts[k].value is Symbol && covers(ts[k], l) && surrounds(t, l);
                assert(symbols@.contains(l));
                let m = choose|m: int| 0 <= m < symbols@.len() && symbols@[m] == l;
                assert(surrounds(t, symbols@[m]));
            }
            if exists|k: int| 0 <= k < symbols@.len() && surrounds(t, symbols@[k]) {
                let k = choose|k: int| 0 <= k < symbols@.len() && surrounds(t, symbols@[k]);
                assert(symbols@.contains(symbols@[k]));
            }
        }
        match found {
            Some(n) => {
                match sum.checked_add(n as u64) {
                    Some(v) => {
                        sum = v;
                    },
                    None => {
                        proof {
                            lemma_part_sum_monotone(ts, i + 1, ts.len() as int);
                        }
                        return Err(SchematicError::Overflow);
                    },
                }
            },
            None => {},
        }
        i = i + 1;
    }
    Ok(sum)
}

/// Sums the ratios of the gears of a schematic: the `*` symbols with exactly
/// two distinct numbers in their neighbourhood.
pub fn sum_of_gear_ratios(contents: &str) -> (r: Result<u64, SchematicError>)
    requires
        contents@.len() <= u32::MAX,
    ensures
        r == gear_ratio_total(contents@),
{
    let tokens = match parse_tokens(contents) {
        Ok(t) => t,
        Err(e) => {
            return Err(e);
        },
    };
    let ghost ts = tokens@;
    let numbers = number_locations(&tokens);
    proof {
        assert forall|k: int| 0 <= k < numbers@.len() implies (#[trigger] numbers@[k]).1.value is Number by {
            assert(numbers@.contains((numbers@[k].0, numbers@[k].1)));
        }
    }
    let mut sum: u64 = 0;
    let mut i: usize = 0;
    while i < tokens.len()
        invariant
            ts == tokens@,
            tokens_of(contents@) == Ok::<Seq<Token>, SchematicError>(ts),
            i <= ts.len(),
            sum == gear_sum(ts, i as int),
            forall|l: Location, t: Token| #[trigger]
                numbers@.contains((l, t)) <==> (ts.contains(t) && t.value is Number && covers(t, l)),
            forall|k: int| 0 <= k < numbers@.len() ==> (#[trigger] numbers@[k]).1.value is Number,
        decreases ts.len() - i,
    {
        let t = tokens[i];
        let found = gear(&t, &numbers);
        proof {
            assert forall|u: Token|
                adjacent_entries(numbers@, t).contains(u) <==> #[trigger] adjacent_numbers(ts, t).contains(u) by {
                if adjacent_entries(numbers@, t).contains(u) {
                    let k = choose|k: int| 0 <= k < numbers@.len() && numbers@[k].1 == u && surrounds(t, numbers@[k].0);
                    assert(numbers@.contains((numbers@[k].0, u)));
                }
                if adjacent_numbers(ts, t).contains(u) {
                    let l = choose|l: Location| covers(u, l) && surrounds(t, l);
                    assert(numbers@.contains((l, u)));
                    let k = choose|k: int| 0 <= k < numbers@.len() && numbers@[k] == (l, u);
                    assert(numbers@[k].1 == u && surrounds(t, numbers@[k].0));
                }
            }
            assert(adjacent_entries(numbers@, t) =~= adjacent_numbers(ts, t));
        }
        match found {
            Some(g) => {
                proof {
                    let (a, b) = choose|a: Token, b: Token|
                        a != b && adjacent_entries(numbers@, t) == set![a, b]
                            && g.adjacent_part_numbers@ == seq![number_of(a) as u32, number_of(b) as u32];
                    lemma_pair_product(a, b);
                }
                let ratio = g.ratio();
                match sum.checked_add(ratio) {
                    Some(v) => {
                        sum = v;
                    },
                    None => {
                        proof {
                            lemma_gear_sum_monotone(ts, i + 1, ts.len() as int);
                        }
                        return Err(SchematicError::Overflow);
                    },
                }
            },
            None => {},
        }
        i = i + 1;
    }
    Ok(sum)
}

/// Whether the characters of `line` under token `t` are the ones it was read
/// from: its symbol, or a maximal run of digits whose value is its number.
pub open spec fn token_text_ok(line: Seq<char>, t: Token) -> bool {
    match t.value {
        TokenValue::Symbol(c) => t.col_start == t.col_end && line[t.col_start as int] == c
            && is_symbol_char(c),
        TokenValue::Number(n) => {
            &&& forall|j: int| t.col_start <= j <= t.col_end ==> is_digit(#[trigger] line[j])
            &&& decimal_value(line.subrange(t.col_start as int, t.col_end + 1)) == n
            &&& t.col_start == 0 || !is_digit(line[t.col_start - 1])
            &&& t.col_end + 1 >= line.len() || !is_digit(line[t.col_end + 1])
        },
    }
}

/// Whether no run of digits in `line` starts with a `0`, unless it is that one
/// digit alone.
pub open spec fn no_leading_zero(line: Seq<char>) -> bool {
    forall|j: int|
        0 <= j < line.len() && #[trigger] line[j] == '0' && (j == 0 || !is_digit(line[j - 1]))
            ==> j + 1 >= line.len() || !is_digit(line[j + 1])
}

/// The character of a decimal digit.
pub open spec fn digit_char(v: int) -> char {
    if v == 0 {
        '0'
    } else if v == 1 {
        '1'
    } else if v == 2 {
        '2'
    } else if v == 3 {
        '3'
    } else if v == 4 {
        '4'
    } else if v == 5 {
        '5'
    } else if v == 6 {
        '6'
    } else if v == 7 {
        '7'
    } else if v == 8 {
        '8'
    } else {
        '9'
    }
}

/// The decimal digits of `v`, most significant first, without leading zeros.
pub open spec fn decimal_digits(v: nat) -> Seq<char>
    decreases v,
{
    if v < 10 {
        seq![digit_char(v as int)]
    } else {
        decimal_digits(v / 10).push(digit_char((v % 10) as int))
    }
}

/// How a token is written: its symbol, or its number in decimal.
pub open spec fn token_spelling(t: Token) -> Seq<char> {
    match t.value {
        TokenValue::Symbol(c) => seq![c],
        TokenValue::Number(n) => decimal_digits(n as nat),
    }
}

/// Whether token `t` lies on a row of `ls`, inside it, and holds what its
/// characters there say.
pub open spec fn token_in_text(ls: Seq<Seq<char>>, t: Token) -> bool {
    &&& t.row < ls.len()
    &&& t.col_start <= t.col_end < ls[t.row as int].len()
    &&& token_text_ok(ls[t.row as int], t)
}

proof fn lemma_digit_run_end(line: Seq<char>, i: int)
    requires
        0 <= i,
    ensures
        i + digit_run(line, i) >= line.len() || !is_digit(line[i + digit_run(line, i)]),
    decreases line.len() - i,
{
    if 0 <= i < line.len() && is_digit(line[i]) {
        lemma_digit_run_end(line, i + 1);
    }
}

proof fn lemma_digit_run_digits(line: Seq<char>, i: int)
    requires
        0 <= i,
    ensures
        forall|j: int| i <= j < i + digit_run(line, i) ==> is_digit(#[trigger] line[j]),
    decreases line.len() - i,
{
    if 0 <= i < line.len() && is_digit(line[i]) {
        lemma_digit_run_digits(line, i + 1);
    }
}

/// Each token read from a line, from column `i` on (a column that does not
/// continue a run of digits), lies on that row inside the line, and the
/// characters under it are the ones it was read from.
pub proof fn lemma_line_tokens_match_text(line: Seq<char>, row: u32, i: int)
    requires
        0 <= i,
        i == 0 || i >= line.len() || !is_digit(line[i - 1]) || !is_digit(line[i]),
        line.len() <= u32::MAX,
        scan_line(line, row, i) is Ok,
    ensures
        forall|k: int|
            0 <= k < scan_line(line, row, i)->Ok_0.len() ==> {
                let t = #[trigger] scan_line(line, row, i)->Ok_0[k];
                &&& t.row == row
                &&& i <= t.col_start <= t.col_end < line.len()
                &&& token_text_ok(line, t)
            },
    decreases line.len() - i,
{
    if i < line.len() {
        let c = line[i];
        if c == '.' {
            lemma_line_tokens_match_text(line, row, i + 1);
        } else if is_digit(c) {
            let n = 1 + digit_run(line, i + 1);
            lemma_digit_run_bound(line, i + 1);
            lemma_digit_run_digits(line, i + 1);
            lemma_digit_run_end(line, i + 1);
            lemma_line_tokens_match_text(line, row, i + n);
            let rest = scan_line(line, row, i + n)->Ok_0;
            let all = scan_line(line, row, i)->Ok_0;
            let v = decimal_value(line.subrange(i, i + n));
            assert(v <= u32::MAX);
            assert(all == seq![all[0]] + rest);
            assert(all[0].col_start == i && all[0].col_end == i + n - 1);
            assert(all[0].value == TokenValue::Number(v as u32));
            assert forall|j: int| i <= j <= i + n - 1 implies is_digit(#[trigger] line[j]) by {
                if j > i {
                    assert(i + 1 <= j < i + 1 + digit_run(line, i + 1));
                }
            }
            assert forall|k: int| 0 <= k < all.len() implies {
                let t = #[trigger] all[k];
                &&& t.row == row
                &&& i <= t.col_start <= t.col_end < line.len()
                &&& token_text_ok(line, t)
            } by {
                if k > 0 {
                    assert(all[k] == rest[k - 1]);
                } else {
                    assert(line.subrange(all[0].col_start as int, all[0].col_end + 1) =~= line.subrange(i, i + n));
                    let d = line.subrange(i, i + n);
                    assert forall|j: int| 0 <= j < d.len() implies is_digit(#[trigger] d[j]) by {
                        assert(d[j] == line[i + j]);
                    }
                    lemma_decimal_value_grows(d, d.len() as int);
                    assert(d.subrange(0, d.len() as int) =~= d);
                }
            }
        } else if is_symbol_char(c) {
            lemma_line_tokens_match_text(line, row, i + 1);
            let rest = scan_line(line, row, i + 1)->Ok_0;
            let all = scan_line(line, row, i)->Ok_0;
            assert forall|k: int| 0 <= k < all.len() implies {
                let t = #[trigger] all[k];
                &&& t.row == row
                &&& i <= t.col_start <= t.col_end < line.len()
                &&& token_text_ok(line, t)
            } by {
                if k > 0 {
                    assert(all[k] == rest[k - 1]);
                }
            }
        }
    }
}

proof fn lemma_scan_rows_text(ls: Seq<Seq<char>>, r: int)
    requires
        0 <= r,
        ls.len() <= u32::MAX + 1,
        forall|k: int| 0 <= k < ls.len() ==> #[trigger] ls[k].len() <= u32::MAX,
        scan_rows(ls, r) is Ok,
    ensures
        forall|k: int|
            0 <= k < scan_rows(ls, r)->Ok_0.len() ==> token_in_text(
                ls,
                #[trigger] scan_rows(ls, r)->Ok_0[k],
            ),
    decreases ls.len() - r,
{
    if r < ls.len() {
        let first = scan_line(ls[r], r as u32, 0)->Ok_0;
        lemma_line_tokens_match_text(ls[r], r as u32, 0);
        lemma_scan_rows_text(ls, r + 1);
        let rest = scan_rows(ls, r + 1)->Ok_0;
        let all = scan_rows(ls, r)->Ok_0;
        assert(all == first + rest);
        assert forall|k: int| 0 <= k < all.len() implies token_in_text(ls, #[trigger] all[k]) by {
            if k < first.len() {
                assert(all[k] == first[k]);
                assert(first[k].row == r as u32);
            } else {
                assert(all[k] == rest[k - first.len()]);
            }
        }
    }
}

/// Each token of a schematic lies inside its row of the text, and the characters
/// under it are the ones it was read from: its symbol, or digits whose value is
/// its number.
pub proof fn lemma_tokens_match_text(s: Seq<char>)
    requires
        s.len() <= u32::MAX,
        tokens_of(s) is Ok,
    ensures
        forall|k: int|
            0 <= k < tokens_of(s)->Ok_0.len() ==> token_in_text(
                lines_of(s),
                #[trigger] tokens_of(s)->Ok_0[k],
            ),
{
    crate::text::lemma_lines_bounds(s);
    lemma_scan_rows_text(lines_of(s), 0);
}

/// Digits that start with a non-zero digit, or a single digit, are the decimal
/// spelling of their value.
pub proof fn lemma_digits_spell_value(d: Seq<char>)
    requires
        d.len() >= 1,
        forall|j: int| 0 <= j < d.len() ==> is_digit(#[trigger] d[j]),
        d[0] != '0' || d.len() == 1,
    ensures
        decimal_value(d) >= 0,
        d == decimal_digits(decimal_value(d) as nat),
        d[0] != '0' ==> decimal_value(d) >= 1,
    decreases d.len(),
{
    let p = d.drop_last();
    let x = d.last() as int - '0' as int;
    assert(0 <= x <= 9);
    assert(digit_char(x) == d.last());
    if d.len() == 1 {
        assert(p =~= Seq::<char>::empty());
        assert(decimal_value(p) == 0);
        assert(d =~= seq![d.last()]);
    } else {
        assert(p[0] == d[0]);
        assert forall|j: int| 0 <= j < p.len() implies is_digit(#[trigger] p[j]) by {
            assert(p[j] == d[j]);
        }
        lemma_digits_spell_value(p);
        let v = decimal_value(p);
        assert(decimal_value(d) == v * 10 + x);
        assert((v * 10 + x) / 10 == v && (v * 10 + x) % 10 == x && v * 10 + x >= 10)
            by (nonlinear_arith)
            requires
                v >= 1,
                0 <= x <= 9,
        ;
        assert(d =~= p.push(d.last()));
    }
}

/// In a line with no run of digits that starts with a `0` (but a lone `0`), the
/// characters under a token read from it spell the token: its symbol, or its
/// number in decimal; so a number spans as many columns as it has digits.
pub proof fn lemma_token_spelling(line: Seq<char>, t: Token)
    requires
        t.col_start <= t.col_end < line.len(),
        token_text_ok(line, t),
        no_leading_zero(line),
    ensures
        line.subrange(t.col_start as int, t.col_end + 1) == token_spelling(t),
        t.col_end - t.col_start + 1 == token_spelling(t).len(),
{
    let d = line.subrange(t.col_start as int, t.col_end + 1);
    match t.value {
        TokenValue::Symbol(c) => {
            assert(d =~= seq![c]);
        },
        TokenValue::Number(n) => {
            assert forall|j: int| 0 <= j < d.len() implies is_digit(#[trigger] d[j]) by {
                assert(d[j] == line[t.col_start + j]);
            }
            assert(d[0] == line[t.col_start as int]);
            if d[0] == '0' && d.len() > 1 {
                assert(is_digit(line[t.col_start + 1]));
            }
            lemma_digits_spell_value(d);
        },
    }
}

/// Each token read from a line with no run of digits that starts with a `0` (but
/// a lone `0`) lies on its row, and the characters under it spell it.
pub proof fn lemma_line_tokens_spell_text(line: Seq<char>, row: u32)
    requires
        line.len() <= u32::MAX,
        scan_line(line, row, 0) is Ok,
        no_leading_zero(line),
    ensures
        forall|k: int|
            0 <= k < scan_line(line, row, 0)->Ok_0.len() ==> {
                let t = #[trigger] scan_line(line, row, 0)->Ok_0[k];
                &&& t.row == row
                &&& t.col_start <= t.col_end < line.len()
                &&& line.subrange(t.col_start as int, t.col_end + 1) == token_spelling(t)
            },
{
    lemma_line_tokens_match_text(line, row, 0);
    let ts = scan_line(line, row, 0)->Ok_0;
    assert forall|k: int| 0 <= k < ts.len() implies {
        let t = #[trigger] ts[k];
        &&& t.row == row
        &&& t.col_start <= t.col_end < line.len()
        &&& line.subrange(t.col_start as int, t.col_end + 1) == token_spelling(t)
    } by {
        lemma_token_spelling(line, ts[k]);
    }
}

/// In a schematic whose lines have no run of digits that starts with a `0` (but
/// a lone `0`), the characters under each token spell it, and each number spans
/// as many columns as it has decimal digits.
pub proof fn lemma_tokens_spell_text(s: Seq<char>)
    requires
        s.len() <= u32::MAX,
        tokens_of(s) is Ok,
        forall|r: int| 0 <= r < lines_of(s).len() ==> no_leading_zero(#[trigger] lines_of(s)[r]),
    ensures
        forall|k: int|
            0 <= k < tokens_of(s)->Ok_0.len() ==> {
                let t = #[trigger] tokens_of(s)->Ok_0[k];
                &&& t.row < lines_of(s).len()
                &&& lines_of(s)[t.row as int].subrange(t.col_start as int, t.col_end + 1)
                    == token_spelling(t)
                &&& t.col_end - t.col_start + 1 == token_spelling(t).len()
            },
{
    lemma_tokens_match_text(s);
    let ts = tokens_of(s)->Ok_0;
    assert forall|k: int| 0 <= k < ts.len() implies {
        let t = #[trigger] ts[k];
        &&& t.row < lines_of(s).len()
        &&& lines_of(s)[t.row as int].subrange(t.col_start as int, t.col_end + 1)
            == token_spelling(t)
        &&& t.col_end - t.col_start + 1 == token_spelling(t).len()
    } by {
        assert(token_in_text(lines_of(s), ts[k]));
        lemma_token_spelling(lines_of(s)[ts[k].row as int], ts[k]);
    }
}

/// Closeness is symmetric: if a cell of a one-cell token `g` lies in the
/// neighbourhood of token `n`, a cell of `n` lies in the neighbourhood of `g`.
pub proof fn lemma_surrounds_symmetric(g: Token, n: Token, l: Location)
    requires
        g.col_start == g.col_end,
        n.col_start <= n.col_end,
        covers(g, l),
        surrounds(n, l),
    ensures
        exists|m: Location| covers(n, m) && surrounds(g, m),
{
    let c: u32 = if g.col_start < n.col_start {
        n.col_start
    } else if g.col_start > n.col_end {
        n.col_end
    } else {
        g.col_start
    };
    let m = Location { row: n.row, column: c };
    assert(covers(n, m) && surrounds(g, m));
}

/// A symbol with no number in its neighbourhood adds nothing to either sum: it
/// is no gear, and none of its cells lies in the neighbourhood of a number, so it
/// makes no number a part number.
pub proof fn lemma_isolated_symbol(ts: Seq<Token>, g: Token)
    requires
        g.value is Symbol,
        g.col_start == g.col_end,
        forall|k: int| 0 <= k < ts.len() ==> (#[trigger] ts[k]).col_start <= ts[k].col_end,
        adjacent_numbers(ts, g).is_empty(),
    ensures
        !is_part_number(ts, g),
        gear_ratio(ts, g) == 0,
        forall|k: int, l: Location|
            0 <= k < ts.len() && ts[k].value is Number && covers(g, l) ==> !#[trigger] surrounds(
                ts[k],
                l,
            ),
{
    assert(adjacent_numbers(ts, g).len() == 0);
    assert forall|k: int, l: Location|
        0 <= k < ts.len() && ts[k].value is Number && covers(g, l) implies !#[trigger] surrounds(
            ts[k],
            l,
        ) by {
        if surrounds(ts[k], l) {
            lemma_surrounds_symmetric(g, ts[k], l);
            assert(ts.contains(ts[k]));
            assert(adjacent_numbers(ts, g).contains(ts[k]));
        }
    }
}

proof fn lemma_removal_keeps_terms(ts: Seq<Token>, j: int, x: Token)
    requires
        0 <= j < ts.len(),
        ts[j].value is Symbol,
        ts[j].col_start == ts[j].col_end,
        forall|k: int| 0 <= k < ts.len() ==> (#[trigger] ts[k]).col_start <= ts[k].col_end,
        adjacent_numbers(ts, ts[j]).is_empty(),
        ts.contains(x),
    ensures
        is_part_number(ts.remove(j), x) == is_part_number(ts, x),
        gear_ratio(ts.remove(j), x) == gear_ratio(ts, x),
{
    let rs = ts.remove(j);
    lemma_isolated_symbol(ts, ts[j]);
    if is_part_number(ts, x) {
        let (k, l) = choose|k: int, l: Location|
            0 <= k < ts.len() && ts[k].value is Symbol && covers(ts[k], l) && surrounds(x, l);
        let xi = choose|xi: int| 0 <= xi < ts.len() && ts[xi] == x;
        assert(surrounds(ts[xi], l));
        assert(k != j);
        let k2 = if k < j {
            k
        } else {
            k - 1
        };
        assert(rs[k2] == ts[k]);
    }
    if is_part_number(rs, x) {
        let (k, l) = choose|k: int, l: Location|
            0 <= k < rs.len() && rs[k].value is Symbol && covers(rs[k], l) && surrounds(x, l);
        let k2 = if k < j {
            k
        } else {
            k + 1
        };
        assert(rs[k] == ts[k2]);
    }
    assert forall|t: Token| t.value is Number implies rs.contains(t) == ts.contains(t) by {
        if rs.contains(t) {
            let k = choose|k: int| 0 <= k < rs.len() && rs[k] == t;
            let k2 = if k < j {
                k
            } else {
                k + 1
            };
            assert(ts[k2] == t);
        }
        if ts.contains(t) {
            let k = choose|k: int| 0 <= k < ts.len() && ts[k] == t;
            assert(k != j);
            let k2 = if k < j {
                k
            } else {
                k - 1
            };
            assert(rs[k2] == t);
        }
    }
    assert(adjacent_numbers(rs, x) =~= adjacent_numbers(ts, x));
}

proof fn lemma_removal_sums(ts: Seq<Token>, j: int, k: int)
    requires
        0 <= j < ts.len(),
        0 <= k < ts.len(),
        ts[j].value is Symbol,
        ts[j].col_start == ts[j].col_end,
        forall|i: int| 0 <= i < ts.len() ==> (#[trigger] ts[i]).col_start <= ts[i].col_end,
        adjacent_numbers(ts, ts[j]).is_empty(),
    ensures
        k < j ==> part_sum(ts.remove(j), k) == part_sum(ts, k) && gear_sum(ts.remove(j), k)
            == gear_sum(ts, k),
        k >= j ==> part_sum(ts.remove(j), k) == part_sum(ts, k + 1) && gear_sum(ts.remove(j), k)
            == gear_sum(ts, k + 1),
    decreases k,
{
    let rs = ts.remove(j);
    lemma_isolated_symbol(ts, ts[j]);
    if k > 0 {
        lemma_removal_sums(ts, j, k - 1);
        let src = if k - 1 < j {
            k - 1
        } else {
            k
        };
        assert(rs[k - 1] == ts[src]);
        assert(ts.contains(ts[src]));
        lemma_removal_keeps_terms(ts, j, ts[src]);
    }
    if k == j {
        assert(ts.contains(ts[j]));
        assert(part_sum(ts, k + 1) == part_sum(ts, k));
        assert(gear_sum(ts, k + 1) == gear_sum(ts, k));
    }
}

/// Taking away a symbol that has no number in its neighbourhood changes neither
/// the sum of the part numbers nor the sum of the gear ratios.
pub proof fn lemma_isolated_symbol_removed(ts: Seq<Token>, j: int)
    requires
        0 <= j < ts.len(),
        ts[j].value is Symbol,
        ts[j].col_start == ts[j].col_end,
        forall|k: int| 0 <= k < ts.len() ==> (#[trigger] ts[k]).col_start <= ts[k].col_end,
        adjacent_numbers(ts, ts[j]).is_empty(),
    ensures
        part_sum(ts.remove(j), ts.len() - 1) == part_sum(ts, ts.len() as int),
        gear_sum(ts.remove(j), ts.len() - 1) == gear_sum(ts, ts.len() as int),
{
    lemma_removal_sums(ts, j, ts.len() - 1);
}

/// The symbol token that column `c` of row `row` makes.
pub open spec fn symbol_token_at(line: Seq<char>, row: u32, c: int) -> Token {
    Token { row, col_start: c as u32, col_end: c as u32, value: TokenValue::Symbol(line[c]) }
}

proof fn lemma_digit_run_after_edit(line: Seq<char>, c: int, i: int)
    requires
        0 <= c < line.len(),
        !is_digit(line[c]),
        0 <= i,
    ensures
        digit_run(line.update(c, '.'), i) == digit_run(line, i),
        i <= c ==> i + digit_run(line, i) <= c,
    decreases line.len() - i,
{
    if 0 <= i < line.len() && is_digit(line[i]) {
        lemma_digit_run_after_edit(line, c, i + 1);
    }
}

proof fn lemma_scan_after_edit(line: Seq<char>, row: u32, c: int, i: int)
    requires
        0 <= c < i,
        c < line.len(),
        !is_digit(line[c]),
    ensures
        scan_line(line.update(c, '.'), row, i) == scan_line(line, row, i),
    decreases line.len() - i,
{
    let line2 = line.update(c, '.');
    if i < line.len() {
        assert(line2[i] == line[i]);
        if line[i] == '.' || is_symbol_char(line[i]) {
            lemma_scan_after_edit(line, row, c, i + 1);
        } else if is_digit(line[i]) {
            lemma_digit_run_after_edit(line, c, i + 1);
            let n = 1 + digit_run(line, i + 1);
            lemma_digit_run_bound(line, i + 1);
            assert(line2.subrange(i, i + n) =~= line.subrange(i, i + n));
            lemma_scan_after_edit(line, row, c, i + n);
        }
    }
}

proof fn lemma_scan_erased_symbol(line: Seq<char>, row: u32, c: int, i: int) -> (m: int)
    requires
        0 <= i <= c < line.len(),
        line.len() <= u32::MAX,
        is_symbol_char(line[c]),
        scan_line(line, row, i) is Ok,
    ensures
        0 <= m < scan_line(line, row, i)->Ok_0.len(),
        scan_line(line, row, i)->Ok_0[m] == symbol_token_at(line, row, c),
        scan_line(line.update(c, '.'), row, i) == Ok::<Seq<Token>, SchematicError>(
            scan_line(line, row, i)->Ok_0.remove(m),
        ),
    decreases line.len() - i,
{
    let line2 = line.update(c, '.');
    let ts = scan_line(line, row, i)->Ok_0;
    if i == c {
        lemma_scan_after_edit(line, row, c, c + 1);
        let rest = scan_line(line, row, c + 1)->Ok_0;
        assert(ts == seq![symbol_token_at(line, row, c)] + rest);
        assert(ts.remove(0) =~= rest);
        0
    } else {
        assert(line2[i] == line[i]);
        if line[i] == '.' {
            lemma_scan_erased_symbol(line, row, c, i + 1)
        } else if is_digit(line[i]) {
            lemma_digit_run_after_edit(line, c, i + 1);
            lemma_digit_run_after_edit(line, c, i);
            let n = 1 + digit_run(line, i + 1);
            assert(line2.subrange(i, i + n) =~= line.subrange(i, i + n));
            let m0 = lemma_scan_erased_symbol(line, row, c, i + n);
            let rest = scan_line(line, row, i + n)->Ok_0;
            assert(ts == seq![ts[0]] + rest);
            assert(ts.remove(m0 + 1) =~= seq![ts[0]] + rest.remove(m0));
            m0 + 1
        } else {
            let m0 = lemma_scan_erased_symbol(line, row, c, i + 1);
            let rest = scan_line(line, row, i + 1)->Ok_0;
            assert(ts == seq![ts[0]] + rest);
            assert(ts.remove(m0 + 1) =~= seq![ts[0]] + rest.remove(m0));
            m0 + 1
        }
    }
}

proof fn lemma_rows_after_edit(ls: Seq<Seq<char>>, r: int, line2: Seq<char>, q: int)
    requires
        0 <= r < q,
        r < ls.len(),
    ensures
        scan_rows(ls.update(r, line2), q) == scan_rows(ls, q),
    decreases ls.len() - q,
{
    if q < ls.len() {
        assert(ls.update(r, line2)[q] == ls[q]);
        lemma_rows_after_edit(ls, r, line2, q + 1);
    }
}

proof fn lemma_rows_erased_symbol(ls: Seq<Seq<char>>, r: int, c: int, q: int) -> (m: int)
    requires
        0 <= q <= r < ls.len() <= u32::MAX + 1,
        forall|k: int| 0 <= k < ls.len() ==> #[trigger] ls[k].len() <= u32::MAX,
        0 <= c < ls[r].len(),
        is_symbol_char(ls[r][c]),
        scan_rows(ls, q) is Ok,
    ensures
        0 <= m < scan_rows(ls, q)->Ok_0.len(),
        scan_rows(ls, q)->Ok_0[m] == symbol_token_at(ls[r], r as u32, c),
        scan_rows(ls.update(r, ls[r].update(c, '.')), q) == Ok::<Seq<Token>, SchematicError>(
            scan_rows(ls, q)->Ok_0.remove(m),
        ),
    decreases r - q,
{
    let line2 = ls[r].update(c, '.');
    let ls2 = ls.update(r, line2);
    let first = scan_line(ls[q], q as u32, 0)->Ok_0;
    let all = scan_rows(ls, q)->Ok_0;
    if q == r {
        let m0 = lemma_scan_erased_symbol(ls[r], r as u32, c, 0);
        lemma_rows_after_edit(ls, r, line2, r + 1);
        let rest = scan_rows(ls, r + 1)->Ok_0;
        assert(all == first + rest);
        assert(ls2[r] == line2);
        assert(all.remove(m0) =~= first.remove(m0) + rest);
        m0
    } else {
        assert(ls2[q] == ls[q]);
        let m0 = lemma_rows_erased_symbol(ls, r, c, q + 1);
        let rest = scan_rows(ls, q + 1)->Ok_0;
        assert(all == first + rest);
        assert(all.remove(first.len() + m0) =~= first + rest.remove(m0));
        first.len() + m0
    }
}

/// Replacing a symbol of a schematic by a dot, where no digit lies in the cells
/// around it, changes neither the sum of the part numbers nor the sum of the gear
/// ratios: such a symbol adds nothing to either.
pub proof fn lemma_isolated_symbol_erased(s: Seq<char>, s2: Seq<char>, r: int, c: int)
    requires
        s.len() <= u32::MAX,
        tokens_of(s) is Ok,
        0 <= r < lines_of(s).len(),
        0 <= c < lines_of(s)[r].len(),
        is_symbol_char(lines_of(s)[r][c]),
        lines_of(s2) == lines_of(s).update(r, lines_of(s)[r].update(c, '.')),
        forall|r2: int, c2: int|
            0 <= r2 < lines_of(s).len() && 0 <= c2 < lines_of(s)[r2].len() && r - 1 <= r2 <= r + 1
                && c - 1 <= c2 <= c + 1 ==> !is_digit(#[trigger] lines_of(s)[r2][c2]),
    ensures
        part_number_total(s2) == part_number_total(s),
        gear_ratio_total(s2) == gear_ratio_total(s),
{
    let ls = lines_of(s);
    crate::text::lemma_lines_bounds(s);
    lemma_tokens_match_text(s);
    let ts = tokens_of(s)->Ok_0;
    let m = lemma_rows_erased_symbol(ls, r, c, 0);
    let g = ts[m];
    assert forall|k: int| 0 <= k < ts.len() implies (#[trigger] ts[k]).col_start <= ts[k].col_end by {
        assert(token_in_text(ls, ts[k]));
    }
    assert forall|t: Token| !adjacent_numbers(ts, g).contains(t) by {
        if adjacent_numbers(ts, g).contains(t) {
            let k = choose|k: int| 0 <= k < ts.len() && ts[k] == t;
            let l = choose|l: Location| covers(t, l) && surrounds(g, l);
            assert(token_in_text(ls, t));
            assert(is_digit(ls[t.row as int][l.column as int]));
        }
    }
    assert(adjacent_numbers(ts, g) =~= Set::<Token>::empty());
    lemma_isolated_symbol_removed(ts, m);
}

/// A `*` with exactly two distinct numbers in its neighbourhood adds their
/// product to the gear sum; with one, or with three or more, it adds nothing.
pub proof fn lemma_gear_contribution(ts: Seq<Token>, g: Token)
    requires
        g.value == TokenValue::Symbol('*'),
    ensures
        forall|a: Token, b: Token|
            a != b && adjacent_numbers(ts, g) == set![a, b] ==> gear_ratio(ts, g) == number_of(a)
                * number_of(b),
        adjacent_numbers(ts, g).len() == 1 || adjacent_numbers(ts, g).len() >= 3 ==> gear_ratio(
            ts,
            g,
        ) == 0,
{
    assert forall|a: Token, b: Token|
        a != b && adjacent_numbers(ts, g) == set![a, b] implies gear_ratio(ts, g) == number_of(a)
            * number_of(b) by {
        lemma_pair_product(a, b);
    }
}

proof fn lemma_sums_without_symbols(ts: Seq<Token>, k: int)
    requires
        forall|j: int| 0 <= j < ts.len() ==> (#[trigger] ts[j]).value is Number,
        k <= ts.len(),
    ensures
        part_sum(ts, k) == 0,
        gear_sum(ts, k) == 0,
    decreases k,
{
    if k > 0 {
        lemma_sums_without_symbols(ts, k - 1);
        assert(ts[k - 1].value is Number);
        if is_part_number(ts, ts[k - 1]) {
            let (j, l) = choose|j: int, l: Location|
                0 <= j < ts.len() && ts[j].value is Symbol && covers(ts[j], l) && surrounds(ts[k - 1], l);
            assert(ts[j].value is Number);
        }
    }
}

/// A grid of dots and digits alone has no part numbers and no gears: both sums
/// are zero.
pub proof fn lemma_no_symbols(s: Seq<char>)
    requires
        s.len() <= u32::MAX,
        tokens_of(s) is Ok,
        forall|r: int, j: int|
            0 <= r < lines_of(s).len() && 0 <= j < lines_of(s)[r].len() ==> {
                let c = #[trigger] lines_of(s)[r][j];
                c == '.' || is_digit(c)
            },
    ensures
        part_number_total(s) == Ok::<u64, SchematicError>(0),
        gear_ratio_total(s) == Ok::<u64, SchematicError>(0),
{
    let ts = tokens_of(s)->Ok_0;
    lemma_tokens_match_text(s);
    assert forall|j: int| 0 <= j < ts.len() implies (#[trigger] ts[j]).value is Number by {
        assert(token_in_text(lines_of(s), ts[j]));
        let t = ts[j];
        let c = lines_of(s)[t.row as int][t.col_start as int];
        assert(c == '.' || is_digit(c));
    }
    lemma_sums_without_symbols(ts, ts.len() as int);
}

} // verus!
