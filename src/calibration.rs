//! Calibration values: each line of a text hides digits, written as digits or
//! spelled out in English; its value is its first digit followed by its last.
use vstd::prelude::*;

use crate::text::{chars_of, is_digit, lines, lines_of, views_of, word_at, word_at_exec};

verus! {

pub open spec fn digit_value(c: char) -> int {
    c as int - '0' as int
}

/// The digit spelled out in English at position `i` of `s`, if any.
pub open spec fn spelled_digit(s: Seq<char>, i: int) -> Option<char> {
    if word_at(s, i, seq!['o', 'n', 'e']) {
        Some('1')
    } else if word_at(s, i, seq!['t', 'w', 'o']) {
        Some('2')
    } else if word_at(s, i, seq!['t', 'h', 'r', 'e', 'e']) {
        Some('3')
    } else if word_at(s, i, seq!['f', 'o', 'u', 'r']) {
        Some('4')
    } else if word_at(s, i, seq!['f', 'i', 'v', 'e']) {
        Some('5')
    } else if word_at(s, i, seq!['s', 'i', 'x']) {
        Some('6')
    } else if word_at(s, i, seq!['s', 'e', 'v', 'e', 'n']) {
        Some('7')
    } else if word_at(s, i, seq!['e', 'i', 'g', 'h', 't']) {
        Some('8')
    } else if word_at(s, i, seq!['n', 'i', 'n', 'e']) {
        Some('9')
    } else {
        None
    }
}

/// The digit that starts at position `i` of `s`: a digit character, or a digit
/// spelled out.
pub open spec fn digit_at(s: Seq<char>, i: int) -> Option<char> {
    if is_digit(s[i]) {
        Some(s[i])
    } else {
        spelled_digit(s, i)
    }
}

/// The digits that start at positions `i` and after, in order. Spelled digits may
/// overlap: `"eightwo"` holds an eight and a two.
pub open spec fn digits_from(s: Seq<char>, i: int) -> Seq<char>
    decreases s.len() - i,
{
    if i < 0 || i >= s.len() {
        seq![]
    } else {
        match digit_at(s, i) {
            Some(d) => seq![d] + digits_from(s, i + 1),
            None => digits_from(s, i + 1),
        }
    }
}

/// The calibration value of a line: its first digit and its last digit read as a
/// two-digit number, or `None` for a line without digits.
pub open spec fn calibration_value(s: Seq<char>) -> Option<u32> {
    let d = digits_from(s, 0);
    if d.len() == 0 {
        None
    } else {
        Some((10 * digit_value(d[0]) + digit_value(d.last())) as u32)
    }
}

/// The sum of the calibration values of the first `k` lines of `ls`, or `None`
/// if one of them has no digit.
pub open spec fn calibration_sum(ls: Seq<Seq<char>>, k: int) -> Option<int>
    decreases k,
{
    if k <= 0 {
        Some(0)
    } else {
        match (calibration_sum(ls, k - 1), calibration_value(ls[k - 1])) {
            (Some(total), Some(v)) => Some(total + v),
            _ => None,
        }
    }
}

fn spelled_digit_exec(s: &Vec<char>, i: usize) -> (r: Option<char>)
    ensures
        r == spelled_digit(s@, i as int),
{
    if word_at_exec(s, i, &vec!['o', 'n', 'e']) {
        Some('1')
    } else if word_at_exec(s, i, &vec!['t', 'w', 'o']) {
        Some('2')
    } else if word_at_exec(s, i, &vec!['t', 'h', 'r', 'e', 'e']) {
        Some('3')
    } else if word_at_exec(s, i, &vec!['f', 'o', 'u', 'r']) {
        Some('4')
    } else if word_at_exec(s, i, &vec!['f', 'i', 'v', 'e']) {
        Some('5')
    } else if word_at_exec(s, i, &vec!['s', 'i', 'x']) {
        Some('6')
    } else if word_at_exec(s, i, &vec!['s', 'e', 'v', 'e', 'n']) {
        Some('7')
    } else if word_at_exec(s, i, &vec!['e', 'i', 'g', 'h', 't']) {
        Some('8')
    } else if word_at_exec(s, i, &vec!['n', 'i', 'n', 'e']) {
        Some('9')
    } else {
        None
    }
}

/// The digits of a line, in order, whether written as digits or spelled out.
pub fn tokenize_digits(line: &str) -> (r: Vec<char>)
    ensures
        r@ == digits_from(line@, 0),
{
    digits_in(&chars_of(line))
}

fn digits_in(s: &Vec<char>) -> (r: Vec<char>)
    ensures
        r@ == digits_from(s@, 0),
{
    let mut out: Vec<char> = Vec::new();
    let mut i: usize = 0;
    while i < s.len()
        invariant
            i <= s@.len(),
            out@ + digits_from(s@, i as int) == digits_from(s@, 0),
        decreases s@.len() - i,
    {
        let c = s[i];
        let found = if '0' <= c && c <= '9' {
            Some(c)
        } else {
            spelled_digit_exec(s, i)
        };
        match found {
            Some(d) => {
                let ghost before = out@;
                out.push(d);
                assert(before + digits_from(s@, i as int) =~= out@ + digits_from(s@, i + 1));
            },
            None => {},
        }
        i = i + 1;
    }
    assert(out@ + digits_from(s@, i as int) =~= out@);
    out
}

/// The calibration value of a line, or `None` if it has no digit.
pub fn parse_calibration_value(line: &str) -> (r: Option<u32>)
    ensures
        r == calibration_value(line@),
{
    calibration_value_in(&chars_of(line))
}

fn calibration_value_in(line: &Vec<char>) -> (r: Option<u32>)
    ensures
        r == calibration_value(line@),
        r is Some ==> r->0 <= 99,
{
    let digits = digits_in(line);
    if digits.len() == 0 {
        return None;
    }
    let ghost d = digits@;
    proof {
        lemma_digits_are_digits(line@, 0);
        assert(d.contains(d[0]));
        assert(d.contains(d.last()));
    }
    let first = digits[0];
    let last = digits[digits.len() - 1];
    let value = 10 * (first as u32 - '0' as u32) + (last as u32 - '0' as u32);
    Some(value)
}

/// Every digit found is a digit character.
pub proof fn lemma_digits_are_digits(s: Seq<char>, i: int)
    ensures
        forall|c: char| #[trigger] digits_from(s, i).contains(c) ==> is_digit(c),
    decreases s.len() - i,
{
    if 0 <= i < s.len() {
        lemma_digits_are_digits(s, i + 1);
        let rest = digits_from(s, i + 1);
        match digit_at(s, i) {
            Some(d) => {
                assert forall|c: char| #[trigger] digits_from(s, i).contains(c) implies is_digit(c) by {
                    let k = choose|k: int| 0 <= k < digits_from(s, i).len() && digits_from(s, i)[k] == c;
                    if k > 0 {
                        assert(rest[k - 1] == c);
                        assert(rest.contains(c));
                    }
                }
            },
            None => {},
        }
    }
}

/// Sums the calibration values of the lines of a text; `None` if a line has no
/// digit.
pub fn sum_of_calibration_values(contents: &str) -> (r: Option<u64>)
    requires
        contents@.len() <= u32::MAX,
    ensures
        r == match calibration_sum(lines_of(contents@), lines_of(contents@).len() as int) {
            Some(total) => Some(total as u64),
            None => None::<u64>,
        },
{
    let ls = lines(contents);
    let ghost lv = lines_of(contents@);
    proof {
        crate::text::lemma_lines_bounds(contents@);
    }
    let mut total: u64 = 0;
    let mut i: usize = 0;
    while i < ls.len()
        invariant
            views_of(ls@) == lv,
            lv == lines_of(contents@),
            lv.len() <= u32::MAX + 1,
            i <= lv.len(),
            calibration_sum(lv, i as int) == Some(total as int),
            total <= 99 * i,
        decreases lv.len() - i,
    {
        assert(ls@[i as int]@ == lv[i as int]);
        match calibration_value_in(&ls[i]) {
            Some(v) => {
                total = total + v as u64;
            },
            None => {
                proof {
                    assert(calibration_sum(lv, i + 1) is None);
                    lemma_calibration_sum_stays_none(lv, i + 1, lv.len() as int);
                }
                return None;
            },
        }
        i = i + 1;
    }
    Some(total)
}

/// Once a line without digits is met, the sum stays undefined.
pub proof fn lemma_calibration_sum_stays_none(ls: Seq<Seq<char>>, j: int, k: int)
    requires
        0 <= j <= k,
        calibration_sum(ls, j) is None,
    ensures
        calibration_sum(ls, k) is None,
    decreases k - j,
{
    if j < k {
        lemma_calibration_sum_stays_none(ls, j, k - 1);
    }
}

} // verus!
