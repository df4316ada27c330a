//! Characters and lines of an input text.
use vstd::prelude::*;
use vstd::std_specs::iter::IteratorSpec;

verus! {

/// Drops one carriage return at the end of a line, as a `"\r\n"` ending leaves it.
pub open spec fn strip_cr(l: Seq<char>) -> Seq<char> {
    if l.len() > 0 && l.last() == '\r' {
        l.drop_last()
    } else {
        l
    }
}

/// The lines of `s` from position `i` on, where `cur` is the part of the current
/// line read so far. A line ends at `'\n'` (or `"\r\n"`); a final line needs no
/// ending, and an empty text, or one that ends with its last line ending, has no
/// empty line after it.
pub open spec fn lines_from(s: Seq<char>, i: int, cur: Seq<char>) -> Seq<Seq<char>>
    decreases s.len() - i,
{
    if i >= s.len() {
        if cur.len() > 0 {
            seq![cur]
        } else {
            seq![]
        }
    } else if s[i] == '\n' {
        seq![strip_cr(cur)] + lines_from(s, i + 1, seq![])
    } else {
        lines_from(s, i + 1, cur.push(s[i]))
    }
}

/// The lines of a text.
pub open spec fn lines_of(s: Seq<char>) -> Seq<Seq<char>> {
    lines_from(s, 0, seq![])
}

/// There are at most one more lines than characters after `i`, and no line is
/// longer than the text.
pub proof fn lemma_lines_from_bounds(s: Seq<char>, i: int, cur: Seq<char>)
    requires
        0 <= i <= s.len(),
    ensures
        lines_from(s, i, cur).len() <= s.len() - i + 1,
        forall|k: int|
            0 <= k < lines_from(s, i, cur).len() ==> #[trigger] lines_from(s, i, cur)[k].len()
                <= cur.len() + s.len() - i,
    decreases s.len() - i,
{
    if i < s.len() {
        if s[i] == '\n' {
            lemma_lines_from_bounds(s, i + 1, seq![]);
            let rest = lines_from(s, i + 1, seq![]);
            assert(lines_from(s, i, cur) == seq![strip_cr(cur)] + rest);
            assert forall|k: int| 0 <= k < lines_from(s, i, cur).len() implies #[trigger] lines_from(
                s,
                i,
                cur,
            )[k].len() <= cur.len() + s.len() - i by {
                if k > 0 {
                    assert(lines_from(s, i, cur)[k] == rest[k - 1]);
                }
            }
        } else {
            lemma_lines_from_bounds(s, i + 1, cur.push(s[i]));
        }
    }
}

/// A text has at most one more lines than characters, and no line is longer
/// than the text.
pub proof fn lemma_lines_bounds(s: Seq<char>)
    ensures
        lines_of(s).len() <= s.len() + 1,
        forall|k: int| 0 <= k < lines_of(s).len() ==> #[trigger] lines_of(s)[k].len() <= s.len(),
{
    lemma_lines_from_bounds(s, 0, seq![]);
}

/// The characters of `s`, in order.
pub fn chars_of(s: &str) -> (r: Vec<char>)
    ensures
        r@ == s@,
{
    let mut it = s.chars();
    let mut out: Vec<char> = Vec::new();
    loop
        invariant
            out@ + it.remaining() == s@,
            it.obeys_prophetic_iter_laws(),
            it.decrease() is Some,
        ensures
            out@ == s@,
        decreases it.decrease()->0,
    {
        let ghost before = it;
        match it.next() {
            Some(c) => {
                out.push(c);
            },
            None => {
                assert(out@ =~= s@);
                break;
            },
        }
    }
    out
}

/// The views of a sequence of character vectors.
pub open spec fn views_of(v: Seq<Vec<char>>) -> Seq<Seq<char>> {
    v.map_values(|l: Vec<char>| l@)
}

/// Splits a text into its lines, without their endings.
pub fn lines(s: &str) -> (r: Vec<Vec<char>>)
    ensures
        views_of(r@) == lines_of(s@),
{
    let cs = chars_of(s);
    let mut out: Vec<Vec<char>> = Vec::new();
    let mut cur: Vec<char> = Vec::new();
    let mut i: usize = 0;
    while i < cs.len()
        invariant
            cs@ == s@,
            i <= cs@.len(),
            views_of(out@) + lines_from(s@, i as int, cur@) == lines_of(s@),
        decreases cs@.len() - i,
    {
        let c = cs[i];
        let ghost prev = views_of(out@);
        if c == '\n' {
            let ghost before = cur@;
            if cur.len() > 0 && cur[cur.len() - 1] == '\r' {
                cur.pop();
            }
            assert(cur@ == strip_cr(before));
            out.push(cur);
            cur = Vec::new();
            assert(views_of(out@) =~= prev.push(strip_cr(before)));
            assert(views_of(out@) + lines_from(s@, i + 1, cur@) =~= prev + lines_from(
                s@,
                i as int,
                before,
            ));
        } else {
            cur.push(c);
        }
        i = i + 1;
    }
    if cur.len() > 0 {
        let ghost prev = views_of(out@);
        let ghost last = cur@;
        out.push(cur);
        assert(views_of(out@) =~= prev + seq![last]);
    } else {
        assert(views_of(out@) =~= views_of(out@) + lines_from(s@, i as int, cur@));
    }
    out
}

/// Whether `word` occurs in `s` at position `i`.
pub open spec fn word_at(s: Seq<char>, i: int, word: Seq<char>) -> bool {
    0 <= i && i + word.len() <= s.len() && s.subrange(i, i + word.len()) == word
}

/// The pieces of `s` from position `i` on, cut at each occurrence of `sep` found
/// left to right, where `cur` is the piece read so far. Empty pieces are kept.
pub open spec fn split_from(s: Seq<char>, sep: Seq<char>, i: int, cur: Seq<char>) -> Seq<
    Seq<char>,
>
    decreases s.len() - i,
{
    if i < 0 || i >= s.len() || sep.len() == 0 {
        seq![cur]
    } else if word_at(s, i, sep) {
        seq![cur] + split_from(s, sep, i + sep.len(), seq![])
    } else {
        split_from(s, sep, i + 1, cur.push(s[i]))
    }
}

/// The pieces of `s` between the occurrences of `sep`.
pub open spec fn split_on(s: Seq<char>, sep: Seq<char>) -> Seq<Seq<char>> {
    split_from(s, sep, 0, seq![])
}

/// The characters with the Unicode `White_Space` property.
pub open spec fn is_white_space(c: char) -> bool {
    ('\u{9}' <= c <= '\u{d}') || c == ' ' || c == '\u{85}' || c == '\u{a0}' || c == '\u{1680}'
        || ('\u{2000}' <= c <= '\u{200a}') || c == '\u{2028}' || c == '\u{2029}' || c == '\u{202f}'
        || c == '\u{205f}' || c == '\u{3000}'
}

/// The words of `s` from position `i` on, where `cur` is the word read so far: the
/// non-empty runs of characters between white space.
pub open spec fn words_from(s: Seq<char>, i: int, cur: Seq<char>) -> Seq<Seq<char>>
    decreases s.len() - i,
{
    if i < 0 || i >= s.len() {
        if cur.len() > 0 {
            seq![cur]
        } else {
            seq![]
        }
    } else if is_white_space(s[i]) {
        if cur.len() > 0 {
            seq![cur] + words_from(s, i + 1, seq![])
        } else {
            words_from(s, i + 1, seq![])
        }
    } else {
        words_from(s, i + 1, cur.push(s[i]))
    }
}

/// The words of a text.
pub open spec fn words_of(s: Seq<char>) -> Seq<Seq<char>> {
    words_from(s, 0, seq![])
}

pub open spec fn is_digit(c: char) -> bool {
    '0' <= c <= '9'
}

/// The value of a sequence of decimal digits, most significant first.
pub open spec fn decimal_value(d: Seq<char>) -> int
    decreases d.len(),
{
    if d.len() == 0 {
        0
    } else {
        decimal_value(d.drop_last()) * 10 + (d.last() as int - '0' as int)
    }
}

/// Whether `d` is a non-empty run of decimal digits.
pub open spec fn all_digits(d: Seq<char>) -> bool {
    d.len() > 0 && forall|j: int| 0 <= j < d.len() ==> is_digit(#[trigger] d[j])
}

/// A word without its leading `+`, if it has one.
pub open spec fn unsigned_part(w: Seq<char>) -> Seq<char> {
    if w.len() > 0 && w[0] == '+' {
        w.drop_first()
    } else {
        w
    }
}

/// A `u32` written in decimal, with an optional leading `+`; `None` for anything
/// else, or for a value too large.
pub open spec fn parse_u32(w: Seq<char>) -> Option<u32> {
    let d = unsigned_part(w);
    if all_digits(d) && decimal_value(d) <= u32::MAX {
        Some(decimal_value(d) as u32)
    } else {
        None
    }
}

/// Each word of `ws` read as a `u32`, or `None` if one is not a number.
pub open spec fn parse_all(ws: Seq<Seq<char>>) -> Option<Seq<u32>>
    decreases ws.len(),
{
    if ws.len() == 0 {
        Some(seq![])
    } else {
        match (parse_all(ws.drop_last()), parse_u32(ws.last())) {
            (Some(ns), Some(n)) => Some(ns.push(n)),
            _ => None,
        }
    }
}

/// Whether `word` occurs in `s` at position `i`.
pub fn word_at_exec(s: &Vec<char>, i: usize, word: &Vec<char>) -> (r: bool)
    ensures
        r == word_at(s@, i as int, word@),
{
    if word.len() > s.len() || i > s.len() - word.len() {
        return false;
    }
    let n = s.len();
    let mut j: usize = 0;
    while j < word.len()
        invariant
            n == s@.len(),
            i + word@.len() <= s@.len(),
            j <= word@.len(),
            forall|k: int| 0 <= k < j ==> s@[i + k] == word@[k],
        decreases word@.len() - j,
    {
        if s[i + j] != word[j] {
            assert(s@.subrange(i as int, i + word@.len())[j as int] != word@[j as int]);
            return false;
        }
        j = j + 1;
    }
    assert(s@.subrange(i as int, i + word@.len()) =~= word@);
    true
}

/// Cuts `s` at each occurrence of `sep`, left to right.
pub fn split(s: &Vec<char>, sep: &Vec<char>) -> (r: Vec<Vec<char>>)
    requires
        sep@.len() > 0,
    ensures
        views_of(r@) == split_on(s@, sep@),
{
    let mut out: Vec<Vec<char>> = Vec::new();
    let mut cur: Vec<char> = Vec::new();
    let mut i: usize = 0;
    while i < s.len()
        invariant
            sep@.len() > 0,
            i <= s@.len(),
            views_of(out@) + split_from(s@, sep@, i as int, cur@) == split_on(s@, sep@),
        decreases s@.len() - i,
    {
        let ghost prev = views_of(out@);
        let ghost before = cur@;
        if word_at_exec(s, i, sep) {
            out.push(cur);
            cur = Vec::new();
            assert(views_of(out@) =~= prev.push(before));
            assert(views_of(out@) + split_from(s@, sep@, i + sep@.len(), cur@) =~= prev
                + split_from(s@, sep@, i as int, before));
            i = i + sep.len();
        } else {
            cur.push(s[i]);
            i = i + 1;
        }
    }
    let ghost prev = views_of(out@);
    let ghost last = cur@;
    out.push(cur);
    assert(views_of(out@) =~= prev + seq![last]);
    out
}

fn is_white_space_exec(c: char) -> (r: bool)
    ensures
        r == is_white_space(c),
{
    ('\u{9}' <= c && c <= '\u{d}') || c == ' ' || c == '\u{85}' || c == '\u{a0}' || c == '\u{1680}'
        || ('\u{2000}' <= c && c <= '\u{200a}') || c == '\u{2028}' || c == '\u{2029}' || c
        == '\u{202f}' || c == '\u{205f}' || c == '\u{3000}'
}

/// The words of `s`: its non-empty runs of characters between white space.
pub fn words(s: &Vec<char>) -> (r: Vec<Vec<char>>)
    ensures
        views_of(r@) == words_of(s@),
{
    let mut out: Vec<Vec<char>> = Vec::new();
    let mut cur: Vec<char> = Vec::new();
    let mut i: usize = 0;
    while i < s.len()
        invariant
            i <= s@.len(),
            views_of(out@) + words_from(s@, i as int, cur@) == words_of(s@),
        decreases s@.len() - i,
    {
        let ghost prev = views_of(out@);
        let ghost before = cur@;
        if is_white_space_exec(s[i]) {
            if cur.len() > 0 {
                out.push(cur);
                cur = Vec::new();
                assert(views_of(out@) =~= prev.push(before));
                assert(views_of(out@) + words_from(s@, i + 1, cur@) =~= prev + words_from(
                    s@,
                    i as int,
                    before,
                ));
            } else {
                assert(cur@ =~= Seq::<char>::empty());
            }
        } else {
            cur.push(s[i]);
        }
        i = i + 1;
    }
    if cur.len() > 0 {
        let ghost prev = views_of(out@);
        let ghost last = cur@;
        out.push(cur);
        assert(views_of(out@) =~= prev + seq![last]);
    } else {
        assert(views_of(out@) =~= views_of(out@) + words_from(s@, i as int, cur@));
    }
    out
}

/// Reads a `u32` written in decimal, with an optional leading `+`.
pub fn parse_u32_exec(w: &Vec<char>) -> (r: Option<u32>)
    ensures
        r == parse_u32(w@),
{
    let start: usize = if w.len() > 0 && w[0] == '+' {
        1
    } else {
        0
    };
    let ghost d = unsigned_part(w@);
    assert(d =~= w@.subrange(start as int, w@.len() as int));
    if start >= w.len() {
        assert(!all_digits(d));
        return None;
    }
    let mut value: u64 = 0;
    let mut i: usize = start;
    assert(w@.subrange(start as int, i as int) =~= Seq::<char>::empty());
    assert(decimal_value(Seq::<char>::empty()) == 0);
    while i < w.len()
        invariant
            start <= i <= w@.len(),
            d == unsigned_part(w@),
            d =~= w@.subrange(start as int, w@.len() as int),
            forall|j: int| start <= j < i ==> is_digit(#[trigger] w@[j]),
            value == decimal_value(w@.subrange(start as int, i as int)),
            value <= u32::MAX,
        decreases w@.len() - i,
    {
        let c = w[i];
        if !('0' <= c && c <= '9') {
            assert(d[i - start] == c);
            assert(!all_digits(d));
            return None;
        }
        let ghost prev = w@.subrange(start as int, i as int);
        let ghost next = w@.subrange(start as int, i + 1);
        assert(next.drop_last() =~= prev);
        value = value * 10 + (c as u32 - '0' as u32) as u64;
        if value > u32::MAX as u64 {
            proof {
                if all_digits(d) {
                    lemma_decimal_value_grows(d, i + 1 - start);
                    assert(d.subrange(0, i + 1 - start) =~= next);
                }
            }
            return None;
        }
        i = i + 1;
    }
    assert(w@.subrange(start as int, i as int) =~= d);
    Some(value as u32)
}

/// A longer run of digits has at least the value of its prefix.
pub proof fn lemma_decimal_value_grows(d: Seq<char>, k: int)
    requires
        0 <= k <= d.len(),
        forall|j: int| 0 <= j < d.len() ==> is_digit(#[trigger] d[j]),
    ensures
        decimal_value(d.subrange(0, k)) <= decimal_value(d),
        decimal_value(d.subrange(0, k)) >= 0,
    decreases d.len(),
{
    if d.len() > 0 {
        let p = d.drop_last();
        assert forall|j: int| 0 <= j < p.len() implies is_digit(#[trigger] p[j]) by {
            assert(p[j] == d[j]);
        }
        if k < d.len() {
            lemma_decimal_value_grows(p, k);
            assert(p.subrange(0, k) =~= d.subrange(0, k));
        } else {
            lemma_decimal_value_grows(p, 0);
            assert(d.subrange(0, k) =~= d);
        }
        lemma_decimal_value_grows(p, p.len() as int);
        assert(p.subrange(0, p.len() as int) =~= p);
        let v = decimal_value(p);
        let x = d.last() as int - '0' as int;
        assert(v * 10 + x >= v) by (nonlinear_arith)
            requires
                v >= 0,
                x >= 0,
        ;
    } else {
        assert(d.subrange(0, k) =~= d);
    }
}

/// Reads each word of `ws` as a `u32`; `None` if one is not a number.
pub fn parse_all_exec(ws: &Vec<Vec<char>>) -> (r: Option<Vec<u32>>)
    ensures
        match r {
            Some(v) => parse_all(views_of(ws@)) == Some(v@),
            None => parse_all(views_of(ws@)) is None,
        },
{
    let ghost wv = views_of(ws@);
    let mut out: Vec<u32> = Vec::new();
    let mut i: usize = 0;
    while i < ws.len()
        invariant
            wv == views_of(ws@),
            i <= ws@.len(),
            parse_all(wv.subrange(0, i as int)) == Some(out@),
        decreases ws@.len() - i,
    {
        assert(wv.subrange(0, i + 1).drop_last() =~= wv.subrange(0, i as int));
        assert(wv.subrange(0, i + 1).last() == ws@[i as int]@);
        match parse_u32_exec(&ws[i]) {
            Some(n) => {
                out.push(n);
            },
            None => {
                proof {
                    lemma_parse_all_prefix(wv, i + 1);
                }
                return None;
            },
        }
        i = i + 1;
    }
    assert(wv.subrange(0, i as int) =~= wv);
    Some(out)
}

/// A word that is no number makes every longer list fail.
pub proof fn lemma_parse_all_prefix(ws: Seq<Seq<char>>, k: int)
    requires
        0 <= k <= ws.len(),
        parse_all(ws.subrange(0, k)) is None,
    ensures
        parse_all(ws) is None,
    decreases ws.len() - k,
{
    if k < ws.len() {
        assert(ws.subrange(0, k + 1).drop_last() =~= ws.subrange(0, k));
        lemma_parse_all_prefix(ws, k + 1);
    } else {
        assert(ws.subrange(0, k) =~= ws);
    }
}

} // verus!
