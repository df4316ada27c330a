//! Scratchcards: each card lists winning numbers and the numbers it has. Its
//! matches score points, and win copies of the cards that follow it.
use vstd::prelude::*;

use std::collections::HashSet;

use crate::text::{
    chars_of, lines, lines_of, parse_all, parse_all_exec, split, split_on, views_of, words,
    words_of,
};
use vstd::arithmetic::power2::pow2;

verus! {

broadcast use vstd::std_specs::hash::group_hash_axioms;

/// A scratchcard: its winning numbers and the numbers it has.
#[derive(Debug, PartialEq)]
pub struct Card {
    pub winning_numbers: HashSet<u32>,
    pub actual_numbers: Vec<u32>,
}

/// The winning numbers and the numbers of a card line: the text after its
/// first `:`, up to any second one, holds the winning numbers, a `|`, and the
/// numbers it has, each list separated by white space; `None` if the line does
/// not have that shape.
pub open spec fn card_of(line: Seq<char>) -> Option<(Set<u32>, Seq<u32>)> {
    let parts = split_on(line, seq![':']);
    if parts.len() < 2 {
        None
    } else {
        let halves = split_on(parts[1], seq!['|']);
        if halves.len() < 2 {
            None
        } else {
            match (parse_all(words_of(halves[0])), parse_all(words_of(halves[1]))) {
                (Some(w), Some(a)) => Some((w.to_set(), a)),
                _ => None,
            }
        }
    }
}

/// How many of the first `k` numbers of `a` are in `w`, counted with repetition.
pub open spec fn match_count(w: Set<u32>, a: Seq<u32>, k: int) -> nat
    decreases k,
{
    if k <= 0 {
        0
    } else {
        match_count(w, a, k - 1) + if w.contains(a[k - 1]) {
            1nat
        } else {
            0nat
        }
    }
}

/// The points of a card with `m` matches: none without a match, else one point
/// doubled for each match after the first.
pub open spec fn points_for(m: nat) -> nat {
    if m == 0 {
        0
    } else {
        pow2((m - 1) as nat)
    }
}

impl Card {
    /// The card's matches: its numbers that are winning numbers.
    pub open spec fn matches(&self) -> nat {
        match_count(self.winning_numbers@, self.actual_numbers@, self.actual_numbers@.len() as int)
    }

    pub fn winning_number_count(&self) -> (r: usize)
        ensures
            r == self.matches(),
    {
        let mut count: usize = 0;
        let mut i: usize = 0;
        while i < self.actual_numbers.len()
            invariant
                i <= self.actual_numbers@.len(),
                count == match_count(self.winning_numbers@, self.actual_numbers@, i as int),
                count <= i,
            decreases self.actual_numbers@.len() - i,
        {
            if self.winning_numbers.contains(&self.actual_numbers[i]) {
                count = count + 1;
            }
            i = i + 1;
        }
        count
    }

    /// The card's points; a card scores at most 2^31 points, so at most 32
    /// matches.
    pub fn points(&self) -> (r: u32)
        requires
            self.matches() <= 32,
        ensures
            r == points_for(self.matches()),
    {
        let n = self.winning_number_count();
        if n == 0 {
            0
        } else {
            let mut p: u32 = 1;
            let mut k: usize = 1;
            proof {
                vstd::arithmetic::power2::lemma2_to64();
            }
            while k < n
                invariant
                    1 <= k <= n <= 32,
                    p == pow2((k - 1) as nat),
                decreases n - k,
            {
                proof {
                    vstd::arithmetic::power2::lemma_pow2_unfold(k as nat);
                    vstd::arithmetic::power2::lemma_pow2_strictly_increases((k - 1) as nat, 31);
                    if k < 32 {
                        vstd::arithmetic::power2::lemma_pow2_strictly_increases(k as nat, 32);
                    }
                    vstd::arithmetic::power2::lemma2_to64();
                }
                p = p * 2;
                k = k + 1;
            }
            p
        }
    }
}

/// Reads one card line; `None` if it does not have the shape of a card.
pub fn parse_card(line: &str) -> (r: Option<Card>)
    ensures
        match r {
            Some(c) => card_of(line@) == Some((c.winning_numbers@, c.actual_numbers@)),
            None => card_of(line@) is None,
        },
{
    parse_card_chars(&chars_of(line))
}

fn parse_card_chars(line: &Vec<char>) -> (r: Option<Card>)
    ensures
        match r {
            Some(c) => card_of(line@) == Some((c.winning_numbers@, c.actual_numbers@)),
            None => card_of(line@) is None,
        },
{
    let colon = vec![':'];
    assert(colon@ =~= seq![':']);
    let parts = split(line, &colon);
    assert(views_of(parts@).len() == parts@.len());
    if parts.len() < 2 {
        return None;
    }
    assert(parts@[1]@ == views_of(parts@)[1]);
    let bar = vec!['|'];
    assert(bar@ =~= seq!['|']);
    let halves = split(&parts[1], &bar);
    assert(views_of(halves@).len() == halves@.len());
    if halves.len() < 2 {
        return None;
    }
    assert(halves@[0]@ == views_of(halves@)[0]);
    assert(halves@[1]@ == views_of(halves@)[1]);
    let winning = match parse_all_exec(&words(&halves[0])) {
        Some(w) => w,
        None => {
            return None;
        },
    };
    let actual = match parse_all_exec(&words(&halves[1])) {
        Some(a) => a,
        None => {
            return None;
        },
    };
    let mut set: HashSet<u32> = HashSet::new();
    let mut i: usize = 0;
    while i < winning.len()
        invariant
            i <= winning@.len(),
            set@ == winning@.subrange(0, i as int).to_set(),
        decreases winning@.len() - i,
    {
        set.insert(winning[i]);
        proof {
            let pre = winning@.subrange(0, i as int);
            let next = winning@.subrange(0, i + 1);
            assert(next =~= pre.push(winning@[i as int]));
            assert forall|x: u32| #[trigger] next.contains(x) <==> pre.contains(x) || x == winning@[i as int] by {
                if next.contains(x) {
                    let k = choose|k: int| 0 <= k < next.len() && next[k] == x;
                    if k < pre.len() {
                        assert(pre[k] == x);
                    }
                }
                if pre.contains(x) {
                    let k = choose|k: int| 0 <= k < pre.len() && pre[k] == x;
                    assert(next[k] == x);
                }
                assert(next[i as int] == winning@[i as int]);
            }
            assert(next.to_set() =~= pre.to_set().insert(winning@[i as int]));
        }
        i = i + 1;
    }
    assert(winning@.subrange(0, i as int) =~= winning@);
    Some(Card { winning_numbers: set, actual_numbers: actual })
}

/// The number of matches of a card read from a line.
pub open spec fn matches_of(c: (Set<u32>, Seq<u32>)) -> nat {
    match_count(c.0, c.1, c.1.len() as int)
}

/// Whether every line of `ls` is a card.
pub open spec fn all_cards(ls: Seq<Seq<char>>) -> bool {
    forall|i: int| 0 <= i < ls.len() ==> (#[trigger] card_of(ls[i])) is Some
}

/// The match counts of the cards of `ls`, in order.
pub open spec fn match_counts(ls: Seq<Seq<char>>) -> Seq<nat> {
    Seq::new(ls.len(), |i: int| matches_of(card_of(ls[i])->0))
}

/// The sum of the points of the first `k` cards of `ls`.
pub open spec fn points_sum(ls: Seq<Seq<char>>, k: int) -> nat
    decreases k,
{
    if k <= 0 {
        0
    } else {
        points_sum(ls, k - 1) + points_for(matches_of(card_of(ls[k - 1])->0))
    }
}

/// How many copies of card `i` one ends up with, where card `k` has `ms[k]`
/// matches and each copy of it wins one copy of each of the `ms[k]` cards after
/// it: the original, and what earlier cards won.
pub open spec fn copies(ms: Seq<nat>, i: nat) -> nat
    decreases i, 1nat, 0nat,
{
    1 + won(ms, i, i)
}

/// How many copies of card `i` the cards before card `j` win.
pub open spec fn won(ms: Seq<nat>, i: nat, j: nat) -> nat
    decreases i, 0nat, j,
{
    if j == 0 {
        0
    } else {
        let k = (j - 1) as nat;
        won(ms, i, k) + if k < i && i <= k + ms[k as int] {
            copies(ms, k)
        } else {
            0
        }
    }
}

/// The number of cards, copies included, among the first `k` cards.
pub open spec fn total_copies(ms: Seq<nat>, k: nat) -> nat
    decreases k,
{
    if k == 0 {
        0
    } else {
        total_copies(ms, (k - 1) as nat) + copies(ms, (k - 1) as nat)
    }
}

/// Reads every line of a text as a card; `None` if one is not a card.
pub fn parse_cards(contents: &str) -> (r: Option<Vec<Card>>)
    ensures
        r is Some <==> all_cards(lines_of(contents@)),
        r is Some ==> r->0@.len() == lines_of(contents@).len(),
        r is Some ==> forall|i: int|
            0 <= i < r->0@.len() ==> card_of(lines_of(contents@)[i]) == Some(
                ((#[trigger] r->0@[i]).winning_numbers@, r->0@[i].actual_numbers@),
            ),
{
    let ls = lines(contents);
    let ghost lv = lines_of(contents@);
    let mut cards: Vec<Card> = Vec::new();
    let mut i: usize = 0;
    while i < ls.len()
        invariant
            views_of(ls@) == lv,
            lv == lines_of(contents@),
            i <= lv.len(),
            cards@.len() == i,
            forall|k: int|
                0 <= k < i ==> card_of(lv[k]) == Some(
                    ((#[trigger] cards@[k]).winning_numbers@, cards@[k].actual_numbers@),
                ),
        decreases lv.len() - i,
    {
        assert(ls@[i as int]@ == lv[i as int]);
        match parse_card_chars(&ls[i]) {
            Some(c) => {
                cards.push(c);
            },
            None => {
                assert(card_of(lv[i as int]) is None);
                return None;
            },
        }
        i = i + 1;
    }
    assert forall|k: int| 0 <= k < lv.len() implies (#[trigger] card_of(lv[k])) is Some by {
        assert(card_of(lv[k]) == Some((cards@[k].winning_numbers@, cards@[k].actual_numbers@)));
    }
    Some(cards)
}

/// Sums the points of the cards of a text; `None` if a line is not a card, or a
/// card has more than 32 matches, which no `u32` can score.
pub fn sum_of_scratchcard_points(contents: &str) -> (r: Option<u64>)
    requires
        contents@.len() <= u32::MAX,
    ensures
        r is Some <==> all_cards(lines_of(contents@)) && forall|i: int|
            0 <= i < lines_of(contents@).len() ==> #[trigger] match_counts(lines_of(contents@))[i]
                <= 32,
        r is Some ==> r->0 == points_sum(lines_of(contents@), lines_of(contents@).len() as int),
{
    let ghost lv = lines_of(contents@);
    let cards = match parse_cards(contents) {
        Some(c) => c,
        None => {
            return None;
        },
    };
    proof {
        crate::text::lemma_lines_bounds(contents@);
    }
    let mut total: u64 = 0;
    let mut i: usize = 0;
    while i < cards.len()
        invariant
            lv == lines_of(contents@),
            all_cards(lv),
            cards@.len() == lv.len() <= u32::MAX + 1,
            forall|k: int|
                0 <= k < cards@.len() ==> card_of(lv[k]) == Some(
                    ((#[trigger] cards@[k]).winning_numbers@, cards@[k].actual_numbers@),
                ),
            i <= lv.len(),
            forall|k: int| 0 <= k < i ==> #[trigger] match_counts(lv)[k] <= 32,
            total == points_sum(lv, i as int),
            total <= i * 0x8000_0000,
        decreases lv.len() - i,
    {
        let card = &cards[i];
        assert(card.matches() == match_counts(lv)[i as int]);
        if card.winning_number_count() > 32 {
            return None;
        }
        let p = card.points();
        proof {
            let m = card.matches();
            if m > 0 {
                vstd::arithmetic::power2::lemma2_to64();
                if m < 32 {
                    vstd::arithmetic::power2::lemma_pow2_strictly_increases((m - 1) as nat, 31);
                }
            }
            assert(p <= 0x8000_0000);
            assert((i + 1) * 0x8000_0000 == i * 0x8000_0000 + 0x8000_0000) by (nonlinear_arith);
            assert((i + 1) * 0x8000_0000 <= (u32::MAX + 1) * 0x8000_0000) by (nonlinear_arith)
                requires
                    i + 1 <= u32::MAX + 1,
            ;
        }
        total = total + p as u64;
        i = i + 1;
    }
    Some(total)
}

/// Copies won by earlier cards only accumulate.
pub proof fn lemma_won_monotone(ms: Seq<nat>, i: nat, j: nat, k: nat)
    requires
        j <= k,
    ensures
        won(ms, i, j) <= won(ms, i, k),
    decreases k - j,
{
    if j < k {
        lemma_won_monotone(ms, i, j, (k - 1) as nat);
    }
}

/// No card has more copies than all cards together.
pub proof fn lemma_copies_within_total(ms: Seq<nat>, i: nat, k: nat)
    requires
        i < k,
    ensures
        copies(ms, i) <= total_copies(ms, k),
        total_copies(ms, i + 1) <= total_copies(ms, k),
    decreases k - i,
{
    if i + 1 < k {
        lemma_copies_within_total(ms, i, (k - 1) as nat);
    }
}

/// Counts the cards one ends up with, copies included, when each copy of a card
/// with `m` matches wins one copy of each of the `m` cards after it (never past
/// the last card). `None` if a line is not a card, or the count does not fit in
/// a `u64`.
pub fn total_scratchcards(contents: &str) -> (r: Option<u64>)
    ensures
        r is Some <==> all_cards(lines_of(contents@)) && total_copies(
            match_counts(lines_of(contents@)),
            lines_of(contents@).len(),
        ) <= u64::MAX,
        r is Some ==> r->0 == total_copies(
            match_counts(lines_of(contents@)),
            lines_of(contents@).len(),
        ),
{
    let ghost lv = lines_of(contents@);
    let cards = match parse_cards(contents) {
        Some(c) => c,
        None => {
            return None;
        },
    };
    let ghost ms = match_counts(lv);
    let n = cards.len();
    let mut counts: Vec<usize> = Vec::new();
    let mut copies_of: Vec<u64> = Vec::new();
    let mut i: usize = 0;
    while i < n
        invariant
            n == cards@.len() == lv.len() == ms.len(),
            ms == match_counts(lv),
            forall|k: int|
                0 <= k < cards@.len() ==> card_of(lv[k]) == Some(
                    ((#[trigger] cards@[k]).winning_numbers@, cards@[k].actual_numbers@),
                ),
            i <= n,
            counts@.len() == i,
            copies_of@.len() == i,
            forall|k: int| 0 <= k < i ==> #[trigger] counts@[k] == ms[k],
            forall|k: int| 0 <= k < i ==> #[trigger] copies_of@[k] == 1,
        decreases n - i,
    {
        assert(cards@[i as int].matches() == ms[i as int]);
        counts.push(cards[i].winning_number_count());
        copies_of.push(1);
        i = i + 1;
    }
    let mut total: u64 = 0;
    let mut i: usize = 0;
    while i < n
        invariant
            n == lv.len() == ms.len() == counts@.len() == copies_of@.len(),
            lv == lines_of(contents@),
            all_cards(lv),
            ms == match_counts(lv),
            forall|k: int| 0 <= k < n ==> #[trigger] counts@[k] == ms[k],
            i <= n,
            forall|t: int| 0 <= t < i ==> #[trigger] copies_of@[t] == copies(ms, t as nat),
            forall|t: int| i <= t < n ==> #[trigger] copies_of@[t] == 1 + won(ms, t as nat, i as nat),
            total == total_copies(ms, i as nat),
        decreases n - i,
    {
        let c = copies_of[i];
        assert(c == copies(ms, i as nat));
        match total.checked_add(c) {
            Some(v) => {
                total = v;
            },
            None => {
                proof {
                    lemma_copies_within_total(ms, i as nat, n as nat);
                }
                return None;
            },
        }
        let last: usize = if counts[i] < n - 1 - i {
            i + counts[i]
        } else {
            n - 1
        };
        let mut t: usize = i + 1;
        while t <= last
            invariant
                n == lv.len() == ms.len() == counts@.len() == copies_of@.len(),
                lv == lines_of(contents@),
                all_cards(lv),
                ms == match_counts(lv),
                forall|k: int| 0 <= k < n ==> #[trigger] counts@[k] == ms[k],
                i < n,
                i < t <= last + 1,
                last < n,
                last == if i + ms[i as int] < n - 1 { i + ms[i as int] } else { n - 1 },
                c == copies(ms, i as nat),
                forall|u: int| 0 <= u <= i ==> #[trigger] copies_of@[u] == copies(ms, u as nat),
                forall|u: int|
                    i < u < t ==> #[trigger] copies_of@[u] == 1 + won(ms, u as nat, (i + 1) as nat),
                forall|u: int| t <= u < n ==> #[trigger] copies_of@[u] == 1 + won(ms, u as nat, i as nat),
                total == total_copies(ms, (i + 1) as nat),
            decreases last + 1 - t,
        {
            let cur = copies_of[t];
            assert(won(ms, t as nat, (i + 1) as nat) == won(ms, t as nat, i as nat) + c);
            match cur.checked_add(c) {
                Some(v) => {
                    copies_of.set(t, v);
                },
                None => {
                    proof {
                        lemma_won_monotone(ms, t as nat, (i + 1) as nat, t as nat);
                        lemma_copies_within_total(ms, t as nat, n as nat);
                    }
                    return None;
                },
            }
            t = t + 1;
        }
        proof {
            assert forall|u: int| i + 1 <= u < n implies #[trigger] copies_of@[u] == 1 + won(
                ms,
                u as nat,
                (i + 1) as nat,
            ) by {
                if u > last {
                    assert(won(ms, u as nat, (i + 1) as nat) == won(ms, u as nat, i as nat));
                }
            }
            assert(copies_of@[i as int] == copies(ms, i as nat));
        }
        i = i + 1;
    }
    Some(total)
}

} // verus!
