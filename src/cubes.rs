//! Cube games: each game shows draws of red, green and blue cubes from a bag.
use vstd::prelude::*;

use crate::text::{
    chars_of, lines, lines_of, parse_u32, parse_u32_exec, split, split_on, views_of, word_at,
    word_at_exec,
};

verus! {

/// How many cubes of each colour.
#[derive(Clone, Copy, Debug, PartialEq, Eq, Structural)]
pub struct CubeCounts {
    pub red: u32,
    pub green: u32,
    pub blue: u32,
}

/// A game: its number and the draws shown in it.
#[derive(Debug, PartialEq)]
pub struct Game {
    pub id: u32,
    pub cube_draws: Vec<CubeCounts>,
}

/// The red cubes in the bag against which games are checked.
pub const BAG_RED: u32 = 12;

/// The green cubes in the bag.
pub const BAG_GREEN: u32 = 13;

/// The blue cubes in the bag.
pub const BAG_BLUE: u32 = 14;

/// The bag against which games are checked.
pub open spec fn bag() -> CubeCounts {
    CubeCounts { red: BAG_RED, green: BAG_GREEN, blue: BAG_BLUE }
}

pub open spec fn max_u32(a: u32, b: u32) -> u32 {
    if a >= b {
        a
    } else {
        b
    }
}

pub open spec fn subset(a: CubeCounts, b: CubeCounts) -> bool {
    a.red <= b.red && a.green <= b.green && a.blue <= b.blue
}

pub open spec fn max_counts(a: CubeCounts, b: CubeCounts) -> CubeCounts {
    CubeCounts {
        red: max_u32(a.red, b.red),
        green: max_u32(a.green, b.green),
        blue: max_u32(a.blue, b.blue),
    }
}

pub open spec fn no_cubes() -> CubeCounts {
    CubeCounts { red: 0, green: 0, blue: 0 }
}

pub open spec fn power_of(c: CubeCounts) -> int {
    c.red * c.green * c.blue
}

/// The fewest cubes that make the first `k` draws possible: the largest count of
/// each colour among them.
pub open spec fn fewest(draws: Seq<CubeCounts>, k: int) -> CubeCounts
    decreases k,
{
    if k <= 0 {
        no_cubes()
    } else {
        max_counts(fewest(draws, k - 1), draws[k - 1])
    }
}

impl CubeCounts {
    pub fn is_subset_of(&self, other: &CubeCounts) -> (r: bool)
        ensures
            r == subset(*self, *other),
    {
        self.red <= other.red && self.green <= other.green && self.blue <= other.blue
    }

    pub fn empty() -> (r: Self)
        ensures
            r == no_cubes(),
    {
        CubeCounts { red: 0, green: 0, blue: 0 }
    }

    /// The product of the three counts.
    pub fn power(&self) -> (r: u128)
        ensures
            r == power_of(*self),
    {
        let r = self.red as u128;
        let g = self.green as u128;
        assert(r * g <= 0xffff_ffff * 0xffff_ffff) by (nonlinear_arith)
            requires
                r <= 0xffff_ffff,
                g <= 0xffff_ffff,
        ;
        let rg = r * g;
        assert(rg * self.blue <= 0xffff_ffff * 0xffff_ffff * 0xffff_ffff) by (nonlinear_arith)
            requires
                rg <= 0xffff_ffff * 0xffff_ffff,
                self.blue <= 0xffff_ffff,
        ;
        rg * self.blue as u128
    }

    /// The larger count of each colour.
    pub fn max(&self, other: &CubeCounts) -> (r: Self)
        ensures
            r == max_counts(*self, *other),
    {
        CubeCounts {
            red: if self.red >= other.red {
                self.red
            } else {
                other.red
            },
            green: if self.green >= other.green {
                self.green
            } else {
                other.green
            },
            blue: if self.blue >= other.blue {
                self.blue
            } else {
                other.blue
            },
        }
    }
}

/// The fewest cubes of each colour that make every draw of a game possible.
pub fn minimum_set_of_cubes(game: &Game) -> (r: CubeCounts)
    ensures
        r == fewest(game.cube_draws@, game.cube_draws@.len() as int),
{
    let mut current = CubeCounts::empty();
    let mut i: usize = 0;
    while i < game.cube_draws.len()
        invariant
            i <= game.cube_draws@.len(),
            current == fewest(game.cube_draws@, i as int),
        decreases game.cube_draws@.len() - i,
    {
        current = current.max(&game.cube_draws[i]);
        i = i + 1;
    }
    current
}

/// `c` with the count of colour `colour` (0 red, 1 green, 2 blue) set to `n`.
pub open spec fn with_count(c: CubeCounts, n: u32, colour: int) -> CubeCounts {
    if colour == 0 {
        CubeCounts { red: n, green: c.green, blue: c.blue }
    } else if colour == 1 {
        CubeCounts { red: c.red, green: n, blue: c.blue }
    } else {
        CubeCounts { red: c.red, green: c.green, blue: n }
    }
}

/// A piece such as `"3 blue"`: a count, a space and a colour name (0 red, 1
/// green, 2 blue); words after the colour are ignored.
pub open spec fn colour_piece(p: Seq<char>) -> Option<(u32, int)> {
    let toks = split_on(p, seq![' ']);
    if toks.len() < 2 {
        None
    } else {
        match parse_u32(toks[0]) {
            None => None,
            Some(n) => if toks[1] == seq!['r', 'e', 'd'] {
                Some((n, 0))
            } else if toks[1] == seq!['g', 'r', 'e', 'e', 'n'] {
                Some((n, 1))
            } else if toks[1] == seq!['b', 'l', 'u', 'e'] {
                Some((n, 2))
            } else {
                None
            },
        }
    }
}

/// The counts set by the first `k` pieces of a draw, each piece overriding what
/// came before for its colour; colours not named are zero.
pub open spec fn draw_from(pieces: Seq<Seq<char>>, k: int) -> Option<CubeCounts>
    decreases k,
{
    if k <= 0 {
        Some(no_cubes())
    } else {
        match (draw_from(pieces, k - 1), colour_piece(pieces[k - 1])) {
            (Some(c), Some((n, colour))) => Some(with_count(c, n, colour)),
            _ => None,
        }
    }
}

/// A draw such as `"3 blue, 4 red"`: pieces separated by `", "`.
pub open spec fn draw_of(s: Seq<char>) -> Option<CubeCounts> {
    let pieces = split_on(s, seq![',', ' ']);
    draw_from(pieces, pieces.len() as int)
}

/// The first `k` draws of `ds`, or `None` if one of them is malformed.
pub open spec fn draws_from(ds: Seq<Seq<char>>, k: int) -> Option<Seq<CubeCounts>>
    decreases k,
{
    if k <= 0 {
        Some(seq![])
    } else {
        match (draws_from(ds, k - 1), draw_of(ds[k - 1])) {
            (Some(prev), Some(d)) => Some(prev.push(d)),
            _ => None,
        }
    }
}

/// A game line such as `"Game 1: 3 blue, 4 red; 2 green"`: a head whose second
/// word is the game's number, `": "`, and draws separated by `"; "`.
pub open spec fn game_of(line: Seq<char>) -> Option<(u32, Seq<CubeCounts>)> {
    let parts = split_on(line, seq![':', ' ']);
    if parts.len() < 2 {
        None
    } else {
        let head = split_on(parts[0], seq![' ']);
        if head.len() < 2 {
            None
        } else {
            match parse_u32(head[1]) {
                None => None,
                Some(id) => {
                    let ds = split_on(parts[1], seq![';', ' ']);
                    match draws_from(ds, ds.len() as int) {
                        Some(d) => Some((id, d)),
                        None => None,
                    }
                },
            }
        }
    }
}

/// Whether `t` is exactly the word `w`.
fn is_word(t: &Vec<char>, w: &Vec<char>) -> (r: bool)
    ensures
        r == (t@ == w@),
{
    if t.len() != w.len() {
        return false;
    }
    let r = word_at_exec(t, 0, w);
    assert(t@.subrange(0, w@.len() as int) =~= t@);
    r
}

/// Reads a draw such as `"3 blue, 4 red"`; `None` if a piece is not a count and
/// a colour.
pub fn parse_draw(input: &str) -> (r: Option<CubeCounts>)
    ensures
        r == draw_of(input@),
{
    parse_draw_chars(&chars_of(input))
}

fn parse_draw_chars(input: &Vec<char>) -> (r: Option<CubeCounts>)
    ensures
        r == draw_of(input@),
{
    let sep = vec![',', ' '];
    assert(sep@ =~= seq![',', ' ']);
    let pieces = split(input, &sep);
    let ghost pv = views_of(pieces@);
    let space = vec![' '];
    assert(space@ =~= seq![' ']);
    let red = vec!['r', 'e', 'd'];
    assert(red@ =~= seq!['r', 'e', 'd']);
    let green = vec!['g', 'r', 'e', 'e', 'n'];
    assert(green@ =~= seq!['g', 'r', 'e', 'e', 'n']);
    let blue = vec!['b', 'l', 'u', 'e'];
    assert(blue@ =~= seq!['b', 'l', 'u', 'e']);
    let mut counts = CubeCounts { red: 0, green: 0, blue: 0 };
    let mut i: usize = 0;
    while i < pieces.len()
        invariant
            pv == views_of(pieces@),
            pv == split_on(input@, seq![',', ' ']),
            space@ == seq![' '],
            red@ == seq!['r', 'e', 'd'],
            green@ == seq!['g', 'r', 'e', 'e', 'n'],
            blue@ == seq!['b', 'l', 'u', 'e'],
            i <= pieces@.len(),
            draw_from(pv, i as int) == Some(counts),
        decreases pieces@.len() - i,
    {
        assert(pieces@[i as int]@ == pv[i as int]);
        let toks = split(&pieces[i], &space);
        let ghost tv = views_of(toks@);
        assert(tv.len() == toks@.len());
        if toks.len() < 2 {
            proof {
                lemma_draw_from_fails(pv, i + 1);
            }
            return None;
        }
        assert(toks@[0]@ == tv[0]);
        assert(toks@[1]@ == tv[1]);
        let n = match parse_u32_exec(&toks[0]) {
            Some(n) => n,
            None => {
                proof {
                    lemma_draw_from_fails(pv, i + 1);
                }
                return None;
            },
        };
        if is_word(&toks[1], &red) {
            counts.red = n;
        } else if is_word(&toks[1], &green) {
            counts.green = n;
        } else if is_word(&toks[1], &blue) {
            counts.blue = n;
        } else {
            proof {
                lemma_draw_from_fails(pv, i + 1);
            }
            return None;
        }
        i = i + 1;
    }
    Some(counts)
}

/// A malformed piece spoils the whole draw.
pub proof fn lemma_draw_from_fails(pieces: Seq<Seq<char>>, k: int)
    requires
        1 <= k <= pieces.len(),
        draw_from(pieces, k) is None,
    ensures
        draw_from(pieces, pieces.len() as int) is None,
    decreases pieces.len() - k,
{
    if k < pieces.len() {
        lemma_draw_from_fails(pieces, k + 1);
    }
}

/// A malformed draw spoils the whole list.
pub proof fn lemma_draws_from_fails(ds: Seq<Seq<char>>, k: int)
    requires
        1 <= k <= ds.len(),
        draws_from(ds, k) is None,
    ensures
        draws_from(ds, ds.len() as int) is None,
    decreases ds.len() - k,
{
    if k < ds.len() {
        lemma_draws_from_fails(ds, k + 1);
    }
}

/// Reads a game line; `None` if it does not have the shape of a game.
pub fn parse_game(line: &str) -> (r: Option<Game>)
    ensures
        match r {
            Some(g) => game_of(line@) == Some((g.id, g.cube_draws@)),
            None => game_of(line@) is None,
        },
{
    parse_game_chars(&chars_of(line))
}

fn parse_game_chars(line: &Vec<char>) -> (r: Option<Game>)
    ensures
        match r {
            Some(g) => game_of(line@) == Some((g.id, g.cube_draws@)),
            None => game_of(line@) is None,
        },
{
    let colon = vec![':', ' '];
    assert(colon@ =~= seq![':', ' ']);
    let parts = split(line, &colon);
    assert(views_of(parts@).len() == parts@.len());
    if parts.len() < 2 {
        return None;
    }
    assert(parts@[0]@ == views_of(parts@)[0]);
    assert(parts@[1]@ == views_of(parts@)[1]);
    let space = vec![' '];
    assert(space@ =~= seq![' ']);
    let head = split(&parts[0], &space);
    assert(views_of(head@).len() == head@.len());
    if head.len() < 2 {
        return None;
    }
    assert(head@[1]@ == views_of(head@)[1]);
    let id = match parse_u32_exec(&head[1]) {
        Some(n) => n,
        None => {
            return None;
        },
    };
    let semi = vec![';', ' '];
    assert(semi@ =~= seq![';', ' ']);
    let ds = split(&parts[1], &semi);
    let ghost dv = views_of(ds@);
    let mut draws: Vec<CubeCounts> = Vec::new();
    let mut i: usize = 0;
    while i < ds.len()
        invariant
            dv == views_of(ds@),
            dv == split_on(parts@[1]@, seq![';', ' ']),
            views_of(parts@) == split_on(line@, seq![':', ' ']),
            parts@.len() >= 2,
            parts@[0]@ == views_of(parts@)[0],
            parts@[1]@ == views_of(parts@)[1],
            views_of(head@) == split_on(parts@[0]@, seq![' ']),
            head@.len() >= 2,
            head@[1]@ == views_of(head@)[1],
            parse_u32(head@[1]@) == Some(id),
            i <= ds@.len(),
            draws_from(dv, i as int) == Some(draws@),
        decreases ds@.len() - i,
    {
        assert(ds@[i as int]@ == dv[i as int]);
        match parse_draw_chars(&ds[i]) {
            Some(d) => {
                draws.push(d);
            },
            None => {
                proof {
                    lemma_draws_from_fails(dv, i + 1);
                }
                return None;
            },
        }
        i = i + 1;
    }
    Some(Game { id, cube_draws: draws })
}

/// Whether every line of `ls` is a game.
pub open spec fn all_games(ls: Seq<Seq<char>>) -> bool {
    forall|i: int| 0 <= i < ls.len() ==> (#[trigger] game_of(ls[i])) is Some
}

/// Whether every draw of a game fits in the bag.
pub open spec fn possible(draws: Seq<CubeCounts>) -> bool {
    forall|k: int| 0 <= k < draws.len() ==> subset(#[trigger] draws[k], bag())
}

/// The sum of the numbers of the possible games among the first `k` lines.
pub open spec fn possible_ids_sum(ls: Seq<Seq<char>>, k: int) -> int
    decreases k,
{
    if k <= 0 {
        0
    } else {
        let g = game_of(ls[k - 1])->0;
        possible_ids_sum(ls, k - 1) + if possible(g.1) {
            g.0 as int
        } else {
            0
        }
    }
}

/// The sum of the powers of the fewest cubes of the games of the first `k`
/// lines.
pub open spec fn power_sum(ls: Seq<Seq<char>>, k: int) -> int
    decreases k,
{
    if k <= 0 {
        0
    } else {
        let g = game_of(ls[k - 1])->0;
        power_sum(ls, k - 1) + power_of(fewest(g.1, g.1.len() as int))
    }
}

/// Reads every line of a text as a game; `None` if one is not a game.
pub fn parse_games(input: &str) -> (r: Option<Vec<Game>>)
    ensures
        r is Some <==> all_games(lines_of(input@)),
        r is Some ==> r->0@.len() == lines_of(input@).len(),
        r is Some ==> forall|i: int|
            0 <= i < r->0@.len() ==> game_of(lines_of(input@)[i]) == Some(
                ((#[trigger] r->0@[i]).id, r->0@[i].cube_draws@),
            ),
{
    let ls = lines(input);
    let ghost lv = lines_of(input@);
    let mut games: Vec<Game> = Vec::new();
    let mut i: usize = 0;
    while i < ls.len()
        invariant
            views_of(ls@) == lv,
            lv == lines_of(input@),
            i <= lv.len(),
            games@.len() == i,
            forall|k: int|
                0 <= k < i ==> game_of(lv[k]) == Some(
                    ((#[trigger] games@[k]).id, games@[k].cube_draws@),
                ),
        decreases lv.len() - i,
    {
        assert(ls@[i as int]@ == lv[i as int]);
        match parse_game_chars(&ls[i]) {
            Some(g) => {
                games.push(g);
            },
            None => {
                return None;
            },
        }
        i = i + 1;
    }
    assert forall|k: int| 0 <= k < lv.len() implies (#[trigger] game_of(lv[k])) is Some by {
        assert(game_of(lv[k]) == Some((games@[k].id, games@[k].cube_draws@)));
    }
    Some(games)
}

/// Sums the numbers of the games whose every draw fits in the bag of 12 red, 13
/// green and 14 blue cubes; `None` if a line is not a game.
pub fn sum_of_possible_game_ids(input: &str) -> (r: Option<u64>)
    requires
        input@.len() <= u32::MAX,
    ensures
        r is Some <==> all_games(lines_of(input@)),
        r is Some ==> r->0 == possible_ids_sum(lines_of(input@), lines_of(input@).len() as int),
{
    let total_cubes = CubeCounts { red: BAG_RED, green: BAG_GREEN, blue: BAG_BLUE };
    let ghost lv = lines_of(input@);
    let games = match parse_games(input) {
        Some(g) => g,
        None => {
            return None;
        },
    };
    proof {
        crate::text::lemma_lines_bounds(input@);
    }
    let mut sum: u64 = 0;
    let mut i: usize = 0;
    while i < games.len()
        invariant
            lv == lines_of(input@),
            all_games(lv),
            total_cubes == bag(),
            games@.len() == lv.len() <= u32::MAX + 1,
            forall|k: int|
                0 <= k < games@.len() ==> game_of(lv[k]) == Some(
                    ((#[trigger] games@[k]).id, games@[k].cube_draws@),
                ),
            i <= lv.len(),
            sum == possible_ids_sum(lv, i as int),
            sum <= i * 0xffff_ffff,
        decreases lv.len() - i,
    {
        let game = &games[i];
        assert(game_of(lv[i as int]) == Some((game.id, game.cube_draws@)));
        let mut all_fit = true;
        let mut k: usize = 0;
        while k < game.cube_draws.len()
            invariant
                total_cubes == bag(),
                k <= game.cube_draws@.len(),
                all_fit == forall|j: int| 0 <= j < k ==> subset(#[trigger] game.cube_draws@[j], bag()),
            decreases game.cube_draws@.len() - k,
        {
            if !game.cube_draws[k].is_subset_of(&total_cubes) {
                all_fit = false;
            }
            k = k + 1;
        }
        if all_fit {
            assert((i + 1) * 0xffff_ffff == i * 0xffff_ffff + 0xffff_ffff) by (nonlinear_arith);
            assert((i + 1) * 0xffff_ffff <= (u32::MAX + 1) * 0xffff_ffff) by (nonlinear_arith)
                requires
                    i + 1 <= u32::MAX + 1,
            ;
            sum = sum + game.id as u64;
        } else {
            assert((i + 1) * 0xffff_ffff >= i * 0xffff_ffff) by (nonlinear_arith);
        }
        i = i + 1;
    }
    Some(sum)
}

/// Power sums only grow.
pub proof fn lemma_power_sum_monotone(ls: Seq<Seq<char>>, j: int, k: int)
    requires
        0 <= j <= k,
    ensures
        power_sum(ls, j) <= power_sum(ls, k),
    decreases k - j,
{
    if j < k {
        lemma_power_sum_monotone(ls, j, k - 1);
        let g = game_of(ls[k - 1])->0;
        let f = fewest(g.1, g.1.len() as int);
        assert(f.red * f.green * f.blue >= 0) by (nonlinear_arith)
            requires
                f.red >= 0,
                f.green >= 0,
                f.blue >= 0,
        ;
    }
}

/// Sums, over the games, the product of the fewest red, green and blue cubes that
/// make all of a game's draws possible; `None` if a line is not a game, or the
/// sum does not fit in a `u128`.
pub fn power_of_fewest_cubes_per_color(contents: &str) -> (r: Option<u128>)
    ensures
        r is Some <==> all_games(lines_of(contents@)) && power_sum(
            lines_of(contents@),
            lines_of(contents@).len() as int,
        ) <= u128::MAX,
        r is Some ==> r->0 == power_sum(lines_of(contents@), lines_of(contents@).len() as int),
{
    let ghost lv = lines_of(contents@);
    let games = match parse_games(contents) {
        Some(g) => g,
        None => {
            return None;
        },
    };
    let mut sum: u128 = 0;
    let mut i: usize = 0;
    while i < games.len()
        invariant
            lv == lines_of(contents@),
            all_games(lv),
            games@.len() == lv.len(),
            forall|k: int|
                0 <= k < games@.len() ==> game_of(lv[k]) == Some(
                    ((#[trigger] games@[k]).id, games@[k].cube_draws@),
                ),
            i <= lv.len(),
            sum == power_sum(lv, i as int),
        decreases lv.len() - i,
    {
        let game = &games[i];
        assert(game_of(lv[i as int]) == Some((game.id, game.cube_draws@)));
        let power = minimum_set_of_cubes(game).power();
        match sum.checked_add(power) {
            Some(v) => {
                sum = v;
            },
            None => {
                proof {
                    lemma_power_sum_monotone(lv, i + 1, lv.len() as int);
                }
                return None;
            },
        }
        i = i + 1;
    }
    Some(sum)
}

} // verus!
