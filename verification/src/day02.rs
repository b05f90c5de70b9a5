//! Games of coloured cubes: the greatest number of cubes of each colour
//! that a game shows, which games a given bag allows, and the power of the
//! smallest bag for each game.

use vstd::prelude::*;
use crate::parser::{
    after_spaces, digits_and_rest, lemma_run_props, letters_and_rest, number_of, CharClass, Parser,
};
use crate::sums::{lemma_sum_opt_grows_from, lemma_sum_opt_next, sum_opt};
use crate::text::{decimal_digits, decimal_string, lines, lines_of, views};

verus! {

/// The solver of the cube game puzzle.
#[derive(Clone, Copy, Debug)]
pub struct Day02;

/// One game: its number, and the greatest count of red, of green and of
/// blue cubes that any of its draws shows.
#[derive(Clone, Copy, Debug)]
pub struct Game {
    pub id: u32,
    pub colour_max: (u32, u32, u32),
}

/// The greater of two numbers.
pub open spec fn larger(a: int, b: int) -> int {
    if a >= b {
        a
    } else {
        b
    }
}

/// The text with its first character removed if that is `c`, leading
/// whitespace removed in either case.
pub open spec fn after_optional(s: Seq<char>, c: char) -> Seq<char> {
    let rest = after_spaces(s);
    if rest.len() > 0 && rest[0] == c {
        rest.skip(1)
    } else {
        rest
    }
}

/// The greatest counts after the draws that the text lists, starting from
/// the counts `acc`. A draw is a number and a colour word, `red`, `green`
/// or `blue`; a comma or a semicolon after a draw announces another. `None`
/// where a number or a colour is missing or is not as it should be.
pub open spec fn draws(s: Seq<char>, acc: (int, int, int)) -> Option<(int, int, int)>
    decreases s.len(),
{
    let (digits, s1) = digits_and_rest(after_spaces(s));
    match number_of(digits, u32::MAX as nat) {
        Err(_) => None,
        Ok(quantity) => {
            let (letters, s2) = letters_and_rest(after_spaces(s1));
            let next = if letters == "red"@ {
                Some((larger(acc.0, quantity as int), acc.1, acc.2))
            } else if letters == "green"@ {
                Some((acc.0, larger(acc.1, quantity as int), acc.2))
            } else if letters == "blue"@ {
                Some((acc.0, acc.1, larger(acc.2, quantity as int)))
            } else {
                None
            };
            match next {
                None => None,
                Some(acc2) => {
                    let rest = after_spaces(s2);
                    if rest.len() > 0 && (rest[0] == ',' || rest[0] == ';') {
                        if rest.len() - 1 < s.len() {
                            draws(rest.skip(1), acc2)
                        } else {
                            None
                        }
                    } else {
                        Some(acc2)
                    }
                },
            }
        },
    }
}

/// What a line says of a game: after five characters that are skipped, the
/// number of the game, a colon that may be missing, and the draws.
pub open spec fn game_of(line: Seq<char>) -> Option<(int, (int, int, int))> {
    let s0 = if line.len() >= 5 {
        line.skip(5)
    } else {
        Seq::empty()
    };
    let (digits, s1) = digits_and_rest(after_spaces(s0));
    match number_of(digits, u32::MAX as nat) {
        Err(_) => None,
        Ok(id) => match draws(after_optional(s1, ':'), (0, 0, 0)) {
            Some(m) => Some((id as int, m)),
            None => None,
        },
    }
}

impl Game {
    /// The game as numbers without bounds.
    pub open spec fn model(self) -> (int, (int, int, int)) {
        (
            self.id as int,
            (self.colour_max.0 as int, self.colour_max.1 as int, self.colour_max.2 as int),
        )
    }

    /// Reads a game from its line.
    pub fn from_str(s: &str) -> (r: Result<Game, ()>)
        ensures
            r matches Ok(g) ==> game_of(s@) == Some(g.model()),
            r is Err ==> game_of(s@) is None,
    {
        let mut colour_max: (u32, u32, u32) = (0, 0, 0);
        let mut parser = Parser::new(s);
        let _ = parser.skip(5);
        let id = match parser.parse_int() {
            Ok(id) => id,
            Err(_) => {
                return Err(());
            },
        };
        let _ = parser.step_over(':');
        let ghost start = parser.remaining();
        let red = "red".to_owned();
        let green = "green".to_owned();
        let blue = "blue".to_owned();
        loop
            invariant_except_break
                draws(start, (0, 0, 0)) == draws(
                    parser.remaining(),
                    (colour_max.0 as int, colour_max.1 as int, colour_max.2 as int),
                ),
            invariant
                red@ == "red"@,
                green@ == "green"@,
                blue@ == "blue"@,
                game_of(s@) == match draws(start, (0, 0, 0)) {
                    Some(m) => Some((id as int, m)),
                    None => None,
                },
            ensures
                draws(start, (0, 0, 0)) == Some(
                    (colour_max.0 as int, colour_max.1 as int, colour_max.2 as int),
                ),
            decreases parser.remaining().len(),
        {
            let ghost before = parser.remaining();
            proof {
                lemma_run_props(before, CharClass::Space);
                lemma_run_props(after_spaces(before), CharClass::Digit);
            }
            let quantity = match parser.parse_int() {
                Ok(q) => q,
                Err(_) => {
                    return Err(());
                },
            };
            let ghost middle = parser.remaining();
            proof {
                lemma_run_props(middle, CharClass::Space);
                lemma_run_props(after_spaces(middle), CharClass::Letter);
            }
            let colour = match parser.parse_word() {
                Ok(w) => w,
                Err(_) => {
                    proof {
                        reveal_strlit("red");
                        reveal_strlit("green");
                        reveal_strlit("blue");
                    }
                    return Err(());
                },
            };
            if colour == red {
                if quantity > colour_max.0 {
                    colour_max.0 = quantity;
                }
            } else if colour == green {
                if quantity > colour_max.1 {
                    colour_max.1 = quantity;
                }
            } else if colour == blue {
                if quantity > colour_max.2 {
                    colour_max.2 = quantity;
                }
            } else {
                return Err(());
            }
            let ghost late = parser.remaining();
            proof {
                lemma_run_props(late, CharClass::Space);
            }
            if parser.step_over(',').is_err() {
                if parser.step_over(';').is_err() {
                    proof {
                        lemma_run_props(after_spaces(late), CharClass::Space);
                        assert(after_spaces(after_spaces(late)) == after_spaces(late));
                    }
                    break ;
                }
                proof {
                    lemma_run_props(after_spaces(late), CharClass::Space);
                    assert(after_spaces(after_spaces(late)) == after_spaces(late));
                }
            }
        }
        Ok(Game { id, colour_max })
    }
}

/// Whether a bag of 12 red, 13 green and 14 blue cubes allows the game.
pub open spec fn is_possible(g: (int, (int, int, int))) -> bool {
    g.1.0 <= 12 && g.1.1 <= 13 && g.1.2 <= 14
}

/// What a game adds to the answer of a part: to the first its number where
/// the bag allows it and zero where not, to the second its power, the
/// product of its three greatest counts.
pub open spec fn term(g: (int, (int, int, int)), second: bool) -> int {
    if second {
        g.1.0 * g.1.1 * g.1.2
    } else if is_possible(g) {
        g.0
    } else {
        0
    }
}

/// What every game adds to the answer of a part.
pub open spec fn game_terms(games: Seq<Game>, second: bool) -> Seq<Option<int>> {
    Seq::new(games.len(), |i: int| Some(term(games[i].model(), second)))
}

/// What every line adds to the answer of a part; nothing where the line is
/// no game.
pub open spec fn line_terms(ls: Seq<Seq<char>>, second: bool) -> Seq<Option<int>> {
    Seq::new(
        ls.len(),
        |i: int|
            match game_of(ls[i]) {
                Some(g) => Some(term(g, second)),
                None => None,
            },
    )
}

/// A total as an answer: its decimal digits, or `None` where there is no
/// total or it is beyond 32 bits.
pub open spec fn answer_of(total: Option<int>) -> Option<Seq<char>> {
    match total {
        Some(t) => if 0 <= t <= u32::MAX {
            Some(decimal_digits(t as nat))
        } else {
            None
        },
        None => None,
    }
}

/// The answer of a part for a text: `None` where a line is no game or the
/// total is beyond 32 bits.
pub open spec fn answer(text: Seq<char>, second: bool) -> Option<Seq<char>> {
    answer_of(sum_opt(line_terms(lines_of(text), second)))
}

proof fn lemma_terms_nonneg(games: Seq<Game>, second: bool)
    ensures
        forall|j: int|
            0 <= j < games.len() ==> ((#[trigger] game_terms(games, second)[j]) matches Some(x)
                ==> x >= 0),
{
    assert forall|j: int| 0 <= j < games.len() implies ((#[trigger] game_terms(
        games,
        second,
    )[j]) matches Some(x) ==> x >= 0) by {
        let g = games[j];
        assert(g.colour_max.0 as int * g.colour_max.1 as int * g.colour_max.2 as int >= 0)
            by (nonlinear_arith)
            requires
                g.colour_max.0 >= 0,
                g.colour_max.1 >= 0,
                g.colour_max.2 >= 0,
        ;
    }
}

fn game_term(g: &Game, second: bool) -> (t: u128)
    ensures
        t == term(g.model(), second),
        t <= 0xffff_ffff * 0xffff_ffff * 0xffff_ffff,
{
    if second {
        let (a, b, c) = (g.colour_max.0 as u128, g.colour_max.1 as u128, g.colour_max.2 as u128);
        assert(a * b <= 0xffff_ffff * 0xffff_ffff) by (nonlinear_arith)
            requires
                a <= 0xffff_ffff,
                b <= 0xffff_ffff,
        ;
        let ab = a * b;
        assert(ab * c <= 0xffff_ffff * 0xffff_ffff * 0xffff_ffff) by (nonlinear_arith)
            requires
                ab <= 0xffff_ffff * 0xffff_ffff,
                c <= 0xffff_ffff,
        ;
        ab * c
    } else if g.colour_max.0 <= 12 && g.colour_max.1 <= 13 && g.colour_max.2 <= 14 {
        g.id as u128
    } else {
        0
    }
}

fn total(games: &Vec<Game>, second: bool) -> (r: Option<String>)
    ensures
        r matches Some(s) ==> answer_of(sum_opt(game_terms(games@, second))) == Some(s@),
        r is None ==> answer_of(sum_opt(game_terms(games@, second))) is None,
{
    let ghost terms = game_terms(games@, second);
    proof {
        lemma_terms_nonneg(games@, second);
    }
    let mut acc: u128 = 0;
    let mut i: usize = 0;
    while i < games.len()
        invariant
            i <= games.len(),
            terms == game_terms(games@, second),
            forall|j: int|
                0 <= j < terms.len() ==> ((#[trigger] terms[j]) matches Some(x) ==> x >= 0),
            sum_opt(terms.take(i as int)) == Some(acc as int),
            acc <= 0xffff_ffff,
        decreases games.len() - i,
    {
        proof {
            lemma_sum_opt_next(terms, i as int);
        }
        acc = acc + game_term(&games[i], second);
        if acc > 0xffff_ffff {
            proof {
                lemma_sum_opt_grows_from(terms, i + 1);
            }
            return None;
        }
        i += 1;
    }
    assert(terms.take(games.len() as int) == terms);
    Some(decimal_string(acc as u64))
}

impl Day02 {
    /// Reads the games, one to a line; `None` where a line is no game.
    pub fn parse_input(input: &str) -> (r: Option<Vec<Game>>)
        ensures
            r matches Some(games) ==> games.len() == lines_of(input@).len() && forall|i: int|
                0 <= i < games.len() ==> game_of(lines_of(input@)[i]) == Some(
                    (#[trigger] games[i]).model(),
                ),
            r is None ==> exists|i: int|
                0 <= i < lines_of(input@).len() && game_of(#[trigger] lines_of(input@)[i]) is None,
    {
        let rows = lines(input);
        let ghost ls = lines_of(input@);
        let mut games: Vec<Game> = Vec::new();
        let mut i: usize = 0;
        while i < rows.len()
            invariant
                i <= rows.len(),
                views(rows@) == ls,
                ls == lines_of(input@),
                games.len() == i,
                forall|j: int| 0 <= j < i ==> game_of(ls[j]) == Some((#[trigger] games[j]).model()),
            decreases rows.len() - i,
        {
            assert(rows[i as int]@ == ls[i as int]);
            let line = crate::text::string_of(rows[i].as_slice());
            match Game::from_str(line.as_str()) {
                Ok(g) => {
                    games.push(g);
                },
                Err(_) => {
                    assert(game_of(ls[i as int]) is None);
                    return None;
                },
            }
            i += 1;
        }
        Some(games)
    }

    /// The sum of the numbers of the games that the bag allows.
    pub fn part_one(parsed_input: &Vec<Game>) -> (r: Option<String>)
        ensures
            r matches Some(s) ==> answer_of(sum_opt(game_terms(parsed_input@, false))) == Some(s@),
            r is None ==> answer_of(sum_opt(game_terms(parsed_input@, false))) is None,
    {
        total(parsed_input, false)
    }

    /// The sum of the powers of the games.
    pub fn part_two(parsed_input: &Vec<Game>) -> (r: Option<String>)
        ensures
            r matches Some(s) ==> answer_of(sum_opt(game_terms(parsed_input@, true))) == Some(s@),
            r is None ==> answer_of(sum_opt(game_terms(parsed_input@, true))) is None,
    {
        total(parsed_input, true)
    }

    fn solve_part(input: &str, second: bool) -> (r: Option<String>)
        ensures
            r matches Some(s) ==> answer(input@, second) == Some(s@),
            r is None ==> answer(input@, second) is None,
    {
        let ghost ls = lines_of(input@);
        match Self::parse_input(input) {
            Some(games) => {
                assert(game_terms(games@, second) =~= line_terms(ls, second));
                total(&games, second)
            },
            None => {
                proof {
                    let i = choose|i: int| 0 <= i < ls.len() && game_of(#[trigger] ls[i]) is None;
                    crate::sums::lemma_sum_opt_missing(line_terms(ls, second), i);
                }
                None
            },
        }
    }

    /// Reads the games and answers the first part.
    pub fn solve_part_one(input: &str) -> (r: Option<String>)
        ensures
            r matches Some(s) ==> answer(input@, false) == Some(s@),
            r is None ==> answer(input@, false) is None,
    {
        Self::solve_part(input, false)
    }

    /// Reads the games and answers the second part.
    pub fn solve_part_two(input: &str) -> (r: Option<String>)
        ensures
            r matches Some(s) ==> answer(input@, true) == Some(s@),
            r is None ==> answer(input@, true) is None,
    {
        Self::solve_part(input, true)
    }

    /// Reads the games and answers both parts; `None` where either has no
    /// answer. The flag asks whoever calls to time the work; the answers do
    /// not depend on it.
    pub fn solve(input: &str, include_time: bool) -> (r: Option<(String, String)>)
        ensures
            r matches Some((one, two)) ==> answer(input@, false) == Some(one@) && answer(
                input@,
                true,
            ) == Some(two@),
            r is None ==> answer(input@, false) is None || answer(input@, true) is None,
    {
        match (Self::solve_part(input, false), Self::solve_part(input, true)) {
            (Some(a), Some(b)) => Some((a, b)),
            _ => None,
        }
    }
}

} // verus!
