//! Calibration values: the first and the last digit of every line, read as
//! a two-digit number, and the sum of those numbers.

use std::collections::VecDeque;
use vstd::prelude::*;
use crate::sums::{lemma_sum_opt_next, lemma_sum_opt_none, sum_opt};
use crate::text::{
    chars_of, decimal_digits, decimal_string, digit, digit_char, digit_value, is_digit, lines,
    lines_of, value_of_digit, views,
};

verus! {

/// The solver of the calibration puzzle.
#[derive(Clone, Copy, Debug)]
pub struct Day01;

/// The English word for the digit `d`, from one to nine.
pub open spec fn word_of(d: nat) -> Seq<char> {
    if d == 1 {
        "one"@
    } else if d == 2 {
        "two"@
    } else if d == 3 {
        "three"@
    } else if d == 4 {
        "four"@
    } else if d == 5 {
        "five"@
    } else if d == 6 {
        "six"@
    } else if d == 7 {
        "seven"@
    } else if d == 8 {
        "eight"@
    } else {
        "nine"@
    }
}

/// Whether the text `state` ends with the text `word`.
pub open spec fn ends_with(state: Seq<char>, word: Seq<char>) -> bool {
    state.len() >= word.len() && state.subrange(state.len() - word.len(), state.len() as int)
        == word
}

/// The digit whose word the text ends with, trying the words from `d`
/// upward to nine.
pub open spec fn spelled_from(state: Seq<char>, d: nat) -> Option<char>
    decreases 10 - d,
{
    if d >= 10 {
        None
    } else if ends_with(state, word_of(d)) {
        Some(digit_char(d))
    } else {
        spelled_from(state, d + 1)
    }
}

/// The digit, from one to nine, whose English word the text ends with.
pub open spec fn spelled(state: Seq<char>) -> Option<char> {
    spelled_from(state, 1)
}

fn word_for(d: u64) -> (w: Vec<char>)
    requires
        1 <= d <= 9,
    ensures
        w@ == word_of(d as nat),
{
    if d == 1 {
        chars_of("one")
    } else if d == 2 {
        chars_of("two")
    } else if d == 3 {
        chars_of("three")
    } else if d == 4 {
        chars_of("four")
    } else if d == 5 {
        chars_of("five")
    } else if d == 6 {
        chars_of("six")
    } else if d == 7 {
        chars_of("seven")
    } else if d == 8 {
        chars_of("eight")
    } else {
        chars_of("nine")
    }
}

fn state_ends_with(state: &VecDeque<char>, word: &Vec<char>) -> (b: bool)
    ensures
        b == ends_with(state@, word@),
{
    if state.len() < word.len() {
        return false;
    }
    let from = state.len() - word.len();
    let ghost tail = state@.subrange(from as int, state.len() as int);
    let mut j: usize = 0;
    while j < word.len()
        invariant
            j <= word.len(),
            from + word.len() == state.len(),
            tail == state@.subrange(from as int, state.len() as int),
            forall|t: int| 0 <= t < j ==> tail[t] == word[t],
        decreases word.len() - j,
    {
        if state[from + j] != word[j] {
            assert(tail[j as int] != word[j as int]);
            return false;
        }
        j += 1;
    }
    assert(tail =~= word@);
    true
}

fn char_for(d: u64) -> (c: char)
    requires
        1 <= d <= 9,
    ensures
        c == digit_char(d as nat),
{
    if d == 1 {
        '1'
    } else if d == 2 {
        '2'
    } else if d == 3 {
        '3'
    } else if d == 4 {
        '4'
    } else if d == 5 {
        '5'
    } else if d == 6 {
        '6'
    } else if d == 7 {
        '7'
    } else if d == 8 {
        '8'
    } else {
        '9'
    }
}

/// The digit, from one to nine, whose English word the characters read so
/// far end with; where several words fit, the least digit.
pub fn check_recent_state_for_number(state: &VecDeque<char>) -> (r: Option<char>)
    ensures
        r == spelled(state@),
{
    let mut d: u64 = 1;
    while d < 10
        invariant
            1 <= d <= 10,
            spelled(state@) == spelled_from(state@, d as nat),
        decreases 10 - d,
    {
        let word = word_for(d);
        if state_ends_with(state, &word) {
            return Some(char_for(d));
        }
        d += 1;
    }
    None
}

/// The digits that the first `n` characters of a line show, in order:
/// every ASCII digit, and, where `words` is set, the digit of every English
/// word from one to nine, at the place where the word ends.
pub open spec fn found(line: Seq<char>, n: nat, words: bool) -> Seq<char>
    decreases n,
{
    if n == 0 {
        Seq::empty()
    } else {
        let before = found(line, (n - 1) as nat, words);
        let c = line[n - 1];
        if is_digit(c) {
            before.push(c)
        } else if words && spelled(line.take(n as int)) is Some {
            before.push(spelled(line.take(n as int))->0)
        } else {
            before
        }
    }
}

/// The calibration value of a line: ten times its first digit plus its
/// last; `None` for a line without a digit.
pub open spec fn calibration(line: Seq<char>, words: bool) -> Option<int> {
    let digits = found(line, line.len(), words);
    if digits.len() == 0 {
        None
    } else {
        Some((10 * digit_value(digits.first()) + digit_value(digits.last())) as int)
    }
}

/// The calibration values of the lines.
pub open spec fn calibrations(ls: Seq<Seq<char>>, words: bool) -> Seq<Option<int>> {
    Seq::new(ls.len(), |i: int| calibration(ls[i], words))
}

/// The answer: the sum of the calibration values in decimal digits;
/// `None` where a line has no digit or the sum is beyond 32 bits.
pub open spec fn answer(text: Seq<char>, words: bool) -> Option<Seq<char>> {
    match sum_opt(calibrations(lines_of(text), words)) {
        Some(total) => if 0 <= total <= u32::MAX {
            Some(decimal_digits(total as nat))
        } else {
            None
        },
        None => None,
    }
}

/// Every digit found is an ASCII digit.
proof fn lemma_found_digits(line: Seq<char>, n: nat, words: bool)
    requires
        n <= line.len(),
    ensures
        forall|i: int|
            0 <= i < found(line, n, words).len() ==> is_digit(#[trigger] found(line, n, words)[i]),
    decreases n,
{
    if n > 0 {
        lemma_found_digits(line, (n - 1) as nat, words);
        let before = found(line, (n - 1) as nat, words);
        let all = found(line, n, words);
        if !is_digit(line[n - 1]) && words && spelled(line.take(n as int)) is Some {
            lemma_spelled_digit(line.take(n as int), 1);
        }
        assert forall|i: int| 0 <= i < all.len() implies is_digit(#[trigger] all[i]) by {
            if i < before.len() {
                assert(all[i] == before[i]);
            }
        }
    }
}

proof fn lemma_spelled_digit(state: Seq<char>, d: nat)
    requires
        1 <= d,
        spelled_from(state, d) is Some,
    ensures
        is_digit(spelled_from(state, d)->0),
    decreases 10 - d,
{
    if d < 10 && !ends_with(state, word_of(d)) {
        lemma_spelled_digit(state, d + 1);
    }
}

fn line_value(line: &Vec<char>, words: bool) -> (r: Option<u64>)
    ensures
        r matches Some(v) ==> calibration(line@, words) == Some(v as int) && v <= 99,
        r is None ==> calibration(line@, words) is None,
{
    let mut first: Option<char> = None;
    let mut last: Option<char> = None;
    let mut recent: VecDeque<char> = VecDeque::new();
    let mut i: usize = 0;
    while i < line.len()
        invariant
            i <= line.len(),
            recent@ == line@.take(i as int),
            ({
                let digits = found(line@, i as nat, words);
                if digits.len() == 0 {
                    first is None && last is None
                } else {
                    first == Some(digits.first()) && last == Some(digits.last())
                }
            }),
        decreases line.len() - i,
    {
        let c = line[i];
        recent.push_back(c);
        assert(recent@ == line@.take(i + 1));
        if digit(c) {
            if first.is_none() {
                first = Some(c);
            }
            last = Some(c);
        } else if words {
            if let Some(w) = check_recent_state_for_number(&recent) {
                if first.is_none() {
                    first = Some(w);
                }
                last = Some(w);
            }
        }
        i += 1;
    }
    proof {
        lemma_found_digits(line@, line.len() as nat, words);
    }
    match (first, last) {
        (Some(f), Some(l)) => Some(10 * value_of_digit(f) + value_of_digit(l)),
        _ => None,
    }
}

fn total(input: &str, words: bool) -> (r: Option<String>)
    ensures
        r matches Some(s) ==> answer(input@, words) == Some(s@),
        r is None ==> answer(input@, words) is None,
{
    let rows = lines(input);
    let ghost vals = calibrations(lines_of(input@), words);
    let mut acc: u64 = 0;
    let mut i: usize = 0;
    while i < rows.len()
        invariant
            i <= rows.len(),
            views(rows@) == lines_of(input@),
            vals == calibrations(lines_of(input@), words),
            sum_opt(vals.take(i as int)) == Some(acc as int),
            acc <= 99 * i,
            forall|j: int| 0 <= j < vals.len() ==> ((#[trigger] vals[j]) matches Some(x) ==> x >= 0),
        decreases rows.len() - i,
    {
        assert(rows[i as int]@ == views(rows@)[i as int]);
        proof {
            lemma_sum_opt_next(vals, i as int);
        }
        match line_value(&rows[i], words) {
            Some(v) => {
                if acc > 0xffff_ffff {
                    proof {
                        crate::sums::lemma_sum_opt_grows_from(vals, i as int);
                    }
                    return None;
                }
                acc = acc + v;
            },
            None => {
                proof {
                    lemma_sum_opt_none(vals, i + 1);
                }
                return None;
            },
        }
        i += 1;
    }
    assert(vals.take(rows.len() as int) == vals);
    if acc <= 0xffff_ffff {
        Some(decimal_string(acc))
    } else {
        None
    }
}

impl Day01 {
    /// Keeps the text as it is: both parts read it line by line.
    pub fn parse_input(input: &str) -> (r: String)
        ensures
            r@ == input@,
    {
        input.to_owned()
    }

    /// The sum of the calibration values that the ASCII digits give.
    pub fn part_one(parsed_input: &String) -> (r: Option<String>)
        ensures
            r matches Some(s) ==> answer(parsed_input@, false) == Some(s@),
            r is None ==> answer(parsed_input@, false) is None,
    {
        total(parsed_input.as_str(), false)
    }

    /// The sum of the calibration values that the ASCII digits and the
    /// English words give.
    pub fn part_two(parsed_input: &String) -> (r: Option<String>)
        ensures
            r matches Some(s) ==> answer(parsed_input@, true) == Some(s@),
            r is None ==> answer(parsed_input@, true) is None,
    {
        total(parsed_input.as_str(), true)
    }

    /// Answers the first part for a text.
    pub fn solve_part_one(input: &str) -> (r: Option<String>)
        ensures
            r matches Some(s) ==> answer(input@, false) == Some(s@),
            r is None ==> answer(input@, false) is None,
    {
        total(input, false)
    }

    /// Answers the second part for a text.
    pub fn solve_part_two(input: &str) -> (r: Option<String>)
        ensures
            r matches Some(s) ==> answer(input@, true) == Some(s@),
            r is None ==> answer(input@, true) is None,
    {
        total(input, true)
    }

    /// Answers both parts for a text; `None` where either has no answer.
    /// The flag asks whoever calls to time the work; the answers do not
    /// depend on it.
    pub fn solve(input: &str, include_time: bool) -> (r: Option<(String, String)>)
        ensures
            r matches Some((one, two)) ==> answer(input@, false) == Some(one@) && answer(
                input@,
                true,
            ) == Some(two@),
            r is None ==> answer(input@, false) is None || answer(input@, true) is None,
    {
        let one = total(input, false);
        let two = total(input, true);
        match (one, two) {
            (Some(a), Some(b)) => Some((a, b)),
            _ => None,
        }
    }
}

} // verus!
