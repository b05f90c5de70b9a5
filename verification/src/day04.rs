//! Scratchcards: the numbers on each card that win, the points they are
//! worth, and how many cards the winnings add up to when every match wins
//! copies of the cards that follow.

use vstd::prelude::*;
use crate::parser::{
    after_spaces, digits_and_rest, lemma_run_props, number_of, CharClass, Parser,
};
use crate::sums::{lemma_sum_opt_grows_from, lemma_sum_opt_missing, lemma_sum_opt_next, sum_opt};
use crate::text::{decimal_digits, decimal_string, lines, lines_of, string_of, views};

verus! {

/// The solver of the scratchcard puzzle.
#[derive(Clone, Copy, Debug)]
pub struct Day04;

/// A card: those of its own numbers that are among its winning numbers, in
/// the order in which the card lists them.
#[derive(Debug)]
pub struct Card {
    pub winners: Vec<u8>,
}

/// The numbers up to 255 that a text lists, separated by whitespace, added
/// to `acc`, and the text that follows them, without leading whitespace.
/// `None` where a number is greater than 255.
pub open spec fn numbers(s: Seq<char>, acc: Seq<int>) -> Option<(Seq<int>, Seq<char>)>
    decreases s.len(),
{
    let start = after_spaces(s);
    let (digits, rest) = digits_and_rest(start);
    if digits.len() == 0 {
        Some((acc, start))
    } else {
        match number_of(digits, 255) {
            Err(_) => None,
            Ok(v) => if rest.len() < s.len() {
                numbers(rest, acc.push(v as int))
            } else {
                None
            },
        }
    }
}

/// Those of the first `n` numbers of `mine` that are among `winning`.
pub open spec fn matches_of(winning: Seq<int>, mine: Seq<int>, n: nat) -> Seq<int>
    decreases n,
{
    if n == 0 {
        Seq::empty()
    } else {
        let before = matches_of(winning, mine, (n - 1) as nat);
        if winning.contains(mine[n - 1]) {
            before.push(mine[n - 1])
        } else {
            before
        }
    }
}

/// What a line says of a card: after five characters that are skipped, the
/// number of the card, a colon, the winning numbers, a bar and the card's
/// own numbers. The result is the card's matches.
pub open spec fn card_of(line: Seq<char>) -> Option<Seq<int>> {
    if line.len() < 5 {
        None
    } else {
        let (digits, s1) = digits_and_rest(after_spaces(line.skip(5)));
        let colon = after_spaces(s1);
        if number_of(digits, 255) is Err || colon.len() == 0 || colon[0] != ':' {
            None
        } else {
            match numbers(colon.skip(1), Seq::empty()) {
                None => None,
                Some((winning, bar)) => if bar.len() == 0 || bar[0] != '|' {
                    None
                } else {
                    match numbers(bar.skip(1), Seq::empty()) {
                        None => None,
                        Some((mine, _)) => Some(matches_of(winning, mine, mine.len())),
                    }
                },
            }
        }
    }
}

/// The numbers of a vector of bytes.
pub open spec fn ints(v: Seq<u8>) -> Seq<int> {
    Seq::new(v.len(), |i: int| v[i] as int)
}

fn read_numbers(parser: &mut Parser) -> (r: Option<Vec<u8>>)
    ensures
        match numbers(old(parser).remaining(), Seq::empty()) {
            Some((list, rest)) => r matches Some(v) && ints(v@) == list
                && final(parser).remaining() == rest,
            None => r is None,
        },
{
    let mut list: Vec<u8> = Vec::new();
    let ghost start = parser.remaining();
    assert(ints(list@) =~= Seq::<int>::empty());
    loop
        invariant_except_break
            numbers(start, Seq::empty()) == numbers(parser.remaining(), ints(list@)),
        invariant
            start == old(parser).remaining(),
        ensures
            numbers(start, Seq::empty()) == Some((ints(list@), parser.remaining())),
        decreases parser.remaining().len(),
    {
        let ghost before = parser.remaining();
        proof {
            lemma_run_props(before, CharClass::Space);
            lemma_run_props(after_spaces(before), CharClass::Digit);
            lemma_run_props(after_spaces(after_spaces(before)), CharClass::Space);
            assert(after_spaces(after_spaces(before)) == after_spaces(before));
        }
        parser.ignore_whitespace();
        let is_number = match parser.peek() {
            Some(c) => crate::text::digit(c),
            None => false,
        };
        if !is_number {
            break ;
        }
        assert(crate::parser::run(parser.remaining(), CharClass::Digit) >= 1);
        match parser.parse_int_up_to(255) {
            Ok(v) => {
                let ghost earlier = list@;
                list.push(v as u8);
                assert(ints(list@) =~= ints(earlier).push(v as int));
            },
            Err(_) => {
                return None;
            },
        }
    }
    Some(list)
}

fn contains(list: &Vec<u8>, x: u8) -> (b: bool)
    ensures
        b == ints(list@).contains(x as int),
{
    let mut i: usize = 0;
    while i < list.len()
        invariant
            i <= list.len(),
            forall|j: int| 0 <= j < i ==> list[j] != x,
        decreases list.len() - i,
    {
        if list[i] == x {
            assert(ints(list@)[i as int] == x as int);
            return true;
        }
        i += 1;
    }
    assert forall|j: int| 0 <= j < ints(list@).len() implies ints(list@)[j] != x as int by {
        assert(list[j] != x);
    }
    false
}

impl Card {
    /// The matches of the card as numbers without bounds.
    pub open spec fn model(&self) -> Seq<int> {
        ints(self.winners@)
    }

    /// Reads a card from its line.
    pub fn from_line(line: &str) -> (r: Option<Card>)
        ensures
            r matches Some(card) ==> card_of(line@) == Some(card.model()),
            r is None ==> card_of(line@) is None,
    {
        let mut parser = Parser::new(line);
        if parser.skip(5).is_err() {
            return None;
        }
        if parser.parse_int_up_to(255).is_err() {
            return None;
        }
        if parser.step_over(':').is_err() {
            return None;
        }
        let winning = match read_numbers(&mut parser) {
            Some(w) => w,
            None => {
                return None;
            },
        };
        let ghost bar = parser.remaining();
        proof {
            lemma_after_numbers(
                after_spaces(digits_and_rest(after_spaces(line@.skip(5))).1).skip(1),
                Seq::empty(),
            );
            lemma_run_props(bar, CharClass::Space);
            assert(after_spaces(bar) == bar) by {
                assert(bar.skip(0) == bar);
            }
        }
        if parser.step_over('|').is_err() {
            return None;
        }
        let mine = match read_numbers(&mut parser) {
            Some(m) => m,
            None => {
                return None;
            },
        };
        let mut winners: Vec<u8> = Vec::new();
        let mut i: usize = 0;
        assert(ints(winners@) =~= Seq::<int>::empty());
        while i < mine.len()
            invariant
                i <= mine.len(),
                ints(winners@) == matches_of(ints(winning@), ints(mine@), i as nat),
            decreases mine.len() - i,
        {
            if contains(&winning, mine[i]) {
                let ghost earlier = winners@;
                winners.push(mine[i]);
                assert(ints(winners@) =~= ints(earlier).push(mine[i as int] as int));
            }
            i += 1;
        }
        Some(Card { winners })
    }
}

/// The text that follows a list of numbers has no leading whitespace.
proof fn lemma_after_numbers(s: Seq<char>, acc: Seq<int>)
    ensures
        numbers(s, acc) matches Some((_, rest)) ==> rest.len() == 0 || !CharClass::Space.holds(
            rest[0],
        ),
    decreases s.len(),
{
    let start = after_spaces(s);
    let (digits, rest) = digits_and_rest(start);
    lemma_run_props(s, CharClass::Space);
    if digits.len() != 0 {
        if let Ok(v) = number_of(digits, 255) {
            if rest.len() < s.len() {
                lemma_after_numbers(rest, acc.push(v as int));
            }
        }
    }
}

/// Twice doubled `k` times: two to the power of `k`.
pub open spec fn doubled(k: nat) -> nat
    decreases k,
{
    if k == 0 {
        1
    } else {
        2 * doubled((k - 1) as nat)
    }
}

/// The points of a card with `n` matches: one for the first match, and
/// twice as many with every further match.
pub open spec fn points(n: nat) -> int {
    if n == 0 {
        0
    } else {
        doubled((n - 1) as nat) as int
    }
}

proof fn lemma_doubled_grows(a: nat, b: nat)
    requires
        a <= b,
    ensures
        doubled(a) <= doubled(b),
        doubled(a) >= 1,
    decreases b,
{
    if a < b {
        lemma_doubled_grows(a, (b - 1) as nat);
    } else if a > 0 {
        lemma_doubled_grows((a - 1) as nat, (a - 1) as nat);
    }
}

fn card_points(n: usize) -> (r: Option<u64>)
    ensures
        r matches Some(p) ==> p == points(n as nat) && p <= 0x8000_0000,
        r is None ==> points(n as nat) > 0xffff_ffff,
{
    if n == 0 {
        return Some(0);
    }
    if n > 32 {
        proof {
            assert(doubled(32) == 0x1_0000_0000) by {
                reveal_with_fuel(doubled, 33);
            }
            lemma_doubled_grows(32, (n - 1) as nat);
        }
        return None;
    }
    let mut p: u64 = 1;
    let mut k: usize = 0;
    assert(doubled(31) == 0x8000_0000) by {
        reveal_with_fuel(doubled, 32);
    }
    while k < n - 1
        invariant
            k <= n - 1,
            n <= 32,
            p == doubled(k as nat),
            doubled(31) == 0x8000_0000,
        decreases n - 1 - k,
    {
        proof {
            lemma_doubled_grows((k + 1) as nat, 31);
        }
        p = p * 2;
        k += 1;
    }
    proof {
        lemma_doubled_grows(k as nat, 31);
    }
    Some(p)
}

/// The points of every card.
pub open spec fn card_points_of(cards: Seq<Card>) -> Seq<Option<int>> {
    Seq::new(cards.len(), |i: int| Some(points(cards[i].winners.len() as nat)))
}

/// The points of the card of every line; nothing where the line is no
/// card.
pub open spec fn line_points(ls: Seq<Seq<char>>) -> Seq<Option<int>> {
    Seq::new(
        ls.len(),
        |i: int|
            match card_of(ls[i]) {
                Some(m) => Some(points(m.len())),
                None => None,
            },
    )
}

/// A total as an answer: its decimal digits, or `None` where there is no
/// total or it is beyond `max`.
pub open spec fn answer_of(total: Option<int>, max: int) -> Option<Seq<char>> {
    match total {
        Some(t) => if 0 <= t <= max {
            Some(decimal_digits(t as nat))
        } else {
            None
        },
        None => None,
    }
}

/// The copies won of every card after the first `k` cards have paid out:
/// card `i`, of which there are the card itself and the copies won so far,
/// wins with each of them one copy of each of the next cards, as many as it
/// has matches.
pub open spec fn copies_after(wins: Seq<nat>, k: nat) -> Seq<int>
    decreases k,
{
    if k == 0 {
        Seq::new(wins.len(), |j: int| 0int)
    } else {
        let before = copies_after(wins, (k - 1) as nat);
        let gain = before[k - 1] + 1;
        Seq::new(
            wins.len(),
            |j: int|
                if k - 1 < j <= k - 1 + wins[k - 1] {
                    before[j] + gain
                } else {
                    before[j]
                },
        )
    }
}

/// The number of matches of every card.
pub open spec fn wins_of(cards: Seq<Card>) -> Seq<nat> {
    Seq::new(cards.len(), |i: int| cards[i].winners.len() as nat)
}

/// The number of cards in the end: the cards of the table and all copies
/// won.
pub open spec fn pile(wins: Seq<nat>) -> int {
    crate::sums::sum(copies_after(wins, wins.len())) + wins.len()
}

/// The number of matches of the card of every line.
pub open spec fn line_wins(ls: Seq<Seq<char>>) -> Seq<nat> {
    Seq::new(ls.len(), |i: int| card_of(ls[i])->0.len())
}

/// Whether every line is a card.
pub open spec fn all_cards(ls: Seq<Seq<char>>) -> bool {
    forall|i: int| 0 <= i < ls.len() ==> #[trigger] card_of(ls[i]) is Some
}

/// The answer of a part for a text: `None` where a line is no card, or
/// where the total is beyond 32 bits in the first part, beyond the size of
/// the machine's words in the second.
pub open spec fn answer(text: Seq<char>, second: bool) -> Option<Seq<char>> {
    let ls = lines_of(text);
    if second {
        if all_cards(ls) {
            answer_of(Some(pile(line_wins(ls))), usize::MAX as int)
        } else {
            None
        }
    } else {
        answer_of(sum_opt(line_points(ls)), u32::MAX as int)
    }
}

proof fn lemma_copies_props(wins: Seq<nat>, k: nat)
    requires
        k <= wins.len(),
    ensures
        copies_after(wins, k).len() == wins.len(),
        forall|j: int| 0 <= j < wins.len() ==> #[trigger] copies_after(wins, k)[j] >= 0,
    decreases k,
{
    if k > 0 {
        lemma_copies_props(wins, (k - 1) as nat);
    }
}

proof fn lemma_copies_grow(wins: Seq<nat>, k: nat, n: nat, j: int)
    requires
        k <= n <= wins.len(),
        0 <= j < wins.len(),
    ensures
        copies_after(wins, k)[j] <= copies_after(wins, n)[j],
    decreases n,
{
    if k < n {
        lemma_copies_grow(wins, k, (n - 1) as nat, j);
        lemma_copies_props(wins, (n - 1) as nat);
    }
}

proof fn lemma_sum_bounds(s: Seq<int>, j: int)
    requires
        forall|i: int| 0 <= i < s.len() ==> #[trigger] s[i] >= 0,
        0 <= j < s.len(),
    ensures
        crate::sums::sum(s) >= s[j],
        crate::sums::sum(s) >= 0,
    decreases s.len(),
{
    if s.len() > 0 {
        if s.len() > 1 {
            let t = s.drop_last();
            lemma_sum_bounds(t, if j < t.len() {
                j
            } else {
                0
            });
        } else {
            assert(crate::sums::sum(s.drop_last()) == 0);
        }
    }
}

fn count_pile(cards: &Vec<Card>) -> (r: Option<usize>)
    ensures
        r matches Some(t) ==> t == pile(wins_of(cards@)),
        r is None ==> pile(wins_of(cards@)) > usize::MAX,
{
    let n = cards.len();
    let ghost wins = wins_of(cards@);
    let mut copies: Vec<usize> = Vec::new();
    let mut i: usize = 0;
    while i < n
        invariant
            i <= n,
            copies.len() == i,
            forall|j: int| 0 <= j < i ==> copies[j] == 0,
        decreases n - i,
    {
        copies.push(0);
        i += 1;
    }
    assert(ints_of(copies@) =~= copies_after(wins, 0));
    let mut k: usize = 0;
    while k < n
        invariant
            k <= n,
            n == cards.len(),
            wins == wins_of(cards@),
            copies.len() == n,
            ints_of(copies@) == copies_after(wins, k as nat),
        decreases n - k,
    {
        let ghost before = copies_after(wins, k as nat);
        proof {
            lemma_copies_props(wins, k as nat);
            lemma_copies_props(wins, n as nat);
        }
        if copies[k] == usize::MAX {
            proof {
                lemma_copies_grow(wins, k as nat, n as nat, k as int);
                lemma_sum_bounds(copies_after(wins, n as nat), k as int);
            }
            return None;
        }
        let gain = copies[k] + 1;
        let reach = cards[k].winners.len();
        let mut j: usize = 0;
        while j < reach && j < n - 1 - k
            invariant
                k < n,
                n == cards.len(),
                wins == wins_of(cards@),
                reach == wins[k as int],
                copies.len() == n,
                before == copies_after(wins, k as nat),
                gain == before[k as int] + 1,
                j <= reach,
                j <= n - 1 - k,
                forall|t: int| 0 <= t < n ==> before[t] >= 0,
                forall|t: int|
                    0 <= t < n ==> (#[trigger] copies[t]) as int == if k < t <= k + j {
                        before[t] + gain
                    } else {
                        before[t]
                    },
            decreases reach - j,
        {
            let t = k + 1 + j;
            if copies[t] > usize::MAX - gain {
                proof {
                    let after = copies_after(wins, (k + 1) as nat);
                    assert(after[t as int] == before[t as int] + gain);
                    lemma_copies_grow(wins, (k + 1) as nat, n as nat, t as int);
                    lemma_copies_props(wins, n as nat);
                    lemma_sum_bounds(copies_after(wins, n as nat), t as int);
                }
                return None;
            }
            let v = copies[t] + gain;
            copies.set(t, v);
            j += 1;
        }
        assert(ints_of(copies@) =~= copies_after(wins, (k + 1) as nat));
        k += 1;
    }
    let mut total: usize = n;
    let mut i: usize = 0;
    let ghost all = ints_of(copies@);
    proof {
        lemma_copies_props(wins, n as nat);
    }
    while i < n
        invariant
            i <= n,
            copies.len() == n,
            all == ints_of(copies@),
            all == copies_after(wins, n as nat),
            wins == wins_of(cards@),
            wins.len() == n,
            forall|j: int| 0 <= j < n ==> #[trigger] all[j] >= 0,
            total == crate::sums::sum(all.take(i as int)) + n,
        decreases n - i,
    {
        assert(all.take(i + 1).drop_last() == all.take(i as int));
        if copies[i] > usize::MAX - total {
            proof {
                lemma_sum_grows(all, i + 1);
            }
            return None;
        }
        total = total + copies[i];
        i += 1;
    }
    assert(all.take(n as int) == all);
    Some(total)
}

proof fn lemma_sum_grows(s: Seq<int>, n: int)
    requires
        0 <= n <= s.len(),
        forall|i: int| 0 <= i < s.len() ==> #[trigger] s[i] >= 0,
    ensures
        crate::sums::sum(s.take(n)) <= crate::sums::sum(s),
    decreases s.len() - n,
{
    if n == s.len() {
        assert(s.take(n) == s);
    } else {
        lemma_sum_grows(s, n + 1);
        assert(s.take(n + 1).drop_last() == s.take(n));
    }
}

/// The numbers of a vector of machine words.
pub open spec fn ints_of(v: Seq<usize>) -> Seq<int> {
    Seq::new(v.len(), |i: int| v[i] as int)
}

impl Day04 {
    /// Reads the cards, one to a line; `None` where a line is no card.
    pub fn parse_input(input: &str) -> (r: Option<Vec<Card>>)
        ensures
            r matches Some(cards) ==> cards.len() == lines_of(input@).len() && forall|i: int|
                0 <= i < cards.len() ==> card_of(lines_of(input@)[i]) == Some(
                    (#[trigger] cards[i]).model(),
                ),
            r is None ==> exists|i: int|
                0 <= i < lines_of(input@).len() && card_of(#[trigger] lines_of(input@)[i]) is None,
    {
        let rows = lines(input);
        let ghost ls = lines_of(input@);
        let mut cards: Vec<Card> = Vec::new();
        let mut i: usize = 0;
        while i < rows.len()
            invariant
                i <= rows.len(),
                views(rows@) == ls,
                ls == lines_of(input@),
                cards.len() == i,
                forall|j: int| 0 <= j < i ==> card_of(ls[j]) == Some((#[trigger] cards[j]).model()),
            decreases rows.len() - i,
        {
            assert(rows[i as int]@ == ls[i as int]);
            let line = string_of(rows[i].as_slice());
            match Card::from_line(line.as_str()) {
                Some(card) => {
                    cards.push(card);
                },
                None => {
                    assert(card_of(ls[i as int]) is None);
                    return None;
                },
            }
            i += 1;
        }
        Some(cards)
    }

    /// The sum of the points of the cards; `None` where it is beyond 32
    /// bits.
    pub fn part_one(parsed_input: &Vec<Card>) -> (r: Option<String>)
        ensures
            r matches Some(s) ==> answer_of(sum_opt(card_points_of(parsed_input@)), u32::MAX as int)
                == Some(s@),
            r is None ==> answer_of(sum_opt(card_points_of(parsed_input@)), u32::MAX as int)
                is None,
    {
        let ghost terms = card_points_of(parsed_input@);
        let mut acc: u64 = 0;
        let mut i: usize = 0;
        while i < parsed_input.len()
            invariant
                i <= parsed_input.len(),
                terms == card_points_of(parsed_input@),
                forall|j: int|
                    0 <= j < terms.len() ==> ((#[trigger] terms[j]) matches Some(x) ==> x >= 0),
                sum_opt(terms.take(i as int)) == Some(acc as int),
                acc <= 0xffff_ffff,
            decreases parsed_input.len() - i,
        {
            proof {
                lemma_sum_opt_next(terms, i as int);
            }
            match card_points(parsed_input[i].winners.len()) {
                Some(p) => {
                    acc = acc + p;
                },
                None => {
                    proof {
                        lemma_sum_opt_grows_from(terms, i + 1);
                    }
                    return None;
                },
            }
            if acc > 0xffff_ffff {
                proof {
                    lemma_sum_opt_grows_from(terms, i + 1);
                }
                return None;
            }
            i += 1;
        }
        assert(terms.take(parsed_input.len() as int) == terms);
        Some(decimal_string(acc))
    }

    /// The number of cards in the end, the cards of the table and the
    /// copies won; `None` where it is beyond the size of the machine's
    /// words.
    pub fn part_two(parsed_input: &Vec<Card>) -> (r: Option<String>)
        ensures
            r matches Some(s) ==> answer_of(Some(pile(wins_of(parsed_input@))), usize::MAX as int)
                == Some(s@),
            r is None ==> answer_of(Some(pile(wins_of(parsed_input@))), usize::MAX as int) is None,
    {
        match count_pile(parsed_input) {
            Some(t) => Some(decimal_string(t as u64)),
            None => None,
        }
    }

    fn solve_part(input: &str, second: bool) -> (r: Option<String>)
        ensures
            r matches Some(s) ==> answer(input@, second) == Some(s@),
            r is None ==> answer(input@, second) is None,
    {
        let ghost ls = lines_of(input@);
        match Self::parse_input(input) {
            Some(cards) => {
                proof {
                    assert(card_points_of(cards@) =~= line_points(ls)) by {
                        assert forall|i: int| 0 <= i < cards.len() implies card_points_of(
                            cards@,
                        )[i] == line_points(ls)[i] by {
                            assert(card_of(ls[i]) == Some(cards[i].model()));
                        }
                    }
                    assert(wins_of(cards@) =~= line_wins(ls)) by {
                        assert forall|i: int| 0 <= i < cards.len() implies wins_of(cards@)[i]
                            == line_wins(ls)[i] by {
                            assert(card_of(ls[i]) == Some(cards[i].model()));
                        }
                    }
                    assert(all_cards(ls)) by {
                        assert forall|i: int| 0 <= i < ls.len() implies #[trigger] card_of(
                            ls[i],
                        ) is Some by {
                            assert(card_of(ls[i]) == Some(cards[i].model()));
                        }
                    }
                }
                if second {
                    Self::part_two(&cards)
                } else {
                    Self::part_one(&cards)
                }
            },
            None => {
                proof {
                    let i = choose|i: int| 0 <= i < ls.len() && card_of(#[trigger] ls[i]) is None;
                    lemma_sum_opt_missing(line_points(ls), i);
                }
                None
            },
        }
    }

    /// Reads the cards and answers the first part.
    pub fn solve_part_one(input: &str) -> (r: Option<String>)
        ensures
            r matches Some(s) ==> answer(input@, false) == Some(s@),
            r is None ==> answer(input@, false) is None,
    {
        Self::solve_part(input, false)
    }

    /// Reads the cards and answers the second part.
    pub fn solve_part_two(input: &str) -> (r: Option<String>)
        ensures
            r matches Some(s) ==> answer(input@, true) == Some(s@),
            r is None ==> answer(input@, true) is None,
    {
        Self::solve_part(input, true)
    }

    /// Reads the cards and answers both parts; `None` where either has no
    /// answer. The flag asks whoever calls to time the work; the answers do
    /// not depend on it.
    pub fn solve(input: &str, include_time: bool) -> (r: Option<(String, String)>)
        ensures
            r matches Some((one, two)) ==> answer(input@, false) == Some(one@) && answer(
                input@,
                true,
            ) == Some(two@),
            r is None ==> answer(input@, false) is None || answer(input@, true) is None,
    {
        match (Self::solve_part(input, false), Self::solve_part(input, true)) {
            (Some(a), Some(b)) => Some((a, b)),
            _ => None,
        }
    }
}

} // verus!
