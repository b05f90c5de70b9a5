//! Camel cards: hands of five cards, ranked by their type and then card by
//! card, and the winnings that the ranks give their bids.

use counter::Counter;
use vstd::prelude::*;
use crate::sums::{lemma_sum_opt_grows_from, lemma_sum_opt_next, sum_opt};
use crate::text::{
    chars_of, decimal_digits, decimal_string, lines, lines_of, parse_unsigned, read_unsigned,
    string_of, tokens, tokens_of, views,
};

verus! {

/// The solver of the camel cards puzzle.
#[derive(Clone, Copy, Debug)]
pub struct Day07;

/// The type `Counter` of the crate `counter`: a count for each item.
#[verifier::external_type_specification]
#[verifier::external_body]
#[verifier::reject_recursive_types(T)]
#[verifier::reject_recursive_types(N)]
#[verifier::reject_recursive_types(S)]
pub struct ExCounter<T, N, S>(Counter<T, N, S>);

/// The counts that a counter of characters holds: for every character that
/// it has an entry for, the count of that entry.
pub uninterp spec fn tally(c: Counter<char, usize>) -> Map<char, nat>;

/// The counts after the characters of `s` have been counted one by one
/// onto the counts `m`: each adds one to its entry, and makes the entry
/// where there was none.
pub open spec fn counted(m: Map<char, nat>, s: Seq<char>) -> Map<char, nat>
    decreases s.len(),
{
    if s.len() == 0 {
        m
    } else {
        let before = counted(m, s.drop_last());
        let c = s.last();
        before.insert(
            c,
            if before.dom().contains(c) {
                before[c] + 1
            } else {
                1
            },
        )
    }
}

/// The counts of a counter without entries.
pub open spec fn no_counts() -> Map<char, nat> {
    Map::empty()
}

/// Whether `r` lists the entries of the counts `m`, each once, from the
/// greatest count to the least. Entries with equal counts may stand in any
/// order.
pub open spec fn is_ranking(m: Map<char, nat>, r: Seq<(char, usize)>) -> bool {
    &&& forall|i: int|
        0 <= i < r.len() ==> m.dom().contains((#[trigger] r[i]).0) && m[r[i].0] == r[i].1
    &&& forall|i: int, j: int| 0 <= i < j < r.len() ==> (#[trigger] r[i]).0 != (#[trigger] r[j]).0
    &&& forall|c: char|
        m.dom().contains(c) ==> exists|i: int| 0 <= i < r.len() && (#[trigger] r[i]).0 == c
    &&& forall|i: int, j: int| 0 <= i <= j < r.len() ==> (#[trigger] r[i]).1 >= (#[trigger] r[j]).1
}

/// `Counter::new`: a counter without entries.
#[verifier::external_body]
pub(crate) fn new_counter() -> (c: Counter<char, usize>)
    ensures
        tally(c) == no_counts(),
{
    Counter::new()
}

/// `HashMap::clear`, reached through the counter's `DerefMut`: removes
/// every entry.
#[verifier::external_body]
pub(crate) fn clear_counter(c: &mut Counter<char, usize>)
    ensures
        tally(*final(c)) == no_counts(),
{
    c.clear()
}

/// `Counter::update` with the characters of `s`: counts each of them onto
/// the counter, in the order of the text. The counts are machine words,
/// and the crate adds to them without a check: the contract asks that none
/// of them can go beyond the greatest.
#[verifier::external_body]
pub(crate) fn update_counter(c: &mut Counter<char, usize>, s: &str)
    requires
        forall|k: char| tally(*old(c)).dom().contains(k) ==> tally(*old(c))[k] + s@.len()
            <= usize::MAX,
    ensures
        tally(*final(c)) == counted(tally(*old(c)), s@),
{
    c.update(s.chars())
}

/// `HashMap::remove`, reached through the counter's `DerefMut`: takes the
/// entry of `key` out of the counter and returns its count, or `None`
/// where there was no entry.
#[verifier::external_body]
pub(crate) fn remove_count(c: &mut Counter<char, usize>, key: char) -> (r: Option<usize>)
    ensures
        tally(*final(c)) == tally(*old(c)).remove(key),
        r is Some <==> tally(*old(c)).dom().contains(key),
        r matches Some(n) ==> n == tally(*old(c))[key],
{
    c.remove(&key)
}

/// `Counter::most_common`: the entries of the counter, sorted from the
/// greatest count to the least, entries with equal counts in no stated
/// order.
#[verifier::external_body]
pub(crate) fn most_common(c: &Counter<char, usize>) -> (r: Vec<(char, usize)>)
    ensures
        is_ranking(tally(*c), r@),
{
    c.most_common()
}

/// A card, from the strongest to the weakest. `Jack` is the card `J` of the
/// plain game; in the game with jokers `J` is the `Joker`, the weakest card.
#[derive(Clone, Copy, Debug, PartialEq, Eq, Structural)]
pub enum Card {
    Ace,
    King,
    Queen,
    Jack,
    Ten,
    Nine,
    Eight,
    Seven,
    Six,
    Five,
    Four,
    Three,
    Two,
    One,
    Joker,
}

impl Card {
    /// The card that a character names; `J` names the jack, or, with
    /// `jokers`, the joker.
    pub open spec fn of_char(c: char, jokers: bool) -> Option<Card> {
        if c == 'A' {
            Some(Card::Ace)
        } else if c == 'K' {
            Some(Card::King)
        } else if c == 'Q' {
            Some(Card::Queen)
        } else if c == 'J' {
            if jokers {
                Some(Card::Joker)
            } else {
                Some(Card::Jack)
            }
        } else if c == 'T' {
            Some(Card::Ten)
        } else if c == '9' {
            Some(Card::Nine)
        } else if c == '8' {
            Some(Card::Eight)
        } else if c == '7' {
            Some(Card::Seven)
        } else if c == '6' {
            Some(Card::Six)
        } else if c == '5' {
            Some(Card::Five)
        } else if c == '4' {
            Some(Card::Four)
        } else if c == '3' {
            Some(Card::Three)
        } else if c == '2' {
            Some(Card::Two)
        } else if c == '1' {
            Some(Card::One)
        } else {
            None
        }
    }

    /// The place of the card in the order of strength: zero for the
    /// strongest.
    pub open spec fn place(self) -> int {
        match self {
            Card::Ace => 0,
            Card::King => 1,
            Card::Queen => 2,
            Card::Jack => 3,
            Card::Ten => 4,
            Card::Nine => 5,
            Card::Eight => 6,
            Card::Seven => 7,
            Card::Six => 8,
            Card::Five => 9,
            Card::Four => 10,
            Card::Three => 11,
            Card::Two => 12,
            Card::One => 13,
            Card::Joker => 14,
        }
    }

    fn read(c: char, jokers: bool) -> (r: Result<Card, ()>)
        ensures
            r matches Ok(card) ==> Self::of_char(c, jokers) == Some(card),
            r is Err ==> Self::of_char(c, jokers) is None,
    {
        if c == 'A' {
            Ok(Card::Ace)
        } else if c == 'K' {
            Ok(Card::King)
        } else if c == 'Q' {
            Ok(Card::Queen)
        } else if c == 'J' {
            if jokers {
                Ok(Card::Joker)
            } else {
                Ok(Card::Jack)
            }
        } else if c == 'T' {
            Ok(Card::Ten)
        } else if c == '9' {
            Ok(Card::Nine)
        } else if c == '8' {
            Ok(Card::Eight)
        } else if c == '7' {
            Ok(Card::Seven)
        } else if c == '6' {
            Ok(Card::Six)
        } else if c == '5' {
            Ok(Card::Five)
        } else if c == '4' {
            Ok(Card::Four)
        } else if c == '3' {
            Ok(Card::Three)
        } else if c == '2' {
            Ok(Card::Two)
        } else if c == '1' {
            Ok(Card::One)
        } else {
            Err(())
        }
    }

    /// The card that a character names in the plain game.
    pub fn from_char(c: &char) -> (r: Result<Card, ()>)
        ensures
            r matches Ok(card) ==> Self::of_char(*c, false) == Some(card),
            r is Err ==> Self::of_char(*c, false) is None,
    {
        Self::read(*c, false)
    }

    /// The card that a character names in the game with jokers.
    pub fn from_char_jokers(c: &char) -> (r: Result<Card, ()>)
        ensures
            r matches Ok(card) ==> Self::of_char(*c, true) == Some(card),
            r is Err ==> Self::of_char(*c, true) is None,
    {
        Self::read(*c, true)
    }

    /// The place of the card in the order of strength.
    pub fn rank(&self) -> (n: u8)
        ensures
            n == self.place(),
    {
        match self {
            Card::Ace => 0,
            Card::King => 1,
            Card::Queen => 2,
            Card::Jack => 3,
            Card::Ten => 4,
            Card::Nine => 5,
            Card::Eight => 6,
            Card::Seven => 7,
            Card::Six => 8,
            Card::Five => 9,
            Card::Four => 10,
            Card::Three => 11,
            Card::Two => 12,
            Card::One => 13,
            Card::Joker => 14,
        }
    }
}

/// The type of a hand, from the strongest to the weakest.
#[derive(Clone, Copy, Debug, PartialEq, Eq, Structural)]
pub enum HandType {
    FiveOfAKind,
    FourOfAKind,
    FullHouse,
    ThreeOfAKind,
    TwoPair,
    OnePair,
    HighCard,
}

impl HandType {
    /// The type that the two greatest counts of equal cards give: `top`
    /// the greatest, `next` the one after it where there is one. `None`
    /// where `top` is two or three and there is no further count.
    pub open spec fn of_counts(top: int, next: Option<int>) -> Option<HandType> {
        if top == 2 {
            match next {
                Some(n) => if n == 2 {
                    Some(HandType::TwoPair)
                } else {
                    Some(HandType::OnePair)
                },
                None => None,
            }
        } else if top == 3 {
            match next {
                Some(n) => if n == 2 {
                    Some(HandType::FullHouse)
                } else {
                    Some(HandType::ThreeOfAKind)
                },
                None => None,
            }
        } else if top == 4 {
            Some(HandType::FourOfAKind)
        } else if top == 5 {
            Some(HandType::FiveOfAKind)
        } else {
            Some(HandType::HighCard)
        }
    }

    /// The place of the type in the order of strength: zero for the
    /// strongest.
    pub open spec fn place(self) -> int {
        match self {
            HandType::FiveOfAKind => 0,
            HandType::FourOfAKind => 1,
            HandType::FullHouse => 2,
            HandType::ThreeOfAKind => 3,
            HandType::TwoPair => 4,
            HandType::OnePair => 5,
            HandType::HighCard => 6,
        }
    }

    /// The type that the two greatest counts of equal cards give.
    pub fn from_count(most_common: usize, next: Option<usize>) -> (r: Option<HandType>)
        ensures
            r == Self::of_counts(
                most_common as int,
                match next {
                    Some(n) => Some(n as int),
                    None => None,
                },
            ),
    {
        if most_common == 2 {
            match next {
                Some(n) => if n == 2 {
                    Some(HandType::TwoPair)
                } else {
                    Some(HandType::OnePair)
                },
                None => None,
            }
        } else if most_common == 3 {
            match next {
                Some(n) => if n == 2 {
                    Some(HandType::FullHouse)
                } else {
                    Some(HandType::ThreeOfAKind)
                },
                None => None,
            }
        } else if most_common == 4 {
            Some(HandType::FourOfAKind)
        } else if most_common == 5 {
            Some(HandType::FiveOfAKind)
        } else {
            Some(HandType::HighCard)
        }
    }

    /// The place of the type in the order of strength.
    pub fn rank(&self) -> (n: u8)
        ensures
            n == self.place(),
    {
        match self {
            HandType::FiveOfAKind => 0,
            HandType::FourOfAKind => 1,
            HandType::FullHouse => 2,
            HandType::ThreeOfAKind => 3,
            HandType::TwoPair => 4,
            HandType::OnePair => 5,
            HandType::HighCard => 6,
        }
    }
}

/// The count of the entry at place `i` of a ranking, if there is one.
pub open spec fn count_at(r: Seq<(char, usize)>, i: int) -> Option<int> {
    if 0 <= i < r.len() {
        Some(r[i].1 as int)
    } else {
        None
    }
}

/// The type that a ranking of the counts of a hand gives in the plain
/// game: that of its two greatest counts. `None` for a ranking without an
/// entry.
pub open spec fn type_of_ranking(r: Seq<(char, usize)>) -> Option<HandType> {
    match count_at(r, 0) {
        Some(top) => HandType::of_counts(top, count_at(r, 1)),
        None => None,
    }
}

/// The type that a ranking of the counts of the cards other than jokers
/// gives with `jokers` jokers: the jokers count with the most common card.
/// `None` where the greatest count is beyond a machine word.
pub open spec fn type_with_jokers(r: Seq<(char, usize)>, jokers: int) -> Option<HandType> {
    let top = match count_at(r, 0) {
        Some(top) => top,
        None => 0,
    } + jokers;
    if top > usize::MAX {
        None
    } else {
        HandType::of_counts(top, count_at(r, 1))
    }
}

/// The number of jokers that the counts hold.
pub open spec fn jokers_in(m: Map<char, nat>) -> int {
    if m.dom().contains('J') {
        m['J'] as int
    } else {
        0
    }
}

/// A hand: its five cards, its bid, and its type.
#[derive(Clone, Copy, Debug)]
pub struct Hand {
    pub cards: [Card; 5],
    pub bid: u16,
    pub hand_type: HandType,
}

/// Whether the first five characters of a text name cards.
pub open spec fn names_cards(s: Seq<char>, jokers: bool) -> bool {
    s.len() >= 5 && forall|i: int| 0 <= i < 5 ==> Card::of_char(#[trigger] s[i], jokers) is Some
}

/// Whether `ty` is the type that the counts of the characters of a hand
/// give, by some ranking of the counts: in the plain game the type of the
/// two greatest counts; in the game with jokers that of the counts without
/// the jokers, the jokers counted with the most common card.
pub open spec fn is_type_of(s: Seq<char>, jokers: bool, ty: Option<HandType>) -> bool {
    let counts = counted(no_counts(), s);
    if jokers {
        exists|rk: Seq<(char, usize)>|
            is_ranking(counts.remove('J'), rk) && ty == #[trigger] type_with_jokers(
                rk,
                jokers_in(counts),
            )
    } else {
        exists|rk: Seq<(char, usize)>|
            is_ranking(counts, rk) && ty == #[trigger] type_of_ranking(rk)
    }
}

/// The entry of a ranking for a character that the counts hold.
proof fn lemma_ranked(m: Map<char, nat>, r: Seq<(char, usize)>, c: char) -> (i: int)
    requires
        is_ranking(m, r),
        m.dom().contains(c),
    ensures
        0 <= i < r.len(),
        r[i].0 == c,
        r[i].1 == m[c],
{
    choose|i: int| 0 <= i < r.len() && (#[trigger] r[i]).0 == c
}

/// Two rankings of the same counts have the same greatest count and the
/// same count after it.
pub proof fn lemma_rankings_agree(m: Map<char, nat>, a: Seq<(char, usize)>, b: Seq<(char, usize)>)
    requires
        is_ranking(m, a),
        is_ranking(m, b),
    ensures
        count_at(a, 0) == count_at(b, 0),
        count_at(a, 1) == count_at(b, 1),
{
    lemma_ranking_below(m, a, b);
    lemma_ranking_below(m, b, a);
}

/// The two greatest counts of one ranking are not greater than those of
/// another ranking of the same counts, and where the one has them the other
/// has them.
proof fn lemma_ranking_below(m: Map<char, nat>, a: Seq<(char, usize)>, b: Seq<(char, usize)>)
    requires
        is_ranking(m, a),
        is_ranking(m, b),
    ensures
        a.len() >= 1 ==> b.len() >= 1 && a[0].1 <= b[0].1,
        a.len() >= 2 ==> b.len() >= 2 && a[1].1 <= b[1].1,
{
    if a.len() >= 1 {
        let i = lemma_ranked(m, b, a[0].0);
        assert(b[0].1 >= b[i].1);
    }
    if a.len() >= 2 {
        let i = lemma_ranked(m, b, a[0].0);
        let j = lemma_ranked(m, b, a[1].0);
        assert(a[0].0 != a[1].0);
        assert(i != j);
        if j >= 1 {
            assert(b[1].1 >= b[j].1);
        } else {
            assert(b[1].1 >= b[i].1);
            assert(a[0].1 >= a[1].1);
        }
    }
}

/// The counts of the characters of a hand give one type.
pub proof fn lemma_one_type(s: Seq<char>, jokers: bool, x: Option<HandType>, y: Option<HandType>)
    requires
        is_type_of(s, jokers, x),
        is_type_of(s, jokers, y),
    ensures
        x == y,
{
    let counts = counted(no_counts(), s);
    if jokers {
        let a = choose|rk: Seq<(char, usize)>|
            is_ranking(counts.remove('J'), rk) && x == #[trigger] type_with_jokers(
                rk,
                jokers_in(counts),
            );
        let b = choose|rk: Seq<(char, usize)>|
            is_ranking(counts.remove('J'), rk) && y == #[trigger] type_with_jokers(
                rk,
                jokers_in(counts),
            );
        lemma_rankings_agree(counts.remove('J'), a, b);
    } else {
        let a = choose|rk: Seq<(char, usize)>|
            is_ranking(counts, rk) && x == #[trigger] type_of_ranking(rk);
        let b = choose|rk: Seq<(char, usize)>|
            is_ranking(counts, rk) && y == #[trigger] type_of_ranking(rk);
        lemma_rankings_agree(counts, a, b);
    }
}

/// Whether the hands are those that the lines show, one to a line.
pub open spec fn are_hands(hands: Seq<Hand>, ls: Seq<Seq<char>>, jokers: bool) -> bool {
    hands.len() == ls.len() && forall|i: int|
        0 <= i < hands.len() ==> (#[trigger] hands[i]).reads(ls[i], jokers)
}

impl Hand {
    /// Whether the hand is the one that a line shows: the cards that the
    /// first five characters of its first token name, the bid that its
    /// second token writes, and a type that the counts of the characters of
    /// the first token give.
    pub open spec fn reads(&self, line: Seq<char>, jokers: bool) -> bool {
        let t = tokens_of(line);
        &&& is_entry(line, jokers)
        &&& self.shows(t[0], jokers)
        &&& parse_unsigned(t[1], u16::MAX as nat) == Some(self.bid as nat)
        &&& is_type_of(t[0], jokers, Some(self.hand_type))
    }

    /// Whether the hand holds the cards that the first five characters of
    /// `s` name.
    pub open spec fn shows(&self, s: Seq<char>, jokers: bool) -> bool {
        s.len() >= 5 && forall|i: int|
            0 <= i < 5 ==> Card::of_char(s[i], jokers) == Some(#[trigger] self.cards[i])
    }

    /// The type of a hand in the plain game, from the counts of its
    /// characters, taken with the counter `counter`. `None` where the
    /// counts give no type.
    pub fn hand_type(hand_str: &str, counter: &mut Counter<char, usize>) -> (r: Option<HandType>)
        ensures
            tally(*final(counter)) == counted(no_counts(), hand_str@),
            is_type_of(hand_str@, false, r),
    {
        clear_counter(counter);
        update_counter(counter, hand_str);
        let count = most_common(counter);
        let r = if count.len() == 0 {
            None
        } else {
            let next = if count.len() > 1 {
                Some(count[1].1)
            } else {
                None
            };
            HandType::from_count(count[0].1, next)
        };
        assert(r == type_of_ranking(count@));
        r
    }

    /// The type of a hand in the game with jokers: the jokers are taken out
    /// of the counts and count with the most common of the other cards.
    pub fn hand_type_jokers(hand_str: &str, counter: &mut Counter<char, usize>) -> (r: Option<
        HandType,
    >)
        ensures
            tally(*final(counter)) == counted(no_counts(), hand_str@).remove('J'),
            is_type_of(hand_str@, true, r),
    {
        clear_counter(counter);
        update_counter(counter, hand_str);
        let n_jokers = match remove_count(counter, 'J') {
            Some(n) => n,
            None => 0,
        };
        let count = most_common(counter);
        let first = if count.len() > 0 {
            count[0].1
        } else {
            0
        };
        let next = if count.len() > 1 {
            Some(count[1].1)
        } else {
            None
        };
        let r = match first.checked_add(n_jokers) {
            Some(top) => HandType::from_count(top, next),
            None => None,
        };
        assert(r == type_with_jokers(count@, jokers_in(counted(no_counts(), hand_str@))));
        r
    }

    fn read_cards(hand_str: &str, jokers: bool) -> (r: Option<[Card; 5]>)
        ensures
            r matches Some(cards) ==> hand_str@.len() >= 5 && forall|i: int|
                0 <= i < 5 ==> Card::of_char(hand_str@[i], jokers) == Some(#[trigger] cards[i]),
            r is None ==> !names_cards(hand_str@, jokers),
    {
        let chars = chars_of(hand_str);
        if chars.len() < 5 {
            return None;
        }
        let mut cards: [Card; 5] = [Card::Ace, Card::Ace, Card::Ace, Card::Ace, Card::Ace];
        let mut i: usize = 0;
        while i < 5
            invariant
                i <= 5,
                chars@ == hand_str@,
                chars.len() >= 5,
                forall|j: int|
                    0 <= j < i ==> Card::of_char(chars[j], jokers) == Some(#[trigger] cards[j]),
            decreases 5 - i,
        {
            match Card::read(chars[i], jokers) {
                Ok(card) => {
                    cards[i] = card;
                },
                Err(_) => {
                    assert(Card::of_char(hand_str@[i as int], jokers) is None);
                    return None;
                },
            }
            i += 1;
        }
        Some(cards)
    }

    /// The hand of the plain game that a text of five cards or more shows,
    /// with its bid. `None` where the first five characters do not all name
    /// cards, or the counts of the characters give no type.
    pub fn new(hand_str: &str, bid: u16, counter: &mut Counter<char, usize>) -> (r: Option<Hand>)
        ensures
            r matches Some(h) ==> h.bid == bid && h.shows(hand_str@, false) && is_type_of(
                hand_str@,
                false,
                Some(h.hand_type),
            ),
            r is None ==> !names_cards(hand_str@, false) || is_type_of(hand_str@, false, None),
    {
        let cards = match Self::read_cards(hand_str, false) {
            Some(cards) => cards,
            None => {
                return None;
            },
        };
        match Self::hand_type(hand_str, counter) {
            Some(hand_type) => Some(Hand { cards, bid, hand_type }),
            None => None,
        }
    }

    /// The hand of the game with jokers that a text of five cards or more
    /// shows, with its bid.
    pub fn new_jokers(hand_str: &str, bid: u16, counter: &mut Counter<char, usize>) -> (r: Option<
        Hand,
    >)
        ensures
            r matches Some(h) ==> h.bid == bid && h.shows(hand_str@, true) && is_type_of(
                hand_str@,
                true,
                Some(h.hand_type),
            ),
            r is None ==> !names_cards(hand_str@, true) || is_type_of(hand_str@, true, None),
    {
        let cards = match Self::read_cards(hand_str, true) {
            Some(cards) => cards,
            None => {
                return None;
            },
        };
        match Self::hand_type_jokers(hand_str, counter) {
            Some(hand_type) => Some(Hand { cards, bid, hand_type }),
            None => None,
        }
    }

    /// The places of the type and of the five cards in their orders of
    /// strength: what the hands are ranked by.
    pub open spec fn key(&self) -> Seq<int> {
        seq![
            self.hand_type.place(),
            self.cards[0].place(),
            self.cards[1].place(),
            self.cards[2].place(),
            self.cards[3].place(),
            self.cards[4].place(),
        ]
    }
}

/// Whether the key `a` comes before the key `b`, comparing from place `k`
/// on: at the first place where they differ, `a` has the lesser number.
pub open spec fn key_before(a: Seq<int>, b: Seq<int>, k: int) -> bool
    decreases 6 - k,
{
    if k < 0 || k >= 6 {
        false
    } else if a[k] != b[k] {
        a[k] < b[k]
    } else {
        key_before(a, b, k + 1)
    }
}

/// Whether the hand at `j` stands after the hand at `i` when the hands are
/// sorted from the strongest, hands of equal strength keeping their order.
pub open spec fn stands_after(hands: Seq<Hand>, i: int, j: int) -> bool {
    key_before(hands[i].key(), hands[j].key(), 0) || (!key_before(
        hands[j].key(),
        hands[i].key(),
        0,
    ) && i < j)
}

/// Among the first `n` hands, the number of those that stand after the
/// hand at `i`.
pub open spec fn count_after(hands: Seq<Hand>, i: int, n: nat) -> nat
    decreases n,
{
    if n == 0 {
        0
    } else {
        count_after(hands, i, (n - 1) as nat) + if stands_after(hands, i, n - 1) {
            1nat
        } else {
            0nat
        }
    }
}

/// The winnings of every hand: its bid times its rank, the weakest hand
/// having rank one.
pub open spec fn winnings(hands: Seq<Hand>) -> Seq<Option<int>> {
    Seq::new(
        hands.len(),
        |i: int| Some(hands[i].bid as int * (1 + count_after(hands, i, hands.len()))),
    )
}

/// A total as an answer: its decimal digits, or `None` where there is no
/// total or it is beyond 64 bits.
pub open spec fn answer_of(total: Option<int>) -> Option<Seq<char>> {
    match total {
        Some(t) => if 0 <= t <= u64::MAX {
            Some(decimal_digits(t as nat))
        } else {
            None
        },
        None => None,
    }
}

fn comes_before(a: &Hand, b: &Hand) -> (r: bool)
    ensures
        r == key_before(a.key(), b.key(), 0),
{
    reveal_with_fuel(key_before, 7);
    if a.hand_type.rank() != b.hand_type.rank() {
        return a.hand_type.rank() < b.hand_type.rank();
    }
    let mut k: usize = 0;
    while k < 5
        invariant
            k <= 5,
            key_before(a.key(), b.key(), 0) == key_before(a.key(), b.key(), k + 1),
        decreases 5 - k,
    {
        let (x, y) = (a.cards[k].rank(), b.cards[k].rank());
        if x != y {
            return x < y;
        }
        k += 1;
    }
    false
}

/// The total winnings of the hands, in decimal digits; `None` where they
/// are beyond 64 bits.
pub fn solve(input: &[Hand]) -> (r: Option<String>)
    ensures
        r matches Some(s) ==> answer_of(sum_opt(winnings(input@))) == Some(s@),
        r is None ==> answer_of(sum_opt(winnings(input@))) is None,
{
    let n = input.len();
    let ghost terms = winnings(input@);
    let mut acc: u64 = 0;
    let mut i: usize = 0;
    proof {
        assert forall|j: int| 0 <= j < terms.len() implies ((#[trigger] terms[j]) matches Some(x)
            ==> x >= 0) by {
            let b = input@[j].bid as int;
            let m = 1 + count_after(input@, j, input@.len());
            assert(b * m >= 0) by (nonlinear_arith)
                requires
                    b >= 0,
                    m >= 0,
            ;
        }
    }
    while i < n
        invariant
            i <= n,
            n == input.len(),
            terms == winnings(input@),
            forall|j: int|
                0 <= j < terms.len() ==> ((#[trigger] terms[j]) matches Some(x) ==> x >= 0),
            sum_opt(terms.take(i as int)) == Some(acc as int),
        decreases n - i,
    {
        let mut after: usize = 0;
        let mut j: usize = 0;
        while j < n
            invariant
                i < n,
                j <= n,
                n == input.len(),
                after == count_after(input@, i as int, j as nat),
                after <= j,
            decreases n - j,
        {
            let first = comes_before(&input[i], &input[j]);
            let second = comes_before(&input[j], &input[i]);
            if first || (!second && i < j) {
                after += 1;
            }
            j += 1;
        }
        proof {
            lemma_sum_opt_next(terms, i as int);
        }
        let bid = input[i].bid as u128;
        let rank = after as u128 + 1;
        assert(bid * rank <= 0xffff * 0x1_0000_0000_0000_0000) by (nonlinear_arith)
            requires
                bid <= 0xffff,
                rank <= 0x1_0000_0000_0000_0000,
        ;
        let sum: u128 = acc as u128 + bid * rank;
        if sum > u64::MAX as u128 {
            proof {
                lemma_sum_opt_grows_from(terms, i + 1);
            }
            return None;
        }
        acc = sum as u64;
        i += 1;
    }
    assert(terms.take(n as int) == terms);
    Some(decimal_string(acc))
}

/// Whether a line shows a hand and a bid: two tokens or more, the first
/// naming five cards or more, the second a bid of 16 bits.
pub open spec fn is_entry(line: Seq<char>, jokers: bool) -> bool {
    let t = tokens_of(line);
    t.len() >= 2 && names_cards(t[0], jokers) && parse_unsigned(t[1], u16::MAX as nat) is Some
}

/// Whether a line shows no hand of the game: it is no entry, or the counts
/// of the characters of its hand give no type.
pub open spec fn is_no_hand(line: Seq<char>, jokers: bool) -> bool {
    !is_entry(line, jokers) || is_type_of(tokens_of(line)[0], jokers, None)
}

/// Whether some line shows no hand of the plain game or none of the game
/// with jokers.
pub open spec fn has_no_hand(ls: Seq<Seq<char>>) -> bool {
    exists|i: int|
        0 <= i < ls.len() && (is_no_hand(#[trigger] ls[i], false) || is_no_hand(ls[i], true))
}

/// The answer that a list of hands gives: their total winnings in decimal
/// digits; `None` where they are beyond 64 bits.
pub open spec fn answer(hands: Seq<Hand>) -> Option<Seq<char>> {
    answer_of(sum_opt(winnings(hands)))
}

impl Day07 {
    /// Reads the hands, one to a line, once for the plain game and once for
    /// the game with jokers. `None` where a line shows no hand of either
    /// game.
    pub fn parse_input(input: &str) -> (r: Option<(Vec<Hand>, Vec<Hand>)>)
        ensures
            r matches Some((plain, wild)) ==> are_hands(plain@, lines_of(input@), false)
                && are_hands(wild@, lines_of(input@), true),
            r is None ==> has_no_hand(lines_of(input@)),
    {
        let rows = lines(input);
        let ghost ls = lines_of(input@);
        let mut plain: Vec<Hand> = Vec::new();
        let mut wild: Vec<Hand> = Vec::new();
        let mut counter = new_counter();
        let mut counter2 = new_counter();
        let mut i: usize = 0;
        while i < rows.len()
            invariant
                i <= rows.len(),
                views(rows@) == ls,
                ls == lines_of(input@),
                plain.len() == i,
                wild.len() == i,
                forall|j: int| 0 <= j < i ==> (#[trigger] plain[j]).reads(ls[j], false),
                forall|j: int| 0 <= j < i ==> (#[trigger] wild[j]).reads(ls[j], true),
            decreases rows.len() - i,
        {
            assert(rows[i as int]@ == ls[i as int]);
            let ghost line = ls[i as int];
            let parts = tokens(rows[i].as_slice());
            if parts.len() < 2 {
                assert(is_no_hand(line, false));
                return None;
            }
            assert(parts[0]@ == views(parts@)[0] && parts[1]@ == views(parts@)[1]);
            let bid = match read_unsigned(parts[1].as_slice(), 0xffff) {
                Some(b) => b as u16,
                None => {
                    assert(is_no_hand(line, false));
                    return None;
                },
            };
            let hand = string_of(parts[0].as_slice());
            assert(hand@ == tokens_of(line)[0]);
            let joker_hand = match Hand::new_jokers(hand.as_str(), bid, &mut counter2) {
                Some(h) => h,
                None => {
                    assert(is_no_hand(line, true));
                    return None;
                },
            };
            let plain_hand = match Hand::new(hand.as_str(), bid, &mut counter) {
                Some(h) => h,
                None => {
                    assert(is_no_hand(line, false));
                    return None;
                },
            };
            proof {
                let t = tokens_of(line);
                assert(names_cards(t[0], false)) by {
                    assert forall|k: int| 0 <= k < 5 implies Card::of_char(
                        #[trigger] t[0][k],
                        false,
                    ) is Some by {
                        let c = plain_hand.cards[k];
                    }
                }
                assert(names_cards(t[0], true)) by {
                    assert forall|k: int| 0 <= k < 5 implies Card::of_char(
                        #[trigger] t[0][k],
                        true,
                    ) is Some by {
                        let c = joker_hand.cards[k];
                    }
                }
                assert(plain_hand.reads(line, false));
                assert(joker_hand.reads(line, true));
            }
            wild.push(joker_hand);
            plain.push(plain_hand);
            i += 1;
        }
        Some((plain, wild))
    }

    /// The total winnings of the plain game.
    pub fn part_one(parsed_input: &(Vec<Hand>, Vec<Hand>)) -> (r: Option<String>)
        ensures
            r matches Some(s) ==> answer(parsed_input.0@) == Some(s@),
            r is None ==> answer(parsed_input.0@) is None,
    {
        solve(parsed_input.0.as_slice())
    }

    /// The total winnings of the game with jokers.
    pub fn part_two(parsed_input: &(Vec<Hand>, Vec<Hand>)) -> (r: Option<String>)
        ensures
            r matches Some(s) ==> answer(parsed_input.1@) == Some(s@),
            r is None ==> answer(parsed_input.1@) is None,
    {
        solve(parsed_input.1.as_slice())
    }

    /// Reads the hands and answers the first part: the winnings of hands
    /// that the lines show in the plain game.
    pub fn solve_part_one(input: &str) -> (r: Option<String>)
        ensures
            r matches Some(s) ==> exists|hands: Seq<Hand>|
                #![trigger are_hands(hands, lines_of(input@), false)]
                are_hands(hands, lines_of(input@), false) && answer(hands) == Some(s@),
            r is None ==> has_no_hand(lines_of(input@)) || exists|hands: Seq<Hand>|
                #![trigger are_hands(hands, lines_of(input@), false)]
                are_hands(hands, lines_of(input@), false) && answer(hands) is None,
    {
        match Self::parse_input(input) {
            Some(hands) => {
                let r = Self::part_one(&hands);
                assert(are_hands(hands.0@, lines_of(input@), false));
                r
            },
            None => None,
        }
    }

    /// Reads the hands and answers the second part: the winnings of hands
    /// that the lines show in the game with jokers.
    pub fn solve_part_two(input: &str) -> (r: Option<String>)
        ensures
            r matches Some(s) ==> exists|hands: Seq<Hand>|
                #![trigger are_hands(hands, lines_of(input@), true)]
                are_hands(hands, lines_of(input@), true) && answer(hands) == Some(s@),
            r is None ==> has_no_hand(lines_of(input@)) || exists|hands: Seq<Hand>|
                #![trigger are_hands(hands, lines_of(input@), true)]
                are_hands(hands, lines_of(input@), true) && answer(hands) is None,
    {
        match Self::parse_input(input) {
            Some(hands) => {
                let r = Self::part_two(&hands);
                assert(are_hands(hands.1@, lines_of(input@), true));
                r
            },
            None => None,
        }
    }

    /// Reads the hands and answers both parts; `None` where either has no
    /// answer. The flag asks whoever calls to time the work; the answers do
    /// not depend on it.
    pub fn solve(input: &str, include_time: bool) -> (r: Option<(String, String)>)
        ensures
            r matches Some((one, two)) ==> exists|plain: Seq<Hand>, wild: Seq<Hand>|
                #![trigger are_hands(plain, lines_of(input@), false), are_hands(wild, lines_of(input@), true)]
                are_hands(plain, lines_of(input@), false) && are_hands(
                    wild,
                    lines_of(input@),
                    true,
                ) && answer(plain) == Some(one@) && answer(wild) == Some(two@),
            r is None ==> has_no_hand(lines_of(input@)) || exists|
                plain: Seq<Hand>,
                wild: Seq<Hand>,
            |
                #![trigger are_hands(plain, lines_of(input@), false), are_hands(wild, lines_of(input@), true)]
                are_hands(plain, lines_of(input@), false) && are_hands(
                    wild,
                    lines_of(input@),
                    true,
                ) && (answer(plain) is None || answer(wild) is None),
    {
        match Self::parse_input(input) {
            Some(hands) => {
                assert(are_hands(hands.0@, lines_of(input@), false));
                assert(are_hands(hands.1@, lines_of(input@), true));
                match (Self::part_one(&hands), Self::part_two(&hands)) {
                    (Some(a), Some(b)) => Some((a, b)),
                    _ => None,
                }
            },
            None => None,
        }
    }
}

} // verus!
