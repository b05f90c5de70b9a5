//! Boat races: in how many ways the button can be held so that the boat
//! beats the record distance, for a list of short races and for one long
//! race written across the same columns.

use vstd::prelude::*;
use crate::text::{
    decimal_digits, decimal_string, lines, lines_of, parse_unsigned, read_unsigned, tokens,
    tokens_of, views,
};

verus! {

/// The solver of the boat race puzzle.
#[derive(Clone, Copy, Debug)]
pub struct Day06;

/// The races of a sheet: the short races, each a time and a record
/// distance, and the long race.
#[derive(Debug)]
pub struct Races {
    pub short: Vec<(u16, u16)>,
    pub long: (u64, u64),
}

/// The tokens `from .. to` of a list written one after another without
/// anything between.
pub open spec fn glued(tokens: Seq<Seq<char>>, from: int, to: int) -> Seq<char>
    decreases to - from,
{
    if to <= from {
        Seq::empty()
    } else {
        glued(tokens, from, to - 1) + tokens[to - 1]
    }
}

/// The lesser of two numbers.
pub open spec fn smaller(a: int, b: int) -> int {
    if a <= b {
        a
    } else {
        b
    }
}

/// The number of columns of a sheet: as many as the shorter of its two
/// rows has tokens, the first of them being the headings.
pub open spec fn columns(ls: Seq<Seq<char>>) -> int {
    smaller(tokens_of(ls[0]).len() as int, tokens_of(ls[1]).len() as int)
}

/// Whether the text is a sheet of races: two lines or more, in every column
/// after the first a time and a distance of 16 bits, and the columns
/// written together a time and a distance of 64 bits.
pub open spec fn is_sheet(ls: Seq<Seq<char>>) -> bool {
    &&& ls.len() >= 2
    &&& forall|i: int|
        1 <= i < columns(ls) ==> parse_unsigned(#[trigger] tokens_of(ls[0])[i], u16::MAX as nat)
            is Some && parse_unsigned(tokens_of(ls[1])[i], u16::MAX as nat) is Some
    &&& parse_unsigned(glued(tokens_of(ls[0]), 1, columns(ls)), u64::MAX as nat) is Some
    &&& parse_unsigned(glued(tokens_of(ls[1]), 1, columns(ls)), u64::MAX as nat) is Some
}

impl Races {
    /// The answer of the first part: the product, over the short races, of
    /// the number of ways to beat the record, in decimal digits; `None`
    /// where it is beyond 64 bits.
    pub open spec fn answer_one(&self) -> Option<Seq<char>> {
        answer_of(product(short_ways(self.short@)))
    }

    /// The answer of the second part: the number of ways to beat the record
    /// of the long race, in decimal digits.
    pub open spec fn answer_two(&self) -> Seq<char> {
        decimal_digits(ways(self.long.0 as int, self.long.1 as int, self.long.0 as nat))
    }

    /// Whether the races are those of the sheet `ls`.
    pub open spec fn depicts(&self, ls: Seq<Seq<char>>) -> bool {
        &&& self.short.len() == if columns(ls) >= 1 {
            columns(ls) - 1
        } else {
            0
        }
        &&& forall|i: int|
            0 <= i < self.short.len() ==> parse_unsigned(
                tokens_of(ls[0])[i + 1],
                u16::MAX as nat,
            ) == Some((#[trigger] self.short[i]).0 as nat) && parse_unsigned(
                tokens_of(ls[1])[i + 1],
                u16::MAX as nat,
            ) == Some(self.short[i].1 as nat)
        &&& parse_unsigned(glued(tokens_of(ls[0]), 1, columns(ls)), u64::MAX as nat) == Some(
            self.long.0 as nat,
        )
        &&& parse_unsigned(glued(tokens_of(ls[1]), 1, columns(ls)), u64::MAX as nat) == Some(
            self.long.1 as nat,
        )
    }
}

/// Among the first `n` holding times, from zero upward, the number of those
/// that beat the record: holding for `i` of `time` gives the speed `i` for
/// the rest of the time.
pub open spec fn ways(time: int, dist: int, n: nat) -> nat
    decreases n,
{
    if n == 0 {
        0
    } else {
        ways(time, dist, (n - 1) as nat) + if (time - (n - 1)) * (n - 1) > dist {
            1nat
        } else {
            0nat
        }
    }
}

/// The product of the numbers of `s`.
pub open spec fn product(s: Seq<int>) -> int
    decreases s.len(),
{
    if s.len() == 0 {
        1
    } else {
        product(s.drop_last()) * s.last()
    }
}

/// For every short race the number of ways to beat its record.
pub open spec fn short_ways(races: Seq<(u16, u16)>) -> Seq<int> {
    Seq::new(
        races.len(),
        |i: int| ways(races[i].0 as int, races[i].1 as int, races[i].0 as nat) as int,
    )
}

/// Counts the ways to beat the record of one race.
pub fn count_ways(time: u64, dist: u64) -> (n: u64)
    ensures
        n == ways(time as int, dist as int, time as nat),
{
    let mut n: u64 = 0;
    let mut i: u64 = 0;
    while i < time
        invariant
            i <= time,
            n == ways(time as int, dist as int, i as nat),
            n <= i,
        decreases time - i,
    {
        let left: u128 = (time - i) as u128;
        let speed: u128 = i as u128;
        assert(left * speed <= 0xffff_ffff_ffff_ffff * 0xffff_ffff_ffff_ffff) by (nonlinear_arith)
            requires
                left <= 0xffff_ffff_ffff_ffff,
                speed <= 0xffff_ffff_ffff_ffff,
        ;
        if left * speed > dist as u128 {
            n += 1;
        }
        i += 1;
    }
    n
}

proof fn lemma_product_take(s: Seq<int>, n: int)
    requires
        0 <= n < s.len(),
    ensures
        product(s.take(n + 1)) == product(s.take(n)) * s[n],
{
    assert(s.take(n + 1).drop_last() == s.take(n));
}

proof fn lemma_product_positive(s: Seq<int>, n: int)
    requires
        0 <= n <= s.len(),
        forall|i: int| 0 <= i < s.len() ==> #[trigger] s[i] >= 1,
    ensures
        1 <= product(s.take(n)) <= product(s),
    decreases s.len() - n,
{
    if n == s.len() {
        assert(s.take(n) == s);
        lemma_product_at_least_one(s);
    } else {
        lemma_product_positive(s, n + 1);
        lemma_product_take(s, n);
        lemma_product_at_least_one(s.take(n));
        let a = product(s.take(n));
        let b = s[n];
        assert(a <= a * b) by (nonlinear_arith)
            requires
                a >= 1,
                b >= 1,
        ;
    }
}

proof fn lemma_product_at_least_one(s: Seq<int>)
    requires
        forall|i: int| 0 <= i < s.len() ==> #[trigger] s[i] >= 1,
    ensures
        product(s) >= 1,
    decreases s.len(),
{
    if s.len() > 0 {
        lemma_product_at_least_one(s.drop_last());
        let a = product(s.drop_last());
        let b = s.last();
        assert(a * b >= 1) by (nonlinear_arith)
            requires
                a >= 1,
                b >= 1,
        ;
    }
}

proof fn lemma_product_zero(s: Seq<int>, i: int)
    requires
        0 <= i < s.len(),
        s[i] == 0,
    ensures
        product(s) == 0,
    decreases s.len(),
{
    if i < s.len() - 1 {
        lemma_product_zero(s.drop_last(), i);
    }
    let a = product(s.drop_last());
    let b = s.last();
    assert(a * b == 0) by (nonlinear_arith)
        requires
            a == 0 || b == 0,
    ;
}

/// A number as an answer: its decimal digits, or `None` where it is beyond
/// 64 bits.
pub open spec fn answer_of(n: int) -> Option<Seq<char>> {
    if 0 <= n <= u64::MAX {
        Some(decimal_digits(n as nat))
    } else {
        None
    }
}

fn glue(tokens: &Vec<Vec<char>>, to: usize) -> (r: Vec<char>)
    requires
        to <= tokens.len(),
    ensures
        r@ == glued(views(tokens@), 1, to as int),
{
    let mut r: Vec<char> = Vec::new();
    if to == 0 {
        return r;
    }
    let mut i: usize = 1;
    while i < to
        invariant
            1 <= i <= to,
            to <= tokens.len(),
            r@ == glued(views(tokens@), 1, i as int),
        decreases to - i,
    {
        let t = &tokens[i];
        let ghost before = r@;
        let mut j: usize = 0;
        while j < t.len()
            invariant
                j <= t.len(),
                r@ == before + t@.take(j as int),
            decreases t.len() - j,
        {
            r.push(t[j]);
            assert(t@.take(j + 1) == t@.take(j as int).push(t@[j as int]));
            j += 1;
        }
        assert(t@.take(t.len() as int) == t@);
        assert(views(tokens@)[i as int] == t@);
        i += 1;
    }
    r
}

impl Day06 {
    /// Reads a sheet of races; `None` where the text is none.
    pub fn parse_input(input: &str) -> (r: Option<Races>)
        ensures
            r matches Some(races) ==> is_sheet(lines_of(input@)) && races.depicts(lines_of(input@)),
            r is None ==> !is_sheet(lines_of(input@)),
    {
        let rows = lines(input);
        let ghost ls = lines_of(input@);
        if rows.len() < 2 {
            return None;
        }
        assert(rows[0]@ == ls[0] && rows[1]@ == ls[1]);
        let times = tokens(rows[0].as_slice());
        let dists = tokens(rows[1].as_slice());
        let n = if times.len() <= dists.len() {
            times.len()
        } else {
            dists.len()
        };
        let mut short: Vec<(u16, u16)> = Vec::new();
        let mut i: usize = 1;
        while i < n
            invariant
                1 <= i,
                i <= n || n < 1,
                ls == lines_of(input@),
                ls.len() >= 2,
                n == columns(ls),
                n <= times.len(),
                n <= dists.len(),
                views(times@) == tokens_of(ls[0]),
                views(dists@) == tokens_of(ls[1]),
                short.len() == i - 1,
                forall|j: int|
                    0 <= j < short.len() ==> parse_unsigned(
                        tokens_of(ls[0])[j + 1],
                        u16::MAX as nat,
                    ) == Some((#[trigger] short[j]).0 as nat) && parse_unsigned(
                        tokens_of(ls[1])[j + 1],
                        u16::MAX as nat,
                    ) == Some(short[j].1 as nat),
            decreases n - i,
        {
            assert(times[i as int]@ == views(times@)[i as int]);
            assert(dists[i as int]@ == views(dists@)[i as int]);
            let t = read_unsigned(times[i].as_slice(), 0xffff);
            let d = read_unsigned(dists[i].as_slice(), 0xffff);
            match (t, d) {
                (Some(t), Some(d)) => {
                    short.push((t as u16, d as u16));
                },
                _ => {
                    assert(!(parse_unsigned(tokens_of(ls[0])[i as int], u16::MAX as nat) is Some
                        && parse_unsigned(tokens_of(ls[1])[i as int], u16::MAX as nat) is Some));
                    return None;
                },
            }
            i += 1;
        }
        let long_time = glue(&times, n);
        let long_dist = glue(&dists, n);
        let t = read_unsigned(long_time.as_slice(), u64::MAX);
        let d = read_unsigned(long_dist.as_slice(), u64::MAX);
        match (t, d) {
            (Some(t), Some(d)) => {
                assert forall|j: int| 1 <= j < columns(ls) implies parse_unsigned(
                    #[trigger] tokens_of(ls[0])[j],
                    u16::MAX as nat,
                ) is Some && parse_unsigned(tokens_of(ls[1])[j], u16::MAX as nat) is Some by {
                    let s = short[j - 1];
                }
                Some(Races { short, long: (t, d) })
            },
            _ => None,
        }
    }

    /// The product, over the short races, of the number of ways to beat
    /// the record; `None` where it is beyond 64 bits.
    pub fn part_one(parsed_input: &Races) -> (r: Option<String>)
        ensures
            r matches Some(s) ==> parsed_input.answer_one() == Some(s@),
            r is None ==> parsed_input.answer_one() is None,
    {
        let ghost factors = short_ways(parsed_input.short@);
        let mut counts: Vec<u64> = Vec::new();
        let mut i: usize = 0;
        while i < parsed_input.short.len()
            invariant
                i <= parsed_input.short.len(),
                factors == short_ways(parsed_input.short@),
                counts.len() == i,
                forall|j: int| 0 <= j < i ==> #[trigger] counts[j] == factors[j],
                forall|j: int| 0 <= j < i ==> #[trigger] counts[j] >= 1,
            decreases parsed_input.short.len() - i,
        {
            let w = count_ways(parsed_input.short[i].0 as u64, parsed_input.short[i].1 as u64);
            if w == 0 {
                proof {
                    lemma_product_zero(factors, i as int);
                }
                return Some(decimal_string(0));
            }
            counts.push(w);
            i += 1;
        }
        let mut acc: u64 = 1;
        let mut i: usize = 0;
        assert forall|j: int| 0 <= j < factors.len() implies #[trigger] factors[j] >= 1 by {
            assert(counts[j] >= 1);
        }
        while i < counts.len()
            invariant
                i <= counts.len(),
                factors == short_ways(parsed_input.short@),
                counts.len() == factors.len(),
                forall|j: int| 0 <= j < counts.len() ==> #[trigger] counts[j] == factors[j],
                forall|j: int| 0 <= j < factors.len() ==> #[trigger] factors[j] >= 1,
                acc == product(factors.take(i as int)),
            decreases counts.len() - i,
        {
            proof {
                lemma_product_take(factors, i as int);
                lemma_product_positive(factors, i + 1);
            }
            let (a, b) = (acc as u128, counts[i] as u128);
            assert(a * b <= 0xffff_ffff_ffff_ffff * 0xffff_ffff_ffff_ffff) by (nonlinear_arith)
                requires
                    a <= 0xffff_ffff_ffff_ffff,
                    b <= 0xffff_ffff_ffff_ffff,
            ;
            let wide: u128 = a * b;
            if wide > u64::MAX as u128 {
                return None;
            }
            acc = wide as u64;
            i += 1;
        }
        assert(factors.take(counts.len() as int) == factors);
        Some(decimal_string(acc))
    }

    /// The number of ways to beat the record of the long race.
    pub fn part_two(parsed_input: &Races) -> (s: String)
        ensures
            s@ == parsed_input.answer_two(),
    {
        decimal_string(count_ways(parsed_input.long.0, parsed_input.long.1))
    }

    /// Reads a sheet and answers the first part; `None` where the text is
    /// no sheet or the answer is beyond 64 bits.
    pub fn solve_part_one(input: &str) -> (r: Option<String>)
        ensures
            r matches Some(s) ==> exists|races: Races|
                #![trigger races.depicts(lines_of(input@))]
                races.depicts(lines_of(input@)) && races.answer_one() == Some(s@),
            r is Some ==> is_sheet(lines_of(input@)),
            r is None ==> !is_sheet(lines_of(input@)) || exists|races: Races|
                #![trigger races.depicts(lines_of(input@))]
                races.depicts(lines_of(input@)) && races.answer_one() is None,
    {
        match Self::parse_input(input) {
            Some(races) => {
                let r = Self::part_one(&races);
                r
            },
            None => None,
        }
    }

    /// Reads a sheet and answers the second part; `None` where the text is
    /// no sheet.
    pub fn solve_part_two(input: &str) -> (r: Option<String>)
        ensures
            r is Some <==> is_sheet(lines_of(input@)),
            r matches Some(s) ==> exists|races: Races|
                #![trigger races.depicts(lines_of(input@))]
                races.depicts(lines_of(input@)) && s@ == races.answer_two(),
    {
        match Self::parse_input(input) {
            Some(races) => {
                let s = Self::part_two(&races);
                Some(s)
            },
            None => None,
        }
    }

    /// Reads a sheet and answers both parts; `None` where either has no
    /// answer. The flag asks whoever calls to time the work; the answers do
    /// not depend on it.
    pub fn solve(input: &str, include_time: bool) -> (r: Option<(String, String)>)
        ensures
            r is Some ==> is_sheet(lines_of(input@)),
            r matches Some((one, two)) ==> exists|races: Races|
                #![trigger races.depicts(lines_of(input@))]
                races.depicts(lines_of(input@)) && races.answer_one() == Some(one@) && two@
                    == races.answer_two(),
            r is None ==> !is_sheet(lines_of(input@)) || exists|races: Races|
                #![trigger races.depicts(lines_of(input@))]
                races.depicts(lines_of(input@)) && races.answer_one() is None,
    {
        match Self::parse_input(input) {
            Some(races) => {
                let two = Self::part_two(&races);
                match Self::part_one(&races) {
                    Some(one) => Some((one, two)),
                    None => None,
                }
            },
            None => None,
        }
    }
}

/// Two lists of races that depict the same sheet are the same races.
pub proof fn lemma_sheet_determines_races(a: &Races, b: &Races, ls: Seq<Seq<char>>)
    requires
        a.depicts(ls),
        b.depicts(ls),
    ensures
        a.short@ == b.short@,
        a.long == b.long,
        a.answer_one() == b.answer_one(),
        a.answer_two() == b.answer_two(),
{
    assert forall|i: int| 0 <= i < a.short.len() implies a.short@[i] == b.short@[i] by {
        let x = a.short[i];
        let y = b.short[i];
        assert(x.0 == y.0 && x.1 == y.1);
    }
    assert(a.short@ =~= b.short@);
}

} // verus!
