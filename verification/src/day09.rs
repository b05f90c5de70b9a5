//! Histories of values: the value that comes next in each history and the
//! value that came before it, worked out from the differences of
//! neighbouring values, and the differences of those, down to a row of
//! zeros.

use vstd::prelude::*;
use crate::sums::{in_i64, lemma_running_sum_next, lemma_running_sum_none, running_sum};
use crate::text::{
    lines, lines_of, parse_signed, read_signed, signed_digits, signed_string, tokens, tokens_of,
    views,
};

verus! {

/// The solver of the history puzzle.
#[derive(Clone, Copy, Debug)]
pub struct Day09;

/// The values of a vector as numbers without bounds.
pub open spec fn ints(v: Seq<i64>) -> Seq<int> {
    Seq::new(v.len(), |i: int| v[i] as int)
}

/// The differences of neighbouring values, each value taken from the one
/// after it.
pub open spec fn differences(s: Seq<int>) -> Seq<int> {
    Seq::new(
        if s.len() > 0 {
            (s.len() - 1) as nat
        } else {
            0
        },
        |i: int| s[i + 1] - s[i],
    )
}

/// Whether every value fits a signed 64-bit integer.
pub open spec fn all_in_i64(s: Seq<int>) -> bool {
    forall|i: int| 0 <= i < s.len() ==> in_i64(#[trigger] s[i])
}

/// Whether every value is zero.
pub open spec fn all_zero(s: Seq<int>) -> bool {
    forall|i: int| 0 <= i < s.len() ==> #[trigger] s[i] == 0
}

/// The rows of differences under a row of values, down to the last row
/// that is not all zeros, added to `rows`. `None` where a difference leaves
/// the range of a signed 64-bit integer.
pub open spec fn rows_under(s: Seq<int>, rows: Seq<Seq<int>>) -> Option<Seq<Seq<int>>>
    decreases s.len(),
{
    let d = differences(s);
    if !all_in_i64(d) {
        None
    } else if all_zero(d) {
        Some(rows)
    } else {
        rows_under(d, rows.push(d))
    }
}

/// The last value of every row.
pub open spec fn lasts(rows: Seq<Seq<int>>) -> Seq<Option<int>> {
    Seq::new(rows.len(), |i: int| Some(rows[i].last()))
}

/// The value of the climb back from the rows `k ..` of differences: the
/// first value of row `k`, less the value of the climb from the rows
/// below it. `None` where a value leaves the range of a signed 64-bit
/// integer.
pub open spec fn climb(rows: Seq<Seq<int>>, k: nat) -> Option<int>
    decreases rows.len() - k,
{
    if k >= rows.len() {
        Some(0)
    } else {
        match climb(rows, k + 1) {
            Some(v) => if in_i64(rows[k as int].first() - v) {
                Some(rows[k as int].first() - v)
            } else {
                None
            },
            None => None,
        }
    }
}

/// The value that comes after the last of a history: the sum of the last
/// values of the rows of differences, added from the top row down, and
/// then the last value of the history. `None` for an empty history and
/// where a value leaves the range of a signed 64-bit integer.
pub open spec fn next_value(s: Seq<int>) -> Option<int> {
    if s.len() == 0 {
        None
    } else {
        match rows_under(s, Seq::empty()) {
            None => None,
            Some(rows) => match running_sum(lasts(rows)) {
                Some(t) => if in_i64(t + s.last()) {
                    Some(t + s.last())
                } else {
                    None
                },
                None => None,
            },
        }
    }
}

/// The value that came before the first of a history: the first value,
/// less the climb back from the rows of differences. `None` for an empty
/// history and where a value leaves the range of a signed 64-bit integer.
pub open spec fn previous_value(s: Seq<int>) -> Option<int> {
    if s.len() == 0 {
        None
    } else {
        match rows_under(s, Seq::empty()) {
            None => None,
            Some(rows) => match climb(rows, 0) {
                Some(v) => if in_i64(s.first() - v) {
                    Some(s.first() - v)
                } else {
                    None
                },
                None => None,
            },
        }
    }
}

/// The views of the rows of a vector of vectors.
pub open spec fn row_ints(rows: Seq<Vec<i64>>) -> Seq<Seq<int>> {
    Seq::new(rows.len(), |i: int| ints(rows[i]@))
}

fn differences_of(s: &Vec<i64>) -> (r: Option<(Vec<i64>, bool)>)
    ensures
        r matches Some((d, zero)) ==> ints(d@) == differences(ints(s@)) && zero == all_zero(
            ints(d@),
        ) && all_in_i64(differences(ints(s@))),
        r is None ==> !all_in_i64(differences(ints(s@))),
{
    let mut d: Vec<i64> = Vec::new();
    let mut zero = true;
    let ghost target = differences(ints(s@));
    let mut i: usize = 0;
    if s.len() == 0 {
        assert(ints(d@) =~= target);
        return Some((d, true));
    }
    while i < s.len() - 1
        invariant
            s.len() > 0,
            i <= s.len() - 1,
            target == differences(ints(s@)),
            d.len() == i,
            forall|j: int| 0 <= j < i ==> #[trigger] d[j] as int == target[j],
            zero ==> forall|j: int| 0 <= j < i ==> #[trigger] d[j] == 0,
            !zero ==> exists|j: int| 0 <= j < i && #[trigger] d[j] != 0,
        decreases s.len() - 1 - i,
    {
        match s[i + 1].checked_sub(s[i]) {
            Some(x) => {
                let ghost witness = if zero {
                    i as int
                } else {
                    choose|j: int| 0 <= j < i && #[trigger] d[j] != 0
                };
                d.push(x);
                if x != 0 {
                    zero = false;
                }
                assert(!zero ==> d[witness] != 0);
            },
            None => {
                assert(!in_i64(target[i as int]));
                return None;
            },
        }
        i += 1;
    }
    assert(ints(d@) =~= target);
    assert(all_in_i64(target)) by {
        assert forall|j: int| 0 <= j < target.len() implies in_i64(#[trigger] target[j]) by {
            assert(d[j] as int == target[j]);
        }
    }
    proof {
        if zero {
            assert forall|j: int| 0 <= j < ints(d@).len() implies #[trigger] ints(d@)[j] == 0 by {
                assert(d[j] == 0);
            }
        } else {
            let j = choose|j: int| 0 <= j < i && #[trigger] d[j] != 0;
            assert(ints(d@)[j] != 0);
        }
    }
    Some((d, zero))
}

fn rows_of(s: &Vec<i64>) -> (r: Option<Vec<Vec<i64>>>)
    ensures
        r matches Some(rows) ==> rows_under(ints(s@), Seq::empty()) == Some(row_ints(rows@))
            && forall|i: int| 0 <= i < rows.len() ==> (#[trigger] rows[i]).len() > 0,
        r is None ==> rows_under(ints(s@), Seq::empty()) is None,
{
    let mut rows: Vec<Vec<i64>> = Vec::new();
    let mut current: Vec<i64> = Vec::new();
    let mut i: usize = 0;
    while i < s.len()
        invariant
            i <= s.len(),
            current@ == s@.take(i as int),
        decreases s.len() - i,
    {
        current.push(s[i]);
        i += 1;
    }
    assert(s@.take(s.len() as int) == s@);
    assert(row_ints(rows@) =~= Seq::<Seq<int>>::empty());
    loop
        invariant_except_break
            rows_under(ints(s@), Seq::empty()) == rows_under(ints(current@), row_ints(rows@)),
        invariant
            forall|i: int| 0 <= i < rows.len() ==> (#[trigger] rows[i]).len() > 0,
        ensures
            rows_under(ints(s@), Seq::empty()) == Some(row_ints(rows@)),
        decreases current.len(),
    {
        match differences_of(&current) {
            None => {
                return None;
            },
            Some((d, zero)) => {
                if zero {
                    break ;
                }
                assert(d.len() > 0) by {
                    if d.len() == 0 {
                        assert(all_zero(ints(d@)));
                    }
                }
                let ghost before = rows@;
                let mut copy: Vec<i64> = Vec::new();
                let mut j: usize = 0;
                while j < d.len()
                    invariant
                        j <= d.len(),
                        copy@ == d@.take(j as int),
                    decreases d.len() - j,
                {
                    copy.push(d[j]);
                    j += 1;
                }
                assert(d@.take(d.len() as int) == d@);
                rows.push(copy);
                assert(row_ints(rows@) =~= row_ints(before).push(ints(d@)));
                current = d;
            },
        }
    }
    Some(rows)
}

/// The value that comes after the last of a history.
pub fn extrapolate(s: &Vec<i64>) -> (r: Option<i64>)
    ensures
        r matches Some(v) ==> next_value(ints(s@)) == Some(v as int),
        r is None ==> next_value(ints(s@)) is None,
{
    if s.len() == 0 {
        return None;
    }
    let rows = match rows_of(s) {
        Some(rows) => rows,
        None => {
            return None;
        },
    };
    let ghost terms = lasts(row_ints(rows@));
    let mut acc: i64 = 0;
    let mut i: usize = 0;
    while i < rows.len()
        invariant
            i <= rows.len(),
            terms == lasts(row_ints(rows@)),
            s.len() > 0,
            rows_under(ints(s@), Seq::empty()) == Some(row_ints(rows@)),
            forall|i: int| 0 <= i < rows.len() ==> (#[trigger] rows[i]).len() > 0,
            running_sum(terms.take(i as int)) == Some(acc as int),
        decreases rows.len() - i,
    {
        proof {
            lemma_running_sum_next(terms, i as int);
        }
        let row = &rows[i];
        let last = row[row.len() - 1];
        assert(terms[i as int] == Some(last as int)) by {
            assert(row_ints(rows@)[i as int] == ints(row@));
            assert(ints(row@).last() == last as int);
        }
        match acc.checked_add(last) {
            Some(v) => {
                acc = v;
            },
            None => {
                proof {
                    lemma_running_sum_none(terms, i + 1);
                }
                return None;
            },
        }
        i += 1;
    }
    assert(terms.take(rows.len() as int) == terms);
    assert(ints(s@).last() == s[s.len() - 1] as int);
    acc.checked_add(s[s.len() - 1])
}

/// The value that came before the first of a history.
pub fn extrapolate_back(s: &Vec<i64>) -> (r: Option<i64>)
    ensures
        r matches Some(v) ==> previous_value(ints(s@)) == Some(v as int),
        r is None ==> previous_value(ints(s@)) is None,
{
    if s.len() == 0 {
        return None;
    }
    let rows = match rows_of(s) {
        Some(rows) => rows,
        None => {
            return None;
        },
    };
    let ghost all = row_ints(rows@);
    let mut acc: i64 = 0;
    let mut k: usize = rows.len();
    while k > 0
        invariant
            k <= rows.len(),
            all == row_ints(rows@),
            s.len() > 0,
            rows_under(ints(s@), Seq::empty()) == Some(all),
            forall|i: int| 0 <= i < rows.len() ==> (#[trigger] rows[i]).len() > 0,
            climb(all, k as nat) == Some(acc as int),
        decreases k,
    {
        k -= 1;
        let row = &rows[k];
        let first = row[0];
        assert(all[k as int].first() == first as int) by {
            assert(all[k as int] == ints(row@));
        }
        match first.checked_sub(acc) {
            Some(v) => {
                acc = v;
            },
            None => {
                proof {
                    lemma_climb_none(all, k as nat, 0);
                }
                return None;
            },
        }
    }
    assert(ints(s@).first() == s[0] as int);
    s[0].checked_sub(acc)
}

proof fn lemma_climb_none(rows: Seq<Seq<int>>, k: nat, j: nat)
    requires
        j <= k <= rows.len(),
        climb(rows, k) is None,
    ensures
        climb(rows, j) is None,
    decreases k - j,
{
    if j < k {
        lemma_climb_none(rows, k, j + 1);
    }
}

/// What a line says of a history: its tokens read as signed numbers;
/// `None` where a token is no number.
pub open spec fn history_of(line: Seq<char>) -> Option<Seq<int>> {
    let t = tokens_of(line);
    if forall|i: int| 0 <= i < t.len() ==> parse_signed(#[trigger] t[i]) is Some {
        Some(Seq::new(t.len(), |i: int| parse_signed(t[i])->0))
    } else {
        None
    }
}

/// For every line the value that a part works out of its history; nothing
/// where the line is no history or the history has no such value.
pub open spec fn line_values(ls: Seq<Seq<char>>, second: bool) -> Seq<Option<int>> {
    Seq::new(
        ls.len(),
        |i: int|
            match history_of(ls[i]) {
                Some(h) => if second {
                    previous_value(h)
                } else {
                    next_value(h)
                },
                None => None,
            },
    )
}

/// For every history the value that a part works out of it.
pub open spec fn values(histories: Seq<Vec<i64>>, second: bool) -> Seq<Option<int>> {
    Seq::new(
        histories.len(),
        |i: int|
            if second {
                previous_value(ints(histories[i]@))
            } else {
                next_value(ints(histories[i]@))
            },
    )
}

/// A total as an answer: its decimal digits, with a minus sign before a
/// negative one.
pub open spec fn answer_of(total: Option<int>) -> Option<Seq<char>> {
    match total {
        Some(t) => Some(signed_digits(t)),
        None => None,
    }
}

/// The answer of a part for a text: the sum of the values of its lines,
/// added line by line; `None` where a line has no value or the running sum
/// leaves the range of a signed 64-bit integer.
pub open spec fn answer(text: Seq<char>, second: bool) -> Option<Seq<char>> {
    answer_of(running_sum(line_values(lines_of(text), second)))
}

fn read_history(line: &Vec<char>) -> (r: Option<Vec<i64>>)
    ensures
        r matches Some(h) ==> history_of(line@) == Some(ints(h@)),
        r is None ==> history_of(line@) is None,
{
    let toks = tokens(line.as_slice());
    let ghost t = tokens_of(line@);
    let mut h: Vec<i64> = Vec::new();
    let mut i: usize = 0;
    while i < toks.len()
        invariant
            i <= toks.len(),
            views(toks@) == t,
            t == tokens_of(line@),
            h.len() == i,
            forall|j: int| 0 <= j < i ==> parse_signed(t[j]) == Some((#[trigger] h[j]) as int),
        decreases toks.len() - i,
    {
        assert(toks[i as int]@ == t[i as int]);
        match read_signed(toks[i].as_slice()) {
            Some(v) => {
                h.push(v);
            },
            None => {
                assert(parse_signed(t[i as int]) is None);
                return None;
            },
        }
        i += 1;
    }
    assert(ints(h@) =~= Seq::new(t.len(), |i: int| parse_signed(t[i])->0)) by {
        assert forall|j: int| 0 <= j < t.len() implies ints(h@)[j] == parse_signed(t[j])->0 by {
            assert(parse_signed(t[j]) == Some(h[j] as int));
        }
    }
    assert forall|j: int| 0 <= j < t.len() implies parse_signed(#[trigger] t[j]) is Some by {
        assert(parse_signed(t[j]) == Some(h[j] as int));
    }
    Some(h)
}

fn total(histories: &Vec<Vec<i64>>, second: bool) -> (r: Option<String>)
    ensures
        r matches Some(s) ==> answer_of(running_sum(values(histories@, second))) == Some(s@),
        r is None ==> answer_of(running_sum(values(histories@, second))) is None,
{
    let ghost terms = values(histories@, second);
    let mut acc: i64 = 0;
    let mut i: usize = 0;
    while i < histories.len()
        invariant
            i <= histories.len(),
            terms == values(histories@, second),
            running_sum(terms.take(i as int)) == Some(acc as int),
        decreases histories.len() - i,
    {
        proof {
            lemma_running_sum_next(terms, i as int);
        }
        let v = if second {
            extrapolate_back(&histories[i])
        } else {
            extrapolate(&histories[i])
        };
        let sum = match v {
            Some(v) => acc.checked_add(v),
            None => None,
        };
        match sum {
            Some(t) => {
                acc = t;
            },
            None => {
                proof {
                    lemma_running_sum_none(terms, i + 1);
                }
                return None;
            },
        }
        i += 1;
    }
    assert(terms.take(histories.len() as int) == terms);
    Some(signed_string(acc))
}

impl Day09 {
    /// Reads the histories, one to a line; `None` where a token is no
    /// signed 64-bit number.
    pub fn parse_input(input: &str) -> (r: Option<Vec<Vec<i64>>>)
        ensures
            r matches Some(hs) ==> hs.len() == lines_of(input@).len() && forall|i: int|
                0 <= i < hs.len() ==> history_of(lines_of(input@)[i]) == Some(
                    ints((#[trigger] hs[i])@),
                ),
            r is None ==> exists|i: int|
                0 <= i < lines_of(input@).len() && history_of(#[trigger] lines_of(input@)[i])
                    is None,
    {
        let rows = lines(input);
        let ghost ls = lines_of(input@);
        let mut hs: Vec<Vec<i64>> = Vec::new();
        let mut i: usize = 0;
        while i < rows.len()
            invariant
                i <= rows.len(),
                views(rows@) == ls,
                ls == lines_of(input@),
                hs.len() == i,
                forall|j: int| 0 <= j < i ==> history_of(ls[j]) == Some(ints((#[trigger] hs[j])@)),
            decreases rows.len() - i,
        {
            assert(rows[i as int]@ == ls[i as int]);
            match read_history(&rows[i]) {
                Some(h) => {
                    hs.push(h);
                },
                None => {
                    assert(history_of(ls[i as int]) is None);
                    return None;
                },
            }
            i += 1;
        }
        Some(hs)
    }

    /// The sum of the values that come next in the histories.
    pub fn part_one(parsed_input: &Vec<Vec<i64>>) -> (r: Option<String>)
        ensures
            r matches Some(s) ==> answer_of(running_sum(values(parsed_input@, false))) == Some(s@),
            r is None ==> answer_of(running_sum(values(parsed_input@, false))) is None,
    {
        total(parsed_input, false)
    }

    /// The sum of the values that came before the histories.
    pub fn part_two(parsed_input: &Vec<Vec<i64>>) -> (r: Option<String>)
        ensures
            r matches Some(s) ==> answer_of(running_sum(values(parsed_input@, true))) == Some(s@),
            r is None ==> answer_of(running_sum(values(parsed_input@, true))) is None,
    {
        total(parsed_input, true)
    }

    fn solve_part(input: &str, second: bool) -> (r: Option<String>)
        ensures
            r matches Some(s) ==> answer(input@, second) == Some(s@),
            r is None ==> answer(input@, second) is None,
    {
        let ghost ls = lines_of(input@);
        match Self::parse_input(input) {
            Some(hs) => {
                assert(values(hs@, second) =~= line_values(ls, second)) by {
                    assert forall|i: int| 0 <= i < hs.len() implies values(hs@, second)[i]
                        == line_values(ls, second)[i] by {
                        assert(history_of(ls[i]) == Some(ints(hs[i]@)));
                    }
                }
                total(&hs, second)
            },
            None => {
                proof {
                    let i = choose|i: int| 0 <= i < ls.len() && history_of(#[trigger] ls[i]) is None;
                    let terms = line_values(ls, second);
                    lemma_running_sum_next(terms, i);
                    lemma_running_sum_none(terms, i + 1);
                }
                None
            },
        }
    }

    /// Reads the histories and answers the first part.
    pub fn solve_part_one(input: &str) -> (r: Option<String>)
        ensures
            r matches Some(s) ==> answer(input@, false) == Some(s@),
            r is None ==> answer(input@, false) is None,
    {
        Self::solve_part(input, false)
    }

    /// Reads the histories and answers the second part.
    pub fn solve_part_two(input: &str) -> (r: Option<String>)
        ensures
            r matches Some(s) ==> answer(input@, true) == Some(s@),
            r is None ==> answer(input@, true) is None,
    {
        Self::solve_part(input, true)
    }

    /// Reads the histories and answers both parts; `None` where either has
    /// no answer. The flag asks whoever calls to time the work; the answers
    /// do not depend on it.
    pub fn solve(input: &str, include_time: bool) -> (r: Option<(String, String)>)
        ensures
            r matches Some((one, two)) ==> answer(input@, false) == Some(one@) && answer(
                input@,
                true,
            ) == Some(two@),
            r is None ==> answer(input@, false) is None || answer(input@, true) is None,
    {
        match (Self::solve_part(input, false), Self::solve_part(input, true)) {
            (Some(a), Some(b)) => Some((a, b)),
            _ => None,
        }
    }
}

} // verus!
