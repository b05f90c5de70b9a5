//! An engine schematic: numbers written in the rows of a grid, and symbols
//! beside them. The first part adds the numbers that stand beside a symbol;
//! the second multiplies the two numbers beside every star that has exactly
//! two, and adds the products.

use vstd::prelude::*;
use crate::sums::{
    capped_sum, lemma_capped_sum_next, lemma_capped_sum_none, lemma_sum_opt_missing,
    lemma_sum_opt_next, sum, sum_opt,
};
use crate::text::{
    decimal_digits, decimal_string, digit, digit_value, is_digit, lines, lines_of, value_of_digit,
    views,
};

verus! {

/// The solver of the engine schematic puzzle.
#[derive(Clone, Copy, Debug)]
pub struct Day03;

/// The cells beside the cell in column `x` of row `y`, the eight around it
/// or as many of them as have no negative coordinate: first the three to
/// the right and below, then those to the left, then those above.
pub open spec fn neighbours(x: int, y: int) -> Seq<(int, int)> {
    let first = seq![(x + 1, y + 1), (x + 1, y), (x, y + 1)];
    let left = if x > 0 {
        if y > 0 {
            seq![(x - 1, y + 1), (x - 1, y), (x - 1, y - 1)]
        } else {
            seq![(x - 1, y + 1), (x - 1, y)]
        }
    } else {
        Seq::empty()
    };
    let above = if y > 0 {
        seq![(x + 1, y - 1), (x, y - 1)]
    } else {
        Seq::empty()
    };
    first + left + above
}

/// The pairs of a vector of coordinates as numbers without bounds.
pub open spec fn pairs(v: Seq<(usize, usize)>) -> Seq<(int, int)> {
    Seq::new(v.len(), |i: int| (v[i].0 as int, v[i].1 as int))
}

/// The cells beside the cell `coord`, given as column and row.
pub fn adjacent_idxs(coord: (usize, usize)) -> (idxs: Vec<(usize, usize)>)
    requires
        coord.0 < usize::MAX,
        coord.1 < usize::MAX,
    ensures
        pairs(idxs@) == neighbours(coord.0 as int, coord.1 as int),
{
    let mut idxs: Vec<(usize, usize)> = Vec::new();
    idxs.push((coord.0 + 1, coord.1 + 1));
    idxs.push((coord.0 + 1, coord.1));
    idxs.push((coord.0, coord.1 + 1));
    if coord.0 > 0 {
        idxs.push((coord.0 - 1, coord.1 + 1));
        idxs.push((coord.0 - 1, coord.1));
        if coord.1 > 0 {
            idxs.push((coord.0 - 1, coord.1 - 1));
        }
    }
    if coord.1 > 0 {
        idxs.push((coord.0 + 1, coord.1 - 1));
        idxs.push((coord.0, coord.1 - 1));
    }
    assert(pairs(idxs@) =~= neighbours(coord.0 as int, coord.1 as int));
    idxs
}

/// The character in column `x` of row `y` of a grid; a dot outside it.
pub open spec fn char_at(grid: Seq<Seq<char>>, x: int, y: int) -> char {
    if 0 <= y < grid.len() && 0 <= x < grid[y].len() {
        grid[y][x]
    } else {
        '.'
    }
}

/// Whether a character is a symbol: neither a dot nor a digit.
pub open spec fn is_symbol(c: char) -> bool {
    c != '.' && !is_digit(c)
}

/// Whether one of the cells beside the cell in column `x` of row `y` holds
/// a symbol.
pub open spec fn near_symbol(grid: Seq<Seq<char>>, x: int, y: int) -> bool {
    exists|k: int|
        0 <= k < neighbours(x, y).len() && is_symbol(
            char_at(grid, (#[trigger] neighbours(x, y)[k]).0, neighbours(x, y)[k].1),
        )
}

/// The state of a scan of a row after its first `n` characters: the value
/// of the number in progress, whether one of its digits so far is marked,
/// and the values of the finished numbers that have a marked digit. `None`
/// where a number is beyond 32 bits.
pub open spec fn scan(row: Seq<char>, marks: Seq<bool>, n: nat) -> Option<(int, bool, Seq<int>)>
    decreases n,
{
    if n == 0 {
        Some((0, false, Seq::empty()))
    } else {
        match scan(row, marks, (n - 1) as nat) {
            None => None,
            Some((value, marked, found)) => {
                let c = row[n - 1];
                if !is_digit(c) {
                    Some((0, false, found))
                } else {
                    let value2 = value * 10 + digit_value(c);
                    let marked2 = marked || marks[n - 1];
                    if value2 > u32::MAX {
                        None
                    } else if n == row.len() || !is_digit(row[n as int]) {
                        Some(
                            (
                                0,
                                false,
                                if marked2 {
                                    found.push(value2)
                                } else {
                                    found
                                },
                            ),
                        )
                    } else {
                        Some((value2, marked2, found))
                    }
                }
            },
        }
    }
}

/// The numbers of a row that have a marked digit, in order; `None` where a
/// number of the row, marked or not, is beyond 32 bits.
pub open spec fn marked_numbers(row: Seq<char>, marks: Seq<bool>) -> Option<Seq<int>> {
    match scan(row, marks, row.len()) {
        Some((_, _, found)) => Some(found),
        None => None,
    }
}

/// The numbers of a vector as numbers without bounds.
pub open spec fn ints(v: Seq<u32>) -> Seq<int> {
    Seq::new(v.len(), |i: int| v[i] as int)
}

fn read_marked(row: &Vec<char>, marks: &Vec<bool>) -> (r: Option<Vec<u32>>)
    requires
        marks.len() == row.len(),
    ensures
        r matches Some(found) ==> marked_numbers(row@, marks@) == Some(ints(found@)),
        r is None ==> marked_numbers(row@, marks@) is None,
{
    let mut found: Vec<u32> = Vec::new();
    let mut value: u32 = 0;
    let mut marked = false;
    let mut i: usize = 0;
    assert(ints(found@) =~= Seq::<int>::empty());
    while i < row.len()
        invariant
            i <= row.len(),
            marks.len() == row.len(),
            scan(row@, marks@, i as nat) == Some((value as int, marked, ints(found@))),
        decreases row.len() - i,
    {
        let c = row[i];
        if !digit(c) {
            value = 0;
            marked = false;
        } else {
            let d = value_of_digit(c);
            let wide: u64 = value as u64 * 10 + d;
            if wide > 0xffff_ffff {
                proof {
                    lemma_scan_none(row@, marks@, (i + 1) as nat, row.len() as nat);
                }
                return None;
            }
            let marked2 = marked || marks[i];
            if i + 1 == row.len() || !digit(row[i + 1]) {
                if marked2 {
                    let ghost before = found@;
                    found.push(wide as u32);
                    assert(ints(found@) =~= ints(before).push(wide as int));
                }
                value = 0;
                marked = false;
            } else {
                value = wide as u32;
                marked = marked2;
            }
        }
        i += 1;
    }
    Some(found)
}

proof fn lemma_scan_none(row: Seq<char>, marks: Seq<bool>, k: nat, n: nat)
    requires
        k <= n,
        scan(row, marks, k) is None,
    ensures
        scan(row, marks, n) is None,
    decreases n,
{
    if k < n {
        lemma_scan_none(row, marks, k, (n - 1) as nat);
    }
}

/// For every cell of row `y`, whether it stands beside a symbol.
pub open spec fn symbol_marks(grid: Seq<Seq<char>>, y: int) -> Seq<bool> {
    Seq::new(grid[y].len(), |x: int| near_symbol(grid, x, y))
}

/// For every cell of a row of width `width`, whether it stands in column
/// `x` or beside it.
pub open spec fn column_marks(width: nat, x: int) -> Seq<bool> {
    Seq::new(width, |i: int| x - 1 <= i <= x + 1)
}

/// The numbers of row `y` with a digit in column `x` or beside it; none
/// for a row outside the grid.
pub open spec fn numbers_by(grid: Seq<Seq<char>>, x: int, y: int) -> Option<Seq<int>> {
    if 0 <= y < grid.len() {
        marked_numbers(grid[y], column_marks(grid[y].len(), x))
    } else {
        Some(Seq::empty())
    }
}

/// The numbers beside the cell in column `x` of row `y`: those of the row
/// above, of the row itself and of the row below, in this order.
pub open spec fn numbers_around(grid: Seq<Seq<char>>, x: int, y: int) -> Option<Seq<int>> {
    match (numbers_by(grid, x, y - 1), numbers_by(grid, x, y), numbers_by(grid, x, y + 1)) {
        (Some(a), Some(b), Some(c)) => Some(a + b + c),
        _ => None,
    }
}

/// What the cell in column `x` of row `y` adds to the second answer: the
/// product of the two numbers beside it where it holds a star and has
/// exactly two, and zero otherwise. `None` where the product is beyond 32
/// bits, or a number around the star is.
pub open spec fn gear_term(grid: Seq<Seq<char>>, x: int, y: int) -> Option<int> {
    if char_at(grid, x, y) != '*' {
        Some(0)
    } else {
        match numbers_around(grid, x, y) {
            None => None,
            Some(ns) => if ns.len() != 2 {
                Some(0)
            } else if ns[0] * ns[1] > u32::MAX {
                None
            } else {
                Some(ns[0] * ns[1])
            },
        }
    }
}

/// What every row adds to the answer of a part: to the first the sum of
/// its numbers that stand beside a symbol, to the second the sum of the
/// terms of its cells. `None` where a number of the row is beyond 32 bits,
/// or a term of the second part has no value.
pub open spec fn row_terms(grid: Seq<Seq<char>>, second: bool) -> Seq<Option<int>> {
    Seq::new(
        grid.len(),
        |y: int|
            match marked_numbers(grid[y], symbol_marks(grid, y)) {
                None => None,
                Some(found) => if second {
                    sum_opt(Seq::new(grid[y].len(), |x: int| gear_term(grid, x, y)))
                } else {
                    Some(sum(found))
                },
            },
    )
}

/// A total as an answer: its decimal digits.
pub open spec fn answer_of(total: Option<int>) -> Option<Seq<char>> {
    match total {
        Some(t) => Some(decimal_digits(t as nat)),
        None => None,
    }
}

/// The answer of a part for the rows of a grid: what the rows add, summed
/// row by row; `None` where a row adds nothing that can be told, or the
/// running sum goes beyond 32 bits.
pub open spec fn grid_answer(grid: Seq<Seq<char>>, second: bool) -> Option<Seq<char>> {
    answer_of(capped_sum(row_terms(grid, second), u32::MAX as int))
}

/// The answer of a part for a text.
pub open spec fn answer(text: Seq<char>, second: bool) -> Option<Seq<char>> {
    grid_answer(lines_of(text), second)
}

fn cell(grid: &Vec<Vec<char>>, x: usize, y: usize) -> (c: char)
    ensures
        c == char_at(views(grid@), x as int, y as int),
{
    if y < grid.len() {
        assert(views(grid@)[y as int] == grid[y as int]@);
        if x < grid[y].len() {
            return grid[y][x];
        }
    }
    '.'
}

fn beside_symbol(grid: &Vec<Vec<char>>, x: usize, y: usize) -> (b: bool)
    requires
        x < usize::MAX,
        y < usize::MAX,
    ensures
        b == near_symbol(views(grid@), x as int, y as int),
{
    let around = adjacent_idxs((x, y));
    let ghost ns = neighbours(x as int, y as int);
    let mut k: usize = 0;
    while k < around.len()
        invariant
            k <= around.len(),
            pairs(around@) == ns,
            ns == neighbours(x as int, y as int),
            forall|j: int|
                0 <= j < k ==> !is_symbol(char_at(views(grid@), (#[trigger] ns[j]).0, ns[j].1)),
        decreases around.len() - k,
    {
        assert(pairs(around@)[k as int] == ns[k as int]);
        let c = cell(grid, around[k].0, around[k].1);
        if c != '.' && !digit(c) {
            assert(is_symbol(char_at(views(grid@), ns[k as int].0, ns[k as int].1)));
            return true;
        }
        k += 1;
    }
    false
}

fn numbers_in_row(grid: &Vec<Vec<char>>, x: usize, y: usize) -> (r: Option<Vec<u32>>)
    requires
        x < usize::MAX,
        y < grid.len(),
    ensures
        r matches Some(v) ==> numbers_by(views(grid@), x as int, y as int) == Some(ints(v@)),
        r is None ==> numbers_by(views(grid@), x as int, y as int) is None,
{
    let row = &grid[y];
    assert(views(grid@)[y as int] == row@);
    let mut marks: Vec<bool> = Vec::new();
    let mut i: usize = 0;
    while i < row.len()
        invariant
            i <= row.len(),
            x < usize::MAX,
            marks.len() == i,
            forall|j: int| 0 <= j < i ==> #[trigger] marks[j] == (x - 1 <= j <= x + 1),
        decreases row.len() - i,
    {
        marks.push(i + 1 >= x && i <= x + 1);
        i += 1;
    }
    assert(marks@ =~= column_marks(row@.len(), x as int));
    read_marked(row, &marks)
}

fn gear(grid: &Vec<Vec<char>>, x: usize, y: usize) -> (r: Option<u64>)
    requires
        x < usize::MAX,
        y < grid.len(),
        x < grid[y as int].len(),
    ensures
        r matches Some(t) ==> gear_term(views(grid@), x as int, y as int) == Some(t as int) && t
            <= u32::MAX,
        r is None ==> gear_term(views(grid@), x as int, y as int) is None,
{
    assert(views(grid@)[y as int] == grid[y as int]@);
    if grid[y][x] != '*' {
        return Some(0);
    }
    let ghost g = views(grid@);
    let above = if y > 0 {
        numbers_in_row(grid, x, y - 1)
    } else {
        Some(Vec::new())
    };
    let beside = numbers_in_row(grid, x, y);
    let below = if y + 1 < grid.len() {
        numbers_in_row(grid, x, y + 1)
    } else {
        Some(Vec::new())
    };
    match (above, beside, below) {
        (Some(a), Some(b), Some(c)) => {
            assert(numbers_by(g, x as int, y - 1) == Some(ints(a@))) by {
                if y == 0 {
                    assert(ints(a@) =~= Seq::<int>::empty());
                }
            }
            assert(numbers_by(g, x as int, y + 1) == Some(ints(c@))) by {
                if y + 1 >= grid.len() {
                    assert(ints(c@) =~= Seq::<int>::empty());
                }
            }
            let ghost ns = ints(a@) + ints(b@) + ints(c@);
            let count: u128 = a.len() as u128 + b.len() as u128 + c.len() as u128;
            if count != 2 {
                return Some(0);
            }
            let first: u32 = if a.len() > 0 {
                a[0]
            } else if b.len() > 0 {
                b[0]
            } else {
                c[0]
            };
            let second: u32 = if c.len() > 0 {
                c[c.len() - 1]
            } else if b.len() > 0 {
                b[b.len() - 1]
            } else {
                a[a.len() - 1]
            };
            assert(ns[0] == first as int && ns[1] == second as int);
            let (p, q) = (first as u64, second as u64);
            assert(p * q <= 0xffff_ffff * 0xffff_ffff) by (nonlinear_arith)
                requires
                    p <= 0xffff_ffff,
                    q <= 0xffff_ffff,
            ;
            let product: u64 = p * q;
            if product > 0xffff_ffff {
                None
            } else {
                Some(product)
            }
        },
        _ => None,
    }
}

fn row_total(grid: &Vec<Vec<char>>, y: usize, second: bool) -> (r: Option<u128>)
    requires
        y < grid.len(),
    ensures
        r matches Some(t) ==> row_terms(views(grid@), second)[y as int] == Some(t as int) && t
            <= 0xffff_ffff * 0x1_0000_0000_0000_0000,
        r is None ==> row_terms(views(grid@), second)[y as int] is None,
{
    let ghost g = views(grid@);
    let row = &grid[y];
    assert(g[y as int] == row@);
    let mut marks: Vec<bool> = Vec::new();
    let mut x: usize = 0;
    while x < row.len()
        invariant
            x <= row.len(),
            y < grid.len(),
            g == views(grid@),
            g[y as int] == row@,
            marks.len() == x,
            forall|j: int| 0 <= j < x ==> #[trigger] marks[j] == near_symbol(g, j, y as int),
        decreases row.len() - x,
    {
        marks.push(beside_symbol(grid, x, y));
        x += 1;
    }
    assert(marks@ =~= symbol_marks(g, y as int));
    let found = match read_marked(row, &marks) {
        Some(f) => f,
        None => {
            return None;
        },
    };
    if second {
        let ghost terms = Seq::new(row@.len(), |x: int| gear_term(g, x, y as int));
        let mut acc: u128 = 0;
        let mut x: usize = 0;
        while x < row.len()
            invariant
                x <= row.len(),
                y < grid.len(),
                g == views(grid@),
                g[y as int] == row@,
                second,
                marked_numbers(g[y as int], symbol_marks(g, y as int)) is Some,
                terms == Seq::new(row@.len(), |x: int| gear_term(g, x, y as int)),
                sum_opt(terms.take(x as int)) == Some(acc as int),
                acc <= x * 0xffff_ffff,
            decreases row.len() - x,
        {
            proof {
                lemma_sum_opt_next(terms, x as int);
            }
            match gear(grid, x, y) {
                Some(t) => {
                    acc = acc + t as u128;
                },
                None => {
                    proof {
                        lemma_sum_opt_missing(terms, x as int);
                    }
                    return None;
                },
            }
            x += 1;
        }
        assert(terms.take(row.len() as int) == terms);
        Some(acc)
    } else {
        let ghost values = ints(found@);
        let mut acc: u128 = 0;
        let mut i: usize = 0;
        while i < found.len()
            invariant
                i <= found.len(),
                values == ints(found@),
                acc == sum(values.take(i as int)),
                acc <= i * 0xffff_ffff,
            decreases found.len() - i,
        {
            assert(values.take(i + 1).drop_last() == values.take(i as int));
            acc = acc + found[i] as u128;
            i += 1;
        }
        assert(values.take(found.len() as int) == values);
        Some(acc)
    }
}

impl Day03 {
    /// Reads the rows of the schematic.
    pub fn parse_input(input: &str) -> (grid: Vec<Vec<char>>)
        ensures
            views(grid@) == lines_of(input@),
    {
        lines(input)
    }

    fn total(grid: &Vec<Vec<char>>, second: bool) -> (r: Option<String>)
        ensures
            r matches Some(s) ==> grid_answer(views(grid@), second) == Some(s@),
            r is None ==> grid_answer(views(grid@), second) is None,
    {
        let ghost terms = row_terms(views(grid@), second);
        let mut acc: u128 = 0;
        let mut y: usize = 0;
        while y < grid.len()
            invariant
                y <= grid.len(),
                terms == row_terms(views(grid@), second),
                capped_sum(terms.take(y as int), u32::MAX as int) == Some(acc as int),
                acc <= 0xffff_ffff,
            decreases grid.len() - y,
        {
            proof {
                lemma_capped_sum_next(terms, u32::MAX as int, y as int);
            }
            let sum = match row_total(grid, y, second) {
                Some(t) => acc + t,
                None => 0x1_0000_0000,
            };
            if sum > 0xffff_ffff {
                proof {
                    lemma_capped_sum_none(terms, u32::MAX as int, y + 1);
                }
                return None;
            }
            acc = sum;
            y += 1;
        }
        assert(terms.take(grid.len() as int) == terms);
        Some(decimal_string(acc as u64))
    }

    /// The sum of the numbers that stand beside a symbol; `None` where a
    /// number or the sum is beyond 32 bits.
    pub fn part_one(parsed_input: &Vec<Vec<char>>) -> (r: Option<String>)
        ensures
            r matches Some(s) ==> grid_answer(views(parsed_input@), false) == Some(s@),
            r is None ==> grid_answer(views(parsed_input@), false) is None,
    {
        Self::total(parsed_input, false)
    }

    /// The sum of the products of the two numbers beside every star that
    /// has exactly two; `None` where a number, a product or the sum is
    /// beyond 32 bits.
    pub fn part_two(parsed_input: &Vec<Vec<char>>) -> (r: Option<String>)
        ensures
            r matches Some(s) ==> grid_answer(views(parsed_input@), true) == Some(s@),
            r is None ==> grid_answer(views(parsed_input@), true) is None,
    {
        Self::total(parsed_input, true)
    }

    /// Reads the schematic and answers the first part.
    pub fn solve_part_one(input: &str) -> (r: Option<String>)
        ensures
            r matches Some(s) ==> answer(input@, false) == Some(s@),
            r is None ==> answer(input@, false) is None,
    {
        Self::total(&Self::parse_input(input), false)
    }

    /// Reads the schematic and answers the second part.
    pub fn solve_part_two(input: &str) -> (r: Option<String>)
        ensures
            r matches Some(s) ==> answer(input@, true) == Some(s@),
            r is None ==> answer(input@, true) is None,
    {
        Self::total(&Self::parse_input(input), true)
    }

    /// Reads the schematic and answers both parts; `None` where either has
    /// no answer. The flag asks whoever calls to time the work; the answers
    /// do not depend on it.
    pub fn solve(input: &str, include_time: bool) -> (r: Option<(String, String)>)
        ensures
            r matches Some((one, two)) ==> answer(input@, false) == Some(one@) && answer(
                input@,
                true,
            ) == Some(two@),
            r is None ==> answer(input@, false) is None || answer(input@, true) is None,
    {
        let grid = Self::parse_input(input);
        match (Self::total(&grid, false), Self::total(&grid, true)) {
            (Some(a), Some(b)) => Some((a, b)),
            _ => None,
        }
    }
}

} // verus!
