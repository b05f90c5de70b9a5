//! An almanac of range maps: every map sends the numbers of some ranges to
//! other numbers and leaves the rest alone. Seeds are sent through all maps
//! in turn; the answer is the least number that comes out.

use vstd::prelude::*;
use crate::text::{
    decimal_digits, decimal_string, lines, lines_of, parse_unsigned, read_unsigned, tokens,
    tokens_of, views,
};

verus! {

/// The solver of the almanac puzzle.
#[derive(Clone, Copy, Debug)]
pub struct Day05;

/// A range of a map as numbers without bounds: where its images start,
/// where the range starts, and its length.
pub type Range = (int, int, int);

/// The ranges of a vector as numbers without bounds.
pub open spec fn ranges_of(v: Seq<(u64, u64, u64)>) -> Seq<Range> {
    Seq::new(v.len(), |i: int| (v[i].0 as int, v[i].1 as int, v[i].2 as int))
}

/// Whether the range holds the number `key`.
pub open spec fn holds(r: Range, key: int) -> bool {
    r.1 <= key < r.1 + r.2
}

/// The number that the range sends `key` to.
pub open spec fn image(r: Range, key: int) -> int {
    r.0 + (key - r.1)
}

/// The place, among the ranges `lo .. hi`, of the range that a search by
/// halving finds to hold `key`: the range in the middle if it holds `key`,
/// else what the search finds in the half before it or the half after it,
/// as `key` lies before its start or not.
pub open spec fn bisect(ranges: Seq<Range>, key: int, lo: int, hi: int) -> Option<int>
    decreases hi - lo,
{
    if lo >= hi {
        None
    } else {
        let mid = lo + (hi - lo) / 2;
        if key < ranges[mid].1 {
            bisect(ranges, key, lo, mid)
        } else if key >= ranges[mid].1 + ranges[mid].2 {
            bisect(ranges, key, mid + 1, hi)
        } else {
            Some(mid)
        }
    }
}

/// The number that a map sends `key` to: the image under the range that
/// the search finds, or `key` itself where it finds none.
pub open spec fn lookup(ranges: Seq<Range>, key: int) -> int {
    match bisect(ranges, key, 0, ranges.len() as int) {
        Some(i) => image(ranges[i], key),
        None => key,
    }
}

/// Whether the ranges are sorted by their starts.
pub open spec fn is_sorted(ranges: Seq<Range>) -> bool {
    forall|i: int, j: int| 0 <= i <= j < ranges.len() ==> ranges[i].1 <= ranges[j].1
}

/// Whether no two of the ranges hold a number in common.
pub open spec fn is_disjoint(ranges: Seq<Range>) -> bool {
    forall|i: int, j: int, key: int|
        0 <= i < j < ranges.len() && holds(ranges[i], key) ==> !holds(ranges[j], key)
}

/// Whether neither the end of a range nor the end of its images is beyond
/// 64 bits.
pub open spec fn fits(ranges: Seq<Range>) -> bool {
    forall|i: int|
        0 <= i < ranges.len() ==> (#[trigger] ranges[i]).1 + ranges[i].2 <= 0x1_0000_0000_0000_0000
            && ranges[i].0 + ranges[i].2 <= 0x1_0000_0000_0000_0000
}

/// Among ranges that are sorted, not empty and without a number in common,
/// the search finds the range that holds the number wherever one does.
pub proof fn lemma_bisect_finds(ranges: Seq<Range>, key: int, lo: int, hi: int, i: int)
    requires
        is_sorted(ranges),
        is_disjoint(ranges),
        forall|j: int| 0 <= j < ranges.len() ==> (#[trigger] ranges[j]).2 > 0,
        0 <= lo <= i < hi <= ranges.len(),
        holds(ranges[i], key),
    ensures
        bisect(ranges, key, lo, hi) == Some(i),
    decreases hi - lo,
{
    let mid = lo + (hi - lo) / 2;
    if key < ranges[mid].1 {
        assert(i < mid);
        lemma_bisect_finds(ranges, key, lo, mid, i);
    } else if key >= ranges[mid].1 + ranges[mid].2 {
        if i < mid {
            assert(holds(ranges[i], ranges[mid].1));
            assert(holds(ranges[mid], ranges[mid].1));
        } else {
            lemma_bisect_finds(ranges, key, mid + 1, hi, i);
        }
    } else {
        if i < mid {
            assert(holds(ranges[i], key) && holds(ranges[mid], key));
        } else if mid < i {
            assert(holds(ranges[mid], key) && holds(ranges[i], key));
        }
    }
}

/// Among ranges that are sorted, not empty and without a number in common,
/// a map sends a number of one of its ranges to its image under that range,
/// and any other number to itself.
pub proof fn lemma_lookup(ranges: Seq<Range>, key: int)
    requires
        is_sorted(ranges),
        is_disjoint(ranges),
        forall|j: int| 0 <= j < ranges.len() ==> (#[trigger] ranges[j]).2 > 0,
    ensures
        forall|i: int|
            0 <= i < ranges.len() && holds(#[trigger] ranges[i], key) ==> lookup(ranges, key)
                == image(ranges[i], key),
        (forall|i: int| 0 <= i < ranges.len() ==> !holds(#[trigger] ranges[i], key)) ==> lookup(
            ranges,
            key,
        ) == key,
{
    assert forall|i: int| 0 <= i < ranges.len() && holds(#[trigger] ranges[i], key) implies lookup(
        ranges,
        key,
    ) == image(ranges[i], key) by {
        lemma_bisect_finds(ranges, key, 0, ranges.len() as int, i);
    }
    lemma_bisect_after(ranges, key, 0, ranges.len() as int);
}

/// What the search finds holds the number.
pub proof fn lemma_bisect_after(ranges: Seq<Range>, key: int, lo: int, hi: int)
    requires
        0 <= lo <= hi <= ranges.len(),
    ensures
        bisect(ranges, key, lo, hi) matches Some(j) ==> lo <= j < hi && holds(ranges[j], key),
    decreases hi - lo,
{
    if lo < hi {
        let mid = lo + (hi - lo) / 2;
        if key < ranges[mid].1 {
            lemma_bisect_after(ranges, key, lo, mid);
        } else if key >= ranges[mid].1 + ranges[mid].2 {
            lemma_bisect_after(ranges, key, mid + 1, hi);
        }
    }
}

/// The place at which a range that starts at `key` is added to ranges
/// sorted by their starts: before the ranges at the end that start later,
/// and so after every range that starts at `key` or before.
pub open spec fn slot(s: Seq<Range>, key: int) -> int
    decreases s.len(),
{
    if s.len() > 0 && s.last().1 > key {
        slot(s.drop_last(), key)
    } else {
        s.len() as int
    }
}

/// The first `n` of the ranges `s`, sorted by their starts; ranges with
/// the same start keep their order.
pub open spec fn sorted_by_start(s: Seq<Range>, n: nat) -> Seq<Range>
    decreases n,
{
    if n == 0 {
        Seq::empty()
    } else {
        let before = sorted_by_start(s, (n - 1) as nat);
        before.insert(slot(before, s[n - 1].1), s[n - 1])
    }
}

/// One map of the almanac: its ranges, each given by the start of its
/// images, its own start and its length, sorted by their starts.
#[derive(Debug)]
pub struct RangeMap {
    pub _ranges: Vec<(u64, u64, u64)>,
}

impl RangeMap {
    /// The ranges of the map as numbers without bounds.
    pub open spec fn ranges(&self) -> Seq<Range> {
        ranges_of(self._ranges@)
    }

    /// A map of the ranges `data`, sorted by their starts; ranges with the
    /// same start keep their order.
    pub fn new(data: Vec<(u64, u64, u64)>) -> (map: RangeMap)
        ensures
            map.ranges() == sorted_by_start(ranges_of(data@), data.len() as nat),
            is_sorted(map.ranges()),
            map._ranges@.to_multiset() == data@.to_multiset(),
            map._ranges.len() == data.len(),
    {
        let ghost all = ranges_of(data@);
        let mut sorted: Vec<(u64, u64, u64)> = Vec::new();
        let mut i: usize = 0;
        assert(ranges_of(sorted@) =~= sorted_by_start(all, 0));
        assert(data@.take(0) =~= Seq::empty());
        while i < data.len()
            invariant
                i <= data.len(),
                all == ranges_of(data@),
                sorted.len() == i,
                ranges_of(sorted@) == sorted_by_start(all, i as nat),
                is_sorted(ranges_of(sorted@)),
                sorted@.to_multiset() == data@.take(i as int).to_multiset(),
            decreases data.len() - i,
        {
            let x = data[i];
            let ghost kept = ranges_of(sorted@);
            let mut at: usize = sorted.len();
            assert(kept.take(at as int) == kept);
            while at > 0 && sorted[at - 1].1 > x.1
                invariant
                    at <= sorted.len(),
                    kept == ranges_of(sorted@),
                    slot(kept, x.1 as int) == slot(kept.take(at as int), x.1 as int),
                    forall|a: int| at <= a < sorted.len() ==> (#[trigger] kept[a]).1 > x.1,
                decreases at,
            {
                assert(kept.take(at as int).last() == kept[at - 1]);
                assert(kept.take(at as int).drop_last() == kept.take(at - 1));
                at -= 1;
            }
            assert(slot(kept, x.1 as int) == at) by {
                if at > 0 {
                    assert(kept.take(at as int).last() == kept[at - 1]);
                }
            }
            let ghost before = sorted@;
            sorted.insert(at, x);
            proof {
                let range = (x.0 as int, x.1 as int, x.2 as int);
                assert(all[i as int] == range);
                assert(ranges_of(sorted@) =~= kept.insert(at as int, range));
                vstd::seq_lib::to_multiset_insert(before, at as int, x);
                assert(data@.take(i + 1) =~= data@.take(i as int).push(x));
                vstd::seq_lib::to_multiset_build(data@.take(i as int), x);
                let after = ranges_of(sorted@);
                assert forall|a: int, b: int| 0 <= a <= b < after.len() implies after[a].1
                    <= after[b].1 by {
                    let a0 = if a < at {
                        a
                    } else {
                        a - 1
                    };
                    let b0 = if b < at {
                        b
                    } else {
                        b - 1
                    };
                    if a != at && b != at {
                        assert(kept[a0].1 <= kept[b0].1);
                    } else if a == at && b != at {
                        assert(kept[b0].1 > x.1);
                    } else if a != at && b == at {
                        if at > 0 {
                            assert(kept[a0].1 <= kept[at - 1].1);
                        }
                    }
                }
            }
            i += 1;
        }
        assert(data@.take(data.len() as int) == data@);
        RangeMap { _ranges: sorted }
    }

    /// Whether neither the end of a range of the map nor the end of its
    /// images is beyond 64 bits.
    pub fn is_within_bounds(&self) -> (b: bool)
        ensures
            b == fits(self.ranges()),
    {
        let mut i: usize = 0;
        while i < self._ranges.len()
            invariant
                i <= self._ranges.len(),
                forall|j: int|
                    0 <= j < i ==> (#[trigger] self.ranges()[j]).1 + self.ranges()[j].2
                        <= 0x1_0000_0000_0000_0000 && self.ranges()[j].0 + self.ranges()[j].2
                        <= 0x1_0000_0000_0000_0000,
            decreases self._ranges.len() - i,
        {
            let r = self._ranges[i];
            assert(self.ranges()[i as int] == (r.0 as int, r.1 as int, r.2 as int));
            if r.1 as u128 + r.2 as u128 > 0x1_0000_0000_0000_0000 || r.0 as u128 + r.2 as u128
                > 0x1_0000_0000_0000_0000 {
                return false;
            }
            i += 1;
        }
        true
    }

    /// The number that the map sends `key` to.
    pub fn get(&self, key: &u64) -> (r: u64)
        requires
            fits(self.ranges()),
        ensures
            r == lookup(self.ranges(), *key as int),
    {
        let ghost ranges = self.ranges();
        let mut lo: usize = 0;
        let mut hi: usize = self._ranges.len();
        while lo < hi
            invariant
                lo <= hi <= self._ranges.len(),
                ranges == self.ranges(),
                fits(ranges),
                bisect(ranges, *key as int, 0, ranges.len() as int) == bisect(
                    ranges,
                    *key as int,
                    lo as int,
                    hi as int,
                ),
            decreases hi - lo,
        {
            let mid = lo + (hi - lo) / 2;
            let a = self._ranges[mid];
            assert(ranges[mid as int] == (a.0 as int, a.1 as int, a.2 as int));
            if *key < a.1 {
                hi = mid;
            } else if *key as u128 >= a.1 as u128 + a.2 as u128 {
                lo = mid + 1;
            } else {
                return a.0 + (*key - a.1);
            }
        }
        *key
    }
}

/// The ranges of every map of a list.
pub open spec fn all_ranges(maps: Seq<RangeMap>) -> Seq<Seq<Range>> {
    Seq::new(maps.len(), |i: int| maps[i].ranges())
}

/// The number that comes out when `seed` is sent through the first `n`
/// maps in turn.
pub open spec fn location(maps: Seq<Seq<Range>>, n: nat, seed: int) -> int
    decreases n,
{
    if n == 0 {
        seed
    } else {
        lookup(maps[n - 1], location(maps, (n - 1) as nat, seed))
    }
}

/// The least of the numbers that come out when the first `n` seeds are
/// sent through all maps; the greatest 64-bit number where there is no
/// seed.
pub open spec fn least_location(maps: Seq<Seq<Range>>, seeds: Seq<int>, n: nat) -> int
    decreases n,
{
    if n == 0 {
        u64::MAX as int
    } else {
        let before = least_location(maps, seeds, (n - 1) as nat);
        let here = location(maps, maps.len(), seeds[n - 1]);
        if here < before {
            here
        } else {
            before
        }
    }
}

/// Whether every map of the list is within bounds.
pub open spec fn all_fit(maps: Seq<RangeMap>) -> bool {
    forall|i: int| 0 <= i < maps.len() ==> fits((#[trigger] maps[i]).ranges())
}

/// The seeds of a vector as numbers without bounds.
pub open spec fn ints(v: Seq<u64>) -> Seq<int> {
    Seq::new(v.len(), |i: int| v[i] as int)
}

/// Sends a seed through all maps in turn.
pub fn location_of(seed: u64, maps: &Vec<RangeMap>) -> (r: u64)
    requires
        all_fit(maps@),
    ensures
        r == location(all_ranges(maps@), maps.len() as nat, seed as int),
{
    let mut current = seed;
    let mut i: usize = 0;
    while i < maps.len()
        invariant
            i <= maps.len(),
            all_fit(maps@),
            current == location(all_ranges(maps@), i as nat, seed as int),
        decreases maps.len() - i,
    {
        assert(all_ranges(maps@)[i as int] == maps[i as int].ranges());
        current = maps[i].get(&current);
        i += 1;
    }
    current
}

/// The least of the numbers that come out when the seeds are sent through
/// all maps; the greatest 64-bit number where there is no seed.
pub fn minimum_location_for_seeds(seeds: &Vec<u64>, maps: &Vec<RangeMap>) -> (r: u64)
    requires
        all_fit(maps@),
    ensures
        r == least_location(all_ranges(maps@), ints(seeds@), seeds.len() as nat),
{
    let mut minimum: u64 = u64::MAX;
    let mut i: usize = 0;
    while i < seeds.len()
        invariant
            i <= seeds.len(),
            all_fit(maps@),
            minimum == least_location(all_ranges(maps@), ints(seeds@), i as nat),
        decreases seeds.len() - i,
    {
        let value = location_of(seeds[i], maps);
        if value < minimum {
            minimum = value;
        }
        i += 1;
    }
    minimum
}

/// The seeds that a list of pairs stands for: each pair is a first seed and
/// a count of seeds that follow one another. A number left over at the end
/// of the list is ignored. `None` where a seed would be beyond 64 bits.
pub open spec fn expanded(pairs: Seq<int>, n: nat) -> Option<Seq<int>>
    decreases n,
{
    if n == 0 {
        Some(Seq::empty())
    } else {
        match expanded(pairs, (n - 1) as nat) {
            None => None,
            Some(before) => {
                let start = pairs[2 * (n - 1)];
                let count = pairs[2 * (n - 1) + 1];
                if count > 0 && start + count - 1 > u64::MAX {
                    None
                } else {
                    Some(before + Seq::new(count as nat, |i: int| start + i))
                }
            },
        }
    }
}

/// The almanac: the seeds and the maps.
#[derive(Debug)]
pub struct Almanac {
    pub seeds: Vec<u64>,
    pub maps: Vec<RangeMap>,
}

fn least_of_pairs(seeds: &Vec<u64>, maps: &Vec<RangeMap>) -> (r: Option<u64>)
    requires
        all_fit(maps@),
    ensures
        match expanded(ints(seeds@), (seeds.len() / 2) as nat) {
            Some(all) => r == Some(
                least_location(all_ranges(maps@), all, all.len()) as u64,
            ) && 0 <= least_location(all_ranges(maps@), all, all.len()) <= u64::MAX,
            None => r is None,
        },
{
    let pairs = seeds.len() / 2;
    let ghost m = all_ranges(maps@);
    let ghost s = ints(seeds@);
    let mut minimum: u64 = u64::MAX;
    let mut p: usize = 0;
    while p < pairs
        invariant
            p <= pairs,
            pairs == seeds.len() / 2,
            all_fit(maps@),
            m == all_ranges(maps@),
            s == ints(seeds@),
            expanded(s, p as nat) matches Some(all) && minimum == least_location(m, all, all.len()),
        decreases pairs - p,
    {
        let start = seeds[2 * p];
        let count = seeds[2 * p + 1];
        let ghost before = expanded(s, p as nat)->0;
        assert(s[2 * p] == start as int && s[2 * p + 1] == count as int);
        if count > 0 && start as u128 + count as u128 - 1 > u64::MAX as u128 {
            proof {
                lemma_expanded_none(s, (p + 1) as nat, pairs as nat);
            }
            return None;
        }
        let ghost block = Seq::new(count as nat, |i: int| start + i);
        let mut i: u64 = 0;
        while i < count
            invariant
                i <= count,
                all_fit(maps@),
                m == all_ranges(maps@),
                count > 0 ==> start + count - 1 <= u64::MAX,
                block == Seq::new(count as nat, |i: int| start + i),
                minimum == least_location(
                    m,
                    before + block.take(i as int),
                    (before.len() + i) as nat,
                ),
            decreases count - i,
        {
            let seed = start + i;
            let ghost sofar = before + block.take(i as int);
            let ghost next = before + block.take(i + 1);
            proof {
                assert(next[before.len() + i] == seed as int);
                lemma_least_prefix(m, sofar, next, (before.len() + i) as nat);
            }
            let value = location_of(seed, maps);
            if value < minimum {
                minimum = value;
            }
            i += 1;
        }
        assert(block.take(count as int) == block);
        p += 1;
    }
    Some(minimum)
}

proof fn lemma_expanded_none(pairs: Seq<int>, k: nat, n: nat)
    requires
        k <= n,
        expanded(pairs, k) is None,
    ensures
        expanded(pairs, n) is None,
    decreases n,
{
    if k < n {
        lemma_expanded_none(pairs, k, (n - 1) as nat);
    }
}

/// The least location of the first `n` seeds depends on those seeds alone.
proof fn lemma_least_prefix(maps: Seq<Seq<Range>>, a: Seq<int>, b: Seq<int>, n: nat)
    requires
        n <= a.len(),
        n <= b.len(),
        forall|i: int| 0 <= i < n ==> a[i] == b[i],
    ensures
        least_location(maps, a, n) == least_location(maps, b, n),
    decreases n,
{
    if n > 0 {
        lemma_least_prefix(maps, a, b, (n - 1) as nat);
    }
}

/// The numbers that the tokens from place `from` on write; `None` where
/// one of them is no 64-bit number.
pub open spec fn numbers_from(t: Seq<Seq<char>>, from: int) -> Option<Seq<int>> {
    if forall|i: int| from <= i < t.len() ==> parse_unsigned(#[trigger] t[i], u64::MAX as nat)
        is Some {
        Some(
            Seq::new(
                if t.len() >= from {
                    (t.len() - from) as nat
                } else {
                    0
                },
                |i: int| parse_unsigned(t[i + from], u64::MAX as nat)->0 as int,
            ),
        )
    } else {
        None
    }
}

/// What the first `n` lines of a text say of an almanac: the seeds, the
/// maps, and where the reading stands. The reading starts in the block of
/// the seeds, whose first token is a heading (0) and whose other tokens are
/// seeds (1). An empty line ends a block (2). The first line of a further
/// block is a heading and starts a map (3); each of its other lines gives a
/// range as three numbers. `None` where a number is none or a line of a map
/// does not hold three.
pub open spec fn almanac_after(ls: Seq<Seq<char>>, n: nat) -> Option<
    (Seq<int>, Seq<Seq<Range>>, int),
>
    decreases n,
{
    if n == 0 {
        Some((Seq::empty(), Seq::empty(), 0))
    } else {
        match almanac_after(ls, (n - 1) as nat) {
            None => None,
            Some((seeds, maps, phase)) => {
                let line = ls[n - 1];
                let t = tokens_of(line);
                if line.len() == 0 {
                    Some((seeds, maps, 2))
                } else if phase == 0 || phase == 1 {
                    if t.len() == 0 {
                        Some((seeds, maps, phase))
                    } else {
                        match numbers_from(t, 1 - phase) {
                            Some(more) => Some((seeds + more, maps, 1)),
                            None => None,
                        }
                    }
                } else if phase == 2 {
                    Some((seeds, maps.push(Seq::empty()), 3))
                } else {
                    match numbers_from(t, 0) {
                        Some(r) => if r.len() == 3 {
                            Some(
                                (
                                    seeds,
                                    maps.update(
                                        maps.len() - 1,
                                        maps.last().push((r[0], r[1], r[2])),
                                    ),
                                    3,
                                ),
                            )
                        } else {
                            None
                        },
                        None => None,
                    }
                }
            },
        }
    }
}

impl Almanac {
    /// Whether the almanac holds the seeds `seeds` and, map by map, the
    /// ranges `maps`, those of every map sorted by their starts, ranges with
    /// the same start in the order of `maps`.
    pub open spec fn holds(&self, seeds: Seq<int>, maps: Seq<Seq<Range>>) -> bool {
        &&& ints(self.seeds@) == seeds
        &&& self.maps.len() == maps.len()
        &&& forall|k: int|
            0 <= k < maps.len() ==> (#[trigger] self.maps[k]).ranges() == sorted_by_start(
                maps[k],
                maps[k].len(),
            )
    }

    /// The answer of the first part: the least number that comes out when
    /// the seeds are sent through the maps.
    pub open spec fn answer_one(&self) -> Seq<char> {
        answer_of(
            least_location(all_ranges(self.maps@), ints(self.seeds@), self.seeds.len() as nat),
        )
    }

    /// The answer of the second part: the least number that comes out when
    /// the seeds that the pairs of the list of seeds stand for are sent
    /// through the maps; `None` where one of those seeds would be beyond 64
    /// bits.
    pub open spec fn answer_two(&self) -> Option<Seq<char>> {
        match expanded(ints(self.seeds@), (self.seeds.len() / 2) as nat) {
            Some(all) => Some(
                answer_of(least_location(all_ranges(self.maps@), all, all.len())),
            ),
            None => None,
        }
    }

    /// Whether the almanac is what the lines `ls` say.
    pub open spec fn depicts(&self, ls: Seq<Seq<char>>) -> bool {
        almanac_after(ls, ls.len()) matches Some((seeds, maps, _)) && self.holds(seeds, maps)
    }
}

fn read_numbers(t: &Vec<Vec<char>>, from: usize) -> (r: Option<Vec<u64>>)
    ensures
        r matches Some(v) ==> numbers_from(views(t@), from as int) == Some(ints(v@)),
        r is None ==> numbers_from(views(t@), from as int) is None,
{
    let ghost ts = views(t@);
    let mut v: Vec<u64> = Vec::new();
    let mut i: usize = from;
    while i < t.len()
        invariant
            from <= i,
            i <= t.len() || from > t.len(),
            ts == views(t@),
            v.len() == if from <= t.len() {
                i - from
            } else {
                0
            },
            forall|j: int|
                from <= j < i ==> parse_unsigned(#[trigger] ts[j], u64::MAX as nat) == Some(
                    v[j - from] as nat,
                ),
        decreases t.len() - i,
    {
        assert(ts[i as int] == t[i as int]@);
        match read_unsigned(t[i].as_slice(), u64::MAX) {
            Some(x) => {
                v.push(x);
            },
            None => {
                return None;
            },
        }
        i += 1;
    }
    assert(ints(v@) =~= numbers_from(ts, from as int)->0);
    Some(v)
}

proof fn lemma_almanac_none(ls: Seq<Seq<char>>, k: nat, n: nat)
    requires
        k <= n,
        almanac_after(ls, k) is None,
    ensures
        almanac_after(ls, n) is None,
    decreases n,
{
    if k < n {
        lemma_almanac_none(ls, k, (n - 1) as nat);
    }
}

/// The ranges of every list of a list of lists.
pub open spec fn listed(data: Seq<Vec<(u64, u64, u64)>>) -> Seq<Seq<Range>> {
    Seq::new(data.len(), |i: int| ranges_of(data[i]@))
}

/// A number as an answer: its decimal digits.
pub open spec fn answer_of(n: int) -> Seq<char> {
    decimal_digits(n as nat)
}

impl Day05 {
    /// Reads an almanac; `None` where the text is none, or a range of a
    /// map, or its images, would end beyond 64 bits.
    pub fn parse_input(input: &str) -> (r: Option<Almanac>)
        ensures
            r matches Some(a) ==> a.depicts(lines_of(input@)) && all_fit(a.maps@),
            r is None ==> almanac_after(lines_of(input@), lines_of(input@).len()) is None || exists|
                a: Almanac,
            |
                #![trigger a.depicts(lines_of(input@))]
                a.depicts(lines_of(input@)) && !all_fit(a.maps@),
    {
        let rows = lines(input);
        let ghost ls = lines_of(input@);
        let mut seeds: Vec<u64> = Vec::new();
        let mut data: Vec<Vec<(u64, u64, u64)>> = Vec::new();
        let mut phase: u8 = 0;
        let mut i: usize = 0;
        assert(ints(seeds@) =~= Seq::<int>::empty());
        assert(listed(data@) =~= Seq::<Seq<Range>>::empty());
        while i < rows.len()
            invariant
                i <= rows.len(),
                views(rows@) == ls,
                ls == lines_of(input@),
                phase <= 3,
                phase == 3 ==> data.len() > 0,
                almanac_after(ls, i as nat) == Some((ints(seeds@), listed(data@), phase as int)),
            decreases rows.len() - i,
        {
            assert(rows[i as int]@ == ls[i as int]);
            let row = &rows[i];
            if row.len() == 0 {
                phase = 2;
            } else if phase == 0 || phase == 1 {
                let t = tokens(row.as_slice());
                if t.len() > 0 {
                    let more = match read_numbers(&t, (1 - phase) as usize) {
                        Some(m) => m,
                        None => {
                            proof {
                                lemma_almanac_none(ls, (i + 1) as nat, rows.len() as nat);
                            }
                            return None;
                        },
                    };
                    let ghost before = ints(seeds@);
                    let mut j: usize = 0;
                    while j < more.len()
                        invariant
                            j <= more.len(),
                            ints(seeds@) == before + ints(more@).take(j as int),
                        decreases more.len() - j,
                    {
                        let ghost prev = ints(seeds@);
                        seeds.push(more[j]);
                        assert(ints(seeds@) =~= prev.push(more[j as int] as int));
                        assert(prev.push(more[j as int] as int) =~= before + ints(more@).take(
                            j + 1,
                        ));
                        j += 1;
                    }
                    assert(ints(more@).take(more.len() as int) == ints(more@));
                    phase = 1;
                }
            } else if phase == 2 {
                let ghost before = listed(data@);
                let fresh: Vec<(u64, u64, u64)> = Vec::new();
                assert(ranges_of(fresh@) =~= Seq::<Range>::empty());
                data.push(fresh);
                assert(listed(data@) =~= before.push(Seq::empty()));
                phase = 3;
            } else {
                let t = tokens(row.as_slice());
                let r = match read_numbers(&t, 0) {
                    Some(r) => r,
                    None => {
                        proof {
                            lemma_almanac_none(ls, (i + 1) as nat, rows.len() as nat);
                        }
                        return None;
                    },
                };
                if r.len() != 3 {
                    proof {
                        lemma_almanac_none(ls, (i + 1) as nat, rows.len() as nat);
                    }
                    return None;
                }
                let ghost before = listed(data@);
                let last = data.len() - 1;
                let mut list = data.pop().unwrap();
                let ghost earlier = ranges_of(list@);
                list.push((r[0], r[1], r[2]));
                assert(ranges_of(list@) =~= earlier.push(
                    (ints(r@)[0], ints(r@)[1], ints(r@)[2]),
                ));
                data.push(list);
                assert(listed(data@) =~= before.update(
                    last as int,
                    before.last().push((ints(r@)[0], ints(r@)[1], ints(r@)[2])),
                ));
            }
            i += 1;
        }
        let ghost spec_maps = listed(data@);
        let mut maps: Vec<RangeMap> = Vec::new();
        let mut k: usize = 0;
        while k < data.len()
            invariant
                k <= data.len(),
                spec_maps == listed(data@),
                maps.len() == k,
                forall|j: int|
                    0 <= j < k ==> (#[trigger] maps[j]).ranges() == sorted_by_start(
                        spec_maps[j],
                        spec_maps[j].len(),
                    ),
            decreases data.len() - k,
        {
            let list = &data[k];
            let mut copy: Vec<(u64, u64, u64)> = Vec::new();
            let mut j: usize = 0;
            while j < list.len()
                invariant
                    j <= list.len(),
                    copy@ == list@.take(j as int),
                decreases list.len() - j,
            {
                copy.push(list[j]);
                j += 1;
            }
            assert(list@.take(list.len() as int) == list@);
            assert(ranges_of(copy@) == spec_maps[k as int]);
            let map = RangeMap::new(copy);
            maps.push(map);
            k += 1;
        }
        let almanac = Almanac { seeds, maps };
        assert(almanac.holds(ints(almanac.seeds@), spec_maps));
        assert(almanac.depicts(ls));
        let mut k: usize = 0;
        while k < almanac.maps.len()
            invariant
                k <= almanac.maps.len(),
                ls == lines_of(input@),
                almanac.depicts(ls),
                forall|j: int| 0 <= j < k ==> fits((#[trigger] almanac.maps[j]).ranges()),
            decreases almanac.maps.len() - k,
        {
            if !almanac.maps[k].is_within_bounds() {
                assert(!all_fit(almanac.maps@));
                return None;
            }
            k += 1;
        }
        Some(almanac)
    }

    /// The least number that comes out when the seeds are sent through the
    /// maps.
    pub fn part_one(parsed_input: &Almanac) -> (s: String)
        requires
            all_fit(parsed_input.maps@),
        ensures
            s@ == parsed_input.answer_one(),
    {
        decimal_string(minimum_location_for_seeds(&parsed_input.seeds, &parsed_input.maps))
    }

    /// The least number that comes out when the seeds that the pairs of
    /// the list of seeds stand for are sent through the maps; `None` where
    /// one of those seeds would be beyond 64 bits.
    pub fn part_two(parsed_input: &Almanac) -> (r: Option<String>)
        requires
            all_fit(parsed_input.maps@),
        ensures
            r matches Some(s) ==> parsed_input.answer_two() == Some(s@),
            r is None ==> parsed_input.answer_two() is None,
    {
        match least_of_pairs(&parsed_input.seeds, &parsed_input.maps) {
            Some(m) => Some(decimal_string(m)),
            None => None,
        }
    }

    /// Reads an almanac and answers the first part; `None` where the text
    /// is no almanac within bounds.
    pub fn solve_part_one(input: &str) -> (r: Option<String>)
        ensures
            r matches Some(s) ==> exists|a: Almanac|
                #![trigger a.depicts(lines_of(input@))]
                a.depicts(lines_of(input@)) && all_fit(a.maps@) && s@ == a.answer_one(),
            r is None ==> almanac_after(lines_of(input@), lines_of(input@).len()) is None
                || exists|a: Almanac|
                #![trigger a.depicts(lines_of(input@))]
                a.depicts(lines_of(input@)) && !all_fit(a.maps@),
    {
        match Self::parse_input(input) {
            Some(a) => {
                let s = Self::part_one(&a);
                Some(s)
            },
            None => None,
        }
    }

    /// Reads an almanac and answers the second part; `None` where the text
    /// is no almanac within bounds, or a seed would be beyond 64 bits.
    pub fn solve_part_two(input: &str) -> (r: Option<String>)
        ensures
            r matches Some(s) ==> exists|a: Almanac|
                #![trigger a.depicts(lines_of(input@))]
                a.depicts(lines_of(input@)) && all_fit(a.maps@) && a.answer_two() == Some(s@),
            r is None ==> almanac_after(lines_of(input@), lines_of(input@).len()) is None
                || exists|a: Almanac|
                #![trigger a.depicts(lines_of(input@))]
                a.depicts(lines_of(input@)) && (!all_fit(a.maps@) || a.answer_two() is None),
    {
        match Self::parse_input(input) {
            Some(a) => Self::part_two(&a),
            None => None,
        }
    }

    /// Reads an almanac and answers both parts; `None` where either has no
    /// answer. The flag asks whoever calls to time the work; the answers do
    /// not depend on it.
    pub fn solve(input: &str, include_time: bool) -> (r: Option<(String, String)>)
        ensures
            r matches Some((one, two)) ==> exists|a: Almanac|
                #![trigger a.depicts(lines_of(input@))]
                a.depicts(lines_of(input@)) && all_fit(a.maps@) && one@ == a.answer_one()
                    && a.answer_two() == Some(two@),
            r is None ==> almanac_after(lines_of(input@), lines_of(input@).len()) is None
                || exists|a: Almanac|
                #![trigger a.depicts(lines_of(input@))]
                a.depicts(lines_of(input@)) && (!all_fit(a.maps@) || a.answer_two() is None),
    {
        match Self::parse_input(input) {
            Some(a) => {
                let one = Self::part_one(&a);
                match Self::part_two(&a) {
                    Some(two) => Some((one, two)),
                    None => None,
                }
            },
            None => None,
        }
    }
}

/// A text has one almanac: two almanacs that depict the same lines have
/// the same seeds and, map by map, the same ranges in the same order, and so
/// the same answers.
pub proof fn lemma_text_determines_almanac(a: &Almanac, b: &Almanac, ls: Seq<Seq<char>>)
    requires
        a.depicts(ls),
        b.depicts(ls),
    ensures
        a.seeds@ == b.seeds@,
        all_ranges(a.maps@) == all_ranges(b.maps@),
        all_fit(a.maps@) == all_fit(b.maps@),
        a.answer_one() == b.answer_one(),
        a.answer_two() == b.answer_two(),
{
    assert forall|i: int| 0 <= i < a.seeds.len() implies a.seeds@[i] == b.seeds@[i] by {
        assert(ints(a.seeds@)[i] == ints(b.seeds@)[i]);
    }
    assert(a.seeds@ =~= b.seeds@);
    assert forall|k: int| 0 <= k < a.maps.len() implies all_ranges(a.maps@)[k] == all_ranges(
        b.maps@,
    )[k] by {
        assert(a.maps[k].ranges() == b.maps[k].ranges());
    }
    assert(all_ranges(a.maps@) =~= all_ranges(b.maps@));
    if all_fit(a.maps@) {
        assert forall|i: int| 0 <= i < b.maps.len() implies fits((#[trigger] b.maps[i]).ranges()) by {
            assert(a.maps[i].ranges() == b.maps[i].ranges());
        }
    }
    if all_fit(b.maps@) {
        assert forall|i: int| 0 <= i < a.maps.len() implies fits((#[trigger] a.maps[i]).ranges()) by {
            assert(a.maps[i].ranges() == b.maps[i].ranges());
        }
    }
}

} // verus!
