//! A map of junctions: from every junction a way to the left and a way to
//! the right, and a list of turns that is followed over and over. The first
//! part counts the steps from `AAA` to `ZZZ`; the second follows all ways
//! from the junctions that end in `A` at once.

use vstd::prelude::*;
use crate::parser::{after_spaces, letters_and_rest, Parser};
use crate::text::{
    chars_of, copy_chars, decimal_digits, decimal_string, lines, lines_of, same_chars, views,
};

verus! {

/// The solver of the junction map puzzle.
#[derive(Clone, Copy, Debug)]
pub struct Day08;

/// A turn at a junction.
#[derive(Clone, Copy, Debug, PartialEq, Eq, Structural)]
pub enum Direction {
    Left,
    Right,
}

impl Direction {
    /// The turn that a character names.
    pub open spec fn of_char(c: char) -> Option<Direction> {
        if c == 'R' {
            Some(Direction::Right)
        } else if c == 'L' {
            Some(Direction::Left)
        } else {
            None
        }
    }

    /// The turn that a character names: `L` or `R`; `None` for any other.
    pub fn from_char(c: &char) -> (r: Option<Direction>)
        ensures
            r == Self::of_char(*c),
    {
        if *c == 'R' {
            Some(Direction::Right)
        } else if *c == 'L' {
            Some(Direction::Left)
        } else {
            None
        }
    }
}

/// Whether `d` is a divisor of `n`.
pub open spec fn divides(d: nat, n: nat) -> bool {
    d > 0 && n % d == 0
}

/// Whether `g` is the greatest common divisor of `a` and `b`; that of zero
/// and zero is zero.
pub open spec fn is_gcd(a: nat, b: nat, g: nat) -> bool {
    if a == 0 && b == 0 {
        g == 0
    } else {
        &&& divides(g, a)
        &&& divides(g, b)
        &&& forall|d: nat| #[trigger] divides(d, a) && divides(d, b) ==> d <= g
    }
}

/// The greatest common divisor of `a` and `b`.
pub open spec fn gcd_of(a: nat, b: nat) -> nat {
    choose|g: nat| is_gcd(a, b, g)
}

/// The least common multiple of `a` and `b` as the product of the one and
/// the other divided by the greatest common divisor; zero where both are
/// zero.
pub open spec fn lcm_of(a: nat, b: nat) -> nat {
    if a == 0 && b == 0 {
        0
    } else {
        a * (b / gcd_of(a, b))
    }
}

/// The number that Euclid's method finds for `a` and `b`: `a` where `b` is
/// zero, and else what it finds for `b` and the rest of `a` divided by `b`.
pub open spec fn euclid(a: nat, b: nat) -> nat
    decreases b,
{
    if b == 0 {
        a
    } else {
        euclid(b, a % b)
    }
}

/// What Euclid's method finds divides both numbers and is a sum of
/// multiples of them.
proof fn lemma_euclid(a: nat, b: nat) -> (xy: (int, int))
    ensures
        euclid(a, b) == xy.0 * a + xy.1 * b,
        a > 0 || b > 0 ==> euclid(a, b) > 0 && a % euclid(a, b) == 0 && b % euclid(a, b) == 0,
    decreases b,
{
    if b == 0 {
        if a > 0 {
            assert(a % a == 0) by (nonlinear_arith)
                requires
                    a > 0,
            ;
            assert(0nat % a == 0) by (nonlinear_arith)
                requires
                    a > 0,
            ;
        }
        assert(a == 1 * a + 0 * b) by (nonlinear_arith);
        (1, 0)
    } else {
        let r = a % b;
        let q = a / b;
        let (x, y) = lemma_euclid(b, r);
        let e = euclid(b, r);
        assert(a == q * b + r) by (nonlinear_arith)
            requires
                b > 0,
                q == a / b,
                r == a % b,
        ;
        assert(x * b + y * r == y * a + (x - y * q) * b) by (nonlinear_arith)
            requires
                a == q * b + r,
        ;
        assert(a % e == 0) by {
            lemma_divides_sum(e, q, b, r);
        }
        (y, x - y * q)
    }
}

/// A divisor of `b` and of `r` divides `q * b + r`.
proof fn lemma_divides_sum(e: nat, q: nat, b: nat, r: nat)
    requires
        e > 0,
        b % e == 0,
        r % e == 0,
    ensures
        (q * b + r) % e == 0,
{
    let (bb, rr) = (b / e, r / e);
    assert(b == bb * e) by (nonlinear_arith)
        requires
            e > 0,
            b % e == 0,
            bb == b / e,
    ;
    assert(r == rr * e) by (nonlinear_arith)
        requires
            e > 0,
            r % e == 0,
            rr == r / e,
    ;
    assert(q * b + r == (q * bb + rr) * e) by (nonlinear_arith)
        requires
            b == bb * e,
            r == rr * e,
    ;
    lemma_multiple_divides(q * bb + rr, e);
}

/// A multiple of `e` leaves no rest when divided by `e`.
proof fn lemma_multiple_divides(k: nat, e: nat)
    requires
        e > 0,
    ensures
        (k * e) % e == 0,
{
    vstd::arithmetic::div_mod::lemma_mod_multiples_basic(k as int, e as int);
}

/// A number that leaves no rest when divided by `e` is a multiple of `e`.
proof fn lemma_divides_multiple(n: nat, e: nat) -> (k: nat)
    requires
        e > 0,
        n % e == 0,
    ensures
        n == k * e,
{
    let k = n / e;
    assert(n == k * e) by (nonlinear_arith)
        requires
            e > 0,
            n % e == 0,
            k == n / e,
    ;
    k
}

/// What Euclid's method finds is the greatest common divisor.
pub proof fn lemma_euclid_is_gcd(a: nat, b: nat)
    ensures
        is_gcd(a, b, euclid(a, b)),
        gcd_of(a, b) == euclid(a, b),
{
    let e = euclid(a, b);
    let (x, y) = lemma_euclid(a, b);
    if a > 0 || b > 0 {
        assert forall|d: nat| #[trigger] divides(d, a) && divides(d, b) implies d <= e by {
            let ka = lemma_divides_multiple(a, d);
            let kb = lemma_divides_multiple(b, d);
            let k = x * ka + y * kb;
            assert(e == k * d) by (nonlinear_arith)
                requires
                    e == x * a + y * b,
                    a == ka * d,
                    b == kb * d,
                    k == x * ka + y * kb,
            ;
            assert(k >= 1 && k * d >= d) by (nonlinear_arith)
                requires
                    e == k * d,
                    e > 0,
                    d > 0,
            ;
        }
    }
    assert(is_gcd(a, b, e));
    let g = gcd_of(a, b);
    assert(is_gcd(a, b, g));
    if a > 0 || b > 0 {
        assert(divides(e, a) && divides(e, b));
        assert(divides(g, a) && divides(g, b));
    }
}

/// Whether `m` is a common multiple of `a` and `b` that is not zero.
pub open spec fn is_common_multiple(a: nat, b: nat, m: nat) -> bool {
    m > 0 && a > 0 && b > 0 && m % a == 0 && m % b == 0
}

/// The least common multiple of two numbers that are not zero is a common
/// multiple of them, and every common multiple of them is a multiple of it,
/// so that none is less.
pub proof fn lemma_lcm_is_least(a: nat, b: nat, m: nat)
    requires
        a > 0,
        b > 0,
    ensures
        is_common_multiple(a, b, lcm_of(a, b)),
        is_common_multiple(a, b, m) ==> m % lcm_of(a, b) == 0 && lcm_of(a, b) <= m,
{
    lemma_euclid_is_gcd(a, b);
    let g = gcd_of(a, b);
    let (x, y) = lemma_euclid(a, b);
    let l = lcm_of(a, b);
    let ka = lemma_divides_multiple(a, g);
    let kb = lemma_divides_multiple(b, g);
    assert(b / g == kb) by (nonlinear_arith)
        requires
            b == kb * g,
            g > 0,
    ;
    assert(l == a * kb);
    assert(ka >= 1 && kb >= 1) by (nonlinear_arith)
        requires
            a == ka * g,
            b == kb * g,
            a > 0,
            b > 0,
            g > 0,
    ;
    assert(l == kb * a && l == ka * b && l > 0 && l * g == a * b) by (nonlinear_arith)
        requires
            l == a * kb,
            a == ka * g,
            b == kb * g,
            a > 0,
            kb >= 1,
    ;
    lemma_multiple_divides(kb, a);
    lemma_multiple_divides(ka, b);
    if is_common_multiple(a, b, m) {
        let ma = lemma_divides_multiple(m, a);
        let mb = lemma_divides_multiple(m, b);
        let k = x * mb + y * ma;
        let p = a * b;
        assert(m * g == x * (m * a) + y * (m * b)) by (nonlinear_arith)
            requires
                g == x * a + y * b,
        ;
        assert(m * a == mb * p) by (nonlinear_arith)
            requires
                m == mb * b,
                p == a * b,
        ;
        assert(m * b == ma * p) by (nonlinear_arith)
            requires
                m == ma * a,
                p == a * b,
        ;
        assert(x * (mb * p) + y * (ma * p) == k * p) by (nonlinear_arith)
            requires
                k == x * mb + y * ma,
        ;
        assert(k * p == k * l * g) by (nonlinear_arith)
            requires
                l * g == p,
        ;
        assert(m == k * l) by (nonlinear_arith)
            requires
                m * g == k * l * g,
                g > 0,
        ;
        assert(k >= 1) by (nonlinear_arith)
            requires
                m == k * l,
                m > 0,
                l > 0,
        ;
        assert(k * l >= l) by (nonlinear_arith)
            requires
                k >= 1,
                l > 0,
        ;
        lemma_multiple_divides(k as nat, l);
    }
}

/// `num::integer::gcd` on 64-bit numbers: the greatest common divisor,
/// which the crate computes by Stein's algorithm.
#[verifier::external_body]
pub(crate) fn gcd(a: u64, b: u64) -> (g: u64)
    ensures
        is_gcd(a as nat, b as nat, g as nat),
{
    num::integer::gcd(a, b)
}

/// The least common multiple of two numbers; `None` where it is beyond 64
/// bits.
pub fn lcm(a: u64, b: u64) -> (r: Option<u64>)
    ensures
        r matches Some(m) ==> m == lcm_of(a as nat, b as nat),
        r is None ==> lcm_of(a as nat, b as nat) > u64::MAX,
{
    if a == 0 && b == 0 {
        return Some(0);
    }
    let g = gcd(a, b);
    proof {
        let h = gcd_of(a as nat, b as nat);
        assert(is_gcd(a as nat, b as nat, h));
        assert(divides(h, a as nat) && divides(h, b as nat));
        assert(divides(g as nat, a as nat) && divides(g as nat, b as nat));
        assert(g == h);
    }
    a.checked_mul(b / g)
}

/// A junction of the map: its name, the junctions to its left and right
/// where a line gives them, and whether the name occurs more than once in
/// the map.
#[derive(Debug)]
pub struct Junction {
    pub name: Vec<char>,
    pub exits: Option<(usize, usize)>,
    pub repeated: bool,
}

/// The map: the turns to follow, the junctions in the order in which their
/// names first occur, and the junction `AAA` where a line gives its ways.
#[derive(Debug)]
pub struct Atlas {
    pub directions: Vec<Direction>,
    pub nodes: Vec<Junction>,
    pub start: usize,
}

/// The first of the first `n` names that is `name`.
pub open spec fn find(names: Seq<Seq<char>>, name: Seq<char>, n: nat) -> Option<int>
    decreases n,
{
    if n == 0 {
        None
    } else {
        match find(names, name, (n - 1) as nat) {
            Some(i) => Some(i),
            None => if names[n - 1] == name {
                Some(n - 1)
            } else {
                None
            },
        }
    }
}

/// What a line says of a junction: a word, `=`, `(`, a word, `,` and a
/// word, whitespace allowed before each, and anything after them. A word is
/// a run of letters; at the end of the line it may be empty.
pub open spec fn junction_of(line: Seq<char>) -> Option<(Seq<char>, Seq<char>, Seq<char>)> {
    let s0 = after_spaces(line);
    let (node, r0) = letters_and_rest(s0);
    let s1 = after_spaces(r0);
    let s2 = after_spaces(s1.skip(1));
    let s3 = after_spaces(s2.skip(1));
    let (left, r3) = letters_and_rest(s3);
    let s4 = after_spaces(r3);
    let s5 = after_spaces(s4.skip(1));
    let (right, _) = letters_and_rest(s5);
    if (node.len() == 0 && s0.len() > 0) || s1.len() == 0 || s1[0] != '=' || s2.len() == 0 || s2[0]
        != '(' || (left.len() == 0 && s3.len() > 0) || s4.len() == 0 || s4[0] != ',' || (right.len()
        == 0 && s5.len() > 0) {
        None
    } else {
        Some((node, left, right))
    }
}

impl Atlas {
    /// The invariant of a map: every way leads to a junction of the map,
    /// and so does the start.
    pub open spec fn wf(&self) -> bool {
        &&& forall|i: int|
            0 <= i < self.nodes.len() ==> ((#[trigger] self.nodes[i]).exits matches Some((l, r))
                ==> l < self.nodes.len() && r < self.nodes.len())
        &&& self.start < self.nodes.len()
    }

    /// The junction that a turn leads to from junction `p`; `None` where
    /// the map gives no ways from `p`.
    pub open spec fn step(&self, p: int, d: Direction) -> Option<int> {
        match self.nodes[p].exits {
            Some((l, r)) => Some(
                if d == Direction::Left {
                    l as int
                } else {
                    r as int
                },
            ),
            None => None,
        }
    }

    /// The place in the list of turns of the turn taken after `k` steps:
    /// the list is followed from its start again whenever it ends.
    pub open spec fn turn_at(&self, k: nat) -> int
        decreases k,
    {
        if k == 0 {
            0
        } else {
            let next = self.turn_at((k - 1) as nat) + 1;
            if next >= self.directions.len() {
                0
            } else {
                next
            }
        }
    }

    /// The junction reached from `from` by `k` steps; `None` where the way
    /// comes to a junction without ways.
    pub open spec fn position(&self, from: int, k: nat) -> Option<int>
        decreases k,
    {
        if k == 0 {
            Some(from)
        } else {
            match self.position(from, (k - 1) as nat) {
                Some(p) => self.step(p, self.directions[self.turn_at((k - 1) as nat)]),
                None => None,
            }
        }
    }

    /// Whether junction `p` is the goal of the first part.
    pub open spec fn is_goal(&self, p: int) -> bool {
        self.nodes[p].name@ == "ZZZ"@
    }

    /// Whether the name of junction `p` ends in `c`.
    pub open spec fn ends_in(&self, p: int, c: char) -> bool {
        self.nodes[p].name.len() > 0 && self.nodes[p].name@.last() == c
    }

    /// The most steps that either part takes before it gives up: as many
    /// as there are pairs of a junction and a place in the list of turns,
    /// or the greatest machine word if that is less. A way that has not
    /// arrived after so many steps has come back to a pair it has been at,
    /// and goes round for ever.
    pub open spec fn limit(&self) -> int {
        let pairs = self.nodes.len() * self.directions.len();
        if pairs > usize::MAX {
            usize::MAX as int
        } else {
            pairs
        }
    }

    /// Whether the way from `from` arrives at the goal of the first part
    /// after exactly `k` steps and not before.
    pub open spec fn arrives(&self, from: int, k: nat) -> bool {
        &&& k >= 1
        &&& self.position(from, k) matches Some(p) && self.is_goal(p)
        &&& forall|j: nat|
            1 <= j < k ==> (#[trigger] self.position(from, j) matches Some(p) && !self.is_goal(p))
    }

    /// Whether `k` is the answer of the first part: zero where there are
    /// no turns to follow, and else the number of steps after which the way
    /// from the start first arrives at the goal.
    pub open spec fn is_step_count(&self, k: nat) -> bool {
        if self.directions.len() == 0 {
            k == 0
        } else {
            self.arrives(self.start as int, k)
        }
    }

    /// Whether the way from `from` goes `k` steps without arriving at the
    /// goal of the first part.
    pub open spec fn wanders(&self, from: int, k: nat) -> bool {
        forall|j: nat|
            1 <= j <= k ==> (#[trigger] self.position(from, j) matches Some(p) && !self.is_goal(p))
    }

    /// The number of the last of the first `k` steps after which the way
    /// from `from` stands on a junction that ends in `Z`; `None` where there
    /// is none, or the way has come to a junction without ways.
    pub open spec fn last_visit(&self, from: int, k: nat) -> Option<nat>
        decreases k,
    {
        if k == 0 {
            None
        } else {
            match self.position(from, k) {
                Some(p) => if self.ends_in(p, 'Z') {
                    Some(k)
                } else {
                    self.last_visit(from, (k - 1) as nat)
                },
                None => None,
            }
        }
    }

    fn turn(&self, p: usize, d: Direction) -> (r: Option<usize>)
        requires
            self.wf(),
            p < self.nodes.len(),
        ensures
            r matches Some(q) ==> self.step(p as int, d) == Some(q as int) && q < self.nodes.len(),
            r is None ==> self.step(p as int, d) is None,
    {
        match self.nodes[p].exits {
            Some((l, r)) => Some(
                match d {
                    Direction::Left => l,
                    Direction::Right => r,
                },
            ),
            None => None,
        }
    }

    fn step_limit(&self) -> (n: usize)
        ensures
            n == self.limit(),
    {
        match self.nodes.len().checked_mul(self.directions.len()) {
            Some(n) => n,
            None => usize::MAX,
        }
    }

    fn has_name(&self, p: usize, name: &Vec<char>) -> (b: bool)
        requires
            p < self.nodes.len(),
        ensures
            b == (self.nodes[p as int].name@ == name@),
    {
        same_chars(self.nodes[p].name.as_slice(), name.as_slice())
    }

    fn ends_with(&self, p: usize, c: char) -> (b: bool)
        requires
            p < self.nodes.len(),
        ensures
            b == self.ends_in(p as int, c),
    {
        let name = &self.nodes[p].name;
        name.len() > 0 && name[name.len() - 1] == c
    }

    /// The number of steps from `AAA` to `ZZZ`: zero where there are no
    /// turns to follow. `None` where the map gives no ways from a junction
    /// on the way, or the way has not arrived within the limit of steps.
    pub fn steps_to_goal(&self) -> (r: Option<usize>)
        requires
            self.wf(),
        ensures
            r matches Some(k) ==> if self.directions.len() == 0 {
                k == 0
            } else {
                self.arrives(self.start as int, k as nat)
            },
            r is None ==> self.is_lost(),
    {
        let start = self.start;
        if self.directions.len() == 0 {
            return Some(0);
        }
        let goal = chars_of("ZZZ");
        let limit = self.step_limit();
        let mut count: usize = 0;
        let mut at: usize = start;
        let mut turn: usize = 0;
        while count < limit
            invariant
                self.wf(),
                self.start == start,
                self.directions.len() > 0,
                goal@ == "ZZZ"@,
                limit == self.limit(),
                count <= limit,
                at < self.nodes.len(),
                turn < self.directions.len(),
                turn == self.turn_at(count as nat),
                self.position(start as int, count as nat) == Some(at as int),
                self.wanders(start as int, count as nat),
            decreases limit - count,
        {
            let next = match self.turn(at, self.directions[turn]) {
                Some(q) => q,
                None => {
                    assert(self.position(start as int, (count + 1) as nat) is None);
                    return None;
                },
            };
            count += 1;
            at = next;
            turn = if turn + 1 >= self.directions.len() {
                0
            } else {
                turn + 1
            };
            if self.has_name(at, &goal) {
                assert(self.arrives(start as int, count as nat));
                return Some(count);
            }
        }
        None
    }

    /// The junctions among the first `n` whose names end in `A`, in order.
    pub open spec fn starts(&self, n: nat) -> Seq<int>
        decreases n,
    {
        if n == 0 {
            Seq::empty()
        } else {
            let before = self.starts((n - 1) as nat);
            if self.ends_in(n - 1, 'A') {
                before.push(n - 1)
            } else {
                before
            }
        }
    }

    /// The junctions whose names end in `A`, in order.
    pub open spec fn all_starts(&self) -> Seq<int> {
        self.starts(self.nodes.len() as nat)
    }

    /// Whether, after `k` steps, every way from a junction that ends in
    /// `A` has stood on a junction that ends in `Z`.
    pub open spec fn all_visited(&self, k: nat) -> bool {
        forall|i: int|
            0 <= i < self.all_starts().len() ==> #[trigger] self.last_visit(
                self.all_starts()[i],
                k,
            ) is Some
    }

    /// For every way from a junction that ends in `A`, the number of the
    /// last of the first `k` steps after which it stood on a junction that
    /// ends in `Z`.
    pub open spec fn visits(&self, k: nat) -> Seq<nat> {
        Seq::new(
            self.all_starts().len(),
            |i: int| self.last_visit(self.all_starts()[i], k)->0,
        )
    }

    /// Whether a name that ends in `A` occurs more than once in the map.
    pub open spec fn has_repeated_start(&self) -> bool {
        exists|i: int|
            0 <= i < self.nodes.len() && self.ends_in(i, 'A') && (#[trigger] self.nodes[i]).repeated
    }

    /// Whether the ways of the second part come to rest after `k` steps:
    /// there are turns to follow, no name that ends in `A` occurs more than
    /// once, and `k` is the first number of steps after which every way has
    /// stood on a junction that ends in `Z`.
    pub open spec fn settles_at(&self, k: nat) -> bool {
        &&& self.directions.len() > 0
        &&& !self.has_repeated_start()
        &&& k >= 1
        &&& self.all_visited(k)
        &&& forall|j: nat| 1 <= j < k ==> !#[trigger] self.all_visited(j)
    }

    /// A way that has come to a junction without ways stays there.
    pub proof fn lemma_dead_end(&self, from: int, k: nat, t: nat)
        requires
            1 <= k <= t,
            self.position(from, k) is None,
        ensures
            self.position(from, t) is None,
            self.last_visit(from, t) is None,
        decreases t - k,
    {
        if k < t {
            self.lemma_dead_end(from, k, (t - 1) as nat);
        }
    }

    fn start_nodes(&self) -> (r: Option<Vec<usize>>)
        ensures
            r matches Some(v) ==> !self.has_repeated_start() && v.len() == self.all_starts().len()
                && forall|i: int|
                0 <= i < v.len() ==> (#[trigger] v[i]) == self.all_starts()[i] && v[i]
                    < self.nodes.len(),
            r is None ==> self.has_repeated_start(),
    {
        let mut v: Vec<usize> = Vec::new();
        let mut i: usize = 0;
        while i < self.nodes.len()
            invariant
                i <= self.nodes.len(),
                v.len() == self.starts(i as nat).len(),
                forall|j: int|
                    0 <= j < v.len() ==> (#[trigger] v[j]) == self.starts(i as nat)[j] && v[j]
                        < self.nodes.len(),
                forall|j: int|
                    0 <= j < i && self.ends_in(j, 'A') ==> !(#[trigger] self.nodes[j]).repeated,
            decreases self.nodes.len() - i,
        {
            if self.ends_with(i, 'A') {
                if self.nodes[i].repeated {
                    return None;
                }
                v.push(i);
            }
            i += 1;
        }
        Some(v)
    }

    /// The answer of the second part: all ways from the junctions that end
    /// in `A` are followed at once until each has stood on a junction that
    /// ends in `Z`; the answer is the least common multiple of the numbers
    /// of the steps at which each last did. `None` where the ways do not
    /// come to rest within the limit of steps, or the multiple is beyond 64
    /// bits.
    pub fn ghost_steps(&self) -> (r: Option<u64>)
        requires
            self.wf(),
        ensures
            r matches Some(m) ==> exists|t: nat|
                #![trigger self.settles_at(t)]
                self.settles_at(t) && lcm_all(self.visits(t)) == Some(m as nat),
            r is None ==> self.is_unsettled(),
    {
        if self.directions.len() == 0 {
            return None;
        }
        let starts = match self.start_nodes() {
            Some(v) => v,
            None => {
                return None;
            },
        };
        let ghost origins = self.all_starts();
        let n = starts.len();
        let mut at: Vec<usize> = Vec::new();
        let mut seen: Vec<Option<usize>> = Vec::new();
        let mut i: usize = 0;
        while i < n
            invariant
                i <= n,
                n == starts.len(),
                at.len() == i,
                seen.len() == i,
                forall|j: int| 0 <= j < i ==> #[trigger] at[j] == starts[j],
                forall|j: int| 0 <= j < i ==> (#[trigger] seen[j]) is None,
            decreases n - i,
        {
            at.push(starts[i]);
            seen.push(None);
            i += 1;
        }
        let limit = self.step_limit();
        let mut count: usize = 0;
        let mut turn: usize = 0;
        let mut done = n == 0;
        if n == 0 {
            assert(lcm_all(self.visits(0)) is None);
            assert forall|t: nat| #![trigger self.settles_at(t)] lcm_all(self.visits(t)) is None by {
                assert(self.visits(t) =~= self.visits(0));
            }
            return None;
        }
        while count < limit
            invariant
                self.wf(),
                self.directions.len() > 0,
                !self.has_repeated_start(),
                origins == self.all_starts(),
                n == starts.len(),
                n > 0,
                n == origins.len(),
                at.len() == n,
                seen.len() == n,
                limit == self.limit(),
                count <= limit,
                turn < self.directions.len(),
                turn == self.turn_at(count as nat),
                forall|j: int| 0 <= j < n ==> (#[trigger] starts[j]) == origins[j],
                forall|j: int| 0 <= j < n ==> (#[trigger] at[j]) < self.nodes.len(),
                forall|j: int|
                    0 <= j < n ==> self.position(origins[j], count as nat) == Some(
                        (#[trigger] at[j]) as int,
                    ),
                forall|j: int|
                    0 <= j < n ==> match #[trigger] seen[j] {
                        Some(c) => self.last_visit(origins[j], count as nat) == Some(c as nat),
                        None => self.last_visit(origins[j], count as nat) is None,
                    },
                forall|t: nat| 1 <= t <= count ==> !#[trigger] self.all_visited(t),
            decreases limit - count,
        {
            let direction = self.directions[turn];
            let ghost at0 = at@;
            let ghost seen0 = seen@;
            let mut all = true;
            let mut i: usize = 0;
            while i < n
                invariant
                    self.wf(),
                    origins == self.all_starts(),
                    n == origins.len(),
                    at.len() == n,
                    seen.len() == n,
                    at0.len() == n,
                    seen0.len() == n,
                    i <= n,
                    count < limit,
                    turn < self.directions.len(),
                    turn == self.turn_at(count as nat),
                    direction == self.directions[turn as int],
                    forall|t: nat| 1 <= t <= count ==> !#[trigger] self.all_visited(t),
                    forall|j: int| 0 <= j < n ==> (#[trigger] at[j]) < self.nodes.len(),
                    forall|j: int| i <= j < n ==> #[trigger] at[j] == at0[j],
                    forall|j: int| i <= j < n ==> #[trigger] seen[j] == seen0[j],
                    forall|j: int|
                        0 <= j < n ==> self.position(origins[j], count as nat) == Some(
                            (#[trigger] at0[j]) as int,
                        ),
                    forall|j: int|
                        0 <= j < n ==> match #[trigger] seen0[j] {
                            Some(c) => self.last_visit(origins[j], count as nat) == Some(c as nat),
                            None => self.last_visit(origins[j], count as nat) is None,
                        },
                    forall|j: int|
                        0 <= j < i ==> self.position(origins[j], (count + 1) as nat) == Some(
                            (#[trigger] at[j]) as int,
                        ),
                    forall|j: int|
                        0 <= j < i ==> match #[trigger] seen[j] {
                            Some(c) => self.last_visit(origins[j], (count + 1) as nat) == Some(
                                c as nat,
                            ),
                            None => self.last_visit(origins[j], (count + 1) as nat) is None,
                        },
                    all ==> forall|j: int| 0 <= j < i ==> (#[trigger] seen[j]) is Some,
                    !all ==> exists|j: int| 0 <= j < i && (#[trigger] seen[j]) is None,
                decreases n - i,
            {
                assert(at[i as int] == at0[i as int]);
                assert(seen[i as int] == seen0[i as int]);
                let next = match self.turn(at[i], direction) {
                    Some(q) => q,
                    None => {
                        proof {
                            let from = origins[i as int];
                            assert(self.position(from, (count + 1) as nat) is None);
                            assert forall|t: nat|
                                #![trigger self.settles_at(t)]
                                1 <= t <= self.limit() && self.settles_at(t) implies lcm_all(
                                    self.visits(t),
                                ) is None by {
                                if t > count {
                                    self.lemma_dead_end(from, (count + 1) as nat, t);
                                    assert(self.last_visit(self.all_starts()[i as int], t) is None);
                                    assert(!self.all_visited(t));
                                }
                            }
                        }
                        return None;
                    },
                };
                let ghost blank = if all {
                    i as int
                } else {
                    choose|j: int| 0 <= j < i && (#[trigger] seen[j]) is None
                };
                at.set(i, next);
                if self.ends_with(next, 'Z') {
                    seen.set(i, Some(count + 1));
                }
                if seen[i].is_none() {
                    all = false;
                }
                assert(!all ==> seen[blank] is None);
                i += 1;
            }
            count += 1;
            turn = if turn + 1 >= self.directions.len() {
                0
            } else {
                turn + 1
            };
            if all {
                proof {
                    assert(self.all_visited(count as nat)) by {
                        assert forall|j: int| 0 <= j < self.all_starts().len() implies (
                        #[trigger] self.last_visit(self.all_starts()[j], count as nat)) is Some by {
                            assert(seen[j] is Some);
                        }
                    }
                    assert(self.settles_at(count as nat));
                }
                let mut counts: Vec<u64> = Vec::new();
                let mut i: usize = 0;
                while i < n
                    invariant
                        i <= n,
                        n == origins.len(),
                        seen.len() == n,
                        counts.len() == i,
                        forall|j: int|
                            0 <= j < n ==> match #[trigger] seen[j] {
                                Some(c) => self.last_visit(origins[j], count as nat) == Some(
                                    c as nat,
                                ),
                                None => false,
                            },
                        forall|j: int|
                            0 <= j < i ==> (#[trigger] counts[j]) as nat == self.last_visit(
                                origins[j],
                                count as nat,
                            )->0,
                    decreases n - i,
                {
                    match seen[i] {
                        Some(c) => {
                            counts.push(c as u64);
                        },
                        None => {
                            counts.push(0);
                        },
                    }
                    i += 1;
                }
                assert(Seq::new(counts.len() as nat, |i: int| counts[i] as nat) =~= self.visits(
                    count as nat,
                ));
                let r = lcm_of_all(&counts);
                proof {
                    if r is None {
                        assert forall|t: nat|
                            #![trigger self.settles_at(t)]
                            1 <= t <= self.limit() && self.settles_at(t) implies lcm_all(
                                self.visits(t),
                            ) is None by {
                            if t < count {
                                assert(!self.all_visited(t));
                            } else if t > count {
                                assert(self.all_visited(count as nat));
                            }
                        }
                    }
                }
                return r;
            } else {
                proof {
                    let j = choose|j: int| 0 <= j < n && (#[trigger] seen[j]) is None;
                    assert(self.last_visit(self.all_starts()[j], count as nat) is None);
                    assert(!self.all_visited(count as nat));
                }
            }
        }
        None
    }
}

/// The least common multiple of the numbers of a list, folded from the
/// first: that of the first two, then that of the result and the third, and
/// so on. `None` for an empty list, and where a fold is beyond 64 bits.
pub open spec fn lcm_all(s: Seq<nat>) -> Option<nat>
    decreases s.len(),
{
    if s.len() == 0 {
        None
    } else if s.len() == 1 {
        Some(s[0])
    } else {
        match lcm_all(s.drop_last()) {
            Some(m) => if lcm_of(m, s.last()) <= u64::MAX {
                Some(lcm_of(m, s.last()))
            } else {
                None
            },
            None => None,
        }
    }
}

/// Folds the least common multiple over a list of numbers.
pub fn lcm_of_all(v: &Vec<u64>) -> (r: Option<u64>)
    ensures
        r matches Some(m) ==> lcm_all(Seq::new(v.len() as nat, |i: int| v[i] as nat)) == Some(
            m as nat,
        ),
        r is None ==> lcm_all(Seq::new(v.len() as nat, |i: int| v[i] as nat)) is None,
{
    let ghost s = Seq::new(v.len() as nat, |i: int| v[i] as nat);
    if v.len() == 0 {
        return None;
    }
    let mut acc: u64 = v[0];
    let mut i: usize = 1;
    assert(s.take(1).len() == 1);
    assert(s.take(1)[0] == v[0]);
    while i < v.len()
        invariant
            1 <= i <= v.len(),
            s == Seq::new(v.len() as nat, |i: int| v[i] as nat),
            lcm_all(s.take(i as int)) == Some(acc as nat),
        decreases v.len() - i,
    {
        assert(s.take(i + 1).drop_last() == s.take(i as int));
        assert(s.take(i + 1).last() == v[i as int]);
        match lcm(acc, v[i]) {
            Some(m) => {
                acc = m;
            },
            None => {
                proof {
                    lemma_lcm_all_none(s, i + 1);
                }
                return None;
            },
        }
        i += 1;
    }
    assert(s.take(v.len() as int) == s);
    Some(acc)
}

proof fn lemma_lcm_all_none(s: Seq<nat>, n: int)
    requires
        1 <= n <= s.len(),
        lcm_all(s.take(n)) is None,
    ensures
        lcm_all(s) is None,
    decreases s.len() - n,
{
    if n == s.len() {
        assert(s.take(n) == s);
    } else {
        assert(s.take(n + 1).drop_last() == s.take(n));
        lemma_lcm_all_none(s, n + 1);
    }
}

/// A junction as plain values: its name, its ways, and whether its name
/// occurs more than once.
pub type JunctionModel = (Seq<char>, Option<(int, int)>, bool);

impl Junction {
    /// The junction as plain values.
    pub open spec fn model(&self) -> JunctionModel {
        (
            self.name@,
            match self.exits {
                Some((l, r)) => Some((l as int, r as int)),
                None => None,
            },
            self.repeated,
        )
    }
}

/// The junctions of a list as plain values.
pub open spec fn models(nodes: Seq<Junction>) -> Seq<JunctionModel> {
    Seq::new(nodes.len(), |i: int| nodes[i].model())
}

/// The names of a list of junctions given as plain values.
pub open spec fn model_names(m: Seq<JunctionModel>) -> Seq<Seq<char>> {
    Seq::new(m.len(), |i: int| m[i].0)
}

/// The list of junctions after the name `name` has occurred once more, and
/// the place of the junction of that name: a name that the list holds is
/// marked as repeated, any other is added at the end, without ways.
pub open spec fn noted(m: Seq<JunctionModel>, name: Seq<char>) -> (Seq<JunctionModel>, int) {
    match find(model_names(m), name, m.len()) {
        Some(i) => (m.update(i, (m[i].0, m[i].1, true)), i),
        None => (m.push((name, None, false)), m.len() as int),
    }
}

/// The list of junctions and the start after a line that gives the
/// junction `j.0` the ways `j.1` and `j.2`: each of the three names occurs
/// once more, the ways of the junction are set, and the junction becomes the
/// start if its name is `AAA`.
pub open spec fn with_line(
    m: Seq<JunctionModel>,
    start: Option<int>,
    j: (Seq<char>, Seq<char>, Seq<char>),
) -> (Seq<JunctionModel>, Option<int>) {
    let (m1, i) = noted(m, j.0);
    let (m2, l) = noted(m1, j.1);
    let (m3, r) = noted(m2, j.2);
    (
        m3.update(i, (m3[i].0, Some((l, r)), m3[i].2)),
        if j.0 == "AAA"@ {
            Some(i)
        } else {
            start
        },
    )
}

/// The list of junctions and the start after the first `k` lines of
/// junctions, which are the lines of the text from the third on. `None`
/// where one of them is no line of a junction.
pub open spec fn chart_after(ls: Seq<Seq<char>>, k: nat) -> Option<
    (Seq<JunctionModel>, Option<int>),
>
    decreases k,
{
    if k == 0 {
        Some((Seq::empty(), None))
    } else {
        match (chart_after(ls, (k - 1) as nat), junction_of(ls[k as int + 1])) {
            (Some((m, s)), Some(j)) => Some(with_line(m, s, j)),
            _ => None,
        }
    }
}

/// The turns that a line names; `None` where a character names none.
pub open spec fn turns_of(line: Seq<char>) -> Option<Seq<Direction>> {
    if forall|i: int| 0 <= i < line.len() ==> Direction::of_char(#[trigger] line[i]) is Some {
        Some(Seq::new(line.len(), |i: int| Direction::of_char(line[i])->0))
    } else {
        None
    }
}

/// What a text says of a map: the turns of its first line, and the
/// junctions and the start of its lines from the third on. `None` where the
/// text has no line, a character of the first line names no turn, a line
/// from the third on is no line of a junction, or no line gives the ways of
/// `AAA`.
pub open spec fn atlas_of(ls: Seq<Seq<char>>) -> Option<(Seq<Direction>, Seq<JunctionModel>, int)> {
    if ls.len() == 0 {
        None
    } else {
        let k = if ls.len() >= 2 {
            (ls.len() - 2) as nat
        } else {
            0
        };
        match (turns_of(ls[0]), chart_after(ls, k)) {
            (Some(turns), Some((m, Some(start)))) => Some((turns, m, start)),
            _ => None,
        }
    }
}

impl Atlas {
    /// Whether `s` is the answer of the first part: the digits of the number
    /// of steps from the start to the goal.
    pub open spec fn is_answer_one(&self, s: Seq<char>) -> bool {
        exists|k: nat| s == decimal_digits(k) && #[trigger] self.is_step_count(k)
    }

    /// Whether `s` is the answer of the second part: the digits of the
    /// least common multiple of the steps at which the ways of the second
    /// part last stood on a junction that ends in `Z` when they came to
    /// rest.
    pub open spec fn is_answer_two(&self, s: Seq<char>) -> bool {
        exists|t: nat|
            #![trigger self.settles_at(t)]
            self.settles_at(t) && lcm_all(self.visits(t)) is Some && s == decimal_digits(
                lcm_all(self.visits(t))->0,
            )
    }

    /// Whether the way of the first part has no answer: there are turns to
    /// follow, and the way comes to a junction without ways, or goes as many
    /// steps as the limit allows, without having arrived.
    pub open spec fn is_lost(&self) -> bool {
        self.directions.len() > 0 && exists|k: nat|
            #![trigger self.position(self.start as int, k)]
            #![trigger self.wanders(self.start as int, k)]
            (k + 1 <= self.limit() && self.wanders(self.start as int, k) && self.position(
                self.start as int,
                k + 1,
            ) is None) || (k == self.limit() && self.wanders(self.start as int, k))
    }

    /// Whether the ways of the second part have no answer: wherever they
    /// come to rest within the limit of steps, the least common multiple is
    /// beyond 64 bits or there is no way at all.
    pub open spec fn is_unsettled(&self) -> bool {
        forall|t: nat|
            #![trigger self.settles_at(t)]
            1 <= t <= self.limit() && self.settles_at(t) ==> lcm_all(self.visits(t)) is None
    }

    /// The map as plain values.
    pub open spec fn model(&self) -> (Seq<Direction>, Seq<JunctionModel>, int) {
        (self.directions@, models(self.nodes@), self.start as int)
    }
}

fn read_junction(line: &Vec<char>) -> (r: Option<(Vec<char>, Vec<char>, Vec<char>)>)
    ensures
        r matches Some((a, b, c)) ==> junction_of(line@) == Some((a@, b@, c@)),
        r is None ==> junction_of(line@) is None,
{
    let mut parser = Parser::over(copy_chars(line.as_slice()));
    let node = match parser.parse_word() {
        Ok(w) => w,
        Err(_) => {
            return None;
        },
    };
    if parser.step_over('=').is_err() {
        return None;
    }
    if parser.step_over('(').is_err() {
        return None;
    }
    let left = match parser.parse_word() {
        Ok(w) => w,
        Err(_) => {
            return None;
        },
    };
    if parser.step_over(',').is_err() {
        return None;
    }
    let right = match parser.parse_word() {
        Ok(w) => w,
        Err(_) => {
            return None;
        },
    };
    Some((chars_of(node.as_str()), chars_of(left.as_str()), chars_of(right.as_str())))
}

fn note(nodes: &mut Vec<Junction>, name: Vec<char>) -> (i: usize)
    ensures
        noted(models(old(nodes)@), name@) == (models(final(nodes)@), i as int),
        i < final(nodes).len(),
        final(nodes).len() >= old(nodes).len(),
        forall|j: int| 0 <= j < old(nodes).len() ==> (#[trigger] final(nodes)[j]).exits == old(
            nodes,
        )[j].exits,
        forall|j: int|
            old(nodes).len() <= j < final(nodes).len() ==> (#[trigger] final(nodes)[j]).exits
                is None,
{
    let ghost before = models(nodes@);
    let ghost names = model_names(before);
    let n = nodes.len();
    let mut i: usize = 0;
    while i < n
        invariant
            i <= n,
            n == nodes.len(),
            before == models(nodes@),
            names == model_names(before),
            nodes@ == old(nodes)@,
            find(names, name@, i as nat) is None,
        decreases n - i,
    {
        assert(names[i as int] == nodes[i as int].name@);
        if same_chars(nodes[i].name.as_slice(), name.as_slice()) {
            let exits = nodes[i].exits;
            nodes.set(i, Junction { name, exits, repeated: true });
            proof {
                lemma_find_stays(names, name@, (i + 1) as nat, n as nat);
                assert(models(nodes@) =~= before.update(
                    i as int,
                    (before[i as int].0, before[i as int].1, true),
                ));
            }
            return i;
        }
        i += 1;
    }
    let ghost added = name@;
    nodes.push(Junction { name, exits: None, repeated: false });
    assert(models(nodes@) =~= before.push((added, None, false)));
    n
}

proof fn lemma_find_stays(names: Seq<Seq<char>>, name: Seq<char>, k: nat, n: nat)
    requires
        k <= n,
        find(names, name, k) is Some,
    ensures
        find(names, name, n) == find(names, name, k),
    decreases n,
{
    if k < n {
        lemma_find_stays(names, name, k, (n - 1) as nat);
    }
}

fn read_turns(line: &Vec<char>) -> (r: Option<Vec<Direction>>)
    ensures
        r matches Some(v) ==> turns_of(line@) == Some(v@),
        r is None ==> turns_of(line@) is None,
{
    let mut v: Vec<Direction> = Vec::new();
    let mut i: usize = 0;
    while i < line.len()
        invariant
            i <= line.len(),
            v.len() == i,
            forall|j: int| 0 <= j < i ==> Direction::of_char(line[j]) == Some(#[trigger] v[j]),
        decreases line.len() - i,
    {
        match Direction::from_char(&line[i]) {
            Some(d) => {
                v.push(d);
            },
            None => {
                assert(Direction::of_char(line@[i as int]) is None);
                return None;
            },
        }
        i += 1;
    }
    assert(v@ =~= Seq::new(line@.len(), |i: int| Direction::of_char(line@[i])->0));
    assert forall|j: int| 0 <= j < line@.len() implies Direction::of_char(
        #[trigger] line@[j],
    ) is Some by {
        assert(Direction::of_char(line[j]) == Some(v[j]));
    }
    Some(v)
}

impl Day08 {
    /// Reads a map; `None` where the text is none.
    pub fn parse_input(input: &str) -> (r: Option<Atlas>)
        ensures
            r matches Some(atlas) ==> atlas.wf() && atlas_of(lines_of(input@)) == Some(
                atlas.model(),
            ),
            r is None ==> atlas_of(lines_of(input@)) is None,
    {
        let rows = lines(input);
        let ghost ls = lines_of(input@);
        if rows.len() == 0 {
            return None;
        }
        assert(rows[0]@ == ls[0]);
        let directions = match read_turns(&rows[0]) {
            Some(d) => d,
            None => {
                return None;
            },
        };
        let mut nodes: Vec<Junction> = Vec::new();
        let mut start: Option<usize> = None;
        let mut i: usize = 2;
        assert(models(nodes@) =~= Seq::<JunctionModel>::empty());
        while i < rows.len()
            invariant
                2 <= i,
                i <= rows.len() || (rows.len() < 2 && i == 2),
                rows.len() > 0,
                views(rows@) == ls,
                ls == lines_of(input@),
                turns_of(ls[0]) == Some(directions@),
                chart_after(ls, (i - 2) as nat) == Some(
                    (
                        models(nodes@),
                        match start {
                            Some(s) => Some(s as int),
                            None => None,
                        },
                    ),
                ),
                start matches Some(s) ==> s < nodes.len(),
                forall|j: int|
                    0 <= j < nodes.len() ==> ((#[trigger] nodes[j]).exits matches Some((l, r))
                        ==> l < nodes.len() && r < nodes.len()),
            decreases rows.len() - i,
        {
            assert(rows[i as int]@ == ls[i as int]);
            let (node, left, right) = match read_junction(&rows[i]) {
                Some(j) => j,
                None => {
                    proof {
                        lemma_chart_none(ls, (i - 1) as nat, (rows.len() - 2) as nat);
                    }
                    return None;
                },
            };
            let is_start = same_chars(node.as_slice(), chars_of("AAA").as_slice());
            let ghost j = (node@, left@, right@);
            let a = note(&mut nodes, node);
            let l = note(&mut nodes, left);
            let r = note(&mut nodes, right);
            let ghost m3 = models(nodes@);
            let (name, repeated) = (copy_chars(nodes[a].name.as_slice()), nodes[a].repeated);
            nodes.set(a, Junction { name, exits: Some((l, r)), repeated });
            assert(models(nodes@) =~= m3.update(a as int, (m3[a as int].0, Some((l as int, r as int)), m3[a as int].2)));
            if is_start {
                start = Some(a);
            }
            i += 1;
        }
        match start {
            Some(start) => {
                let atlas = Atlas { directions, nodes, start };
                assert(atlas.wf());
                assert(chart_after(ls, (i - 2) as nat) == Some(
                    (models(atlas.nodes@), Some(start as int)),
                ));
                assert(atlas_of(ls) == Some(atlas.model()));
                Some(atlas)
            },
            None => None,
        }
    }

    /// The number of steps from `AAA` to `ZZZ`, in decimal digits.
    pub fn part_one(parsed_input: &Atlas) -> (r: Option<String>)
        requires
            parsed_input.wf(),
        ensures
            r matches Some(s) ==> parsed_input.is_answer_one(s@),
            r is None ==> parsed_input.is_lost(),
    {
        match parsed_input.steps_to_goal() {
            Some(k) => {
                let s = decimal_string(k as u64);
                assert(s@ == decimal_digits(k as nat) && parsed_input.is_step_count(k as nat));
                Some(s)
            },
            None => None,
        }
    }

    /// The number of steps after which all ways of the second part stand
    /// on junctions that end in `Z`, as the least common multiple of the
    /// steps of each, in decimal digits.
    pub fn part_two(parsed_input: &Atlas) -> (r: Option<String>)
        requires
            parsed_input.wf(),
        ensures
            r matches Some(s) ==> parsed_input.is_answer_two(s@),
            r is None ==> parsed_input.is_unsettled(),
    {
        match parsed_input.ghost_steps() {
            Some(m) => {
                let s = decimal_string(m);
                Some(s)
            },
            None => None,
        }
    }

    /// Reads a map and answers the first part; `None` where the text is no
    /// map or the part has no answer.
    pub fn solve_part_one(input: &str) -> (r: Option<String>)
        ensures
            r matches Some(s) ==> exists|atlas: Atlas|
                #![trigger atlas.model()]
                atlas_of(lines_of(input@)) == Some(atlas.model()) && atlas.is_answer_one(s@),
            r is None ==> atlas_of(lines_of(input@)) is None || exists|atlas: Atlas|
                #![trigger atlas.model()]
                atlas_of(lines_of(input@)) == Some(atlas.model()) && atlas.is_lost(),
    {
        match Self::parse_input(input) {
            Some(atlas) => {
                let r = Self::part_one(&atlas);
                assert(atlas_of(lines_of(input@)) == Some(atlas.model()));
                r
            },
            None => None,
        }
    }

    /// Reads a map and answers the second part; `None` where the text is
    /// no map or the part has no answer.
    pub fn solve_part_two(input: &str) -> (r: Option<String>)
        ensures
            r matches Some(s) ==> exists|atlas: Atlas|
                #![trigger atlas.model()]
                atlas_of(lines_of(input@)) == Some(atlas.model()) && atlas.is_answer_two(s@),
            r is None ==> atlas_of(lines_of(input@)) is None || exists|atlas: Atlas|
                #![trigger atlas.model()]
                atlas_of(lines_of(input@)) == Some(atlas.model()) && atlas.is_unsettled(),
    {
        match Self::parse_input(input) {
            Some(atlas) => {
                let r = Self::part_two(&atlas);
                assert(atlas_of(lines_of(input@)) == Some(atlas.model()));
                r
            },
            None => None,
        }
    }

    /// Reads a map and answers both parts; `None` where either has no
    /// answer. The flag asks whoever calls to time the work; the answers do
    /// not depend on it.
    pub fn solve(input: &str, include_time: bool) -> (r: Option<(String, String)>)
        ensures
            r matches Some((one, two)) ==> exists|atlas: Atlas|
                #![trigger atlas.model()]
                atlas_of(lines_of(input@)) == Some(atlas.model()) && atlas.is_answer_one(one@)
                    && atlas.is_answer_two(two@),
            r is None ==> atlas_of(lines_of(input@)) is None || exists|atlas: Atlas|
                #![trigger atlas.model()]
                atlas_of(lines_of(input@)) == Some(atlas.model()) && (atlas.is_lost()
                    || atlas.is_unsettled()),
    {
        match Self::parse_input(input) {
            Some(atlas) => {
                assert(atlas_of(lines_of(input@)) == Some(atlas.model()));
                match (Self::part_one(&atlas), Self::part_two(&atlas)) {
                    (Some(a), Some(b)) => Some((a, b)),
                    _ => None,
                }
            },
            None => None,
        }
    }
}

proof fn lemma_chart_none(ls: Seq<Seq<char>>, k: nat, n: nat)
    requires
        k <= n,
        chart_after(ls, k) is None,
    ensures
        chart_after(ls, n) is None,
    decreases n,
{
    if k < n {
        lemma_chart_none(ls, k, (n - 1) as nat);
    }
}

} // verus!
