//! A cursor over text with the few reading steps that the line formats of
//! the puzzles need: skip whitespace, skip a count of characters, step over
//! one expected character, read a number, read a word.

use vstd::prelude::*;
use crate::text::{
    chars_of, digit, is_digit, is_space, parse_digits, read_digits, space, string_of,
};

verus! {

/// Whether a character has the Unicode property `Alphabetic`, as
/// `char::is_alphabetic` of the standard library decides it.
pub uninterp spec fn is_alphabetic(c: char) -> bool;

/// `char::is_alphabetic`: whether `c` has the Unicode property
/// `Alphabetic`. The property is a table of the Unicode standard; the
/// contract names the answer and states nothing else of it.
#[verifier::external_body]
pub(crate) fn alphabetic(c: char) -> (b: bool)
    ensures
        b == is_alphabetic(c),
{
    c.is_alphabetic()
}

/// A class of characters.
#[derive(Clone, Copy, Debug, PartialEq, Eq, Structural)]
pub enum CharClass {
    /// The characters with the Unicode property `White_Space`.
    Space,
    /// The ten ASCII digits.
    Digit,
    /// The characters with the Unicode property `Alphabetic`.
    Letter,
}

impl CharClass {
    /// Whether `c` belongs to the class.
    pub open spec fn holds(self, c: char) -> bool {
        match self {
            CharClass::Space => is_space(c),
            CharClass::Digit => is_digit(c),
            CharClass::Letter => is_alphabetic(c),
        }
    }

    /// Whether `c` belongs to the class.
    pub fn test(&self, c: char) -> (b: bool)
        ensures
            b == self.holds(c),
    {
        match self {
            CharClass::Space => space(c),
            CharClass::Digit => digit(c),
            CharClass::Letter => alphabetic(c),
        }
    }
}

/// The length of the longest prefix of `s` whose characters all belong to
/// the class `k`.
pub open spec fn run(s: Seq<char>, k: CharClass) -> nat
    decreases s.len(),
{
    if s.len() > 0 && k.holds(s[0]) {
        1 + run(s.skip(1), k)
    } else {
        0
    }
}

/// A prefix of characters of the class that ends at a character outside
/// it, or at the end of the text, is the longest.
pub proof fn lemma_run(s: Seq<char>, k: CharClass, n: int)
    requires
        0 <= n <= s.len(),
        forall|i: int| 0 <= i < n ==> k.holds(#[trigger] s[i]),
        n == s.len() || !k.holds(s[n]),
    ensures
        run(s, k) == n,
    decreases n,
{
    if n > 0 {
        let t = s.skip(1);
        assert forall|i: int| 0 <= i < n - 1 implies k.holds(#[trigger] t[i]) by {
            assert(t[i] == s[i + 1]);
        }
        lemma_run(t, k, n - 1);
    }
}

/// The longest run has the properties of the lemma above.
pub proof fn lemma_run_props(s: Seq<char>, k: CharClass)
    ensures
        run(s, k) <= s.len(),
        forall|i: int| 0 <= i < run(s, k) ==> k.holds(#[trigger] s[i]),
        run(s, k) == s.len() || !k.holds(s[run(s, k) as int]),
    decreases s.len(),
{
    if s.len() > 0 && k.holds(s[0]) {
        let t = s.skip(1);
        lemma_run_props(t, k);
        assert forall|i: int| 0 <= i < run(s, k) implies k.holds(#[trigger] s[i]) by {
            if i > 0 {
                assert(t[i - 1] == s[i]);
            }
        }
        if run(s, k) != s.len() {
            assert(t[run(t, k) as int] == s[run(s, k) as int]);
        }
    }
}

/// The text without its leading whitespace.
pub open spec fn after_spaces(s: Seq<char>) -> Seq<char> {
    s.skip(run(s, CharClass::Space) as int)
}

/// The leading run of digits of a text and what follows it.
pub open spec fn digits_and_rest(s: Seq<char>) -> (Seq<char>, Seq<char>) {
    let n = run(s, CharClass::Digit) as int;
    (s.take(n), s.skip(n))
}

/// The leading run of letters of a text and what follows it.
pub open spec fn letters_and_rest(s: Seq<char>) -> (Seq<char>, Seq<char>) {
    let n = run(s, CharClass::Letter) as int;
    (s.take(n), s.skip(n))
}

/// Why a run of digits is no number of the type asked for.
#[derive(Clone, Copy, Debug, PartialEq, Eq, Structural)]
pub enum IntError {
    /// There is no digit.
    Empty,
    /// The number is too large.
    Overflow,
}

/// What a run of digits is as a number up to `max`.
pub open spec fn number_of(digits: Seq<char>, max: nat) -> Result<nat, IntError> {
    match parse_digits(digits, max) {
        Some(v) => Ok(v),
        None => if digits.len() == 0 {
            Err(IntError::Empty)
        } else {
            Err(IntError::Overflow)
        },
    }
}

/// A cursor over the characters of a text.
pub struct Parser {
    chars: Vec<char>,
    pos: usize,
}

impl Parser {
    #[verifier::type_invariant]
    spec fn inv(self) -> bool {
        self.pos <= self.chars.len()
    }

    /// The text that the cursor has yet to read.
    pub closed spec fn remaining(&self) -> Seq<char> {
        self.chars@.skip(self.pos as int)
    }

    /// A cursor at the start of `s`.
    pub fn new(s: &str) -> (p: Parser)
        ensures
            p.remaining() == s@,
    {
        let chars = chars_of(s);
        assert(chars@.skip(0) == chars@);
        Parser { chars, pos: 0 }
    }

    /// A cursor at the start of the characters `chars`.
    pub fn over(chars: Vec<char>) -> (p: Parser)
        ensures
            p.remaining() == chars@,
    {
        assert(chars@.skip(0) == chars@);
        Parser { chars, pos: 0 }
    }

    /// The next character, if there is one; the cursor stays.
    pub fn peek(&self) -> (c: Option<char>)
        ensures
            c == if self.remaining().len() > 0 {
                Some(self.remaining()[0])
            } else {
                None
            },
    {
        proof {
            use_type_invariant(self);
        }
        if self.pos < self.chars.len() {
            Some(self.chars[self.pos])
        } else {
            None
        }
    }

    /// Whether the cursor has read all of the text.
    pub fn at_end(&self) -> (b: bool)
        ensures
            b == (self.remaining().len() == 0),
    {
        proof {
            use_type_invariant(self);
        }
        self.pos >= self.chars.len()
    }

    /// Moves the cursor over the longest run of characters of class `k`
    /// and returns the run's length.
    fn advance(&mut self, k: CharClass) -> (n: usize)
        ensures
            n == run(old(self).remaining(), k),
            final(self).remaining() == old(self).remaining().skip(n as int),
            final(self).chars == old(self).chars,
            final(self).pos == old(self).pos + n,
    {
        proof {
            use_type_invariant(&*self);
        }
        let ghost rem = self.remaining();
        let from = self.pos;
        let mut i: usize = self.pos;
        while i < self.chars.len() && k.test(self.chars[i])
            invariant
                from <= i <= self.chars.len(),
                rem == self.chars@.skip(from as int),
                forall|j: int| 0 <= j < i - from ==> k.holds(#[trigger] rem[j]),
            decreases self.chars.len() - i,
        {
            i += 1;
        }
        proof {
            lemma_run(rem, k, i - from);
            assert(self.chars@.skip(i as int) == rem.skip(i - from));
        }
        self.pos = i;
        i - from
    }

    /// Moves the cursor over leading whitespace.
    pub fn ignore_whitespace(&mut self)
        ensures
            final(self).remaining() == after_spaces(old(self).remaining()),
    {
        let _ = self.advance(CharClass::Space);
    }

    /// Moves the cursor over `n` characters. Where fewer are left, the
    /// cursor moves to the end and the result is an error.
    pub fn skip(&mut self, n: usize) -> (r: Result<(), ()>)
        ensures
            r is Ok <==> n <= old(self).remaining().len(),
            final(self).remaining() == if n <= old(self).remaining().len() {
                old(self).remaining().skip(n as int)
            } else {
                Seq::<char>::empty()
            },
    {
        proof {
            use_type_invariant(&*self);
        }
        let left = self.chars.len() - self.pos;
        if n <= left {
            assert(self.chars@.skip(self.pos + n) == self.remaining().skip(n as int));
            self.pos = self.pos + n;
            Ok(())
        } else {
            self.pos = self.chars.len();
            assert(self.remaining() =~= Seq::<char>::empty());
            Err(())
        }
    }

    /// Moves the cursor over leading whitespace and then, if the next
    /// character is `char_to_skip`, over that. The result is an error where
    /// it is another character or the text has ended.
    pub fn step_over(&mut self, char_to_skip: char) -> (r: Result<(), ()>)
        ensures
            ({
                let rest = after_spaces(old(self).remaining());
                if rest.len() > 0 && rest[0] == char_to_skip {
                    r is Ok && final(self).remaining() == rest.skip(1)
                } else {
                    r is Err && final(self).remaining() == rest
                }
            }),
    {
        self.ignore_whitespace();
        proof {
            use_type_invariant(&*self);
        }
        if self.pos < self.chars.len() && self.chars[self.pos] == char_to_skip {
            assert(self.chars@.skip(self.pos + 1) == self.remaining().skip(1));
            self.pos = self.pos + 1;
            Ok(())
        } else {
            Err(())
        }
    }

    /// Moves the cursor over leading whitespace and the run of digits that
    /// follows, and reads the run as a number up to `max`.
    pub fn parse_int_up_to(&mut self, max: u32) -> (r: Result<u32, IntError>)
        ensures
            ({
                let (digits, rest) = digits_and_rest(after_spaces(old(self).remaining()));
                &&& final(self).remaining() == rest
                &&& match r {
                    Ok(v) => number_of(digits, max as nat) == Ok::<nat, IntError>(v as nat),
                    Err(e) => number_of(digits, max as nat) == Err::<nat, IntError>(e),
                }
            }),
    {
        self.ignore_whitespace();
        let ghost rem = self.remaining();
        let from = self.pos;
        let n = self.advance(CharClass::Digit);
        proof {
            use_type_invariant(&*self);
            lemma_run_props(rem, CharClass::Digit);
        }
        let mut digits: Vec<char> = Vec::new();
        let mut i: usize = from;
        while i < from + n
            invariant
                from <= i <= from + n,
                from + n <= self.chars.len(),
                digits@ == self.chars@.subrange(from as int, i as int),
            decreases from + n - i,
        {
            digits.push(self.chars[i]);
            assert(self.chars@.subrange(from as int, i + 1) == self.chars@.subrange(
                from as int,
                i as int,
            ).push(self.chars[i as int]));
            i += 1;
        }
        assert(digits@ == rem.take(n as int));
        assert(digits@.skip(0) == digits@);
        match read_digits(digits.as_slice(), 0, max as u64) {
            Some(v) => Ok(v as u32),
            None => if n == 0 {
                Err(IntError::Empty)
            } else {
                Err(IntError::Overflow)
            },
        }
    }

    /// Moves the cursor over leading whitespace and the run of digits that
    /// follows, and reads the run as a 32-bit number.
    pub fn parse_int(&mut self) -> (r: Result<u32, IntError>)
        ensures
            ({
                let (digits, rest) = digits_and_rest(after_spaces(old(self).remaining()));
                &&& final(self).remaining() == rest
                &&& match r {
                    Ok(v) => number_of(digits, u32::MAX as nat) == Ok::<nat, IntError>(v as nat),
                    Err(e) => number_of(digits, u32::MAX as nat) == Err::<nat, IntError>(e),
                }
            }),
    {
        self.parse_int_up_to(u32::MAX)
    }

    /// Moves the cursor over leading whitespace and the run of letters that
    /// follows, and returns the run. Where the text goes on with a character
    /// that is no letter, the result is an error; at the end of the text it
    /// is the empty word.
    pub fn parse_word(&mut self) -> (r: Result<String, ()>)
        ensures
            ({
                let start = after_spaces(old(self).remaining());
                let (letters, rest) = letters_and_rest(start);
                &&& final(self).remaining() == rest
                &&& match r {
                    Ok(word) => word@ == letters && (letters.len() > 0 || start.len() == 0),
                    Err(_) => letters.len() == 0 && start.len() > 0,
                }
            }),
    {
        self.ignore_whitespace();
        let ghost rem = self.remaining();
        let from = self.pos;
        let n = self.advance(CharClass::Letter);
        proof {
            use_type_invariant(&*self);
            lemma_run_props(rem, CharClass::Letter);
        }
        if n == 0 && self.pos < self.chars.len() {
            assert(rem.skip(0) == rem);
            return Err(());
        }
        let mut letters: Vec<char> = Vec::new();
        let mut i: usize = from;
        while i < from + n
            invariant
                from <= i <= from + n,
                from + n <= self.chars.len(),
                letters@ == self.chars@.subrange(from as int, i as int),
            decreases from + n - i,
        {
            letters.push(self.chars[i]);
            assert(self.chars@.subrange(from as int, i + 1) == self.chars@.subrange(
                from as int,
                i as int,
            ).push(self.chars[i as int]));
            i += 1;
        }
        assert(letters@ == rem.take(n as int));
        Ok(string_of(letters.as_slice()))
    }
}

} // verus!
