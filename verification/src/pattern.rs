//! What a cursor can be asked to look for, and what it means for a text to
//! contain it.

use vstd::prelude::*;

verus! {

/// Whether `c` is a white-space character, as `char::is_whitespace` reports it.
pub uninterp spec fn is_whitespace(c: char) -> bool;

/// `char::is_whitespace` depends on the character alone; its answer is given
/// the name [`is_whitespace`] and nothing more is claimed of it.
pub assume_specification[ char::is_whitespace ](c: char) -> (b: bool)
    ensures
        b == is_whitespace(c),
;

/// A pattern as a mathematical value: either an exact run of characters or a
/// set of characters of which any one matches.
pub enum Needle {
    Text(Seq<char>),
    Class(Set<char>),
}

impl Needle {
    /// Number of characters that one match covers.
    pub open spec fn width(self) -> int {
        match self {
            Needle::Text(run) => run.len() as int,
            Needle::Class(_) => 1,
        }
    }

    /// Whether a match begins at character position `i` of `text`.
    pub open spec fn hits(self, text: Seq<char>, i: int) -> bool {
        match self {
            Needle::Text(run) => 0 <= i && i + run.len() <= text.len() && text.subrange(
                i,
                i + run.len(),
            ) =~= run,
            Needle::Class(set) => 0 <= i < text.len() && set.contains(text[i]),
        }
    }

    /// Whether `i` is the leftmost position at which a match begins.
    pub open spec fn is_first_hit(self, text: Seq<char>, i: int) -> bool {
        self.hits(text, i) && forall|j: int| j < i ==> !self.hits(text, j)
    }

    /// Whether `i` is the rightmost position at which a match begins.
    pub open spec fn is_last_hit(self, text: Seq<char>, i: int) -> bool {
        self.hits(text, i) && forall|j: int| i < j ==> !self.hits(text, j)
    }

    /// The leftmost position at which a match begins, if there is a match.
    pub open spec fn first_hit(self, text: Seq<char>) -> Option<int> {
        if exists|i: int| self.is_first_hit(text, i) {
            Some(choose|i: int| self.is_first_hit(text, i))
        } else {
            None
        }
    }

    /// The rightmost position at which a match begins, if there is a match.
    pub open spec fn last_hit(self, text: Seq<char>) -> Option<int> {
        if exists|i: int| self.is_last_hit(text, i) {
            Some(choose|i: int| self.is_last_hit(text, i))
        } else {
            None
        }
    }

    /// Whether `text` begins with a match.
    pub open spec fn leads(self, text: Seq<char>) -> bool {
        self.hits(text, 0)
    }

    /// Whether `text` ends with a match.
    pub open spec fn trails(self, text: Seq<char>) -> bool {
        self.hits(text, text.len() - self.width())
    }

    /// Number of characters covered by the matches that can be removed from
    /// the front of `text`, one after the other, until it no longer begins
    /// with one. A pattern of no width removes nothing.
    pub open spec fn lead_run(self, text: Seq<char>) -> int
        decreases text.len(),
    {
        if self.width() > 0 && self.leads(text) {
            self.width() + self.lead_run(text.skip(self.width()))
        } else {
            0
        }
    }

    /// Number of characters covered by the matches that can be removed from
    /// the back of `text`, one after the other, until it no longer ends with
    /// one. A pattern of no width removes nothing.
    pub open spec fn tail_run(self, text: Seq<char>) -> int
        decreases text.len(),
    {
        if self.width() > 0 && self.trails(text) {
            self.width() + self.tail_run(text.take(text.len() - self.width()))
        } else {
            0
        }
    }

    /// The pattern that matches, read from right to left, what this one
    /// matches read from left to right.
    pub open spec fn mirrored(self) -> Needle {
        match self {
            Needle::Text(run) => Needle::Text(run.reverse()),
            Needle::Class(set) => Needle::Class(set),
        }
    }
}

/// A test on single characters, for use as a pattern that matches any one
/// character that passes it.
pub trait CharPredicate {
    /// The characters that pass the test.
    spec fn members(&self) -> Set<char>;

    /// Whether `c` passes the test.
    fn accepts(&self, c: char) -> (b: bool)
        ensures
            b == self.members().contains(c),
    ;
}

/// A closure as a test on characters.
///
/// The closure has to answer for every character, and its own contract must
/// not admit both answers for any character. The characters that pass are
/// then those for which the contract admits the answer `true`.
pub struct Predicate<F: Fn(char) -> bool> {
    test: F,
}

impl<F: Fn(char) -> bool> Predicate<F> {
    /// The closure.
    pub closed spec fn test(&self) -> F {
        self.test
    }

    /// `test` answers for every character, and for none of them does its
    /// contract admit both answers.
    pub open spec fn decided(test: F) -> bool {
        &&& forall|c: char| call_requires(test, (c,))
        &&& forall|c: char| !(call_ensures(test, (c,), true) && call_ensures(test, (c,), false))
    }

    #[verifier::type_invariant]
    spec fn holds(&self) -> bool {
        Self::decided(self.test)
    }

    /// Makes a test on characters of a closure.
    pub fn new(test: F) -> (made: Self)
        requires
            Self::decided(test),
        ensures
            made.test() == test,
    {
        Predicate { test }
    }

    /// A character passes exactly where the contract of the closure admits
    /// the answer `true` for it.
    pub proof fn lemma_members(&self, c: char)
        ensures
            self.members().contains(c) == call_ensures(self.test(), (c,), true),
    {
    }
}

impl<F: Fn(char) -> bool> CharPredicate for Predicate<F> {
    open spec fn members(&self) -> Set<char> {
        Set::new(|c: char| call_ensures(self.test(), (c,), true))
    }

    fn accepts(&self, c: char) -> (b: bool) {
        proof {
            use_type_invariant(self);
        }
        (self.test)(c)
    }
}

/// A search pattern: a single character, an exact substring, or a class of
/// characters of which any one matches.
#[derive(Clone, Copy)]
pub enum Pattern<'a> {
    /// This character.
    Char(char),
    /// This exact run of characters.
    Str(&'a str),
    /// Any of the listed characters.
    AnyOf(&'a [char]),
    /// Any character from the first to the second, both included.
    Range(char, char),
    /// Any white-space character.
    Whitespace,
    /// Any character that passes the test.
    Pred(&'a dyn CharPredicate),
}

impl<'a> View for Pattern<'a> {
    type V = Needle;

    open spec fn view(&self) -> Needle {
        match *self {
            Pattern::Char(c) => Needle::Class(Set::new(|x: char| x == c)),
            Pattern::Str(run) => Needle::Text(run@),
            Pattern::AnyOf(list) => Needle::Class(Set::new(|x: char| list@.contains(x))),
            Pattern::Range(lo, hi) => Needle::Class(Set::new(|x: char| lo <= x && x <= hi)),
            Pattern::Whitespace => Needle::Class(Set::new(|x: char| is_whitespace(x))),
            Pattern::Pred(test) => Needle::Class(test.members()),
        }
    }
}

/// Whether `c` occurs in `list`.
fn listed(list: &[char], c: char) -> (b: bool)
    ensures
        b == list@.contains(c),
{
    let mut i: usize = 0;
    while i < list.len()
        invariant
            i <= list@.len(),
            forall|j: int| 0 <= j < i ==> list@[j] != c,
        decreases list@.len() - i,
    {
        if list[i] == c {
            assert(list@[i as int] == c);
            return true;
        }
        i += 1;
    }
    false
}

impl<'a> Pattern<'a> {
    /// Whether the pattern is a class of characters to which `c` belongs.
    /// A substring pattern is no class and accepts no character.
    pub fn accepts(&self, c: char) -> (b: bool)
        ensures
            b == (self@ matches Needle::Class(set) && set.contains(c)),
    {
        match *self {
            Pattern::Char(one) => one == c,
            Pattern::Str(_) => false,
            Pattern::AnyOf(list) => listed(list, c),
            Pattern::Range(lo, hi) => lo <= c && c <= hi,
            Pattern::Whitespace => c.is_whitespace(),
            Pattern::Pred(test) => test.accepts(c),
        }
    }
}

/// A text with a match has a leftmost one, and `first_hit` names it.
pub proof fn lemma_first_hit(needle: Needle, text: Seq<char>)
    ensures
        needle.first_hit(text) matches Some(i) ==> needle.is_first_hit(text, i),
        needle.first_hit(text) is None ==> forall|j: int| !needle.hits(text, j),
{
    if needle.first_hit(text) is None {
        assert forall|j: int| !needle.hits(text, j) by {
            if needle.hits(text, j) {
                lemma_least_hit(needle, text, j);
            }
        }
    }
}

/// A text with a match has a rightmost one, and `last_hit` names it.
pub proof fn lemma_last_hit(needle: Needle, text: Seq<char>)
    ensures
        needle.last_hit(text) matches Some(i) ==> needle.is_last_hit(text, i),
        needle.last_hit(text) is None ==> forall|j: int| !needle.hits(text, j),
{
    if needle.last_hit(text) is None {
        assert forall|j: int| !needle.hits(text, j) by {
            if needle.hits(text, j) {
                lemma_greatest_hit(needle, text, j);
            }
        }
    }
}

/// The rightmost match is unique.
pub proof fn lemma_last_hit_is(needle: Needle, text: Seq<char>, i: int)
    requires
        needle.is_last_hit(text, i),
    ensures
        needle.last_hit(text) == Some(i),
{
    let k = choose|k: int| needle.is_last_hit(text, k);
    assert(needle.is_last_hit(text, k));
    assert(!(k < i));
    assert(!(i < k));
}

/// Every match lies within the text.
pub proof fn lemma_hit_bounds(needle: Needle, text: Seq<char>, i: int)
    requires
        needle.hits(text, i),
    ensures
        0 <= i,
        0 <= needle.width(),
        i + needle.width() <= text.len(),
{
}

proof fn lemma_least_hit(needle: Needle, text: Seq<char>, at: int)
    requires
        needle.hits(text, at),
    ensures
        exists|i: int| needle.is_first_hit(text, i),
    decreases at,
{
    if exists|j: int| j < at && needle.hits(text, j) {
        let j = choose|j: int| j < at && needle.hits(text, j);
        lemma_hit_bounds(needle, text, j);
        lemma_least_hit(needle, text, j);
    } else {
        assert(needle.is_first_hit(text, at));
    }
}

proof fn lemma_greatest_hit(needle: Needle, text: Seq<char>, at: int)
    requires
        needle.hits(text, at),
    ensures
        exists|i: int| needle.is_last_hit(text, i),
    decreases text.len() - at,
{
    if exists|j: int| at < j && needle.hits(text, j) {
        let j = choose|j: int| at < j && needle.hits(text, j);
        lemma_hit_bounds(needle, text, j);
        lemma_greatest_hit(needle, text, j);
    } else {
        assert(needle.is_last_hit(text, at));
    }
}

/// The leading run ends at a character position of the text, and what
/// follows it does not begin with a match that could be removed.
pub proof fn lemma_lead_run(needle: Needle, text: Seq<char>)
    ensures
        0 <= needle.lead_run(text) <= text.len(),
        needle.lead_run(text.skip(needle.lead_run(text))) == 0,
    decreases text.len(),
{
    if needle.width() > 0 && needle.leads(text) {
        let rest = text.skip(needle.width());
        lemma_lead_run(needle, rest);
        assert(text.skip(needle.lead_run(text)) =~= rest.skip(needle.lead_run(rest)));
    } else {
        assert(text.skip(0) =~= text);
    }
}

/// The trailing run begins at a character position of the text, and what
/// precedes it does not end with a match that could be removed.
pub proof fn lemma_tail_run(needle: Needle, text: Seq<char>)
    ensures
        0 <= needle.tail_run(text) <= text.len(),
        needle.tail_run(text.take(text.len() - needle.tail_run(text))) == 0,
    decreases text.len(),
{
    if needle.width() > 0 && needle.trails(text) {
        let rest = text.take(text.len() - needle.width());
        lemma_tail_run(needle, rest);
        assert(text.take(text.len() - needle.tail_run(text)) =~= rest.take(
            rest.len() - needle.tail_run(rest),
        ));
    } else {
        assert(text.take(text.len() as int) =~= text);
    }
}

} // verus!
