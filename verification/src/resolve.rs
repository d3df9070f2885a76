//! The anchor resolver: where a boundary lands relative to a match, for each
//! anchor kind and scan direction.

use crate::offsets::{
    byte_len, lemma_encode_split, lemma_prefix_bytes_boundary, lemma_prefix_bytes_step,
    prefix_bytes, suffix_bytes,
};
use crate::pattern::{
    lemma_first_hit, lemma_hit_bounds, lemma_last_hit, lemma_lead_run, lemma_tail_run, Needle,
    Pattern,
};
use crate::search::{
    find, first_match, last_match, rfind, strip_prefix, strip_suffix, trim_end, trim_start,
};
use vstd::prelude::*;
use vstd::utf8::*;

verus! {

/// The end of a text from which a scan starts.
#[derive(Clone, Copy, Debug)]
pub enum Direction {
    /// From the start of the text towards its end.
    Forward,
    /// From the end of the text towards its start.
    Backward,
}

/// Where, relative to a match, a boundary is to land.
#[derive(Clone, Copy, Debug, PartialEq, Eq, PartialOrd, Ord)]
pub enum PatternLoc {
    /// Just short of the nearest match.
    FirstExcluded,
    /// Just past the nearest match.
    FirstIncluded,
    /// Past every match that touches the near edge, one after the other.
    BeginningMany,
    /// Past the one match that touches the near edge.
    BeginningOnce,
    /// At the start of the rightmost match.
    LastExcluded,
    /// Past the farthest match.
    EndOfLast,
    /// Where the matches that touch the far edge begin.
    StartOfSuffixMany,
}

/// `at` moved right by `by` characters.
pub open spec fn shift(at: Option<int>, by: int) -> Option<int> {
    match at {
        Some(i) => Some(i + by),
        None => None,
    }
}

/// The character position of `text` at which the boundary lands, if the
/// anchor can be resolved.
pub open spec fn landing(
    text: Seq<char>,
    needle: Needle,
    loc: PatternLoc,
    direction: Direction,
) -> Option<int> {
    match (loc, direction) {
        (PatternLoc::FirstExcluded, Direction::Forward) => needle.first_hit(text),
        (PatternLoc::FirstExcluded, Direction::Backward) => shift(
            needle.last_hit(text),
            needle.width(),
        ),
        (PatternLoc::FirstIncluded, Direction::Forward) => shift(
            needle.first_hit(text),
            needle.width(),
        ),
        (PatternLoc::FirstIncluded, Direction::Backward) => needle.last_hit(text),
        (PatternLoc::BeginningMany, Direction::Forward) => Some(needle.lead_run(text)),
        (PatternLoc::BeginningMany, Direction::Backward) => Some(
            text.len() - needle.tail_run(text),
        ),
        (PatternLoc::BeginningOnce, Direction::Forward) => if needle.leads(text) {
            Some(needle.width())
        } else {
            None
        },
        (PatternLoc::BeginningOnce, Direction::Backward) => if needle.trails(text) {
            Some(text.len() - needle.width())
        } else {
            None
        },
        (PatternLoc::LastExcluded, Direction::Forward) => needle.last_hit(text),
        (PatternLoc::LastExcluded, Direction::Backward) => shift(
            needle.last_hit(text),
            needle.width(),
        ),
        (PatternLoc::EndOfLast, Direction::Forward) => shift(
            needle.last_hit(text),
            needle.width(),
        ),
        (PatternLoc::EndOfLast, Direction::Backward) => needle.first_hit(text),
        (PatternLoc::StartOfSuffixMany, Direction::Forward) => Some(
            text.len() - needle.tail_run(text),
        ),
        (PatternLoc::StartOfSuffixMany, Direction::Backward) => Some(needle.lead_run(text)),
    }
}

/// Number of bytes between the edge of `text` from which a scan in
/// `direction` starts and the character position `at`.
pub open spec fn span_to(text: Seq<char>, at: int, direction: Direction) -> int {
    match direction {
        Direction::Forward => prefix_bytes(text, at),
        Direction::Backward => suffix_bytes(text, at),
    }
}

/// Number of bytes by which a boundary that scans `text` in `direction` is to
/// move, if the anchor can be resolved.
pub open spec fn distance(
    text: Seq<char>,
    needle: Needle,
    loc: PatternLoc,
    direction: Direction,
) -> Option<int> {
    match landing(text, needle, loc, direction) {
        Some(at) => Some(span_to(text, at, direction)),
        None => None,
    }
}

/// A boundary lands at a character position of the text.
pub proof fn lemma_landing_within(
    text: Seq<char>,
    needle: Needle,
    loc: PatternLoc,
    direction: Direction,
)
    ensures
        landing(text, needle, loc, direction) matches Some(at) ==> 0 <= at <= text.len(),
{
    lemma_first_hit(needle, text);
    lemma_last_hit(needle, text);
    lemma_lead_run(needle, text);
    lemma_tail_run(needle, text);
    if let Some(i) = needle.first_hit(text) {
        lemma_hit_bounds(needle, text, i);
    }
    if let Some(i) = needle.last_hit(text) {
        lemma_hit_bounds(needle, text, i);
    }
    if needle.leads(text) {
        lemma_hit_bounds(needle, text, 0);
    }
    if needle.trails(text) {
        lemma_hit_bounds(needle, text, text.len() - needle.width());
    }
}

/// The distance to move stays within the encoded text, and the byte at which
/// the boundary lands begins a character.
pub proof fn lemma_distance_lands(
    text: Seq<char>,
    needle: Needle,
    loc: PatternLoc,
    direction: Direction,
)
    ensures
        distance(text, needle, loc, direction) matches Some(by) ==> 0 <= by <= encode_utf8(
            text,
        ).len() && is_char_boundary(
            encode_utf8(text),
            match direction {
                Direction::Forward => by,
                Direction::Backward => encode_utf8(text).len() - by,
            },
        ),
{
    lemma_landing_within(text, needle, loc, direction);
    if let Some(at) = landing(text, needle, loc, direction) {
        lemma_encode_split(text, at);
        lemma_prefix_bytes_boundary(text, at);
    }
}

/// Resolves an anchor: the number of bytes by which a boundary that scans
/// `haystack` in `direction` has to move to land where `loc` says, relative to
/// the matches of `pattern`; `None` where the anchor cannot be resolved.
pub fn find_directional_offset(
    haystack: &str,
    pattern: Pattern,
    loc: PatternLoc,
    direction: Direction,
) -> (found: Option<usize>)
    ensures
        found matches Some(by) ==> distance(haystack@, pattern@, loc, direction) == Some(
            by as int,
        ),
        found is None ==> distance(haystack@, pattern@, loc, direction) is None,
{
    let total: usize = byte_len(haystack);
    proof {
        lemma_landing_within(haystack@, pattern@, loc, direction);
        lemma_first_hit(pattern@, haystack@);
        lemma_last_hit(pattern@, haystack@);
        if let Some(i) = pattern@.first_hit(haystack@) {
            lemma_hit_bounds(pattern@, haystack@, i);
            lemma_encode_split(haystack@, i);
            lemma_encode_split(haystack@, i + pattern@.width());
            lemma_prefix_bytes_step(haystack@, i, i + pattern@.width());
        }
        if let Some(i) = pattern@.last_hit(haystack@) {
            lemma_hit_bounds(pattern@, haystack@, i);
            lemma_encode_split(haystack@, i);
            lemma_encode_split(haystack@, i + pattern@.width());
            lemma_prefix_bytes_step(haystack@, i, i + pattern@.width());
        }
        if let Some(at) = landing(haystack@, pattern@, loc, direction) {
            lemma_encode_split(haystack@, at);
        }
    }
    match (loc, direction) {
        (PatternLoc::FirstExcluded, Direction::Forward) => find(haystack, &pattern),
        (PatternLoc::FirstExcluded, Direction::Backward) => match last_match(haystack, &pattern) {
            Some((offset, part)) => Some(total - (offset + byte_len(part))),
            None => None,
        },
        (PatternLoc::FirstIncluded, Direction::Forward) => match first_match(haystack, &pattern) {
            Some((offset, part)) => Some(offset + byte_len(part)),
            None => None,
        },
        (PatternLoc::FirstIncluded, Direction::Backward) => match rfind(haystack, &pattern) {
            Some(offset) => Some(total - offset),
            None => None,
        },
        (PatternLoc::BeginningMany, Direction::Forward) => {
            let rest = trim_start(haystack, &pattern);
            Some(total - byte_len(rest))
        },
        (PatternLoc::BeginningMany, Direction::Backward) => {
            let rest = trim_end(haystack, &pattern);
            Some(total - byte_len(rest))
        },
        (PatternLoc::BeginningOnce, Direction::Forward) => match strip_prefix(haystack, &pattern) {
            Some(rest) => Some(total - byte_len(rest)),
            None => None,
        },
        (PatternLoc::BeginningOnce, Direction::Backward) => match strip_suffix(haystack, &pattern) {
            Some(rest) => Some(total - byte_len(rest)),
            None => None,
        },
        (PatternLoc::LastExcluded, Direction::Forward) => rfind(haystack, &pattern),
        (PatternLoc::LastExcluded, Direction::Backward) => match last_match(haystack, &pattern) {
            Some((offset, part)) => Some(total - (offset + byte_len(part))),
            None => None,
        },
        (PatternLoc::EndOfLast, Direction::Forward) => match last_match(haystack, &pattern) {
            Some((offset, part)) => Some(offset + byte_len(part)),
            None => None,
        },
        (PatternLoc::EndOfLast, Direction::Backward) => match find(haystack, &pattern) {
            Some(offset) => Some(total - offset),
            None => None,
        },
        (PatternLoc::StartOfSuffixMany, Direction::Forward) => {
            let rest = trim_end(haystack, &pattern);
            Some(byte_len(rest))
        },
        (PatternLoc::StartOfSuffixMany, Direction::Backward) => {
            let rest = trim_start(haystack, &pattern);
            Some(byte_len(rest))
        },
    }
}

} // verus!
