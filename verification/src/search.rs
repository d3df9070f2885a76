//! The searches themselves, done by `stable_string_patterns_method`.
//!
//! Each of that crate's methods used here hands its work to the method of
//! `str` of the same name without the trailing underscore, so what is stated
//! of a call is what the documentation of `str` promises of that method. A
//! substring is passed as it is; a class of characters, be it a list, a
//! range, white space or a test of the caller's own, is passed as a predicate
//! that asks [`Pattern::accepts`], whose answer depends on the character
//! alone.

use crate::offsets::prefix_bytes;
use crate::pattern::{Needle, Pattern};
use stable_string_patterns_method::StrPatternExt;
use vstd::prelude::*;

verus! {

/// `found` is the byte offset of the character position `hit`, or nothing
/// where there is no such position.
pub open spec fn tells_offset(found: Option<usize>, text: Seq<char>, hit: Option<int>) -> bool {
    match hit {
        Some(i) => found matches Some(offset) && offset == prefix_bytes(text, i),
        None => found is None,
    }
}

/// `found` is the byte offset of the character position `hit` together with
/// the `width` characters that match there, or nothing where there is no such
/// position.
pub open spec fn tells_match(
    found: Option<(usize, &str)>,
    text: Seq<char>,
    hit: Option<int>,
    width: int,
) -> bool {
    match hit {
        Some(i) => found matches Some(pair) && pair.0 == prefix_bytes(text, i) && pair.1@
            == text.subrange(i, i + width),
        None => found is None,
    }
}

/// `found` is `rest` where `stripped` holds, and nothing otherwise.
pub open spec fn tells_rest(found: Option<&str>, stripped: bool, rest: Seq<char>) -> bool {
    if stripped {
        found matches Some(kept) && kept@ == rest
    } else {
        found is None
    }
}

/// `find_` with a substring: the byte offset of the leftmost occurrence.
#[verifier::external_body]
fn find_text(haystack: &str, needle: &str) -> (found: Option<usize>)
    ensures
        tells_offset(found, haystack@, Needle::Text(needle@).first_hit(haystack@)),
{
    haystack.find_(needle)
}

/// `find_` with a predicate: the byte offset of the leftmost character of the
/// class.
#[verifier::external_body]
fn find_class(haystack: &str, class: &Pattern) -> (found: Option<usize>)
    requires
        class@ is Class,
    ensures
        tells_offset(found, haystack@, class@.first_hit(haystack@)),
{
    haystack.find_(|c: char| class.accepts(c))
}

/// `rfind_` with a substring: the byte offset of the rightmost occurrence.
#[verifier::external_body]
fn rfind_text(haystack: &str, needle: &str) -> (found: Option<usize>)
    ensures
        tells_offset(found, haystack@, Needle::Text(needle@).last_hit(haystack@)),
{
    haystack.rfind_(needle)
}

/// `rfind_` with a predicate: the byte offset of the rightmost character of
/// the class.
#[verifier::external_body]
fn rfind_class(haystack: &str, class: &Pattern) -> (found: Option<usize>)
    requires
        class@ is Class,
    ensures
        tells_offset(found, haystack@, class@.last_hit(haystack@)),
{
    haystack.rfind_(|c: char| class.accepts(c))
}

/// The first item of `match_indices_` with a substring: the leftmost
/// occurrence and its byte offset.
#[verifier::external_body]
fn first_match_text<'h>(haystack: &'h str, needle: &str) -> (found: Option<(usize, &'h str)>)
    ensures
        tells_match(
            found,
            haystack@,
            Needle::Text(needle@).first_hit(haystack@),
            Needle::Text(needle@).width(),
        ),
{
    haystack.match_indices_(needle).next()
}

/// The first item of `match_indices_` with a predicate: the leftmost
/// character of the class and its byte offset.
#[verifier::external_body]
fn first_match_class<'h>(haystack: &'h str, class: &Pattern) -> (found: Option<(usize, &'h str)>)
    requires
        class@ is Class,
    ensures
        tells_match(found, haystack@, class@.first_hit(haystack@), class@.width()),
{
    haystack.match_indices_(|c: char| class.accepts(c)).next()
}

/// The first item of `rmatch_indices_` with a substring: the rightmost
/// occurrence and its byte offset.
#[verifier::external_body]
fn last_match_text<'h>(haystack: &'h str, needle: &str) -> (found: Option<(usize, &'h str)>)
    ensures
        tells_match(
            found,
            haystack@,
            Needle::Text(needle@).last_hit(haystack@),
            Needle::Text(needle@).width(),
        ),
{
    haystack.rmatch_indices_(needle).next()
}

/// The first item of `rmatch_indices_` with a predicate: the rightmost
/// character of the class and its byte offset.
#[verifier::external_body]
fn last_match_class<'h>(haystack: &'h str, class: &Pattern) -> (found: Option<(usize, &'h str)>)
    requires
        class@ is Class,
    ensures
        tells_match(found, haystack@, class@.last_hit(haystack@), class@.width()),
{
    haystack.rmatch_indices_(|c: char| class.accepts(c)).next()
}

/// `trim_start_matches_` with a substring: the text without the occurrences
/// that it begins with.
#[verifier::external_body]
fn trim_start_text<'h>(haystack: &'h str, needle: &str) -> (rest: &'h str)
    ensures
        rest@ == haystack@.skip(Needle::Text(needle@).lead_run(haystack@)),
{
    haystack.trim_start_matches_(needle)
}

/// `trim_start_matches_` with a predicate: the text without the characters of
/// the class that it begins with.
#[verifier::external_body]
fn trim_start_class<'h>(haystack: &'h str, class: &Pattern) -> (rest: &'h str)
    requires
        class@ is Class,
    ensures
        rest@ == haystack@.skip(class@.lead_run(haystack@)),
{
    haystack.trim_start_matches_(|c: char| class.accepts(c))
}

/// `trim_end_matches_` with a substring: the text without the occurrences
/// that it ends with.
#[verifier::external_body]
fn trim_end_text<'h>(haystack: &'h str, needle: &str) -> (rest: &'h str)
    ensures
        rest@ == haystack@.take(haystack@.len() - Needle::Text(needle@).tail_run(haystack@)),
{
    haystack.trim_end_matches_(needle)
}

/// `trim_end_matches_` with a predicate: the text without the characters of
/// the class that it ends with.
#[verifier::external_body]
fn trim_end_class<'h>(haystack: &'h str, class: &Pattern) -> (rest: &'h str)
    requires
        class@ is Class,
    ensures
        rest@ == haystack@.take(haystack@.len() - class@.tail_run(haystack@)),
{
    haystack.trim_end_matches_(|c: char| class.accepts(c))
}

/// `strip_prefix_` with a substring: what follows the substring where the
/// text begins with it.
#[verifier::external_body]
fn strip_prefix_text<'h>(haystack: &'h str, needle: &str) -> (found: Option<&'h str>)
    ensures
        tells_rest(
            found,
            Needle::Text(needle@).leads(haystack@),
            haystack@.skip(Needle::Text(needle@).width()),
        ),
{
    haystack.strip_prefix_(needle)
}

/// `strip_prefix_` with a predicate: what follows the first character where
/// it belongs to the class.
#[verifier::external_body]
fn strip_prefix_class<'h>(haystack: &'h str, class: &Pattern) -> (found: Option<&'h str>)
    requires
        class@ is Class,
    ensures
        tells_rest(found, class@.leads(haystack@), haystack@.skip(class@.width())),
{
    haystack.strip_prefix_(|c: char| class.accepts(c))
}

/// `strip_suffix_` with a substring: what precedes the substring where the
/// text ends with it.
#[verifier::external_body]
fn strip_suffix_text<'h>(haystack: &'h str, needle: &str) -> (found: Option<&'h str>)
    ensures
        tells_rest(
            found,
            Needle::Text(needle@).trails(haystack@),
            haystack@.take(haystack@.len() - Needle::Text(needle@).width()),
        ),
{
    haystack.strip_suffix_(needle)
}

/// `strip_suffix_` with a predicate: what precedes the last character where
/// it belongs to the class.
#[verifier::external_body]
fn strip_suffix_class<'h>(haystack: &'h str, class: &Pattern) -> (found: Option<&'h str>)
    requires
        class@ is Class,
    ensures
        tells_rest(
            found,
            class@.trails(haystack@),
            haystack@.take(haystack@.len() - class@.width()),
        ),
{
    haystack.strip_suffix_(|c: char| class.accepts(c))
}

/// Byte offset of the leftmost match.
pub fn find(haystack: &str, pattern: &Pattern) -> (found: Option<usize>)
    ensures
        tells_offset(found, haystack@, pattern@.first_hit(haystack@)),
{
    match pattern {
        Pattern::Str(needle) => find_text(haystack, needle),
        _ => find_class(haystack, pattern),
    }
}

/// Byte offset of the rightmost match.
pub fn rfind(haystack: &str, pattern: &Pattern) -> (found: Option<usize>)
    ensures
        tells_offset(found, haystack@, pattern@.last_hit(haystack@)),
{
    match pattern {
        Pattern::Str(needle) => rfind_text(haystack, needle),
        _ => rfind_class(haystack, pattern),
    }
}

/// The leftmost match and its byte offset.
pub fn first_match<'h>(haystack: &'h str, pattern: &Pattern) -> (found: Option<(usize, &'h str)>)
    ensures
        tells_match(found, haystack@, pattern@.first_hit(haystack@), pattern@.width()),
{
    match pattern {
        Pattern::Str(needle) => first_match_text(haystack, needle),
        _ => first_match_class(haystack, pattern),
    }
}

/// The rightmost match and its byte offset.
pub fn last_match<'h>(haystack: &'h str, pattern: &Pattern) -> (found: Option<(usize, &'h str)>)
    ensures
        tells_match(found, haystack@, pattern@.last_hit(haystack@), pattern@.width()),
{
    match pattern {
        Pattern::Str(needle) => last_match_text(haystack, needle),
        _ => last_match_class(haystack, pattern),
    }
}

/// The text without the matches that it begins with.
pub fn trim_start<'h>(haystack: &'h str, pattern: &Pattern) -> (rest: &'h str)
    ensures
        rest@ == haystack@.skip(pattern@.lead_run(haystack@)),
{
    match pattern {
        Pattern::Str(needle) => trim_start_text(haystack, needle),
        _ => trim_start_class(haystack, pattern),
    }
}

/// The text without the matches that it ends with.
pub fn trim_end<'h>(haystack: &'h str, pattern: &Pattern) -> (rest: &'h str)
    ensures
        rest@ == haystack@.take(haystack@.len() - pattern@.tail_run(haystack@)),
{
    match pattern {
        Pattern::Str(needle) => trim_end_text(haystack, needle),
        _ => trim_end_class(haystack, pattern),
    }
}

/// What follows one match at the beginning of the text, if it begins with one.
pub fn strip_prefix<'h>(haystack: &'h str, pattern: &Pattern) -> (found: Option<&'h str>)
    ensures
        tells_rest(found, pattern@.leads(haystack@), haystack@.skip(pattern@.width())),
{
    match pattern {
        Pattern::Str(needle) => strip_prefix_text(haystack, needle),
        _ => strip_prefix_class(haystack, pattern),
    }
}

/// What precedes one match at the end of the text, if it ends with one.
pub fn strip_suffix<'h>(haystack: &'h str, pattern: &Pattern) -> (found: Option<&'h str>)
    ensures
        tells_rest(
            found,
            pattern@.trails(haystack@),
            haystack@.take(haystack@.len() - pattern@.width()),
        ),
{
    match pattern {
        Pattern::Str(needle) => strip_suffix_text(haystack, needle),
        _ => strip_suffix_class(haystack, pattern),
    }
}

} // verus!
