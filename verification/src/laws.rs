//! What holds of the cursor and of the resolver beyond the contract of any
//! one call: how the views change when a boundary moves, that trimming
//! settles, and that the two scan directions mirror each other.

use crate::cursor::{InwardStrategy, ParseCursor};
use crate::offsets::{
    lemma_decode_join, lemma_position, lemma_reverse_bytes, prefix_bytes, suffix_bytes,
};
use crate::pattern::{
    lemma_first_hit, lemma_hit_bounds, lemma_last_hit_is, lemma_lead_run, lemma_tail_run, Needle,
};
use crate::resolve::{distance, landing, Direction, PatternLoc};
use vstd::prelude::*;
use vstd::utf8::*;

verus! {

/// Where the end of the span has moved forward to the character position `k`
/// of the text behind it, the span has grown by the `k` characters passed and
/// the text behind it has lost them.
pub proof fn lemma_front_forward_views(from: ParseCursor, to: ParseCursor, k: int)
    requires
        from.wf(),
        0 <= k <= from.after().len(),
        to.placed(from, from.lo(), from.hi() + prefix_bytes(from.after(), k)),
    ensures
        to.wf(),
        to.before() == from.before(),
        to.span() == from.span() + from.after().take(k),
        to.after() == from.after().skip(k),
{
    let bytes = from.bytes();
    let total = bytes.len() as int;
    encode_utf8_valid_utf8(from.text());
    is_char_boundary_start_end_of_seq(bytes);
    lemma_position(bytes, from.hi(), total, k);
    lemma_decode_join(bytes, from.lo(), from.hi(), to.hi());
}

/// Where the start of the span has moved backward to the character position
/// `k` of the text in front of it, the span has grown by the characters from
/// `k` on and the text in front of it has lost them.
pub proof fn lemma_back_backward_views(from: ParseCursor, to: ParseCursor, k: int)
    requires
        from.wf(),
        0 <= k <= from.before().len(),
        to.placed(from, from.lo() - suffix_bytes(from.before(), k), from.hi()),
    ensures
        to.wf(),
        to.before() == from.before().take(k),
        to.span() == from.before().skip(k) + from.span(),
        to.after() == from.after(),
{
    let bytes = from.bytes();
    encode_utf8_valid_utf8(from.text());
    is_char_boundary_start_end_of_seq(bytes);
    lemma_position(bytes, 0, from.lo(), k);
    lemma_decode_join(bytes, to.lo(), from.lo(), from.hi());
}

/// Where the start of the span has moved forward to the character position
/// `k` of the text that it searched, that text has lost the `k` characters
/// passed and the text in front of the span has gained them. Where that
/// position lies behind the old span, the span is empty.
pub proof fn lemma_back_forward_views(
    from: ParseCursor,
    to: ParseCursor,
    strategy: InwardStrategy,
    k: int,
)
    requires
        from.wf(),
        0 <= k <= from.back_forward_scope(strategy).len(),
        to.placed(
            from,
            from.lo() + prefix_bytes(from.back_forward_scope(strategy), k),
            if from.hi() < from.lo() + prefix_bytes(from.back_forward_scope(strategy), k) {
                from.lo() + prefix_bytes(from.back_forward_scope(strategy), k)
            } else {
                from.hi()
            },
        ),
    ensures
        to.wf(),
        to.before() == from.before() + from.back_forward_scope(strategy).take(k),
        to.back_forward_scope(strategy) == from.back_forward_scope(strategy).skip(k),
        to.onward() == from.onward().skip(from.onward().len() - to.onward().len()),
        from.hi() < to.lo() ==> to.span() == Seq::<char>::empty(),
        from.hi() >= to.lo() ==> to.after() == from.after(),
{
    let bytes = from.bytes();
    let total = bytes.len() as int;
    encode_utf8_valid_utf8(from.text());
    is_char_boundary_start_end_of_seq(bytes);
    match strategy {
        InwardStrategy::CursorOnly => {
            lemma_position(bytes, from.lo(), from.hi(), k);
        },
        InwardStrategy::WholeData => {
            lemma_position(bytes, from.lo(), total, k);
        },
    }
    lemma_decode_join(bytes, 0, from.lo(), to.lo());
    lemma_decode_join(bytes, from.lo(), to.lo(), total);
    let gone = decode_utf8(bytes.subrange(from.lo(), to.lo()));
    assert(from.onward() == gone + to.onward());
    assert(from.onward().skip(gone.len() as int) =~= to.onward());
    if from.hi() < to.lo() {
        assert(bytes.subrange(to.lo(), to.hi()) =~= Seq::<u8>::empty());
    }
}

/// Where the end of the span has moved backward to the character position
/// `k` of the text that it searched, that text has lost the characters from
/// `k` on and the text behind the span has gained them. Where that position
/// lies in front of the old span, the span is empty.
pub proof fn lemma_front_backward_views(
    from: ParseCursor,
    to: ParseCursor,
    strategy: InwardStrategy,
    k: int,
)
    requires
        from.wf(),
        0 <= k <= from.front_backward_scope(strategy).len(),
        to.placed(
            from,
            if from.hi() - suffix_bytes(from.front_backward_scope(strategy), k) < from.lo() {
                from.hi() - suffix_bytes(from.front_backward_scope(strategy), k)
            } else {
                from.lo()
            },
            from.hi() - suffix_bytes(from.front_backward_scope(strategy), k),
        ),
    ensures
        to.wf(),
        to.after() == from.front_backward_scope(strategy).skip(k) + from.after(),
        to.front_backward_scope(strategy) == from.front_backward_scope(strategy).take(k),
        to.upto() == from.upto().take(to.upto().len() as int),
        to.hi() < from.lo() ==> to.span() == Seq::<char>::empty(),
        to.hi() >= from.lo() ==> to.before() == from.before(),
{
    let bytes = from.bytes();
    let total = bytes.len() as int;
    encode_utf8_valid_utf8(from.text());
    is_char_boundary_start_end_of_seq(bytes);
    match strategy {
        InwardStrategy::CursorOnly => {
            lemma_position(bytes, from.lo(), from.hi(), k);
        },
        InwardStrategy::WholeData => {
            lemma_position(bytes, 0, from.hi(), k);
        },
    }
    lemma_decode_join(bytes, to.hi(), from.hi(), total);
    lemma_decode_join(bytes, 0, to.hi(), from.hi());
    let kept = to.upto();
    let gone = decode_utf8(bytes.subrange(to.hi(), from.hi()));
    assert(from.upto() == kept + gone);
    assert(from.upto().take(kept.len() as int) =~= kept);
    if to.hi() < from.lo() {
        assert(bytes.subrange(to.lo(), to.hi()) =~= Seq::<u8>::empty());
    }
}

/// Trimming settles: in the text that is left when all the matches at its
/// near edge have been passed, the same anchor is resolved again and lies at
/// the edge itself, so that a second trim moves by nothing.
pub proof fn lemma_trim_settles(text: Seq<char>, needle: Needle)
    ensures
        landing(text, needle, PatternLoc::BeginningMany, Direction::Forward) matches Some(at)
            && distance(text.skip(at), needle, PatternLoc::BeginningMany, Direction::Forward)
            == Some(0int),
        landing(text, needle, PatternLoc::BeginningMany, Direction::Backward) matches Some(at)
            && distance(text.take(at), needle, PatternLoc::BeginningMany, Direction::Backward)
            == Some(0int),
{
    lemma_lead_run(needle, text);
    lemma_tail_run(needle, text);
    let front = text.skip(needle.lead_run(text));
    assert(front.take(0) =~= Seq::<char>::empty());
    let back = text.take(text.len() - needle.tail_run(text));
    assert(back.skip(back.len() as int) =~= Seq::<char>::empty());
}

/// Trimming the text behind the span twice in a row: once the end of the
/// span has moved past all the matches that the text behind it began with,
/// the same movement moves it by nothing.
pub proof fn lemma_front_forward_trims_once(first: ParseCursor, second: ParseCursor, needle: Needle)
    requires
        first.wf(),
        distance(first.after(), needle, PatternLoc::BeginningMany, Direction::Forward)
            matches Some(by) && second.placed(first, first.lo(), first.hi() + by),
    ensures
        second.wf(),
        distance(second.after(), needle, PatternLoc::BeginningMany, Direction::Forward) == Some(
            0int,
        ),
{
    let at = needle.lead_run(first.after());
    lemma_lead_run(needle, first.after());
    lemma_front_forward_views(first, second, at);
    lemma_trim_settles(first.after(), needle);
}

/// Trimming the text in front of the span twice in a row: once the start of
/// the span has moved back past all the matches that the text in front of it
/// ended with, the same movement moves it by nothing.
pub proof fn lemma_back_backward_trims_once(first: ParseCursor, second: ParseCursor, needle: Needle)
    requires
        first.wf(),
        distance(first.before(), needle, PatternLoc::BeginningMany, Direction::Backward)
            matches Some(by) && second.placed(first, first.lo() - by, first.hi()),
    ensures
        second.wf(),
        distance(second.before(), needle, PatternLoc::BeginningMany, Direction::Backward) == Some(
            0int,
        ),
{
    let at = first.before().len() - needle.tail_run(first.before());
    lemma_tail_run(needle, first.before());
    lemma_back_backward_views(first, second, at);
    lemma_trim_settles(first.before(), needle);
}

/// Trimming the front of the searched text twice in a row: once the start of
/// the span has moved past all the matches that the text it searched began
/// with, the same movement moves it by nothing.
pub proof fn lemma_back_forward_trims_once(
    first: ParseCursor,
    second: ParseCursor,
    needle: Needle,
    strategy: InwardStrategy,
)
    requires
        first.wf(),
        distance(
            first.back_forward_scope(strategy),
            needle,
            PatternLoc::BeginningMany,
            Direction::Forward,
        ) matches Some(by) && second.placed(
            first,
            first.lo() + by,
            if first.hi() < first.lo() + by {
                first.lo() + by
            } else {
                first.hi()
            },
        ),
    ensures
        second.wf(),
        distance(
            second.back_forward_scope(strategy),
            needle,
            PatternLoc::BeginningMany,
            Direction::Forward,
        ) == Some(0int),
{
    let scope = first.back_forward_scope(strategy);
    let at = needle.lead_run(scope);
    lemma_lead_run(needle, scope);
    lemma_back_forward_views(first, second, strategy, at);
    lemma_trim_settles(scope, needle);
}

/// Trimming the back of the searched text twice in a row: once the end of the
/// span has moved back past all the matches that the text it searched ended
/// with, the same movement moves it by nothing.
pub proof fn lemma_front_backward_trims_once(
    first: ParseCursor,
    second: ParseCursor,
    needle: Needle,
    strategy: InwardStrategy,
)
    requires
        first.wf(),
        distance(
            first.front_backward_scope(strategy),
            needle,
            PatternLoc::BeginningMany,
            Direction::Backward,
        ) matches Some(by) && second.placed(
            first,
            if first.hi() - by < first.lo() {
                first.hi() - by
            } else {
                first.lo()
            },
            first.hi() - by,
        ),
    ensures
        second.wf(),
        distance(
            second.front_backward_scope(strategy),
            needle,
            PatternLoc::BeginningMany,
            Direction::Backward,
        ) == Some(0int),
{
    let scope = first.front_backward_scope(strategy);
    let at = scope.len() - needle.tail_run(scope);
    lemma_tail_run(needle, scope);
    lemma_front_backward_views(first, second, strategy, at);
    lemma_trim_settles(scope, needle);
}

/// A match of a pattern in a text is a match of the mirrored pattern in the
/// text read backwards, as far from the end as it was from the start.
pub proof fn lemma_hits_mirror(needle: Needle, text: Seq<char>, i: int)
    requires
        needle.hits(text, i),
    ensures
        needle.mirrored().hits(text.reverse(), text.len() - i - needle.width()),
        needle.mirrored().width() == needle.width(),
{
    let back = text.reverse();
    let j = text.len() - i - needle.width();
    match needle {
        Needle::Text(run) => {
            assert(back.subrange(j, j + run.len()) =~= run.reverse()) by {
                assert forall|n: int| 0 <= n < run.len() implies back.subrange(j, j + run.len())[n]
                    == run.reverse()[n] by {
                    assert(text.subrange(i, i + run.len())[run.len() - 1 - n] == run[run.len() - 1
                        - n]);
                }
            }
        },
        Needle::Class(set) => {},
    }
}

/// Mirroring a pattern twice, or reading a text backwards twice, changes
/// nothing.
pub proof fn lemma_mirror_back(needle: Needle, text: Seq<char>)
    ensures
        needle.mirrored().mirrored() == needle,
        text.reverse().reverse() == text,
{
    assert(text.reverse().reverse() =~= text);
    match needle {
        Needle::Text(run) => {
            assert(run.reverse().reverse() =~= run);
        },
        Needle::Class(set) => {},
    }
}

/// The two scan directions mirror each other: the distance to just short of
/// the nearest match, scanning a text forward, is the distance to just short
/// of the nearest match of the mirrored pattern, scanning the text read
/// backwards backward. It holds whether the pattern occurs once, more than
/// once or not at all, in which case neither anchor can be resolved.
pub proof fn lemma_directions_mirror(text: Seq<char>, needle: Needle)
    ensures
        distance(text, needle, PatternLoc::FirstExcluded, Direction::Forward) == distance(
            text.reverse(),
            needle.mirrored(),
            PatternLoc::FirstExcluded,
            Direction::Backward,
        ),
{
    let back = text.reverse();
    let other = needle.mirrored();
    let total = text.len() as int;
    lemma_first_hit(needle, text);
    lemma_mirror_back(needle, text);
    match needle.first_hit(text) {
        Some(i) => {
            let j = total - i - needle.width();
            lemma_hit_bounds(needle, text, i);
            lemma_hits_mirror(needle, text, i);
            assert(other.is_last_hit(back, j)) by {
                assert forall|n: int| j < n implies !other.hits(back, n) by {
                    if other.hits(back, n) {
                        lemma_hit_bounds(other, back, n);
                        lemma_hits_mirror(other, back, n);
                        assert(needle.hits(text, total - n - needle.width()));
                    }
                }
            }
            lemma_last_hit_is(other, back, j);
            assert(back.skip(total - i) =~= text.take(i).reverse());
            lemma_reverse_bytes(text.take(i));
        },
        None => {
            assert forall|n: int| !other.hits(back, n) by {
                if other.hits(back, n) {
                    lemma_hit_bounds(other, back, n);
                    lemma_hits_mirror(other, back, n);
                }
            }
        },
    }
}

} // verus!
