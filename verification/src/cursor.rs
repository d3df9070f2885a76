//! The cursor: an immutable text and a span of it, bounded by two byte
//! offsets that always lie on character boundaries.

use crate::offsets::{
    byte_len, lemma_boundary_after, lemma_boundary_before, lemma_boundary_inside,
    lemma_boundary_within,
};
use crate::pattern::Pattern;
use crate::resolve::{
    distance, find_directional_offset, lemma_distance_lands, Direction, PatternLoc,
};
use vstd::prelude::*;
use vstd::string::StringSliceAdditionalSpecFns;
use vstd::utf8::*;

verus! {

/// The one failure of a movement: the anchor could not be resolved in the
/// text that was searched.
#[derive(Debug)]
pub struct Failed;

/// How far a boundary that moves towards the other one may search.
#[derive(Clone, Copy, Debug, PartialEq, Eq, PartialOrd, Ord)]
pub enum InwardStrategy {
    /// Within the span only.
    CursorOnly,
    /// Within the span and the text beyond the other boundary; where the
    /// boundary moves past the other one, it takes the other one along.
    WholeData,
}

/// What a movement does where the anchor cannot be resolved.
pub enum FallBack {
    /// Move to the end of the text that was searched.
    ToTheEnd,
    /// Stay.
    StayAtBeginning,
}

/// A text and a span of it.
#[derive(Debug)]
pub struct ParseCursor<'a> {
    data: &'a str,
    start: usize,
    end: usize,
}

impl<'a> Clone for ParseCursor<'a> {
    fn clone(&self) -> (copy: Self)
        ensures
            copy == *self,
    {
        proof {
            use_type_invariant(self);
        }
        ParseCursor { data: self.data, start: self.start, end: self.end }
    }
}

impl<'a> ParseCursor<'a> {
    /// The whole text.
    pub closed spec fn text(&self) -> Seq<char> {
        self.data@
    }

    /// Byte offset at which the span starts.
    pub closed spec fn lo(&self) -> int {
        self.start as int
    }

    /// Byte offset at which the span ends.
    pub closed spec fn hi(&self) -> int {
        self.end as int
    }

    /// The whole text, encoded.
    pub open spec fn bytes(&self) -> Seq<u8> {
        encode_utf8(self.text())
    }

    /// The two offsets are in order, within the text, and on character
    /// boundaries; the encoded text is no longer than a `usize` can count.
    pub open spec fn wf(&self) -> bool {
        &&& 0 <= self.lo() <= self.hi() <= self.bytes().len() <= usize::MAX
        &&& is_char_boundary(self.bytes(), self.lo())
        &&& is_char_boundary(self.bytes(), self.hi())
    }

    #[verifier::type_invariant]
    spec fn holds(&self) -> bool {
        self.wf()
    }

    /// The text in front of the span.
    pub open spec fn before(&self) -> Seq<char> {
        decode_utf8(self.bytes().subrange(0, self.lo()))
    }

    /// The text of the span.
    pub open spec fn span(&self) -> Seq<char> {
        decode_utf8(self.bytes().subrange(self.lo(), self.hi()))
    }

    /// The text behind the span.
    pub open spec fn after(&self) -> Seq<char> {
        decode_utf8(self.bytes().subrange(self.hi(), self.bytes().len() as int))
    }

    /// The text up to the end of the span.
    pub open spec fn upto(&self) -> Seq<char> {
        decode_utf8(self.bytes().subrange(0, self.hi()))
    }

    /// The text from the start of the span on.
    pub open spec fn onward(&self) -> Seq<char> {
        decode_utf8(self.bytes().subrange(self.lo(), self.bytes().len() as int))
    }

    /// The text that a boundary moving towards the other one searches when
    /// the end of the span moves backward.
    pub open spec fn front_backward_scope(&self, strategy: InwardStrategy) -> Seq<char> {
        match strategy {
            InwardStrategy::CursorOnly => self.span(),
            InwardStrategy::WholeData => self.upto(),
        }
    }

    /// The text that a boundary moving towards the other one searches when
    /// the start of the span moves forward.
    pub open spec fn back_forward_scope(&self, strategy: InwardStrategy) -> Seq<char> {
        match strategy {
            InwardStrategy::CursorOnly => self.span(),
            InwardStrategy::WholeData => self.onward(),
        }
    }

    /// This cursor holds the text of `from`, and its span runs from byte `lo`
    /// to byte `hi`.
    pub open spec fn placed(&self, from: Self, lo: int, hi: int) -> bool {
        &&& self.text() == from.text()
        &&& self.lo() == lo
        &&& self.hi() == hi
    }

    /// A cursor with an empty span at the start of `data`.
    pub fn new_empty_start(data: &'a str) -> (cursor: Self)
        ensures
            cursor.text() == data@,
            cursor.lo() == 0,
            cursor.hi() == 0,
    {
        proof {
            encode_utf8_valid_utf8(data@);
            is_char_boundary_start_end_of_seq(encode_utf8(data@));
        }
        let _total: usize = byte_len(data);
        ParseCursor { data, start: 0, end: 0 }
    }

    /// A cursor with an empty span at the end of `data`.
    pub fn new_empty_end(data: &'a str) -> (cursor: Self)
        ensures
            cursor.text() == data@,
            cursor.lo() == cursor.bytes().len(),
            cursor.hi() == cursor.bytes().len(),
    {
        proof {
            encode_utf8_valid_utf8(data@);
            is_char_boundary_start_end_of_seq(encode_utf8(data@));
        }
        let total: usize = byte_len(data);
        ParseCursor { data, start: total, end: total }
    }

    /// A cursor whose span is all of `data`.
    pub fn new_full(data: &'a str) -> (cursor: Self)
        ensures
            cursor.text() == data@,
            cursor.lo() == 0,
            cursor.hi() == cursor.bytes().len(),
    {
        proof {
            encode_utf8_valid_utf8(data@);
            is_char_boundary_start_end_of_seq(encode_utf8(data@));
        }
        let total: usize = byte_len(data);
        ParseCursor { data, start: 0, end: total }
    }

    /// Empties the span at its start.
    pub fn front_to_back(&mut self)
        ensures
            final(self).text() == old(self).text(),
            final(self).lo() == old(self).lo(),
            final(self).hi() == old(self).lo(),
    {
        proof {
            use_type_invariant(&*self);
        }
        self.end = self.start;
    }

    /// Empties the span at its end.
    pub fn back_to_front(&mut self)
        ensures
            final(self).text() == old(self).text(),
            final(self).lo() == old(self).hi(),
            final(self).hi() == old(self).hi(),
    {
        proof {
            use_type_invariant(&*self);
        }
        self.start = self.end;
    }

    /// The whole text.
    pub fn data(&self) -> (whole: &'a str)
        ensures
            whole@ == self.text(),
    {
        self.data
    }

    /// The two byte offsets that bound the span.
    pub fn cursor_range(&self) -> (range: (usize, usize))
        ensures
            range.0 == self.lo(),
            range.1 == self.hi(),
    {
        (self.start, self.end)
    }

    /// Shows what holds of every cursor: its offsets are in order, within the
    /// text, and on character boundaries.
    pub fn check_invariants(&self)
        ensures
            self.wf(),
    {
        proof {
            use_type_invariant(self);
        }
    }

    /// The text of the span.
    pub fn cursor(&self) -> (part: &'a str)
        ensures
            part@ == self.span(),
            encode_utf8(part@) == self.bytes().subrange(self.lo(), self.hi()),
    {
        proof {
            use_type_invariant(self);
            encode_utf8_valid_utf8(self.data@);
            lemma_boundary_before(self.bytes(), self.hi(), self.lo());
        }
        let (head, _) = self.data.split_at(self.end);
        let (_, part) = head.split_at(self.start);
        proof {
            assert(part.spec_bytes() =~= self.bytes().subrange(self.lo(), self.hi()));
            encode_utf8_decode_utf8(part@);
        }
        part
    }

    /// The text in front of the span.
    pub fn back_rem(&self) -> (part: &'a str)
        ensures
            part@ == self.before(),
            encode_utf8(part@) == self.bytes().subrange(0, self.lo()),
    {
        proof {
            use_type_invariant(self);
        }
        let (part, _) = self.data.split_at(self.start);
        proof {
            encode_utf8_decode_utf8(part@);
        }
        part
    }

    /// The text behind the span.
    pub fn front_rem(&self) -> (part: &'a str)
        ensures
            part@ == self.after(),
            encode_utf8(part@) == self.bytes().subrange(self.hi(), self.bytes().len() as int),
    {
        proof {
            use_type_invariant(self);
        }
        let (_, part) = self.data.split_at(self.end);
        proof {
            encode_utf8_decode_utf8(part@);
        }
        part
    }

    /// The text up to the end of the span.
    pub fn all_but_front_rem(&self) -> (part: &'a str)
        ensures
            part@ == self.upto(),
            encode_utf8(part@) == self.bytes().subrange(0, self.hi()),
    {
        proof {
            use_type_invariant(self);
        }
        let (part, _) = self.data.split_at(self.end);
        proof {
            encode_utf8_decode_utf8(part@);
        }
        part
    }

    /// The text from the start of the span on.
    pub fn all_but_back_rem(&self) -> (part: &'a str)
        ensures
            part@ == self.onward(),
            encode_utf8(part@) == self.bytes().subrange(self.lo(), self.bytes().len() as int),
    {
        proof {
            use_type_invariant(self);
        }
        let (_, part) = self.data.split_at(self.start);
        proof {
            encode_utf8_decode_utf8(part@);
        }
        part
    }

    /// The text in front of the span, the span, and the text behind it.
    pub fn split(&self) -> (parts: (&'a str, &'a str, &'a str))
        ensures
            parts.0@ == self.before(),
            parts.1@ == self.span(),
            parts.2@ == self.after(),
            parts.0@ + parts.1@ + parts.2@ == self.text(),
    {
        proof {
            use_type_invariant(self);
            lemma_parts_make_text(*self);
        }
        (self.back_rem(), self.cursor(), self.front_rem())
    }

    /// The text in front of the span, a cursor over the span alone that holds
    /// all of it, and the text behind the span.
    pub fn extract(&self) -> (parts: (&'a str, Self, &'a str))
        ensures
            parts.0@ == self.before(),
            parts.1.text() == self.span(),
            parts.1.lo() == 0,
            parts.1.hi() == parts.1.bytes().len(),
            parts.2@ == self.after(),
    {
        (self.back_rem(), Self::new_full(self.cursor()), self.front_rem())
    }

    /// A cursor over the span alone that holds all of it.
    pub fn snap(&self) -> (inner: Self)
        ensures
            inner.text() == self.span(),
            inner.lo() == 0,
            inner.hi() == inner.bytes().len(),
    {
        self.extract().1
    }

    /// Moves the end of the span `by` bytes forward.
    fn move_front_forward(&mut self, by: usize)
        requires
            old(self).hi() + by <= old(self).bytes().len(),
            is_char_boundary(old(self).bytes(), old(self).hi() + by),
        ensures
            final(self).placed(*old(self), old(self).lo(), old(self).hi() + by),
    {
        proof {
            use_type_invariant(&*self);
        }
        self.end = self.end + by;
    }

    /// Moves the end of the span `by` bytes backward. Where that is farther
    /// than the span is wide, the start of the span goes along.
    fn move_front_backward(&mut self, by: usize, inward_strategy: InwardStrategy)
        requires
            by <= old(self).hi(),
            is_char_boundary(old(self).bytes(), old(self).hi() - by),
            inward_strategy is CursorOnly ==> by <= old(self).hi() - old(self).lo(),
        ensures
            final(self).placed(
                *old(self),
                if old(self).hi() - by < old(self).lo() {
                    old(self).hi() - by
                } else {
                    old(self).lo()
                },
                old(self).hi() - by,
            ),
    {
        proof {
            use_type_invariant(&*self);
        }
        let target: usize = self.end - by;
        if self.end - self.start >= by {
            self.end = target;
        } else {
            self.start = target;
            self.end = target;
        }
    }

    /// Moves the start of the span `by` bytes backward.
    fn move_back_backward(&mut self, by: usize)
        requires
            by <= old(self).lo(),
            is_char_boundary(old(self).bytes(), old(self).lo() - by),
        ensures
            final(self).placed(*old(self), old(self).lo() - by, old(self).hi()),
    {
        proof {
            use_type_invariant(&*self);
        }
        self.start = self.start - by;
    }

    /// Moves the start of the span `by` bytes forward. Where that is farther
    /// than the span is wide, the end of the span goes along.
    fn move_back_forward(&mut self, by: usize, inward_strategy: InwardStrategy)
        requires
            old(self).lo() + by <= old(self).bytes().len(),
            is_char_boundary(old(self).bytes(), old(self).lo() + by),
            inward_strategy is CursorOnly ==> by <= old(self).hi() - old(self).lo(),
        ensures
            final(self).placed(
                *old(self),
                old(self).lo() + by,
                if old(self).hi() < old(self).lo() + by {
                    old(self).lo() + by
                } else {
                    old(self).hi()
                },
            ),
    {
        proof {
            use_type_invariant(&*self);
        }
        let target: usize = self.start + by;
        if self.end - self.start >= by {
            self.start = target;
        } else {
            self.end = target;
            self.start = target;
        }
    }

    /// Moves the end of the span `by` bytes forward.
    pub fn front_forward_by(&mut self, by: usize) -> (moved: &mut Self)
        requires
            is_char_boundary(encode_utf8(old(self).after()), by as int),
        ensures
            moved.placed(*old(self), old(self).lo(), old(self).hi() + by),
            *final(self) == *final(moved),
    {
        proof {
            use_type_invariant(&*self);
            lemma_scopes(*self);
            lemma_boundary_after(self.bytes(), self.hi(), 0);
            lemma_boundary_within(encode_utf8(self.after()), by as int);
            lemma_boundary_after(self.bytes(), self.hi(), by as int);
        }
        self.move_front_forward(by);
        self
    }

    /// Moves the end of the span forward to where `loc` says, relative to the
    /// matches of `pattern` in the text behind the span.
    pub fn front_forward(
        &mut self,
        pattern: Pattern,
        loc: PatternLoc,
    ) -> (moved: Result<&mut Self, Failed>)
        ensures
            distance(old(self).after(), pattern@, loc, Direction::Forward) is None ==> moved is Err
                && *final(self) == *old(self),
            distance(old(self).after(), pattern@, loc, Direction::Forward) matches Some(by)
                ==> moved matches Ok(cursor) && cursor.placed(
                *old(self),
                old(self).lo(),
                old(self).hi() + by,
            ) && *final(self) == *final(cursor),
    {
        let view = self.front_rem();
        match find_directional_offset(view, pattern, loc, Direction::Forward) {
            Some(by) => {
                proof {
                    use_type_invariant(&*self);
                    lemma_scopes(*self);
                    lemma_distance_lands(view@, pattern@, loc, Direction::Forward);
                    lemma_boundary_after(self.bytes(), self.hi(), by as int);
                }
                self.move_front_forward(by);
                Ok(self)
            },
            None => Err(Failed),
        }
    }

    /// Moves the end of the span forward as [`ParseCursor::front_forward`]
    /// does; where the anchor cannot be resolved, does what `fallback` says.
    pub fn front_forward_or(
        &mut self,
        pattern: Pattern,
        loc: PatternLoc,
        fallback: FallBack,
    ) -> (moved: &mut Self)
        ensures
            distance(old(self).after(), pattern@, loc, Direction::Forward) matches Some(by)
                ==> moved.placed(*old(self), old(self).lo(), old(self).hi() + by),
            distance(old(self).after(), pattern@, loc, Direction::Forward) is None && fallback
                is ToTheEnd ==> moved.placed(
                *old(self),
                old(self).lo(),
                old(self).bytes().len() as int,
            ),
            distance(old(self).after(), pattern@, loc, Direction::Forward) is None && fallback
                is StayAtBeginning ==> *moved == *old(self),
            *final(self) == *final(moved),
    {
        let failed = self.front_forward(pattern, loc).is_err();
        if failed {
            match fallback {
                FallBack::ToTheEnd => {
                    let rest = self.front_rem();
                    proof {
                        use_type_invariant(&*self);
                        lemma_scopes(*self);
                        is_char_boundary_start_end_of_seq(self.bytes());
                    }
                    self.move_front_forward(byte_len(rest));
                },
                FallBack::StayAtBeginning => (),
            }
        }
        self
    }

    /// Moves the start of the span backward to where `loc` says, relative to
    /// the matches of `pattern` in the text in front of the span.
    pub fn back_backward(
        &mut self,
        pattern: Pattern,
        loc: PatternLoc,
    ) -> (moved: Result<&mut Self, Failed>)
        ensures
            distance(old(self).before(), pattern@, loc, Direction::Backward) is None ==> moved
                is Err && *final(self) == *old(self),
            distance(old(self).before(), pattern@, loc, Direction::Backward) matches Some(by)
                ==> moved matches Ok(cursor) && cursor.placed(
                *old(self),
                old(self).lo() - by,
                old(self).hi(),
            ) && *final(self) == *final(cursor),
    {
        let view = self.back_rem();
        match find_directional_offset(view, pattern, loc, Direction::Backward) {
            Some(by) => {
                proof {
                    use_type_invariant(&*self);
                    lemma_scopes(*self);
                    lemma_distance_lands(view@, pattern@, loc, Direction::Backward);
                    lemma_boundary_before(self.bytes(), self.lo(), self.lo() - by);
                }
                self.move_back_backward(by);
                Ok(self)
            },
            None => Err(Failed),
        }
    }

    /// The text that [`ParseCursor::front_backward`] searches.
    pub fn front_backward_view(&self, inward_strategy: InwardStrategy) -> (view: &'a str)
        ensures
            view@ == self.front_backward_scope(inward_strategy),
            inward_strategy is CursorOnly ==> encode_utf8(view@) == self.bytes().subrange(
                self.lo(),
                self.hi(),
            ),
            inward_strategy is WholeData ==> encode_utf8(view@) == self.bytes().subrange(
                0,
                self.hi(),
            ),
    {
        match inward_strategy {
            InwardStrategy::CursorOnly => self.cursor(),
            InwardStrategy::WholeData => self.all_but_front_rem(),
        }
    }

    /// Moves the end of the span backward to where `loc` says, relative to the
    /// matches of `pattern` in the text that `inward_strategy` admits.
    pub fn front_backward(
        &mut self,
        pattern: Pattern,
        loc: PatternLoc,
        inward_strategy: InwardStrategy,
    ) -> (moved: Result<&mut Self, Failed>)
        ensures
            distance(
                old(self).front_backward_scope(inward_strategy),
                pattern@,
                loc,
                Direction::Backward,
            ) is None ==> moved is Err && *final(self) == *old(self),
            distance(
                old(self).front_backward_scope(inward_strategy),
                pattern@,
                loc,
                Direction::Backward,
            ) matches Some(by) ==> moved matches Ok(cursor) && cursor.placed(
                *old(self),
                if old(self).hi() - by < old(self).lo() {
                    old(self).hi() - by
                } else {
                    old(self).lo()
                },
                old(self).hi() - by,
            ) && *final(self) == *final(cursor),
            inward_strategy is CursorOnly ==> (moved matches Ok(cursor) ==> cursor.lo()
                == old(self).lo()),
    {
        let view = self.front_backward_view(inward_strategy);
        match find_directional_offset(view, pattern, loc, Direction::Backward) {
            Some(by) => {
                proof {
                    use_type_invariant(&*self);
                    lemma_scopes(*self);
                    lemma_distance_lands(view@, pattern@, loc, Direction::Backward);
                    is_char_boundary_start_end_of_seq(self.bytes());
                    match inward_strategy {
                        InwardStrategy::CursorOnly => lemma_boundary_inside(
                            self.bytes(),
                            self.lo(),
                            self.hi(),
                            self.hi() - self.lo() - by,
                        ),
                        InwardStrategy::WholeData => lemma_boundary_inside(
                            self.bytes(),
                            0,
                            self.hi(),
                            self.hi() - by,
                        ),
                    }
                }
                self.move_front_backward(by, inward_strategy);
                Ok(self)
            },
            None => Err(Failed),
        }
    }

    /// The text that [`ParseCursor::back_forward`] searches.
    pub fn back_forward_view(&self, inward_strategy: InwardStrategy) -> (view: &'a str)
        ensures
            view@ == self.back_forward_scope(inward_strategy),
            inward_strategy is CursorOnly ==> encode_utf8(view@) == self.bytes().subrange(
                self.lo(),
                self.hi(),
            ),
            inward_strategy is WholeData ==> encode_utf8(view@) == self.bytes().subrange(
                self.lo(),
                self.bytes().len() as int,
            ),
    {
        match inward_strategy {
            InwardStrategy::CursorOnly => self.cursor(),
            InwardStrategy::WholeData => self.all_but_back_rem(),
        }
    }

    /// Moves the start of the span forward to where `loc` says, relative to
    /// the matches of `pattern` in the text that `inward_strategy` admits.
    pub fn back_forward(
        &mut self,
        pattern: Pattern,
        loc: PatternLoc,
        inward_strategy: InwardStrategy,
    ) -> (moved: Result<&mut Self, Failed>)
        ensures
            distance(
                old(self).back_forward_scope(inward_strategy),
                pattern@,
                loc,
                Direction::Forward,
            ) is None ==> moved is Err && *final(self) == *old(self),
            distance(
                old(self).back_forward_scope(inward_strategy),
                pattern@,
                loc,
                Direction::Forward,
            ) matches Some(by) ==> moved matches Ok(cursor) && cursor.placed(
                *old(self),
                old(self).lo() + by,
                if old(self).hi() < old(self).lo() + by {
                    old(self).lo() + by
                } else {
                    old(self).hi()
                },
            ) && *final(self) == *final(cursor),
            inward_strategy is CursorOnly ==> (moved matches Ok(cursor) ==> cursor.hi()
                == old(self).hi()),
    {
        let view = self.back_forward_view(inward_strategy);
        match find_directional_offset(view, pattern, loc, Direction::Forward) {
            Some(by) => {
                proof {
                    use_type_invariant(&*self);
                    lemma_scopes(*self);
                    lemma_distance_lands(view@, pattern@, loc, Direction::Forward);
                    lemma_view_forward(*self, inward_strategy, by as int);
                }
                self.move_back_forward(by, inward_strategy);
                Ok(self)
            },
            None => Err(Failed),
        }
    }

    /// Moves the start of the span `by` bytes forward.
    pub fn back_forward_by(
        &mut self,
        by: usize,
        inward_strategy: InwardStrategy,
    ) -> (moved: &mut Self)
        requires
            is_char_boundary(
                encode_utf8(old(self).back_forward_scope(inward_strategy)),
                by as int,
            ),
        ensures
            moved.placed(
                *old(self),
                old(self).lo() + by,
                if old(self).hi() < old(self).lo() + by {
                    old(self).lo() + by
                } else {
                    old(self).hi()
                },
            ),
            inward_strategy is CursorOnly ==> moved.hi() == old(self).hi(),
            *final(self) == *final(moved),
    {
        proof {
            use_type_invariant(&*self);
            lemma_view_forward(*self, inward_strategy, by as int);
        }
        self.move_back_forward(by, inward_strategy);
        self
    }

    /// Moves the start of the span forward as [`ParseCursor::back_forward`]
    /// does; where the anchor cannot be resolved, does what `fallback` says.
    pub fn back_forward_or(
        &mut self,
        pattern: Pattern,
        loc: PatternLoc,
        inward_strategy: InwardStrategy,
        fallback: FallBack,
    ) -> (moved: &mut Self)
        ensures
            distance(
                old(self).back_forward_scope(inward_strategy),
                pattern@,
                loc,
                Direction::Forward,
            ) matches Some(by) ==> moved.placed(
                *old(self),
                old(self).lo() + by,
                if old(self).hi() < old(self).lo() + by {
                    old(self).lo() + by
                } else {
                    old(self).hi()
                },
            ),
            distance(
                old(self).back_forward_scope(inward_strategy),
                pattern@,
                loc,
                Direction::Forward,
            ) is None && fallback is ToTheEnd && inward_strategy is CursorOnly ==> moved.placed(
                *old(self),
                old(self).hi(),
                old(self).hi(),
            ),
            distance(
                old(self).back_forward_scope(inward_strategy),
                pattern@,
                loc,
                Direction::Forward,
            ) is None && fallback is ToTheEnd && inward_strategy is WholeData ==> moved.placed(
                *old(self),
                old(self).bytes().len() as int,
                old(self).bytes().len() as int,
            ),
            distance(
                old(self).back_forward_scope(inward_strategy),
                pattern@,
                loc,
                Direction::Forward,
            ) is None && fallback is StayAtBeginning ==> *moved == *old(self),
            inward_strategy is CursorOnly ==> moved.hi() == old(self).hi(),
            *final(self) == *final(moved),
    {
        let failed = self.back_forward(pattern, loc, inward_strategy).is_err();
        if failed {
            match fallback {
                FallBack::ToTheEnd => {
                    let view = self.back_forward_view(inward_strategy);
                    proof {
                        use_type_invariant(&*self);
                        lemma_scopes(*self);
                        is_char_boundary_start_end_of_seq(self.bytes());
                    }
                    self.move_back_forward(byte_len(view), inward_strategy);
                },
                FallBack::StayAtBeginning => (),
            }
        }
        self
    }
}

/// A boundary of the text that the start of the span searches when it moves
/// forward is a boundary of the whole text, and lies within the span where
/// only the span is searched.
proof fn lemma_view_forward(cursor: ParseCursor, strategy: InwardStrategy, by: int)
    requires
        cursor.wf(),
        0 <= by,
        is_char_boundary(encode_utf8(cursor.back_forward_scope(strategy)), by),
    ensures
        cursor.lo() + by <= cursor.bytes().len(),
        is_char_boundary(cursor.bytes(), cursor.lo() + by),
        strategy is CursorOnly ==> by <= cursor.hi() - cursor.lo(),
{
    lemma_scopes(cursor);
    is_char_boundary_start_end_of_seq(cursor.bytes());
    let total = cursor.bytes().len() as int;
    match strategy {
        InwardStrategy::CursorOnly => {
            lemma_boundary_inside(cursor.bytes(), cursor.lo(), cursor.hi(), 0);
            lemma_boundary_within(encode_utf8(cursor.span()), by);
            lemma_boundary_inside(cursor.bytes(), cursor.lo(), cursor.hi(), by);
        },
        InwardStrategy::WholeData => {
            lemma_boundary_inside(cursor.bytes(), cursor.lo(), total, 0);
            lemma_boundary_within(encode_utf8(cursor.onward()), by);
            lemma_boundary_inside(cursor.bytes(), cursor.lo(), total, by);
        },
    }
}

/// The encodings of the views of a cursor are the parts of the encoded text
/// that its offsets cut out.
pub proof fn lemma_scopes(cursor: ParseCursor)
    requires
        cursor.wf(),
    ensures
        encode_utf8(cursor.before()) == cursor.bytes().subrange(0, cursor.lo()),
        encode_utf8(cursor.span()) == cursor.bytes().subrange(cursor.lo(), cursor.hi()),
        encode_utf8(cursor.after()) == cursor.bytes().subrange(
            cursor.hi(),
            cursor.bytes().len() as int,
        ),
        encode_utf8(cursor.upto()) == cursor.bytes().subrange(0, cursor.hi()),
        encode_utf8(cursor.onward()) == cursor.bytes().subrange(
            cursor.lo(),
            cursor.bytes().len() as int,
        ),
        valid_utf8(cursor.bytes()),
{
    let bytes = cursor.bytes();
    let lo = cursor.lo();
    let hi = cursor.hi();
    let total = bytes.len() as int;
    encode_utf8_valid_utf8(cursor.text());
    valid_utf8_split(bytes, lo);
    valid_utf8_split(bytes, hi);
    lemma_boundary_before(bytes, hi, lo);
    valid_utf8_split(bytes.subrange(0, hi), lo);
    assert(bytes.subrange(0, hi).subrange(lo, hi) =~= bytes.subrange(lo, hi));
    decode_utf8_encode_utf8(bytes.subrange(0, lo));
    decode_utf8_encode_utf8(bytes.subrange(lo, hi));
    decode_utf8_encode_utf8(bytes.subrange(hi, total));
    decode_utf8_encode_utf8(bytes.subrange(0, hi));
    decode_utf8_encode_utf8(bytes.subrange(lo, total));
}

/// The text in front of the span, the span and the text behind it make up the
/// whole text, in characters and in bytes.
pub proof fn lemma_parts_make_text(cursor: ParseCursor)
    requires
        cursor.wf(),
    ensures
        cursor.before() + cursor.span() + cursor.after() == cursor.text(),
        cursor.before() + cursor.span() == cursor.upto(),
        cursor.span() + cursor.after() == cursor.onward(),
        encode_utf8(cursor.before()) + encode_utf8(cursor.span()) + encode_utf8(cursor.after())
            == cursor.bytes(),
{
    let bytes = cursor.bytes();
    let lo = cursor.lo();
    let hi = cursor.hi();
    let total = bytes.len() as int;
    encode_utf8_valid_utf8(cursor.text());
    encode_utf8_decode_utf8(cursor.text());
    let head = bytes.subrange(0, hi);
    let tail = bytes.subrange(lo, total);
    lemma_boundary_before(bytes, hi, lo);
    lemma_boundary_after(bytes, lo, hi - lo);
    decode_utf8_split(bytes, hi);
    decode_utf8_split(bytes, lo);
    decode_utf8_split(head, lo);
    decode_utf8_split(tail, hi - lo);
    assert(head.subrange(0, lo) =~= bytes.subrange(0, lo));
    assert(head.subrange(lo, head.len() as int) =~= bytes.subrange(lo, hi));
    assert(tail.subrange(0, hi - lo) =~= bytes.subrange(lo, hi));
    assert(tail.subrange(hi - lo, tail.len() as int) =~= bytes.subrange(hi, total));
    valid_utf8_split(head, lo);
    valid_utf8_split(bytes, hi);
    decode_utf8_encode_utf8(bytes.subrange(0, lo));
    decode_utf8_encode_utf8(bytes.subrange(lo, hi));
    decode_utf8_encode_utf8(bytes.subrange(hi, total));
    assert(bytes.subrange(0, lo) + bytes.subrange(lo, hi) + bytes.subrange(hi, total) =~= bytes);
}

} // verus!
