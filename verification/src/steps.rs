//! Pulling one span after another out of a cursor by a repeated recipe.

use crate::cursor::{Failed, ParseCursor};
use vstd::prelude::*;

verus! {

/// A cursor, a recipe of movements, and whether the recipe has failed yet.
///
/// Each pull moves the one cursor on from where the pull before left it, so
/// the spans come out once, in order, and cannot be pulled again.
pub struct Steps<'a, F> {
    cursor: ParseCursor<'a>,
    recipe: F,
    done: bool,
}

impl<'a, F> Steps<'a, F> where
    F: for <'c> FnMut(&'c mut ParseCursor<'a>) -> Result<&'c mut ParseCursor<'a>, Failed>,
 {
    /// The cursor as the last pull left it.
    pub closed spec fn cursor(&self) -> ParseCursor<'a> {
        self.cursor
    }

    /// The recipe.
    pub closed spec fn recipe(&self) -> F {
        self.recipe
    }

    /// Whether the recipe has failed, after which nothing more comes out.
    pub closed spec fn finished(&self) -> bool {
        self.done
    }

    /// Pulls the next span: empties the span of the cursor at its end, runs
    /// the recipe once on the cursor, and hands out the span that the recipe
    /// left where it succeeded. Where the recipe fails, nothing comes out,
    /// now or at any later pull.
    ///
    /// The recipe has to accept the cursor that it is about to get; once it
    /// has failed it is not run again, and nothing is asked of it.
    pub fn next(&mut self) -> (item: Option<&'a str>)
        requires
            !old(self).finished() ==> forall|cursor: &mut ParseCursor<'a>|
                cursor.placed(old(self).cursor(), old(self).cursor().hi(), old(self).cursor().hi())
                    ==> #[trigger] call_requires(old(self).recipe(), (cursor,)),
        ensures
            old(self).finished() ==> item is None && *final(self) == *old(self),
            !old(self).finished() ==> exists|
                cursor: &mut ParseCursor<'a>,
                outcome: Result<&mut ParseCursor<'a>, Failed>,
            |
                cursor.placed(old(self).cursor(), old(self).cursor().hi(), old(self).cursor().hi())
                    && #[trigger] call_ensures(old(self).recipe(), (cursor,), outcome)
                    && (outcome matches Ok(moved) ==> *final(moved) == *moved)
                    && *final(cursor) == final(self).cursor()
                    && (outcome is Ok <==> item is Some)
                    && final(self).finished() == (outcome is Err),
            item matches Some(part) ==> part@ == final(self).cursor().span(),
            final(self).recipe() == old(self).recipe(),
    {
        if self.done {
            return None;
        }
        let ghost recipe = self.recipe;
        let ghost start = self.cursor;
        assert(old(self).recipe() == recipe && old(self).cursor() == start);
        assert(old(self).finished() == self.done);
        self.cursor.back_to_front();
        let item = match (self.recipe)(&mut self.cursor) {
            Ok(_) => Some(self.cursor.cursor()),
            Err(_) => {
                self.done = true;
                None
            },
        };
        assert(exists|cursor: &mut ParseCursor<'a>, outcome: Result<&mut ParseCursor<'a>, Failed>|
            cursor.placed(start, start.hi(), start.hi()) && #[trigger] call_ensures(
                recipe,
                (cursor,),
                outcome,
            ) && (outcome matches Ok(moved) ==> *final(moved) == *moved) && *final(cursor)
                == self.cursor && (outcome is Ok <==> item is Some) && self.done == (outcome
                is Err));
        assert(self.cursor() == self.cursor && self.finished() == self.done);
        item
    }
}

impl<'a> ParseCursor<'a> {
    /// Turns the cursor and a recipe of movements into a sequence of spans:
    /// see [`Steps::next`].
    pub fn step<F>(self, f: F) -> (steps: Steps<'a, F>) where
        F: for <'c> FnMut(&'c mut ParseCursor<'a>) -> Result<&'c mut ParseCursor<'a>, Failed>,

        ensures
            steps.cursor() == self,
            steps.recipe() == f,
            !steps.finished(),
    {
        Steps { cursor: self, recipe: f, done: false }
    }
}

} // verus!
