//! A bidirectional text-scanning cursor over an immutable string slice.
//!
//! A [`ParseCursor`] holds a text and a span of it. Its two boundaries move
//! forward or backward to places named relative to the matches of a
//! [`Pattern`]: just before a match, just past it, past one match at the edge
//! or past all of them. A pattern is a character, a substring, or a class of
//! characters given as a list, a range or a test ([`CharPredicate`]). Nothing
//! is copied: every view that the cursor hands out is a slice of the text it
//! was made with.

pub mod cursor;
pub mod laws;
pub mod offsets;
pub mod pattern;
pub mod resolve;
pub mod search;
pub mod steps;

pub use cursor::{FallBack, Failed, InwardStrategy, ParseCursor};
pub use pattern::{CharPredicate, Pattern, Predicate};
pub use resolve::{find_directional_offset, Direction, PatternLoc};
pub use steps::Steps;
