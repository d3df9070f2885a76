use parsebuf::{find_directional_offset, Direction, Pattern, PatternLoc};

#[test]
fn test_find_directional_offset_first_excluded_forward() {
    assert_eq!(
        find_directional_offset(
            "hello world",
            Pattern::Str("world"),
            PatternLoc::FirstExcluded,
            Direction::Forward
        ),
        Some(6)
    );
    assert_eq!(
        find_directional_offset(
            "abcabc",
            Pattern::Str("abc"),
            PatternLoc::FirstExcluded,
            Direction::Forward
        ),
        Some(0)
    );
    assert_eq!(
        find_directional_offset(
            "hello world",
            Pattern::Str("xyz"),
            PatternLoc::FirstExcluded,
            Direction::Forward
        ),
        None
    );
    assert_eq!(
        find_directional_offset(
            "foo bar baz",
            Pattern::Str(" "),
            PatternLoc::FirstExcluded,
            Direction::Forward
        ),
        Some(3)
    );
}

#[test]
fn test_find_directional_offset_first_excluded_backward() {
    assert_eq!(
        find_directional_offset(
            "hello world",
            Pattern::Str("o"),
            PatternLoc::FirstExcluded,
            Direction::Backward
        ),
        Some(3)
    );
    assert_eq!(
        find_directional_offset(
            "abcabc",
            Pattern::Str("abc"),
            PatternLoc::FirstExcluded,
            Direction::Backward
        ),
        Some(0)
    );
    assert_eq!(
        find_directional_offset(
            "hello world",
            Pattern::Str("xyz"),
            PatternLoc::FirstExcluded,
            Direction::Backward
        ),
        None
    );
    assert_eq!(
        find_directional_offset(
            "foo bar baz",
            Pattern::Str(" "),
            PatternLoc::FirstExcluded,
            Direction::Backward
        ),
        Some(3)
    );
}

#[test]
fn test_find_directional_offset_first_included_forward() {
    assert_eq!(
        find_directional_offset(
            "hello world",
            Pattern::Str("world"),
            PatternLoc::FirstIncluded,
            Direction::Forward
        ),
        Some(11)
    );
    assert_eq!(
        find_directional_offset(
            "abcabc",
            Pattern::Str("abc"),
            PatternLoc::FirstIncluded,
            Direction::Forward
        ),
        Some(3)
    );
    assert_eq!(
        find_directional_offset(
            "hello world",
            Pattern::Str("xyz"),
            PatternLoc::FirstIncluded,
            Direction::Forward
        ),
        None
    );
    assert_eq!(
        find_directional_offset(
            "foo bar baz",
            Pattern::Str(" "),
            PatternLoc::FirstIncluded,
            Direction::Forward
        ),
        Some(4)
    );
}

#[test]
fn test_find_directional_offset_first_included_backward() {
    assert_eq!(
        find_directional_offset(
            "hello world",
            Pattern::Str("o"),
            PatternLoc::FirstIncluded,
            Direction::Backward
        ),
        Some(4)
    );
    assert_eq!(
        find_directional_offset(
            "abcabc",
            Pattern::Str("abc"),
            PatternLoc::FirstIncluded,
            Direction::Backward
        ),
        Some(3)
    );
    assert_eq!(
        find_directional_offset(
            "hello world",
            Pattern::Str("xyz"),
            PatternLoc::FirstIncluded,
            Direction::Backward
        ),
        None
    );
    assert_eq!(
        find_directional_offset(
            "foo bar baz!",
            Pattern::Str(" "),
            PatternLoc::FirstIncluded,
            Direction::Backward
        ),
        Some(5)
    );
}

#[test]
fn test_find_directional_offset_beginning_many_forward() {
    assert_eq!(
        find_directional_offset(
            "   hello",
            Pattern::Str(" "),
            PatternLoc::BeginningMany,
            Direction::Forward
        ),
        Some(3)
    );
    assert_eq!(
        find_directional_offset("aaabbb", Pattern::Str("a"), PatternLoc::BeginningMany, Direction::Forward),
        Some(3)
    );
    assert_eq!(
        find_directional_offset("hello", Pattern::Str("x"), PatternLoc::BeginningMany, Direction::Forward),
        Some(0)
    );
    assert_eq!(
        find_directional_offset("aaaa", Pattern::Str("a"), PatternLoc::BeginningMany, Direction::Forward),
        Some(4)
    );
}

#[test]
fn test_find_directional_offset_beginning_many_backward() {
    assert_eq!(
        find_directional_offset(
            "hello   ",
            Pattern::Str(" "),
            PatternLoc::BeginningMany,
            Direction::Backward
        ),
        Some(3)
    );
    assert_eq!(
        find_directional_offset(
            "aaabbb",
            Pattern::Str("b"),
            PatternLoc::BeginningMany,
            Direction::Backward
        ),
        Some(3)
    );
    assert_eq!(
        find_directional_offset("hello", Pattern::Str("x"), PatternLoc::BeginningMany, Direction::Backward),
        Some(0)
    );
    assert_eq!(
        find_directional_offset("bbbb", Pattern::Str("b"), PatternLoc::BeginningMany, Direction::Backward),
        Some(4)
    );
}

#[test]
fn test_find_directional_offset_beginning_once_forward() {
    assert_eq!(
        find_directional_offset(
            "abcdef",
            Pattern::Str("abc"),
            PatternLoc::BeginningOnce,
            Direction::Forward
        ),
        Some(3)
    );
    assert_eq!(
        find_directional_offset(
            "hello world",
            Pattern::Str("hello"),
            PatternLoc::BeginningOnce,
            Direction::Forward
        ),
        Some(5)
    );
    assert_eq!(
        find_directional_offset(
            "hello world",
            Pattern::Str("world"),
            PatternLoc::BeginningOnce,
            Direction::Forward
        ),
        None
    );
    assert_eq!(
        find_directional_offset(
            "test",
            Pattern::Str("test"),
            PatternLoc::BeginningOnce,
            Direction::Forward
        ),
        Some(4)
    );
    assert_eq!(
        find_directional_offset(
            "abcabc",
            Pattern::Str("abc"),
            PatternLoc::BeginningOnce,
            Direction::Forward
        ),
        Some(3)
    );
    assert_eq!(
        find_directional_offset("", Pattern::Str("x"), PatternLoc::BeginningOnce, Direction::Forward),
        None
    );
}

#[test]
fn test_find_directional_offset_beginning_once_backward() {
    assert_eq!(
        find_directional_offset(
            "abcdef",
            Pattern::Str("def"),
            PatternLoc::BeginningOnce,
            Direction::Backward
        ),
        Some(3)
    );
    assert_eq!(
        find_directional_offset(
            "hello world",
            Pattern::Str("world"),
            PatternLoc::BeginningOnce,
            Direction::Backward
        ),
        Some(5)
    );
    assert_eq!(
        find_directional_offset(
            "hello world",
            Pattern::Str("hello"),
            PatternLoc::BeginningOnce,
            Direction::Backward
        ),
        None
    );
    assert_eq!(
        find_directional_offset(
            "test",
            Pattern::Str("test"),
            PatternLoc::BeginningOnce,
            Direction::Backward
        ),
        Some(4)
    );
    assert_eq!(
        find_directional_offset(
            "abcabc",
            Pattern::Str("abc"),
            PatternLoc::BeginningOnce,
            Direction::Backward
        ),
        Some(3)
    );
    assert_eq!(
        find_directional_offset("", Pattern::Str("x"), PatternLoc::BeginningOnce, Direction::Backward),
        None
    );
}

#[test]
fn test_find_directional_offset_last_excluded_forward() {
    assert_eq!(
        find_directional_offset(
            "hello world",
            Pattern::Str("o"),
            PatternLoc::LastExcluded,
            Direction::Forward
        ),
        Some(7)
    );
    assert_eq!(
        find_directional_offset(
            "abcabc",
            Pattern::Str("abc"),
            PatternLoc::LastExcluded,
            Direction::Forward
        ),
        Some(3)
    );
    assert_eq!(
        find_directional_offset(
            "hello world",
            Pattern::Str("xyz"),
            PatternLoc::LastExcluded,
            Direction::Forward
        ),
        None
    );
    assert_eq!(
        find_directional_offset(
            "foo bar baz",
            Pattern::Str(" "),
            PatternLoc::LastExcluded,
            Direction::Forward
        ),
        Some(7)
    );
}

#[test]
fn test_find_directional_offset_last_excluded_backward() {
    assert_eq!(
        find_directional_offset(
            "hello world",
            Pattern::Str("o"),
            PatternLoc::LastExcluded,
            Direction::Backward
        ),
        Some(3)
    );
    assert_eq!(
        find_directional_offset(
            "abcabc",
            Pattern::Str("abc"),
            PatternLoc::LastExcluded,
            Direction::Backward
        ),
        Some(0)
    );
    assert_eq!(
        find_directional_offset(
            "hello world",
            Pattern::Str("xyz"),
            PatternLoc::LastExcluded,
            Direction::Backward
        ),
        None
    );
}

#[test]
fn test_find_directional_offset_end_of_last_forward() {
    assert_eq!(
        find_directional_offset(
            "hello world",
            Pattern::Str("o"),
            PatternLoc::EndOfLast,
            Direction::Forward
        ),
        Some(8)
    );
    assert_eq!(
        find_directional_offset("abcabc", Pattern::Str("abc"), PatternLoc::EndOfLast, Direction::Forward),
        Some(6)
    );
    assert_eq!(
        find_directional_offset(
            "hello world",
            Pattern::Str("xyz"),
            PatternLoc::EndOfLast,
            Direction::Forward
        ),
        None
    );
    assert_eq!(
        find_directional_offset(
            "foo bar baz",
            Pattern::Str(" "),
            PatternLoc::EndOfLast,
            Direction::Forward
        ),
        Some(8)
    );
}

#[test]
fn test_find_directional_offset_end_of_last_backward() {
    assert_eq!(
        find_directional_offset(
            "hello world",
            Pattern::Str("world"),
            PatternLoc::EndOfLast,
            Direction::Backward
        ),
        Some(5)
    );
    assert_eq!(
        find_directional_offset("abcabc", Pattern::Str("abc"), PatternLoc::EndOfLast, Direction::Backward),
        Some(6)
    );
    assert_eq!(
        find_directional_offset(
            "hello world",
            Pattern::Str("xyz"),
            PatternLoc::EndOfLast,
            Direction::Backward
        ),
        None
    );
    assert_eq!(
        find_directional_offset(
            "foo bar baz",
            Pattern::Str(" "),
            PatternLoc::EndOfLast,
            Direction::Backward
        ),
        Some(8)
    );
}

#[test]
fn test_find_directional_offset_start_of_suffix_many_forward() {
    assert_eq!(
        find_directional_offset(
            "hello   ",
            Pattern::Str(" "),
            PatternLoc::StartOfSuffixMany,
            Direction::Forward
        ),
        Some(5)
    );
    assert_eq!(
        find_directional_offset(
            "aaabbb",
            Pattern::Str("b"),
            PatternLoc::StartOfSuffixMany,
            Direction::Forward
        ),
        Some(3)
    );
    assert_eq!(
        find_directional_offset(
            "hello",
            Pattern::Str("x"),
            PatternLoc::StartOfSuffixMany,
            Direction::Forward
        ),
        Some(5)
    );
    assert_eq!(
        find_directional_offset(
            "bbbb",
            Pattern::Str("b"),
            PatternLoc::StartOfSuffixMany,
            Direction::Forward
        ),
        Some(0)
    );
}

#[test]
fn test_find_directional_offset_start_of_suffix_many_backward() {
    assert_eq!(
        find_directional_offset(
            "   hello",
            Pattern::Str(" "),
            PatternLoc::StartOfSuffixMany,
            Direction::Backward
        ),
        Some(5)
    );
    assert_eq!(
        find_directional_offset(
            "aaabbb",
            Pattern::Str("a"),
            PatternLoc::StartOfSuffixMany,
            Direction::Backward
        ),
        Some(3)
    );
    assert_eq!(
        find_directional_offset(
            "hello",
            Pattern::Str("x"),
            PatternLoc::StartOfSuffixMany,
            Direction::Backward
        ),
        Some(5)
    );
    assert_eq!(
        find_directional_offset(
            "aaaa",
            Pattern::Str("a"),
            PatternLoc::StartOfSuffixMany,
            Direction::Backward
        ),
        Some(0)
    );
}

#[test]
fn test_find_directional_offset_empty_string() {
    assert_eq!(
        find_directional_offset("", Pattern::Str("x"), PatternLoc::FirstExcluded, Direction::Forward),
        None
    );
    assert_eq!(
        find_directional_offset("", Pattern::Str(" "), PatternLoc::BeginningMany, Direction::Forward),
        Some(0)
    );
    assert_eq!(
        find_directional_offset("", Pattern::Str(" "), PatternLoc::StartOfSuffixMany, Direction::Forward),
        Some(0)
    );
}

#[test]
fn test_find_directional_offset_single_char() {
    assert_eq!(
        find_directional_offset("a", Pattern::Str("a"), PatternLoc::FirstExcluded, Direction::Forward),
        Some(0)
    );
    assert_eq!(
        find_directional_offset("a", Pattern::Str("a"), PatternLoc::FirstIncluded, Direction::Forward),
        Some(1)
    );
    assert_eq!(
        find_directional_offset("a", Pattern::Str("b"), PatternLoc::FirstExcluded, Direction::Forward),
        None
    );
}
