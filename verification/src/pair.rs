//! Parsing of a pair of values written with a separator between them, such
//! as `640x480` or `-1.5,0.25`.

use std::str::FromStr;
use vstd::prelude::*;
use vstd::std_specs::iter::IteratorSpec;

verus! {

/// `text` is `left`, then the separator, then `right`, and the separator
/// is the first one in `text`: `left` holds none.
pub open spec fn splits(
    text: Seq<char>,
    separator: char,
    left: Seq<char>,
    right: Seq<char>,
) -> bool {
    &&& text == left + seq![separator] + right
    &&& !left.contains(separator)
}

/// A text splits at its first separator in one way only.
pub proof fn lemma_split_is_unique(
    text: Seq<char>,
    separator: char,
    left: Seq<char>,
    right: Seq<char>,
    other_left: Seq<char>,
    other_right: Seq<char>,
)
    requires
        splits(text, separator, left, right),
        splits(text, separator, other_left, other_right),
    ensures
        left == other_left,
        right == other_right,
{
    let a = left.len() as int;
    let b = other_left.len() as int;
    assert(text[a] == separator);
    assert(text[b] == separator);
    if a < b {
        assert(other_left[a] == text[a]);
        assert(other_left.contains(separator));
    }
    if b < a {
        assert(left[b] == text[b]);
        assert(left.contains(separator));
    }
    assert(left =~= text.subrange(0, a));
    assert(other_left =~= text.subrange(0, b));
    assert(right =~= text.subrange(a + 1, text.len() as int));
    assert(other_right =~= text.subrange(b + 1, text.len() as int));
}

/// Splits `text` at its first `separator`: the part before it and the part
/// after it, or `None` where `text` holds no separator.
pub fn split_pair(text: &str, separator: char) -> (halves: Option<(&str, &str)>)
    ensures
        match halves {
            Some((left, right)) => splits(text@, separator, left@, right@),
            None => !text@.contains(separator),
        },
{
    let len: usize = text.unicode_len();
    let mut chars = text.chars();
    let mut at: usize = 0;
    loop
        invariant
            at <= len,
            len == text@.len(),
            chars.remaining() == text@.subrange(at as int, len as int),
            forall|j: int| 0 <= j < at ==> text@[j] != separator,
        decreases len - at,
    {
        match chars.next() {
            Some(c) => {
                assert(c == text@[at as int]);
                if c == separator {
                    let left = text.substring_char(0, at);
                    let right = text.substring_char(at + 1, len);
                    proof {
                        assert(text@ =~= left@ + seq![separator] + right@);
                    }
                    return Some((left, right));
                }
                proof {
                    assert(text@.subrange(at as int, len as int).drop_first() =~= text@.subrange(
                        at + 1,
                        len as int,
                    ));
                }
                at += 1;
            },
            None => {
                return None;
            },
        }
    }
}

/// The pair of two parsed halves: there is one where both were parsed.
pub open spec fn both<T>(left: Option<T>, right: Option<T>) -> Option<(T, T)> {
    match (left, right) {
        (Some(l), Some(r)) => Some((l, r)),
        _ => None,
    }
}

/// Makes the pair of two parsed halves.
pub fn pair_of<T>(left: Option<T>, right: Option<T>) -> (pair: Option<(T, T)>)
    ensures
        pair == both(left, right),
{
    match (left, right) {
        (Some(l), Some(r)) => Some((l, r)),
        _ => None,
    }
}

/// `pair` is what `parse` may make of `text`: the pair of what it gives for
/// the part before the first separator and for the part after it, and
/// `None` where `text` holds no separator.
pub open spec fn is_parsed_pair<T, P: Fn(&str) -> Option<T>>(
    text: Seq<char>,
    separator: char,
    parse: P,
    pair: Option<(T, T)>,
) -> bool {
    if text.contains(separator) {
        exists|left: &str, right: &str, first: Option<T>, second: Option<T>|
            {
                &&& splits(text, separator, left@, right@)
                &&& #[trigger] parse.ensures((left,), first)
                &&& #[trigger] parse.ensures((right,), second)
                &&& pair == both(first, second)
            }
    } else {
        pair is None
    }
}

/// Parses `text` as two values with `separator` between them, each parsed
/// by `parse`: what stands before the first separator and what stands after
/// it. There is no pair where `text` holds no separator, or where `parse`
/// gives no value for one of the two parts.
pub fn parse_pair_with<T, P: Fn(&str) -> Option<T>>(
    text: &str,
    separator: char,
    parse: P,
) -> (pair: Option<(T, T)>)
    requires
        forall|part: &str| parse.requires((part,)),
    ensures
        is_parsed_pair(text@, separator, parse, pair),
{
    match split_pair(text, separator) {
        Some((left, right)) => {
            assert(text@[left@.len() as int] == separator);
            let first = parse(left);
            let second = parse(right);
            pair_of(first, second)
        },
        None => None,
    }
}

/// Parses `text` as a `T` with `FromStr::from_str`, which the type `T`
/// defines: `None` stands for its error. Nothing is claimed of the result.
#[verifier::external_body]
fn parse_value<T: FromStr>(text: &str) -> (value: Option<T>) {
    T::from_str(text).ok()
}

/// Parses `text` as two values of type `T` with `separator` between them:
/// what stands before the first separator and what stands after it are each
/// parsed as a `T`, as the type's `FromStr` has it. There is no pair where
/// `text` holds no separator, or where one of the two parts is no `T`.
pub fn parse_pair<T: FromStr>(text: &str, separator: char) -> (pair: Option<(T, T)>)
    ensures
        is_pair_from_str(text@, separator, pair),
{
    let pair = parse_pair_with(text, separator, parse_value::<T>);
    proof {
        if text@.contains(separator) {
            let (left, right, first, second) = choose|
                left: &str,
                right: &str,
                first: Option<T>,
                second: Option<T>,
            |
                {
                    &&& splits(text@, separator, left@, right@)
                    &&& #[trigger] call_ensures(parse_value::<T>, (left,), first)
                    &&& #[trigger] call_ensures(parse_value::<T>, (right,), second)
                    &&& pair == both(first, second)
                };
            assert(from_str_gives(left, first));
            assert(from_str_gives(right, second));
        }
    }
    pair
}

/// `value` is what the `FromStr::from_str` of `T` gave for `part` when it
/// was called, `None` standing for its error. Which value that is, the type
/// `T` decides: nothing more is known of it here.
pub closed spec fn from_str_gives<T: FromStr>(part: &str, value: Option<T>) -> bool {
    call_ensures(parse_value::<T>, (part,), value)
}

/// `pair` is what the `FromStr` of `T` makes of `text`: the pair of what it
/// gave for the part before the first separator and for the part after it,
/// and `None` where `text` holds no separator.
pub open spec fn is_pair_from_str<T: FromStr>(
    text: Seq<char>,
    separator: char,
    pair: Option<(T, T)>,
) -> bool {
    if text.contains(separator) {
        exists|left: &str, right: &str, first: Option<T>, second: Option<T>|
            {
                &&& splits(text, separator, left@, right@)
                &&& #[trigger] from_str_gives(left, first)
                &&& #[trigger] from_str_gives(right, second)
                &&& pair == both(first, second)
            }
    } else {
        pair is None
    }
}

} // verus!
