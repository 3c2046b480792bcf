//! Trusted boundary around `ropey::Rope`, the balanced rope that stores the
//! buffer text. The rope is built with line breaks restricted to `'\n'`
//! (ropey's default line-break features are disabled), so every contract here
//! is exact over the model in [`crate::text_model`]: the rope's character
//! content is named by `rope_chars`, and each wrapped query is specified
//! against that sequence.

use vstd::prelude::*;

use crate::text_model::{
    byte_index_of, char_index_at_byte, line_index_of, line_start, newline_count,
};

verus! {

#[verifier::external_type_specification]
#[verifier::external_body]
pub struct ExRope(ropey::Rope);

/// The characters held by a rope, in order.
pub uninterp spec fn rope_chars(r: ropey::Rope) -> Seq<char>;

/// Relies on `ropey::Rope::from_str`: builds a rope with exactly the given
/// text.
#[verifier::external_body]
pub(crate) fn rope_from_str(text: &str) -> (r: ropey::Rope)
    ensures
        rope_chars(r) == text@,
{
    ropey::Rope::from_str(text)
}

/// Relies on `ropey::Rope`'s `Display` impl (via `to_string`): writes out the
/// rope's full text.
#[verifier::external_body]
pub(crate) fn rope_string(r: &ropey::Rope) -> (res: String)
    ensures
        res@ == rope_chars(*r),
{
    r.to_string()
}

/// Relies on `ropey::Rope::len_chars`: the number of characters in the rope.
#[verifier::external_body]
pub(crate) fn rope_len(r: &ropey::Rope) -> (res: usize)
    ensures
        res == rope_chars(*r).len(),
{
    r.len_chars()
}

/// Relies on `ropey::Rope::len_lines`: one more than the number of line
/// breaks, which with the chosen feature set are exactly the `'\n'`
/// characters.
#[verifier::external_body]
pub(crate) fn rope_len_lines(r: &ropey::Rope) -> (res: usize)
    ensures
        res == newline_count(rope_chars(*r)) + 1,
{
    r.len_lines()
}

/// Relies on `ropey::Rope::insert`: splices `text` in at character index
/// `at`.
#[verifier::external_body]
pub(crate) fn rope_insert(r: &mut ropey::Rope, at: usize, text: &str)
    requires
        at <= rope_chars(*old(r)).len(),
    ensures
        rope_chars(*final(r)) == rope_chars(*old(r)).take(at as int) + text@ + rope_chars(
            *old(r),
        ).skip(at as int),
{
    r.insert(at, text);
}

/// Relies on `ropey::Rope::remove`: deletes the character range
/// `[start, end)`.
#[verifier::external_body]
pub(crate) fn rope_remove(r: &mut ropey::Rope, start: usize, end: usize)
    requires
        start <= end <= rope_chars(*old(r)).len(),
    ensures
        rope_chars(*final(r)) == rope_chars(*old(r)).take(start as int) + rope_chars(
            *old(r),
        ).skip(end as int),
{
    r.remove(start..end);
}

/// Relies on `ropey::Rope::char`: the character at a character index.
#[verifier::external_body]
pub(crate) fn rope_char_at(r: &ropey::Rope, i: usize) -> (res: char)
    requires
        i < rope_chars(*r).len(),
    ensures
        res == rope_chars(*r)[i as int],
{
    r.char(i)
}

/// Relies on `ropey::Rope::char_to_line`: the number of line breaks strictly
/// before the character index (one-past-the-end maps to the last line).
#[verifier::external_body]
pub(crate) fn rope_char_to_line(r: &ropey::Rope, i: usize) -> (res: usize)
    requires
        i <= rope_chars(*r).len(),
    ensures
        res == line_index_of(rope_chars(*r), i as int),
{
    r.char_to_line(i)
}

/// Relies on `ropey::Rope::line_to_char`: the character index of the first
/// character of a line (one-past-the-last-line maps to the text length).
#[verifier::external_body]
pub(crate) fn rope_line_to_char(r: &ropey::Rope, l: usize) -> (res: usize)
    requires
        l <= newline_count(rope_chars(*r)) + 1,
    ensures
        res == line_start(rope_chars(*r), l as int),
{
    r.line_to_char(l)
}

/// Relies on `ropey::Rope::char_to_byte`: the UTF-8 byte offset of a
/// character index.
#[verifier::external_body]
pub(crate) fn rope_char_to_byte(r: &ropey::Rope, i: usize) -> (res: usize)
    requires
        i <= rope_chars(*r).len(),
    ensures
        res == byte_index_of(rope_chars(*r), i as int),
{
    r.char_to_byte(i)
}

/// Relies on `ropey::Rope::byte_to_char`: the index of the character whose
/// UTF-8 encoding contains the given byte offset.
#[verifier::external_body]
pub(crate) fn rope_byte_to_char(r: &ropey::Rope, b: usize) -> (res: usize)
    requires
        b <= byte_index_of(rope_chars(*r), rope_chars(*r).len() as int),
    ensures
        res == char_index_at_byte(rope_chars(*r), b as int),
{
    r.byte_to_char(b)
}

/// Relies on `ropey::Rope::len_bytes`: the total UTF-8 size of the text.
#[verifier::external_body]
pub(crate) fn rope_len_bytes(r: &ropey::Rope) -> (res: usize)
    ensures
        res == byte_index_of(rope_chars(*r), rope_chars(*r).len() as int),
{
    r.len_bytes()
}

/// Relies on `ropey::Rope::line` (and the `Display` of the returned slice):
/// the text of line `l`, including its terminating newline if it has one.
#[verifier::external_body]
pub(crate) fn rope_line(r: &ropey::Rope, l: usize) -> (res: String)
    requires
        l <= newline_count(rope_chars(*r)),
    ensures
        res@ == rope_chars(*r).subrange(
            line_start(rope_chars(*r), l as int),
            line_start(rope_chars(*r), l as int + 1),
        ),
{
    r.line(l).to_string()
}

/// Relies on `ropey::Rope::slice` (and the `Display` of the returned slice):
/// the text of the character range `[start, end)`.
#[verifier::external_body]
pub(crate) fn rope_slice(r: &ropey::Rope, start: usize, end: usize) -> (res: String)
    requires
        start <= end <= rope_chars(*r).len(),
    ensures
        res@ == rope_chars(*r).subrange(start as int, end as int),
{
    r.slice(start..end).to_string()
}

} // verus!
