//! The text store: `ropey::Rope`, with the library's view of what it holds.
use vstd::prelude::*;
use crate::lines::lines_of;

verus! {

#[verifier::external_type_specification]
#[verifier::external_body]
pub struct ExRope(ropey::Rope);

/// The characters that a rope holds, in order.
pub uninterp spec fn rope_text(r: ropey::Rope) -> Seq<char>;

/// Relies on `Rope::new`: a rope with no characters.
#[verifier::external_body]
pub(crate) fn rope_new() -> (r: ropey::Rope)
    ensures
        rope_text(r) == Seq::<char>::empty(),
{
    ropey::Rope::new()
}

/// Relies on `Rope::from_str`: a rope holding the characters of `s`.
#[verifier::external_body]
pub(crate) fn rope_from_str(s: &str) -> (r: ropey::Rope)
    ensures
        rope_text(r) == s@,
{
    ropey::Rope::from_str(s)
}

/// Relies on `Rope::len_chars`: the number of characters held.
#[verifier::external_body]
pub(crate) fn rope_len_chars(r: &ropey::Rope) -> (n: usize)
    ensures
        n == rope_text(*r).len(),
{
    r.len_chars()
}

/// Relies on `Rope::len_lines`: one more than the number of line feeds (the
/// crate is built without its `cr_lines` and `unicode_lines` features, so `\n`
/// is the only line break).
#[verifier::external_body]
pub(crate) fn rope_len_lines(r: &ropey::Rope) -> (n: usize)
    ensures
        n == lines_of(rope_text(*r)).len(),
{
    r.len_lines()
}

/// Relies on `Rope::line_to_char`: the character index where line `i` starts,
/// the length of the text for `i == len_lines()`; it panics beyond that.
#[verifier::external_body]
pub(crate) fn rope_line_to_char(r: &ropey::Rope, i: usize) -> (n: usize)
    requires
        i <= lines_of(rope_text(*r)).len(),
    ensures
        n == lines_of(rope_text(*r)).take(i as int).flatten().len(),
{
    r.line_to_char(i)
}

/// Relies on `Rope::line`: line `i` with its line feed, if it has one; it
/// panics for `i >= len_lines()`.
#[verifier::external_body]
pub(crate) fn rope_line(r: &ropey::Rope, i: usize) -> (s: String)
    requires
        i < lines_of(rope_text(*r)).len(),
    ensures
        s@ == lines_of(rope_text(*r))[i as int],
{
    r.line(i).to_string()
}

/// Relies on `Rope::insert`: `s` put in at character index `at`; it panics for
/// `at > len_chars()`.
#[verifier::external_body]
pub(crate) fn rope_insert(r: &mut ropey::Rope, at: usize, s: &str)
    requires
        at <= rope_text(*old(r)).len(),
    ensures
        rope_text(*final(r)) == rope_text(*old(r)).take(at as int) + s@ + rope_text(
            *old(r),
        ).skip(at as int),
{
    r.insert(at, s)
}

/// Relies on `Rope::remove`: the characters in `start..end` taken out; it
/// panics unless `start <= end <= len_chars()`.
#[verifier::external_body]
pub(crate) fn rope_remove(r: &mut ropey::Rope, start: usize, end: usize)
    requires
        start <= end <= rope_text(*old(r)).len(),
    ensures
        rope_text(*final(r)) == rope_text(*old(r)).take(start as int) + rope_text(*old(r)).skip(
            end as int,
        ),
{
    r.remove(start..end)
}

/// Relies on `Rope`'s `Display` (through `to_string`): all the characters held.
#[verifier::external_body]
pub(crate) fn rope_to_string(r: &ropey::Rope) -> (s: String)
    ensures
        s@ == rope_text(*r),
{
    r.to_string()
}

/// Relies on `str::chars`: the characters of `s`, in order.
#[verifier::external_body]
pub(crate) fn chars_of(s: &str) -> (v: Vec<char>)
    ensures
        v@ == s@,
{
    s.chars().collect()
}

/// Relies on `String`'s `FromIterator<&char>`: a string of exactly these characters.
#[verifier::external_body]
pub(crate) fn string_of(v: &Vec<char>) -> (s: String)
    ensures
        s@ == v@,
{
    v.iter().collect()
}

} // verus!
