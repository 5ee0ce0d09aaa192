//! Writing the texts that `{:?}` shows.

use core::fmt::{Debug, DebugMap, Error, Formatter};
use vstd::prelude::*;

use crate::bencode_parser::{value_of, Bencode, Value};
use crate::text::{ascii, decimal_digits};

verus! {

/// `core::fmt::Formatter`, where a text is written to.
#[verifier::external_type_specification]
#[verifier::external_body]
pub struct ExFormatter<'a>(Formatter<'a>);

/// `core::fmt::Error`, carried through as it is.
#[verifier::external_type_specification]
#[verifier::external_body]
pub struct ExFmtError(Error);

/// What has been written to a formatter.
pub uninterp spec fn formatted(f: Formatter<'_>) -> Seq<char>;

/// Whether a formatter is to show values over several lines (`{:#?}`), and whether it is asked for
/// nothing else, such as a width or hexadecimal numbers.
pub uninterp spec fn options_of(f: Formatter<'_>) -> (bool, bool);

/// `Formatter::write_str` writes a text as it is, whatever the options. If it succeeds, the text
/// stands behind what had been written.
#[verifier::external_body]
pub(crate) fn write_text(f: &mut Formatter<'_>, text: &str) -> (r: Result<(), Error>)
    ensures
        options_of(*final(f)) == options_of(*old(f)),
        r is Ok ==> formatted(*final(f)) == formatted(*old(f)) + text@,
{
    f.write_str(text)
}

/// `Formatter::alternate` tells whether values are to be shown over several lines.
#[verifier::external_body]
pub(crate) fn is_alternate(f: &Formatter<'_>) -> (r: bool)
    ensures
        r == options_of(*f).0,
{
    f.alternate()
}

/// `<u32 as Debug>::fmt` writes a number, in decimal unless the options ask for something else.
#[verifier::external_body]
pub(crate) fn write_number(f: &mut Formatter<'_>, n: u32) -> (r: Result<(), Error>)
    ensures
        options_of(*final(f)) == options_of(*old(f)),
        r is Ok && options_of(*old(f)).1 ==> formatted(*final(f)) == formatted(*old(f)) + ascii(
            decimal_digits(n as nat),
        ),
{
    Debug::fmt(&n, f)
}

/// `core::fmt::DebugMap`, a map that is being shown.
#[verifier::external_type_specification]
#[verifier::external_body]
pub struct ExDebugMap<'a, 'b: 'a>(DebugMap<'a, 'b>);

/// The entries that have been put into a map that is being shown, in their order.
pub uninterp spec fn shown_entries(map: DebugMap<'_, '_>) -> Seq<(Seq<u8>, Value)>;

/// `Formatter::debug_map` begins to show a map.
#[verifier::external_body]
pub(crate) fn begin_map<'a, 'b>(f: &'a mut Formatter<'b>) -> (map: DebugMap<'a, 'b>)
    ensures
        shown_entries(map) == Seq::<(Seq<u8>, Value)>::empty(),
{
    f.debug_map()
}

/// `DebugMap::entry` shows a further entry.
#[verifier::external_body]
pub(crate) fn show_entry(map: &mut DebugMap<'_, '_>, key: &Vec<u8>, value: &Bencode)
    ensures
        shown_entries(*final(map)) == shown_entries(*old(map)).push((key@, value_of(*value))),
{
    map.entry(key, value);
}

/// `DebugMap::finish` ends the showing of a map, and tells whether all of it could be written.
#[verifier::external_body]
pub(crate) fn end_map(map: DebugMap<'_, '_>) -> (r: Result<(), Error>) {
    let mut map = map;
    map.finish()
}

} // verus!
