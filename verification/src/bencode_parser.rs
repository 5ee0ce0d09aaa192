//! Reading of bencode, the encoding of torrent files and tracker responses.
//!
//! The grammar stands in the spec functions `parse_value`, `parse_number`, `parse_string`,
//! `parse_list` and `parse_dict`. Each reads a value off the front of its input. A failure is
//! fatal once the first byte has settled which kind of value was begun; a failure that is not
//! fatal means that no value of the kind begins here, and ends a list or a dictionary.

use vstd::prelude::*;
use vstd::slice::{slice_subrange, slice_to_vec};

use crate::dict::Dict;

verus! {

/// `0`
pub const ZERO: u8 = 0x30;

/// `9`
pub const NINE: u8 = 0x39;

/// `-`
pub const MINUS: u8 = 0x2d;

/// `:`, behind the length of a byte string.
pub const COLON: u8 = 0x3a;

/// `i`, in front of a number.
pub const NUMBER_START: u8 = 0x69;

/// `l`, in front of a list.
pub const LIST_START: u8 = 0x6c;

/// `d`, in front of a dictionary.
pub const DICT_START: u8 = 0x64;

/// `e`, behind a number, a list or a dictionary.
pub const END: u8 = 0x65;

/// The mathematical value that a bencoded document denotes.
pub enum Value {
    Number(int),
    Bytes(Seq<u8>),
    List(Seq<Value>),
    Dict(Map<Seq<u8>, Value>),
}

/// A bencoded value.
#[derive(PartialEq, Eq, Debug)]
pub enum Bencode {
    Number(i64),
    ByteString(Vec<u8>),
    List(Vec<Bencode>),
    Dict(Dict),
}

/// The value denoted by `b`.
pub open spec fn value_of(b: Bencode) -> Value
    decreases b,
{
    match b {
        Bencode::Number(n) => Value::Number(n as int),
        Bencode::ByteString(s) => Value::Bytes(s@),
        Bencode::List(l) => Value::List(
            Seq::new(
                l@.len(),
                |i: int|
                    if 0 <= i < l@.len() {
                        value_of(l@[i])
                    } else {
                        arbitrary()
                    },
            ),
        ),
        Bencode::Dict(d) => Value::Dict(d.map()),
    }
}

impl View for Bencode {
    type V = Value;

    open spec fn view(&self) -> Value {
        value_of(*self)
    }
}

impl Bencode {
    /// The number, if this is one.
    pub fn number(self) -> (r: Option<i64>)
        ensures
            r == (match self {
                Bencode::Number(num) => Some(num),
                _ => None,
            }),
    {
        if let Self::Number(num) = self {
            Some(num)
        } else {
            None
        }
    }

    /// The byte string, if this is one.
    pub fn byte_string(self) -> (r: Option<Vec<u8>>)
        ensures
            r == (match self {
                Bencode::ByteString(bytes) => Some(bytes),
                _ => None,
            }),
    {
        if let Self::ByteString(bytes) = self {
            Some(bytes)
        } else {
            None
        }
    }

    /// The list, if this is one.
    pub fn list(self) -> (r: Option<Vec<Bencode>>)
        ensures
            r == (match self {
                Bencode::List(list) => Some(list),
                _ => None,
            }),
    {
        if let Self::List(list) = self {
            Some(list)
        } else {
            None
        }
    }

    /// The dictionary, if this is one.
    pub fn dict(self) -> (r: Option<Dict>)
        ensures
            r == (match self {
                Bencode::Dict(dict) => Some(dict),
                _ => None,
            }),
    {
        if let Self::Dict(dict) = self {
            Some(dict)
        } else {
            None
        }
    }
}

impl Clone for Bencode {
    fn clone(&self) -> (copy: Self)
        ensures
            copy@ == self@,
        decreases self,
    {
        match self {
            Bencode::Number(num) => Bencode::Number(*num),
            Bencode::ByteString(bytes) => Bencode::ByteString(slice_to_vec(bytes.as_slice())),
            Bencode::List(list) => {
                let mut items: Vec<Bencode> = Vec::new();
                for i in 0..list.len()
                    invariant
                        items@.len() == i,
                        forall|j: int|
                            0 <= j < i ==> value_of(#[trigger] items@[j]) == value_of(list@[j]),
                        *self == Bencode::List(*list),
                {
                    proof {
                        assert(decreases_to!(*self => (*self)->List_0));
                        assert(decreases_to!((*self)->List_0 => (*self)->List_0@[i as int]));
                    }
                    items.push(list[i].clone());
                }
                proof {
                    lemma_list_value(items);
                    lemma_list_value(*list);
                    assert(values_of(items@) =~= values_of(list@));
                }
                Bencode::List(items)
            },
            Bencode::Dict(dict) => Bencode::Dict(dict.clone()),
        }
    }
}

/// Why an input is not bencode.
#[non_exhaustive]
#[derive(Debug, Clone, Copy, PartialEq, Eq)]
pub enum BencodeParsingError {
    /// A number is not written as bencode demands.
    InvalidNumber { source: BencodeNumberParsingError },
    /// The input is not valid bencode.
    InvalidBencode,
}

/// Why a text is not a bencoded number.
#[non_exhaustive]
#[derive(Debug, Clone, Copy, PartialEq, Eq)]
pub enum BencodeNumberParsingError {
    /// Zero cannot be negative.
    NegativeZero,
    /// Numbers cannot have leading zeroes.
    LeadingZero,
    /// Numbers cannot be empty.
    EmptyNumber,
    /// The text is no decimal number, or one that does not fit in 64 bits.
    ParseError,
}

/// What the parser was looking for when it failed.
#[derive(Debug, Clone, Copy, PartialEq, Eq)]
pub enum ErrorKind {
    /// A certain byte.
    Tag,
    /// At least one byte of a certain class.
    TakeWhile1,
    /// A text that stands for a number.
    MapRes,
    /// More bytes.
    Eof,
}

/// A failure of the parser.
#[derive(Debug, Clone, Copy, PartialEq, Eq)]
pub struct ParseError<'a> {
    /// Whether a value had been begun, so that no other reading of the input is possible.
    pub fatal: bool,
    /// The input from the place of the failure on.
    pub input: &'a [u8],
    /// What was looked for.
    pub kind: ErrorKind,
}

/// What a parser makes of its input: a value and the input behind it, or a failure.
pub enum Outcome<T> {
    Done(T, Seq<u8>),
    Fail(bool, Seq<u8>, ErrorKind),
}

/// A decimal digit.
pub open spec fn is_digit(b: u8) -> bool {
    ZERO <= b <= NINE
}

/// A byte of a number: a digit or, where `signed`, a minus sign.
pub open spec fn in_number(b: u8, signed: bool) -> bool {
    is_digit(b) || (signed && b == MINUS)
}

/// The number of bytes at the front of `s` that belong to a number.
pub open spec fn run_len(s: Seq<u8>, signed: bool) -> nat
    decreases s.len(),
{
    if s.len() > 0 && in_number(s[0], signed) {
        1 + run_len(s.drop_first(), signed)
    } else {
        0
    }
}

/// The number that a string of decimal digits stands for.
pub open spec fn decimal(digits: Seq<u8>) -> nat
    decreases digits.len(),
{
    if digits.len() == 0 {
        0
    } else {
        decimal(digits.drop_last()) * 10 + (digits.last() - ZERO) as nat
    }
}

/// The number that `text` stands for, or why it stands for none. Leading zeroes and a negative
/// zero are refused.
pub open spec fn number_text(text: Seq<u8>) -> Result<int, BencodeNumberParsingError> {
    let negative = text.len() > 0 && text[0] == MINUS;
    let digits = if negative {
        text.drop_first()
    } else {
        text
    };
    let number = if negative {
        -(decimal(digits) as int)
    } else {
        decimal(digits) as int
    };
    if digits.len() == 0 || digits.contains(MINUS) || !(i64::MIN <= number <= i64::MAX) {
        Err(BencodeNumberParsingError::ParseError)
    } else if negative && digits[0] == ZERO && number == 0 {
        Err(BencodeNumberParsingError::NegativeZero)
    } else if digits[0] == ZERO && (negative || digits.len() > 1) {
        Err(BencodeNumberParsingError::LeadingZero)
    } else {
        Ok(number)
    }
}

/// Whether `s` begins with the byte `b`.
pub open spec fn starts_with(s: Seq<u8>, b: u8) -> bool {
    s.len() > 0 && s[0] == b
}

/// A value whose closing `e` must stand at the front of `rest`.
pub open spec fn closed_by_e<T>(value: T, rest: Seq<u8>) -> Outcome<T> {
    if starts_with(rest, END) {
        Outcome::Done(value, rest.drop_first())
    } else {
        Outcome::Fail(true, rest, ErrorKind::Tag)
    }
}

/// A byte string: its length in decimal, a colon, and its bytes.
pub open spec fn parse_string(s: Seq<u8>) -> Outcome<Seq<u8>> {
    let n = run_len(s, false) as int;
    let len = decimal(s.take(n));
    if n == 0 {
        Outcome::Fail(false, s, ErrorKind::TakeWhile1)
    } else if len > usize::MAX {
        Outcome::Fail(false, s, ErrorKind::MapRes)
    } else if !starts_with(s.skip(n), COLON) {
        Outcome::Fail(true, s.skip(n), ErrorKind::Tag)
    } else if s.skip(n + 1).len() < len {
        Outcome::Fail(true, s.skip(n + 1), ErrorKind::Eof)
    } else {
        Outcome::Done(s.skip(n + 1).take(len as int), s.skip(n + 1).skip(len as int))
    }
}

/// A number: an `i`, the number in decimal, and an `e`.
pub open spec fn parse_number(s: Seq<u8>) -> Outcome<int> {
    if !starts_with(s, NUMBER_START) {
        Outcome::Fail(false, s, ErrorKind::Tag)
    } else {
        let body = s.drop_first();
        let n = run_len(body, true) as int;
        if n == 0 {
            Outcome::Fail(true, body, ErrorKind::TakeWhile1)
        } else {
            match number_text(body.take(n)) {
                Err(_) => Outcome::Fail(true, body, ErrorKind::MapRes),
                Ok(number) => closed_by_e(number, body.skip(n)),
            }
        }
    }
}

/// A value of any kind. The first byte settles the kind. A byte string whose length exceeds the
/// address space counts as no value at all.
pub open spec fn parse_value(s: Seq<u8>) -> Outcome<Value>
    decreases s.len(), 1nat,
{
    if starts_with(s, NUMBER_START) {
        match parse_number(s) {
            Outcome::Done(number, rest) => Outcome::Done(Value::Number(number), rest),
            Outcome::Fail(fatal, at, kind) => Outcome::Fail(fatal, at, kind),
        }
    } else if starts_with(s, LIST_START) {
        match parse_list(s) {
            Outcome::Done(items, rest) => Outcome::Done(Value::List(items), rest),
            Outcome::Fail(fatal, at, kind) => Outcome::Fail(fatal, at, kind),
        }
    } else if starts_with(s, DICT_START) {
        match parse_dict(s) {
            Outcome::Done(map, rest) => Outcome::Done(Value::Dict(map), rest),
            Outcome::Fail(fatal, at, kind) => Outcome::Fail(fatal, at, kind),
        }
    } else {
        match parse_string(s) {
            Outcome::Done(bytes, rest) => Outcome::Done(Value::Bytes(bytes), rest),
            Outcome::Fail(true, at, kind) => Outcome::Fail(true, at, kind),
            Outcome::Fail(false, _, _) => Outcome::Fail(false, s, ErrorKind::Tag),
        }
    }
}

/// A list: an `l`, its items, and an `e`.
pub open spec fn parse_list(s: Seq<u8>) -> Outcome<Seq<Value>>
    decreases s.len(), 0nat,
{
    if !starts_with(s, LIST_START) {
        Outcome::Fail(false, s, ErrorKind::Tag)
    } else {
        match list_items(s.drop_first(), Seq::empty()) {
            Outcome::Done(items, rest) => closed_by_e(items, rest),
            Outcome::Fail(fatal, at, kind) => Outcome::Fail(fatal, at, kind),
        }
    }
}

/// The items at the front of `s`, as many as there are, behind those in `before`.
pub open spec fn list_items(s: Seq<u8>, before: Seq<Value>) -> Outcome<Seq<Value>>
    decreases s.len(), 2nat,
{
    match parse_value(s) {
        Outcome::Fail(false, _, _) => Outcome::Done(before, s),
        Outcome::Fail(true, at, kind) => Outcome::Fail(true, at, kind),
        Outcome::Done(item, rest) => if rest.len() < s.len() {
            list_items(rest, before.push(item))
        } else {
            arbitrary()
        },
    }
}

/// A dictionary: a `d`, its entries, and an `e`.
pub open spec fn parse_dict(s: Seq<u8>) -> Outcome<Map<Seq<u8>, Value>>
    decreases s.len(), 0nat,
{
    if !starts_with(s, DICT_START) {
        Outcome::Fail(false, s, ErrorKind::Tag)
    } else {
        match dict_entries(s.drop_first(), Map::empty()) {
            Outcome::Done(map, rest) => closed_by_e(map, rest),
            Outcome::Fail(fatal, at, kind) => Outcome::Fail(fatal, at, kind),
        }
    }
}

/// The entries at the front of `s`, each a byte string and a value, on top of those in `before`.
/// The last entry of a key counts.
pub open spec fn dict_entries(s: Seq<u8>, before: Map<Seq<u8>, Value>) -> Outcome<
    Map<Seq<u8>, Value>,
>
    decreases s.len(), 2nat,
{
    match parse_string(s) {
        Outcome::Fail(false, _, _) => Outcome::Done(before, s),
        Outcome::Fail(true, at, kind) => Outcome::Fail(true, at, kind),
        Outcome::Done(key, tail) => if tail.len() < s.len() {
            match parse_value(tail) {
                Outcome::Fail(false, _, _) => Outcome::Done(before, s),
                Outcome::Fail(true, at, kind) => Outcome::Fail(true, at, kind),
                Outcome::Done(value, rest) => if rest.len() < s.len() {
                    dict_entries(rest, before.insert(key, value))
                } else {
                    arbitrary()
                },
            }
        } else {
            arbitrary()
        },
    }
}

/// Every byte of a run belongs to the number.
pub proof fn lemma_run_bytes(s: Seq<u8>, signed: bool)
    ensures
        run_len(s, signed) <= s.len(),
        forall|i: int| 0 <= i < run_len(s, signed) ==> in_number(#[trigger] s[i], signed),
    decreases s.len(),
{
    if s.len() > 0 && in_number(s[0], signed) {
        lemma_run_bytes(s.drop_first(), signed);
        assert forall|i: int| 0 <= i < run_len(s, signed) implies in_number(
            #[trigger] s[i],
            signed,
        ) by {
            if i > 0 {
                assert(s.drop_first()[i - 1] == s[i]);
            }
        }
    }
}

/// Further digits make a number no smaller.
proof fn lemma_decimal_take(digits: Seq<u8>, i: int)
    requires
        0 <= i <= digits.len(),
        forall|j: int| 0 <= j < digits.len() ==> is_digit(#[trigger] digits[j]),
    ensures
        decimal(digits.take(i)) <= decimal(digits),
    decreases digits.len(),
{
    if i < digits.len() {
        let init = digits.drop_last();
        assert forall|j: int| 0 <= j < init.len() implies is_digit(#[trigger] init[j]) by {
            assert(init[j] == digits[j]);
        }
        lemma_decimal_take(init, i);
        assert(init.take(i) =~= digits.take(i));
        assert(is_digit(digits.last()));
    } else {
        assert(digits.take(i) =~= digits);
    }
}

/// The length of the run at the front of `s`.
fn take_run(s: &[u8], signed: bool) -> (n: usize)
    ensures
        n == run_len(s@, signed),
        n <= s@.len(),
        forall|i: int| 0 <= i < n ==> in_number(#[trigger] s@[i], signed),
{
    let mut n: usize = 0;
    proof {
        assert(s@.skip(0) =~= s@);
        lemma_run_bytes(s@, signed);
    }
    while n < s.len() && ((ZERO <= s[n] && s[n] <= NINE) || (signed && s[n] == MINUS))
        invariant
            n <= s@.len(),
            run_len(s@, signed) == n + run_len(s@.skip(n as int), signed),
        decreases s@.len() - n,
    {
        proof {
            assert(s@.skip(n as int).drop_first() =~= s@.skip(n + 1));
        }
        n = n + 1;
    }
    n
}

/// The number that `digits` stand for, if it is at most `max`.
fn decimal_up_to(digits: &[u8], max: u64) -> (r: Option<u64>)
    requires
        forall|i: int| 0 <= i < digits@.len() ==> is_digit(#[trigger] digits@[i]),
    ensures
        match r {
            Some(number) => number == decimal(digits@) && number <= max,
            None => decimal(digits@) > max,
        },
{
    let mut number: u64 = 0;
    let mut i: usize = 0;
    while i < digits.len()
        invariant
            i <= digits@.len(),
            number == decimal(digits@.take(i as int)),
            number <= max,
            forall|j: int| 0 <= j < digits@.len() ==> is_digit(#[trigger] digits@[j]),
        decreases digits@.len() - i,
    {
        let digit: u64 = (digits[i] - ZERO) as u64;
        proof {
            assert(digits@.take(i + 1).drop_last() =~= digits@.take(i as int));
            assert(digits@.take(i + 1).last() == digits@[i as int]);
            lemma_decimal_take(digits@, i + 1);
        }
        if digit > max || number > (max - digit) / 10 {
            return None;
        }
        number = number * 10 + digit;
        i = i + 1;
    }
    proof {
        assert(digits@.take(i as int) =~= digits@);
    }
    Some(number)
}

/// The number that a run of digits and minus signs stands for.
fn read_number_text(text: &[u8]) -> (r: Result<i64, BencodeNumberParsingError>)
    requires
        forall|i: int| 0 <= i < text@.len() ==> in_number(#[trigger] text@[i], true),
    ensures
        match r {
            Ok(number) => number_text(text@) == Ok::<int, BencodeNumberParsingError>(
                number as int,
            ),
            Err(e) => number_text(text@) == Err::<int, BencodeNumberParsingError>(e),
        },
{
    let negative: bool = text.len() > 0 && text[0] == MINUS;
    let digits: &[u8] = if negative {
        slice_subrange(text, 1, text.len())
    } else {
        text
    };
    proof {
        if negative {
            assert(digits@ =~= text@.drop_first());
        }
        assert forall|i: int| 0 <= i < digits@.len() implies in_number(
            #[trigger] digits@[i],
            true,
        ) by {
            if negative {
                assert(digits@[i] == text@[i + 1]);
            }
        }
    }
    if digits.len() == 0 {
        return Err(BencodeNumberParsingError::ParseError);
    }
    let plain = take_run(digits, false);
    if plain < digits.len() {
        proof {
            lemma_run_stops(digits@, false);
            assert(digits@[plain as int] == MINUS);
        }
        return Err(BencodeNumberParsingError::ParseError);
    }
    proof {
        assert forall|i: int| 0 <= i < digits@.len() implies digits@[i] != MINUS by {
            assert(in_number(digits@[i], false));
        }
    }
    let limit: u64 = if negative {
        0x8000_0000_0000_0000
    } else {
        0x7fff_ffff_ffff_ffff
    };
    let magnitude: u64 = match decimal_up_to(digits, limit) {
        None => {
            return Err(BencodeNumberParsingError::ParseError);
        },
        Some(magnitude) => magnitude,
    };
    if digits[0] == ZERO && negative {
        if magnitude == 0 {
            return Err(BencodeNumberParsingError::NegativeZero);
        }
        return Err(BencodeNumberParsingError::LeadingZero);
    }
    if digits[0] == ZERO && digits.len() > 1 {
        return Err(BencodeNumberParsingError::LeadingZero);
    }
    if !negative {
        Ok(magnitude as i64)
    } else if magnitude == 0x8000_0000_0000_0000 {
        Ok(i64::MIN)
    } else {
        Ok(-(magnitude as i64))
    }
}

/// A run ends at the end of the input or in front of a byte that is not of the number.
proof fn lemma_run_stops(s: Seq<u8>, signed: bool)
    ensures
        run_len(s, signed) < s.len() ==> !in_number(s[run_len(s, signed) as int], signed),
    decreases s.len(),
{
    if s.len() > 0 && in_number(s[0], signed) {
        lemma_run_stops(s.drop_first(), signed);
    }
}

/// Reads a byte string off the front of `bencode`.
pub fn string<'a>(bencode: &'a [u8]) -> (r: Result<(&'a [u8], Vec<u8>), ParseError<'a>>)
    ensures
        match r {
            Ok((rest, bytes)) => parse_string(bencode@) == Outcome::Done(bytes@, rest@),
            Err(e) => parse_string(bencode@) == Outcome::<Seq<u8>>::Fail(
                e.fatal,
                e.input@,
                e.kind,
            ),
        },
{
    let n = take_run(bencode, false);
    if n == 0 {
        return Err(ParseError { fatal: false, input: bencode, kind: ErrorKind::TakeWhile1 });
    }
    let digits = slice_subrange(bencode, 0, n);
    proof {
        assert(digits@ =~= bencode@.take(n as int));
        assert forall|i: int| 0 <= i < digits@.len() implies is_digit(#[trigger] digits@[i]) by {
            assert(in_number(bencode@[i], false));
        }
    }
    let len: usize = match decimal_up_to(digits, usize::MAX as u64) {
        None => {
            return Err(ParseError { fatal: false, input: bencode, kind: ErrorKind::MapRes });
        },
        Some(len) => len as usize,
    };
    let after_len = slice_subrange(bencode, n, bencode.len());
    proof {
        assert(after_len@ =~= bencode@.skip(n as int));
    }
    if after_len.len() == 0 || after_len[0] != COLON {
        return Err(ParseError { fatal: true, input: after_len, kind: ErrorKind::Tag });
    }
    let body = slice_subrange(bencode, n + 1, bencode.len());
    proof {
        assert(body@ =~= bencode@.skip(n + 1));
    }
    if body.len() < len {
        return Err(ParseError { fatal: true, input: body, kind: ErrorKind::Eof });
    }
    let bytes = slice_to_vec(slice_subrange(body, 0, len));
    let rest = slice_subrange(body, len, body.len());
    proof {
        assert(bytes@ =~= body@.take(len as int));
        assert(rest@ =~= body@.skip(len as int));
    }
    Ok((rest, bytes))
}

/// Reads a number off the front of `bencode`.
pub fn number<'a>(bencode: &'a [u8]) -> (r: Result<(&'a [u8], i64), ParseError<'a>>)
    ensures
        match r {
            Ok((rest, number)) => parse_number(bencode@) == Outcome::Done(number as int, rest@),
            Err(e) => parse_number(bencode@) == Outcome::<int>::Fail(e.fatal, e.input@, e.kind),
        },
{
    if bencode.len() == 0 || bencode[0] != NUMBER_START {
        return Err(ParseError { fatal: false, input: bencode, kind: ErrorKind::Tag });
    }
    let body = slice_subrange(bencode, 1, bencode.len());
    proof {
        assert(body@ =~= bencode@.drop_first());
    }
    let n = take_run(body, true);
    if n == 0 {
        return Err(ParseError { fatal: true, input: body, kind: ErrorKind::TakeWhile1 });
    }
    let text = slice_subrange(body, 0, n);
    proof {
        assert(text@ =~= body@.take(n as int));
    }
    match read_number_text(text) {
        Err(_) => Err(ParseError { fatal: true, input: body, kind: ErrorKind::MapRes }),
        Ok(number) => {
            let rest = slice_subrange(body, n, body.len());
            proof {
                assert(rest@ =~= body@.skip(n as int));
            }
            let rest = end(rest)?;
            Ok((rest, number))
        },
    }
}

/// Takes the closing `e` off the front of `bencode`.
fn end<'a>(bencode: &'a [u8]) -> (r: Result<&'a [u8], ParseError<'a>>)
    ensures
        match r {
            Ok(rest) => starts_with(bencode@, END) && rest@ == bencode@.drop_first(),
            Err(e) => !starts_with(bencode@, END) && e.fatal && e.input@ == bencode@ && e.kind
                == ErrorKind::Tag,
        },
{
    if bencode.len() == 0 || bencode[0] != END {
        return Err(ParseError { fatal: true, input: bencode, kind: ErrorKind::Tag });
    }
    Ok(slice_subrange(bencode, 1, bencode.len()))
}

/// What stands behind a value is a proper suffix of the input.
pub open spec fn is_rest(s: Seq<u8>, rest: Seq<u8>) -> bool {
    rest.len() < s.len() && rest == s.skip(s.len() - rest.len())
}

/// Reading a byte string consumes a front part of the input and leaves the rest as it was.
pub proof fn law_string_consumes_front(s: Seq<u8>)
    ensures
        parse_string(s) matches Outcome::Done(_, rest) ==> is_rest(s, rest),
{
    lemma_run_bytes(s, false);
    if let Outcome::Done(_, rest) = parse_string(s) {
        assert(rest =~= s.skip(s.len() - rest.len()));
    }
}

/// Reading a value consumes at least one byte off the front of the input and leaves the rest as
/// it was. The same holds of the items of a list and the entries of a dictionary, which may be
/// none.
pub proof fn law_value_consumes_front(s: Seq<u8>)
    ensures
        parse_value(s) matches Outcome::Done(_, rest) ==> is_rest(s, rest),
    decreases s.len(), 1nat,
{
    if starts_with(s, NUMBER_START) {
        lemma_run_bytes(s.drop_first(), true);
        if let Outcome::Done(_, rest) = parse_number(s) {
            assert(rest =~= s.skip(s.len() - rest.len()));
        }
    } else if starts_with(s, LIST_START) {
        lemma_items_consume_front(s.drop_first(), Seq::empty());
        if let Outcome::Done(_, rest) = parse_list(s) {
            assert(rest =~= s.skip(s.len() - rest.len()));
        }
    } else if starts_with(s, DICT_START) {
        lemma_entries_consume_front(s.drop_first(), Map::empty());
        if let Outcome::Done(_, rest) = parse_dict(s) {
            assert(rest =~= s.skip(s.len() - rest.len()));
        }
    } else {
        law_string_consumes_front(s);
    }
}

proof fn lemma_items_consume_front(s: Seq<u8>, before: Seq<Value>)
    ensures
        list_items(s, before) matches Outcome::Done(_, rest) ==> rest == s || is_rest(s, rest),
    decreases s.len(), 2nat,
{
    law_value_consumes_front(s);
    if let Outcome::Done(item, tail) = parse_value(s) {
        lemma_items_consume_front(tail, before.push(item));
        if let Outcome::Done(_, rest) = list_items(s, before) {
            assert(rest =~= s.skip(s.len() - rest.len()));
        }
    }
}

proof fn lemma_entries_consume_front(s: Seq<u8>, before: Map<Seq<u8>, Value>)
    ensures
        dict_entries(s, before) matches Outcome::Done(_, rest) ==> rest == s || is_rest(s, rest),
    decreases s.len(), 2nat,
{
    law_string_consumes_front(s);
    if let Outcome::Done(key, middle) = parse_string(s) {
        law_value_consumes_front(middle);
        if let Outcome::Done(value, tail) = parse_value(middle) {
            lemma_entries_consume_front(tail, before.insert(key, value));
            if let Outcome::Done(_, rest) = dict_entries(s, before) {
                assert(rest =~= s.skip(s.len() - rest.len()));
            }
        }
    }
}

/// The values denoted by the elements of a list.
pub open spec fn values_of(items: Seq<Bencode>) -> Seq<Value> {
    items.map_values(|item: Bencode| value_of(item))
}

pub proof fn lemma_list_value(list: Vec<Bencode>)
    ensures
        value_of(Bencode::List(list)) == Value::List(values_of(list@)),
{
    if let Value::List(items) = value_of(Bencode::List(list)) {
        assert(items =~= values_of(list@));
    }
}

/// Reads a list off the front of `bencode`.
pub fn list<'a>(bencode: &'a [u8]) -> (r: Result<(&'a [u8], Vec<Bencode>), ParseError<'a>>)
    ensures
        match r {
            Ok((rest, items)) => parse_list(bencode@) == Outcome::Done(values_of(items@), rest@),
            Err(e) => parse_list(bencode@) == Outcome::<Seq<Value>>::Fail(
                e.fatal,
                e.input@,
                e.kind,
            ),
        },
    decreases bencode@.len(), 0nat,
{
    if bencode.len() == 0 || bencode[0] != LIST_START {
        return Err(ParseError { fatal: false, input: bencode, kind: ErrorKind::Tag });
    }
    let mut rest: &'a [u8] = slice_subrange(bencode, 1, bencode.len());
    let mut items: Vec<Bencode> = Vec::new();
    proof {
        assert(rest@ =~= bencode@.drop_first());
        assert(values_of(items@) =~= Seq::<Value>::empty());
    }
    loop
        invariant
            starts_with(bencode@, LIST_START),
            rest@.len() < bencode@.len(),
            list_items(bencode@.drop_first(), Seq::empty()) == list_items(
                rest@,
                values_of(items@),
            ),
        decreases rest@.len(),
    {
        proof {
            law_value_consumes_front(rest@);
        }
        match parse_bencode(rest) {
            Ok((tail, item)) => {
                let ghost before = items@;
                items.push(item);
                proof {
                    assert(values_of(items@) =~= values_of(before).push(value_of(item)));
                }
                rest = tail;
            },
            Err(e) => {
                if e.fatal {
                    return Err(e);
                }
                let rest = end(rest)?;
                return Ok((rest, items));
            },
        }
    }
}

/// Reads a dictionary off the front of `bencode`.
pub fn dict<'a>(bencode: &'a [u8]) -> (r: Result<(&'a [u8], Dict), ParseError<'a>>)
    ensures
        match r {
            Ok((rest, entries)) => parse_dict(bencode@) == Outcome::Done(entries.map(), rest@),
            Err(e) => parse_dict(bencode@) == Outcome::<Map<Seq<u8>, Value>>::Fail(
                e.fatal,
                e.input@,
                e.kind,
            ),
        },
    decreases bencode@.len(), 0nat,
{
    if bencode.len() == 0 || bencode[0] != DICT_START {
        return Err(ParseError { fatal: false, input: bencode, kind: ErrorKind::Tag });
    }
    let mut rest: &'a [u8] = slice_subrange(bencode, 1, bencode.len());
    let mut entries: Dict = Dict::new();
    proof {
        assert(rest@ =~= bencode@.drop_first());
    }
    loop
        invariant
            starts_with(bencode@, DICT_START),
            rest@.len() < bencode@.len(),
            dict_entries(bencode@.drop_first(), Map::empty()) == dict_entries(
                rest@,
                entries.map(),
            ),
        decreases rest@.len(),
    {
        proof {
            law_string_consumes_front(rest@);
        }
        let (tail, key) = match string(rest) {
            Ok(read) => read,
            Err(e) => {
                if e.fatal {
                    return Err(e);
                }
                let rest = end(rest)?;
                return Ok((rest, entries));
            },
        };
        proof {
            law_value_consumes_front(tail@);
        }
        match parse_bencode(tail) {
            Ok((tail, value)) => {
                entries.insert(key, value);
                rest = tail;
            },
            Err(e) => {
                if e.fatal {
                    return Err(e);
                }
                let rest = end(rest)?;
                return Ok((rest, entries));
            },
        }
    }
}

/// Reads a value off the front of `bencode`. What stands behind the value is returned with it.
pub fn parse_bencode<'a>(bencode: &'a [u8]) -> (r: Result<(&'a [u8], Bencode), ParseError<'a>>)
    ensures
        match r {
            Ok((rest, value)) => parse_value(bencode@) == Outcome::Done(value@, rest@),
            Err(e) => parse_value(bencode@) == Outcome::<Value>::Fail(e.fatal, e.input@, e.kind),
        },
    decreases bencode@.len(), 1nat,
{
    if bencode.len() > 0 && bencode[0] == NUMBER_START {
        let (rest, number) = number(bencode)?;
        Ok((rest, Bencode::Number(number)))
    } else if bencode.len() > 0 && bencode[0] == LIST_START {
        let (rest, items) = list(bencode)?;
        proof {
            lemma_list_value(items);
        }
        Ok((rest, Bencode::List(items)))
    } else if bencode.len() > 0 && bencode[0] == DICT_START {
        let (rest, entries) = dict(bencode)?;
        Ok((rest, Bencode::Dict(entries)))
    } else {
        match string(bencode) {
            Ok((rest, bytes)) => Ok((rest, Bencode::ByteString(bytes))),
            Err(e) => if e.fatal {
                Err(e)
            } else {
                Err(ParseError { fatal: false, input: bencode, kind: ErrorKind::Tag })
            },
        }
    }
}

} // verus!
