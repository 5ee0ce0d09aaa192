//! Laws of what is no bencode: a value is read only off bytes that spell it.

use vstd::prelude::*;

use crate::bencode_laws::{encode_number, lemma_run_of};
use crate::bencode_parser::{
    decimal, dict_entries, in_number, is_digit, law_string_consumes_front,
    law_value_consumes_front, lemma_list_value, lemma_run_bytes, list_items, number_text,
    parse_dict, parse_list, parse_number, parse_string, parse_value, run_len, starts_with, Bencode,
    ErrorKind, Outcome, Value, COLON, DICT_START, END, LIST_START, MINUS, NUMBER_START, ZERO,
};
use crate::dict::Dict;
use crate::text::{decimal_digits, law_decimal_digits};

verus! {

/// The bytes of a value, taken apart. With a byte string goes the text of its length, which may
/// have leading zeroes.
pub enum Source {
    Number(int),
    Bytes(Seq<u8>, Seq<u8>),
    List(Seq<Source>),
    Dict(Seq<(Seq<u8>, Seq<u8>, Source)>),
}

/// Whether a text is the length of a byte string in decimal.
pub open spec fn is_length(digits: Seq<u8>, bytes: Seq<u8>) -> bool {
    &&& digits.len() > 0
    &&& forall|i: int| 0 <= i < digits.len() ==> is_digit(#[trigger] digits[i])
    &&& decimal(digits) == bytes.len()
}

/// A byte string behind the text of its length and a colon.
pub open spec fn spelled_bytes(digits: Seq<u8>, bytes: Seq<u8>) -> Seq<u8> {
    digits.push(COLON) + bytes
}

/// The bytes that a source spells.
pub open spec fn spelled(source: Source) -> Seq<u8>
    decreases source,
{
    match source {
        Source::Number(n) => seq![NUMBER_START] + encode_number(n) + seq![END],
        Source::Bytes(digits, bytes) => spelled_bytes(digits, bytes),
        Source::List(items) => seq![LIST_START] + spelled_items(items) + seq![END],
        Source::Dict(entries) => seq![DICT_START] + spelled_entries(entries) + seq![END],
    }
}

/// The bytes of items, one behind the other.
pub open spec fn spelled_items(items: Seq<Source>) -> Seq<u8>
    decreases items,
{
    if items.len() == 0 {
        Seq::empty()
    } else {
        spelled(items[0]) + spelled_items(items.subrange(1, items.len() as int))
    }
}

/// The bytes of entries, one behind the other.
pub open spec fn spelled_entries(entries: Seq<(Seq<u8>, Seq<u8>, Source)>) -> Seq<u8>
    decreases entries,
{
    if entries.len() == 0 {
        Seq::empty()
    } else {
        spelled_bytes(entries[0].0, entries[0].1) + spelled(entries[0].2) + spelled_entries(
            entries.subrange(1, entries.len() as int),
        )
    }
}

/// The value that a source means.
pub open spec fn meaning(source: Source) -> Value
    decreases source,
{
    match source {
        Source::Number(n) => Value::Number(n),
        Source::Bytes(_, bytes) => Value::Bytes(bytes),
        Source::List(items) => Value::List(items_meaning(items)),
        Source::Dict(entries) => Value::Dict(entries_meaning(entries, Map::empty())),
    }
}

/// The values of items.
pub open spec fn items_meaning(items: Seq<Source>) -> Seq<Value>
    decreases items,
{
    if items.len() == 0 {
        Seq::empty()
    } else {
        seq![meaning(items[0])] + items_meaning(items.subrange(1, items.len() as int))
    }
}

/// The map that entries make on top of `before`: of two entries with one key the later counts.
pub open spec fn entries_meaning(
    entries: Seq<(Seq<u8>, Seq<u8>, Source)>,
    before: Map<Seq<u8>, Value>,
) -> Map<Seq<u8>, Value>
    decreases entries,
{
    if entries.len() == 0 {
        before
    } else {
        entries_meaning(
            entries.subrange(1, entries.len() as int),
            before.insert(entries[0].1, meaning(entries[0].2)),
        )
    }
}

/// Whether the lengths of all byte strings are right, and all numbers fit in 64 bits.
pub open spec fn is_proper(source: Source) -> bool
    decreases source,
{
    match source {
        Source::Number(n) => i64::MIN <= n <= i64::MAX,
        Source::Bytes(digits, bytes) => is_length(digits, bytes),
        Source::List(items) => forall|i: int|
            #![trigger items[i]]
            0 <= i < items.len() ==> is_proper(items[i]),
        Source::Dict(entries) => forall|i: int|
            #![trigger entries[i]]
            0 <= i < entries.len() ==> is_length(entries[i].0, entries[i].1) && is_proper(
                entries[i].2,
            ),
    }
}

/// A text of digits without needless zeroes in front is the only such text of its number.
proof fn lemma_digits_are_unique(digits: Seq<u8>)
    requires
        digits.len() > 0,
        forall|i: int| 0 <= i < digits.len() ==> is_digit(#[trigger] digits[i]),
        digits[0] != ZERO || digits.len() == 1,
    ensures
        decimal_digits(decimal(digits)) == digits,
    decreases digits.len(),
{
    let n = decimal(digits);
    let last = digits.last();
    assert(is_digit(digits[digits.len() - 1]));
    let init = digits.drop_last();
    if digits.len() == 1 {
        assert(init =~= Seq::<u8>::empty());
        assert(decimal(init) == 0);
        assert(n == last - ZERO);
        assert(decimal_digits(n) =~= digits);
    } else {
        assert forall|i: int| 0 <= i < init.len() implies is_digit(#[trigger] init[i]) by {
            assert(init[i] == digits[i]);
        }
        assert(init[0] == digits[0]);
        lemma_digits_are_unique(init);
        let m = decimal(init);
        law_decimal_digits(m);
        assert(m > 0);
        assert(n == m * 10 + (last - ZERO));
        assert(n / 10 == m && n % 10 == last - ZERO);
        assert(decimal_digits(n) =~= digits);
    }
}

/// A number is read off one text only.
proof fn lemma_number_text(text: Seq<u8>, n: int)
    requires
        number_text(text) matches Ok(number) && number == n,
        forall|i: int| 0 <= i < text.len() ==> in_number(#[trigger] text[i], true),
    ensures
        text == encode_number(n),
        i64::MIN <= n <= i64::MAX,
{
    let negative = text.len() > 0 && text[0] == MINUS;
    let digits = if negative {
        text.drop_first()
    } else {
        text
    };
    assert forall|i: int| 0 <= i < digits.len() implies is_digit(#[trigger] digits[i]) by {
        let k = if negative { i + 1 } else { i };
        assert(digits[i] == text[k]);
        assert(in_number(text[k], true));
        assert(digits.contains(digits[i]));
    }
    lemma_digits_are_unique(digits);
    law_decimal_digits(decimal(digits));
    if negative {
        assert(decimal(digits) > 0);
        assert(text =~= seq![MINUS] + digits);
    }
}

/// A byte string is read only off the text of its length, a colon and its bytes.
pub proof fn law_strings_are_spelled(s: Seq<u8>) -> (digits: Seq<u8>)
    ensures
        parse_string(s) matches Outcome::Done(bytes, rest) ==> is_length(digits, bytes) && s
            == spelled_bytes(digits, bytes) + rest,
{
    let n = run_len(s, false) as int;
    lemma_run_bytes(s, false);
    let digits = s.take(n);
    if let Outcome::Done(bytes, rest) = parse_string(s) {
        assert forall|i: int| 0 <= i < digits.len() implies is_digit(#[trigger] digits[i]) by {
            assert(in_number(s[i], false));
        }
        assert(s.skip(n)[0] == s[n]);
        assert(s =~= spelled_bytes(digits, bytes) + rest);
    }
    digits
}

/// A number is read only off an `i`, its text in decimal without needless zeroes, and an `e`.
pub proof fn law_numbers_are_spelled(s: Seq<u8>)
    ensures
        parse_number(s) matches Outcome::Done(n, rest) ==> i64::MIN <= n <= i64::MAX && s
            == seq![NUMBER_START] + encode_number(n) + seq![END] + rest,
{
    if let Outcome::Done(number, rest) = parse_number(s) {
        let body = s.drop_first();
        let n = run_len(body, true) as int;
        lemma_run_bytes(body, true);
        let text = body.take(n);
        assert forall|i: int| 0 <= i < text.len() implies in_number(#[trigger] text[i], true) by {
            assert(text[i] == body[i]);
        }
        lemma_number_text(text, number);
        assert(body.skip(n)[0] == body[n]);
        assert(body =~= text + seq![END] + rest);
        assert(s =~= seq![NUMBER_START] + body);
        assert(s =~= seq![NUMBER_START] + encode_number(number) + seq![END] + rest);
    }
}

/// Every value that is read is what a source means whose bytes stand at the front of the input, and
/// what is left is what stands behind them. So nothing else is read as a value.
#[verifier::rlimit(40)]
pub proof fn law_values_are_spelled(s: Seq<u8>) -> (source: Source)
    ensures
        parse_value(s) matches Outcome::Done(value, rest) ==> is_proper(source) && meaning(source)
            == value && s == spelled(source) + rest,
    decreases s.len(), 1nat,
{
    if starts_with(s, NUMBER_START) {
        law_numbers_are_spelled(s);
        if let Outcome::Done(n, _) = parse_number(s) {
            Source::Number(n)
        } else {
            arbitrary()
        }
    } else if starts_with(s, LIST_START) {
        let items = lemma_items_are_spelled(s.drop_first(), Seq::empty());
        let source = Source::List(items);
        if let Outcome::Done(values, rest) = parse_list(s) {
            if let Outcome::Done(_, inner) = list_items(s.drop_first(), Seq::empty()) {
                assert(Seq::<Value>::empty() + items_meaning(items) =~= items_meaning(items));
                assert(inner =~= seq![END] + rest);
                assert(s =~= seq![LIST_START] + s.drop_first());
                assert(s =~= spelled(source) + rest);
            }
        }
        source
    } else if starts_with(s, DICT_START) {
        let entries = lemma_entries_are_spelled(s.drop_first(), Map::empty());
        let source = Source::Dict(entries);
        if let Outcome::Done(map, rest) = parse_dict(s) {
            if let Outcome::Done(_, inner) = dict_entries(s.drop_first(), Map::empty()) {
                assert(inner =~= seq![END] + rest);
                assert(s =~= seq![DICT_START] + s.drop_first());
                assert(s =~= spelled(source) + rest);
            }
        }
        source
    } else {
        let digits = law_strings_are_spelled(s);
        if let Outcome::Done(bytes, _) = parse_string(s) {
            Source::Bytes(digits, bytes)
        } else {
            arbitrary()
        }
    }
}

#[verifier::rlimit(40)]
proof fn lemma_items_are_spelled(s: Seq<u8>, before: Seq<Value>) -> (items: Seq<Source>)
    ensures
        list_items(s, before) matches Outcome::Done(values, rest) ==> (forall|i: int|
            #![trigger items[i]]
            0 <= i < items.len() ==> is_proper(items[i])) && values == before + items_meaning(items)
            && s == spelled_items(items) + rest,
    decreases s.len(), 2nat,
{
    law_value_consumes_front(s);
    if let Outcome::Done(value, tail) = parse_value(s) {
        let first = law_values_are_spelled(s);
        let others = lemma_items_are_spelled(tail, before.push(value));
        let items = seq![first] + others;
        if let Outcome::Done(values, rest) = list_items(s, before) {
            assert(items.subrange(1, items.len() as int) =~= others);
            assert forall|i: int|
                #![trigger items[i]]
                0 <= i < items.len() implies is_proper(items[i]) by {
                if i > 0 {
                    assert(items[i] == others[i - 1]);
                }
            }
            assert(before.push(value) + items_meaning(others) =~= before + items_meaning(items));
            assert(s =~= spelled_items(items) + rest);
        }
        items
    } else {
        let items = Seq::<Source>::empty();
        assert(before + items_meaning(items) =~= before);
        assert(spelled_items(items) + s =~= s);
        items
    }
}

#[verifier::rlimit(40)]
proof fn lemma_entries_are_spelled(s: Seq<u8>, before: Map<Seq<u8>, Value>) -> (entries: Seq<
    (Seq<u8>, Seq<u8>, Source),
>)
    ensures
        dict_entries(s, before) matches Outcome::Done(map, rest) ==> (forall|i: int|
            #![trigger entries[i]]
            0 <= i < entries.len() ==> is_length(entries[i].0, entries[i].1) && is_proper(
                entries[i].2,
            )) && map == entries_meaning(entries, before) && s == spelled_entries(entries) + rest,
    decreases s.len(), 2nat,
{
    let none = Seq::<(Seq<u8>, Seq<u8>, Source)>::empty();
    assert(spelled_entries(none) + s =~= s);
    law_string_consumes_front(s);
    if let Outcome::Done(key, middle) = parse_string(s) {
        let digits = law_strings_are_spelled(s);
        law_value_consumes_front(middle);
        if let Outcome::Done(value, tail) = parse_value(middle) {
            let source = law_values_are_spelled(middle);
            let others = lemma_entries_are_spelled(tail, before.insert(key, value));
            let first = (digits, key, source);
            let entries = seq![first] + others;
            if let Outcome::Done(map, rest) = dict_entries(s, before) {
                assert(entries.subrange(1, entries.len() as int) =~= others);
                assert forall|i: int|
                    #![trigger entries[i]]
                    0 <= i < entries.len() implies is_length(entries[i].0, entries[i].1)
                    && is_proper(entries[i].2) by {
                    if i > 0 {
                        assert(entries[i] == others[i - 1]);
                    }
                }
                assert(s =~= spelled_entries(entries) + rest);
            }
            entries
        } else {
            none
        }
    } else {
        none
    }
}

/// A byte string reads back from any text of its length, leading zeroes or not, whatever stands
/// behind it.
pub proof fn law_spelled_strings_read_back(digits: Seq<u8>, bytes: Seq<u8>, t: Seq<u8>)
    requires
        is_length(digits, bytes),
        bytes.len() <= usize::MAX,
    ensures
        parse_string(spelled_bytes(digits, bytes) + t) == Outcome::Done(bytes, t),
        parse_value(spelled_bytes(digits, bytes) + t) == Outcome::Done(Value::Bytes(bytes), t),
{
    let s = spelled_bytes(digits, bytes) + t;
    let tail = seq![COLON] + bytes + t;
    assert(s =~= digits + tail);
    assert forall|i: int| 0 <= i < digits.len() implies in_number(#[trigger] digits[i], false) by {
        assert(is_digit(digits[i]));
    }
    lemma_run_of(digits, tail, false);
    let n = digits.len() as int;
    assert(s.take(n) =~= digits);
    assert(s.skip(n) =~= tail);
    assert(s.skip(n + 1) =~= bytes + t);
    assert((bytes + t).take(bytes.len() as int) =~= bytes);
    assert((bytes + t).skip(bytes.len() as int) =~= t);
    assert(s[0] == digits[0]);
    assert(is_digit(digits[0]));
}

/// A bencoded value is seen as what it holds.
pub proof fn law_values_are_seen_as_they_are(n: i64, bytes: Vec<u8>, list: Vec<Bencode>, dict: Dict)
    ensures
        Bencode::Number(n)@ == Value::Number(n as int),
        Bencode::ByteString(bytes)@ == Value::Bytes(bytes@),
        Bencode::List(list)@ matches Value::List(items) && items.len() == list@.len() && forall|
            i: int,
        |
            0 <= i < items.len() ==> #[trigger] items[i] == list@[i]@,
        Bencode::Dict(dict)@ == Value::Dict(dict.map()),
{
    lemma_list_value(list);
}

/// Whether the front of an input settles that a value begins there: by an `i`, an `l` or a `d`, or
/// by the length of a byte string, as long as such a length fits in the address space.
pub open spec fn begins_value(s: Seq<u8>) -> bool {
    s.len() > 0 && (s[0] == NUMBER_START || s[0] == LIST_START || s[0] == DICT_START || (is_digit(
        s[0],
    ) && decimal(s.take(run_len(s, false) as int)) <= usize::MAX))
}

/// Whether `end` is what is left of `s` at some place.
pub open spec fn is_end_of(s: Seq<u8>, end: Seq<u8>) -> bool {
    end.len() <= s.len() && end == s.skip(s.len() - end.len())
}

proof fn lemma_end_of_rest(s: Seq<u8>, rest: Seq<u8>, end: Seq<u8>)
    requires
        is_end_of(s, rest),
        is_end_of(rest, end),
    ensures
        is_end_of(s, end),
{
    assert(end =~= s.skip(s.len() - end.len()));
}

proof fn lemma_string_failure(s: Seq<u8>)
    ensures
        parse_string(s) matches Outcome::Fail(fatal, at, _) ==> is_end_of(s, at) && (fatal
            <==> s.len() > 0 && is_digit(s[0]) && decimal(s.take(run_len(s, false) as int))
            <= usize::MAX),
{
    lemma_run_bytes(s, false);
    if let Outcome::Fail(_, at, _) = parse_string(s) {
        assert(at =~= s.skip(s.len() - at.len()));
    }
}

/// A failure says where in the input it came. It is fatal if and only if a value had been begun;
/// otherwise it came at the front, for want of a first byte that begins one.
pub proof fn law_failures_say_where(s: Seq<u8>)
    ensures
        parse_value(s) matches Outcome::Fail(fatal, at, kind) ==> is_end_of(s, at) && (fatal
            <==> begins_value(s)) && (!fatal ==> at == s && kind == ErrorKind::Tag),
    decreases s.len(), 1nat,
{
    assert(s.skip(0) =~= s);
    if starts_with(s, NUMBER_START) {
        let body = s.drop_first();
        assert(is_end_of(s, body)) by {
            assert(body =~= s.skip(s.len() - body.len()));
        }
        lemma_run_bytes(body, true);
        if let Outcome::Fail(_, at, _) = parse_number(s) {
            assert(at =~= s.skip(s.len() - at.len()));
        }
    } else if starts_with(s, LIST_START) {
        let body = s.drop_first();
        assert(is_end_of(s, body)) by {
            assert(body =~= s.skip(s.len() - body.len()));
        }
        lemma_items_failure(body, Seq::empty());
        if let Outcome::Fail(_, at, _) = parse_list(s) {
            lemma_end_of_rest(s, body, at);
        }
    } else if starts_with(s, DICT_START) {
        let body = s.drop_first();
        assert(is_end_of(s, body)) by {
            assert(body =~= s.skip(s.len() - body.len()));
        }
        lemma_entries_failure(body, Map::empty());
        if let Outcome::Fail(_, at, _) = parse_dict(s) {
            lemma_end_of_rest(s, body, at);
        }
    } else {
        lemma_string_failure(s);
    }
}

proof fn lemma_items_failure(s: Seq<u8>, before: Seq<Value>)
    ensures
        list_items(s, before) matches Outcome::Fail(fatal, at, _) ==> fatal && is_end_of(s, at),
        list_items(s, before) matches Outcome::Done(_, rest) ==> is_end_of(s, rest),
    decreases s.len(), 2nat,
{
    assert(s.skip(0) =~= s);
    law_value_consumes_front(s);
    law_failures_say_where(s);
    if let Outcome::Done(item, tail) = parse_value(s) {
        lemma_items_failure(tail, before.push(item));
        match list_items(s, before) {
            Outcome::Done(_, rest) => {
                lemma_end_of_rest(s, tail, rest);
            },
            Outcome::Fail(_, at, _) => {
                lemma_end_of_rest(s, tail, at);
            },
        }
    }
}

#[verifier::rlimit(40)]
proof fn lemma_entries_failure(s: Seq<u8>, before: Map<Seq<u8>, Value>)
    ensures
        dict_entries(s, before) matches Outcome::Fail(fatal, at, _) ==> fatal && is_end_of(s, at),
        dict_entries(s, before) matches Outcome::Done(_, rest) ==> is_end_of(s, rest),
    decreases s.len(), 2nat,
{
    assert(s.skip(0) =~= s);
    law_string_consumes_front(s);
    lemma_string_failure(s);
    if let Outcome::Done(key, middle) = parse_string(s) {
        law_value_consumes_front(middle);
        law_failures_say_where(middle);
        match parse_value(middle) {
            Outcome::Done(value, tail) => {
                lemma_entries_failure(tail, before.insert(key, value));
                lemma_end_of_rest(s, middle, tail);
                match dict_entries(s, before) {
                    Outcome::Done(_, rest) => {
                        lemma_end_of_rest(s, tail, rest);
                    },
                    Outcome::Fail(_, at, _) => {
                        lemma_end_of_rest(s, tail, at);
                    },
                }
            },
            Outcome::Fail(_, at, _) => {
                lemma_end_of_rest(s, middle, at);
            },
        }
    }
}

} // verus!
