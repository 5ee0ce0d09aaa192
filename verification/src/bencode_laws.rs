//! Laws of the bencode grammar: a value reads the same whatever stands behind it, and every
//! document reads as the value that it denotes.

use vstd::prelude::*;

use crate::bencode_parser::{
    decimal, dict_entries, in_number, is_digit, law_string_consumes_front,
    law_value_consumes_front, lemma_run_bytes, list_items, number_text, parse_dict, parse_list,
    parse_number, parse_string, parse_value, run_len, starts_with, BencodeNumberParsingError,
    Outcome, Value, COLON, DICT_START, END, LIST_START, MINUS, NUMBER_START,
};
use crate::text::{decimal_digits, law_decimal_digits};

verus! {

proof fn lemma_run_followed(s: Seq<u8>, t: Seq<u8>, signed: bool)
    requires
        run_len(s, signed) < s.len(),
    ensures
        run_len(s + t, signed) == run_len(s, signed),
    decreases s.len(),
{
    if in_number(s[0], signed) {
        lemma_run_followed(s.drop_first(), t, signed);
        assert((s + t).drop_first() =~= s.drop_first() + t);
    }
}

/// A byte string reads the same whatever bytes stand behind it.
pub proof fn law_string_ignores_what_follows(s: Seq<u8>, t: Seq<u8>)
    ensures
        parse_string(s) matches Outcome::Done(bytes, rest) ==> parse_string(s + t)
            == Outcome::Done(bytes, rest + t),
{
    if let Outcome::Done(bytes, rest) = parse_string(s) {
        let n = run_len(s, false) as int;
        lemma_run_bytes(s, false);
        lemma_run_followed(s, t, false);
        assert((s + t).take(n) =~= s.take(n));
        assert((s + t).skip(n) =~= s.skip(n) + t);
        assert((s + t).skip(n + 1) =~= s.skip(n + 1) + t);
        let len = decimal(s.take(n)) as int;
        assert((s + t).skip(n + 1).take(len) =~= s.skip(n + 1).take(len));
        assert((s + t).skip(n + 1).skip(len) =~= s.skip(n + 1).skip(len) + t);
    }
}

proof fn lemma_number_ignores_what_follows(s: Seq<u8>, t: Seq<u8>)
    ensures
        parse_number(s) matches Outcome::Done(number, rest) ==> parse_number(s + t)
            == Outcome::Done(number, rest + t),
{
    if let Outcome::Done(number, rest) = parse_number(s) {
        let body = s.drop_first();
        let n = run_len(body, true) as int;
        assert((s + t).drop_first() =~= body + t);
        lemma_run_bytes(body, true);
        lemma_run_followed(body, t, true);
        assert((body + t).take(n) =~= body.take(n));
        assert((body + t).skip(n) =~= body.skip(n) + t);
        assert((body.skip(n) + t).drop_first() =~= body.skip(n).drop_first() + t);
    }
}

/// A value reads the same whatever bytes stand behind it: they are returned as the rest.
pub proof fn law_value_ignores_what_follows(s: Seq<u8>, t: Seq<u8>)
    ensures
        parse_value(s) matches Outcome::Done(value, rest) ==> parse_value(s + t)
            == Outcome::Done(value, rest + t),
    decreases s.len(), 1nat,
{
    if s.len() > 0 {
        assert((s + t)[0] == s[0]);
        assert((s + t).drop_first() =~= s.drop_first() + t);
        if s[0] == NUMBER_START {
            lemma_number_ignores_what_follows(s, t);
        } else if s[0] == LIST_START {
            if let Outcome::Done(items, rest) = parse_list(s) {
                lemma_items_ignore_what_follows(s.drop_first(), Seq::empty(), t);
                if let Outcome::Done(_, inner) = list_items(s.drop_first(), Seq::empty()) {
                    assert((inner + t).drop_first() =~= inner.drop_first() + t);
                }
            }
        } else if s[0] == DICT_START {
            if let Outcome::Done(map, rest) = parse_dict(s) {
                lemma_entries_ignore_what_follows(s.drop_first(), Map::empty(), t);
                if let Outcome::Done(_, inner) = dict_entries(s.drop_first(), Map::empty()) {
                    assert((inner + t).drop_first() =~= inner.drop_first() + t);
                }
            }
        } else {
            law_string_ignores_what_follows(s, t);
        }
    }
}

/// Nothing that can be read begins with the closing byte.
proof fn lemma_end_is_no_value(s: Seq<u8>)
    requires
        starts_with(s, END),
    ensures
        parse_value(s) matches Outcome::Fail(false, _, _),
        parse_string(s) matches Outcome::Fail(false, _, _),
{
    assert(!in_number(s[0], false));
}

proof fn lemma_items_ignore_what_follows(s: Seq<u8>, before: Seq<Value>, t: Seq<u8>)
    ensures
        list_items(s, before) matches Outcome::Done(items, rest) ==> starts_with(rest, END)
            ==> list_items(s + t, before) == Outcome::Done(items, rest + t),
    decreases s.len(), 2nat,
{
    if let Outcome::Done(items, rest) = list_items(s, before) {
        if starts_with(rest, END) {
            match parse_value(s) {
                Outcome::Done(item, tail) => {
                    law_value_consumes_front(s);
                    law_value_ignores_what_follows(s, t);
                    lemma_items_ignore_what_follows(tail, before.push(item), t);
                },
                Outcome::Fail(_, _, _) => {
                    assert((s + t)[0] == s[0]);
                    lemma_end_is_no_value(s + t);
                },
            }
        }
    }
}

proof fn lemma_entries_ignore_what_follows(
    s: Seq<u8>,
    before: Map<Seq<u8>, Value>,
    t: Seq<u8>,
)
    ensures
        dict_entries(s, before) matches Outcome::Done(map, rest) ==> starts_with(rest, END)
            ==> dict_entries(s + t, before) == Outcome::Done(map, rest + t),
    decreases s.len(), 2nat,
{
    if let Outcome::Done(map, rest) = dict_entries(s, before) {
        if starts_with(rest, END) {
            match parse_string(s) {
                Outcome::Done(key, middle) => {
                    law_string_consumes_front(s);
                    law_string_ignores_what_follows(s, t);
                    match parse_value(middle) {
                        Outcome::Done(value, tail) => {
                            law_value_consumes_front(middle);
                            law_value_ignores_what_follows(middle, t);
                            lemma_entries_ignore_what_follows(
                                tail,
                                before.insert(key, value),
                                t,
                            );
                        },
                        Outcome::Fail(_, _, _) => {
                            lemma_end_is_no_value(s);
                        },
                    }
                },
                Outcome::Fail(_, _, _) => {
                    assert((s + t)[0] == s[0]);
                    lemma_end_is_no_value(s + t);
                },
            }
        }
    }
}

/// A document, as it is written down: the entries of a dictionary stand in some order, and a
/// key may occur again.
pub enum Document {
    Number(int),
    Bytes(Seq<u8>),
    List(Seq<Document>),
    Dict(Seq<(Seq<u8>, Document)>),
}

/// A byte string as bencode: its length in decimal, a colon, and its bytes.
pub open spec fn encode_bytes(bytes: Seq<u8>) -> Seq<u8> {
    decimal_digits(bytes.len()).push(COLON) + bytes
}

/// A number in decimal, with a minus sign where it is negative.
pub open spec fn encode_number(n: int) -> Seq<u8> {
    if n < 0 {
        seq![MINUS] + decimal_digits((-n) as nat)
    } else {
        decimal_digits(n as nat)
    }
}

/// The bencode of a document.
pub open spec fn encode(d: Document) -> Seq<u8>
    decreases d,
{
    match d {
        Document::Number(n) => seq![NUMBER_START] + encode_number(n) + seq![END],
        Document::Bytes(bytes) => encode_bytes(bytes),
        Document::List(items) => seq![LIST_START] + encode_items(items) + seq![END],
        Document::Dict(entries) => seq![DICT_START] + encode_entries(entries) + seq![END],
    }
}

/// The items of a list, one behind the other.
pub open spec fn encode_items(items: Seq<Document>) -> Seq<u8>
    decreases items,
{
    if items.len() == 0 {
        Seq::empty()
    } else {
        encode(items[0]) + encode_items(items.subrange(1, items.len() as int))
    }
}

/// The entries of a dictionary, one behind the other.
pub open spec fn encode_entries(entries: Seq<(Seq<u8>, Document)>) -> Seq<u8>
    decreases entries,
{
    if entries.len() == 0 {
        Seq::empty()
    } else {
        encode_bytes(entries[0].0) + encode(entries[0].1) + encode_entries(
            entries.subrange(1, entries.len() as int),
        )
    }
}

/// The value that a document denotes.
pub open spec fn denotes(d: Document) -> Value
    decreases d,
{
    match d {
        Document::Number(n) => Value::Number(n),
        Document::Bytes(bytes) => Value::Bytes(bytes),
        Document::List(items) => Value::List(items_denote(items)),
        Document::Dict(entries) => Value::Dict(entries_denote(entries, Map::empty())),
    }
}

/// The values of the items of a list.
pub open spec fn items_denote(items: Seq<Document>) -> Seq<Value>
    decreases items,
{
    if items.len() == 0 {
        Seq::empty()
    } else {
        seq![denotes(items[0])] + items_denote(items.subrange(1, items.len() as int))
    }
}

/// The map that the entries of a dictionary make on top of `before`: of two entries with one
/// key the later counts.
pub open spec fn entries_denote(
    entries: Seq<(Seq<u8>, Document)>,
    before: Map<Seq<u8>, Value>,
) -> Map<Seq<u8>, Value>
    decreases entries,
{
    if entries.len() == 0 {
        before
    } else {
        entries_denote(
            entries.subrange(1, entries.len() as int),
            before.insert(entries[0].0, denotes(entries[0].1)),
        )
    }
}

/// Whether the machine can hold the numbers and the byte strings of a document.
pub open spec fn representable(d: Document) -> bool
    decreases d,
{
    match d {
        Document::Number(n) => i64::MIN <= n <= i64::MAX,
        Document::Bytes(bytes) => bytes.len() <= usize::MAX,
        Document::List(items) => forall|i: int|
            #![trigger items[i]]
            0 <= i < items.len() ==> representable(items[i]),
        Document::Dict(entries) => forall|i: int|
            #![trigger entries[i]]
            0 <= i < entries.len() ==> entries[i].0.len() <= usize::MAX && representable(
                entries[i].1,
            ),
    }
}

/// A string of bytes of a number in front of another byte is a run.
pub proof fn lemma_run_of(run: Seq<u8>, rest: Seq<u8>, signed: bool)
    requires
        forall|i: int| 0 <= i < run.len() ==> in_number(#[trigger] run[i], signed),
        rest.len() > 0,
        !in_number(rest[0], signed),
    ensures
        run_len(run + rest, signed) == run.len(),
    decreases run.len(),
{
    if run.len() > 0 {
        let tail = run.drop_first();
        assert forall|i: int| 0 <= i < tail.len() implies in_number(#[trigger] tail[i], signed) by {
            assert(tail[i] == run[i + 1]);
        }
        lemma_run_of(tail, rest, signed);
        assert((run + rest).drop_first() =~= tail + rest);
        assert((run + rest)[0] == run[0]);
    } else {
        assert(run + rest =~= rest);
    }
}

/// A byte string that was written down reads as itself, whatever stands behind it.
pub proof fn law_string_reads_back(bytes: Seq<u8>, t: Seq<u8>)
    requires
        bytes.len() <= usize::MAX,
    ensures
        parse_string(encode_bytes(bytes) + t) == Outcome::Done(bytes, t),
{
    let digits = decimal_digits(bytes.len());
    let s = encode_bytes(bytes) + t;
    let tail = seq![COLON] + bytes + t;
    law_decimal_digits(bytes.len());
    assert(s =~= digits + tail);
    assert forall|i: int| 0 <= i < digits.len() implies in_number(#[trigger] digits[i], false) by {
        assert(is_digit(digits[i]));
    }
    lemma_run_of(digits, tail, false);
    let n = digits.len() as int;
    assert(s.take(n) =~= digits);
    assert(s.skip(n) =~= tail);
    assert(s.skip(n + 1) =~= bytes + t);
    assert((bytes + t).take(bytes.len() as int) =~= bytes);
    assert((bytes + t).skip(bytes.len() as int) =~= t);
}

proof fn lemma_number_text_reads_back(n: int)
    requires
        i64::MIN <= n <= i64::MAX,
    ensures
        number_text(encode_number(n)) == Ok::<int, BencodeNumberParsingError>(n),
        encode_number(n).len() > 0,
        forall|i: int|
            0 <= i < encode_number(n).len() ==> in_number(#[trigger] encode_number(n)[i], true),
{
    let text = encode_number(n);
    let magnitude: nat = if n < 0 {
        (-n) as nat
    } else {
        n as nat
    };
    let digits = decimal_digits(magnitude);
    law_decimal_digits(magnitude);
    assert forall|i: int| 0 <= i < digits.len() implies digits[i] != MINUS by {
        assert(is_digit(digits[i]));
    }
    if n < 0 {
        assert(text.drop_first() =~= digits);
        assert forall|i: int| 0 <= i < text.len() implies in_number(#[trigger] text[i], true) by {
            if i > 0 {
                assert(text[i] == digits[i - 1]);
                assert(is_digit(digits[i - 1]));
            }
        }
    } else {
        assert(text == digits);
        assert forall|i: int| 0 <= i < text.len() implies in_number(#[trigger] text[i], true) by {
            assert(is_digit(digits[i]));
        }
    }
}

/// Every document whose numbers and byte strings the machine can hold reads as the value that
/// it denotes, whatever stands behind it.
pub proof fn law_document_reads_back(d: Document, t: Seq<u8>)
    requires
        representable(d),
    ensures
        parse_value(encode(d) + t) == Outcome::Done(denotes(d), t),
    decreases d, 0nat,
{
    let s = encode(d) + t;
    match d {
        Document::Number(n) => {
            let text = encode_number(n);
            let tail = seq![END] + t;
            let body = s.drop_first();
            lemma_number_text_reads_back(n);
            assert(body =~= text + tail);
            lemma_run_of(text, tail, true);
            assert(body.take(text.len() as int) =~= text);
            assert(body.skip(text.len() as int) =~= tail);
            assert(tail.drop_first() =~= t);
        },
        Document::Bytes(bytes) => {
            law_string_reads_back(bytes, t);
            law_decimal_digits(bytes.len());
            assert(s[0] == decimal_digits(bytes.len())[0]);
            assert(is_digit(decimal_digits(bytes.len())[0]));
        },
        Document::List(items) => {
            let tail = seq![END] + t;
            assert(s.drop_first() =~= encode_items(items) + tail);
            lemma_items_read_back(items, Seq::empty(), tail);
            assert(Seq::<Value>::empty() + items_denote(items) =~= items_denote(items));
            assert(tail.drop_first() =~= t);
        },
        Document::Dict(entries) => {
            let tail = seq![END] + t;
            assert(s.drop_first() =~= encode_entries(entries) + tail);
            lemma_entries_read_back(entries, Map::empty(), tail);
            assert(tail.drop_first() =~= t);
        },
    }
}

proof fn lemma_items_read_back(items: Seq<Document>, before: Seq<Value>, tail: Seq<u8>)
    requires
        forall|i: int| #![trigger items[i]] 0 <= i < items.len() ==> representable(items[i]),
        starts_with(tail, END),
    ensures
        list_items(encode_items(items) + tail, before) == Outcome::Done(
            before + items_denote(items),
            tail,
        ),
    decreases items, 1nat,
{
    if items.len() == 0 {
        assert(encode_items(items) + tail =~= tail);
        assert(before + items_denote(items) =~= before);
        lemma_end_is_no_value(tail);
    } else {
        let others = items.subrange(1, items.len() as int);
        let rest = encode_items(others) + tail;
        assert(encode_items(items) + tail =~= encode(items[0]) + rest);
        assert(representable(items[0]));
        law_document_reads_back(items[0], rest);
        law_value_consumes_front(encode(items[0]) + rest);
        assert forall|i: int|
            #![trigger others[i]]
            0 <= i < others.len() implies representable(others[i]) by {
            assert(others[i] == items[i + 1]);
        }
        lemma_items_read_back(others, before.push(denotes(items[0])), tail);
        assert(before.push(denotes(items[0])) + items_denote(others) =~= before + items_denote(
            items,
        ));
    }
}

proof fn lemma_entries_read_back(
    entries: Seq<(Seq<u8>, Document)>,
    before: Map<Seq<u8>, Value>,
    tail: Seq<u8>,
)
    requires
        forall|i: int|
            #![trigger entries[i]]
            0 <= i < entries.len() ==> entries[i].0.len() <= usize::MAX && representable(
                entries[i].1,
            ),
        starts_with(tail, END),
    ensures
        dict_entries(encode_entries(entries) + tail, before) == Outcome::Done(
            entries_denote(entries, before),
            tail,
        ),
    decreases entries, 1nat,
{
    if entries.len() == 0 {
        assert(encode_entries(entries) + tail =~= tail);
        lemma_end_is_no_value(tail);
    } else {
        let others = entries.subrange(1, entries.len() as int);
        let (key, value) = entries[0];
        let rest = encode_entries(others) + tail;
        let middle = encode(value) + rest;
        assert(encode_entries(entries) + tail =~= encode_bytes(key) + middle);
        law_string_reads_back(key, middle);
        law_string_consumes_front(encode_bytes(key) + middle);
        law_document_reads_back(value, rest);
        law_value_consumes_front(middle);
        assert forall|i: int|
            #![trigger others[i]]
            0 <= i < others.len() implies others[i].0.len() <= usize::MAX && representable(
            others[i].1,
        ) by {
            assert(others[i] == entries[i + 1]);
        }
        lemma_entries_read_back(others, before.insert(key, denotes(value)), tail);
    }
}

/// What a dictionary holds for a key: of several entries with the key the last counts.
pub open spec fn last_entry(entries: Seq<(Seq<u8>, Document)>, key: Seq<u8>) -> Option<Document>
    decreases entries.len(),
{
    if entries.len() == 0 {
        None
    } else if entries.last().0 == key {
        Some(entries.last().1)
    } else {
        last_entry(entries.drop_last(), key)
    }
}

proof fn lemma_entries_denote_last(
    entries: Seq<(Seq<u8>, Document)>,
    before: Map<Seq<u8>, Value>,
)
    requires
        entries.len() > 0,
    ensures
        entries_denote(entries, before) == entries_denote(entries.drop_last(), before).insert(
            entries.last().0,
            denotes(entries.last().1),
        ),
    decreases entries.len(),
{
    let others = entries.subrange(1, entries.len() as int);
    let more = before.insert(entries[0].0, denotes(entries[0].1));
    if entries.len() == 1 {
        assert(others =~= Seq::<(Seq<u8>, Document)>::empty());
        assert(entries.drop_last() =~= Seq::<(Seq<u8>, Document)>::empty());
        assert(entries_denote(others, more) == more);
        assert(entries_denote(entries.drop_last(), before) == before);
    } else {
        lemma_entries_denote_last(others, more);
        let init = entries.drop_last();
        assert(others.drop_last() =~= init.subrange(1, init.len() as int));
        assert(others.last() == entries.last());
        assert(init[0] == entries[0]);
    }
}

/// The map of a dictionary has exactly the keys of its entries, each with the value of the last
/// entry that has the key.
pub proof fn law_last_entry_counts(entries: Seq<(Seq<u8>, Document)>, key: Seq<u8>)
    ensures
        entries_denote(entries, Map::empty()).contains_key(key) <==> last_entry(
            entries,
            key,
        ) is Some,
        last_entry(entries, key) matches Some(d) ==> entries_denote(entries, Map::empty())[key]
            == denotes(d),
    decreases entries.len(),
{
    if entries.len() > 0 {
        lemma_entries_denote_last(entries, Map::empty());
        law_last_entry_counts(entries.drop_last(), key);
    }
}

/// The values of the items of a list, one by one.
pub proof fn lemma_items_denote(items: Seq<Document>)
    ensures
        items_denote(items).len() == items.len(),
        forall|i: int|
            0 <= i < items.len() ==> #[trigger] items_denote(items)[i] == denotes(items[i]),
    decreases items.len(),
{
    if items.len() > 0 {
        let others = items.subrange(1, items.len() as int);
        lemma_items_denote(others);
        assert forall|i: int| 0 <= i < items.len() implies #[trigger] items_denote(items)[i]
            == denotes(items[i]) by {
            if i > 0 {
                assert(items_denote(items)[i] == items_denote(others)[i - 1]);
                assert(others[i - 1] == items[i]);
            }
        }
    }
}

/// Entries one behind the other are written one behind the other.
pub proof fn lemma_encode_entries(
    a: Seq<(Seq<u8>, Document)>,
    b: Seq<(Seq<u8>, Document)>,
)
    ensures
        encode_entries(a + b) == encode_entries(a) + encode_entries(b),
    decreases a.len(),
{
    if a.len() == 0 {
        assert(a + b =~= b);
        assert(encode_entries(a) + encode_entries(b) =~= encode_entries(b));
    } else {
        let others = a.subrange(1, a.len() as int);
        lemma_encode_entries(others, b);
        assert((a + b).subrange(1, (a + b).len() as int) =~= others + b);
        assert((a + b)[0] == a[0]);
        assert(encode_entries(a + b) =~= encode_entries(a) + encode_entries(b));
    }
}

} // verus!
