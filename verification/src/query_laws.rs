//! Laws of the announcement: what the tracker reads off its query is what we meant to tell it.

use vstd::prelude::*;
use vstd::utf8::{encode_utf8, is_ascii_chars_encode_utf8};

use crate::text::{ascii, decimal_digits, law_decimal_digits, lemma_ascii};
use crate::torrent_parser::{total_length, TorrentView};
use crate::tracker::{
    escaped_hash, hash_byte, hash_keeps, hex_value, then_pair, tracker_query,
};
use crate::url_query::{
    first_of, form_byte, form_encoded, form_keeps, form_pair, fragment, front, is_alphanumeric,
    lemma_first_of, lemma_first_of_behind, lemma_parts, lemma_shape, percent_encoded, places_fit,
    upper_hex_digit, with_query, without_fragment, AMPERSAND, EQUALS, HASH, QUESTION,
};

verus! {

/// What a text in the encoding of HTML forms stands for: a `+` for a space, `%` and two hexadecimal
/// digits for a byte, and any other byte for itself.
pub open spec fn form_decoded(s: Seq<u8>) -> Seq<u8>
    decreases s.len(),
{
    if s.len() == 0 {
        Seq::empty()
    } else if s[0] == 0x2b {
        seq![0x20u8] + form_decoded(s.skip(1))
    } else if s[0] == 0x25 && s.len() >= 3 {
        seq![(16 * hex_value(s[1]) + hex_value(s[2])) as u8] + form_decoded(s.skip(3))
    } else {
        seq![s[0]] + form_decoded(s.skip(1))
    }
}

/// The parts of a query between the `&`.
pub open spec fn parts_of(query: Seq<u8>) -> Seq<Seq<u8>>
    decreases query.len(),
{
    let at = first_of(query, AMPERSAND);
    if 0 <= at < query.len() {
        seq![query.take(at)] + parts_of(query.skip(at + 1))
    } else {
        seq![query]
    }
}

/// The name and the value that a part of a query stands for: those in front of and behind its first
/// `=`.
pub open spec fn pair_in(part: Seq<u8>) -> (Seq<u8>, Seq<u8>) {
    let at = first_of(part, EQUALS);
    (form_decoded(part.take(at)), form_decoded(part.skip(at + 1)))
}

/// The pairs that a tracker reads off a query.
pub open spec fn pairs_in(query: Seq<u8>) -> Seq<(Seq<u8>, Seq<u8>)> {
    parts_of(query).map_values(|part: Seq<u8>| pair_in(part))
}

/// The query of a URL: what stands behind the first `?`, up to the fragment.
pub open spec fn query_of(url: Seq<u8>) -> Seq<u8> {
    without_fragment(url).skip(front(url).len() + 1int)
}

/// Whether a byte does not end a value in a query, nor the query itself.
spec fn inside(b: u8) -> bool {
    b != AMPERSAND && b != EQUALS && b != HASH
}

/// Whether that holds of all bytes.
spec fn all_inside(s: Seq<u8>) -> bool {
    forall|i: int| 0 <= i < s.len() ==> inside(#[trigger] s[i])
}

/// A byte as `%` and two hexadecimal digits is read as that byte.
proof fn lemma_decode_percent(b: u8, rest: Seq<u8>)
    ensures
        form_decoded(percent_encoded(b) + rest) == seq![b] + form_decoded(rest),
        all_inside(percent_encoded(b)),
{
    let s = percent_encoded(b) + rest;
    assert(s[0] == 0x25);
    assert(s[1] == upper_hex_digit(b / 16));
    assert(s[2] == upper_hex_digit(b % 16));
    assert(s.skip(3) =~= rest);
    assert(16 * hex_value(s[1]) + hex_value(s[2]) == b);
}

/// A byte that is neither `+` nor `%` is read as itself.
proof fn lemma_decode_plain(b: u8, rest: Seq<u8>)
    requires
        b != 0x2b,
        b != 0x25,
    ensures
        form_decoded(seq![b] + rest) == seq![b] + form_decoded(rest),
{
    assert((seq![b] + rest).skip(1) =~= rest);
}

proof fn lemma_decode_form(bytes: Seq<u8>, rest: Seq<u8>)
    ensures
        form_decoded(form_encoded(bytes) + rest) == bytes + form_decoded(rest),
        all_inside(form_encoded(bytes)),
    decreases bytes.len(),
{
    if bytes.len() > 0 {
        let init = bytes.drop_last();
        let b = bytes.last();
        let tail = form_byte(b) + rest;
        lemma_decode_form(init, tail);
        assert(form_encoded(bytes) + rest =~= form_encoded(init) + tail);
        if form_keeps(b) {
            lemma_decode_plain(b, rest);
        } else if b == 0x20 {
            assert(tail.skip(1) =~= rest);
        } else {
            lemma_decode_percent(b, rest);
        }
        assert(form_decoded(tail) == seq![b] + form_decoded(rest));
        assert(init + (seq![b] + form_decoded(rest)) =~= bytes + form_decoded(rest));
        let all = form_encoded(bytes);
        assert forall|i: int| 0 <= i < all.len() implies inside(#[trigger] all[i]) by {
            let n = form_encoded(init).len();
            if i < n {
                assert(all[i] == form_encoded(init)[i]);
            } else {
                assert(all[i] == form_byte(b)[i - n]);
                lemma_decode_percent(b, rest);
            }
        }
    } else {
        assert(form_encoded(bytes) + rest =~= rest);
        assert(bytes + form_decoded(rest) =~= form_decoded(rest));
    }
}

proof fn lemma_decode_hash(bytes: Seq<u8>, rest: Seq<u8>)
    ensures
        form_decoded(escaped_hash(bytes) + rest) == bytes + form_decoded(rest),
        all_inside(escaped_hash(bytes)),
    decreases bytes.len(),
{
    if bytes.len() > 0 {
        let init = bytes.drop_last();
        let b = bytes.last();
        let tail = hash_byte(b) + rest;
        lemma_decode_hash(init, tail);
        assert(escaped_hash(bytes) + rest =~= escaped_hash(init) + tail);
        if hash_keeps(b) {
            lemma_decode_plain(b, rest);
        } else {
            lemma_decode_percent(b, rest);
        }
        assert(form_decoded(tail) == seq![b] + form_decoded(rest));
        assert(init + (seq![b] + form_decoded(rest)) =~= bytes + form_decoded(rest));
        let all = escaped_hash(bytes);
        assert forall|i: int| 0 <= i < all.len() implies inside(#[trigger] all[i]) by {
            let n = escaped_hash(init).len();
            if i < n {
                assert(all[i] == escaped_hash(init)[i]);
            } else {
                assert(all[i] == hash_byte(b)[i - n]);
                lemma_decode_percent(b, rest);
            }
        }
    } else {
        assert(escaped_hash(bytes) + rest =~= rest);
        assert(bytes + form_decoded(rest) =~= form_decoded(rest));
    }
}

/// What is written in the encoding of forms is read as it was.
pub proof fn law_forms_read_back(bytes: Seq<u8>)
    ensures
        form_decoded(form_encoded(bytes)) == bytes,
{
    lemma_decode_form(bytes, Seq::empty());
    assert(form_encoded(bytes) + Seq::<u8>::empty() =~= form_encoded(bytes));
    assert(form_decoded(Seq::<u8>::empty()) =~= Seq::<u8>::empty());
    assert(bytes + Seq::<u8>::empty() =~= bytes);
}

/// A letter, a digit, or one of `.-_~%`.
pub open spec fn is_safe(b: u8) -> bool {
    is_alphanumeric(b) || b == 0x2e || b == 0x2d || b == 0x5f || b == 0x7e || b == 0x25
}

/// The escaped info hash is read as the info hash, as the value of a form is read, whatever its
/// bytes. It holds nothing but letters, digits, `.-_~`, and `%` in front of two hexadecimal digits.
pub proof fn law_info_hash_is_a_form_value(bytes: Seq<u8>)
    ensures
        form_decoded(escaped_hash(bytes)) == bytes,
        forall|i: int|
            0 <= i < escaped_hash(bytes).len() ==> is_safe(#[trigger] escaped_hash(bytes)[i]),
{
    lemma_decode_hash(bytes, Seq::empty());
    assert(escaped_hash(bytes) + Seq::<u8>::empty() =~= escaped_hash(bytes));
    assert(form_decoded(Seq::<u8>::empty()) =~= Seq::<u8>::empty());
    assert(bytes + Seq::<u8>::empty() =~= bytes);
    lemma_hash_alphabet(bytes);
}

proof fn lemma_hash_alphabet(bytes: Seq<u8>)
    ensures
        forall|i: int|
            0 <= i < escaped_hash(bytes).len() ==> is_safe(#[trigger] escaped_hash(bytes)[i]),
    decreases bytes.len(),
{
    if bytes.len() > 0 {
        let init = bytes.drop_last();
        lemma_hash_alphabet(init);
        let all = escaped_hash(bytes);
        assert forall|i: int| 0 <= i < all.len() implies is_safe(#[trigger] all[i]) by {
            let n = escaped_hash(init).len();
            if i < n {
                assert(all[i] == escaped_hash(init)[i]);
            } else {
                assert(all[i] == hash_byte(bytes.last())[i - n]);
            }
        }
    }
}

/// A query without `&` is one part.
proof fn lemma_one_part(part: Seq<u8>)
    requires
        forall|i: int| 0 <= i < part.len() ==> #[trigger] part[i] != AMPERSAND,
    ensures
        parts_of(part) == seq![part],
{
    lemma_first_of_behind(part, Seq::empty(), AMPERSAND);
    assert(part + Seq::<u8>::empty() =~= part);
}

/// What stands behind a further `&` is a further part.
proof fn lemma_further_part(query: Seq<u8>, part: Seq<u8>)
    requires
        forall|i: int| 0 <= i < part.len() ==> #[trigger] part[i] != AMPERSAND,
    ensures
        parts_of(query + seq![AMPERSAND] + part) == parts_of(query).push(part),
    decreases query.len(),
{
    let longer = query + seq![AMPERSAND] + part;
    let at = first_of(query, AMPERSAND);
    lemma_first_of(query, AMPERSAND);
    if at < query.len() {
        let head = query.take(at);
        let tail = query.skip(at + 1);
        assert forall|i: int| 0 <= i < head.len() implies #[trigger] head[i] != AMPERSAND by {
            assert(head[i] == query[i]);
        }
        let rest = seq![AMPERSAND] + (tail + seq![AMPERSAND] + part);
        assert(longer =~= head + rest);
        lemma_first_of_behind(head, rest, AMPERSAND);
        assert(first_of(longer, AMPERSAND) == at);
        assert(longer.take(at) =~= head);
        assert(longer.skip(at + 1) =~= tail + seq![AMPERSAND] + part);
        lemma_further_part(tail, part);
        assert(seq![head] + parts_of(tail).push(part) =~= (seq![head] + parts_of(tail)).push(part));
    } else {
        lemma_first_of_behind(query, seq![AMPERSAND] + part, AMPERSAND);
        assert(longer =~= query + (seq![AMPERSAND] + part));
        assert(first_of(longer, AMPERSAND) == query.len());
        assert(longer.take(query.len() as int) =~= query);
        assert(longer.skip(query.len() + 1int) =~= part);
        lemma_one_part(part);
        assert(seq![query] + seq![part] =~= seq![query].push(part));
    }
}

/// A pair is read as its name and its value.
proof fn lemma_pair(name: Seq<char>, value: Seq<char>)
    ensures
        pair_in(form_pair(name, value)) == (encode_utf8(name), encode_utf8(value)),
        forall|i: int|
            0 <= i < form_pair(name, value).len() ==> #[trigger] form_pair(name, value)[i]
                != AMPERSAND && form_pair(name, value)[i] != HASH,
{
    let n = form_encoded(encode_utf8(name));
    let v = form_encoded(encode_utf8(value));
    let part = form_pair(name, value);
    law_forms_read_back(encode_utf8(name));
    law_forms_read_back(encode_utf8(value));
    lemma_decode_form(encode_utf8(name), Seq::empty());
    lemma_decode_form(encode_utf8(value), Seq::empty());
    assert forall|i: int| 0 <= i < n.len() implies #[trigger] n[i] != EQUALS by {
        assert(inside(n[i]));
    }
    lemma_first_of_behind(n, seq![EQUALS] + v, EQUALS);
    assert(part =~= n + (seq![EQUALS] + v));
    assert(first_of(part, EQUALS) == n.len());
    assert(part.take(n.len() as int) =~= n);
    assert(part.skip(n.len() + 1int) =~= v);
    assert forall|i: int| 0 <= i < part.len() implies #[trigger] part[i] != AMPERSAND && part[i]
        != HASH by {
        if i < n.len() {
            assert(part[i] == n[i]);
            assert(inside(n[i]));
        } else if i > n.len() {
            assert(part[i] == v[i - n.len() - 1]);
            assert(inside(v[i - n.len() - 1]));
        }
    }
}

/// A further pair in a query is a further pair that is read.
proof fn lemma_then_pair(query: Seq<u8>, name: Seq<char>, value: Seq<char>)
    ensures
        pairs_in(then_pair(query, name, value)) == pairs_in(query).push(
            (encode_utf8(name), encode_utf8(value)),
        ),
        (forall|i: int| 0 <= i < query.len() ==> #[trigger] query[i] != HASH) ==> forall|i: int|
            0 <= i < then_pair(query, name, value).len() ==> #[trigger] then_pair(
                query,
                name,
                value,
            )[i] != HASH,
{
    let part = form_pair(name, value);
    lemma_pair(name, value);
    lemma_further_part(query, part);
    assert(pairs_in(then_pair(query, name, value)) =~= pairs_in(query).push(
        (encode_utf8(name), encode_utf8(value)),
    ));
    let longer = then_pair(query, name, value);
    if forall|i: int| 0 <= i < query.len() ==> #[trigger] query[i] != HASH {
        assert forall|i: int| 0 <= i < longer.len() implies #[trigger] longer[i] != HASH by {
            if i < query.len() {
                assert(longer[i] == query[i]);
            } else if i > query.len() {
                assert(longer[i] == part[i - query.len() - 1]);
            }
        }
    }
}

/// The first pair of an announcement is read as the info hash.
#[verifier::rlimit(40)]
proof fn lemma_hash_pair(info_hash: Seq<u8>)
    ensures
        ({
            let query = encode_utf8("info_hash="@) + escaped_hash(info_hash);
            &&& pairs_in(query) == seq![(encode_utf8("info_hash"@), info_hash)]
            &&& forall|i: int| 0 <= i < query.len() ==> #[trigger] query[i] != HASH
        }),
{
    reveal_strlit("info_hash=");
    reveal_strlit("info_hash");
    is_ascii_chars_encode_utf8("info_hash="@);
    is_ascii_chars_encode_utf8("info_hash"@);
    let name = encode_utf8("info_hash"@);
    let key = encode_utf8("info_hash="@);
    let hash = escaped_hash(info_hash);
    let query = key + hash;
    assert forall|i: int| 0 <= i < 9 implies #[trigger] name[i] == "info_hash"@[i] as u8 by {
        assert("info_hash"@[i] as u8 == name[i]);
    }
    assert forall|i: int| 0 <= i < 10 implies #[trigger] key[i] == "info_hash="@[i] as u8 by {
        assert("info_hash="@[i] as u8 == key[i]);
    }
    assert(key =~= name.push(EQUALS));
    assert forall|i: int| 0 <= i < name.len() implies form_keeps(#[trigger] name[i]) by {}
    lemma_kept(name);
    lemma_decode_form(name, Seq::empty());
    law_forms_read_back(name);
    law_info_hash_is_a_form_value(info_hash);
    lemma_decode_hash(info_hash, Seq::empty());
    assert forall|i: int| 0 <= i < query.len() implies #[trigger] query[i] != AMPERSAND && query[i]
        != HASH by {
        if i < 9 {
            assert(query[i] == name[i]);
            assert(inside(form_encoded(name)[i]));
        } else if i > 9 {
            assert(query[i] == hash[i - 10]);
            assert(inside(hash[i - 10]));
        }
    }
    lemma_one_part(query);
    assert forall|i: int| 0 <= i < name.len() implies #[trigger] name[i] != EQUALS by {
        assert(inside(form_encoded(name)[i]));
    }
    assert(query =~= name + (seq![EQUALS] + hash));
    lemma_first_of_behind(name, seq![EQUALS] + hash, EQUALS);
    assert(first_of(query, EQUALS) == 9);
    assert(query.take(9) =~= name);
    assert(query.skip(10) =~= hash);
    assert(pairs_in(query) =~= seq![(name, info_hash)]);
}

/// Bytes that stand for themselves are their own encoding.
proof fn lemma_kept(bytes: Seq<u8>)
    requires
        forall|i: int| 0 <= i < bytes.len() ==> form_keeps(#[trigger] bytes[i]),
    ensures
        form_encoded(bytes) == bytes,
    decreases bytes.len(),
{
    if bytes.len() > 0 {
        let init = bytes.drop_last();
        assert forall|i: int| 0 <= i < init.len() implies form_keeps(#[trigger] init[i]) by {
            assert(init[i] == bytes[i]);
        }
        lemma_kept(init);
        assert(form_keeps(bytes[bytes.len() - 1]));
        assert(form_encoded(bytes) =~= bytes);
    } else {
        assert(form_encoded(bytes) =~= bytes);
    }
}

/// What we tell a tracker: the info hash, the port that we listen on, that nothing has been
/// uploaded or downloaded, that we want a compact answer, that the download begins, the length of
/// all files in decimal, and our peer ID.
pub open spec fn announced_pairs(torrent: TorrentView, port: Seq<char>, peer_id: Seq<char>) -> Seq<
    (Seq<u8>, Seq<u8>),
> {
    seq![
        (encode_utf8("info_hash"@), torrent.info_hash),
        (encode_utf8("port"@), encode_utf8(port)),
        (encode_utf8("uploaded"@), encode_utf8("0"@)),
        (encode_utf8("downloaded"@), encode_utf8("0"@)),
        (encode_utf8("compact"@), encode_utf8("1"@)),
        (encode_utf8("event"@), encode_utf8("started"@)),
        (encode_utf8("left"@), decimal_digits(total_length(torrent.info.files) as nat)),
        (encode_utf8("peer_id"@), encode_utf8(peer_id)),
    ]
}

/// A tracker that splits the query of an announcement at each `&`, and each part at its first `=`,
/// and decodes the values as those of a form, finds what we tell it and nothing else, for every
/// torrent, port and peer ID. The query holds no `#`.
#[verifier::rlimit(40)]
pub proof fn law_tracker_finds_what_we_tell(
    torrent: TorrentView,
    port: Seq<char>,
    peer_id: Seq<char>,
)
    ensures
        pairs_in(tracker_query(torrent, port, peer_id)) == announced_pairs(torrent, port, peer_id),
        forall|i: int|
            0 <= i < tracker_query(torrent, port, peer_id).len() ==> #[trigger] tracker_query(
                torrent,
                port,
                peer_id,
            )[i] != HASH,
{
    let digits = decimal_digits(total_length(torrent.info.files) as nat);
    law_decimal_digits(total_length(torrent.info.files) as nat);
    assert forall|i: int| 0 <= i < digits.len() implies #[trigger] digits[i] < 0x80 by {}
    lemma_ascii(digits);
    let left = ascii(digits);
    lemma_hash_pair(torrent.info_hash);
    let q0 = encode_utf8("info_hash="@) + escaped_hash(torrent.info_hash);
    lemma_then_pair(q0, "port"@, port);
    let q1 = then_pair(q0, "port"@, port);
    lemma_then_pair(q1, "uploaded"@, "0"@);
    let q2 = then_pair(q1, "uploaded"@, "0"@);
    lemma_then_pair(q2, "downloaded"@, "0"@);
    let q3 = then_pair(q2, "downloaded"@, "0"@);
    lemma_then_pair(q3, "compact"@, "1"@);
    let q4 = then_pair(q3, "compact"@, "1"@);
    lemma_then_pair(q4, "event"@, "started"@);
    let q5 = then_pair(q4, "event"@, "started"@);
    lemma_then_pair(q5, "left"@, left);
    let q6 = then_pair(q5, "left"@, left);
    lemma_then_pair(q6, "peer_id"@, peer_id);
    assert(then_pair(q6, "peer_id"@, peer_id) == tracker_query(torrent, port, peer_id));
    assert(pairs_in(tracker_query(torrent, port, peer_id)) =~= announced_pairs(
        torrent,
        port,
        peer_id,
    ));
}

/// The announcement goes to the tracker's own URL, whatever query that had: the rest of the URL is
/// kept, and the tracker finds in the query what we tell it.
pub proof fn law_announcement_reaches_tracker(
    url: Seq<u8>,
    torrent: TorrentView,
    port: Seq<char>,
    peer_id: Seq<char>,
)
    ensures
        ({
            let sent = with_query(url, tracker_query(torrent, port, peer_id));
            &&& front(sent) == front(url)
            &&& fragment(sent) == fragment(url)
            &&& pairs_in(query_of(sent)) == announced_pairs(torrent, port, peer_id)
        }),
{
    let query = tracker_query(torrent, port, peer_id);
    law_tracker_finds_what_we_tell(torrent, port, peer_id);
    lemma_shape(url);
    lemma_parts(front(url), query, fragment(url));
    assert(query_of(with_query(url, query)) =~= query);
}

/// A URL without fragment can be announced to whenever the place of its query fits in 32 bits, and
/// any URL that stays shorter than 32 bits count with the announcement in place of its query.
pub proof fn law_what_can_be_announced(url: Seq<u8>, query: Seq<u8>)
    ensures
        fragment(url).len() == 0 ==> (places_fit(url, query) <==> front(url).len() <= u32::MAX),
        url.len() + 1 + query.len() <= u32::MAX ==> places_fit(url, query),
        fragment(url).len() > 0 ==> (places_fit(url, query) <==> url.len() - fragment(url).len()
            < u32::MAX && front(url).len() + 1 + query.len() <= u32::MAX),
{
    lemma_shape(url);
    lemma_first_of(url, HASH);
    lemma_first_of(without_fragment(url), QUESTION);
}

} // verus!
