//! Talking to a tracker: the URL of an announcement, our peer ID, and the peers in the answer.

use rand::Rng;
use reqwest::Url;
use vstd::prelude::*;
use vstd::slice::slice_subrange;
use vstd::utf8::{encode_utf8, is_ascii_chars_encode_utf8};

use crate::bencode_parser::{
    lemma_list_value, parse_bencode, parse_value, value_of, values_of, Bencode, Outcome, Value,
};
use crate::fields::{bytes_field, field, number_field, take_bytes, take_field, take_number};
use crate::tcp_peer_communicator::append_bytes;
use crate::text::{
    ascii, ascii_string, decimal_digits, decimal_text, law_decimal_digits, lemma_ascii,
};
use crate::torrent_parser::{total_length, Torrent, TorrentView};
use crate::url_query::{
    append_pair, bytes_of_url, first_of, form_encoded, form_pair, fragment, front,
    is_alphanumeric, is_plain_query, is_plain_query_byte, lemma_first_of, lemma_pair_behind_query,
    lemma_shape, parse_url, parsed_url, percent_encoded, percent_encoded_byte, places_fit,
    set_query, upper_hex_digit, url_bytes, with_query, without_fragment, AMPERSAND, HASH, QUESTION,
};

verus! {

/// Why there is no URL to announce to.
#[derive(Debug, PartialEq, Eq)]
pub enum TrackerUrlError {
    /// The torrent's tracker is not given by a URL; the message says why.
    InvalidUrl { message: String },
    /// The places of the query and of the fragment in the URL would not fit in 32 bits.
    TooLong,
}

/// Whether a byte of the info hash stands for itself in the query: letters, digits and `.-_~`.
pub open spec fn hash_keeps(b: u8) -> bool {
    is_alphanumeric(b) || b == 0x2e || b == 0x2d || b == 0x5f || b == 0x7e
}

/// A byte of the info hash in the query.
pub open spec fn hash_byte(b: u8) -> Seq<u8> {
    if hash_keeps(b) {
        seq![b]
    } else {
        percent_encoded(b)
    }
}

/// The info hash in the query.
pub open spec fn escaped_hash(bytes: Seq<u8>) -> Seq<u8>
    decreases bytes.len(),
{
    if bytes.len() == 0 {
        Seq::empty()
    } else {
        escaped_hash(bytes.drop_last()) + hash_byte(bytes.last())
    }
}

/// A query with a further pair.
pub open spec fn then_pair(query: Seq<u8>, name: Seq<char>, value: Seq<char>) -> Seq<u8> {
    query + seq![AMPERSAND] + form_pair(name, value)
}

/// The query of an announcement: the info hash, the port that we listen on, how much we have
/// uploaded and downloaded, that we want a compact answer, that the download begins, how much is
/// left of it, and our peer ID.
pub open spec fn tracker_query(torrent: TorrentView, port: Seq<char>, peer_id: Seq<char>) -> Seq<
    u8,
> {
    let q = encode_utf8("info_hash="@) + escaped_hash(torrent.info_hash);
    let q = then_pair(q, "port"@, port);
    let q = then_pair(q, "uploaded"@, "0"@);
    let q = then_pair(q, "downloaded"@, "0"@);
    let q = then_pair(q, "compact"@, "1"@);
    let q = then_pair(q, "event"@, "started"@);
    let q = then_pair(q, "left"@, ascii(decimal_digits(total_length(torrent.info.files) as nat)));
    then_pair(q, "peer_id"@, peer_id)
}

/// The info hash with which the query begins.
#[verifier::rlimit(40)]
fn hash_query(info_hash: &[u8]) -> (query: Vec<u8>)
    ensures
        query@ == encode_utf8("info_hash="@) + escaped_hash(info_hash@),
        is_plain_query(query@),
        query@.len() > 0,
{
    let mut query: Vec<u8> = Vec::new();
    append_bytes(&mut query, "info_hash=".as_bytes());
    proof {
        reveal_strlit("info_hash=");
        is_ascii_chars_encode_utf8("info_hash="@);
        let key = encode_utf8("info_hash="@);
        assert(query@ =~= key);
        assert(escaped_hash(info_hash@.take(0)) =~= Seq::<u8>::empty());
        assert forall|i: int| 0 <= i < query@.len() implies is_plain_query_byte(
            #[trigger] query@[i],
        ) by {
            assert("info_hash="@[i] as u8 == key[i]);
        }
    }
    for i in 0..info_hash.len()
        invariant
            query@ == encode_utf8("info_hash="@) + escaped_hash(info_hash@.take(i as int)),
            is_plain_query(query@),
            query@.len() > 0,
    {
        let b: u8 = info_hash[i];
        let ghost before = query@;
        proof {
            assert(info_hash@.take(i + 1).drop_last() =~= info_hash@.take(i as int));
        }
        if is_letter_or_digit(b) || b == 0x2e || b == 0x2d || b == 0x5f || b == 0x7e {
            query.push(b);
        } else {
            let text = percent_encoded_byte(b);
            proof {
                lemma_ascii(percent_encoded(b));
            }
            append_bytes(&mut query, text.as_bytes());
        }
        proof {
            assert(query@ =~= before + hash_byte(b));
            assert(query@ =~= encode_utf8("info_hash="@) + escaped_hash(info_hash@.take(i + 1)));
            assert forall|j: int| 0 <= j < query@.len() implies is_plain_query_byte(
                #[trigger] query@[j],
            ) by {
                if j < before.len() {
                    assert(query@[j] == before[j]);
                } else {
                    assert(query@[j] == hash_byte(b)[j - before.len()]);
                }
            }
        }
    }
    proof {
        assert(info_hash@.take(info_hash@.len() as int) =~= info_hash@);
    }
    query
}

fn is_letter_or_digit(b: u8) -> (r: bool)
    ensures
        r == is_alphanumeric(b),
{
    (0x30 <= b && b <= 0x39) || (0x41 <= b && b <= 0x5a) || (0x61 <= b && b <= 0x7a)
}

/// Whether a URL is made of a front, a query and a fragment, each of the shape that it must have.
spec fn has_parts(url: Seq<u8>, head: Seq<u8>, query: Seq<u8>, tail: Seq<u8>) -> bool {
    &&& url == head.push(QUESTION) + query + tail
    &&& query.len() > 0
    &&& forall|i: int| 0 <= i < head.len() ==> #[trigger] head[i] != HASH && head[i] != QUESTION
    &&& forall|i: int| 0 <= i < query.len() ==> #[trigger] query[i] != HASH
    &&& tail.len() == 0 || tail[0] == HASH
}

/// Puts a further pair behind a query that is there.
fn extend_query(
    url: &mut Url,
    name: &str,
    value: &str,
    Ghost(head): Ghost<Seq<u8>>,
    Ghost(query): Ghost<Seq<u8>>,
    Ghost(tail): Ghost<Seq<u8>>,
)
    requires
        has_parts(url_bytes(*old(url)), head, query, tail),
        tail.len() > 0 ==> head.len() + 1 + then_pair(query, name@, value@).len() <= u32::MAX,
    ensures
        has_parts(url_bytes(*final(url)), head, then_pair(query, name@, value@), tail),
{
    proof {
        lemma_pair_behind_query(head, query, tail, name@, value@);
    }
    append_pair(url, name, value);
}

/// The announcement to the tracker whose URL is `url`.
#[verifier::rlimit(40)]
pub fn announce_url(url: Url, torrent: &Torrent, port: &str, peer_id: &str) -> (r: Url)
    requires
        total_length(torrent@.info.files) <= u64::MAX,
        places_fit(url_bytes(url), tracker_query(torrent@, port@, peer_id@)),
    ensures
        url_bytes(r) == with_query(url_bytes(url), tracker_query(torrent@, port@, peer_id@)),
{
    let mut url = url;
    let left: u64 = match torrent.info.total_len() {
        Some(left) => left,
        None => 0,
    };
    let digits = decimal_text(left);
    proof {
        law_decimal_digits(left as nat);
        assert forall|i: int| 0 <= i < digits@.len() implies #[trigger] digits@[i] < 0x80 by {}
    }
    let left = ascii_string(digits.as_slice());
    let query = hash_query(torrent.info_hash.as_ref().as_slice());
    let ghost head = front(url_bytes(url));
    let ghost tail = fragment(url_bytes(url));
    let ghost q0 = query@;
    let ghost q1 = then_pair(q0, "port"@, port@);
    let ghost q2 = then_pair(q1, "uploaded"@, "0"@);
    let ghost q3 = then_pair(q2, "downloaded"@, "0"@);
    let ghost q4 = then_pair(q3, "compact"@, "1"@);
    let ghost q5 = then_pair(q4, "event"@, "started"@);
    let ghost q6 = then_pair(q5, "left"@, left@);
    let ghost q7 = then_pair(q6, "peer_id"@, peer_id@);
    proof {
        assert(q7 == tracker_query(torrent@, port@, peer_id@));
        assert(q0.len() <= q1.len() <= q2.len() <= q3.len() <= q4.len() <= q5.len() <= q6.len()
            <= q7.len());
    }
    start_query(&mut url, &query);
    extend_query(&mut url, "port", port, Ghost(head), Ghost(q0), Ghost(tail));
    extend_query(&mut url, "uploaded", "0", Ghost(head), Ghost(q1), Ghost(tail));
    extend_query(&mut url, "downloaded", "0", Ghost(head), Ghost(q2), Ghost(tail));
    extend_query(&mut url, "compact", "1", Ghost(head), Ghost(q3), Ghost(tail));
    extend_query(&mut url, "event", "started", Ghost(head), Ghost(q4), Ghost(tail));
    extend_query(&mut url, "left", left.as_str(), Ghost(head), Ghost(q5), Ghost(tail));
    extend_query(&mut url, "peer_id", peer_id, Ghost(head), Ghost(q6), Ghost(tail));
    url
}

/// Puts a plain query in place of the one that a URL has.
fn start_query(url: &mut Url, query: &Vec<u8>)
    requires
        is_plain_query(query@),
        query@.len() > 0,
        places_fit(url_bytes(*old(url)), query@),
    ensures
        has_parts(
            url_bytes(*final(url)),
            front(url_bytes(*old(url))),
            query@,
            fragment(url_bytes(*old(url))),
        ),
{
    proof {
        assert forall|i: int| 0 <= i < query@.len() implies #[trigger] query@[i] < 0x80
            && query@[i] != HASH by {
            assert(is_plain_query_byte(query@[i]));
        }
        lemma_ascii(query@);
        lemma_shape(url_bytes(*url));
    }
    let text = ascii_string(query.as_slice());
    set_query(url, text.as_str());
}

/// Where the byte `b` first stands in `s`, or the length of `s`.
fn find_byte(s: &[u8], b: u8) -> (at: usize)
    ensures
        at == first_of(s@, b),
        at <= s@.len(),
{
    let mut at: usize = 0;
    proof {
        assert(s@.skip(0) =~= s@);
        lemma_first_of(s@, b);
    }
    while at < s.len() && s[at] != b
        invariant
            at <= s@.len(),
            first_of(s@, b) == at + first_of(s@.skip(at as int), b),
        decreases s@.len() - at,
    {
        proof {
            assert(s@.skip(at as int).drop_first() =~= s@.skip(at + 1));
        }
        at = at + 1;
    }
    at
}

/// The length of an encoded form.
fn form_len(bytes: &[u8]) -> (len: u64)
    requires
        bytes@.len() <= u32::MAX,
    ensures
        len == form_encoded(bytes@).len(),
        len <= 3 * bytes@.len(),
{
    let mut len: u64 = 0;
    proof {
        assert(form_encoded(bytes@.take(0)) =~= Seq::<u8>::empty());
    }
    for i in 0..bytes.len()
        invariant
            bytes@.len() <= u32::MAX,
            len == form_encoded(bytes@.take(i as int)).len(),
            len <= 3 * i,
    {
        let b: u8 = bytes[i];
        proof {
            assert(bytes@.take(i + 1).drop_last() =~= bytes@.take(i as int));
        }
        if is_letter_or_digit(b) || b == 0x2a || b == 0x2d || b == 0x2e || b == 0x5f || b == 0x20 {
            len = len + 1;
        } else {
            len = len + 3;
        }
    }
    proof {
        assert(bytes@.take(bytes@.len() as int) =~= bytes@);
    }
    len
}

/// An encoded form is no shorter than what it encodes.
proof fn lemma_form_is_no_shorter(bytes: Seq<u8>)
    ensures
        form_encoded(bytes).len() >= bytes.len(),
    decreases bytes.len(),
{
    if bytes.len() > 0 {
        lemma_form_is_no_shorter(bytes.drop_last());
    }
}

/// The length of a further pair in a query, with the `&` in front of it; or nothing where it
/// exceeds 32 bits at any rate.
fn pair_len(name: &str, value: &str) -> (r: Option<u64>)
    ensures
        match r {
            Some(len) => len == 1 + form_pair(name@, value@).len() && len <= 0x8_0000_0000,
            None => form_pair(name@, value@).len() > u32::MAX,
        },
{
    proof {
        lemma_form_is_no_shorter(encode_utf8(name@));
        lemma_form_is_no_shorter(encode_utf8(value@));
    }
    let name = name.as_bytes();
    let value = value.as_bytes();
    if name.len() as u64 > 0xffff_ffff || value.len() as u64 > 0xffff_ffff {
        return None;
    }
    Some(1 + form_len(name) + 1 + form_len(value))
}

/// The length of the query of an announcement, or nothing where it exceeds 32 bits at any rate.
#[verifier::rlimit(40)]
fn query_len(torrent: &Torrent, port: &str, peer_id: &str) -> (r: Option<u64>)
    requires
        total_length(torrent@.info.files) <= u64::MAX,
    ensures
        match r {
            Some(len) => len == tracker_query(torrent@, port@, peer_id@).len() && len
                <= 0x80_0000_0000,
            None => tracker_query(torrent@, port@, peer_id@).len() > u32::MAX,
        },
{
    let left: u64 = match torrent.info.total_len() {
        Some(left) => left,
        None => 0,
    };
    let digits = decimal_text(left);
    proof {
        law_decimal_digits(left as nat);
        assert forall|i: int| 0 <= i < digits@.len() implies #[trigger] digits@[i] < 0x80 by {}
    }
    let left = ascii_string(digits.as_slice());
    let query = hash_query(torrent.info_hash.as_ref().as_slice());
    let ghost q0 = query@;
    let ghost q1 = then_pair(q0, "port"@, port@);
    let ghost q2 = then_pair(q1, "uploaded"@, "0"@);
    let ghost q3 = then_pair(q2, "downloaded"@, "0"@);
    let ghost q4 = then_pair(q3, "compact"@, "1"@);
    let ghost q5 = then_pair(q4, "event"@, "started"@);
    let ghost q6 = then_pair(q5, "left"@, left@);
    let ghost q7 = then_pair(q6, "peer_id"@, peer_id@);
    proof {
        assert(q7 == tracker_query(torrent@, port@, peer_id@));
    }
    if query.len() as u64 > 0xffff_ffff {
        return None;
    }
    Some(
        query.len() as u64 + pair_len("port", port)? + pair_len("uploaded", "0")? + pair_len(
            "downloaded",
            "0",
        )? + pair_len("compact", "1")? + pair_len("event", "started")? + pair_len(
            "left",
            left.as_str(),
        )? + pair_len("peer_id", peer_id)?,
    )
}

/// Whether the announcement to the tracker whose URL is `url` can be written down.
fn can_announce(url: &Url, torrent: &Torrent, port: &str, peer_id: &str) -> (r: bool)
    requires
        total_length(torrent@.info.files) <= u64::MAX,
    ensures
        r == places_fit(url_bytes(*url), tracker_query(torrent@, port@, peer_id@)),
{
    let bytes = bytes_of_url(url);
    let hash_at = find_byte(bytes, HASH);
    let body = slice_subrange(bytes, 0, hash_at);
    proof {
        assert(body@ =~= without_fragment(url_bytes(*url)));
    }
    let front_len = find_byte(body, QUESTION);
    if front_len as u64 > 0xffff_ffff {
        return false;
    }
    if hash_at == bytes.len() {
        return true;
    }
    if hash_at as u64 >= 0xffff_ffff {
        return false;
    }
    match query_len(torrent, port, peer_id) {
        None => false,
        Some(len) => front_len as u64 + 1 + len <= 0xffff_ffff,
    }
}

/// The URL to announce to, for a torrent whose tracker is given by a URL.
pub fn build_tracker_url(torrent: &Torrent, port: &str, peer_id: &str) -> (r: Result<
    Url,
    TrackerUrlError,
>)
    requires
        total_length(torrent@.info.files) <= u64::MAX,
    ensures
        match parsed_url(torrent@.announce) {
            Err(text) => r matches Err(TrackerUrlError::InvalidUrl { message }) && message@ == text,
            Ok(bytes) => {
                let query = tracker_query(torrent@, port@, peer_id@);
                if places_fit(bytes, query) {
                    r matches Ok(url) && url_bytes(url) == with_query(bytes, query)
                } else {
                    r == Err::<Url, TrackerUrlError>(TrackerUrlError::TooLong)
                }
            },
        },
{
    match parse_url(torrent.announce.as_str()) {
        Err(message) => Err(TrackerUrlError::InvalidUrl { message }),
        Ok(url) => if can_announce(&url, torrent, port, peer_id) {
            Ok(announce_url(url, torrent, port, peer_id))
        } else {
            Err(TrackerUrlError::TooLong)
        },
    }
}

/// The version of this client.
pub const VERSION: &'static str = "0.1.0";

/// The bytes of `version` but for its dots.
pub open spec fn without_dots(version: Seq<u8>) -> Seq<u8>
    decreases version.len(),
{
    if version.len() == 0 {
        Seq::empty()
    } else if version.last() == 0x2e {
        without_dots(version.drop_last())
    } else {
        without_dots(version.drop_last()).push(version.last())
    }
}

/// A version in four bytes: the first four that are no dots, behind zeroes where there are fewer.
pub open spec fn version_field(version: Seq<u8>) -> Seq<u8> {
    let bare = without_dots(version);
    if bare.len() >= 4 {
        bare.take(4)
    } else {
        Seq::new((4 - bare.len()) as nat, |i: int| 0x30u8) + bare
    }
}

/// A peer ID: the client `MS` and its version between hyphens, and what tells its runs apart.
pub open spec fn peer_id_bytes(version: Seq<u8>, suffix: Seq<u8>) -> Seq<u8> {
    seq![0x2du8, 0x4d, 0x53] + version_field(version) + seq![0x2du8] + suffix
}

/// A peer ID with a suffix of twelve bytes has the twenty bytes that the handshake and the tracker
/// expect.
pub proof fn law_peer_id_has_twenty_bytes(version: Seq<u8>, suffix: Seq<u8>)
    requires
        suffix.len() == 12,
    ensures
        peer_id_bytes(version, suffix).len() == 20,
{
}

/// The peer ID of a version of this client.
pub fn peer_id(version: &str, suffix: &[u8]) -> (id: String)
    requires
        version.is_ascii(),
        forall|i: int| 0 <= i < suffix@.len() ==> #[trigger] suffix@[i] < 0x80,
    ensures
        id@ == ascii(peer_id_bytes(encode_utf8(version@), suffix@)),
{
    let bytes = version.as_bytes();
    proof {
        is_ascii_chars_encode_utf8(version@);
        assert forall|i: int| 0 <= i < bytes@.len() implies #[trigger] bytes@[i] < 0x80 by {
            assert(version@[i] as u8 == bytes@[i]);
        }
        assert(without_dots(bytes@.take(0)) =~= Seq::<u8>::empty());
    }
    let mut bare: Vec<u8> = Vec::new();
    for i in 0..bytes.len()
        invariant
            forall|j: int| 0 <= j < bytes@.len() ==> #[trigger] bytes@[j] < 0x80,
            bare@ == without_dots(bytes@.take(i as int)),
            forall|j: int| 0 <= j < bare@.len() ==> #[trigger] bare@[j] < 0x80,
    {
        proof {
            assert(bytes@.take(i + 1).drop_last() =~= bytes@.take(i as int));
        }
        if bytes[i] != 0x2e {
            bare.push(bytes[i]);
        }
    }
    proof {
        assert(bytes@.take(bytes@.len() as int) =~= bytes@);
    }
    let mut field: Vec<u8> = Vec::new();
    while field.len() + bare.len() < 4
        invariant
            field@ == Seq::new(field@.len(), |i: int| 0x30u8),
            bare@.len() < 4 ==> field@.len() <= 4 - bare@.len(),
            bare@.len() >= 4 ==> field@.len() == 0,
        decreases 4 - field@.len(),
    {
        field.push(0x30);
        proof {
            assert(field@ =~= Seq::new(field@.len(), |i: int| 0x30u8));
        }
    }
    if bare.len() > 4 {
        bare.truncate(4);
    }
    append_bytes(&mut field, bare.as_slice());
    proof {
        assert(field@ =~= version_field(bytes@));
    }
    let mut id: Vec<u8> = vec![0x2du8, 0x4d, 0x53];
    append_bytes(&mut id, field.as_slice());
    id.push(0x2d);
    append_bytes(&mut id, suffix);
    proof {
        assert(id@ =~= peer_id_bytes(bytes@, suffix@));
        assert forall|i: int| 0 <= i < field@.len() implies #[trigger] field@[i] < 0x80 by {}
        assert forall|i: int| 0 <= i < id@.len() implies #[trigger] id@[i] < 0x80 by {
            if 3 <= i < 3 + field@.len() {
                assert(id@[i] == field@[i - 3]);
            } else if i >= 4 + field@.len() {
                assert(id@[i] == suffix@[i - 4 - field@.len()]);
            }
        }
    }
    ascii_string(id.as_slice())
}

/// `Rng::sample` with the distribution `Alphanumeric` draws a letter or a digit. Which one is left
/// to chance.
#[verifier::external_body]
fn sample_alphanumeric() -> (b: u8)
    ensures
        is_alphanumeric(b),
{
    rand::thread_rng().sample(rand::distributions::Alphanumeric)
}

/// A fresh peer ID: that of our version with twelve random letters and digits.
pub fn build_peer_id() -> (id: String)
    ensures
        exists|suffix: Seq<u8>|
            suffix.len() == 12 && (forall|i: int|
                0 <= i < 12 ==> is_alphanumeric(#[trigger] suffix[i])) && id@ == ascii(
                #[trigger] peer_id_bytes(encode_utf8(VERSION@), suffix),
            ),
{
    let mut suffix: Vec<u8> = Vec::new();
    for i in 0..12
        invariant
            suffix@.len() == i,
            forall|j: int| 0 <= j < suffix@.len() ==> is_alphanumeric(#[trigger] suffix@[j]),
    {
        suffix.push(sample_alphanumeric());
    }
    proof {
        reveal_strlit("0.1.0");
        assert forall|i: int| 0 <= i < suffix@.len() implies #[trigger] suffix@[i] < 0x80 by {
            assert(is_alphanumeric(suffix@[i]));
        }
    }
    peer_id(VERSION, suffix.as_slice())
}

/// The byte that `%` and two hexadecimal digits in upper case stand for.
pub open spec fn hex_value(digit: u8) -> int {
    if digit <= 0x39 {
        digit - 0x30
    } else {
        digit - 0x41 + 10
    }
}

/// What a percent-encoded text stands for.
pub open spec fn percent_decoded(s: Seq<u8>) -> Seq<u8>
    decreases s.len(),
{
    if s.len() == 0 {
        Seq::empty()
    } else if s[0] == 0x25 && s.len() >= 3 {
        seq![(16 * hex_value(s[1]) + hex_value(s[2])) as u8] + percent_decoded(s.skip(3))
    } else {
        seq![s[0]] + percent_decoded(s.skip(1))
    }
}

/// The tracker finds our info hash in the query: decoding gives it back, whatever its bytes.
pub proof fn law_info_hash_survives_the_query(bytes: Seq<u8>)
    ensures
        percent_decoded(escaped_hash(bytes)) == bytes,
{
    assert(Seq::<u8>::empty() + bytes =~= bytes);
    assert(escaped_hash(bytes) + Seq::<u8>::empty() =~= escaped_hash(bytes));
    lemma_decode_escaped(bytes, Seq::empty());
    assert(percent_decoded(Seq::<u8>::empty()) =~= Seq::<u8>::empty());
    assert(bytes + Seq::<u8>::empty() =~= bytes);
}

proof fn lemma_decode_escaped(bytes: Seq<u8>, rest: Seq<u8>)
    ensures
        percent_decoded(escaped_hash(bytes) + rest) == bytes + percent_decoded(rest),
    decreases bytes.len(),
{
    if bytes.len() > 0 {
        let init = bytes.drop_last();
        let b = bytes.last();
        let tail = hash_byte(b) + rest;
        lemma_decode_escaped(init, tail);
        assert(escaped_hash(bytes) + rest =~= escaped_hash(init) + tail);
        if hash_keeps(b) {
            assert(tail.skip(1) =~= rest);
            assert(percent_decoded(tail) == seq![b] + percent_decoded(rest));
        } else {
            assert(tail[0] == 0x25);
            assert(tail[1] == upper_hex_digit(b / 16));
            assert(tail[2] == upper_hex_digit(b % 16));
            assert(tail.skip(3) =~= rest);
            assert(16 * hex_value(tail[1]) + hex_value(tail[2]) == b);
        }
        assert(init + (seq![b] + percent_decoded(rest)) =~= bytes + percent_decoded(rest));
    } else {
        assert(escaped_hash(bytes) + rest =~= rest);
        assert(bytes + percent_decoded(rest) =~= percent_decoded(rest));
    }
}

/// An IP address, by its bytes.
#[derive(Debug, Clone, Copy, PartialEq, Eq)]
pub enum IpBytes {
    V4([u8; 4]),
    V6([u8; 16]),
}

/// Where a tracker says that a peer is: at an address, or at what the address is written as.
#[derive(Debug, PartialEq, Eq)]
pub enum PeerHost {
    Address(IpBytes),
    Text(Vec<u8>),
}

/// A peer in the answer of a tracker.
#[derive(Debug, PartialEq, Eq)]
pub struct Peer {
    pub host: PeerHost,
    pub port: u16,
}

/// What is said of a peer: the bytes of its address or of the text, and its port.
pub enum PeerView {
    V4(Seq<u8>, int),
    V6(Seq<u8>, int),
    Text(Seq<u8>, int),
}

/// What is said of a peer at an address.
pub open spec fn address_view(address: IpBytes, port: u16) -> PeerView {
    match address {
        IpBytes::V4(bytes) => PeerView::V4(bytes@, port as int),
        IpBytes::V6(bytes) => PeerView::V6(bytes@, port as int),
    }
}

impl View for Peer {
    type V = PeerView;

    open spec fn view(&self) -> PeerView {
        match self.host {
            PeerHost::Address(address) => address_view(address, self.port),
            PeerHost::Text(text) => PeerView::Text(text@, self.port as int),
        }
    }
}

/// What is said of peers, one by one.
pub open spec fn peers_view(peers: Seq<Peer>) -> Seq<PeerView> {
    peers.map_values(|peer: Peer| peer@)
}

/// The number in two bytes, the most significant first.
pub open spec fn port_of(bytes: Seq<u8>, at: int) -> int {
    bytes[at] * 0x100 + bytes[at + 1]
}

/// The peers of a compact list of IPv4 addresses: four bytes of address and two of port each.
pub open spec fn compact_v4(bytes: Seq<u8>) -> Seq<PeerView> {
    Seq::new(
        bytes.len() / 6,
        |i: int| PeerView::V4(bytes.subrange(6 * i, 6 * i + 4), port_of(bytes, 6 * i + 4)),
    )
}

/// The peers of a compact list of IPv6 addresses: sixteen bytes of address and two of port each.
pub open spec fn compact_v6(bytes: Seq<u8>) -> Seq<PeerView> {
    Seq::new(
        bytes.len() / 18,
        |i: int| PeerView::V6(bytes.subrange(18 * i, 18 * i + 16), port_of(bytes, 18 * i + 16)),
    )
}

/// A peer of a list that is not compact: a dictionary with the text of its address and its port.
pub open spec fn listed_peer(v: Value) -> Option<PeerView> {
    match v {
        Value::Dict(map) => match (bytes_field(map, "ip"@), number_field(map, "port"@)) {
            (Some(text), Some(port)) => if 0 <= port <= u16::MAX {
                Some(PeerView::Text(text, port))
            } else {
                None
            },
            _ => None,
        },
        _ => None,
    }
}

/// The peers of a list that is not compact, if every item is one.
pub open spec fn listed_peers(items: Seq<Value>) -> Option<Seq<PeerView>>
    decreases items.len(),
{
    if items.len() == 0 {
        Some(Seq::empty())
    } else {
        match (listed_peers(items.drop_last()), listed_peer(items.last())) {
            (Some(peers), Some(peer)) => Some(peers.push(peer)),
            _ => None,
        }
    }
}

/// The peers that the fields `peers` and `peers6` of an answer give. At least one must be there.
/// Byte strings are compact lists; a list in `peers` counts whatever `peers6` is.
pub open spec fn peers_of_fields(v4: Option<Value>, v6: Option<Value>) -> Option<Seq<PeerView>> {
    if v4 is None && v6 is None {
        None
    } else {
        let v4 = match v4 {
            Some(v) => v,
            None => Value::Bytes(Seq::empty()),
        };
        let v6 = match v6 {
            Some(v) => v,
            None => Value::Bytes(Seq::empty()),
        };
        match v4 {
            Value::Bytes(v4) => match v6 {
                Value::Bytes(v6) => if v4.len() % 6 == 0 && v6.len() % 18 == 0 {
                    Some(compact_v4(v4) + compact_v6(v6))
                } else {
                    None
                },
                _ => None,
            },
            Value::List(items) => listed_peers(items),
            _ => None,
        }
    }
}

/// The peers in the answer of a tracker, if it holds them.
pub open spec fn peers_of(response: Seq<u8>) -> Option<Seq<PeerView>> {
    match parse_value(response) {
        Outcome::Done(Value::Dict(map), _) => peers_of_fields(
            field(map, "peers"@),
            field(map, "peers6"@),
        ),
        _ => None,
    }
}

/// An entry of a compact list: the bytes of an address and of a port.
pub open spec fn compact_entry(address: Seq<u8>, port: u16) -> Seq<u8> {
    address + seq![(port / 0x100) as u8, (port % 0x100) as u8]
}

/// A compact list holds the peers that were put into it, one by one.
pub proof fn law_compact_list_grows(bytes: Seq<u8>, address: Seq<u8>, port: u16)
    ensures
        bytes.len() % 6 == 0 && address.len() == 4 ==> compact_v4(
            bytes + compact_entry(address, port),
        ) == compact_v4(bytes).push(PeerView::V4(address, port as int)),
        bytes.len() % 18 == 0 && address.len() == 16 ==> compact_v6(
            bytes + compact_entry(address, port),
        ) == compact_v6(bytes).push(PeerView::V6(address, port as int)),
{
    let longer = bytes + compact_entry(address, port);
    if bytes.len() % 6 == 0 && address.len() == 4 {
        assert forall|i: int| 0 <= i < bytes.len() / 6 implies longer.subrange(6 * i, 6 * i + 4)
            == #[trigger] bytes.subrange(6 * i, 6 * i + 4) by {
            assert(longer.subrange(6 * i, 6 * i + 4) =~= bytes.subrange(6 * i, 6 * i + 4));
        }
        let n = bytes.len() as int;
        assert(longer.subrange(n, n + 4) =~= address);
        assert(compact_v4(longer) =~= compact_v4(bytes).push(PeerView::V4(address, port as int)));
    }
    if bytes.len() % 18 == 0 && address.len() == 16 {
        assert forall|i: int| 0 <= i < bytes.len() / 18 implies longer.subrange(
            18 * i,
            18 * i + 16,
        ) == #[trigger] bytes.subrange(18 * i, 18 * i + 16) by {
            assert(longer.subrange(18 * i, 18 * i + 16) =~= bytes.subrange(18 * i, 18 * i + 16));
        }
        let n = bytes.len() as int;
        assert(longer.subrange(n, n + 16) =~= address);
        assert(compact_v6(longer) =~= compact_v6(bytes).push(PeerView::V6(address, port as int)));
    }
}

fn read_port(bytes: &[u8], at: usize) -> (port: u16)
    requires
        at + 2 <= bytes@.len(),
    ensures
        port == port_of(bytes@, at as int),
{
    bytes[at] as u16 * 0x100 + bytes[at + 1] as u16
}

fn read_compact_v4(bytes: &[u8]) -> (peers: Vec<Peer>)
    requires
        bytes@.len() % 6 == 0,
    ensures
        peers_view(peers@) == compact_v4(bytes@),
{
    let mut peers: Vec<Peer> = Vec::new();
    let total: usize = bytes.len();
    let n: usize = total / 6;
    for i in 0..n
        invariant
            total == bytes@.len(),
            n == total / 6,
            peers@.len() == i,
            forall|j: int| 0 <= j < i ==> (#[trigger] peers@[j])@ == compact_v4(bytes@)[j],
    {
        let at: usize = 6 * i;
        let address: [u8; 4] = [bytes[at], bytes[at + 1], bytes[at + 2], bytes[at + 3]];
        proof {
            assert(address@ =~= bytes@.subrange(6 * i, 6 * i + 4));
        }
        let port = read_port(bytes, at + 4);
        peers.push(Peer { host: PeerHost::Address(IpBytes::V4(address)), port });
    }
    proof {
        assert(peers_view(peers@) =~= compact_v4(bytes@));
    }
    peers
}

fn read_compact_v6(bytes: &[u8]) -> (peers: Vec<Peer>)
    requires
        bytes@.len() % 18 == 0,
    ensures
        peers_view(peers@) == compact_v6(bytes@),
{
    let mut peers: Vec<Peer> = Vec::new();
    let total: usize = bytes.len();
    let n: usize = total / 18;
    for i in 0..n
        invariant
            total == bytes@.len(),
            n == total / 18,
            peers@.len() == i,
            forall|j: int| 0 <= j < i ==> (#[trigger] peers@[j])@ == compact_v6(bytes@)[j],
    {
        let at: usize = 18 * i;
        let mut address: [u8; 16] = [0u8; 16];
        for k in 0..16
            invariant
                total == bytes@.len(),
                at == 18 * i,
                i < total / 18,
                forall|l: int| 0 <= l < k ==> address@[l] == bytes@[at + l],
        {
            address[k] = bytes[at + k];
        }
        proof {
            assert(address@ =~= bytes@.subrange(18 * i, 18 * i + 16));
        }
        let port = read_port(bytes, at + 16);
        peers.push(Peer { host: PeerHost::Address(IpBytes::V6(address)), port });
    }
    proof {
        assert(peers_view(peers@) =~= compact_v6(bytes@));
    }
    peers
}

fn read_listed_peer(peer: Bencode) -> (r: Option<Peer>)
    ensures
        match r {
            Some(p) => listed_peer(peer@) == Some(p@),
            None => listed_peer(peer@) is None,
        },
{
    proof {
        reveal_strlit("ip");
        reveal_strlit("port");
    }
    let mut peer_dict = peer.dict()?;
    let text = take_bytes(&mut peer_dict, "ip")?;
    let port = take_number(&mut peer_dict, "port")?;
    if 0 <= port && port <= 0xffff {
        Some(Peer { host: PeerHost::Text(text), port: port as u16 })
    } else {
        None
    }
}

/// One item that is no peer spoils the list.
proof fn lemma_listed_peers_spoilt(items: Seq<Value>, i: int)
    requires
        0 <= i <= items.len(),
        listed_peers(items.take(i)) is None,
    ensures
        listed_peers(items) is None,
    decreases items.len(),
{
    if i < items.len() {
        assert(items.drop_last().take(i) =~= items.take(i));
        lemma_listed_peers_spoilt(items.drop_last(), i);
    } else {
        assert(items.take(i) =~= items);
    }
}

fn read_listed_peers(items: Vec<Bencode>) -> (r: Option<Vec<Peer>>)
    ensures
        match r {
            Some(peers) => listed_peers(values_of(items@)) == Some(peers_view(peers@)),
            None => listed_peers(values_of(items@)) is None,
        },
{
    let ghost values = values_of(items@);
    let mut peers: Vec<Peer> = Vec::new();
    proof {
        assert(peers_view(peers@) =~= Seq::<PeerView>::empty());
    }
    for item in it: items.into_iter()
        invariant
            values == values_of(it.seq()),
            listed_peers(values.take(it.index() as int)) == Some(peers_view(peers@)),
    {
        let ghost i = it.index() as int;
        let ghost before = peers@;
        proof {
            assert(values.take(i + 1).drop_last() =~= values.take(i));
            assert(values.take(i + 1).last() == value_of(item));
        }
        match read_listed_peer(item) {
            None => {
                proof {
                    lemma_listed_peers_spoilt(values, i + 1);
                }
                return None;
            },
            Some(peer) => {
                peers.push(peer);
                proof {
                    assert(peers_view(peers@) =~= peers_view(before).push(peer@));
                }
            },
        }
    }
    proof {
        assert(values.take(values.len() as int) =~= values);
    }
    Some(peers)
}

/// Reads the peers off the answer of a tracker. The addresses of a list that is not compact are
/// left as texts.
pub fn build_peerlist(response: &[u8]) -> (r: Option<Vec<Peer>>)
    ensures
        match r {
            Some(peers) => peers_of(response@) == Some(peers_view(peers@)),
            None => peers_of(response@) is None,
        },
{
    proof {
        reveal_strlit("peers");
        reveal_strlit("peers6");
    }
    let (_, response_bencode) = match parse_bencode(response) {
        Err(_) => {
            return None;
        },
        Ok(read) => read,
    };
    let mut response_dict = response_bencode.dict()?;
    let v4 = take_field(&mut response_dict, "peers");
    let v6 = take_field(&mut response_dict, "peers6");
    if v4.is_none() && v6.is_none() {
        return None;
    }
    let v4 = match v4 {
        Some(value) => value,
        None => Bencode::ByteString(Vec::new()),
    };
    let v6 = match v6 {
        Some(value) => value,
        None => Bencode::ByteString(Vec::new()),
    };
    match v4 {
        Bencode::ByteString(v4_bytes) => match v6 {
            Bencode::ByteString(v6_bytes) => {
                if v4_bytes.len() % 6 != 0 || v6_bytes.len() % 18 != 0 {
                    return None;
                }
                let mut peers = read_compact_v4(v4_bytes.as_slice());
                let mut more = read_compact_v6(v6_bytes.as_slice());
                let ghost first = peers@;
                let ghost second = more@;
                peers.append(&mut more);
                proof {
                    assert(peers_view(peers@) =~= peers_view(first) + peers_view(second));
                }
                Some(peers)
            },
            _ => None,
        },
        Bencode::List(items) => {
            proof {
                lemma_list_value(items);
            }
            read_listed_peers(items)
        },
        _ => None,
    }
}

/// A peer whose text has been read as an address, or none where the text is no address.
pub open spec fn resolved_peer(peer: PeerView, address: Option<IpBytes>) -> Option<PeerView> {
    match peer {
        PeerView::Text(_, port) => match address {
            Some(address) => Some(address_view(address, port as u16)),
            None => None,
        },
        _ => Some(peer),
    }
}

/// Puts the addresses that were read in place of the texts of peers. One text that is no address
/// spoils the list.
pub fn resolve_peers(peers: Vec<Peer>, addresses: Vec<Option<IpBytes>>) -> (r: Option<
    Vec<(IpBytes, u16)>,
>)
    requires
        peers@.len() == addresses@.len(),
    ensures
        match r {
            Some(resolved) => resolved@.len() == peers@.len() && forall|i: int|
                0 <= i < peers@.len() ==> resolved_peer(peers@[i]@, addresses@[i]) == Some(
                    address_view((#[trigger] resolved@[i]).0, resolved@[i].1),
                ),
            None => exists|i: int|
                0 <= i < peers@.len() && resolved_peer(
                    #[trigger] peers@[i]@,
                    addresses@[i],
                ) is None,
        },
{
    let mut resolved: Vec<(IpBytes, u16)> = Vec::new();
    for i in 0..peers.len()
        invariant
            peers@.len() == addresses@.len(),
            resolved@.len() == i,
            forall|j: int|
                0 <= j < i ==> resolved_peer(peers@[j]@, addresses@[j]) == Some(
                    address_view((#[trigger] resolved@[j]).0, resolved@[j].1),
                ),
    {
        let port = peers[i].port;
        match &peers[i].host {
            PeerHost::Address(address) => {
                resolved.push((*address, port));
            },
            PeerHost::Text(_) => match addresses[i] {
                Some(address) => {
                    resolved.push((address, port));
                },
                None => {
                    proof {
                        assert(resolved_peer(peers@[i as int]@, addresses@[i as int]) is None);
                    }
                    return None;
                },
            },
        }
    }
    Some(resolved)
}

} // verus!
