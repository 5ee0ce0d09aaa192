//! Laws of the answers of trackers: the peers that are read are those that the tracker put there.

use vstd::prelude::*;
use vstd::utf8::encode_utf8;

use crate::bencode_laws::{
    denotes, encode, entries_denote, items_denote, last_entry, law_document_reads_back,
    law_last_entry_counts, lemma_items_denote, representable, Document,
};
use crate::bencode_parser::{parse_value, Outcome, Value};
use crate::tracker::{
    compact_entry, compact_v4, compact_v6, law_compact_list_grows, listed_peer, listed_peers,
    peer_id_bytes, peers_of, resolved_peer, without_dots, IpBytes, Peer, PeerHost, PeerView,
};

verus! {

/// A compact list: the bytes of the address and of the port of each peer, one behind the other.
pub open spec fn compact_list(peers: Seq<(Seq<u8>, u16)>) -> Seq<u8>
    decreases peers.len(),
{
    if peers.len() == 0 {
        Seq::empty()
    } else {
        compact_list(peers.drop_last()) + compact_entry(peers.last().0, peers.last().1)
    }
}

/// Whether the address of each peer has `n` bytes.
pub open spec fn addresses_of_len(peers: Seq<(Seq<u8>, u16)>, n: int) -> bool {
    forall|i: int| 0 <= i < peers.len() ==> (#[trigger] peers[i]).0.len() == n
}

/// Peers at IPv4 addresses.
pub open spec fn at_v4(peers: Seq<(Seq<u8>, u16)>) -> Seq<PeerView> {
    peers.map_values(|peer: (Seq<u8>, u16)| PeerView::V4(peer.0, peer.1 as int))
}

/// Peers at IPv6 addresses.
pub open spec fn at_v6(peers: Seq<(Seq<u8>, u16)>) -> Seq<PeerView> {
    peers.map_values(|peer: (Seq<u8>, u16)| PeerView::V6(peer.0, peer.1 as int))
}

/// Peers whose address is given by a text.
pub open spec fn at_text(peers: Seq<(Seq<u8>, u16)>) -> Seq<PeerView> {
    peers.map_values(|peer: (Seq<u8>, u16)| PeerView::Text(peer.0, peer.1 as int))
}

proof fn lemma_addresses_init(peers: Seq<(Seq<u8>, u16)>, n: int)
    requires
        addresses_of_len(peers, n),
        peers.len() > 0,
    ensures
        addresses_of_len(peers.drop_last(), n),
        peers.last().0.len() == n,
{
    let init = peers.drop_last();
    assert forall|i: int| 0 <= i < init.len() implies (#[trigger] init[i]).0.len() == n by {
        assert(init[i] == peers[i]);
    }
    assert(peers.last() == peers[peers.len() - 1]);
}

/// A compact list of IPv4 addresses reads as the peers that were put into it.
pub proof fn law_compact_v4_reads_back(peers: Seq<(Seq<u8>, u16)>)
    requires
        addresses_of_len(peers, 4),
    ensures
        compact_list(peers).len() == 6 * peers.len(),
        compact_v4(compact_list(peers)) == at_v4(peers),
    decreases peers.len(),
{
    if peers.len() == 0 {
        assert(compact_v4(compact_list(peers)) =~= at_v4(peers));
    } else {
        let init = peers.drop_last();
        lemma_addresses_init(peers, 4);
        law_compact_v4_reads_back(init);
        law_compact_list_grows(compact_list(init), peers.last().0, peers.last().1);
        assert(compact_v4(compact_list(peers)) =~= at_v4(peers));
    }
}

/// A compact list of IPv6 addresses reads as the peers that were put into it.
pub proof fn law_compact_v6_reads_back(peers: Seq<(Seq<u8>, u16)>)
    requires
        addresses_of_len(peers, 16),
    ensures
        compact_list(peers).len() == 18 * peers.len(),
        compact_v6(compact_list(peers)) == at_v6(peers),
    decreases peers.len(),
{
    if peers.len() == 0 {
        assert(compact_v6(compact_list(peers)) =~= at_v6(peers));
    } else {
        let init = peers.drop_last();
        lemma_addresses_init(peers, 16);
        law_compact_v6_reads_back(init);
        law_compact_list_grows(compact_list(init), peers.last().0, peers.last().1);
        assert(compact_v6(compact_list(peers)) =~= at_v6(peers));
    }
}

/// The peers of a string of bytes that is cut into entries with `n` bytes of address and two of
/// port.
pub open spec fn entries_in(bytes: Seq<u8>, n: int) -> Seq<(Seq<u8>, u16)> {
    Seq::new(
        (bytes.len() as int / (n + 2)) as nat,
        |i: int|
            (
                bytes.subrange((n + 2) * i, (n + 2) * i + n),
                (bytes[(n + 2) * i + n] * 0x100 + bytes[(n + 2) * i + n + 1]) as u16,
            ),
    )
}

/// Every string of bytes that can be cut into entries is a compact list.
pub proof fn law_whole_entries_are_a_compact_list(bytes: Seq<u8>, n: int)
    requires
        n == 4 || n == 16,
        bytes.len() as int % (n + 2) == 0,
    ensures
        compact_list(entries_in(bytes, n)) == bytes,
        addresses_of_len(entries_in(bytes, n), n),
    decreases bytes.len(),
{
    let peers = entries_in(bytes, n);
    let w = n + 2;
    let m = bytes.len() as int / w;
    let len = bytes.len() as int;
    assert(len == w * m && m >= 0) by (nonlinear_arith)
        requires
            m == len / w,
            len % w == 0,
            w > 0,
            len >= 0,
    ;
    assert forall|i: int| 0 <= i < peers.len() implies (#[trigger] peers[i]).0.len() == n by {
        assert(w * i + w <= w * m) by (nonlinear_arith)
            requires
                i < m,
                w > 0,
        ;
        assert(0 <= w * i) by (nonlinear_arith)
            requires
                0 <= i,
                w > 0,
        ;
    }
    if m == 0 {
        assert(w * 0 == 0) by (nonlinear_arith);
        assert(compact_list(peers) =~= bytes);
    } else {
        let k = w * (m - 1);
        assert(k == w * m - w) by (nonlinear_arith)
            requires
                k == w * (m - 1),
        ;
        let front = bytes.take(k);
        assert(k % w == 0 && k / w == m - 1) by (nonlinear_arith)
            requires
                k == w * (m - 1),
                w > 0,
        ;
        law_whole_entries_are_a_compact_list(front, n);
        assert forall|i: int| 0 <= i < m - 1 implies #[trigger] entries_in(front, n)[i]
            == peers[i] by {
            assert(w * i + w <= k && 0 <= w * i) by (nonlinear_arith)
                requires
                    0 <= i < m - 1,
                    k == w * (m - 1),
                    w > 0,
            ;
            assert(front.subrange(w * i, w * i + n) =~= bytes.subrange(w * i, w * i + n));
        }
        assert(peers.drop_last() =~= entries_in(front, n));
        let high = bytes[k + n];
        let low = bytes[k + n + 1];
        let port = (high * 0x100 + low) as u16;
        assert(peers.last() == (bytes.subrange(k, k + n), port));
        assert(port / 0x100 == high && port % 0x100 == low);
        assert(bytes =~= front + compact_entry(bytes.subrange(k, k + n), port));
    }
}

/// What an answer holds for a key, if it is a compact list of the given peers, or nothing.
pub open spec fn compact_field(peers: Option<Seq<(Seq<u8>, u16)>>) -> Option<Document> {
    match peers {
        Some(peers) => Some(Document::Bytes(compact_list(peers))),
        None => None,
    }
}

/// The peers of a list that may not be there.
pub open spec fn peers_if_any(peers: Option<Seq<(Seq<u8>, u16)>>) -> Seq<(Seq<u8>, u16)> {
    match peers {
        Some(peers) => peers,
        None => Seq::empty(),
    }
}

proof fn lemma_answer(entries: Seq<(Seq<u8>, Document)>, rest: Seq<u8>, key: Seq<char>)
    requires
        representable(Document::Dict(entries)),
    ensures
        ({
            let map = entries_denote(entries, Map::empty());
            &&& parse_value(encode(Document::Dict(entries)) + rest) == Outcome::Done(
                Value::Dict(map),
                rest,
            )
            &&& map.contains_key(encode_utf8(key)) <==> last_entry(
                entries,
                encode_utf8(key),
            ) is Some
            &&& last_entry(entries, encode_utf8(key)) matches Some(d) ==> map[encode_utf8(key)]
                == denotes(d)
        }),
{
    law_document_reads_back(Document::Dict(entries), rest);
    law_last_entry_counts(entries, encode_utf8(key));
}

/// Every answer that holds compact lists, in `peers` of IPv4 addresses, in `peers6` of IPv6
/// addresses, or in both, is read as the peers that were put into them, in order, whatever other
/// fields it has and whatever stands behind it.
pub proof fn law_compact_answers_read_back(
    entries: Seq<(Seq<u8>, Document)>,
    rest: Seq<u8>,
    v4: Option<Seq<(Seq<u8>, u16)>>,
    v6: Option<Seq<(Seq<u8>, u16)>>,
)
    requires
        representable(Document::Dict(entries)),
        last_entry(entries, encode_utf8("peers"@)) == compact_field(v4),
        last_entry(entries, encode_utf8("peers6"@)) == compact_field(v6),
        v4 is Some || v6 is Some,
        addresses_of_len(peers_if_any(v4), 4),
        addresses_of_len(peers_if_any(v6), 16),
    ensures
        peers_of(encode(Document::Dict(entries)) + rest) == Some(
            at_v4(peers_if_any(v4)) + at_v6(peers_if_any(v6)),
        ),
{
    lemma_answer(entries, rest, "peers"@);
    lemma_answer(entries, rest, "peers6"@);
    law_compact_v4_reads_back(peers_if_any(v4));
    law_compact_v6_reads_back(peers_if_any(v6));
    assert(compact_list(Seq::<(Seq<u8>, u16)>::empty()) =~= Seq::<u8>::empty());
    assert(compact_v4(Seq::empty()) =~= at_v4(Seq::empty()));
    assert(compact_v6(Seq::empty()) =~= at_v6(Seq::empty()));
}

/// Whether a document is a peer of a list that is not compact: a dictionary with the text of the
/// address and the port.
pub open spec fn is_listed(d: Document, peer: (Seq<u8>, u16)) -> bool {
    d matches Document::Dict(entries) && last_entry(entries, encode_utf8("ip"@)) == Some(
        Document::Bytes(peer.0),
    ) && last_entry(entries, encode_utf8("port"@)) == Some(Document::Number(peer.1 as int))
}

proof fn lemma_listed(items: Seq<Value>, peers: Seq<(Seq<u8>, u16)>)
    requires
        items.len() == peers.len(),
        forall|i: int|
            0 <= i < items.len() ==> listed_peer(#[trigger] items[i]) == Some(
                PeerView::Text(peers[i].0, peers[i].1 as int),
            ),
    ensures
        listed_peers(items) == Some(at_text(peers)),
    decreases items.len(),
{
    if items.len() == 0 {
        assert(at_text(peers) =~= Seq::<PeerView>::empty());
    } else {
        let init = items.drop_last();
        let front = peers.drop_last();
        assert forall|i: int| 0 <= i < init.len() implies listed_peer(#[trigger] init[i]) == Some(
            PeerView::Text(front[i].0, front[i].1 as int),
        ) by {
            assert(init[i] == items[i]);
        }
        lemma_listed(init, front);
        assert(listed_peer(items[items.len() - 1]) is Some);
        assert(at_text(peers) =~= at_text(front).push(
            PeerView::Text(peers.last().0, peers.last().1 as int),
        ));
    }
}

/// Every answer that holds a list of dictionaries in `peers` is read as the peers that they
/// describe, in order, whatever other fields it and they have and whatever stands behind it.
pub proof fn law_listed_answers_read_back(
    entries: Seq<(Seq<u8>, Document)>,
    rest: Seq<u8>,
    items: Seq<Document>,
    peers: Seq<(Seq<u8>, u16)>,
)
    requires
        representable(Document::Dict(entries)),
        last_entry(entries, encode_utf8("peers"@)) == Some(Document::List(items)),
        items.len() == peers.len(),
        forall|i: int| 0 <= i < items.len() ==> is_listed(#[trigger] items[i], peers[i]),
    ensures
        peers_of(encode(Document::Dict(entries)) + rest) == Some(at_text(peers)),
{
    lemma_answer(entries, rest, "peers"@);
    lemma_items_denote(items);
    let values = items_denote(items);
    assert forall|i: int| 0 <= i < values.len() implies listed_peer(#[trigger] values[i]) == Some(
        PeerView::Text(peers[i].0, peers[i].1 as int),
    ) by {
        assert(is_listed(items[i], peers[i]));
        if let Document::Dict(fields) = items[i] {
            law_last_entry_counts(fields, encode_utf8("ip"@));
            law_last_entry_counts(fields, encode_utf8("port"@));
        }
    }
    lemma_listed(values, peers);
}

/// Two answers with the same `peers` and `peers6` give the same peers: other fields change nothing,
/// nor do their order and what stands behind the answer.
pub proof fn law_other_fields_change_nothing(
    a: Seq<(Seq<u8>, Document)>,
    b: Seq<(Seq<u8>, Document)>,
    behind_a: Seq<u8>,
    behind_b: Seq<u8>,
)
    requires
        representable(Document::Dict(a)),
        representable(Document::Dict(b)),
        last_entry(a, encode_utf8("peers"@)) == last_entry(b, encode_utf8("peers"@)),
        last_entry(a, encode_utf8("peers6"@)) == last_entry(b, encode_utf8("peers6"@)),
    ensures
        peers_of(encode(Document::Dict(a)) + behind_a) == peers_of(
            encode(Document::Dict(b)) + behind_b,
        ),
{
    lemma_answer(a, behind_a, "peers"@);
    lemma_answer(a, behind_a, "peers6"@);
    lemma_answer(b, behind_b, "peers"@);
    lemma_answer(b, behind_b, "peers6"@);
}

/// Whether the value for a key is missing, or is a string of whole entries of a compact list with
/// `n` bytes of address each.
pub open spec fn compact_or_missing(map: Map<Seq<u8>, Value>, key: Seq<char>, n: int) -> bool {
    map.contains_key(encode_utf8(key)) ==> (map[encode_utf8(key)] matches Value::Bytes(bytes)
        && bytes.len() as int % (n + 2) == 0)
}

/// Whether a value is a dictionary that gives the text of an address and a port.
pub open spec fn gives_peer(v: Value) -> bool {
    v matches Value::Dict(map) && map.contains_key(encode_utf8("ip"@)) && map[encode_utf8(
        "ip"@,
    )] is Bytes && map.contains_key(encode_utf8("port"@)) && (map[encode_utf8(
        "port"@,
    )] matches Value::Number(port) && 0 <= port <= 0xffff)
}

/// Whether a map holds peers: compact lists in at least one of `peers` and `peers6`, or a list in
/// `peers` each item of which gives a peer.
pub open spec fn holds_peers(map: Map<Seq<u8>, Value>) -> bool {
    ||| {
        &&& map.contains_key(encode_utf8("peers"@)) || map.contains_key(encode_utf8("peers6"@))
        &&& compact_or_missing(map, "peers"@, 4)
        &&& compact_or_missing(map, "peers6"@, 16)
    }
    ||| {
        &&& map.contains_key(encode_utf8("peers"@))
        &&& map[encode_utf8("peers"@)] matches Value::List(items) && forall|i: int|
            0 <= i < items.len() ==> gives_peer(#[trigger] items[i])
    }
}

proof fn lemma_listed_or_not(items: Seq<Value>)
    ensures
        listed_peers(items) is Some <==> forall|i: int|
            0 <= i < items.len() ==> gives_peer(#[trigger] items[i]),
    decreases items.len(),
{
    if items.len() > 0 {
        let init = items.drop_last();
        lemma_listed_or_not(init);
        if listed_peers(items) is Some {
            assert forall|i: int| 0 <= i < items.len() implies gives_peer(#[trigger] items[i]) by {
                if i < init.len() {
                    assert(init[i] == items[i]);
                }
            }
        }
        if forall|i: int| 0 <= i < items.len() ==> gives_peer(#[trigger] items[i]) {
            assert forall|i: int| 0 <= i < init.len() implies gives_peer(#[trigger] init[i]) by {
                assert(init[i] == items[i]);
            }
            assert(gives_peer(items[items.len() - 1]));
        }
    }
}

/// Peers are found in an answer if and only if it begins with a dictionary that holds them.
pub proof fn law_answers_with_peers(s: Seq<u8>)
    ensures
        peers_of(s) is Some <==> (parse_value(s) matches Outcome::Done(Value::Dict(map), _)
            && holds_peers(map)),
{
    if let Outcome::Done(Value::Dict(map), _) = parse_value(s) {
        if map.contains_key(encode_utf8("peers"@)) {
            if let Value::List(items) = map[encode_utf8("peers"@)] {
                lemma_listed_or_not(items);
            }
        }
    }
}

/// A peer is seen by the bytes of its address, or by the text that the address is written as, and
/// by its port.
pub proof fn law_peers_are_seen_as_they_are(
    v4: [u8; 4],
    v6: [u8; 16],
    text: Vec<u8>,
    port: u16,
)
    ensures
        (Peer { host: PeerHost::Address(IpBytes::V4(v4)), port })@ == PeerView::V4(
            v4@,
            port as int,
        ),
        (Peer { host: PeerHost::Address(IpBytes::V6(v6)), port })@ == PeerView::V6(
            v6@,
            port as int,
        ),
        (Peer { host: PeerHost::Text(text), port })@ == PeerView::Text(text@, port as int),
{
}

/// An address is put in place of a text and nothing else: the port stays, and so does a peer whose
/// address is known. Without an address there is no peer.
pub proof fn law_addresses_replace_texts(
    bytes: Seq<u8>,
    port: u16,
    v4: [u8; 4],
    v6: [u8; 16],
    address: Option<IpBytes>,
)
    ensures
        resolved_peer(PeerView::V4(bytes, port as int), address) == Some(
            PeerView::V4(bytes, port as int),
        ),
        resolved_peer(PeerView::V6(bytes, port as int), address) == Some(
            PeerView::V6(bytes, port as int),
        ),
        resolved_peer(PeerView::Text(bytes, port as int), Some(IpBytes::V4(v4))) == Some(
            PeerView::V4(v4@, port as int),
        ),
        resolved_peer(PeerView::Text(bytes, port as int), Some(IpBytes::V6(v6))) == Some(
            PeerView::V6(v6@, port as int),
        ),
        resolved_peer(PeerView::Text(bytes, port as int), None) is None,
{
}

/// Any byte but a dot.
pub open spec fn no_dot() -> spec_fn(u8) -> bool {
    |b: u8| b != 0x2e
}

proof fn lemma_without_dots(version: Seq<u8>)
    ensures
        without_dots(version) == version.filter(no_dot()),
    decreases version.len(),
{
    reveal(Seq::filter);
    if version.len() > 0 {
        lemma_without_dots(version.drop_last());
    }
}

/// A peer ID names the client `MS` behind a hyphen, then the first four bytes of the version that
/// are no dots, filled up with zeroes in front, and ends in a further hyphen and the suffix.
pub proof fn law_peer_id_names_client_and_version(version: Seq<u8>, suffix: Seq<u8>)
    ensures
        ({
            let id = peer_id_bytes(version, suffix);
            let bare = version.filter(no_dot());
            &&& id.len() == 8 + suffix.len()
            &&& id[0] == 0x2d && id[1] == 0x4d && id[2] == 0x53 && id[7] == 0x2d
            &&& forall|k: int|
                0 <= k < 4 ==> #[trigger] id[3 + k] == (if bare.len() >= 4 {
                    bare[k]
                } else if k < 4 - bare.len() {
                    0x30u8
                } else {
                    bare[k - (4 - bare.len())]
                })
            &&& id.skip(8) == suffix
        }),
{
    lemma_without_dots(version);
    assert(peer_id_bytes(version, suffix).skip(8) =~= suffix);
}

} // verus!
