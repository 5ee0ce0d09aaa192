use mateyship::torrent_parser::{SHA1Hash, Torrent, TorrentFile, TorrentInfo};
use mateyship::tracker::{
    build_peer_id, build_peerlist, build_tracker_url, peer_id, resolve_peers, IpBytes, Peer,
    PeerHost, TrackerUrlError,
};

fn torrent(announce: &str) -> Torrent {
    let mut hash = [b'A'; 20];
    hash[0] = 0x00;
    hash[1] = b' ';
    hash[2] = b'~';
    hash[3] = 0xff;
    hash[4] = b'*';
    hash[5] = b'-';
    hash[6] = b'.';
    hash[7] = b'_';
    hash[8] = b'%';
    Torrent {
        announce: announce.to_string(),
        info: TorrentInfo {
            name: "n".to_string(),
            files: vec![
                TorrentFile {
                    length: 1000,
                    path: vec!["a".to_string()],
                },
                TorrentFile {
                    length: 234,
                    path: vec!["b".to_string()],
                },
            ],
            piece_len: 4,
            pieces: vec![],
        },
        info_hash: SHA1Hash::new(hash),
    }
}

const QUERY: &str = "info_hash=%00%20~%FF%2A-._%25AAAAAAAAAAA&port=6881&uploaded=0&downloaded=0\
                     &compact=1&event=started&left=1234&peer_id=-MS0010-abcdefghijkl";

#[test]
fn the_announcement_is_a_query() {
    let url = build_tracker_url(
        &torrent("http://tracker.test:80/announce"),
        "6881",
        "-MS0010-abcdefghijkl",
    )
    .unwrap();
    assert_eq!(
        url.as_str(),
        format!("http://tracker.test/announce?{}", QUERY)
    );
}

#[test]
fn the_announcement_takes_the_place_of_a_query() {
    let url = build_tracker_url(
        &torrent("https://tracker.test/a?old=1&q=?#part?"),
        "6881",
        "-MS0010-abcdefghijkl",
    )
    .unwrap();
    assert_eq!(
        url.as_str(),
        format!("https://tracker.test/a?{}#part?", QUERY)
    );
}

#[test]
fn pairs_are_encoded_as_in_a_form() {
    let url = build_tracker_url(&torrent("udp://tracker.test"), "68 81", "é*-._~&").unwrap();
    assert!(url.as_str().contains("&port=68+81&"));
    assert!(url.as_str().ends_with("&peer_id=%C3%A9*-._%7E%26"));
}

#[test]
fn trackers_without_url() {
    match build_tracker_url(&torrent("tracker.test"), "6881", "id") {
        Err(TrackerUrlError::InvalidUrl { message }) => {
            assert_eq!(message, "relative URL without a base")
        }
        other => panic!("{:?}", other),
    }
}

#[test]
fn peer_ids() {
    assert_eq!(peer_id("0.1.0", b"abcdefghijkl"), "-MS0010-abcdefghijkl");
    assert_eq!(peer_id("12.34.56", b"x"), "-MS1234-x");
    assert_eq!(peer_id("1.2.3.4", b""), "-MS1234-");
    assert_eq!(peer_id("", b"y"), "-MS0000-y");
}

#[test]
fn fresh_peer_ids() {
    let id = build_peer_id();
    assert_eq!(id.len(), 20);
    assert!(id.starts_with("-MS0010-"));
    assert!(id[8..].bytes().all(|b| b.is_ascii_alphanumeric()));
    assert_ne!(id, build_peer_id());
}

fn v4(a: u8, port: u16) -> Peer {
    Peer {
        host: PeerHost::Address(IpBytes::V4([a, 2, 3, 4])),
        port,
    }
}

#[test]
fn compact_peers() {
    assert_eq!(
        build_peerlist(b"d5:peers12:\x01\x02\x03\x04\x1a\xe1\x05\x02\x03\x04\x00\x50e"),
        Some(vec![v4(1, 6881), v4(5, 80)])
    );
    assert_eq!(build_peerlist(b"d5:peers0:e"), Some(vec![]));
}

#[test]
fn compact_v6_peers_come_behind() {
    let mut response = b"d6:peers618:".to_vec();
    response.extend(0u8..16);
    response.extend([0x01, 0x02]);
    response.extend(b"5:peers6:\x01\x02\x03\x04\x1a\xe1e");
    let mut address = [0u8; 16];
    for (i, byte) in address.iter_mut().enumerate() {
        *byte = i as u8;
    }
    assert_eq!(
        build_peerlist(&response),
        Some(vec![
            v4(1, 6881),
            Peer {
                host: PeerHost::Address(IpBytes::V6(address)),
                port: 0x0102,
            }
        ])
    );
}

#[test]
fn listed_peers() {
    let response = b"d5:peersld2:ip9:127.0.0.14:porti6881eed2:ip3:::14:porti65535eee6:peers6i1ee";
    assert_eq!(
        build_peerlist(response),
        Some(vec![
            Peer {
                host: PeerHost::Text(b"127.0.0.1".to_vec()),
                port: 6881,
            },
            Peer {
                host: PeerHost::Text(b"::1".to_vec()),
                port: 65535,
            },
        ])
    );
}

#[test]
fn answers_without_peers() {
    for response in [
        &b""[..],
        b"le",
        b"de",
        b"d5:peersi1ee",
        b"d5:peers5:aaaaae",
        b"d6:peers617:aaaaaaaaaaaaaaaaae",
        b"d5:peers0:6:peers6lee",
        b"d5:peersli1eee",
        b"d5:peersld2:ip1:aeee",
        b"d5:peersld4:porti1eeee",
        b"d5:peersld2:ip1:a4:porti65536eeee",
        b"d5:peersld2:ip1:a4:porti-1eeee",
    ] {
        assert_eq!(build_peerlist(response), None, "{:?}", response);
    }
}

#[test]
fn texts_of_peers_become_addresses() {
    let text = |port| Peer {
        host: PeerHost::Text(b"::1".to_vec()),
        port,
    };
    let six = IpBytes::V6([1; 16]);
    assert_eq!(
        resolve_peers(vec![v4(1, 2), text(3)], vec![None, Some(six)]),
        Some(vec![(IpBytes::V4([1, 2, 3, 4]), 2), (six, 3)])
    );
    assert_eq!(
        resolve_peers(vec![v4(1, 2), text(3)], vec![Some(six), None]),
        None
    );
    assert_eq!(resolve_peers(vec![], vec![]), Some(vec![]));
}
