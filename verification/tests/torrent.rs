use mateyship::torrent_parser::{SHA1Hash, Torrent, TorrentInfo, TorrentParsingError};
use sha1::{Digest, Sha1};

const PIECES: &str = "aaaaaaaaaaaaaaaaaaaabbbbbbbbbbbbbbbbbbbb";

fn single_file() -> String {
    format!(
        "d8:announce21:http://tracker.test/a4:infod6:lengthi40000e4:name5:a.iso12:piece \
         lengthi32768e6:pieces40:{}ee",
        PIECES
    )
}

fn parse(text: &str) -> Result<Torrent, TorrentParsingError> {
    Torrent::try_from(text.as_bytes())
}

fn refused(text: &str) -> TorrentParsingError {
    parse(text).unwrap_err()
}

fn not_found(field: &str) -> TorrentParsingError {
    TorrentParsingError::FieldNotFound {
        field: field.to_string(),
    }
}

fn with_info(info: &str) -> String {
    format!("d8:announce1:a4:info{}e", info)
}

#[test]
fn a_torrent_of_one_file() {
    let torrent = parse(&single_file()).unwrap();
    assert_eq!(torrent.announce, "http://tracker.test/a");
    assert_eq!(torrent.info.name, "a.iso");
    assert_eq!(torrent.info.piece_len, 32768);
    assert_eq!(torrent.info.files.len(), 1);
    assert_eq!(torrent.info.files[0].length, 40000);
    assert_eq!(torrent.info.files[0].path, vec!["a.iso".to_string()]);
    assert_eq!(
        torrent.info.pieces,
        vec![SHA1Hash::new([b'a'; 20]), SHA1Hash::new([b'b'; 20])]
    );
    assert_eq!(torrent.info.total_len(), Some(40000));
    assert_eq!(torrent.info.root_directory(), None);
}

#[test]
fn a_torrent_of_several_files() {
    let text = with_info(
        "d5:filesld6:lengthi1e4:pathl1:d1:feed6:lengthi2e4:pathl1:geee4:name3:all12:piece \
         lengthi4e6:pieces0:e",
    );
    let torrent = parse(&text).unwrap();
    assert_eq!(torrent.info.files.len(), 2);
    assert_eq!(torrent.info.files[0].length, 1);
    assert_eq!(
        torrent.info.files[0].path,
        vec!["d".to_string(), "f".to_string()]
    );
    assert_eq!(torrent.info.files[1].path, vec!["g".to_string()]);
    assert_eq!(torrent.info.pieces, vec![]);
    assert_eq!(torrent.info.total_len(), Some(3));
    assert_eq!(torrent.info.root_directory(), Some("all"));
}

#[test]
fn files_that_are_no_list_are_passed_over() {
    let text = with_info("d5:filesi1e6:lengthi9e4:name1:n12:piece lengthi4e6:pieces0:e");
    assert_eq!(parse(&text).unwrap().info.files[0].length, 9);
}

#[test]
fn the_info_hash_covers_the_info_dictionary() {
    let text = single_file();
    let start = text.find("4:info").unwrap() + 6;
    let info = &text.as_bytes()[start..text.len() - 1];
    let torrent = parse(&text).unwrap();
    let expected: [u8; 20] = Sha1::digest(info).into();
    assert_eq!(torrent.info_hash.as_ref(), &expected);
}

#[test]
fn the_info_hash_is_that_behind_the_first_info() {
    let text = "d8:announce1:a7:comment6:info4:4:infod6:lengthi9e4:name1:n12:piece lengthi4e6:pieces0:ee";
    let torrent = parse(text).unwrap();
    let expected: [u8; 20] = Sha1::digest(b"4:4:in").into();
    assert_eq!(torrent.info_hash.as_ref(), &expected);
}

#[test]
fn no_value_behind_the_first_info() {
    let text = "d8:announce1:a7:comment4:info4:infod6:lengthi9e4:name1:n12:piece lengthi4e6:pieces0:ee";
    let torrent = parse(text).unwrap();
    let expected: [u8; 20] = Sha1::digest(b"4:info").into();
    assert_eq!(torrent.info_hash.as_ref(), &expected);

    let text = "d8:announce1:a7:comment5:info!4:infod6:lengthi9e4:name1:n12:piece lengthi4e6:pieces0:ee";
    assert_eq!(refused(text), TorrentParsingError::InvalidBencode);
}

#[test]
fn what_follows_the_dictionary_changes_nothing() {
    let text = single_file();
    let longer = format!("{}4:infoi7e", text);
    let (a, b) = (parse(&text).unwrap(), parse(&longer).unwrap());
    assert_eq!(a.info_hash, b.info_hash);
    assert_eq!(a.announce, b.announce);
    assert_eq!(a.info.pieces, b.info.pieces);
}

#[test]
fn hashes() {
    assert_eq!(
        SHA1Hash::of(b"abc").hex(),
        "a9993e364706816aba3e25717850c26c9cd0d89d"
    );
    assert_eq!(
        SHA1Hash::of(b"").hex(),
        "da39a3ee5e6b4b0d3255bfef95601890afd80709"
    );
    assert_eq!(
        format!("{:?}", SHA1Hash::of(b"abc")),
        "a9993e364706816aba3e25717850c26c9cd0d89d"
    );
    assert_eq!(SHA1Hash::default(), SHA1Hash::new([0; 20]));
}

#[test]
fn files_that_are_no_torrents() {
    assert_eq!(refused(""), TorrentParsingError::InvalidBencode);
    assert_eq!(refused("d8:announce"), TorrentParsingError::InvalidBencode);
    assert_eq!(refused("le"), TorrentParsingError::NotADict);
    assert_eq!(refused("de"), not_found("announce"));
    assert_eq!(refused("d8:announcei1ee"), not_found("announce"));
    assert_eq!(refused("d8:announce1:ae"), not_found("info"));
    assert_eq!(
        refused("d8:announce1:a4:infoi1ee"),
        TorrentParsingError::NotADict
    );
}

#[test]
fn texts_must_be_utf8() {
    let mut bytes = b"d8:announce2:".to_vec();
    bytes.extend([0xff, 0xfe]);
    bytes.extend(b"4:infodee");
    assert!(matches!(
        Torrent::try_from(&bytes[..]),
        Err(TorrentParsingError::InvalidString { .. })
    ));
    let text = "d8:announce2:é4:infod6:lengthi9e4:name2:ü12:piece lengthi4e6:pieces0:ee";
    let torrent = parse(text).unwrap();
    assert_eq!(torrent.announce, "é");
    assert_eq!(torrent.info.name, "ü");
}

#[test]
fn contents_that_are_refused() {
    assert_eq!(refused(&with_info("de")), not_found("info[name]"));
    assert_eq!(refused(&with_info("d4:name1:ne")), not_found("info[length]"));
    assert!(matches!(
        refused(&with_info("d6:lengthi-1e4:name1:ne")),
        TorrentParsingError::InvalidFileLen { .. }
    ));
    assert_eq!(
        refused(&with_info("d6:lengthi1e4:name1:ne")),
        not_found("info[piece length]")
    );
    assert!(matches!(
        refused(&with_info("d6:lengthi1e4:name1:n12:piece lengthi-1ee")),
        TorrentParsingError::InvalidPieceLen { .. }
    ));
    assert_eq!(
        refused(&with_info("d6:lengthi1e4:name1:n12:piece lengthi1ee")),
        not_found("info[pieces]")
    );
    assert_eq!(
        refused(&with_info(
            "d6:lengthi1e4:name1:n12:piece lengthi1e6:pieces19:aaaaaaaaaaaaaaaaaaae"
        )),
        TorrentParsingError::MismatchedPieceLength
    );
}

#[test]
fn listed_files_that_are_refused() {
    let with_files = |files: &str| with_info(&format!("d5:filesl{}e4:name1:ne", files));
    assert_eq!(refused(&with_files("i1e")), TorrentParsingError::NotADict);
    assert_eq!(refused(&with_files("de")), not_found("file[length]"));
    assert!(matches!(
        refused(&with_files("d6:lengthi-5ee")),
        TorrentParsingError::InvalidFileLen { .. }
    ));
    assert_eq!(
        refused(&with_files("d6:lengthi5ee")),
        not_found("file[path]")
    );
    assert_eq!(
        refused(&with_files("d6:lengthi5e4:pathl1:ai1eee")),
        TorrentParsingError::InvalidPath
    );
    // The first file that is refused counts.
    assert_eq!(
        refused(&with_files("d6:lengthi5e4:pathl1:aeei1ede")),
        TorrentParsingError::NotADict
    );
}

#[test]
fn lengths_that_exceed_64_bits() {
    let mut torrent = parse(&single_file()).unwrap();
    torrent.info.files[0].length = u64::MAX;
    assert_eq!(torrent.info.total_len(), Some(u64::MAX));
    let mut second = torrent.info.files[0].clone();
    second.length = 1;
    torrent.info.files.push(second);
    assert_eq!(torrent.info.total_len(), None);
}

#[test]
fn contents_can_be_read_alone() {
    let (_, bencode) = mateyship::bencode_parser::parse_bencode(
        b"d6:lengthi9e4:name1:n12:piece lengthi4e6:pieces0:e",
    )
    .unwrap();
    let info = TorrentInfo::try_from(bencode).unwrap();
    assert_eq!(info.name, "n");
    assert_eq!(info.files[0].length, 9);
}
