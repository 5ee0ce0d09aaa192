//! Torrent files.
//!
//! A torrent file is a bencoded dictionary. What it must hold stands in the spec functions
//! `torrent_of`, `info_of` and `file_of`, which give a torrent or the reason of a refusal.

use core::fmt::{Debug, Error, Formatter};
use sha1::Digest;
use vstd::prelude::*;
use vstd::slice::slice_subrange;
use vstd::std_specs::convert::{TryFromSpec, TryFromSpecImpl};
use vstd::utf8::{decode_utf8, encode_utf8, is_ascii_chars_encode_utf8, valid_utf8};

use crate::bencode_laws::law_value_ignores_what_follows;
use crate::bencode_parser::{
    law_value_consumes_front, parse_bencode, parse_value, value_of, values_of, Bencode, Outcome,
    Value,
};
use crate::debug_text::{formatted, write_text};
use crate::fields::{
    bytes_field, field, list_field, number_field, take_bytes, take_field, take_list, take_number,
};
use crate::tcp_peer_communicator::same_bytes;
use crate::text::{ascii, hex_digits, hex_text, utf8_error_of};

verus! {

/// A torrent: where its tracker is, what it holds, and the hash by which peers know it.
#[derive(Clone, Debug)]
pub struct Torrent {
    pub announce: String,
    pub info: TorrentInfo,
    pub info_hash: SHA1Hash,
}

/// What a torrent holds: its files, and the hashes of the pieces that they are cut into.
#[derive(Clone, Debug)]
pub struct TorrentInfo {
    pub name: String,
    pub files: Vec<TorrentFile>,
    pub piece_len: u64,
    pub pieces: Vec<SHA1Hash>,
}

/// A file of a torrent. Its path is given by the names of its components.
#[derive(Clone, Debug)]
pub struct TorrentFile {
    pub length: u64,
    pub path: Vec<String>,
}

/// A SHA-1 hash.
#[derive(Clone, Copy, PartialEq, Eq, PartialOrd, Ord, Hash, Default)]
pub struct SHA1Hash([u8; 20]);

/// Why a torrent file is refused.
#[non_exhaustive]
#[derive(Debug, PartialEq, Eq)]
pub enum TorrentParsingError {
    /// A value that must be a dictionary is none.
    NotADict,
    /// A byte string that must be a text is not UTF-8.
    InvalidString { source: core::str::Utf8Error },
    /// A field is missing, or is of another kind.
    FieldNotFound { field: String },
    /// The length of the pieces is negative.
    InvalidPieceLen { source: core::num::TryFromIntError },
    /// The length of a file is negative.
    InvalidFileLen { source: core::num::TryFromIntError },
    /// A path is not a list of strings.
    InvalidPath,
    /// The hashes of the pieces do not have twenty bytes each.
    MismatchedPieceLength,
    /// The file is not bencode.
    InvalidBencode,
}

/// The reason of a refusal.
pub enum Reason {
    NotADict,
    InvalidString(core::str::Utf8Error),
    FieldNotFound(Seq<char>),
    InvalidPieceLen(core::num::TryFromIntError),
    InvalidFileLen(core::num::TryFromIntError),
    InvalidPath,
    MismatchedPieceLength,
    InvalidBencode,
}

/// The reason that an error gives.
pub open spec fn reason_of(e: TorrentParsingError) -> Reason {
    match e {
        TorrentParsingError::NotADict => Reason::NotADict,
        TorrentParsingError::InvalidString { source } => Reason::InvalidString(source),
        TorrentParsingError::FieldNotFound { field } => Reason::FieldNotFound(field@),
        TorrentParsingError::InvalidPieceLen { source } => Reason::InvalidPieceLen(source),
        TorrentParsingError::InvalidFileLen { source } => Reason::InvalidFileLen(source),
        TorrentParsingError::InvalidPath => Reason::InvalidPath,
        TorrentParsingError::MismatchedPieceLength => Reason::MismatchedPieceLength,
        TorrentParsingError::InvalidBencode => Reason::InvalidBencode,
    }
}

/// The SHA-1 hash of a byte string.
pub uninterp spec fn sha1_of(data: Seq<u8>) -> Seq<u8>;

/// `Sha1::digest` hashes a byte string. The hash depends on the bytes alone; the algorithm is not
/// described here.
#[verifier::external_body]
fn sha1_digest(data: &[u8]) -> (hash: [u8; 20])
    ensures
        hash@ == sha1_of(data@),
{
    sha1::Sha1::digest(data).into()
}

impl View for SHA1Hash {
    type V = Seq<u8>;

    closed spec fn view(&self) -> Seq<u8> {
        self.0@
    }
}

impl SHA1Hash {
    /// The hash with these bytes.
    pub fn new(bytes: [u8; 20]) -> (hash: SHA1Hash)
        ensures
            hash@ == bytes@,
    {
        SHA1Hash(bytes)
    }

    /// The hash of `data`.
    pub fn of(data: &[u8]) -> (hash: SHA1Hash)
        ensures
            hash@ == sha1_of(data@),
    {
        SHA1Hash(sha1_digest(data))
    }

    /// The hash in hexadecimal, in lower case.
    pub fn hex(&self) -> (text: String)
        ensures
            text@ == ascii(hex_digits(self@)),
    {
        hex_text(self.0.as_slice())
    }
}

impl Debug for SHA1Hash {
    fn fmt(&self, f: &mut Formatter<'_>) -> (r: Result<(), Error>)
        ensures
            r is Ok ==> formatted(*final(f)) == formatted(*old(f)) + ascii(hex_digits(self@)),
    {
        write_text(f, self.hex().as_str())
    }
}

impl AsRef<[u8; 20]> for SHA1Hash {
    fn as_ref(&self) -> (bytes: &[u8; 20])
        ensures
            bytes@ == self@,
    {
        &self.0
    }
}

/// What a torrent says.
pub struct TorrentView {
    pub announce: Seq<char>,
    pub info: InfoView,
    pub info_hash: Seq<u8>,
}

/// What is said of a torrent's contents.
pub struct InfoView {
    pub name: Seq<char>,
    pub files: Seq<FileView>,
    pub piece_len: int,
    pub pieces: Seq<Seq<u8>>,
}

/// What is said of a file.
pub struct FileView {
    pub length: int,
    pub path: Seq<Seq<char>>,
}

impl View for TorrentFile {
    type V = FileView;

    open spec fn view(&self) -> FileView {
        FileView {
            length: self.length as int,
            path: self.path@.map_values(|component: String| component@),
        }
    }
}

impl View for TorrentInfo {
    type V = InfoView;

    open spec fn view(&self) -> InfoView {
        InfoView {
            name: self.name@,
            files: self.files@.map_values(|file: TorrentFile| file@),
            piece_len: self.piece_len as int,
            pieces: self.pieces@.map_values(|hash: SHA1Hash| hash@),
        }
    }
}

impl View for Torrent {
    type V = TorrentView;

    open spec fn view(&self) -> TorrentView {
        TorrentView {
            announce: self.announce@,
            info: self.info@,
            info_hash: self.info_hash@,
        }
    }
}

/// The text that a byte string encodes, if it is UTF-8.
pub open spec fn text_of(bytes: Seq<u8>) -> Result<Seq<char>, Reason> {
    if valid_utf8(bytes) {
        Ok(decode_utf8(bytes))
    } else {
        Err(Reason::InvalidString(utf8_error_of(bytes)))
    }
}

/// The text in a field that must be there; `name` names it in the refusal.
pub open spec fn required_text(
    map: Map<Seq<u8>, Value>,
    key: Seq<char>,
    name: Seq<char>,
) -> Result<Seq<char>, Reason> {
    match bytes_field(map, key) {
        None => Err(Reason::FieldNotFound(name)),
        Some(bytes) => text_of(bytes),
    }
}

/// The error of converting a negative number to a length.
pub open spec fn length_error(number: int) -> core::num::TryFromIntError {
    <u64 as TryFromSpec<i64>>::try_from_spec(number as i64)->Err_0
}

/// The length in a field that must be there; `name` names it in the refusal. A negative number is
/// refused as the length of a file or of the pieces.
pub open spec fn required_length(
    map: Map<Seq<u8>, Value>,
    key: Seq<char>,
    name: Seq<char>,
    of_file: bool,
) -> Result<int, Reason> {
    match number_field(map, key) {
        None => Err(Reason::FieldNotFound(name)),
        Some(number) => if number >= 0 {
            Ok(number)
        } else if of_file {
            Err(Reason::InvalidFileLen(length_error(number)))
        } else {
            Err(Reason::InvalidPieceLen(length_error(number)))
        },
    }
}

/// A component of a path.
pub open spec fn component_of(v: Value) -> Result<Seq<char>, Reason> {
    match v {
        Value::Bytes(bytes) => text_of(bytes),
        _ => Err(Reason::InvalidPath),
    }
}

/// The components of a path, or the reason to refuse the first that is refused.
pub open spec fn path_of(items: Seq<Value>) -> Result<Seq<Seq<char>>, Reason>
    decreases items.len(),
{
    if items.len() == 0 {
        Ok(Seq::empty())
    } else {
        match path_of(items.drop_last()) {
            Err(reason) => Err(reason),
            Ok(path) => match component_of(items.last()) {
                Err(reason) => Err(reason),
                Ok(component) => Ok(path.push(component)),
            },
        }
    }
}

/// A file of a torrent of several files: a dictionary with its length and its path.
pub open spec fn file_of(v: Value) -> Result<FileView, Reason> {
    match v {
        Value::Dict(map) => match required_length(
            map,
            "length"@,
            "file[length]"@,
            true,
        ) {
            Err(reason) => Err(reason),
            Ok(length) => match list_field(map, "path"@) {
                None => Err(Reason::FieldNotFound("file[path]"@)),
                Some(items) => match path_of(items) {
                    Err(reason) => Err(reason),
                    Ok(path) => Ok(FileView { length, path }),
                },
            },
        },
        _ => Err(Reason::NotADict),
    }
}

/// The files of a torrent of several files, or the reason to refuse the first that is refused.
pub open spec fn files_of(items: Seq<Value>) -> Result<Seq<FileView>, Reason>
    decreases items.len(),
{
    if items.len() == 0 {
        Ok(Seq::empty())
    } else {
        match files_of(items.drop_last()) {
            Err(reason) => Err(reason),
            Ok(files) => match file_of(items.last()) {
                Err(reason) => Err(reason),
                Ok(file) => Ok(files.push(file)),
            },
        }
    }
}

/// The files of a torrent. Without a list of files the torrent is one file, which bears the name
/// of the torrent.
pub open spec fn all_files(map: Map<Seq<u8>, Value>, name: Seq<char>) -> Result<
    Seq<FileView>,
    Reason,
> {
    match list_field(map, "files"@) {
        Some(items) => files_of(items),
        None => match required_length(map, "length"@, "info[length]"@, true) {
            Err(reason) => Err(reason),
            Ok(length) => Ok(seq![FileView { length, path: seq![name] }]),
        },
    }
}

/// The hashes that stand one behind the other in a byte string.
pub open spec fn hashes_of(bytes: Seq<u8>) -> Seq<Seq<u8>> {
    Seq::new(bytes.len() / 20, |i: int| bytes.subrange(20 * i, 20 * i + 20))
}

/// The contents of a torrent. Of several reasons for a refusal the first counts, in the order of
/// the name, the files, the length of the pieces, and the pieces.
pub open spec fn info_of(v: Value) -> Result<InfoView, Reason> {
    match v {
        Value::Dict(map) => match required_text(map, "name"@, "info[name]"@) {
            Err(reason) => Err(reason),
            Ok(name) => match all_files(map, name) {
                Err(reason) => Err(reason),
                Ok(files) => match required_length(
                    map,
                    "piece length"@,
                    "info[piece length]"@,
                    false,
                ) {
                    Err(reason) => Err(reason),
                    Ok(piece_len) => match bytes_field(map, "pieces"@) {
                        None => Err(Reason::FieldNotFound("info[pieces]"@)),
                        Some(bytes) => if bytes.len() % 20 != 0 {
                            Err(Reason::MismatchedPieceLength)
                        } else {
                            Ok(InfoView { name, files, piece_len, pieces: hashes_of(bytes) })
                        },
                    },
                },
            },
        },
        _ => Err(Reason::NotADict),
    }
}

/// Where `pattern` first stands in `s`.
pub open spec fn first_place(s: Seq<u8>, pattern: Seq<u8>) -> Option<nat>
    decreases s.len(),
{
    if s.len() < pattern.len() {
        None
    } else if s.take(pattern.len() as int) == pattern {
        Some(0nat)
    } else if s.len() == 0 {
        None
    } else {
        match first_place(s.drop_first(), pattern) {
            None => None,
            Some(i) => Some(i + 1),
        }
    }
}

/// The bytes that the info hash covers: the value behind the first place where `info` stands.
pub open spec fn info_bytes(s: Seq<u8>) -> Option<Seq<u8>> {
    match first_place(s, encode_utf8("info"@)) {
        None => None,
        Some(i) => {
            let tail = s.skip(i + 4int);
            match parse_value(tail) {
                Outcome::Fail(..) => None,
                Outcome::Done(_, rest) => Some(tail.take(tail.len() - rest.len())),
            }
        },
    }
}

/// The torrent that a torrent file describes.
pub open spec fn torrent_of(s: Seq<u8>) -> Result<TorrentView, Reason> {
    match parse_value(s) {
        Outcome::Fail(..) => Err(Reason::InvalidBencode),
        Outcome::Done(Value::Dict(map), _) => match required_text(
            map,
            "announce"@,
            "announce"@,
        ) {
            Err(reason) => Err(reason),
            Ok(announce) => match field(map, "info"@) {
                None => Err(Reason::FieldNotFound("info"@)),
                Some(v) => match info_of(v) {
                    Err(reason) => Err(reason),
                    Ok(info) => match info_bytes(s) {
                        None => Err(Reason::InvalidBencode),
                        Some(bytes) => Ok(
                            TorrentView { announce, info, info_hash: sha1_of(bytes) },
                        ),
                    },
                },
            },
        },
        Outcome::Done(..) => Err(Reason::NotADict),
    }
}

fn read_text(bytes: &[u8]) -> (r: Result<String, TorrentParsingError>)
    ensures
        match r {
            Ok(text) => text_of(bytes@) == Ok::<Seq<char>, Reason>(text@),
            Err(e) => text_of(bytes@) == Err::<Seq<char>, Reason>(reason_of(e)),
        },
{
    match core::str::from_utf8(bytes) {
        Ok(text) => Ok(text.to_owned()),
        Err(source) => Err(TorrentParsingError::InvalidString { source }),
    }
}

fn not_found(name: &str) -> (e: TorrentParsingError)
    ensures
        reason_of(e) == Reason::FieldNotFound(name@),
{
    TorrentParsingError::FieldNotFound { field: name.to_owned() }
}

/// Once an item is refused, so is every list that goes on behind it.
proof fn lemma_path_refused(items: Seq<Value>, i: int)
    requires
        0 <= i <= items.len(),
        path_of(items.take(i)) is Err,
    ensures
        path_of(items) == path_of(items.take(i)),
    decreases items.len(),
{
    if i < items.len() {
        assert(items.drop_last().take(i) =~= items.take(i));
        lemma_path_refused(items.drop_last(), i);
    } else {
        assert(items.take(i) =~= items);
    }
}

proof fn lemma_files_refused(items: Seq<Value>, i: int)
    requires
        0 <= i <= items.len(),
        files_of(items.take(i)) is Err,
    ensures
        files_of(items) == files_of(items.take(i)),
    decreases items.len(),
{
    if i < items.len() {
        assert(items.drop_last().take(i) =~= items.take(i));
        lemma_files_refused(items.drop_last(), i);
    } else {
        assert(items.take(i) =~= items);
    }
}

fn read_path(items: Vec<Bencode>) -> (r: Result<Vec<String>, TorrentParsingError>)
    ensures
        match r {
            Ok(path) => path_of(values_of(items@)) == Ok::<Seq<Seq<char>>, Reason>(
                path@.map_values(|component: String| component@),
            ),
            Err(e) => path_of(values_of(items@)) == Err::<Seq<Seq<char>>, Reason>(reason_of(e)),
        },
{
    let ghost values = values_of(items@);
    let mut path: Vec<String> = Vec::new();
    proof {
        assert(path@.map_values(|component: String| component@) =~= Seq::<Seq<char>>::empty());
    }
    for item in it: items.into_iter()
        invariant
            values == values_of(it.seq()),
            path_of(values.take(it.index() as int)) == Ok::<Seq<Seq<char>>, Reason>(
                path@.map_values(|component: String| component@),
            ),
    {
        let ghost i = it.index() as int;
        let ghost before = path@;
        proof {
            assert(values.take(i + 1).drop_last() =~= values.take(i));
            assert(values.take(i + 1).last() == value_of(item));
        }
        let component = match item.byte_string() {
            None => Err(TorrentParsingError::InvalidPath),
            Some(bytes) => read_text(bytes.as_slice()),
        };
        match component {
            Err(e) => {
                proof {
                    lemma_path_refused(values, i + 1);
                }
                return Err(e);
            },
            Ok(component) => {
                path.push(component);
                proof {
                    assert(path@.map_values(|component: String| component@)
                        =~= before.map_values(|component: String| component@).push(component@));
                }
            },
        }
    }
    proof {
        assert(values.take(values.len() as int) =~= values);
    }
    Ok(path)
}

/// A number as a length, which is not negative.
fn read_length(number: i64) -> (r: Result<u64, core::num::TryFromIntError>)
    ensures
        match r {
            Ok(length) => number >= 0 && length == number,
            Err(e) => number < 0 && e == length_error(number as int),
        },
{
    u64::try_from(number)
}

impl TryFrom<Bencode> for TorrentFile {
    type Error = TorrentParsingError;

    /// The file that a dictionary describes.
    fn try_from(file_bencode: Bencode) -> (r: Result<Self, TorrentParsingError>)
        ensures
            match r {
                Ok(file) => file_of(file_bencode@) == Ok::<FileView, Reason>(file@),
                Err(e) => file_of(file_bencode@) == Err::<FileView, Reason>(reason_of(e)),
            },
    {
        proof {
            reveal_strlit("length");
            reveal_strlit("path");
        }
        let mut file_dict = match file_bencode.dict() {
            None => {
                return Err(TorrentParsingError::NotADict);
            },
            Some(dict) => dict,
        };
        let length: u64 = match take_number(&mut file_dict, "length") {
            None => {
                return Err(not_found("file[length]"));
            },
            Some(number) => match read_length(number) {
                Err(source) => {
                    return Err(TorrentParsingError::InvalidFileLen { source });
                },
                Ok(length) => length,
            },
        };
        let path = match take_list(&mut file_dict, "path") {
            None => {
                return Err(not_found("file[path]"));
            },
            Some(items) => read_path(items)?,
        };
        Ok(TorrentFile { length, path })
    }
}

impl TryFromSpecImpl<Bencode> for TorrentFile {
    open spec fn obeys_try_from_spec() -> bool {
        false
    }

    open spec fn try_from_spec(file_bencode: Bencode) -> Result<Self, TorrentParsingError> {
        arbitrary()
    }
}

fn read_files(items: Vec<Bencode>) -> (r: Result<Vec<TorrentFile>, TorrentParsingError>)
    ensures
        match r {
            Ok(files) => files_of(values_of(items@)) == Ok::<Seq<FileView>, Reason>(
                files@.map_values(|file: TorrentFile| file@),
            ),
            Err(e) => files_of(values_of(items@)) == Err::<Seq<FileView>, Reason>(reason_of(e)),
        },
{
    let ghost values = values_of(items@);
    let mut files: Vec<TorrentFile> = Vec::new();
    proof {
        assert(files@.map_values(|file: TorrentFile| file@) =~= Seq::<FileView>::empty());
    }
    for item in it: items.into_iter()
        invariant
            values == values_of(it.seq()),
            files_of(values.take(it.index() as int)) == Ok::<Seq<FileView>, Reason>(
                files@.map_values(|file: TorrentFile| file@),
            ),
    {
        let ghost i = it.index() as int;
        let ghost before = files@;
        proof {
            assert(values.take(i + 1).drop_last() =~= values.take(i));
            assert(values.take(i + 1).last() == value_of(item));
        }
        match TorrentFile::try_from(item) {
            Err(e) => {
                proof {
                    lemma_files_refused(values, i + 1);
                }
                return Err(e);
            },
            Ok(file) => {
                files.push(file);
                proof {
                    assert(files@.map_values(|file: TorrentFile| file@) =~= before.map_values(
                        |file: TorrentFile| file@,
                    ).push(file@));
                }
            },
        }
    }
    proof {
        assert(values.take(values.len() as int) =~= values);
    }
    Ok(files)
}

/// Cuts a byte string into hashes.
fn read_hashes(bytes: &[u8]) -> (hashes: Vec<SHA1Hash>)
    requires
        bytes@.len() % 20 == 0,
    ensures
        hashes@.map_values(|hash: SHA1Hash| hash@) == hashes_of(bytes@),
{
    let mut hashes: Vec<SHA1Hash> = Vec::new();
    let total: usize = bytes.len();
    let n: usize = total / 20;
    for i in 0..n
        invariant
            total == bytes@.len(),
            n == total / 20,
            hashes@.len() == i,
            forall|j: int|
                0 <= j < i ==> (#[trigger] hashes@[j])@ == bytes@.subrange(20 * j, 20 * j + 20),
    {
        let mut hash: [u8; 20] = [0u8; 20];
        let start: usize = 20 * i;
        for k in 0..20
            invariant
                total == bytes@.len(),
                start == 20 * i,
                i < total / 20,
                forall|l: int| 0 <= l < k ==> hash@[l] == bytes@[start + l],
        {
            hash[k] = bytes[start + k];
        }
        proof {
            assert(hash@ =~= bytes@.subrange(20 * i, 20 * i + 20));
        }
        hashes.push(SHA1Hash(hash));
    }
    proof {
        assert(hashes@.map_values(|hash: SHA1Hash| hash@) =~= hashes_of(bytes@));
    }
    hashes
}

impl TryFrom<Bencode> for TorrentInfo {
    type Error = TorrentParsingError;

    /// The contents that a dictionary describes.
    fn try_from(info_bencode: Bencode) -> (r: Result<Self, TorrentParsingError>)
        ensures
            match r {
                Ok(info) => info_of(info_bencode@) == Ok::<InfoView, Reason>(info@),
                Err(e) => info_of(info_bencode@) == Err::<InfoView, Reason>(reason_of(e)),
            },
    {
        proof {
            reveal_strlit("name");
            reveal_strlit("files");
            reveal_strlit("length");
            reveal_strlit("piece length");
            reveal_strlit("pieces");
        }
        let mut info_dict = match info_bencode.dict() {
            None => {
                return Err(TorrentParsingError::NotADict);
            },
            Some(dict) => dict,
        };
        let name = match take_bytes(&mut info_dict, "name") {
            None => {
                return Err(not_found("info[name]"));
            },
            Some(bytes) => read_text(bytes.as_slice())?,
        };
        let files = match take_list(&mut info_dict, "files") {
            Some(items) => read_files(items)?,
            None => {
                let length: u64 = match take_number(&mut info_dict, "length") {
                    None => {
                        return Err(not_found("info[length]"));
                    },
                    Some(number) => match read_length(number) {
                        Err(source) => {
                            return Err(TorrentParsingError::InvalidFileLen { source });
                        },
                        Ok(length) => length,
                    },
                };
                let file = TorrentFile { length, path: vec![name.clone()] };
                proof {
                    assert(file@.path =~= seq![name@]);
                }
                let ghost only = file@;
                let files = vec![file];
                proof {
                    assert(files@.map_values(|file: TorrentFile| file@) =~= seq![only]);
                }
                files
            },
        };
        let piece_len: u64 = match take_number(&mut info_dict, "piece length") {
            None => {
                return Err(not_found("info[piece length]"));
            },
            Some(number) => match read_length(number) {
                Err(source) => {
                    return Err(TorrentParsingError::InvalidPieceLen { source });
                },
                Ok(length) => length,
            },
        };
        let all_pieces = match take_bytes(&mut info_dict, "pieces") {
            None => {
                return Err(not_found("info[pieces]"));
            },
            Some(bytes) => bytes,
        };
        if all_pieces.len() % 20 != 0 {
            return Err(TorrentParsingError::MismatchedPieceLength);
        }
        let pieces = read_hashes(all_pieces.as_slice());
        Ok(TorrentInfo { name, files, piece_len, pieces })
    }
}

impl TryFromSpecImpl<Bencode> for TorrentInfo {
    open spec fn obeys_try_from_spec() -> bool {
        false
    }

    open spec fn try_from_spec(info_bencode: Bencode) -> Result<Self, TorrentParsingError> {
        arbitrary()
    }
}

/// Where `pattern` first stands in `s`.
fn find_first(s: &[u8], pattern: &[u8]) -> (r: Option<usize>)
    ensures
        match r {
            Some(i) => first_place(s@, pattern@) == Some(i as nat) && i + pattern@.len()
                <= s@.len(),
            None => first_place(s@, pattern@) is None,
        },
{
    let mut i: usize = 0;
    proof {
        assert(s@.skip(0) =~= s@);
    }
    while pattern.len() <= s.len() - i
        invariant
            i <= s@.len(),
            first_place(s@, pattern@) == (match first_place(s@.skip(i as int), pattern@) {
                None => None,
                Some(j) => Some((i + j) as nat),
            }),
        decreases s@.len() - i,
    {
        let window = slice_subrange(s, i, i + pattern.len());
        proof {
            assert(window@ =~= s@.skip(i as int).take(pattern@.len() as int));
        }
        if same_bytes(window, pattern) {
            return Some(i);
        }
        if i == s.len() {
            return None;
        }
        proof {
            assert(s@.skip(i as int).drop_first() =~= s@.skip(i + 1));
        }
        i = i + 1;
    }
    None
}

/// The bytes that the info hash covers.
fn find_info_bytes<'a>(torrent_bytes: &'a [u8]) -> (r: Option<&'a [u8]>)
    ensures
        match r {
            Some(bytes) => info_bytes(torrent_bytes@) == Some(bytes@),
            None => info_bytes(torrent_bytes@) is None,
        },
{
    proof {
        lemma_info_key();
    }
    let total: usize = torrent_bytes.len();
    match find_first(torrent_bytes, "info".as_bytes()) {
        None => None,
        Some(i) => {
            let tail = slice_subrange(torrent_bytes, i + 4, total);
            proof {
                assert(tail@ =~= torrent_bytes@.skip(i + 4));
                law_value_consumes_front(tail@);
            }
            match parse_bencode(tail) {
                Err(_) => None,
                Ok((rest, _)) => {
                    let bytes = slice_subrange(tail, 0, tail.len() - rest.len());
                    proof {
                        assert(bytes@ =~= tail@.take(tail@.len() - rest@.len()));
                    }
                    Some(bytes)
                },
            }
        },
    }
}

proof fn lemma_info_key()
    ensures
        encode_utf8("info"@).len() == 4,
{
    reveal_strlit("info");
    is_ascii_chars_encode_utf8("info"@);
}

impl<'a> TryFrom<&'a [u8]> for Torrent {
    type Error = TorrentParsingError;

    /// The torrent that a torrent file describes.
    fn try_from(torrent_bytes: &'a [u8]) -> (r: Result<Self, TorrentParsingError>)
        ensures
            match r {
                Ok(torrent) => torrent_of(torrent_bytes@) == Ok::<TorrentView, Reason>(torrent@),
                Err(e) => torrent_of(torrent_bytes@) == Err::<TorrentView, Reason>(reason_of(e)),
            },
    {
        proof {
            reveal_strlit("announce");
            reveal_strlit("info");
        }
        let mut torrent_dict = match parse_bencode(torrent_bytes) {
            Err(_) => {
                return Err(TorrentParsingError::InvalidBencode);
            },
            Ok((_, bencode)) => match bencode.dict() {
                None => {
                    return Err(TorrentParsingError::NotADict);
                },
                Some(dict) => dict,
            },
        };
        let announce = match take_bytes(&mut torrent_dict, "announce") {
            None => {
                return Err(not_found("announce"));
            },
            Some(bytes) => read_text(bytes.as_slice())?,
        };
        let info = match take_field(&mut torrent_dict, "info") {
            None => {
                return Err(not_found("info"));
            },
            Some(value) => TorrentInfo::try_from(value)?,
        };
        let info_hash = match find_info_bytes(torrent_bytes) {
            None => {
                return Err(TorrentParsingError::InvalidBencode);
            },
            Some(bytes) => SHA1Hash::of(bytes),
        };
        Ok(Torrent { announce, info, info_hash })
    }
}

impl<'a> TryFromSpecImpl<&'a [u8]> for Torrent {
    open spec fn obeys_try_from_spec() -> bool {
        false
    }

    open spec fn try_from_spec(torrent_bytes: &'a [u8]) -> Result<Self, TorrentParsingError> {
        arbitrary()
    }
}

/// What stands behind the first place of a pattern does not move it.
proof fn lemma_first_place_stays(s: Seq<u8>, t: Seq<u8>, pattern: Seq<u8>)
    requires
        first_place(s, pattern) is Some,
    ensures
        first_place(s + t, pattern) == first_place(s, pattern),
    decreases s.len(),
{
    let n = pattern.len() as int;
    assert((s + t).take(n) =~= s.take(n));
    if s.take(n) != pattern {
        assert((s + t).drop_first() =~= s.drop_first() + t);
        lemma_first_place_stays(s.drop_first(), t, pattern);
    }
}

/// The info hash covers the bytes of the value behind the key `info`, as they stand in the file,
/// where the file does not hold these four letters earlier.
pub proof fn law_info_hash_covers_info(front: Seq<u8>, value: Seq<u8>, rest: Seq<u8>)
    requires
        first_place(front + encode_utf8("info"@), encode_utf8("info"@)) == Some(front.len()),
        parse_value(value) matches Outcome::Done(_, behind) && behind.len() == 0,
    ensures
        info_bytes(front + encode_utf8("info"@) + value + rest) == Some(value),
{
    lemma_info_key();
    let key = encode_utf8("info"@);
    let s = front + key + value + rest;
    assert(s =~= (front + key) + (value + rest));
    lemma_first_place_stays(front + key, value + rest, key);
    assert(s.skip(front.len() + 4int) =~= value + rest);
    law_value_ignores_what_follows(value, rest);
    if let Outcome::Done(v, behind) = parse_value(value) {
        assert(behind + rest =~= rest);
        assert((value + rest).take(value.len() as int) =~= value);
    }
}

/// What stands behind the dictionary of a torrent file changes nothing.
pub proof fn law_torrent_ignores_what_follows(s: Seq<u8>, t: Seq<u8>)
    ensures
        torrent_of(s) is Ok ==> torrent_of(s + t) == torrent_of(s),
{
    if torrent_of(s) is Ok {
        law_value_ignores_what_follows(s, t);
        let key = encode_utf8("info"@);
        lemma_info_key();
        lemma_first_place_stays(s, t, key);
        lemma_first_place_bound(s, key);
        if let Some(i) = first_place(s, key) {
            let tail = s.skip(i + 4int);
            assert((s + t).skip(i + 4int) =~= tail + t);
            law_value_ignores_what_follows(tail, t);
            law_value_consumes_front(tail);
            if let Outcome::Done(_, rest) = parse_value(tail) {
                assert((tail + t).take(tail.len() - rest.len()) =~= tail.take(
                    tail.len() - rest.len(),
                ));
            }
        }
    }
}

proof fn lemma_first_place_bound(s: Seq<u8>, pattern: Seq<u8>)
    ensures
        first_place(s, pattern) matches Some(i) ==> i + pattern.len() <= s.len(),
    decreases s.len(),
{
    if s.len() > 0 {
        lemma_first_place_bound(s.drop_first(), pattern);
    }
}

/// The sum of the lengths of files.
pub open spec fn total_length(files: Seq<FileView>) -> int
    decreases files.len(),
{
    if files.len() == 0 {
        0
    } else {
        total_length(files.drop_last()) + files.last().length
    }
}

/// More files are no shorter.
proof fn lemma_total_length_grows(files: Seq<TorrentFile>, i: int)
    requires
        0 <= i <= files.len(),
    ensures
        0 <= total_length(files.take(i).map_values(|file: TorrentFile| file@)) <= total_length(
            files.map_values(|file: TorrentFile| file@),
        ),
    decreases files.len(),
{
    let all = files.map_values(|file: TorrentFile| file@);
    if i < files.len() {
        let init = files.drop_last();
        lemma_total_length_grows(init, i);
        assert(init.take(i) =~= files.take(i));
        assert(all.drop_last() =~= init.map_values(|file: TorrentFile| file@));
        assert(all.last() == files.last()@);
    } else if i > 0 {
        let init = files.drop_last();
        lemma_total_length_grows(init, i - 1);
        assert(init.take(i - 1) =~= init);
        assert(files.take(i) =~= files);
        assert(all.drop_last() =~= init.map_values(|file: TorrentFile| file@));
        assert(all.last() == files.last()@);
    } else {
        assert(files.take(i) =~= files);
        assert(all =~= Seq::<FileView>::empty());
    }
}

impl TorrentInfo {
    /// The length of all files together, if it fits in 64 bits.
    pub fn total_len(&self) -> (r: Option<u64>)
        ensures
            match r {
                Some(len) => len == total_length(self@.files),
                None => total_length(self@.files) > u64::MAX,
            },
    {
        let mut total: u64 = 0;
        proof {
            assert(self.files@.take(0).map_values(|file: TorrentFile| file@) =~= Seq::<
                FileView,
            >::empty());
        }
        for i in 0..self.files.len()
            invariant
                total == total_length(
                    self.files@.take(i as int).map_values(|file: TorrentFile| file@),
                ),
        {
            proof {
                let next = self.files@.take(i + 1).map_values(|file: TorrentFile| file@);
                assert(next.drop_last() =~= self.files@.take(i as int).map_values(
                    |file: TorrentFile| file@,
                ));
                assert(next.last() == self.files@[i as int]@);
                lemma_total_length_grows(self.files@, i + 1);
            }
            if self.files[i].length > u64::MAX - total {
                return None;
            }
            total = total + self.files[i].length;
        }
        proof {
            assert(self.files@.take(self.files@.len() as int) =~= self.files@);
        }
        Some(total)
    }

    /// The directory that the files go into: none for a single file, else one that bears the name
    /// of the torrent.
    pub fn root_directory(&self) -> (r: Option<&str>)
        ensures
            match r {
                Some(root) => self@.files.len() != 1 && root@ == self@.name,
                None => self@.files.len() == 1,
            },
    {
        if self.files.len() == 1 {
            None
        } else {
            Some(self.name.as_str())
        }
    }
}

} // verus!
