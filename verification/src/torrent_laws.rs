//! Laws of torrent files: what is read is what stands in the file.

use vstd::prelude::*;
use vstd::utf8::{
    decode_utf8_encode_utf8, encode_utf8, encode_utf8_decode_utf8, encode_utf8_valid_utf8,
    is_ascii_chars_encode_utf8, valid_utf8,
};

use crate::bencode_laws::{
    encode, encode_bytes, encode_entries, entries_denote, last_entry, law_document_reads_back,
    law_last_entry_counts, lemma_encode_entries, representable, Document,
};
use crate::bencode_parser::{
    law_value_consumes_front, parse_value, Outcome, Value, COLON, DICT_START, END,
};
use crate::text::{decimal_digits, utf8_error_of};
use crate::torrent_parser::{
    component_of, file_of, files_of, first_place, hashes_of, info_bytes, info_of,
    law_info_hash_covers_info, length_error, path_of, reason_of, sha1_of, text_of, torrent_of,
    FileView, InfoView, Reason, Torrent, TorrentParsingError, TorrentView,
};

verus! {

/// Byte strings one behind the other.
pub open spec fn joined(parts: Seq<Seq<u8>>) -> Seq<u8>
    decreases parts.len(),
{
    if parts.len() == 0 {
        Seq::empty()
    } else {
        joined(parts.drop_last()) + parts.last()
    }
}

/// Whether each of some byte strings has `n` bytes.
pub open spec fn all_of_len(parts: Seq<Seq<u8>>, n: int) -> bool {
    forall|i: int| 0 <= i < parts.len() ==> (#[trigger] parts[i]).len() == n
}

proof fn lemma_joined_len(parts: Seq<Seq<u8>>, n: int)
    requires
        all_of_len(parts, n),
    ensures
        joined(parts).len() == n * parts.len(),
    decreases parts.len(),
{
    if parts.len() == 0 {
        assert(n * 0 == 0) by (nonlinear_arith);
    } else {
        let init = parts.drop_last();
        assert(all_of_len(init, n)) by {
            assert forall|i: int| 0 <= i < init.len() implies (#[trigger] init[i]).len() == n by {
                assert(init[i] == parts[i]);
            }
        }
        lemma_joined_len(init, n);
        assert(parts.last() == parts[parts.len() - 1]);
        assert(n * parts.len() == n * init.len() + n) by (nonlinear_arith)
            requires
                parts.len() == init.len() + 1,
        ;
    }
}

/// Hashes of twenty bytes that stand one behind the other in a byte string are read off it as they
/// stand there, byte for byte and in their order.
#[verifier::rlimit(40)]
pub proof fn law_hashes_read_back(hashes: Seq<Seq<u8>>)
    requires
        all_of_len(hashes, 20),
    ensures
        hashes_of(joined(hashes)) == hashes,
        joined(hashes).len() == 20 * hashes.len(),
    decreases hashes.len(),
{
    let bytes = joined(hashes);
    lemma_joined_len(hashes, 20);
    if hashes.len() == 0 {
        assert(hashes_of(bytes) =~= hashes);
    } else {
        let init = hashes.drop_last();
        assert(all_of_len(init, 20)) by {
            assert forall|i: int| 0 <= i < init.len() implies (#[trigger] init[i]).len() == 20 by {
                assert(init[i] == hashes[i]);
            }
        }
        law_hashes_read_back(init);
        let front = joined(init);
        let n = init.len() as int;
        assert(hashes.last() == hashes[n]);
        assert forall|i: int| 0 <= i < hashes.len() implies #[trigger] hashes_of(bytes)[i]
            == hashes[i] by {
            if i < n {
                assert(bytes.subrange(20 * i, 20 * i + 20) =~= front.subrange(
                    20 * i,
                    20 * i + 20,
                ));
                assert(hashes_of(front)[i] == init[i]);
            } else {
                assert(bytes.subrange(20 * i, 20 * i + 20) =~= hashes.last());
            }
        }
        assert(hashes_of(bytes) =~= hashes);
    }
}

/// The hashes that are read off a byte string are, one behind the other, that byte string.
#[verifier::rlimit(40)]
pub proof fn law_hashes_are_the_bytes(bytes: Seq<u8>)
    requires
        bytes.len() % 20 == 0,
    ensures
        joined(hashes_of(bytes)) == bytes,
        all_of_len(hashes_of(bytes), 20),
    decreases bytes.len(),
{
    let hashes = hashes_of(bytes);
    let m = bytes.len() as int / 20;
    assert(bytes.len() == 20 * m);
    assert(hashes.len() == m);
    if m == 0 {
        assert(joined(hashes) =~= bytes);
    } else {
        let n = 20 * (m - 1);
        let front = bytes.take(n);
        let init = hashes_of(front);
        assert(front.len() % 20 == 0 && front.len() as int / 20 == m - 1);
        law_hashes_are_the_bytes(front);
        assert(init.len() == m - 1);
        assert forall|i: int| 0 <= i < m - 1 implies #[trigger] init[i] == hashes[i] by {
            assert(front.subrange(20 * i, 20 * i + 20) =~= bytes.subrange(20 * i, 20 * i + 20));
        }
        assert(hashes.drop_last() =~= init);
        assert(hashes.last() == bytes.subrange(n, n + 20));
        assert(front + bytes.subrange(n, n + 20) =~= bytes);
        assert forall|i: int| 0 <= i < hashes.len() implies (#[trigger] hashes[i]).len()
            == 20 by {}
    }
}

/// Whether a map has a value for a key.
pub open spec fn has(map: Map<Seq<u8>, Value>, key: Seq<char>, value: Value) -> bool {
    map.contains_key(encode_utf8(key)) && map[encode_utf8(key)] == value
}

/// Whether a value describes a file: it is a dictionary with the length of the file, which is not
/// negative, and the components of its path in UTF-8.
pub open spec fn describes_file(v: Value, file: FileView) -> bool {
    v matches Value::Dict(map) && file.length >= 0 && has(
        map,
        "length"@,
        Value::Number(file.length),
    ) && has(
        map,
        "path"@,
        Value::List(Seq::new(file.path.len(), |k: int| Value::Bytes(encode_utf8(file.path[k])))),
    )
}

/// Whether a map holds a list for the key `files`.
pub open spec fn lists_files(map: Map<Seq<u8>, Value>) -> bool {
    map.contains_key(encode_utf8("files"@)) && map[encode_utf8("files"@)] is List
}

/// Whether a map describes the contents of a torrent: it holds its name in UTF-8, the length of its
/// pieces, the hashes of twenty bytes of the pieces one behind the other, and the files, either in
/// a list, or as the length of the one file that bears the name of the torrent. Lengths are not
/// negative. Other keys do not matter.
pub open spec fn describes(map: Map<Seq<u8>, Value>, info: InfoView) -> bool {
    &&& has(map, "name"@, Value::Bytes(encode_utf8(info.name)))
    &&& info.piece_len >= 0
    &&& has(map, "piece length"@, Value::Number(info.piece_len))
    &&& all_of_len(info.pieces, 20)
    &&& has(map, "pieces"@, Value::Bytes(joined(info.pieces)))
    &&& if lists_files(map) {
        let items = map[encode_utf8("files"@)]->List_0;
        &&& items.len() == info.files.len()
        &&& forall|i: int|
            0 <= i < items.len() ==> describes_file(#[trigger] items[i], info.files[i])
    } else {
        &&& info.files.len() == 1
        &&& info.files[0].length >= 0
        &&& has(map, "length"@, Value::Number(info.files[0].length))
        &&& info.files[0].path == seq![info.name]
    }
}

proof fn lemma_text(bytes: Seq<u8>, text: Seq<char>)
    ensures
        text_of(bytes) == Ok::<Seq<char>, Reason>(text) <==> bytes == encode_utf8(text),
{
    encode_utf8_valid_utf8(text);
    encode_utf8_decode_utf8(text);
    if text_of(bytes) is Ok {
        decode_utf8_encode_utf8(bytes);
    }
}

/// The values of the components of a path.
spec fn path_values(path: Seq<Seq<char>>) -> Seq<Value> {
    Seq::new(path.len(), |k: int| Value::Bytes(encode_utf8(path[k])))
}

proof fn lemma_path(items: Seq<Value>, path: Seq<Seq<char>>)
    ensures
        path_of(items) == Ok::<Seq<Seq<char>>, Reason>(path) <==> items == path_values(path),
    decreases items.len(),
{
    if items.len() == 0 {
        if items == path_values(path) {
            assert(path =~= Seq::<Seq<char>>::empty());
        }
        assert(path_values(Seq::empty()) =~= items);
    } else {
        let init = items.drop_last();
        if let Ok(read) = path_of(items) {
            if read == path {
                let front = path.drop_last();
                if let Ok(before) = path_of(init) {
                    assert(before =~= front);
                    lemma_path(init, front);
                    if let Value::Bytes(bytes) = items.last() {
                        lemma_text(bytes, path.last());
                    }
                    assert(items =~= init.push(items.last()));
                    assert(items =~= path_values(path));
                }
            }
        }
        if items == path_values(path) {
            let front = path.drop_last();
            assert(path.len() == items.len());
            assert(init =~= path_values(front));
            lemma_path(init, front);
            lemma_text(encode_utf8(path.last()), path.last());
            assert(items.last() == Value::Bytes(encode_utf8(path.last())));
            assert(front.push(path.last()) =~= path);
        }
    }
}

proof fn lemma_file(v: Value, file: FileView)
    ensures
        file_of(v) == Ok::<FileView, Reason>(file) <==> describes_file(v, file),
{
    assert(path_values(file.path) =~= Seq::new(
        file.path.len(),
        |k: int| Value::Bytes(encode_utf8(file.path[k])),
    ));
    if let Value::Dict(map) = v {
        if map.contains_key(encode_utf8("path"@)) {
            if let Value::List(items) = map[encode_utf8("path"@)] {
                lemma_path(items, file.path);
                if let Ok(path) = path_of(items) {
                    lemma_path(items, path);
                }
            }
        }
    }
}

/// Whether values describe files, one by one.
spec fn describe_files(items: Seq<Value>, files: Seq<FileView>) -> bool {
    items.len() == files.len() && forall|i: int|
        0 <= i < items.len() ==> describes_file(#[trigger] items[i], files[i])
}

proof fn lemma_files(items: Seq<Value>, files: Seq<FileView>)
    ensures
        files_of(items) == Ok::<Seq<FileView>, Reason>(files) <==> describe_files(items, files),
    decreases items.len(),
{
    if items.len() == 0 {
        if files.len() == 0 {
            assert(files =~= Seq::<FileView>::empty());
        }
    } else {
        let init = items.drop_last();
        if let Ok(read) = files_of(items) {
            if read == files {
                if let Ok(before) = files_of(init) {
                    assert(before =~= files.drop_last());
                    lemma_files(init, before);
                    lemma_file(items.last(), files.last());
                    assert forall|i: int| 0 <= i < items.len() implies describes_file(
                        #[trigger] items[i],
                        files[i],
                    ) by {
                        if i < init.len() {
                            assert(init[i] == items[i]);
                            assert(before[i] == files[i]);
                        }
                    }
                }
            }
        }
        if describe_files(items, files) {
            let front = files.drop_last();
            assert forall|i: int| 0 <= i < init.len() implies describes_file(
                #[trigger] init[i],
                front[i],
            ) by {
                assert(init[i] == items[i]);
                assert(front[i] == files[i]);
            }
            lemma_files(init, front);
            assert(describes_file(items[items.len() - 1], files[items.len() - 1]));
            lemma_file(items.last(), files.last());
            assert(front.push(files.last()) =~= files);
        }
    }
}

/// The contents of a torrent are read exactly where a dictionary describes them, and then they are
/// what it describes.
pub proof fn law_contents_are_what_is_described(v: Value, info: InfoView)
    ensures
        info_of(v) == Ok::<InfoView, Reason>(info) <==> (v matches Value::Dict(map) && describes(
            map,
            info,
        )),
{
    if let Value::Dict(map) = v {
        if describes(map, info) {
            lemma_described_is_read(map, info);
        }
        if info_of(v) == Ok::<InfoView, Reason>(info) {
            lemma_read_is_described(map, info);
        }
    }
}

proof fn lemma_described_is_read(map: Map<Seq<u8>, Value>, info: InfoView)
    requires
        describes(map, info),
    ensures
        info_of(Value::Dict(map)) == Ok::<InfoView, Reason>(info),
{
    lemma_text(encode_utf8(info.name), info.name);
    law_hashes_read_back(info.pieces);
    if lists_files(map) {
        let items = map[encode_utf8("files"@)]->List_0;
        assert(describe_files(items, info.files));
        lemma_files(items, info.files);
    } else {
        let file = FileView { length: info.files[0].length, path: seq![info.name] };
        assert(info.files[0] == file);
        assert(seq![file] =~= info.files);
    }
}

proof fn lemma_read_is_described(map: Map<Seq<u8>, Value>, info: InfoView)
    requires
        info_of(Value::Dict(map)) == Ok::<InfoView, Reason>(info),
    ensures
        describes(map, info),
{
    let bytes = map[encode_utf8("name"@)]->Bytes_0;
    lemma_text(bytes, info.name);
    let pieces = map[encode_utf8("pieces"@)]->Bytes_0;
    law_hashes_are_the_bytes(pieces);
    if lists_files(map) {
        let items = map[encode_utf8("files"@)]->List_0;
        lemma_files(items, info.files);
    }
}

/// Whether a pattern stands at a place in a byte string.
pub open spec fn stands_at(s: Seq<u8>, pattern: Seq<u8>, i: int) -> bool {
    0 <= i && i + pattern.len() <= s.len() && s.subrange(i, i + pattern.len()) == pattern
}

/// The first place of a pattern is one where it stands, in front of which it stands nowhere; there
/// is none only where it stands nowhere at all.
pub proof fn law_first_place_is_the_first(s: Seq<u8>, pattern: Seq<u8>)
    ensures
        match first_place(s, pattern) {
            Some(i) => stands_at(s, pattern, i as int) && forall|j: int|
                j < i ==> !(#[trigger] stands_at(s, pattern, j)),
            None => forall|j: int| !(#[trigger] stands_at(s, pattern, j)),
        },
    decreases s.len(),
{
    let n = pattern.len() as int;
    if s.len() >= n {
        assert(s.take(n) =~= s.subrange(0, n));
        if s.take(n) != pattern && s.len() > 0 {
            let tail = s.drop_first();
            law_first_place_is_the_first(tail, pattern);
            assert forall|j: int| #[trigger] stands_at(s, pattern, j) implies j > 0 && stands_at(
                tail,
                pattern,
                j - 1,
            ) by {
                if j > 0 {
                    assert(s.subrange(j, j + n) =~= tail.subrange(j - 1, j - 1 + n));
                }
            }
            if let Some(i) = first_place(tail, pattern) {
                assert(s.subrange(i + 1int, i + 1 + n) =~= tail.subrange(i as int, i + n));
                assert forall|j: int| j < i + 1 implies !(#[trigger] stands_at(s, pattern, j)) by {
                    assert(!stands_at(tail, pattern, j - 1));
                }
            }
        }
    }
}

/// A torrent is read exactly where a file begins with a dictionary that holds its tracker in UTF-8
/// and a description of its contents, and a value stands behind the first `info`. It is then what
/// the file says, and its info hash is that of the bytes of the value.
pub proof fn law_torrent_is_what_is_described(s: Seq<u8>, torrent: TorrentView)
    ensures
        torrent_of(s) == Ok::<TorrentView, Reason>(torrent) <==> (parse_value(
            s,
        ) matches Outcome::Done(Value::Dict(map), _) && has(
            map,
            "announce"@,
            Value::Bytes(encode_utf8(torrent.announce)),
        ) && map.contains_key(encode_utf8("info"@)) && (map[encode_utf8(
            "info"@,
        )] matches Value::Dict(contents) && describes(contents, torrent.info)) && (info_bytes(
            s,
        ) matches Some(bytes) && torrent.info_hash == sha1_of(bytes))),
{
    if let Outcome::Done(Value::Dict(map), _) = parse_value(s) {
        let key = encode_utf8("announce"@);
        if map.contains_key(key) {
            if let Value::Bytes(bytes) = map[key] {
                lemma_text(bytes, torrent.announce);
                if let Ok(text) = text_of(bytes) {
                    lemma_text(bytes, text);
                }
            }
        }
        let key = encode_utf8("info"@);
        if map.contains_key(key) {
            law_contents_are_what_is_described(map[key], torrent.info);
            if let Ok(info) = info_of(map[key]) {
                law_contents_are_what_is_described(map[key], info);
            }
        }
    }
}

proof fn lemma_info_key_bytes()
    ensures
        encode_utf8("info"@).len() == 4,
        encode_bytes(encode_utf8("info"@)) == seq![0x34u8, COLON] + encode_utf8("info"@),
{
    reveal_strlit("info");
    is_ascii_chars_encode_utf8("info"@);
    assert(decimal_digits(4) =~= seq![0x34u8]);
    assert(encode_bytes(encode_utf8("info"@)) =~= seq![0x34u8, COLON] + encode_utf8("info"@));
}

proof fn lemma_last_entry_concat(
    a: Seq<(Seq<u8>, Document)>,
    b: Seq<(Seq<u8>, Document)>,
    key: Seq<u8>,
)
    requires
        last_entry(b, key) is None,
    ensures
        last_entry(a + b, key) == last_entry(a, key),
    decreases b.len(),
{
    if b.len() == 0 {
        assert(a + b =~= a);
    } else {
        lemma_last_entry_concat(a, b.drop_last(), key);
        assert((a + b).drop_last() =~= a + b.drop_last());
        assert((a + b).last() == b.last());
    }
}

/// Every torrent that is written down is read as what was written, whatever other keys the two
/// dictionaries hold and whatever stands behind them: the tracker, the name, the files, the length
/// of the pieces and their hashes as they were written, and the hash of the bytes that the contents
/// were written with, where the letters `info` do not stand in front of their key.
#[verifier::rlimit(40)]
pub proof fn law_torrent_file_reads_back(
    before: Seq<(Seq<u8>, Document)>,
    contents: Seq<(Seq<u8>, Document)>,
    after: Seq<(Seq<u8>, Document)>,
    rest: Seq<u8>,
    announce: Seq<char>,
    info: InfoView,
)
    requires
        representable(
            Document::Dict(
                before + seq![(encode_utf8("info"@), Document::Dict(contents))] + after,
            ),
        ),
        last_entry(
            before + seq![(encode_utf8("info"@), Document::Dict(contents))] + after,
            encode_utf8("announce"@),
        ) == Some(Document::Bytes(encode_utf8(announce))),
        last_entry(after, encode_utf8("info"@)) is None,
        describes(entries_denote(contents, Map::empty()), info),
        forall|i: int|
            i < encode_entries(before).len() + 3 ==> !(#[trigger] stands_at(
                encode(
                    Document::Dict(
                        before + seq![(encode_utf8("info"@), Document::Dict(contents))] + after,
                    ),
                ),
                encode_utf8("info"@),
                i,
            )),
    ensures
        torrent_of(
            encode(
                Document::Dict(
                    before + seq![(encode_utf8("info"@), Document::Dict(contents))] + after,
                ),
            ) + rest,
        ) == Ok::<TorrentView, Reason>(
            TorrentView { announce, info, info_hash: sha1_of(encode(Document::Dict(contents))) },
        ),
{
    let key = encode_utf8("info"@);
    let value = Document::Dict(contents);
    let middle = seq![(key, value)];
    let entries = before + middle + after;
    let d = Document::Dict(entries);
    let s = encode(d) + rest;
    let torrent = TorrentView { announce, info, info_hash: sha1_of(encode(value)) };
    law_document_reads_back(d, rest);
    law_last_entry_counts(entries, encode_utf8("announce"@));
    law_last_entry_counts(entries, key);
    lemma_last_entry_concat(before + middle, after, key);
    assert((before + middle).last() == middle[0]);
    assert(last_entry(entries, key) == Some(value));
    // Where the contents stand in the file.
    lemma_info_key_bytes();
    lemma_encode_entries(before + middle, after);
    lemma_encode_entries(before, middle);
    assert(middle.subrange(1, 1) =~= Seq::<(Seq<u8>, Document)>::empty());
    assert(encode_entries(middle) =~= encode_bytes(key) + encode(value)) by {
        assert(encode_entries(Seq::<(Seq<u8>, Document)>::empty()) =~= Seq::<u8>::empty());
    }
    let front = seq![DICT_START] + encode_entries(before) + seq![0x34u8, COLON];
    let behind = encode_entries(after) + seq![END] + rest;
    assert(s =~= front + key + encode(value) + behind);
    let head = front + key;
    assert(stands_at(head, key, front.len() as int)) by {
        assert(head.subrange(front.len() as int, front.len() + 4int) =~= key);
    }
    assert forall|i: int| i < front.len() implies !(#[trigger] stands_at(head, key, i)) by {
        if stands_at(head, key, i) {
            assert(encode(d).subrange(i, i + 4) =~= head.subrange(i, i + 4));
            assert(stands_at(encode(d), key, i));
        }
    }
    law_first_place_is_the_first(head, key);
    assert(first_place(head, key) == Some(front.len()));
    assert(representable(value)) by {
        assert(entries[before.len() as int] == (key, value));
    }
    law_document_reads_back(value, Seq::empty());
    assert(encode(value) + Seq::<u8>::empty() =~= encode(value));
    law_info_hash_covers_info(front, encode(value), behind);
    law_torrent_is_what_is_described(s, torrent);
}

/// Whether a map holds a byte string for a key.
pub open spec fn has_bytes(map: Map<Seq<u8>, Value>, key: Seq<char>) -> bool {
    map.contains_key(encode_utf8(key)) && map[encode_utf8(key)] is Bytes
}

/// Whether a map holds a number for a key.
pub open spec fn has_number(map: Map<Seq<u8>, Value>, key: Seq<char>) -> bool {
    map.contains_key(encode_utf8(key)) && map[encode_utf8(key)] is Number
}

/// Whether a map holds a text for a key: a byte string in UTF-8.
pub open spec fn has_text(map: Map<Seq<u8>, Value>, key: Seq<char>) -> bool {
    exists|text: Seq<char>| #[trigger] has(map, key, Value::Bytes(encode_utf8(text)))
}

/// Whether a map holds a length for a key: a number that is not negative.
pub open spec fn has_length(map: Map<Seq<u8>, Value>, key: Seq<char>) -> bool {
    has_number(map, key) && map[encode_utf8(key)]->Number_0 >= 0
}

proof fn lemma_has_text(map: Map<Seq<u8>, Value>, key: Seq<char>)
    ensures
        has_text(map, key) <==> has_bytes(map, key) && text_of(
            map[encode_utf8(key)]->Bytes_0,
        ) is Ok,
{
    if has_text(map, key) {
        let text = choose|text: Seq<char>| #[trigger]
            has(map, key, Value::Bytes(encode_utf8(text)));
        lemma_text(encode_utf8(text), text);
    }
    if has_bytes(map, key) {
        let bytes = map[encode_utf8(key)]->Bytes_0;
        if let Ok(text) = text_of(bytes) {
            lemma_text(bytes, text);
            assert(has(map, key, Value::Bytes(encode_utf8(text))));
        }
    }
}

/// Why a file that is listed in a torrent is refused: it is no dictionary, its length is missing or
/// negative, its path is missing, or a component of its path is no text. The first of these
/// reasons counts, whatever else is wrong.
pub proof fn law_files_are_refused(map: Map<Seq<u8>, Value>, v: Value, i: int)
    ensures
        !(v is Dict) ==> file_of(v) == Err::<FileView, Reason>(Reason::NotADict),
        !has_number(map, "length"@) ==> file_of(Value::Dict(map)) == Err::<FileView, Reason>(
            Reason::FieldNotFound("file[length]"@),
        ),
        has_number(map, "length"@) && !has_length(map, "length"@) ==> file_of(Value::Dict(map))
            == Err::<FileView, Reason>(
            Reason::InvalidFileLen(length_error(map[encode_utf8("length"@)]->Number_0)),
        ),
        has_length(map, "length"@) && !(map.contains_key(encode_utf8("path"@)) && map[encode_utf8(
            "path"@,
        )] is List) ==> file_of(Value::Dict(map)) == Err::<FileView, Reason>(
            Reason::FieldNotFound("file[path]"@),
        ),
        has_length(map, "length"@) && map.contains_key(encode_utf8("path"@)) && (map[encode_utf8(
            "path"@,
        )] matches Value::List(items) && 0 <= i < items.len() && component_of(items[i]) is Err && (
        forall|j: int| 0 <= j < i ==> component_of(#[trigger] items[j]) is Ok)) ==> (file_of(
            Value::Dict(map),
        ) matches Err(reason) && Err::<Seq<char>, Reason>(reason) == component_of(
            map[encode_utf8("path"@)]->List_0[i],
        )),
{
    if map.contains_key(encode_utf8("path"@)) {
        if let Value::List(items) = map[encode_utf8("path"@)] {
            if 0 <= i < items.len() && component_of(items[i]) is Err && (forall|j: int|
                0 <= j < i ==> component_of(#[trigger] items[j]) is Ok) {
                lemma_path_refused_at(items, i);
            }
        }
    }
}

/// A component of a path is refused if it is no byte string or not in UTF-8.
pub proof fn law_components_are_refused(v: Value)
    ensures
        !(v is Bytes) ==> component_of(v) == Err::<Seq<char>, Reason>(Reason::InvalidPath),
        v matches Value::Bytes(bytes) ==> if valid_utf8(bytes) {
            component_of(v) is Ok
        } else {
            component_of(v) == Err::<Seq<char>, Reason>(
                Reason::InvalidString(utf8_error_of(bytes)),
            )
        },
{
}

proof fn lemma_path_refused_at(items: Seq<Value>, i: int)
    requires
        0 <= i < items.len(),
        component_of(items[i]) is Err,
        forall|j: int| 0 <= j < i ==> component_of(#[trigger] items[j]) is Ok,
    ensures
        path_of(items) matches Err(reason) && Err::<Seq<char>, Reason>(reason) == component_of(
            items[i],
        ),
    decreases items.len(),
{
    let init = items.drop_last();
    if i < init.len() {
        assert(init[i] == items[i]);
        assert forall|j: int| 0 <= j < i implies component_of(#[trigger] init[j]) is Ok by {
            assert(init[j] == items[j]);
        }
        lemma_path_refused_at(init, i);
    } else {
        assert forall|j: int| 0 <= j < init.len() implies component_of(
            #[trigger] init[j],
        ) is Ok by {
            assert(init[j] == items[j]);
        }
        lemma_path_accepted(init);
    }
}

proof fn lemma_path_accepted(items: Seq<Value>)
    requires
        forall|j: int| 0 <= j < items.len() ==> component_of(#[trigger] items[j]) is Ok,
    ensures
        path_of(items) is Ok,
    decreases items.len(),
{
    if items.len() > 0 {
        let init = items.drop_last();
        assert forall|j: int| 0 <= j < init.len() implies component_of(
            #[trigger] init[j],
        ) is Ok by {
            assert(init[j] == items[j]);
        }
        lemma_path_accepted(init);
        assert(component_of(items[items.len() - 1]) is Ok);
    }
}

/// Of several files that are refused the first counts.
pub proof fn law_first_refused_file_counts(items: Seq<Value>, i: int)
    requires
        0 <= i < items.len(),
        file_of(items[i]) is Err,
        forall|j: int| 0 <= j < i ==> file_of(#[trigger] items[j]) is Ok,
    ensures
        files_of(items) matches Err(reason) && Err::<FileView, Reason>(reason) == file_of(
            items[i],
        ),
    decreases items.len(),
{
    let init = items.drop_last();
    if i < init.len() {
        assert(init[i] == items[i]);
        assert forall|j: int| 0 <= j < i implies file_of(#[trigger] init[j]) is Ok by {
            assert(init[j] == items[j]);
        }
        law_first_refused_file_counts(init, i);
    } else {
        assert forall|j: int| 0 <= j < init.len() implies file_of(#[trigger] init[j]) is Ok by {
            assert(init[j] == items[j]);
        }
        lemma_files_accepted(init);
    }
}

proof fn lemma_files_accepted(items: Seq<Value>)
    requires
        forall|j: int| 0 <= j < items.len() ==> file_of(#[trigger] items[j]) is Ok,
    ensures
        files_of(items) is Ok,
    decreases items.len(),
{
    if items.len() > 0 {
        let init = items.drop_last();
        assert forall|j: int| 0 <= j < init.len() implies file_of(#[trigger] init[j]) is Ok by {
            assert(init[j] == items[j]);
        }
        lemma_files_accepted(init);
        assert(file_of(items[items.len() - 1]) is Ok);
    }
}

/// Whether the files of a torrent can be read.
pub open spec fn files_are_good(map: Map<Seq<u8>, Value>) -> bool {
    if lists_files(map) {
        forall|j: int|
            0 <= j < map[encode_utf8("files"@)]->List_0.len() ==> file_of(
                #[trigger] map[encode_utf8("files"@)]->List_0[j],
            ) is Ok
    } else {
        has_length(map, "length"@)
    }
}

/// Why the contents of a torrent are refused: the name is missing or no text, a listed file is
/// refused, the length of the only file is missing or negative, that of the pieces is, the hashes
/// are missing, or they do not have twenty bytes each. The first of these reasons counts, whatever
/// else is wrong.
#[verifier::rlimit(40)]
pub proof fn law_contents_are_refused(map: Map<Seq<u8>, Value>, v: Value)
    ensures
        !(v is Dict) ==> info_of(v) == Err::<InfoView, Reason>(Reason::NotADict),
        !has_bytes(map, "name"@) ==> info_of(Value::Dict(map)) == Err::<InfoView, Reason>(
            Reason::FieldNotFound("info[name]"@),
        ),
        has_bytes(map, "name"@) && !has_text(map, "name"@) ==> info_of(Value::Dict(map)) == Err::<
            InfoView,
            Reason,
        >(Reason::InvalidString(utf8_error_of(map[encode_utf8("name"@)]->Bytes_0))),
        has_text(map, "name"@) ==> {
            &&& lists_files(map) && !files_are_good(map) ==> (info_of(
                Value::Dict(map),
            ) matches Err(reason) && Err::<Seq<FileView>, Reason>(reason) == files_of(
                map[encode_utf8("files"@)]->List_0,
            ))
            &&& !lists_files(map) && !has_number(map, "length"@) ==> info_of(Value::Dict(map))
                == Err::<InfoView, Reason>(Reason::FieldNotFound("info[length]"@))
            &&& !lists_files(map) && has_number(map, "length"@) && !has_length(map, "length"@)
                ==> info_of(Value::Dict(map)) == Err::<InfoView, Reason>(
                Reason::InvalidFileLen(length_error(map[encode_utf8("length"@)]->Number_0)),
            )
        },
        has_text(map, "name"@) && files_are_good(map) ==> {
            &&& !has_number(map, "piece length"@) ==> info_of(Value::Dict(map)) == Err::<
                InfoView,
                Reason,
            >(Reason::FieldNotFound("info[piece length]"@))
            &&& has_number(map, "piece length"@) && !has_length(map, "piece length"@) ==> info_of(
                Value::Dict(map),
            ) == Err::<InfoView, Reason>(
                Reason::InvalidPieceLen(length_error(map[encode_utf8("piece length"@)]->Number_0)),
            )
        },
        has_text(map, "name"@) && files_are_good(map) && has_length(map, "piece length"@) ==> {
            &&& !has_bytes(map, "pieces"@) ==> info_of(Value::Dict(map)) == Err::<
                InfoView,
                Reason,
            >(Reason::FieldNotFound("info[pieces]"@))
            &&& has_bytes(map, "pieces"@) && map[encode_utf8("pieces"@)]->Bytes_0.len() % 20 != 0
                ==> info_of(Value::Dict(map)) == Err::<InfoView, Reason>(
                Reason::MismatchedPieceLength,
            )
            &&& has_bytes(map, "pieces"@) && map[encode_utf8("pieces"@)]->Bytes_0.len() % 20 == 0
                ==> info_of(Value::Dict(map)) is Ok
        },
{
    lemma_has_text(map, "name"@);
    if lists_files(map) {
        let items = map[encode_utf8("files"@)]->List_0;
        if files_are_good(map) {
            lemma_files_accepted(items);
        } else {
            let bad = choose|j: int| 0 <= j < items.len() && !(file_of(#[trigger] items[j]) is Ok);
            lemma_files_refused_somewhere(items, bad);
        }
    }
}

proof fn lemma_files_refused_somewhere(items: Seq<Value>, i: int)
    requires
        0 <= i < items.len(),
        file_of(items[i]) is Err,
    ensures
        files_of(items) is Err,
    decreases items.len(),
{
    let init = items.drop_last();
    if i < init.len() {
        assert(init[i] == items[i]);
        lemma_files_refused_somewhere(init, i);
    }
}

/// Why a torrent file is refused: it is not bencode or no dictionary, its tracker is missing or no
/// text, its contents are missing or refused, or no value stands behind the first `info`. The first
/// of these reasons counts, whatever else is wrong.
pub proof fn law_torrents_are_refused(s: Seq<u8>)
    ensures
        match parse_value(s) {
            Outcome::Fail(..) => torrent_of(s) == Err::<TorrentView, Reason>(
                Reason::InvalidBencode,
            ),
            Outcome::Done(Value::Dict(map), _) => {
                &&& !has_bytes(map, "announce"@) ==> torrent_of(s) == Err::<TorrentView, Reason>(
                    Reason::FieldNotFound("announce"@),
                )
                &&& has_bytes(map, "announce"@) && !has_text(map, "announce"@) ==> torrent_of(s)
                    == Err::<TorrentView, Reason>(
                    Reason::InvalidString(utf8_error_of(map[encode_utf8("announce"@)]->Bytes_0)),
                )
                &&& has_text(map, "announce"@) && !map.contains_key(encode_utf8("info"@))
                    ==> torrent_of(s) == Err::<TorrentView, Reason>(Reason::FieldNotFound("info"@))
                &&& has_text(map, "announce"@) && map.contains_key(encode_utf8("info"@)) ==> {
                    match info_of(map[encode_utf8("info"@)]) {
                        Err(reason) => torrent_of(s) == Err::<TorrentView, Reason>(reason),
                        Ok(_) => info_bytes(s) is None ==> torrent_of(s) == Err::<
                            TorrentView,
                            Reason,
                        >(Reason::InvalidBencode),
                    }
                }
            },
            Outcome::Done(..) => torrent_of(s) == Err::<TorrentView, Reason>(Reason::NotADict),
        },
{
    if let Outcome::Done(Value::Dict(map), _) = parse_value(s) {
        lemma_has_text(map, "announce"@);
    }
}

/// A torrent is seen as what it holds: its tracker, its name, its files with their lengths and the
/// components of their paths, the length of the pieces, their hashes, and its info hash.
pub proof fn law_torrents_are_seen_as_they_are(torrent: Torrent)
    ensures
        torrent@.announce == torrent.announce@,
        torrent@.info_hash == torrent.info_hash@,
        torrent@.info.name == torrent.info.name@,
        torrent@.info.piece_len == torrent.info.piece_len,
        torrent@.info.files.len() == torrent.info.files@.len(),
        forall|i: int|
            0 <= i < torrent.info.files@.len() ==> (#[trigger] torrent@.info.files[i]).length
                == torrent.info.files@[i].length && torrent@.info.files[i].path.len()
                == torrent.info.files@[i].path@.len(),
        forall|i: int, k: int|
            0 <= i < torrent.info.files@.len() && 0 <= k < torrent.info.files@[i].path@.len()
                ==> #[trigger] torrent@.info.files[i].path[k] == torrent.info.files@[i].path@[k]@,
        torrent@.info.pieces.len() == torrent.info.pieces@.len(),
        forall|i: int|
            0 <= i < torrent.info.pieces@.len() ==> #[trigger] torrent@.info.pieces[i]
                == torrent.info.pieces@[i]@,
{
}

/// An error tells the reason of the refusal.
pub proof fn law_errors_tell_reasons(
    text_error: core::str::Utf8Error,
    number_error: core::num::TryFromIntError,
    name: String,
)
    ensures
        reason_of(TorrentParsingError::NotADict) == Reason::NotADict,
        reason_of(TorrentParsingError::InvalidString { source: text_error })
            == Reason::InvalidString(text_error),
        reason_of(TorrentParsingError::FieldNotFound { field: name }) == Reason::FieldNotFound(
            name@,
        ),
        reason_of(TorrentParsingError::InvalidPieceLen { source: number_error })
            == Reason::InvalidPieceLen(number_error),
        reason_of(TorrentParsingError::InvalidFileLen { source: number_error })
            == Reason::InvalidFileLen(number_error),
        reason_of(TorrentParsingError::InvalidPath) == Reason::InvalidPath,
        reason_of(TorrentParsingError::MismatchedPieceLength) == Reason::MismatchedPieceLength,
        reason_of(TorrentParsingError::InvalidBencode) == Reason::InvalidBencode,
{
}

/// The info hash covers the bytes of the value that stands behind the first `info` of a file,
/// wherever that is: they and what is left behind the value make up what stands behind the `info`.
/// There are none where no value stands there, or where there is no `info`.
pub proof fn law_info_bytes_stand_behind_the_first_info(s: Seq<u8>, i: int)
    ensures
        stands_at(s, encode_utf8("info"@), i) && (forall|j: int|
            j < i ==> !(#[trigger] stands_at(s, encode_utf8("info"@), j))) ==> match parse_value(
            s.skip(i + 4),
        ) {
            Outcome::Done(_, rest) => info_bytes(s) matches Some(bytes) && bytes + rest == s.skip(
                i + 4,
            ),
            Outcome::Fail(..) => info_bytes(s) is None,
        },
        (forall|j: int| !(#[trigger] stands_at(s, encode_utf8("info"@), j))) ==> info_bytes(
            s,
        ) is None,
{
    let key = encode_utf8("info"@);
    lemma_info_key_bytes();
    law_first_place_is_the_first(s, key);
    if let Some(at) = first_place(s, key) {
        assert(stands_at(s, key, at as int));
        if stands_at(s, key, i) && (forall|j: int|
            j < i ==> !(#[trigger] stands_at(s, key, j))) {
            assert(at == i);
            let tail = s.skip(i + 4);
            law_value_consumes_front(tail);
            if let Outcome::Done(_, rest) = parse_value(tail) {
                assert(tail.take(tail.len() - rest.len()) + rest =~= tail);
            }
        }
    }
}

} // verus!
