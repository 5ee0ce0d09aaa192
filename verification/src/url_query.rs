//! The query of a URL.
//!
//! A URL is seen by the bytes that it is written with. Its fragment begins at the first `#`, and
//! its query at the first `?` in front of the fragment; the rest is its front.

use percent_encoding::percent_encode_byte;
use reqwest::Url;
use vstd::prelude::*;
use vstd::utf8::encode_utf8;

use crate::text::ascii;

verus! {

/// `#`, in front of a fragment.
pub const HASH: u8 = 0x23;

/// `?`, in front of a query.
pub const QUESTION: u8 = 0x3f;

/// `&`, between two pairs of a query.
pub const AMPERSAND: u8 = 0x26;

/// `=`, between the name and the value of a pair.
pub const EQUALS: u8 = 0x3d;

/// `reqwest::Url`, a URL that has been parsed.
#[verifier::external_type_specification]
#[verifier::external_body]
pub struct ExUrl(Url);

/// The bytes that a URL is written with.
pub uninterp spec fn url_bytes(url: Url) -> Seq<u8>;

/// The URL that a text is parsed as, by the bytes that it is written with; or the message that
/// says why the text is no URL.
pub uninterp spec fn parsed_url(text: Seq<char>) -> Result<Seq<u8>, Seq<char>>;

/// Where the byte `b` first stands in `s`, or the length of `s`.
pub open spec fn first_of(s: Seq<u8>, b: u8) -> int
    decreases s.len(),
{
    if s.len() == 0 || s[0] == b {
        0
    } else {
        1 + first_of(s.drop_first(), b)
    }
}

/// A URL up to its fragment.
pub open spec fn without_fragment(url: Seq<u8>) -> Seq<u8> {
    url.take(first_of(url, HASH))
}

/// The fragment of a URL, with the `#` in front of it; nothing where there is none.
pub open spec fn fragment(url: Seq<u8>) -> Seq<u8> {
    url.skip(first_of(url, HASH))
}

/// A URL up to its query and its fragment.
pub open spec fn front(url: Seq<u8>) -> Seq<u8> {
    without_fragment(url).take(first_of(without_fragment(url), QUESTION))
}

/// Whether a URL has a query.
pub open spec fn has_query(url: Seq<u8>) -> bool {
    first_of(without_fragment(url), QUESTION) < without_fragment(url).len()
}

/// A URL with `query` in place of its query.
pub open spec fn with_query(url: Seq<u8>, query: Seq<u8>) -> Seq<u8> {
    front(url).push(QUESTION) + query + fragment(url)
}

/// Whether the places of the query and of the fragment of a URL with `query` in place of its query
/// fit in 32 bits. The place of the fragment that the URL has is stepped over once.
pub open spec fn places_fit(url: Seq<u8>, query: Seq<u8>) -> bool {
    &&& front(url).len() <= u32::MAX
    &&& fragment(url).len() > 0 ==> without_fragment(url).len() < u32::MAX && front(url).len() + 1
        + query.len() <= u32::MAX
}

/// What separates a further pair from a URL without fragment: the `?` of a query that is not
/// there yet, nothing behind an empty query, and else a `&`.
pub open spec fn separator(url: Seq<u8>) -> Seq<u8> {
    let at = first_of(url, QUESTION);
    if at == url.len() {
        seq![QUESTION]
    } else if at + 1 == url.len() {
        Seq::empty()
    } else {
        seq![AMPERSAND]
    }
}

/// Whether a byte stands for itself in an encoded form: letters, digits and `*-._`.
pub open spec fn form_keeps(b: u8) -> bool {
    is_alphanumeric(b) || b == 0x2a || b == 0x2d || b == 0x2e || b == 0x5f
}

/// An ASCII letter or digit.
pub open spec fn is_alphanumeric(b: u8) -> bool {
    (0x30 <= b <= 0x39) || (0x41 <= b <= 0x5a) || (0x61 <= b <= 0x7a)
}

/// The hexadecimal digit of a number below sixteen, in upper case.
pub open spec fn upper_hex_digit(n: u8) -> u8 {
    if n < 10 {
        (0x30 + n) as u8
    } else {
        (0x41 + (n - 10)) as u8
    }
}

/// A byte as `%` and two hexadecimal digits.
pub open spec fn percent_encoded(b: u8) -> Seq<u8> {
    seq![0x25u8, upper_hex_digit(b / 16), upper_hex_digit(b % 16)]
}

/// A byte in an encoded form: itself, a `+` for a space, or percent-encoded.
pub open spec fn form_byte(b: u8) -> Seq<u8> {
    if form_keeps(b) {
        seq![b]
    } else if b == 0x20 {
        seq![0x2bu8]
    } else {
        percent_encoded(b)
    }
}

/// A byte string in an encoded form.
pub open spec fn form_encoded(bytes: Seq<u8>) -> Seq<u8>
    decreases bytes.len(),
{
    if bytes.len() == 0 {
        Seq::empty()
    } else {
        form_encoded(bytes.drop_last()) + form_byte(bytes.last())
    }
}

/// A pair of a name and a value in an encoded form.
pub open spec fn form_pair(name: Seq<char>, value: Seq<char>) -> Seq<u8> {
    form_encoded(encode_utf8(name)).push(EQUALS) + form_encoded(encode_utf8(value))
}

/// A URL with a further pair at the end of its query.
pub open spec fn with_pair(url: Seq<u8>, name: Seq<char>, value: Seq<char>) -> Seq<u8> {
    without_fragment(url) + separator(without_fragment(url)) + form_pair(name, value) + fragment(
        url,
    )
}

/// Whether a query is written with bytes that stand for themselves in every URL: printable ASCII
/// but for the space and `"#'<>`.
pub open spec fn is_plain_query(query: Seq<u8>) -> bool {
    forall|i: int| 0 <= i < query.len() ==> is_plain_query_byte(#[trigger] query[i])
}

/// Whether a byte stands for itself in the query of every URL.
pub open spec fn is_plain_query_byte(b: u8) -> bool {
    0x21 <= b <= 0x7e && b != 0x22 && b != HASH && b != 0x27 && b != 0x3c && b != 0x3e
}

/// `Url::parse` reads a text as a URL, or says what is wrong with it. What it makes of a text
/// depends on the text alone; the rules of parsing are not described here.
#[verifier::external_body]
pub(crate) fn parse_url(text: &str) -> (r: Result<Url, String>)
    ensures
        match r {
            Ok(url) => parsed_url(text@) == Ok::<Seq<u8>, Seq<char>>(url_bytes(url)),
            Err(message) => parsed_url(text@) == Err::<Seq<u8>, Seq<char>>(message@),
        },
{
    Url::parse(text).map_err(|e| e.to_string())
}

/// `Url::as_str` is the text of the URL.
#[verifier::external_body]
pub(crate) fn bytes_of_url(url: &Url) -> (bytes: &[u8])
    ensures
        bytes@ == url_bytes(*url),
{
    url.as_str().as_bytes()
}

/// `Url::set_query` puts a query in place of the one that the URL has. In the text of a URL the
/// first `#` begins the fragment, and the first `?` in front of it the query. These two places are
/// kept in 32 bits, and that of the fragment is stepped over to read the fragment.
#[verifier::external_body]
pub(crate) fn set_query(url: &mut Url, query: &str)
    requires
        is_plain_query(encode_utf8(query@)),
        places_fit(url_bytes(*old(url)), encode_utf8(query@)),
    ensures
        url_bytes(*final(url)) == with_query(url_bytes(*old(url)), encode_utf8(query@)),
{
    url.set_query(Some(query));
}

/// `Url::query_pairs_mut` and `append_pair` put a further pair at the end of the query, in front of
/// the fragment, in the encoding of HTML forms. The places of a query that is not there yet and of
/// the fragment are kept in 32 bits.
#[verifier::external_body]
pub(crate) fn append_pair(url: &mut Url, name: &str, value: &str)
    requires
        !has_query(url_bytes(*old(url))) ==> without_fragment(url_bytes(*old(url))).len()
            <= u32::MAX,
        fragment(url_bytes(*old(url))).len() > 0 ==> with_pair(
            url_bytes(*old(url)),
            name@,
            value@,
        ).len() - fragment(url_bytes(*old(url))).len() <= u32::MAX,
    ensures
        url_bytes(*final(url)) == with_pair(url_bytes(*old(url)), name@, value@),
{
    url.query_pairs_mut().append_pair(name, value);
}

/// `percent_encode_byte` writes a byte as `%` and two hexadecimal digits in upper case.
#[verifier::external_body]
pub(crate) fn percent_encoded_byte(b: u8) -> (text: &'static str)
    ensures
        text@ == ascii(percent_encoded(b)),
{
    percent_encode_byte(b)
}

/// A byte that does not occur in `a` first occurs behind it.
pub proof fn lemma_first_of_behind(a: Seq<u8>, rest: Seq<u8>, b: u8)
    requires
        forall|i: int| 0 <= i < a.len() ==> #[trigger] a[i] != b,
    ensures
        first_of(a + rest, b) == a.len() + first_of(rest, b),
    decreases a.len(),
{
    if a.len() > 0 {
        let tail = a.drop_first();
        assert forall|i: int| 0 <= i < tail.len() implies #[trigger] tail[i] != b by {
            assert(tail[i] == a[i + 1]);
        }
        lemma_first_of_behind(tail, rest, b);
        assert((a + rest).drop_first() =~= tail + rest);
        assert((a + rest)[0] == a[0]);
    } else {
        assert(a + rest =~= rest);
    }
}

/// The byte that is looked for stands at its first place and nowhere in front of it.
pub proof fn lemma_first_of(s: Seq<u8>, b: u8)
    ensures
        0 <= first_of(s, b) <= s.len(),
        first_of(s, b) < s.len() ==> s[first_of(s, b)] == b,
        forall|i: int| 0 <= i < first_of(s, b) ==> #[trigger] s[i] != b,
    decreases s.len(),
{
    if s.len() > 0 && s[0] != b {
        let tail = s.drop_first();
        lemma_first_of(tail, b);
        assert forall|i: int| 0 <= i < first_of(s, b) implies #[trigger] s[i] != b by {
            if i > 0 {
                assert(tail[i - 1] == s[i]);
            }
        }
    }
}

/// An encoded form holds no `#`.
pub proof fn lemma_form_has_no_hash(bytes: Seq<u8>)
    ensures
        forall|i: int| 0 <= i < form_encoded(bytes).len() ==> #[trigger] form_encoded(bytes)[i]
            != HASH,
    decreases bytes.len(),
{
    if bytes.len() > 0 {
        lemma_form_has_no_hash(bytes.drop_last());
        let init = form_encoded(bytes.drop_last());
        let last = form_byte(bytes.last());
        assert forall|i: int| 0 <= i < form_encoded(bytes).len() implies #[trigger] form_encoded(
            bytes,
        )[i] != HASH by {
            if i >= init.len() {
                assert(form_encoded(bytes)[i] == last[i - init.len()]);
            }
        }
    }
}

/// The parts of a URL with a query that holds no `#`: a front without `?` and `#`, the query,
/// and a fragment that begins with `#` where it is not empty.
pub proof fn lemma_parts(head: Seq<u8>, query: Seq<u8>, tail: Seq<u8>)
    requires
        forall|i: int| 0 <= i < head.len() ==> #[trigger] head[i] != HASH && head[i] != QUESTION,
        forall|i: int| 0 <= i < query.len() ==> #[trigger] query[i] != HASH,
        tail.len() == 0 || tail[0] == HASH,
    ensures
        without_fragment(head.push(QUESTION) + query + tail) == head.push(QUESTION) + query,
        fragment(head.push(QUESTION) + query + tail) == tail,
        front(head.push(QUESTION) + query + tail) == head,
        first_of(head.push(QUESTION) + query, QUESTION) == head.len(),
{
    let body = head.push(QUESTION) + query;
    assert forall|i: int| 0 <= i < body.len() implies #[trigger] body[i] != HASH by {
        if i < head.len() {
            assert(body[i] == head[i]);
        } else if i > head.len() {
            assert(body[i] == query[i - head.len() - 1]);
        }
    }
    lemma_first_of_behind(body, tail, HASH);
    assert((body + tail).take(body.len() as int) =~= body);
    assert((body + tail).skip(body.len() as int) =~= tail);
    lemma_first_of_behind(head, seq![QUESTION] + query, QUESTION);
    assert(head + (seq![QUESTION] + query) =~= body);
    assert(body.take(head.len() as int) =~= head);
}

/// A further pair goes to the end of a query that is there.
#[verifier::rlimit(40)]
pub proof fn lemma_pair_behind_query(
    head: Seq<u8>,
    query: Seq<u8>,
    tail: Seq<u8>,
    name: Seq<char>,
    value: Seq<char>,
)
    requires
        forall|i: int| 0 <= i < head.len() ==> #[trigger] head[i] != HASH && head[i] != QUESTION,
        forall|i: int| 0 <= i < query.len() ==> #[trigger] query[i] != HASH,
        tail.len() == 0 || tail[0] == HASH,
        query.len() > 0,
    ensures
        with_pair(head.push(QUESTION) + query + tail, name, value) == head.push(QUESTION) + (query
            + seq![AMPERSAND] + form_pair(name, value)) + tail,
        fragment(head.push(QUESTION) + query + tail) == tail,
        has_query(head.push(QUESTION) + query + tail),
        forall|i: int|
            0 <= i < (query + seq![AMPERSAND] + form_pair(name, value)).len() ==> #[trigger] (query
                + seq![AMPERSAND] + form_pair(name, value))[i] != HASH,
{
    lemma_parts(head, query, tail);
    assert(with_pair(head.push(QUESTION) + query + tail, name, value) =~= head.push(QUESTION) + (
    query + seq![AMPERSAND] + form_pair(name, value)) + tail);
    let longer = query + seq![AMPERSAND] + form_pair(name, value);
    let n = form_encoded(encode_utf8(name));
    let v = form_encoded(encode_utf8(value));
    lemma_form_has_no_hash(encode_utf8(name));
    lemma_form_has_no_hash(encode_utf8(value));
    assert forall|i: int| 0 <= i < longer.len() implies #[trigger] longer[i] != HASH by {
        let k = query.len() as int;
        if i < k {
            assert(longer[i] == query[i]);
        } else if i == k {
        } else if i < k + 1 + n.len() {
            assert(longer[i] == n[i - k - 1]);
        } else if i > k + 1 + n.len() {
            assert(longer[i] == v[i - k - 2 - n.len()]);
        }
    }
}

/// The parts of every URL are of the shape that `lemma_parts` speaks of.
pub proof fn lemma_shape(url: Seq<u8>)
    ensures
        forall|i: int|
            0 <= i < front(url).len() ==> #[trigger] front(url)[i] != HASH && front(url)[i]
                != QUESTION,
        fragment(url).len() == 0 || fragment(url)[0] == HASH,
        front(url).len() + fragment(url).len() <= url.len(),
{
    lemma_first_of(url, HASH);
    lemma_first_of(without_fragment(url), QUESTION);
    assert forall|i: int| 0 <= i < front(url).len() implies #[trigger] front(url)[i] != HASH
        && front(url)[i] != QUESTION by {
        assert(front(url)[i] == without_fragment(url)[i]);
        assert(front(url)[i] == url[i]);
    }
}

} // verus!
