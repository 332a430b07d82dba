//! What a torrent is known by: its info hash, its trackers, and the hashes its
//! pieces are checked against.
use magnet_url::Magnet;
use sha1::Digest;
use vstd::prelude::*;

verus! {

/// The SHA-1 digest of some bytes.
pub uninterp spec fn sha1_digest(data: Seq<u8>) -> Seq<u8>;

/// The SHA-256 digest of some bytes.
pub uninterp spec fn sha256_digest(data: Seq<u8>) -> Seq<u8>;

/// What `urlencoding::decode` makes of a string: the percent-decoded text, or
/// nothing when the decoded bytes are not UTF-8.
pub uninterp spec fn url_decoded(s: Seq<char>) -> Option<Seq<char>>;

/// SHA-1 of `data` (`sha1::Sha1::digest`): its twenty bytes, named
/// `sha1_digest`.
#[verifier::external_body]
fn sha1_of(data: &[u8]) -> (d: Vec<u8>)
    ensures
        d@ == sha1_digest(data@),
        d@.len() == 20,
{
    sha1::Sha1::digest(data).to_vec()
}

/// SHA-256 of `data` (`sha2::Sha256::digest`): its thirty-two bytes, named
/// `sha256_digest`.
#[verifier::external_body]
fn sha256_of(data: &[u8]) -> (d: Vec<u8>)
    ensures
        d@ == sha256_digest(data@),
        d@.len() == 32,
{
    sha2::Sha256::digest(data).to_vec()
}

/// `urlencoding::decode`: the decoded string, or `None` where the crate
/// reports invalid UTF-8. The source returns its input unchanged when it holds
/// no `%`; what it makes of escapes is left to the name `url_decoded`.
#[verifier::external_body]
fn decode_url(s: &str) -> (r: Option<String>)
    ensures
        r is Some ==> url_decoded(s@) == Some(r->0@),
        r is None ==> url_decoded(s@) is None,
        !s@.contains('%') ==> r is Some && r->0@ == s@,
{
    match urlencoding::decode(s) {
        Ok(d) => Some(d.into_owned()),
        Err(_) => None,
    }
}

/// The text of each string.
pub open spec fn views(v: Seq<String>) -> Seq<Seq<char>> {
    v.map_values(|x: String| x@)
}

/// Text that `Magnet::new` accepts: it starts with "magnet:?".
pub open spec fn has_magnet_prefix(link: Seq<char>) -> bool {
    link.len() >= 8 && link.subrange(0, 8) == seq!['m', 'a', 'g', 'n', 'e', 't', ':', '?']
}

/// The `tr` values that `magnet_url` parses out of a magnet link, in order.
pub uninterp spec fn magnet_tr_entries(link: Seq<char>) -> Seq<Seq<char>>;

/// `Magnet::new` followed by `Magnet::trackers`: `None` exactly when the
/// text does not start with "magnet:?" (the crate's only error), else the
/// link's `tr` values, named `magnet_tr_entries`.
#[verifier::external_body]
fn magnet_tr_list(link: &str) -> (r: Option<Vec<String>>)
    ensures
        r is None <==> !has_magnet_prefix(link@),
        r is Some ==> views(r->0@) == magnet_tr_entries(link@),
{
    match Magnet::new(link) {
        Ok(m) => Some(m.trackers().to_vec()),
        Err(_) => None,
    }
}

// ---------------------------------------------------------------------------
// Info hash
// ---------------------------------------------------------------------------

/// The info hash of a torrent: SHA-1 of the bencoded info dictionary, except
/// for a pure v2 torrent (meta version 2 and no v1 piece hashes), whose info
/// hash is the first twenty bytes of its SHA-256.
pub open spec fn spec_info_hash(info: Seq<u8>, meta_version: Option<i64>, has_v1_pieces: bool) -> Seq<
    u8,
> {
    if meta_version == Some(2i64) && !has_v1_pieces {
        sha256_digest(info).subrange(0, 20)
    } else {
        sha1_digest(info)
    }
}

/// The twenty bytes of a v2 info hash, cut from a SHA-256 digest.
pub fn truncate_v2_info_hash(digest: &[u8]) -> (h: Vec<u8>)
    requires
        digest@.len() >= 20,
    ensures
        h@ == digest@.subrange(0, 20),
{
    let mut h: Vec<u8> = Vec::new();
    let mut i: usize = 0;
    while i < 20
        invariant
            0 <= i <= 20,
            digest@.len() >= 20,
            h@ == digest@.subrange(0, i as int),
        decreases 20 - i,
    {
        h.push(digest[i]);
        i = i + 1;
    }
    h
}

/// The info hash of a torrent from its bencoded info dictionary.
pub fn compute_info_hash(info_dict_bencode: &[u8], meta_version: Option<i64>, has_v1_pieces: bool) -> (h: Vec<u8>)
    ensures
        h@ == spec_info_hash(info_dict_bencode@, meta_version, has_v1_pieces),
        h@.len() == 20,
{
    let pure_v2 = match meta_version {
        Some(v) => v == 2 && !has_v1_pieces,
        None => false,
    };
    if pure_v2 {
        let d = sha256_of(info_dict_bencode);
        truncate_v2_info_hash(&d)
    } else {
        sha1_of(info_dict_bencode)
    }
}

/// The hash a magnet link is joined by: its v1 hash when it has one, else its
/// v2 hash.
pub open spec fn spec_select_info_hash(v1: Option<Seq<u8>>, v2: Option<Seq<u8>>) -> Option<Seq<u8>> {
    match v1 {
        Some(h) => Some(h),
        None => v2,
    }
}

/// The hash a magnet link is joined by, or an error when
/// the link carries neither a v1 nor a v2 hash.
pub fn select_info_hash(v1: Option<Vec<u8>>, v2: Option<Vec<u8>>) -> (h: Result<Vec<u8>, String>)
    ensures
        match h {
            Ok(bytes) => v1 is Some && bytes@ == v1->0@ || v1 is None && v2 is Some && bytes@ == v2->0@,
            Err(_) => v1 is None && v2 is None,
        },
{
    match (v1, v2) {
        (Some(a), _) => Ok(a),
        (None, Some(b)) => Ok(b),
        (None, None) => Err(String::from_str("No valid hashes found")),
    }
}

// ---------------------------------------------------------------------------
// Trackers of a magnet link
// ---------------------------------------------------------------------------

/// A tracker entry worth announcing to: one that starts with "http".
pub open spec fn is_http_tracker(t: Seq<char>) -> bool {
    t.len() >= 4 && t[0] == 'h' && t[1] == 't' && t[2] == 't' && t[3] == 'p'
}

/// `url` is what one raw entry decodes to.
pub open spec fn decodes_to(raw: Seq<Seq<char>>, url: Seq<char>) -> bool {
    exists|i: int|
        0 <= i < raw.len() && is_http_tracker(raw[i]) && #[trigger] url_decoded(raw[i]) == Some(
            url,
        )
}

/// The tracker list of a magnet link: each http(s) entry decoded, once each,
/// entries that do not decode left out.
pub open spec fn is_tracker_list(raw: Seq<Seq<char>>, urls: Seq<String>) -> bool {
    &&& forall|k: int| 0 <= k < urls.len() ==> decodes_to(raw, #[trigger] urls[k]@)
    &&& forall|i: int|
        0 <= i < raw.len() && is_http_tracker(raw[i]) && (#[trigger] url_decoded(raw[i])) is Some
            ==> exists|k: int| 0 <= k < urls.len() && Some(#[trigger] urls[k]@) == url_decoded(raw[i])
    &&& forall|a: int, b: int| 0 <= a < b < urls.len() ==> (#[trigger] urls[a])@ != (#[trigger] urls[b])@
}

fn starts_with_http(s: &str) -> (b: bool)
    ensures
        b == is_http_tracker(s@),
{
    if s.unicode_len() < 4 {
        return false;
    }
    s.get_char(0) == 'h' && s.get_char(1) == 't' && s.get_char(2) == 't' && s.get_char(3) == 'p'
}

fn contains_string(v: &Vec<String>, s: &String) -> (found: bool)
    ensures
        found == exists|k: int| 0 <= k < v@.len() && (#[trigger] v@[k])@ == s@,
{
    let mut i: usize = 0;
    while i < v.len()
        invariant
            0 <= i <= v@.len(),
            forall|k: int| 0 <= k < i ==> (#[trigger] v@[k])@ != s@,
        decreases v@.len() - i,
    {
        if v[i] == *s {
            return true;
        }
        i = i + 1;
    }
    false
}

/// The tracker URLs of a list of raw `tr` entries: those starting with
/// "http", percent-decoded, each kept once (in the order first seen); entries
/// that fail to decode are dropped.
pub fn tracker_urls(raw: &[String]) -> (urls: Vec<String>)
    ensures
        is_tracker_list(views(raw@), urls@),
{
    let mut urls: Vec<String> = Vec::new();
    let mut i: usize = 0;
    while i < raw.len()
        invariant
            0 <= i <= raw@.len(),
            forall|k: int| 0 <= k < urls@.len() ==> decodes_to(views(raw@), #[trigger] urls@[k]@),
            forall|j: int|
                0 <= j < i && is_http_tracker(views(raw@)[j]) && (#[trigger] url_decoded(views(raw@)[j])) is Some
                    ==> exists|k: int|
                    0 <= k < urls@.len() && Some(#[trigger] urls@[k]@) == url_decoded(views(raw@)[j]),
            forall|a: int, b: int|
                0 <= a < b < urls@.len() ==> (#[trigger] urls@[a])@ != (#[trigger] urls@[b])@,
        decreases raw@.len() - i,
    {
        let entry = raw[i].as_str();
        if starts_with_http(entry) {
            if let Some(url) = decode_url(entry) {
                proof {
                    assert(url_decoded(views(raw@)[i as int]) == Some(url@));
                }
                if !contains_string(&urls, &url) {
                    let ghost before = urls@;
                    urls.push(url);
                    proof {
                        let n = urls@.len() - 1;
                        assert(decodes_to(views(raw@), urls@[n]@));
                        assert forall|k: int| 0 <= k < urls@.len() implies decodes_to(
                            views(raw@),
                            #[trigger] urls@[k]@,
                        ) by {
                            if k < n {
                                assert(urls@[k] == before[k]);
                            }
                        }
                        assert forall|j: int|
                            0 <= j < i + 1 && is_http_tracker(views(raw@)[j]) && (#[trigger] url_decoded(
                                views(raw@)[j],
                            )) is Some implies exists|k: int|
                            0 <= k < urls@.len() && Some(#[trigger] urls@[k]@) == url_decoded(
                                views(raw@)[j],
                            ) by {
                            if j < i {
                                let k = choose|k: int|
                                    0 <= k < before.len() && Some(#[trigger] before[k]@)
                                        == url_decoded(views(raw@)[j]);
                                assert(urls@[k] == before[k]);
                            } else {
                                assert(urls@[n]@ == url@);
                            }
                        }
                        assert forall|a: int, b: int|
                            0 <= a < b < urls@.len() implies (#[trigger] urls@[a])@ != (
                            #[trigger] urls@[b])@ by {
                            if b == n {
                                assert(urls@[a] == before[a]);
                            } else {
                                assert(urls@[a] == before[a] && urls@[b] == before[b]);
                            }
                        }
                    }
                } else {
                    proof {
                        assert forall|j: int|
                            0 <= j < i + 1 && is_http_tracker(views(raw@)[j]) && (#[trigger] url_decoded(
                                views(raw@)[j],
                            )) is Some implies exists|k: int|
                            0 <= k < urls@.len() && Some(#[trigger] urls@[k]@) == url_decoded(
                                views(raw@)[j],
                            ) by {
                            if j == i {
                                let k = choose|k: int|
                                    0 <= k < urls@.len() && (#[trigger] urls@[k])@ == url@;
                                assert(Some(urls@[k]@) == url_decoded(views(raw@)[j]));
                            }
                        }
                    }
                }
            }
        }
        i = i + 1;
    }
    urls
}

/// The tracker URLs of a magnet link (see `tracker_urls`), or `None` when the
/// text is not a magnet link.
pub fn magnet_tracker_urls(link: &str) -> (urls: Option<Vec<String>>)
    ensures
        urls is None <==> !has_magnet_prefix(link@),
        urls matches Some(u) ==> is_tracker_list(magnet_tr_entries(link@), u@),
{
    match magnet_tr_list(link) {
        Some(raw) => {
            let u = tracker_urls(raw.as_slice());
            assert(views(raw@) =~= magnet_tr_entries(link@));
            Some(u)
        },
        None => None,
    }
}

// ---------------------------------------------------------------------------
// Piece hashes
// ---------------------------------------------------------------------------

/// Two hashes are the same bytes.
pub fn hash_matches(actual: &[u8], expected: &[u8]) -> (same: bool)
    ensures
        same == (actual@ == expected@),
{
    if actual.len() != expected.len() {
        return false;
    }
    let mut i: usize = 0;
    while i < actual.len()
        invariant
            actual@.len() == expected@.len(),
            0 <= i <= actual@.len(),
            forall|k: int| 0 <= k < i ==> actual@[k] == expected@[k],
        decreases actual@.len() - i,
    {
        if actual[i] != expected[i] {
            return false;
        }
        i = i + 1;
    }
    assert(actual@ =~= expected@);
    true
}

/// The twenty-byte v1 hash of piece `index` in the concatenated `pieces`
/// string, when the string is long enough to hold it.
pub open spec fn spec_v1_expected_hash(pieces: Seq<u8>, index: u32) -> Option<Seq<u8>> {
    let start = index * 20;
    if start + 20 <= pieces.len() {
        Some(pieces.subrange(start, start + 20))
    } else {
        None
    }
}

/// The v1 hash that piece `index` is checked against.
pub fn v1_expected_hash(pieces: &[u8], index: u32) -> (h: Option<Vec<u8>>)
    ensures
        match h {
            Some(bytes) => spec_v1_expected_hash(pieces@, index) == Some(bytes@),
            None => spec_v1_expected_hash(pieces@, index) is None,
        },
{
    let start: u64 = index as u64 * 20;
    if start + 20 > pieces.len() as u64 {
        return None;
    }
    let s = start as usize;
    let mut h: Vec<u8> = Vec::new();
    let mut i: usize = 0;
    while i < 20
        invariant
            0 <= i <= 20,
            s + 20 <= pieces.len(),
            s == index * 20,
            h@ == pieces@.subrange(s as int, s + i),
        decreases 20 - i,
    {
        h.push(pieces[s + i]);
        i = i + 1;
    }
    Some(h)
}

/// A v1 piece matches when its SHA-1 is the hash listed for it.
pub open spec fn spec_v1_piece_matches(data: Seq<u8>, pieces: Seq<u8>, index: u32) -> bool {
    match spec_v1_expected_hash(pieces, index) {
        Some(expected) => sha1_digest(data) == expected,
        None => false,
    }
}

/// Whether the bytes of piece `index` hash to the v1 hash listed for it (no
/// listed hash: no match).
pub fn v1_piece_matches(data: &[u8], pieces: &[u8], index: u32) -> (matches: bool)
    ensures
        matches == spec_v1_piece_matches(data@, pieces@, index),
{
    match v1_expected_hash(pieces, index) {
        Some(expected) => {
            let digest = sha1_of(data);
            hash_matches(&digest, &expected)
        },
        None => false,
    }
}

/// A v1 piece read back from disk during validation is valid when it is not
/// empty and matches its listed hash.
pub open spec fn spec_v1_piece_valid(data: Seq<u8>, pieces: Seq<u8>, index: u32) -> bool {
    data.len() > 0 && spec_v1_piece_matches(data, pieces, index)
}

/// Whether a piece read back from disk during validation is valid.
pub fn validate_v1_piece(data: &[u8], pieces: &[u8], index: u32) -> (valid: bool)
    ensures
        valid == spec_v1_piece_valid(data@, pieces@, index),
{
    data.len() > 0 && v1_piece_matches(data, pieces, index)
}

} // verus!
