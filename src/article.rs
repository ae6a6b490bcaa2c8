use std::io::Read;
use vstd::prelude::*;
use vstd::string::StringSliceAdditionalSpecFns;
use vstd::utf8::{encode_utf8, encode_utf8_valid_utf8};
use crate::scan::{find_from, find_spec, lemma_find_is_leftmost, occurs_at, occurs_at_exec};
use crate::text::{lemma_boundary_after_ascii, lemma_boundary_at_ascii, slice_str};

verus! {

pub const LT: u8 = 60;
pub const GT: u8 = 62;
pub const SLASH: u8 = 47;
pub const SPACE: u8 = 32;
pub const T: u8 = 116;
pub const I: u8 = 105;
pub const L: u8 = 108;
pub const E: u8 = 101;
pub const X: u8 = 120;

/// `<title>`
pub open spec fn title_open() -> Seq<u8> {
    seq![LT, T, I, T, L, E, GT]
}

/// `</title>`
pub open spec fn title_close() -> Seq<u8> {
    seq![LT, SLASH, T, I, T, L, E, GT]
}

/// `<text ` — the start of a payload-open tag, which carries attributes.
pub open spec fn text_open_prefix() -> Seq<u8> {
    seq![LT, T, E, X, T, SPACE]
}

/// `</text>` — the payload-close tag.
pub open spec fn text_close() -> Seq<u8> {
    seq![LT, SLASH, T, E, X, T, GT]
}

/// `>`
pub open spec fn gt() -> Seq<u8> {
    seq![GT]
}

/// The title marker of a record whose title has the bytes `t`: the title taken literally.
pub open spec fn title_marker(t: Seq<u8>) -> Seq<u8> {
    title_open() + t + title_close()
}

/// Where a payload-open tag that starts at `i` ends (one past its `>`): `<text `, then at
/// least one byte other than `>`, then the first `>`.
pub open spec fn open_tag_end(h: Seq<u8>, i: int) -> Option<int> {
    if occurs_at(h, text_open_prefix(), i) && i + 6 < h.len() && h[i + 6] != GT {
        match find_spec(h, gt(), i + 7) {
            Some(g) => Some(g + 1),
            None => None,
        }
    } else {
        None
    }
}

/// The end of the first payload-open tag that starts at or after `from`.
pub open spec fn find_open_tag(h: Seq<u8>, from: int) -> Option<int>
    decreases h.len() + 1 - from,
{
    if from < 0 || from >= h.len() {
        None
    } else {
        match open_tag_end(h, from) {
            Some(e) => Some(e),
            None => find_open_tag(h, from + 1),
        }
    }
}

/// The byte range of the payload of the record titled `t` in the decoded block `h`: after
/// the first title marker, from the end of the next payload-open tag to the start of the
/// next payload-close tag.
pub open spec fn extract_spec(h: Seq<u8>, t: Seq<u8>) -> Option<(int, int)> {
    match find_spec(h, title_marker(t), 0) {
        None => None,
        Some(ti) => match find_open_tag(h, ti + title_marker(t).len()) {
            None => None,
            Some(s) => match find_spec(h, text_close(), s) {
                None => None,
                Some(e) => Some((s, e)),
            },
        },
    }
}

fn title_marker_exec(t: &[u8]) -> (r: Vec<u8>)
    ensures
        r@ == title_marker(t@),
{
    let mut m: Vec<u8> = vec![LT, T, I, T, L, E, GT];
    m.extend_from_slice(t);
    let close: Vec<u8> = vec![LT, SLASH, T, I, T, L, E, GT];
    m.extend_from_slice(close.as_slice());
    assert(m@ =~= title_marker(t@));
    m
}

/// The end of the first payload-open tag that starts at or after `from`.
pub fn find_open_tag_exec(h: &[u8], from: usize) -> (r: Option<usize>)
    ensures
        r matches Some(e) ==> find_open_tag(h@, from as int) == Some(e as int),
        r is None ==> find_open_tag(h@, from as int) is None,
{
    let prefix: Vec<u8> = vec![LT, T, E, X, T, SPACE];
    let close: Vec<u8> = vec![GT];
    assert(prefix@ =~= text_open_prefix());
    assert(close@ =~= gt());
    let mut i: usize = from;
    while i < h.len()
        invariant
            from <= i,
            prefix@ == text_open_prefix(),
            close@ == gt(),
            find_open_tag(h@, from as int) == find_open_tag(h@, i as int),
        decreases h.len() - i,
    {
        if occurs_at_exec(h, prefix.as_slice(), i) && i + 6 < h.len() && h[i + 6] != GT {
            if let Some(g) = find_from(h, close.as_slice(), i + 7) {
                proof {
                    lemma_find_is_leftmost(h@, gt(), i + 7);
                }
                return Some(g + 1);
            }
        }
        i = i + 1;
    }
    None
}

/// The byte range of the payload of the record titled `t` in the decoded block `h`.
pub fn payload_range(h: &[u8], t: &[u8]) -> (r: Option<(usize, usize)>)
    ensures
        r matches Some((s, e)) ==> extract_spec(h@, t@) == Some((s as int, e as int)),
        r is None ==> extract_spec(h@, t@) is None,
{
    let marker = title_marker_exec(t);
    let ti = match find_from(h, marker.as_slice(), 0) {
        Some(ti) => ti,
        None => return None,
    };
    proof {
        lemma_find_is_leftmost(h@, marker@, 0);
        assert(occurs_at(h@, marker@, ti as int));
    }
    let hl = h.len();
    assert(ti + marker.len() <= hl);
    let s = match find_open_tag_exec(h, ti + marker.len()) {
        Some(s) => s,
        None => return None,
    };
    let close: Vec<u8> = vec![LT, SLASH, T, E, X, T, GT];
    assert(close@ =~= text_close());
    match find_from(h, close.as_slice(), s) {
        Some(e) => Some((s, e)),
        None => None,
    }
}

/// A payload range ends right after a `>`.
proof fn lemma_open_tag_ends_with_gt(h: Seq<u8>, from: int)
    requires
        from >= 0,
    ensures
        find_open_tag(h, from) matches Some(s) ==> 1 <= s <= h.len() && h[s - 1] == GT,
    decreases h.len() + 1 - from,
{
    if from < h.len() {
        if open_tag_end(h, from) is Some {
            lemma_find_is_leftmost(h, gt(), from + 7);
            let g = find_spec(h, gt(), from + 7)->0;
            assert(h.subrange(g, g + 1)[0] == h[g]);
        } else {
            lemma_find_is_leftmost(h, gt(), from + 7);
            lemma_open_tag_ends_with_gt(h, from + 1);
        }
    }
}

/// Facts about a payload range that the extraction relies on.
proof fn lemma_range_facts(h: Seq<u8>, t: Seq<u8>)
    ensures
        extract_spec(h, t) matches Some((s, e)) ==> 1 <= s <= e < h.len() && h[s - 1] == GT
            && h[e] == LT,
{
    lemma_find_is_leftmost(h, title_marker(t), 0);
    if let Some(ti) = find_spec(h, title_marker(t), 0) {
        lemma_open_tag_ends_with_gt(h, ti + title_marker(t).len());
        if let Some(s) = find_open_tag(h, ti + title_marker(t).len()) {
            lemma_find_is_leftmost(h, text_close(), s);
            if let Some(e) = find_spec(h, text_close(), s) {
                assert(h.subrange(e, e + 7)[0] == h[e]);
            }
        }
    }
}

/// The payload of a record never contains the payload-close tag.
pub proof fn lemma_payload_has_no_close_tag(h: Seq<u8>, t: Seq<u8>)
    ensures
        extract_spec(h, t) matches Some((s, e)) ==> forall|j: int|
            !occurs_at(#[trigger] h.subrange(s, e), text_close(), j),
{
    lemma_range_facts(h, t);
    if let Some((s, e)) = extract_spec(h, t) {
        lemma_find_is_leftmost(h, text_close(), s);
        assert forall|j: int| !occurs_at(#[trigger] h.subrange(s, e), text_close(), j) by {
            if occurs_at(h.subrange(s, e), text_close(), j) {
                assert(h.subrange(s, e).subrange(j, j + 7) =~= h.subrange(s + j, s + j + 7));
                assert(occurs_at(h, text_close(), s + j));
            }
        }
    }
}

/// A title is matched literally: wherever its title marker stands in a block, the search
/// finds that marker or an earlier copy of it, whatever bytes the title holds.
pub proof fn lemma_title_found_literally(h: Seq<u8>, t: Seq<u8>, i: int)
    requires
        occurs_at(h, title_marker(t), i),
    ensures
        find_spec(h, title_marker(t), 0) matches Some(k) && k <= i,
{
    lemma_find_is_leftmost(h, title_marker(t), 0);
}

/// Where a payload-open tag starts at `j`, the search from any earlier `from` finds one that
/// ends no later.
proof fn lemma_open_tag_found(h: Seq<u8>, from: int, j: int)
    requires
        0 <= from <= j,
        open_tag_end(h, j) is Some,
    ensures
        find_open_tag(h, from) matches Some(s) && s <= open_tag_end(h, j)->0,
    decreases j - from,
{
    lemma_find_is_leftmost(h, gt(), j + 7);
    lemma_find_is_leftmost(h, gt(), from + 7);
    if open_tag_end(h, from) is None {
        lemma_open_tag_found(h, from + 1, j);
    }
}

/// A record is found: where the title marker of `t` is followed by a payload-open tag and,
/// after that tag, a payload-close tag, the block yields a payload for `t`.
pub proof fn lemma_present_record_found(h: Seq<u8>, t: Seq<u8>, i: int, j: int, c: int)
    requires
        occurs_at(h, title_marker(t), i),
        i + title_marker(t).len() <= j,
        open_tag_end(h, j) is Some,
        open_tag_end(h, j)->0 <= c,
        occurs_at(h, text_close(), c),
    ensures
        extract_spec(h, t) is Some,
{
    lemma_title_found_literally(h, t, i);
    lemma_find_is_leftmost(h, title_marker(t), 0);
    let ti = find_spec(h, title_marker(t), 0)->0;
    lemma_open_tag_found(h, ti + title_marker(t).len(), j);
    lemma_open_tag_ends_with_gt(h, ti + title_marker(t).len());
    let s = find_open_tag(h, ti + title_marker(t).len())->0;
    lemma_find_is_leftmost(h, text_close(), s);
}

/// The raw payload of the record titled `title` in the decoded block `text`: the text
/// strictly between the payload-open tag that follows the first title marker and the next
/// payload-close tag; `None` when either marker is missing.
pub fn extract(text: &str, title: &str) -> (r: Option<String>)
    ensures
        match extract_spec(text.spec_bytes(), title.spec_bytes()) {
            Some((s, e)) => r matches Some(a) && encode_utf8(a@) == text.spec_bytes().subrange(
                s,
                e,
            ),
            None => r is None,
        },
{
    let h = text.as_bytes();
    let t = title.as_bytes();
    match payload_range(h, t) {
        None => None,
        Some((s, e)) => {
            proof {
                lemma_range_facts(h@, t@);
                encode_utf8_valid_utf8(text@);
                lemma_boundary_after_ascii(h@, s - 1);
                lemma_boundary_at_ascii(h@, e as int);
            }
            let a = slice_str(text, s, e);
            proof {
                vstd::utf8::encode_utf8_decode_utf8(a@);
            }
            Some(a.to_owned())
        },
    }
}

/// The failures that surface as errors rather than as a missing article.
#[derive(Clone, Copy, Debug, PartialEq, Eq, Structural)]
pub enum DumpError {
    /// The bytes at a block offset are not one whole compressed block of UTF-8 text.
    Decode,
    /// The index store failed.
    Storage,
    /// A line of the raw index holds an offset or an id that is not a number.
    BadIndexLine,
    /// The bytes end before the compressed block does.
    Truncated,
    /// A build failed and its transaction could not be rolled back either.
    Rollback,
}

/// How bzip2 decoding of the first compressed stream in `b` ends: its text; or `Err(true)`
/// where the bytes end before the stream does; or `Err(false)` where the stream is corrupt or
/// does not decode to UTF-8.
pub uninterp spec fn bz_outcome(b: Seq<u8>) -> Result<Seq<char>, bool>;

/// The text of the first compressed stream in `b`, if it decodes.
pub open spec fn bz_text(b: Seq<u8>) -> Option<Seq<char>> {
    match bz_outcome(b) {
        Ok(t) => Some(t),
        Err(_) => None,
    }
}

/// Relies on `bzip2::read::BzDecoder::new` read to the end with `read_to_string`: the
/// decoder stops at the end of the first stream, fails with `UnexpectedEof` where the input
/// ends first, and its result depends on the bytes alone.
#[verifier::external_body]
pub(crate) fn decode_text(b: &[u8]) -> (r: Result<String, bool>)
    ensures
        match r {
            Ok(s) => bz_outcome(b@) == Ok::<Seq<char>, bool>(s@),
            Err(cut) => bz_outcome(b@) == Err::<Seq<char>, bool>(cut),
        },
{
    let mut s = String::new();
    match bzip2::read::BzDecoder::new(b).read_to_string(&mut s) {
        Ok(_) => Ok(s),
        Err(e) => Err(e.kind() == std::io::ErrorKind::UnexpectedEof),
    }
}

/// The raw payload of the record titled `title` in the compressed block that starts
/// `block`: `Truncated` where the bytes end inside the block, a decode error where they are no
/// valid block, else what `extract` gives on the decoded text.
pub fn article_from_block(block: &[u8], title: &str) -> (r: Result<Option<String>, DumpError>)
    ensures
        bz_outcome(block@) == Err::<Seq<char>, bool>(true) ==> r == Err::<Option<String>, DumpError>(
            DumpError::Truncated,
        ),
        bz_outcome(block@) == Err::<Seq<char>, bool>(false) ==> r == Err::<Option<String>, DumpError>(
            DumpError::Decode,
        ),
        match bz_text(block@) {
            None => true,
            Some(txt) => r matches Ok(a) && match extract_spec(
                encode_utf8(txt),
                title.spec_bytes(),
            ) {
                Some((s, e)) => a matches Some(p) && encode_utf8(p@) == encode_utf8(txt).subrange(
                    s,
                    e,
                ),
                None => a is None,
            },
        },
{
    match decode_text(block) {
        Err(true) => Err(DumpError::Truncated),
        Err(false) => Err(DumpError::Decode),
        Ok(text) => Ok(extract(text.as_str(), title)),
    }
}

/// Whether a read of `len` bytes from a block offset should be retried with more bytes: the
/// block went on past the bytes read, and the file did not end within them.
pub open spec fn should_read_more(outcome: Result<Option<String>, DumpError>, file_ended: bool, len: u64) -> bool {
    match outcome {
        Err(DumpError::Truncated) => !file_ended && 0 < len <= u64::MAX / 2,
        _ => false,
    }
}

/// The next step after `article_from_block` on a window of `len` bytes read from a block
/// offset: the length of a twice larger window to read, or `None` where `outcome` is final.
pub fn next_window(outcome: &Result<Option<String>, DumpError>, file_ended: bool, len: u64) -> (r:
    Option<u64>)
    ensures
        should_read_more(*outcome, file_ended, len) ==> r == Some((2 * len) as u64),
        !should_read_more(*outcome, file_ended, len) ==> r is None,
{
    match outcome {
        Err(DumpError::Truncated) => {
            if !file_ended && 0 < len && len <= u64::MAX / 2 {
                Some(2 * len)
            } else {
                None
            }
        },
        _ => None,
    }
}

} // verus!
