use vstd::prelude::*;
use vstd::string::StringSliceAdditionalSpecFns;
use vstd::utf8::{encode_utf8, encode_utf8_valid_utf8, is_char_boundary_start_end_of_seq};
use crate::scan::{find_from, find_spec, lemma_find_is_leftmost, occurs_at};
use crate::text::{lemma_boundary_after_ascii, slice_str};

verus! {

pub const COLON: u8 = 58;
pub const PLUS: u8 = 43;
pub const NEWLINE: u8 = 10;
pub const RETURN: u8 = 13;

/// One record of the raw index: the offset of the compressed block that holds a document,
/// the document's id, and its title.
pub struct MultistreamIndex {
    pub bz2_offset: usize,
    pub id: u32,
    pub title: String,
}

impl MultistreamIndex {
    /// The record as offset, id and the UTF-8 bytes of the title.
    pub open spec fn view(&self) -> (int, int, Seq<u8>) {
        (self.bz2_offset as int, self.id as int, encode_utf8(self.title@))
    }
}

pub open spec fn is_digit(b: u8) -> bool {
    48 <= b <= 57
}

/// The value of a string of decimal digits.
pub open spec fn digits_value(d: Seq<u8>) -> nat
    decreases d.len(),
{
    if d.len() == 0 {
        0
    } else {
        digits_value(d.drop_last()) * 10 + (d.last() - 48) as nat
    }
}

/// The digits of an unsigned decimal number: one leading `+` is allowed before them.
pub open spec fn unsigned_digits(f: Seq<u8>) -> Seq<u8> {
    if f.len() > 1 && f[0] == PLUS {
        f.drop_first()
    } else {
        f
    }
}

/// The unsigned number that `f` spells in decimal, if it spells one.
pub open spec fn decimal_of(f: Seq<u8>) -> Option<nat> {
    if unsigned_digits(f).len() > 0 && all_digits(unsigned_digits(f)) {
        Some(digits_value(unsigned_digits(f)))
    } else {
        None
    }
}

pub open spec fn all_digits(d: Seq<u8>) -> bool {
    forall|i: int| 0 <= i < d.len() ==> is_digit(#[trigger] d[i])
}

proof fn lemma_digits_prefix_le(d: Seq<u8>, k: int)
    requires
        0 <= k <= d.len(),
    ensures
        digits_value(d.subrange(0, k)) <= digits_value(d),
    decreases d.len(),
{
    if k < d.len() {
        lemma_digits_prefix_le(d.drop_last(), k);
        assert(d.drop_last().subrange(0, k) =~= d.subrange(0, k));
    } else {
        assert(d.subrange(0, k) =~= d);
    }
}

/// The number that `f` spells in decimal, where it spells one no larger than `max`.
pub fn parse_decimal(f: &[u8], max: u64) -> (r: Option<u64>)
    ensures
        r matches Some(v) ==> decimal_of(f@) == Some(v as nat) && v <= max,
        r is None ==> !number_fits(f@, max as int),
{
    let start: usize = if f.len() > 1 && f[0] == PLUS {
        1
    } else {
        0
    };
    let ghost d = unsigned_digits(f@);
    assert(d =~= f@.subrange(start as int, f@.len() as int));
    if start == f.len() {
        return None;
    }
    let mut v: u64 = 0;
    let mut k: usize = start;
    assert(d.subrange(0, 0) =~= Seq::<u8>::empty());
    while k < f.len()
        invariant
            start <= k <= f.len(),
            d == f@.subrange(start as int, f@.len() as int),
            d == unsigned_digits(f@),
            v <= max,
            v as nat == digits_value(d.subrange(0, k - start)),
            forall|i: int| 0 <= i < k - start ==> is_digit(#[trigger] d[i]),
        decreases f.len() - k,
    {
        let b = f[k];
        assert(d[k - start] == b);
        if b < 48 || b > 57 {
            assert(!is_digit(d[k - start]));
            assert(!all_digits(d));
            assert(decimal_of(f@) is None);
            return None;
        }
        let nv: u128 = (v as u128) * 10 + ((b - 48) as u128);
        assert(d.subrange(0, k + 1 - start).drop_last() =~= d.subrange(0, k - start));
        assert(d.subrange(0, k + 1 - start).last() == b);
        assert(nv == digits_value(d.subrange(0, k + 1 - start)));
        if nv > max as u128 {
            proof {
                if decimal_of(f@) is Some {
                    lemma_digits_prefix_le(d, k + 1 - start);
                    assert(decimal_of(f@) == Some(digits_value(d)));
                    assert(digits_value(d) > max);
                }
            }
            return None;
        }
        v = nv as u64;
        k = k + 1;
    }
    assert(d.subrange(0, k - start) =~= d);
    Some(v)
}

/// `f` spells a number no larger than `max`.
pub open spec fn number_fits(f: Seq<u8>, max: int) -> bool {
    decimal_of(f) matches Some(n) && n <= max
}

pub open spec fn colon() -> Seq<u8> {
    seq![COLON]
}

/// The three colon-separated fields of a line, where it has exactly three.
pub open spec fn fields_of(l: Seq<u8>) -> Option<(Seq<u8>, Seq<u8>, Seq<u8>)> {
    match find_spec(l, colon(), 0) {
        None => None,
        Some(a) => match find_spec(l, colon(), a + 1) {
            None => None,
            Some(b) => if find_spec(l, colon(), b + 1) is Some {
                None
            } else {
                Some((l.subrange(0, a), l.subrange(a + 1, b), l.subrange(b + 1, l.len() as int)))
            },
        },
    }
}

/// A line of three fields whose offset or id is no number of its type: it fails a build.
pub open spec fn line_is_bad(l: Seq<u8>) -> bool {
    match fields_of(l) {
        Some((o, d, t)) => !(number_fits(o, usize::MAX as int) && number_fits(d, u32::MAX as int)),
        None => false,
    }
}

/// The record that a line gives: offset, id and title; none for a line that has not exactly
/// three fields.
pub open spec fn line_entry(l: Seq<u8>) -> Option<(int, int, Seq<u8>)> {
    match fields_of(l) {
        Some((o, d, t)) => if line_is_bad(l) {
            None
        } else {
            Some((decimal_of(o)->0 as int, decimal_of(d)->0 as int, t))
        },
        None => None,
    }
}

/// Reads one line of the raw index, `offset:id:title`: `Ok(None)` for a line that has not
/// exactly three colon-separated fields, an error where the offset or the id is no number.
pub fn parse_index_line(line: &str) -> (r: Result<Option<MultistreamIndex>, crate::article::DumpError>)
    ensures
        r is Err <==> line_is_bad(line.spec_bytes()),
        r matches Err(e) ==> e == crate::article::DumpError::BadIndexLine,
        r matches Ok(None) ==> line_entry(line.spec_bytes()) is None,
        r matches Ok(Some(m)) ==> line_entry(line.spec_bytes()) == Some(m.view()),
{
    let l = line.as_bytes();
    let c: Vec<u8> = vec![COLON];
    assert(c@ =~= colon());
    let a = match find_from(l, c.as_slice(), 0) {
        Some(a) => a,
        None => return Ok(None),
    };
    proof {
        lemma_find_is_leftmost(l@, colon(), 0);
    }
    let ll = l.len();
    assert(occurs_at(l@, colon(), a as int));
    assert(a < ll);
    let b = match find_from(l, c.as_slice(), a + 1) {
        Some(b) => b,
        None => return Ok(None),
    };
    proof {
        lemma_find_is_leftmost(l@, colon(), a + 1);
        assert(l@.subrange(b as int, b + 1)[0] == l@[b as int]);
    }
    assert(b < ll);
    if find_from(l, c.as_slice(), b + 1).is_some() {
        return Ok(None);
    }
    let ghost fo = l@.subrange(0, a as int);
    let ghost fd = l@.subrange(a + 1, b as int);
    let offset = parse_decimal(vstd::slice::slice_subrange(l, 0, a), usize::MAX as u64);
    let id = parse_decimal(vstd::slice::slice_subrange(l, a + 1, b), u32::MAX as u64);
    match (offset, id) {
        (Some(o), Some(d)) => {
            proof {
                encode_utf8_valid_utf8(line@);
                lemma_boundary_after_ascii(l@, b as int);
                is_char_boundary_start_end_of_seq(l@);
            }
            let t = slice_str(line, b + 1, l.len());
            proof {
                vstd::utf8::encode_utf8_decode_utf8(t@);
            }
            Ok(Some(MultistreamIndex { bz2_offset: o as usize, id: d as u32, title: t.to_owned() }))
        },
        _ => Err(crate::article::DumpError::BadIndexLine),
    }
}

pub open spec fn newline() -> Seq<u8> {
    seq![NEWLINE]
}

/// A line without the carriage return of a `\r\n` ending.
pub open spec fn strip_cr(l: Seq<u8>) -> Seq<u8> {
    if l.len() > 0 && l.last() == RETURN {
        l.drop_last()
    } else {
        l
    }
}

/// The lines of a text: split at each `\n`, a `\r` before it dropped, no empty line after
/// a final `\n`.
pub open spec fn lines_of(c: Seq<u8>) -> Seq<Seq<u8>>
    decreases c.len(),
    via lines_of_decreases
{
    if c.len() == 0 {
        seq![]
    } else {
        match find_spec(c, newline(), 0) {
            None => seq![c],
            Some(j) => seq![strip_cr(c.subrange(0, j))] + lines_of(c.subrange(j + 1, c.len() as int)),
        }
    }
}

#[via_fn]
proof fn lines_of_decreases(c: Seq<u8>) {
    if c.len() != 0 {
        lemma_find_is_leftmost(c, newline(), 0);
    }
}

/// The records that a sequence of raw index lines gives, in order; `None` where a line of
/// three fields holds an offset or an id that is no number.
pub open spec fn records_of_lines(ls: Seq<Seq<u8>>) -> Option<Seq<(int, int, Seq<u8>)>>
    decreases ls.len(),
{
    if ls.len() == 0 {
        Some(seq![])
    } else if line_is_bad(ls[0]) {
        None
    } else {
        match records_of_lines(ls.drop_first()) {
            None => None,
            Some(rs) => match line_entry(ls[0]) {
                Some(r) => Some(seq![r] + rs),
                None => Some(rs),
            },
        }
    }
}

/// The records that a raw index text gives.
pub open spec fn records_of(text: Seq<u8>) -> Option<Seq<(int, int, Seq<u8>)>> {
    records_of_lines(lines_of(text))
}

/// A line that has not exactly three fields changes nothing in the records: it neither fails
/// the build nor adds a record, wherever it stands.
pub proof fn lemma_malformed_line_ignored(a: Seq<Seq<u8>>, l: Seq<u8>, b: Seq<Seq<u8>>)
    requires
        fields_of(l) is None,
    ensures
        records_of_lines(a + seq![l] + b) == records_of_lines(a + b),
    decreases a.len(),
{
    if a.len() == 0 {
        assert((a + seq![l] + b).drop_first() =~= b);
        assert(a + b =~= b);
    } else {
        lemma_malformed_line_ignored(a.drop_first(), l, b);
        assert((a + seq![l] + b).drop_first() =~= a.drop_first() + seq![l] + b);
        assert((a + b).drop_first() =~= a.drop_first() + b);
        assert((a + seq![l] + b)[0] == a[0]);
        assert((a + b)[0] == a[0]);
    }
}

/// The records of a build are exactly the records of its well-formed lines, in order: each
/// well-formed line gives one, and each comes from one.
pub proof fn lemma_records_from_lines(ls: Seq<Seq<u8>>)
    ensures
        records_of_lines(ls) matches Some(rs) ==> (forall|k: int|
            0 <= k < ls.len() && (#[trigger] line_entry(ls[k])) is Some ==> rs.contains(
                line_entry(ls[k])->0,
            )) && (forall|m: int|
            0 <= m < rs.len() ==> exists|k: int|
                0 <= k < ls.len() && #[trigger] line_entry(ls[k]) == Some(#[trigger] rs[m])),
    decreases ls.len(),
{
    if ls.len() > 0 && !line_is_bad(ls[0]) {
        let rest = ls.drop_first();
        lemma_records_from_lines(rest);
        if let Some(rs0) = records_of_lines(rest) {
            let rs = records_of_lines(ls)->0;
            assert forall|k: int|
                0 <= k < ls.len() && (#[trigger] line_entry(ls[k])) is Some implies rs.contains(
                line_entry(ls[k])->0,
            ) by {
                if k == 0 {
                    assert(rs[0] == line_entry(ls[0])->0);
                } else {
                    assert(ls[k] == rest[k - 1]);
                    let m = choose|m: int| 0 <= m < rs0.len() && rs0[m] == line_entry(rest[k - 1])->0;
                    if line_entry(ls[0]) is Some {
                        assert(rs[m + 1] == rs0[m]);
                    } else {
                        assert(rs[m] == rs0[m]);
                    }
                }
            }
            assert forall|m: int| 0 <= m < rs.len() implies exists|k: int|
                0 <= k < ls.len() && #[trigger] line_entry(ls[k]) == Some(#[trigger] rs[m]) by {
                if line_entry(ls[0]) is Some {
                    if m == 0 {
                        assert(line_entry(ls[0]) == Some(rs[0]));
                    } else {
                        assert(rs[m] == rs0[m - 1]);
                        let k = choose|k: int|
                            0 <= k < rest.len() && #[trigger] line_entry(rest[k]) == Some(rs0[m - 1]);
                        assert(ls[k + 1] == rest[k]);
                    }
                } else {
                    assert(rs[m] == rs0[m]);
                    let k = choose|k: int|
                        0 <= k < rest.len() && #[trigger] line_entry(rest[k]) == Some(rs0[m]);
                    assert(ls[k + 1] == rest[k]);
                }
            }
        }
    }
}

} // verus!
