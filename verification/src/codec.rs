//! The SFV text format: line splitting, trimming, records, parsing and
//! rendering.
//!
//! An SFV document is text, one record per line: the path, whitespace,
//! and the checksum as exactly the last eight characters of the trimmed
//! line. Lines that are blank or start with `;` after trimming carry no
//! record. A non-skipped line whose trimmed length is eight or less, or
//! whose last eight characters are not all hexadecimal digits, is
//! malformed; parsing stops at the first malformed line.

use vstd::prelude::*;
use crate::hex::hex8_of;
use crate::hex::hex_seq_value;
use crate::hex::is_hex_digit;
use crate::hex::parse_hex8;
use crate::hex::render_hex8;

verus! {

/// Whether `b` is an ASCII whitespace byte, as line trimming removes it.
pub open spec fn is_space(b: u8) -> bool {
    b == 32 || b == 9 || b == 10 || b == 11 || b == 12 || b == 13
}

/// `s` without its leading whitespace bytes.
pub open spec fn trim_front(s: Seq<u8>) -> Seq<u8>
    decreases s.len(),
{
    if s.len() > 0 && is_space(s[0]) {
        trim_front(s.drop_first())
    } else {
        s
    }
}

/// `s` without its trailing whitespace bytes.
pub open spec fn trim_back(s: Seq<u8>) -> Seq<u8>
    decreases s.len(),
{
    if s.len() > 0 && is_space(s.last()) {
        trim_back(s.drop_last())
    } else {
        s
    }
}

/// `s` without leading and trailing whitespace.
pub open spec fn trimmed(s: Seq<u8>) -> Seq<u8> {
    trim_back(trim_front(s))
}

/// The index of the first line-feed byte of `s`, or `s.len()` when `s`
/// holds none.
pub open spec fn first_nl(s: Seq<u8>) -> int
    decreases s.len(),
{
    if s.len() == 0 {
        0
    } else if s[0] == 10 {
        0
    } else {
        1 + first_nl(s.drop_first())
    }
}

/// The lines of a document: separated by line-feed bytes, with no empty
/// line after a trailing line feed.
pub open spec fn spec_split_lines(t: Seq<u8>) -> Seq<Seq<u8>>
    decreases t.len(),
    via spec_split_lines_decreases
{
    if t.len() == 0 {
        Seq::empty()
    } else {
        let i = first_nl(t);
        if i == t.len() {
            seq![t]
        } else {
            seq![t.subrange(0, i)] + spec_split_lines(t.subrange(i + 1, t.len() as int))
        }
    }
}

#[via_fn]
proof fn spec_split_lines_decreases(t: Seq<u8>) {
    lemma_first_nl(t);
}

/// What `first_nl` returns: the position of the first line feed.
pub proof fn lemma_first_nl(s: Seq<u8>)
    ensures
        0 <= first_nl(s) <= s.len(),
        first_nl(s) < s.len() ==> s[first_nl(s)] == 10,
        forall|j: int| 0 <= j < first_nl(s) ==> s[j] != 10,
    decreases s.len(),
{
    if s.len() > 0 && s[0] != 10 {
        lemma_first_nl(s.drop_first());
        assert forall|j: int| 0 <= j < first_nl(s) implies s[j] != 10 by {
            if j > 0 {
                assert(s.drop_first()[j - 1] != 10);
            }
        }
    }
}

/// Whether the line carries no record: blank, or a comment opened by `;`.
pub open spec fn line_is_skip(line: Seq<u8>) -> bool {
    let t = trimmed(line);
    t.len() == 0 || t[0] == 59
}

/// Whether the line is too short to hold a path and an 8-digit checksum.
pub open spec fn line_is_short(line: Seq<u8>) -> bool {
    let t = trimmed(line);
    !line_is_skip(line) && t.len() <= 8
}

/// The last eight bytes of the trimmed line: the checksum field.
pub open spec fn line_hex_part(line: Seq<u8>) -> Seq<u8> {
    let t = trimmed(line);
    t.subrange(t.len() - 8, t.len() as int)
}

/// Whether the line holds a record: long enough, with a checksum field
/// made of hexadecimal digits.
pub open spec fn line_is_record(line: Seq<u8>) -> bool {
    !line_is_skip(line) && !line_is_short(line) && forall|i: int|
        0 <= i < 8 ==> is_hex_digit(#[trigger] line_hex_part(line)[i])
}

/// The record a record line holds: the path before the checksum field,
/// trimmed again, and the checksum's value.
pub open spec fn line_record(line: Seq<u8>) -> (Seq<u8>, u32) {
    let t = trimmed(line);
    (trimmed(t.subrange(0, t.len() - 8)), hex_seq_value(line_hex_part(line)) as u32)
}

/// The records of the lines from index `i` on, or the index of the first
/// malformed line.
pub open spec fn parse_rest(lines: Seq<Seq<u8>>, i: int) -> Result<Seq<(Seq<u8>, u32)>, int>
    decreases lines.len() - i,
{
    if i < 0 || i >= lines.len() {
        Ok(Seq::empty())
    } else if line_is_skip(lines[i]) {
        parse_rest(lines, i + 1)
    } else if line_is_record(lines[i]) {
        match parse_rest(lines, i + 1) {
            Ok(rest) => Ok(seq![line_record(lines[i])] + rest),
            Err(j) => Err(j),
        }
    } else {
        Err(i)
    }
}

/// The parse of a whole document: its lines, from the first.
pub open spec fn spec_parse_doc(t: Seq<u8>) -> Result<Seq<(Seq<u8>, u32)>, int> {
    parse_rest(spec_split_lines(t), 0)
}

/// One record of an SFV document: a path and the CRC32 checksum expected
/// of the file it names.
pub struct ChecksumRecord {
    /// The file's path, as recorded in the document.
    pub path: Vec<u8>,
    /// The expected CRC32 value.
    pub crc: u32,
}

impl View for ChecksumRecord {
    type V = (Seq<u8>, u32);

    open spec fn view(&self) -> (Seq<u8>, u32) {
        (self.path@, self.crc)
    }
}

/// A malformed line in an SFV document. Parsing is strict: the first
/// malformed line fails the whole document. Line indices count every
/// line of the document, from zero.
#[derive(Clone, Copy, Debug, PartialEq, Eq, Structural)]
pub enum FormatError {
    /// The trimmed line has eight or fewer characters, leaving no room
    /// for a path before the checksum field.
    ShortLine { line_index: usize },
    /// The last eight characters of the trimmed line are not all
    /// hexadecimal digits.
    BadChecksum { line_index: usize },
}

/// Any position with no line feed before it and a line feed (or the end)
/// at it is `first_nl`.
pub proof fn lemma_first_nl_unique(s: Seq<u8>, i: int)
    requires
        0 <= i <= s.len(),
        i < s.len() ==> s[i] == 10,
        forall|j: int| 0 <= j < i ==> s[j] != 10,
    ensures
        first_nl(s) == i,
    decreases s.len(),
{
    if s.len() > 0 && s[0] != 10 {
        lemma_first_nl_unique(s.drop_first(), i - 1);
    }
}

/// The views of a sequence of byte vectors.
pub open spec fn views_of(lines: Seq<Vec<u8>>) -> Seq<Seq<u8>> {
    lines.map_values(|l: Vec<u8>| l@)
}

/// The views of a sequence of records.
pub open spec fn record_views(rs: Seq<ChecksumRecord>) -> Seq<(Seq<u8>, u32)> {
    rs.map_values(|r: ChecksumRecord| r@)
}

/// Whether `b` is an ASCII whitespace byte.
fn is_space_byte(b: u8) -> (r: bool)
    ensures
        r == is_space(b),
{
    b == 32 || b == 9 || b == 10 || b == 11 || b == 12 || b == 13
}

/// The bytes of `s` from `i` to `j`, as a fresh vector.
pub(crate) fn copy_range(s: &[u8], i: usize, j: usize) -> (r: Vec<u8>)
    requires
        i <= j <= s@.len(),
    ensures
        r@ == s@.subrange(i as int, j as int),
{
    let mut r: Vec<u8> = Vec::new();
    let mut k: usize = i;
    while k < j
        invariant
            i <= k <= j <= s@.len(),
            r@ == s@.subrange(i as int, k as int),
        decreases j - k,
    {
        r.push(s[k]);
        proof {
            assert(r@ =~= s@.subrange(i as int, k as int + 1));
        }
        k = k + 1;
    }
    r
}

/// The bounds of the trimmed region of `s`: the trimmed content is
/// `s[r.0 .. r.1]`.
fn trim_bounds(s: &[u8]) -> (r: (usize, usize))
    ensures
        r.0 <= r.1 <= s@.len(),
        s@.subrange(r.0 as int, r.1 as int) == trimmed(s@),
{
    let n: usize = s.len();
    let mut a: usize = 0;
    proof {
        assert(s@.skip(0) =~= s@);
    }
    while a < n && is_space_byte(s[a])
        invariant
            0 <= a <= n,
            n == s@.len(),
            trim_front(s@) == trim_front(s@.skip(a as int)),
        decreases n - a,
    {
        proof {
            let rest = s@.skip(a as int);
            assert(rest[0] == s@[a as int]);
            assert(rest.drop_first() =~= s@.skip(a as int + 1));
        }
        a = a + 1;
    }
    proof {
        if a < n {
            assert(!is_space(s@.skip(a as int)[0]));
        } else {
            assert(s@.skip(a as int) =~= Seq::<u8>::empty());
        }
        assert(trim_front(s@) == s@.skip(a as int));
        assert(trim_back(s@.skip(a as int)) == trim_back(s@.subrange(a as int, n as int))) by {
            assert(s@.skip(a as int) =~= s@.subrange(a as int, n as int));
        }
    }
    let mut b: usize = n;
    while b > a && is_space_byte(s[b - 1])
        invariant
            a <= b <= n,
            n == s@.len(),
            trim_front(s@) == s@.skip(a as int),
            trimmed(s@) == trim_back(s@.subrange(a as int, b as int)),
        decreases b,
    {
        proof {
            let t = s@.subrange(a as int, b as int);
            assert(t.last() == s@[b as int - 1]);
            assert(t.drop_last() =~= s@.subrange(a as int, b as int - 1));
        }
        b = b - 1;
    }
    proof {
        let t = s@.subrange(a as int, b as int);
        if b > a {
            assert(!is_space(t.last()));
        } else {
            assert(t =~= Seq::<u8>::empty());
        }
        assert(trimmed(s@) == t);
    }
    (a, b)
}

/// The position of the first line feed at or after `from`, or the end.
fn find_nl(s: &[u8], from: usize) -> (r: usize)
    requires
        from <= s@.len(),
    ensures
        from <= r <= s@.len(),
        r < s@.len() ==> s@[r as int] == 10,
        forall|j: int| from <= j < r ==> s@[j] != 10,
    decreases s@.len() - from,
{
    let n: usize = s.len();
    let mut k: usize = from;
    while k < n && s[k] != 10
        invariant
            from <= k <= n,
            n == s@.len(),
            forall|j: int| from <= j < k ==> s@[j] != 10,
        decreases n - k,
    {
        k = k + 1;
    }
    k
}

/// Splits a document into its lines, as `spec_split_lines` describes.
pub fn split_lines(t: &[u8]) -> (r: Vec<Vec<u8>>)
    ensures
        views_of(r@) == spec_split_lines(t@),
{
    let n: usize = t.len();
    let mut lines: Vec<Vec<u8>> = Vec::new();
    let mut pos: usize = 0;
    proof {
        assert(t@.skip(0) =~= t@);
        assert(views_of(lines@) =~= Seq::<Seq<u8>>::empty());
        assert(views_of(lines@) + spec_split_lines(t@.skip(0)) =~= spec_split_lines(t@));
    }
    while pos < n
        invariant
            0 <= pos <= n,
            n == t@.len(),
            spec_split_lines(t@) == views_of(lines@) + spec_split_lines(t@.skip(pos as int)),
        decreases n - pos,
    {
        let i = find_nl(t, pos);
        let line = copy_range(t, pos, i);
        let ghost old_lines = lines@;
        lines.push(line);
        proof {
            let rest = t@.skip(pos as int);
            assert forall|j: int| 0 <= j < i - pos implies rest[j] != 10 by {
                assert(rest[j] == t@[pos + j]);
            }
            if i < n {
                assert(rest[i - pos] == t@[i as int]);
            }
            lemma_first_nl_unique(rest, i - pos);
            assert(views_of(old_lines.push(line)) =~= views_of(old_lines).push(line@));
            if i < n {
                assert(rest.subrange(0, i - pos) =~= t@.subrange(pos as int, i as int));
                assert(rest.subrange(i - pos + 1, rest.len() as int) =~= t@.skip(i as int + 1));
                assert(spec_split_lines(rest) == seq![line@] + spec_split_lines(t@.skip(i as int + 1)));
                assert(views_of(lines@) + spec_split_lines(t@.skip(i as int + 1)) =~= views_of(old_lines)
                    + spec_split_lines(rest));
            } else {
                assert(rest =~= t@.subrange(pos as int, n as int));
                assert(line@ == rest);
                assert(spec_split_lines(rest) == seq![rest]);
                assert(t@.skip(n as int) =~= Seq::<u8>::empty());
                assert(views_of(lines@) + spec_split_lines(t@.skip(n as int)) =~= views_of(old_lines)
                    + spec_split_lines(rest));
            }
        }
        pos = if i < n {
            i + 1
        } else {
            n
        };
    }
    proof {
        assert(t@.skip(pos as int) =~= Seq::<u8>::empty());
        assert(views_of(lines@) + spec_split_lines(t@.skip(pos as int)) =~= views_of(lines@));
    }
    lines
}

/// Prepends already-parsed records to the parse of the remaining lines.
pub open spec fn combine_parse(acc: Seq<(Seq<u8>, u32)>, rest: Result<Seq<(Seq<u8>, u32)>, int>) -> Result<
    Seq<(Seq<u8>, u32)>,
    int,
> {
    match rest {
        Ok(rs) => Ok(acc + rs),
        Err(j) => Err(j),
    }
}

/// Parses one line: a record, nothing (blank or comment), or a malformed
/// line. The error is `true` for a short line, `false` for a checksum
/// field that is not hexadecimal.
fn parse_line(line: &[u8]) -> (r: Result<Option<ChecksumRecord>, bool>)
    ensures
        r is Ok && r->Ok_0 is None <==> line_is_skip(line@),
        r is Ok && r->Ok_0 is Some ==> line_is_record(line@) && r->Ok_0->0@ == line_record(line@),
        line_is_record(line@) ==> r is Ok && r->Ok_0 is Some,
        r is Err ==> !line_is_skip(line@) && !line_is_record(line@) && r->Err_0 == line_is_short(
            line@,
        ),
{
    let (a, b) = trim_bounds(line);
    let ghost t = trimmed(line@);
    proof {
        assert(t.len() == b - a);
    }
    if b == a || line[a] == 59 {
        proof {
            if b > a {
                assert(t[0] == line@[a as int]);
            }
        }
        return Ok(None);
    }
    proof {
        assert(t[0] == line@[a as int]);
        assert(!line_is_skip(line@));
    }
    if b - a <= 8 {
        return Err(true);
    }
    let hex = copy_range(line, b - 8, b);
    proof {
        assert(hex@ =~= t.subrange(t.len() - 8, t.len() as int)) by {
            assert forall|k: int| 0 <= k < 8 implies hex@[k] == t[t.len() - 8 + k] by {
                assert(t[t.len() - 8 + k] == line@[a + t.len() - 8 + k]);
            }
        }
    }
    let crc = match parse_hex8(hex.as_slice()) {
        Some(v) => v,
        None => {
            proof {
                assert(hex@.len() == 8);
                assert(line_hex_part(line@) == hex@);
                assert(!(forall|i: int|
                    0 <= i < 8 ==> is_hex_digit(#[trigger] line_hex_part(line@)[i]))) by {
                    if forall|i: int|
                        0 <= i < 8 ==> is_hex_digit(#[trigger] line_hex_part(line@)[i]) {
                        assert forall|i: int|
                            0 <= i < hex@.len() implies is_hex_digit(#[trigger] hex@[i]) by {
                            assert(is_hex_digit(line_hex_part(line@)[i]));
                        }
                    }
                }
            }
            return Err(false);
        },
    };
    proof {
        crate::hex::lemma_hex_seq_value_bounds(hex@);
        crate::hex::lemma_pow16_8();
    }
    let path_raw = copy_range(line, a, b - 8);
    let (c, d) = trim_bounds(path_raw.as_slice());
    let path = copy_range(path_raw.as_slice(), c, d);
    proof {
        assert(path_raw@ =~= t.subrange(0, t.len() - 8)) by {
            assert forall|k: int| 0 <= k < t.len() - 8 implies path_raw@[k] == t[k] by {
                assert(t[k] == line@[a + k]);
            }
        }
        assert(line_is_record(line@));
        assert(path@ == line_record(line@).0);
        assert(crc == line_record(line@).1);
    }
    Ok(Some(ChecksumRecord { path, crc }))
}

/// Parses an SFV document into its records.
///
/// Parsing is strict: the first malformed line fails the document with a
/// `FormatError` naming that line. Blank lines and comments are skipped.
pub fn parse_sfv(text: &[u8]) -> (r: Result<Vec<ChecksumRecord>, FormatError>)
    ensures
        match r {
            Ok(records) => spec_parse_doc(text@) == Ok::<Seq<(Seq<u8>, u32)>, int>(
                record_views(records@),
            ),
            Err(e) => {
                let lines = spec_split_lines(text@);
                match e {
                    FormatError::ShortLine { line_index } => spec_parse_doc(text@) == Err::<
                        Seq<(Seq<u8>, u32)>,
                        int,
                    >(line_index as int) && line_is_short(lines[line_index as int]),
                    FormatError::BadChecksum { line_index } => spec_parse_doc(text@) == Err::<
                        Seq<(Seq<u8>, u32)>,
                        int,
                    >(line_index as int) && !line_is_short(lines[line_index as int])
                        && !line_is_skip(lines[line_index as int]) && !line_is_record(
                        lines[line_index as int],
                    ),
                }
            },
        },
{
    let lines = split_lines(text);
    let ghost ls = spec_split_lines(text@);
    let mut records: Vec<ChecksumRecord> = Vec::new();
    let mut idx: usize = 0;
    proof {
        assert(record_views(records@) =~= Seq::<(Seq<u8>, u32)>::empty());
        assert(combine_parse(record_views(records@), parse_rest(ls, 0)) == parse_rest(ls, 0)) by {
            match parse_rest(ls, 0) {
                Ok(rs) => {
                    assert(record_views(records@) + rs =~= rs);
                },
                Err(_) => {},
            }
        }
    }
    while idx < lines.len()
        invariant
            0 <= idx <= lines@.len(),
            ls == spec_split_lines(text@),
            views_of(lines@) == ls,
            parse_rest(ls, 0) == combine_parse(record_views(records@), parse_rest(ls, idx as int)),
        decreases lines@.len() - idx,
    {
        let ghost old_records = records@;
        proof {
            assert(lines@[idx as int]@ == ls[idx as int]);
        }
        match parse_line(lines[idx].as_slice()) {
            Ok(None) => {},
            Ok(Some(rec)) => {
                proof {
                    assert(parse_rest(ls, idx as int) == match parse_rest(ls, idx as int + 1) {
                        Ok(rest) => Ok::<Seq<(Seq<u8>, u32)>, int>(
                            seq![line_record(ls[idx as int])] + rest,
                        ),
                        Err(j) => Err::<Seq<(Seq<u8>, u32)>, int>(j),
                    });
                }
                records.push(rec);
                proof {
                    assert(record_views(old_records.push(rec)) =~= record_views(old_records).push(
                        rec@,
                    ));
                    match parse_rest(ls, idx as int + 1) {
                        Ok(rest) => {
                            assert(record_views(old_records) + (seq![line_record(ls[idx as int])]
                                + rest) =~= record_views(records@) + rest);
                        },
                        Err(_) => {},
                    }
                }
            },
            Err(short) => {
                proof {
                    assert(parse_rest(ls, idx as int) == Err::<Seq<(Seq<u8>, u32)>, int>(
                        idx as int,
                    ));
                }
                if short {
                    return Err(FormatError::ShortLine { line_index: idx });
                } else {
                    return Err(FormatError::BadChecksum { line_index: idx });
                }
            },
        }
        idx = idx + 1;
    }
    proof {
        assert(parse_rest(ls, idx as int) == Ok::<Seq<(Seq<u8>, u32)>, int>(Seq::empty()));
        assert(record_views(records@) + Seq::<(Seq<u8>, u32)>::empty() =~= record_views(records@));
    }
    Ok(records)
}

/// One rendered record line: the path, one space, eight uppercase
/// hexadecimal digits, and a line feed.
pub open spec fn render_record(r: (Seq<u8>, u32)) -> Seq<u8> {
    r.0 + seq![32u8] + hex8_of(r.1) + seq![10u8]
}

/// A rendered document: every record's line, in the order given.
pub open spec fn render_doc(rs: Seq<(Seq<u8>, u32)>) -> Seq<u8>
    decreases rs.len(),
{
    if rs.len() == 0 {
        Seq::empty()
    } else {
        render_record(rs[0]) + render_doc(rs.drop_first())
    }
}

/// Rendering one more record appends one more line.
pub proof fn lemma_render_doc_push(rs: Seq<(Seq<u8>, u32)>, x: (Seq<u8>, u32))
    ensures
        render_doc(rs.push(x)) == render_doc(rs) + render_record(x),
    decreases rs.len(),
{
    if rs.len() == 0 {
        assert(rs.push(x)[0] == x);
        assert(rs.push(x).drop_first() =~= Seq::<(Seq<u8>, u32)>::empty());
        assert(render_doc(rs.push(x).drop_first()) =~= Seq::<u8>::empty());
        assert(render_doc(rs.push(x)) == render_record(rs.push(x)[0]) + render_doc(
            rs.push(x).drop_first(),
        ));
        assert(render_doc(rs.push(x)) =~= render_doc(rs) + render_record(x));
    } else {
        assert(rs.push(x)[0] == rs[0]);
        assert(rs.push(x).drop_first() =~= rs.drop_first().push(x));
        lemma_render_doc_push(rs.drop_first(), x);
        assert(render_doc(rs.push(x)) =~= render_doc(rs) + render_record(x));
    }
}

/// Appends all of `src` to `dst`.
pub(crate) fn push_all(dst: &mut Vec<u8>, src: &[u8])
    ensures
        final(dst)@ == old(dst)@ + src@,
{
    let n: usize = src.len();
    let mut k: usize = 0;
    while k < n
        invariant
            0 <= k <= n,
            n == src@.len(),
            dst@ == old(dst)@ + src@.subrange(0, k as int),

        decreases n - k,
    {
        dst.push(src[k]);
        proof {
            assert(old(dst)@ + src@.subrange(0, k as int + 1) =~= (old(dst)@ + src@.subrange(
                0,
                k as int,
            )).push(src@[k as int]));
        }
        k = k + 1;
    }
    proof {
        assert(src@.subrange(0, n as int) =~= src@);
    }
}

/// Renders records into an SFV document, one line per record, in the
/// order given.
pub fn render_sfv(records: &Vec<ChecksumRecord>) -> (r: Vec<u8>)
    ensures
        r@ == render_doc(record_views(records@)),
{
    let mut out: Vec<u8> = Vec::new();
    let mut i: usize = 0;
    proof {
        assert(record_views(records@).subrange(0, 0) =~= Seq::<(Seq<u8>, u32)>::empty());
    }
    while i < records.len()
        invariant
            0 <= i <= records@.len(),
            out@ == render_doc(record_views(records@).subrange(0, i as int)),
        decreases records@.len() - i,
    {
        let ghost rvs = record_views(records@);
        push_all(&mut out, records[i].path.as_slice());
        out.push(32);
        let hex = render_hex8(records[i].crc);
        push_all(&mut out, hex.as_slice());
        out.push(10);
        proof {
            let pre = rvs.subrange(0, i as int);
            assert(rvs.subrange(0, i as int + 1) =~= pre.push(rvs[i as int]));
            lemma_render_doc_push(pre, rvs[i as int]);
            assert(rvs[i as int] == records@[i as int]@);
            assert(out@ =~= render_doc(pre) + render_record(rvs[i as int]));
        }
        i = i + 1;
    }
    proof {
        assert(record_views(records@).subrange(0, records@.len() as int) =~= record_views(
            records@,
        ));
    }
    out
}

/// A path that an SFV document can carry faithfully: non-empty, no line
/// feed, no whitespace at either end, and not opening a comment.
pub open spec fn valid_sfv_path(p: Seq<u8>) -> bool {
    &&& p.len() > 0
    &&& !is_space(p[0])
    &&& !is_space(p.last())
    &&& p[0] != 59
    &&& forall|i: int| 0 <= i < p.len() ==> p[i] != 10
}

/// A record's line without its terminating line feed.
pub open spec fn record_line(r: (Seq<u8>, u32)) -> Seq<u8> {
    r.0 + seq![32u8] + hex8_of(r.1)
}

/// Trimming does not touch a sequence with no leading whitespace.
pub proof fn lemma_trim_front_id(s: Seq<u8>)
    requires
        s.len() == 0 || !is_space(s[0]),
    ensures
        trim_front(s) == s,
{
}

/// Trimming does not touch a sequence with no trailing whitespace.
pub proof fn lemma_trim_back_id(s: Seq<u8>)
    requires
        s.len() == 0 || !is_space(s.last()),
    ensures
        trim_back(s) == s,
{
}

/// A record line rendered from a valid path parses back to that record.
pub proof fn lemma_record_line(r: (Seq<u8>, u32))
    requires
        valid_sfv_path(r.0),
    ensures
        line_is_record(record_line(r)),
        line_record(record_line(r)) == r,
        forall|i: int| 0 <= i < record_line(r).len() ==> (#[trigger] record_line(r)[i]) != 10,
    decreases 0nat,
{
    let l = record_line(r);
    let n = r.0.len() as int;
    crate::hex::lemma_hex8_round_trip(r.1);
    assert(l.len() == n + 9);
    assert(l[0] == r.0[0]);
    assert forall|i: int| 0 <= i < l.len() implies (#[trigger] l[i]) != 10 by {
        if i < n {
            assert(l[i] == r.0[i]);
        } else if i > n {
            assert(l[i] == hex8_of(r.1)[i - n - 1]);
            assert(is_hex_digit(hex8_of(r.1)[i - n - 1]));
        }
    }
    assert(l.last() == hex8_of(r.1)[7]);
    assert(is_hex_digit(l.last()));
    lemma_trim_front_id(l);
    lemma_trim_back_id(l);
    let t = trimmed(l);
    assert(t == l);
    assert(!line_is_skip(l));
    assert(!line_is_short(l));
    assert(line_hex_part(l) =~= hex8_of(r.1)) by {
        assert forall|k: int| 0 <= k < 8 implies l.subrange(l.len() - 8, l.len() as int)[k]
            == hex8_of(r.1)[k] by {
            assert(l[n + 1 + k] == hex8_of(r.1)[k]);
        }
    }
    assert(line_is_record(l));
    let before = t.subrange(0, t.len() - 8);
    assert(before =~= r.0 + seq![32u8]) by {
        assert forall|k: int| 0 <= k < n + 1 implies before[k] == (r.0 + seq![32u8])[k] by {
            assert(before[k] == l[k]);
        }
    }
    assert(before[0] == r.0[0]);
    lemma_trim_front_id(before);
    assert(before.last() == 32);
    assert(before.drop_last() =~= r.0);
    lemma_trim_back_id(r.0);
    assert(trimmed(before) == r.0);
    assert(hex_seq_value(line_hex_part(l)) == r.1);
    assert(line_record(l) == (r.0, r.1));
    assert(line_record(l).0 == r.0 && line_record(l).1 == r.1);
}

/// Splitting a rendered document yields exactly one line per record.
pub proof fn lemma_split_render(rs: Seq<(Seq<u8>, u32)>)
    requires
        forall|i: int| 0 <= i < rs.len() ==> valid_sfv_path((#[trigger] rs[i]).0),
    ensures
        spec_split_lines(render_doc(rs)) == rs.map_values(|r: (Seq<u8>, u32)| record_line(r)),
    decreases rs.len(),
{
    let doc = render_doc(rs);
    let m = rs.map_values(|r: (Seq<u8>, u32)| record_line(r));
    if rs.len() == 0 {
        assert(doc =~= Seq::<u8>::empty());
        assert(spec_split_lines(doc) =~= m);
    } else {
        lemma_record_line(rs[0]);
        let l0 = record_line(rs[0]);
        let rest = render_doc(rs.drop_first());
        assert(doc == render_record(rs[0]) + rest);
        assert(doc =~= l0 + seq![10u8] + rest);
        assert(doc.len() == l0.len() + 1 + rest.len());
        assert forall|j: int| 0 <= j < l0.len() implies doc[j] != 10 by {
            assert(doc[j] == l0[j]);
        }
        assert(doc[l0.len() as int] == 10);
        lemma_first_nl_unique(doc, l0.len() as int);
        assert(doc.subrange(0, l0.len() as int) =~= l0);
        assert(doc.subrange(l0.len() as int + 1, doc.len() as int) =~= rest);
        lemma_split_render(rs.drop_first());
        let mrest = rs.drop_first().map_values(|r: (Seq<u8>, u32)| record_line(r));
        assert(spec_split_lines(doc) == seq![l0] + mrest);
        assert(seq![l0] + mrest =~= m) by {
            assert(m.len() == 1 + mrest.len());
            assert(m[0] == l0);
            assert forall|j: int| 1 <= j < m.len() implies m[j] == mrest[j - 1] by {
                assert(rs.drop_first()[j - 1] == rs[j]);
            }
        }
    }
}

/// Lines that each render a record parse back to exactly those records.
proof fn lemma_parse_record_lines(lines: Seq<Seq<u8>>, rs: Seq<(Seq<u8>, u32)>, i: int)
    requires
        0 <= i <= lines.len(),
        lines.len() - i == rs.len(),
        forall|j: int| 0 <= j < rs.len() ==> valid_sfv_path((#[trigger] rs[j]).0),
        forall|j: int| 0 <= j < rs.len() ==> lines[i + j] == record_line(#[trigger] rs[j]),
    ensures
        parse_rest(lines, i) == Ok::<Seq<(Seq<u8>, u32)>, int>(rs),
    decreases rs.len(),
{
    if rs.len() == 0 {
        assert(parse_rest(lines, i) == Ok::<Seq<(Seq<u8>, u32)>, int>(Seq::empty()));
        assert(rs =~= Seq::<(Seq<u8>, u32)>::empty());
    } else {
        lemma_record_line(rs[0]);
        assert(lines[i] == record_line(rs[0]));
        let tail = rs.drop_first();
        assert forall|j: int| 0 <= j < tail.len() implies lines[i + 1 + j] == record_line(
            #[trigger] tail[j],
        ) && valid_sfv_path(tail[j].0) by {
            assert(tail[j] == rs[j + 1]);
        }
        lemma_parse_record_lines(lines, tail, i + 1);
        assert(!line_is_skip(lines[i]));
        assert(line_is_record(lines[i]));
        assert(parse_rest(lines, i) == Ok::<Seq<(Seq<u8>, u32)>, int>(
            seq![line_record(lines[i])] + tail,
        ));
        assert(seq![line_record(lines[i])] + tail =~= rs) by {
            assert(line_record(lines[i]) == rs[0]);
            assert forall|j: int| 1 <= j < rs.len() implies (seq![rs[0]] + tail)[j] == rs[j] by {
                assert(tail[j - 1] == rs[j]);
            }
        }
    }
}

/// Round trip: a document rendered from records with valid paths parses
/// back to exactly those records, in order.
pub proof fn lemma_sfv_round_trip(rs: Seq<(Seq<u8>, u32)>)
    requires
        forall|i: int| 0 <= i < rs.len() ==> valid_sfv_path((#[trigger] rs[i]).0),
    ensures
        spec_parse_doc(render_doc(rs)) == Ok::<Seq<(Seq<u8>, u32)>, int>(rs),
{
    lemma_split_render(rs);
    let lines = spec_split_lines(render_doc(rs));
    let m = rs.map_values(|r: (Seq<u8>, u32)| record_line(r));
    assert forall|j: int| 0 <= j < rs.len() implies lines[0 + j] == record_line(
        #[trigger] rs[j],
    ) by {
        assert(m[j] == record_line(rs[j]));
    }
    lemma_parse_record_lines(lines, rs, 0);
}

/// A parse failure always points at a line of the document, at or past
/// where parsing stood.
pub proof fn lemma_parse_err_in_range(lines: Seq<Seq<u8>>, i: int)
    requires
        parse_rest(lines, i) is Err,
    ensures
        i <= parse_rest(lines, i)->Err_0 < lines.len(),
    decreases lines.len() - i,
{
    if 0 <= i < lines.len() {
        if line_is_skip(lines[i]) || line_is_record(lines[i]) {
            lemma_parse_err_in_range(lines, i + 1);
        }
    }
}

/// Well-formed lines before a malformed line do not save the document:
/// parsing fails at the first malformed line, whether it is short or its
/// checksum field is not hexadecimal.
pub proof fn lemma_first_malformed_line_fails(lines: Seq<Seq<u8>>, j: int)
    requires
        0 <= j < lines.len(),
        !line_is_skip(lines[j]),
        !line_is_record(lines[j]),
        forall|i: int|
            0 <= i < j ==> line_is_skip(#[trigger] lines[i]) || line_is_record(lines[i]),
    ensures
        parse_rest(lines, 0) == Err::<Seq<(Seq<u8>, u32)>, int>(j),
{
    lemma_malformed_fails_from(lines, j, 0);
}

proof fn lemma_skip_insert_suffix(lines: Seq<Seq<u8>>, l: Seq<u8>, k: int, i: int)
    requires
        0 <= k <= lines.len(),
        k < i <= lines.len() + 1,
    ensures
        parse_rest(lines.insert(k, l), i) == match parse_rest(lines, i - 1) {
            Ok(rs) => Ok::<Seq<(Seq<u8>, u32)>, int>(rs),
            Err(j) => Err::<Seq<(Seq<u8>, u32)>, int>(j + 1),
        },
    decreases lines.len() + 1 - i,
{
    let ins = lines.insert(k, l);
    lines.insert_ensures(k, l);
    if i < ins.len() {
        assert(ins[i] == lines[i - 1]);
        lemma_skip_insert_suffix(lines, l, k, i + 1);
    }
}

proof fn lemma_skip_insert_prefix(lines: Seq<Seq<u8>>, l: Seq<u8>, k: int, i: int)
    requires
        0 <= i <= k <= lines.len(),
        line_is_skip(l),
    ensures
        parse_rest(lines.insert(k, l), i) == match parse_rest(lines, i) {
            Ok(rs) => Ok::<Seq<(Seq<u8>, u32)>, int>(rs),
            Err(j) => Err::<Seq<(Seq<u8>, u32)>, int>(
                if j < k {
                    j
                } else {
                    j + 1
                },
            ),
        },
    decreases k - i,
{
    let ins = lines.insert(k, l);
    lines.insert_ensures(k, l);
    if i == k {
        assert(ins[k] == l);
        lemma_skip_insert_suffix(lines, l, k, k + 1);
        if parse_rest(lines, k) is Err {
            lemma_parse_err_in_range(lines, k);
        }
    } else {
        assert(ins[i] == lines[i]);
        lemma_skip_insert_prefix(lines, l, k, i + 1);
        if parse_rest(lines, i + 1) is Err {
            lemma_parse_err_in_range(lines, i + 1);
        }
    }
}

/// A blank line or a comment line inserted anywhere in a document is
/// skipped: it adds no record to the parse, and a malformed line keeps
/// failing the parse at its (shifted) place.
pub proof fn lemma_skip_line_adds_no_record(lines: Seq<Seq<u8>>, l: Seq<u8>, k: int)
    requires
        0 <= k <= lines.len(),
        line_is_skip(l),
    ensures
        parse_rest(lines.insert(k, l), 0) == match parse_rest(lines, 0) {
            Ok(rs) => Ok::<Seq<(Seq<u8>, u32)>, int>(rs),
            Err(j) => Err::<Seq<(Seq<u8>, u32)>, int>(
                if j < k {
                    j
                } else {
                    j + 1
                },
            ),
        },
{
    lemma_skip_insert_prefix(lines, l, k, 0);
}

proof fn lemma_malformed_fails_from(lines: Seq<Seq<u8>>, j: int, i: int)
    requires
        0 <= i <= j < lines.len(),
        !line_is_skip(lines[j]),
        !line_is_record(lines[j]),
        forall|k: int|
            i <= k < j ==> line_is_skip(#[trigger] lines[k]) || line_is_record(lines[k]),
    ensures
        parse_rest(lines, i) == Err::<Seq<(Seq<u8>, u32)>, int>(j),
    decreases j - i,
{
    if i < j {
        lemma_malformed_fails_from(lines, j, i + 1);
    }
}

} // verus!
