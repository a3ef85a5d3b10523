//! Arch Linux package metadata: the `desc` files of a files database.
pub mod pacman_conf;

use crate::interner::utf8_str;
use vstd::prelude::*;
use vstd::utf8::*;

verus! {

/// Characters with the Unicode `White_Space` property.
pub open spec fn is_unicode_whitespace(c: char) -> bool {
    ||| ('\u{9}' <= c && c <= '\u{d}')
    ||| c == ' '
    ||| c == '\u{85}'
    ||| c == '\u{a0}'
    ||| c == '\u{1680}'
    ||| ('\u{2000}' <= c && c <= '\u{200a}')
    ||| c == '\u{2028}'
    ||| c == '\u{2029}'
    ||| c == '\u{202f}'
    ||| c == '\u{205f}'
    ||| c == '\u{3000}'
}

/// `s` without its trailing whitespace.
pub open spec fn trim_end_spec(s: Seq<char>) -> Seq<char>
    decreases s.len(),
{
    if s.len() > 0 && is_unicode_whitespace(s.last()) {
        trim_end_spec(s.drop_last())
    } else {
        s
    }
}

/// Calls `str::trim_end`, which removes trailing characters with the
/// Unicode `White_Space` property.
#[verifier::external_body]
pub(crate) fn trim_end(s: &str) -> (r: &str)
    ensures
        r@ == trim_end_spec(s@),
{
    s.trim_end()
}

/// Offset one past the end of the line that starts at `pos`: past its
/// newline, or the end of the data.
pub open spec fn line_end(data: Seq<u8>, pos: int) -> int
    decreases data.len() - pos,
{
    if pos >= data.len() {
        data.len() as int
    } else if data[pos] == 10 {
        pos + 1
    } else {
        line_end(data, pos + 1)
    }
}

/// The line `%NAME%` with its newline.
pub open spec fn name_marker() -> Seq<u8> {
    seq![37u8, 78u8, 65u8, 77u8, 69u8, 37u8, 10u8]
}

/// The line `%VERSION%` with its newline.
pub open spec fn version_marker() -> Seq<u8> {
    seq![37u8, 86u8, 69u8, 82u8, 83u8, 73u8, 79u8, 78u8, 37u8, 10u8]
}

/// Errors when reading a package description.
#[derive(Debug, Clone, Copy, PartialEq, Eq, Structural)]
pub enum DescError {
    /// A line that was read is not valid UTF-8.
    InvalidUtf8,
    /// There is no `%NAME%` field.
    NoName,
    /// There is no `%VERSION%` field.
    NoVersion,
}

/// The outcome of reading a description from `pos` on, with the fields
/// found so far: lines are read in turn; the line after `%NAME%` is the
/// name and the line after `%VERSION%` the version, without trailing
/// whitespace; reading stops once both are known.
pub open spec fn desc_from(
    data: Seq<u8>,
    pos: int,
    name: Option<Seq<char>>,
    version: Option<Seq<char>>,
) -> Result<(Seq<char>, Seq<char>), DescError>
    decreases data.len() - pos,
{
    if pos < 0 || pos >= data.len() {
        match (name, version) {
            (Some(n), Some(v)) => Ok((n, v)),
            (None, _) => Err(DescError::NoName),
            (Some(_), None) => Err(DescError::NoVersion),
        }
    } else {
        let e = line_end(data, pos);
        proof {
            lemma_line_end_bounds(data, pos);
            lemma_line_end_bounds(data, e);
        }
        let line = data.subrange(pos, e);
        if !valid_utf8(line) {
            Err(DescError::InvalidUtf8)
        } else if line == name_marker() || line == version_marker() {
            let e2 = line_end(data, e);
            let value = data.subrange(e, e2);
            if !valid_utf8(value) {
                Err(DescError::InvalidUtf8)
            } else {
                let field = trim_end_spec(decode_utf8(value));
                let name2 = if line == name_marker() {
                    Some(field)
                } else {
                    name
                };
                let version2 = if line == name_marker() {
                    version
                } else {
                    Some(field)
                };
                if name2 is Some && version2 is Some {
                    Ok((name2.unwrap(), version2.unwrap()))
                } else {
                    desc_from(data, e2, name2, version2)
                }
            }
        } else {
            desc_from(data, e, name, version)
        }
    }
}

/// A line ends after it starts and within the data.
pub proof fn lemma_line_end_bounds(data: Seq<u8>, pos: int)
    requires
        0 <= pos <= data.len(),
    ensures
        pos <= line_end(data, pos) <= data.len(),
        pos < data.len() ==> pos < line_end(data, pos),
    decreases data.len() - pos,
{
    if pos < data.len() && data[pos] != 10 {
        lemma_line_end_bounds(data, pos + 1);
    }
}

proof fn lemma_line_end_shift(pre: Seq<u8>, rest: Seq<u8>, p: int)
    requires
        0 <= p <= rest.len(),
    ensures
        line_end(pre + rest, pre.len() + p) == pre.len() + line_end(rest, p),
    decreases rest.len() - p,
{
    if p < rest.len() {
        assert((pre + rest)[pre.len() + p] == rest[p]);
        if rest[p] != 10 {
            lemma_line_end_shift(pre, rest, p + 1);
        }
    }
}

/// Reading a description from a position depends only on the bytes from
/// that position on: whatever comes before does not change the outcome.
pub proof fn lemma_desc_from_local(
    pre: Seq<u8>,
    rest: Seq<u8>,
    p: int,
    name: Option<Seq<char>>,
    version: Option<Seq<char>>,
)
    requires
        0 <= p <= rest.len(),
    ensures
        desc_from(pre + rest, pre.len() + p, name, version) == desc_from(rest, p, name, version),
    decreases rest.len() - p,
{
    let data = pre + rest;
    let q = pre.len() + p;
    if p < rest.len() {
        lemma_line_end_shift(pre, rest, p);
        lemma_line_end_bounds(rest, p);
        let e = line_end(rest, p);
        lemma_line_end_bounds(rest, e);
        lemma_line_end_shift(pre, rest, e);
        let e2 = line_end(rest, e);
        assert(data.subrange(q, pre.len() + e) =~= rest.subrange(p, e));
        assert(data.subrange(pre.len() + e, pre.len() + e2) =~= rest.subrange(e, e2));
        lemma_desc_from_local(pre, rest, e, name, version);
        let line = rest.subrange(p, e);
        if valid_utf8(line) && (line == name_marker() || line == version_marker()) {
            let value = rest.subrange(e, e2);
            if valid_utf8(value) {
                let field = trim_end_spec(decode_utf8(value));
                let name2 = if line == name_marker() {
                    Some(field)
                } else {
                    name
                };
                let version2 = if line == name_marker() {
                    version
                } else {
                    Some(field)
                };
                lemma_desc_from_local(pre, rest, e2, name2, version2);
            }
        }
    }
}

/// `line` is one whole line: it ends with its only newline.
pub open spec fn is_one_line(line: Seq<u8>) -> bool {
    &&& line.len() > 0
    &&& line.last() == 10
    &&& forall|i: int| 0 <= i < line.len() - 1 ==> line[i] != 10
}

proof fn lemma_line_end_of_line(line: Seq<u8>, rest: Seq<u8>, p: int)
    requires
        is_one_line(line),
        0 <= p < line.len(),
    ensures
        line_end(line + rest, p) == line.len(),
    decreases line.len() - p,
{
    assert((line + rest)[p] == line[p]);
    if p < line.len() - 1 {
        lemma_line_end_of_line(line, rest, p + 1);
    }
}

/// A line that is neither `%NAME%` nor `%VERSION%` (such as `%BASE%` or
/// `%FILENAME%`) does not change what a description reads as.
pub proof fn lemma_desc_other_line(
    line: Seq<u8>,
    rest: Seq<u8>,
    name: Option<Seq<char>>,
    version: Option<Seq<char>>,
)
    requires
        is_one_line(line),
        valid_utf8(line),
        line != name_marker(),
        line != version_marker(),
    ensures
        desc_from(line + rest, 0, name, version) == desc_from(rest, 0, name, version),
{
    lemma_line_end_of_line(line, rest, 0);
    assert((line + rest).subrange(0, line.len() as int) =~= line);
    lemma_desc_from_local(line, rest, 0, name, version);
}

proof fn lemma_markers_valid()
    ensures
        valid_utf8(name_marker()),
        valid_utf8(version_marker()),
{
    let c = seq!['%', 'N', 'A', 'M', 'E', '%', '\n'];
    assert(is_ascii_chars(c));
    is_ascii_chars_encode_utf8(c);
    encode_utf8_valid_utf8(c);
    assert(encode_utf8(c) =~= name_marker());
    let d = seq!['%', 'V', 'E', 'R', 'S', 'I', 'O', 'N', '%', '\n'];
    assert(is_ascii_chars(d));
    is_ascii_chars_encode_utf8(d);
    encode_utf8_valid_utf8(d);
    assert(encode_utf8(d) =~= version_marker());
}

/// A description that starts with `%NAME%` and its value line `n`, then
/// `%VERSION%` and its value line `v`, reads as `n` and `v` without
/// trailing whitespace, whatever follows.
pub proof fn lemma_desc_name_then_version(n: Seq<u8>, v: Seq<u8>, rest: Seq<u8>)
    requires
        is_one_line(n),
        is_one_line(v),
        valid_utf8(n),
        valid_utf8(v),
    ensures
        desc_from(name_marker() + n + version_marker() + v + rest, 0, None, None) == Ok::<
            (Seq<char>, Seq<char>),
            DescError,
        >((trim_end_spec(decode_utf8(n)), trim_end_spec(decode_utf8(v)))),
{
    let first = name_marker();
    let second = version_marker();
    assert(is_one_line(first)) by {
        assert forall|i: int| 0 <= i < first.len() - 1 implies first[i] != 10 by {}
    }
    assert(is_one_line(second)) by {
        assert forall|i: int| 0 <= i < second.len() - 1 implies second[i] != 10 by {}
    }
    lemma_markers_valid();
    let data = first + n + second + v + rest;
    let t1 = n + second + v + rest;
    assert(data =~= first + t1);
    lemma_line_end_of_line(first, t1, 0);
    assert(data.subrange(0, first.len() as int) =~= first);
    let t2 = second + v + rest;
    assert(t1 =~= n + t2);
    lemma_line_end_of_line(n, t2, 0);
    lemma_line_end_shift(first, t1, 0);
    assert(line_end(data, first.len() as int) == first.len() + n.len());
    assert(data.subrange(first.len() as int, (first.len() + n.len()) as int) =~= n);
    let fname = trim_end_spec(decode_utf8(n));
    assert(first != second);
    // after the first field, reading goes on from the second marker
    assert(data =~= (first + n) + t2);
    lemma_desc_from_local(first + n, t2, 0, Some(fname), None);
    let t3 = v + rest;
    assert(t2 =~= second + t3);
    lemma_line_end_of_line(second, t3, 0);
    assert(t2.subrange(0, second.len() as int) =~= second);
    lemma_line_end_of_line(v, rest, 0);
    lemma_line_end_shift(second, t3, 0);
    assert(line_end(t2, second.len() as int) == second.len() + v.len());
    assert(t2.subrange(second.len() as int, (second.len() + v.len()) as int) =~= v);
}

/// A description that starts with `%VERSION%` and its value line `v`, then
/// `%NAME%` and its value line `n`, reads as `n` and `v` without trailing
/// whitespace, whatever follows.
pub proof fn lemma_desc_version_then_name(n: Seq<u8>, v: Seq<u8>, rest: Seq<u8>)
    requires
        is_one_line(n),
        is_one_line(v),
        valid_utf8(n),
        valid_utf8(v),
    ensures
        desc_from(version_marker() + v + name_marker() + n + rest, 0, None, None) == Ok::<
            (Seq<char>, Seq<char>),
            DescError,
        >((trim_end_spec(decode_utf8(n)), trim_end_spec(decode_utf8(v)))),
{
    let first = version_marker();
    let second = name_marker();
    assert(is_one_line(first)) by {
        assert forall|i: int| 0 <= i < first.len() - 1 implies first[i] != 10 by {}
    }
    assert(is_one_line(second)) by {
        assert forall|i: int| 0 <= i < second.len() - 1 implies second[i] != 10 by {}
    }
    lemma_markers_valid();
    let data = first + v + second + n + rest;
    let t1 = v + second + n + rest;
    assert(data =~= first + t1);
    lemma_line_end_of_line(first, t1, 0);
    assert(data.subrange(0, first.len() as int) =~= first);
    let t2 = second + n + rest;
    assert(t1 =~= v + t2);
    lemma_line_end_of_line(v, t2, 0);
    lemma_line_end_shift(first, t1, 0);
    assert(line_end(data, first.len() as int) == first.len() + v.len());
    assert(data.subrange(first.len() as int, (first.len() + v.len()) as int) =~= v);
    let fname = trim_end_spec(decode_utf8(v));
    assert(first != second);
    // after the first field, reading goes on from the second marker
    assert(data =~= (first + v) + t2);
    lemma_desc_from_local(first + v, t2, 0, None, Some(fname));
    let t3 = n + rest;
    assert(t2 =~= second + t3);
    lemma_line_end_of_line(second, t3, 0);
    assert(t2.subrange(0, second.len() as int) =~= second);
    lemma_line_end_of_line(n, rest, 0);
    lemma_line_end_shift(second, t3, 0);
    assert(line_end(t2, second.len() as int) == second.len() + n.len());
    assert(t2.subrange(second.len() as int, (second.len() + n.len()) as int) =~= n);
}

/// Finds the end of the line that starts at `pos`.
fn find_line_end(data: &[u8], pos: usize) -> (r: usize)
    requires
        pos <= data@.len(),
    ensures
        r == line_end(data@, pos as int),
{
    let mut i = pos;
    while i < data.len()
        invariant
            pos <= i <= data@.len(),
            line_end(data@, pos as int) == line_end(data@, i as int),
        decreases data.len() - i,
    {
        if data[i] == 10 {
            return i + 1;
        }
        i = i + 1;
    }
    i
}

/// Whether two byte strings are equal.
pub(crate) fn bytes_eq(a: &[u8], b: &[u8]) -> (r: bool)
    ensures
        r == (a@ == b@),
{
    if a.len() != b.len() {
        return false;
    }
    let mut i: usize = 0;
    while i < a.len()
        invariant
            i <= a@.len(),
            a@.len() == b@.len(),
            forall|k: int| 0 <= k < i ==> a@[k] == b@[k],
        decreases a.len() - i,
    {
        if a[i] != b[i] {
            return false;
        }
        i = i + 1;
    }
    assert(a@ =~= b@);
    true
}

/// Name and version of a package.
#[derive(Debug, PartialEq, Eq, Hash)]
pub struct Package {
    pub name: String,
    pub version: String,
}

impl Package {
    /// Read the name and version from the `desc` file of a package.
    pub fn from_desc(readable: &[u8]) -> (r: Result<Package, DescError>)
        ensures
            match desc_from(readable@, 0, None, None) {
                Ok((n, v)) => r matches Ok(p) && p.name@ == n && p.version@ == v,
                Err(e) => r matches Err(e2) && e2 == e,
            },
    {
        let name_line: [u8; 7] = [37u8, 78u8, 65u8, 77u8, 69u8, 37u8, 10u8];
        let version_line: [u8; 10] = [37u8, 86u8, 69u8, 82u8, 83u8, 73u8, 79u8, 78u8, 37u8, 10u8];
        assert(name_line@ =~= name_marker());
        assert(version_line@ =~= version_marker());
        let mut name: Option<String> = None;
        let mut version: Option<String> = None;
        let mut pos: usize = 0;
        let len = readable.len();
        while pos < len
            invariant
                len == readable@.len(),
                pos <= len,
                name_line@ == name_marker(),
                version_line@ == version_marker(),
                !(name is Some && version is Some),
                desc_from(readable@, 0, None, None) == desc_from(
                    readable@,
                    pos as int,
                    match name {
                        Some(s) => Some(s@),
                        None => None,
                    },
                    match version {
                        Some(s) => Some(s@),
                        None => None,
                    },
                ),
            decreases len - pos,
        {
            let e = find_line_end(readable, pos);
            proof {
                lemma_line_end_bounds(readable@, pos as int);
            }
            let line = &readable[pos..e];
            if utf8_str(line).is_none() {
                return Err(DescError::InvalidUtf8);
            }
            let is_name = bytes_eq(line, name_line.as_slice());
            let is_version = bytes_eq(line, version_line.as_slice());
            if is_name || is_version {
                let e2 = find_line_end(readable, e);
                proof {
                    lemma_line_end_bounds(readable@, e as int);
                }
                let value = match utf8_str(&readable[e..e2]) {
                    Some(s) => s,
                    None => {
                        return Err(DescError::InvalidUtf8);
                    },
                };
                let field = trim_end(value).to_owned();
                if is_name {
                    name = Some(field);
                } else {
                    version = Some(field);
                }
                pos = e2;
                if name.is_some() && version.is_some() {
                    match (name, version) {
                        (Some(n), Some(v)) => {
                            return Ok(Package { name: n, version: v });
                        },
                        _ => {
                            assert(false);
                            return Err(DescError::NoName);
                        },
                    }
                }
            } else {
                pos = e;
            }
        }
        match (name, version) {
            (Some(n), Some(v)) => Ok(Package { name: n, version: v }),
            (None, _) => Err(DescError::NoName),
            (Some(_), None) => Err(DescError::NoVersion),
        }
    }
}

} // verus!
