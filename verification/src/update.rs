//! Building the cache from the pacman files databases.
pub mod archive;

use crate::arch::{desc_from, is_unicode_whitespace, line_end, trim_end_spec, DescError, Package};
use crate::interner::{
    encode_entries, entries_encodable, fits_in_handles, handle_offset, lemma_get_after_intern, utf8_str, Handle,
    StringInterner, StringInternerBuilder,
};
use crate::types::{
    binaries_contents, records_readable, BinariesData, DataRoot, DirectoryRef, PackageRef, Record,
};
use vstd::prelude::*;
use vstd::utf8::*;
use vstd::string::StringSliceAdditionalSpecFns;

verus! {

broadcast use vstd::string::group_string_axioms;

/// The characters of a string.
pub fn chars_of(s: &str) -> (r: Vec<char>)
    ensures
        r@ == s@,
{
    let mut v: Vec<char> = Vec::new();
    for c in it: s.chars()
        invariant
            v@ == it.seq().take(it.index() as int),
            it.seq() == s@,
    {
        v.push(c);
    }
    v
}

/// Calls `String::from_iter`, which collects characters into a string.
#[verifier::external_body]
pub(crate) fn string_from_chars(chars: Vec<char>) -> (r: String)
    ensures
        r@ == chars@,
{
    String::from_iter(chars)
}

/// The pieces of `s` between its `:` separators, as `str::split(':')` gives
/// them.
pub open spec fn split_colon(s: Seq<char>) -> Seq<Seq<char>>
    decreases s.len(),
{
    if s.len() == 0 {
        seq![Seq::<char>::empty()]
    } else {
        let rest = split_colon(s.drop_first());
        if s[0] == ':' {
            seq![Seq::<char>::empty()] + rest
        } else {
            seq![seq![s[0]] + rest[0]] + rest.drop_first()
        }
    }
}

/// A PATH entry without one leading `/`.
pub open spec fn strip_root(seg: Seq<char>) -> Seq<char> {
    if seg.len() > 0 && seg[0] == '/' {
        seg.drop_first()
    } else {
        seg
    }
}

/// A PATH entry without one leading and one trailing `/`: the directory
/// it names, as the files database writes directories.
pub open spec fn entry_norm(seg: Seq<char>) -> Seq<char> {
    let s = strip_root(seg);
    if s.len() > 0 && s.last() == '/' {
        s.drop_last()
    } else {
        s
    }
}

/// The directories that the PATH entries `segs` name, in order, leaving
/// out those that name none.
pub open spec fn dirs_of_segments(segs: Seq<Seq<char>>) -> Seq<Seq<char>>
    decreases segs.len(),
{
    if segs.len() == 0 {
        seq![]
    } else {
        let rest = dirs_of_segments(segs.drop_last());
        let e = entry_norm(segs.last());
        if e.len() == 0 {
            rest
        } else {
            rest.push(e)
        }
    }
}

/// The directories named by the entries of the PATH variable `path_var`.
pub open spec fn path_entries(path_var: Seq<char>) -> Seq<Seq<char>> {
    dirs_of_segments(split_colon(path_var))
}

/// `parts` joined with `|` between each two of them.
pub open spec fn join_bar(parts: Seq<Seq<char>>) -> Seq<char>
    decreases parts.len(),
{
    if parts.len() == 0 {
        seq![]
    } else if parts.len() == 1 {
        parts[0]
    } else {
        join_bar(parts.drop_last()) + seq!['|'] + parts.last()
    }
}

/// What `regex::escape` makes of a text: a pattern that matches exactly
/// that text.
pub uninterp spec fn regex_escape(text: Seq<char>) -> Seq<char>;

/// The pattern for one directory: the lines below it (`exact` false), or
/// exactly the directory itself (`exact` true).
pub open spec fn literal_alternative(dir: Seq<char>, exact: bool) -> Seq<char> {
    seq!['^'] + regex_escape(dir) + if exact {
        seq!['$']
    } else {
        seq!['/']
    }
}

/// The pattern that matches the lines below any of `dirs` (`exact` false),
/// or exactly one of `dirs` (`exact` true).
pub open spec fn entries_pattern(dirs: Seq<Seq<char>>, exact: bool) -> Seq<char> {
    join_bar(dirs.map_values(|d: Seq<char>| literal_alternative(d, exact)))
}

/// `prefix` starts `s`.
pub open spec fn starts_with(s: Seq<u8>, prefix: Seq<u8>) -> bool {
    prefix.len() <= s.len() && s.subrange(0, prefix.len() as int) == prefix
}

/// The line starts with one of `dirs` and a `/`: it lies below one of them.
pub open spec fn below_some(line: Seq<u8>, dirs: Seq<Seq<char>>) -> bool {
    exists|i: int| 0 <= i < dirs.len() && starts_with(line, #[trigger] encode_utf8(dirs[i]).push(47u8))
}

/// The PATH directories are the PATH entries split at `:`, each without
/// one leading and one trailing `/`, in order, leaving out those that are
/// then empty: every such entry is kept, and nothing else.
pub proof fn lemma_path_entries_are_segments(path_var: Seq<char>)
    ensures
        path_entries(path_var) == split_colon(path_var).map_values(|s: Seq<char>| entry_norm(s)).filter(
            |e: Seq<char>| e.len() > 0,
        ),
{
    lemma_dirs_of_segments(split_colon(path_var));
}

proof fn lemma_dirs_of_segments(segs: Seq<Seq<char>>)
    ensures
        dirs_of_segments(segs) == segs.map_values(|s: Seq<char>| entry_norm(s)).filter(
            |e: Seq<char>| e.len() > 0,
        ),
    decreases segs.len(),
{
    let f = |s: Seq<char>| entry_norm(s);
    let p = |e: Seq<char>| e.len() > 0;
    if segs.len() == 0 {
        assert(segs.map_values(f) =~= Seq::<Seq<char>>::empty());
        Seq::<Seq<char>>::empty().lemma_filter_len(p);
    } else {
        let init = segs.drop_last();
        lemma_dirs_of_segments(init);
        assert(segs.map_values(f) =~= init.map_values(f).push(entry_norm(segs.last())));
        init.map_values(f).lemma_filter_push(entry_norm(segs.last()), p);
    }
}

/// Joins pieces with `:` between each two of them.
pub open spec fn join_colon(pieces: Seq<Seq<char>>) -> Seq<char>
    decreases pieces.len(),
{
    if pieces.len() == 0 {
        seq![]
    } else if pieces.len() == 1 {
        pieces[0]
    } else {
        pieces[0] + seq![':'] + join_colon(pieces.drop_first())
    }
}

/// Splitting at `:` gives pieces that hold no `:` and that joined with `:`
/// give back the text.
pub proof fn lemma_split_colon_pieces(s: Seq<char>)
    ensures
        join_colon(split_colon(s)) == s,
        forall|i: int| 0 <= i < split_colon(s).len() ==> !(#[trigger] split_colon(s)[i]).contains(':'),
    decreases s.len(),
{
    lemma_split_colon_nonempty(s);
    if s.len() > 0 {
        let t = s.drop_first();
        lemma_split_colon_pieces(t);
        lemma_split_colon_nonempty(t);
        let rt = split_colon(t);
        if s[0] == ':' {
            let ps = split_colon(s);
            assert(ps =~= seq![Seq::<char>::empty()] + rt);
            assert(ps.drop_first() =~= rt);
            assert(join_colon(ps) =~= s);
            assert forall|i: int| 0 <= i < ps.len() implies !(#[trigger] ps[i]).contains(':') by {
                if i > 0 {
                    assert(ps[i] == rt[i - 1]);
                }
            }
        } else {
            let ps = split_colon(s);
            let h = seq![s[0]] + rt[0];
            assert(ps =~= seq![h] + rt.drop_first());
            assert(!h.contains(':')) by {
                if h.contains(':') {
                    let k = choose|k: int| 0 <= k < h.len() && h[k] == ':';
                    if k > 0 {
                        assert(rt[0][k - 1] == ':');
                        assert(rt[0].contains(':'));
                    }
                }
            }
            assert forall|i: int| 0 <= i < ps.len() implies !(#[trigger] ps[i]).contains(':') by {
                if i > 0 {
                    assert(ps[i] == rt[i]);
                }
            }
            if rt.len() == 1 {
                assert(ps.len() == 1);
                assert(join_colon(rt) == rt[0]);
                assert(h =~= s);
            } else {
                assert(ps.drop_first() =~= rt.drop_first());
                assert(join_colon(rt) == rt[0] + seq![':'] + join_colon(rt.drop_first()));
                assert(ps.len() > 1 && ps[0] == h);
                assert(join_colon(ps) == h + seq![':'] + join_colon(ps.drop_first()));
                assert(s =~= seq![s[0]] + t);
                assert(join_colon(ps) =~= s);
            }
        }
    }
}

proof fn lemma_split_colon_nonempty(s: Seq<char>)
    ensures
        split_colon(s).len() >= 1,
    decreases s.len(),
{
    if s.len() > 0 {
        lemma_split_colon_nonempty(s.drop_first());
    }
}

/// `split_colon` read from the back: the last piece grows until a `:`.
proof fn lemma_split_colon_push(s: Seq<char>, c: char)
    ensures
        split_colon(s.push(c)) == if c == ':' {
            split_colon(s).push(Seq::<char>::empty())
        } else {
            split_colon(s).drop_last().push(split_colon(s).last().push(c))
        },
    decreases s.len(),
{
    lemma_split_colon_nonempty(s);
    if s.len() == 0 {
        assert(s =~= Seq::<char>::empty());
        assert(s.push(c).drop_first() =~= Seq::<char>::empty());
        assert(s.push(c)[0] == c);
        assert(split_colon(s.push(c).drop_first()) =~= seq![Seq::<char>::empty()]);
        assert(split_colon(s) =~= seq![Seq::<char>::empty()]);
        if c != ':' {
            assert(seq![c] + Seq::<char>::empty() =~= Seq::<char>::empty().push(c));
            assert(split_colon(s.push(c)) =~= split_colon(s).drop_last().push(
                split_colon(s).last().push(c),
            ));
        } else {
            assert(split_colon(s.push(c)) =~= split_colon(s).push(Seq::<char>::empty()));
        }
    } else {
        let t = s.drop_first();
        lemma_split_colon_push(t, c);
        lemma_split_colon_nonempty(t);
        lemma_split_colon_nonempty(t.push(c));
        assert(s.push(c).drop_first() =~= t.push(c));
        assert(s.push(c)[0] == s[0]);
        let rt = split_colon(t);
        if s[0] == ':' {
            assert(split_colon(s.push(c)) =~= if c == ':' {
                split_colon(s).push(Seq::<char>::empty())
            } else {
                split_colon(s).drop_last().push(split_colon(s).last().push(c))
            });
        } else {
            if c == ':' {
                assert(split_colon(s.push(c)) =~= split_colon(s).push(Seq::<char>::empty()));
            } else {
                if rt.len() == 1 {
                    assert((seq![s[0]] + rt[0]).push(c) =~= seq![s[0]] + rt[0].push(c));
                }
                assert(split_colon(s.push(c)) =~= split_colon(s).drop_last().push(
                    split_colon(s).last().push(c),
                ));
            }
        }
    }
}

/// The directory that a PATH entry names.
fn entry_dir(seg: &Vec<char>) -> (r: Vec<char>)
    ensures
        r@ == entry_norm(seg@),
{
    let mut i: usize = if seg.len() > 0 && seg[0] == '/' {
        1
    } else {
        0
    };
    let ghost s = strip_root(seg@);
    assert(s =~= seg@.subrange(i as int, seg@.len() as int));
    let end = if seg.len() > i && seg[seg.len() - 1] == '/' {
        seg.len() - 1
    } else {
        seg.len()
    };
    let start = i;
    let mut out: Vec<char> = Vec::new();
    while i < end
        invariant
            start <= i <= end <= seg@.len(),
            out@ == seg@.subrange(start as int, i as int),
        decreases end - i,
    {
        out.push(seg[i]);
        assert(seg@.subrange(start as int, i + 1) =~= seg@.subrange(start as int, i as int).push(
            seg@[i as int],
        ));
        i = i + 1;
    }
    proof {
        if end < seg.len() {
            assert(s.last() == '/');
            assert(out@ =~= s.drop_last());
        } else {
            assert(out@ =~= s);
        }
    }
    out
}

/// Adds the directory a PATH entry names, if it names one.
fn push_entry_dir(out: &mut Vec<String>, seg: &Vec<char>)
    ensures
        strings_view(final(out)@) == if entry_norm(seg@).len() == 0 {
            strings_view(old(out)@)
        } else {
            strings_view(old(out)@).push(entry_norm(seg@))
        },
{
    let d = entry_dir(seg);
    if d.len() > 0 {
        let ghost before = out@;
        out.push(string_from_chars(d));
        assert(strings_view(out@) =~= strings_view(before).push(entry_norm(seg@)));
    }
}

/// The directories named by the entries of the PATH variable `path_var`:
/// each entry without one leading and one trailing `/`, empty ones left out.
pub fn path_entries_of(path_var: &str) -> (r: Vec<String>)
    ensures
        strings_view(r@) == path_entries(path_var@),
{
    let chars = chars_of(path_var);
    let mut out: Vec<String> = Vec::new();
    let mut seg: Vec<char> = Vec::new();
    let mut i: usize = 0;
    proof {
        assert(chars@.take(0) =~= Seq::<char>::empty());
        assert(strings_view(out@) =~= Seq::<Seq<char>>::empty());
    }
    while i < chars.len()
        invariant
            i <= chars@.len(),
            split_colon(chars@.take(i as int)).last() == seg@,
            strings_view(out@) == dirs_of_segments(split_colon(chars@.take(i as int)).drop_last()),
        decreases chars.len() - i,
    {
        let c = chars[i];
        proof {
            assert(chars@.take(i + 1) =~= chars@.take(i as int).push(c));
            lemma_split_colon_push(chars@.take(i as int), c);
            lemma_split_colon_nonempty(chars@.take(i as int));
        }
        if c == ':' {
            let ghost segs = split_colon(chars@.take(i as int));
            push_entry_dir(&mut out, &seg);
            proof {
                assert(segs.push(Seq::<char>::empty()).drop_last() =~= segs);
                assert(segs.drop_last().push(segs.last()) =~= segs);
            }
            seg = Vec::new();
        } else {
            proof {
                let segs = split_colon(chars@.take(i as int));
                assert(segs.drop_last().push(segs.last().push(c)).drop_last() =~= segs.drop_last());
            }
            seg.push(c);
        }
        i = i + 1;
    }
    proof {
        assert(chars@.take(i as int) =~= path_var@);
        lemma_split_colon_nonempty(path_var@);
    }
    let ghost segs = split_colon(path_var@);
    push_entry_dir(&mut out, &seg);
    proof {
        assert(segs.drop_last().push(segs.last()) =~= segs);
    }
    out
}

/// Calls `regex::escape`, which escapes every meta character of the text
/// so that the result, as a pattern, matches the text literally.
#[verifier::external_body]
fn escape_literal(text: &str) -> (r: String)
    ensures
        r@ == regex_escape(text@),
{
    regex::escape(text)
}

/// The pattern that matches the lines below any of `dirs` (`exact` false),
/// or exactly one of `dirs` (`exact` true), each directory escaped.
pub fn entries_regex(dirs: &Vec<String>, exact: bool) -> (r: String)
    ensures
        r@ == entries_pattern(strings_view(dirs@), exact),
{
    let ghost alts = strings_view(dirs@).map_values(|d: Seq<char>| literal_alternative(d, exact));
    let mut out: Vec<char> = Vec::new();
    let mut i: usize = 0;
    assert(alts.take(0) =~= Seq::<Seq<char>>::empty());
    while i < dirs.len()
        invariant
            i <= dirs@.len(),
            alts == strings_view(dirs@).map_values(|d: Seq<char>| literal_alternative(d, exact)),
            out@ == join_bar(alts.take(i as int)),
        decreases dirs.len() - i,
    {
        let ghost before = out@;
        if i > 0 {
            out.push('|');
        }
        out.push('^');
        let escaped = escape_literal(dirs[i].as_str());
        let mut piece = chars_of(escaped.as_str());
        out.append(&mut piece);
        if exact {
            out.push('$');
        } else {
            out.push('/');
        }
        proof {
            let alt = alts[i as int];
            assert(alt == literal_alternative(dirs@[i as int]@, exact));
            assert(alts.take(i + 1) =~= alts.take(i as int).push(alt));
            assert(alts.take(i + 1).drop_last() =~= alts.take(i as int));
            if i == 0 {
                assert(out@ =~= alt);
            } else {
                assert(out@ =~= before + seq!['|'] + alt);
            }
        }
        i = i + 1;
    }
    assert(alts.take(i as int) =~= alts);
    string_from_chars(out)
}

/// `s` without its leading whitespace.
pub open spec fn trim_start_spec(s: Seq<char>) -> Seq<char>
    decreases s.len(),
{
    if s.len() > 0 && is_unicode_whitespace(s[0]) {
        trim_start_spec(s.drop_first())
    } else {
        s
    }
}

/// `s` without its leading and trailing whitespace.
pub open spec fn trim_spec(s: Seq<char>) -> Seq<char> {
    trim_start_spec(trim_end_spec(s))
}

/// Calls `str::trim`, which removes leading and trailing characters with
/// the Unicode `White_Space` property.
#[verifier::external_body]
fn trim(s: &str) -> (r: &str)
    ensures
        r@ == trim_spec(s@),
{
    s.trim()
}

/// The lines of `bytes`, each with its terminating `\n` if it has one.
pub open spec fn lines_with_terminator(bytes: Seq<u8>) -> Seq<Seq<u8>>
    decreases bytes.len(),
{
    if bytes.len() == 0 {
        seq![]
    } else {
        let e = line_end(bytes, 0);
        proof {
            crate::arch::lemma_line_end_bounds(bytes, 0);
        }
        if e <= 0 {
            seq![bytes]
        } else {
            seq![bytes.subrange(0, e)] + lines_with_terminator(bytes.subrange(e, bytes.len() as int))
        }
    }
}

/// A line without its terminating `\n` or `\r\n`.
pub open spec fn trim_last_terminator(line: Seq<u8>) -> Seq<u8> {
    if line.len() > 0 && line.last() == 10 {
        let l = line.drop_last();
        if l.len() > 0 && l.last() == 13 {
            l.drop_last()
        } else {
            l
        }
    } else {
        line
    }
}

/// The lines of `bytes` without their terminators, as `bstr` gives them.
pub open spec fn byte_lines_spec(bytes: Seq<u8>) -> Seq<Seq<u8>> {
    lines_with_terminator(bytes).map_values(|l: Seq<u8>| trim_last_terminator(l))
}

/// Views of a list of byte strings.
pub open spec fn byte_strings_view(v: Seq<Vec<u8>>) -> Seq<Seq<u8>> {
    v.map_values(|l: Vec<u8>| l@)
}

/// Calls `bstr::ByteSlice::lines`, which splits after each `\n` and drops
/// the `\n` or `\r\n` that ends a line.
#[verifier::external_body]
fn byte_lines(bytes: &[u8]) -> (r: Vec<Vec<u8>>)
    ensures
        byte_strings_view(r@) == byte_lines_spec(bytes@),
{
    bstr::ByteSlice::lines(bytes).map(|l| l.to_vec()).collect()
}

/// Calls `bstr::ByteSlice::to_str`, which succeeds exactly on valid UTF-8.
#[verifier::external_body]
fn bytes_to_str(bytes: &[u8]) -> (r: Option<&str>)
    ensures
        r is Some <==> valid_utf8(bytes@),
        r matches Some(s) ==> s@ == decode_utf8(bytes@),
{
    bstr::ByteSlice::to_str(bytes).ok()
}

/// What `camino::Utf8Path::parent` gives for a path.
pub uninterp spec fn path_parent(path: Seq<char>) -> Option<Seq<char>>;

/// What `camino::Utf8Path::file_name` gives for a path.
pub uninterp spec fn path_file_name(path: Seq<char>) -> Option<Seq<char>>;

/// What `camino::Utf8Path::file_stem` gives for a path.
pub uninterp spec fn path_file_stem(path: Seq<char>) -> Option<Seq<char>>;

/// Calls `camino::Utf8Path::parent`: the path without its last component,
/// as Unix path syntax reads it.
#[verifier::external_body]
fn parent_of(path: &str) -> (r: Option<&str>)
    ensures
        r matches Some(p) ==> path_parent(path@) == Some(p@),
        r is None ==> path_parent(path@) is None,
{
    camino::Utf8Path::new(path).parent().map(|p| p.as_str())
}

/// Calls `camino::Utf8Path::file_name`: the last component of the path, if
/// it is a normal one, as Unix path syntax reads it.
#[verifier::external_body]
fn file_name_of(path: &str) -> (r: Option<&str>)
    ensures
        r matches Some(p) ==> path_file_name(path@) == Some(p@),
        r is None ==> path_file_name(path@) is None,
{
    camino::Utf8Path::new(path).file_name()
}

/// What collecting `camino::Utf8Path::components` into a path makes of a
/// path: the same components, written once each with one separator, so
/// that two paths that compare equal give the same text.
pub uninterp spec fn path_normal(path: Seq<char>) -> Seq<char>;

/// Calls `camino::Utf8Path::components` and collects them into a
/// `camino::Utf8PathBuf`.
#[verifier::external_body]
fn normal_path(path: &str) -> (r: String)
    ensures
        r@ == path_normal(path@),
{
    camino::Utf8Path::new(path).components().collect::<camino::Utf8PathBuf>().into_string()
}

/// Calls `camino::Utf8Path::file_stem`: the file name without its last
/// extension, as Unix path syntax reads it.
#[verifier::external_body]
fn file_stem_of(path: &str) -> (r: Option<&str>)
    ensures
        r matches Some(p) ==> path_file_stem(path@) == Some(p@),
        r is None ==> path_file_stem(path@) is None,
{
    camino::Utf8Path::new(path).file_stem()
}

#[verifier::external_type_specification]
#[verifier::external_body]
pub struct ExBytesRegex(regex::bytes::Regex);

#[verifier::external_type_specification]
#[verifier::external_body]
pub struct ExRegex(regex::Regex);

#[verifier::external_type_specification]
#[verifier::external_body]
pub struct ExRegexError(regex::Error);

/// Whether `regex::bytes::Regex::new` accepts the pattern.
pub uninterp spec fn bytes_regex_compiles(pattern: Seq<char>) -> bool;

/// Whether `regex::Regex::new` accepts the pattern.
pub uninterp spec fn str_regex_compiles(pattern: Seq<char>) -> bool;

/// Calls `regex::bytes::Regex::new`, which compiles the pattern or says
/// why it cannot.
#[verifier::external_body]
fn compile_bytes_regex(pattern: &str) -> (r: Result<regex::bytes::Regex, regex::Error>)
    ensures
        r is Ok <==> bytes_regex_compiles(pattern@),
{
    regex::bytes::Regex::new(pattern)
}

/// Calls `regex::Regex::new`, which compiles the pattern or says why it
/// cannot.
#[verifier::external_body]
fn compile_regex(pattern: &str) -> (r: Result<regex::Regex, regex::Error>)
    ensures
        r is Ok <==> str_regex_compiles(pattern@),
{
    regex::Regex::new(pattern)
}

/// Filters for the paths of the files database, from the directories of
/// PATH: a quick one on raw lines, and an exact one on parent directories.
pub struct PathFilters {
    dirs: Vec<String>,
    prefilter: regex::bytes::Regex,
    filter: regex::Regex,
}

impl PathFilters {
    /// The directories whose files are kept.
    pub closed spec fn entries(&self) -> Seq<Seq<char>> {
        strings_view(self.dirs@)
    }

    /// Compiles the two filters for the directories of the PATH variable
    /// `path_var`; fails where a pattern is too large for the regex engine.
    pub fn new(path_var: &str) -> (r: Result<PathFilters, regex::Error>)
        ensures
            r is Ok <==> bytes_regex_compiles(entries_pattern(path_entries(path_var@), false))
                && str_regex_compiles(entries_pattern(path_entries(path_var@), true)),
            r matches Ok(f) ==> f.entries() == path_entries(path_var@),
    {
        let dirs = path_entries_of(path_var);
        let prefilter_pattern = entries_regex(&dirs, false);
        let filter_pattern = entries_regex(&dirs, true);
        let prefilter = compile_bytes_regex(prefilter_pattern.as_str())?;
        let filter = compile_regex(filter_pattern.as_str())?;
        Ok(PathFilters { dirs, prefilter, filter })
    }

    /// Calls `regex::bytes::Regex::is_match` with the quick filter. `new`
    /// compiled it from `^d/` for each directory `d`, escaped with
    /// `regex::escape` and joined with `|`; with the default flags such a
    /// pattern matches exactly the lines that start with one of the
    /// directories' UTF-8 bytes and a `/`.
    #[verifier::external_body]
    fn prefilter_matches(&self, line: &[u8]) -> (r: bool)
        requires
            self.entries().len() > 0,
        ensures
            r == below_some(line@, self.entries()),
    {
        self.prefilter.is_match(line)
    }

    /// Calls `regex::Regex::is_match` with the exact filter. `new` compiled
    /// it from `^d$` for each directory `d`, escaped with `regex::escape`
    /// and joined with `|`; with the default flags such a pattern matches
    /// exactly the texts equal to one of the directories.
    #[verifier::external_body]
    fn filter_matches(&self, path: &str) -> (r: bool)
        requires
            self.entries().len() > 0,
        ensures
            r == self.entries().contains(path@),
    {
        self.filter.is_match(path)
    }

    /// Whether a raw line of a files list lies below one of the directories.
    pub fn keeps_line(&self, line: &[u8]) -> (r: bool)
        ensures
            r == below_some(line@, self.entries()),
    {
        if self.dirs.len() == 0 {
            return false;
        }
        self.prefilter_matches(line)
    }

    /// Whether a directory is one of the directories.
    pub fn keeps_dir(&self, dir: &str) -> (r: bool)
        ensures
            r == self.entries().contains(dir@),
    {
        if self.dirs.len() == 0 {
            return false;
        }
        self.filter_matches(dir)
    }
}

/// Errors of an update.
#[derive(Debug, PartialEq, Eq)]
pub enum UpdateError {
    /// A path of the archive has no file name.
    NoFileName,
    /// A path of the archive has no parent directory.
    NoParent,
    /// The archive's path has no file stem.
    NoFileStem,
    /// A package description could not be read.
    Desc(DescError),
    /// A line of a files list is not valid UTF-8.
    InvalidUtf8,
    /// A directory or package name is too long for the interner.
    TooLong,
    /// The interner would grow past the offsets that a handle holds.
    TooLarge,
    /// A directory has files but no package description.
    NoPackage(String),
    /// The files database is not a complete gzip, zstd or xz stream.
    NotCompressed,
    /// A path in the files database is not valid UTF-8.
    NonUtf8Path,
    /// The files database is not a readable tar archive.
    Tar,
}

/// The bytes of `%FILES%`.
pub open spec fn files_marker() -> Seq<u8> {
    seq![37u8, 70u8, 73u8, 76u8, 69u8, 83u8, 37u8]
}

/// What a line of a files list contributes.
pub enum LineOutcome {
    /// Nothing.
    Skip,
    /// An error: the line is not valid UTF-8.
    Invalid,
    /// A file: its name and its directory.
    Accept(Seq<char>, Seq<char>),
}

/// What a line of a files list contributes, under the given filters.
pub open spec fn line_outcome(line: Seq<u8>, entries: Seq<Seq<char>>) -> LineOutcome {
    if line.len() == 0 || line == files_marker() {
        LineOutcome::Skip
    } else if !below_some(line, entries) {
        LineOutcome::Skip
    } else if !valid_utf8(line) {
        LineOutcome::Invalid
    } else {
        let path = trim_spec(decode_utf8(line));
        match path_parent(path) {
            None => LineOutcome::Skip,
            Some(parent) => if !entries.contains(parent) {
                LineOutcome::Skip
            } else {
                match path_file_name(path) {
                    None => LineOutcome::Skip,
                    Some(name) => LineOutcome::Accept(name, parent),
                }
            },
        }
    }
}

/// The strings held after interning each of `ss` in turn.
pub open spec fn intern_all(strings: Seq<Seq<char>>, ss: Seq<Seq<char>>) -> Seq<Seq<char>>
    decreases ss.len(),
{
    if ss.len() == 0 {
        strings
    } else {
        let s = ss.last();
        let before = intern_all(strings, ss.drop_last());
        if before.contains(s) {
            before
        } else {
            before.push(s)
        }
    }
}

/// The files a files list contributes, as (name, directory) pairs, or the
/// first error in it.
pub open spec fn files_of_lines(
    lines: Seq<Seq<u8>>,
    entries: Seq<Seq<char>>,
    strings: Seq<Seq<char>>,
) -> Result<
    Seq<(Seq<char>, Seq<char>)>,
    UpdateError,
>
    decreases lines.len(),
{
    if lines.len() == 0 {
        Ok(seq![])
    } else {
        match files_of_lines(lines.drop_last(), entries, strings) {
            Err(e) => Err(e),
            Ok(files) => match line_outcome(lines.last(), entries) {
                LineOutcome::Skip => Ok(files),
                LineOutcome::Invalid => Err(UpdateError::InvalidUtf8),
                LineOutcome::Accept(name, parent) => if encode_utf8(parent).len() > 0xffff {
                    Err(UpdateError::TooLong)
                } else if !fits_in_handles(intern_all(strings, dirs_of(files)), parent) {
                    Err(UpdateError::TooLarge)
                } else {
                    Ok(files.push((name, parent)))
                },
            },
        }
    }
}

/// A files list yields only files whose parent directory is one of the
/// PATH directories `dirs`, each from a line below one of them; with no
/// PATH directories it yields none.
pub proof fn lemma_files_in_path(lines: Seq<Seq<u8>>, dirs: Seq<Seq<char>>, strings: Seq<Seq<char>>)
    ensures
        files_of_lines(lines, dirs, strings) matches Ok(files) ==> (forall|i: int|
            0 <= i < files.len() ==> dirs.contains(#[trigger] files[i].1)),
        dirs.len() == 0 ==> (files_of_lines(lines, dirs, strings) matches Ok(files) ==> files.len()
            == 0),
    decreases lines.len(),
{
    if lines.len() > 0 {
        lemma_files_in_path(lines.drop_last(), dirs, strings);
        if let Ok(files) = files_of_lines(lines, dirs, strings) {
            let prev = files_of_lines(lines.drop_last(), dirs, strings)->Ok_0;
            assert forall|i: int| 0 <= i < files.len() implies dirs.contains(#[trigger] files[i].1) by {
                if i < prev.len() {
                    assert(files[i] == prev[i]);
                }
            }
            if dirs.len() == 0 {
                assert(!below_some(lines.last(), dirs));
            }
        }
    }
}

/// The directories of a list of files.
pub open spec fn dirs_of(files: Seq<(Seq<char>, Seq<char>)>) -> Seq<Seq<char>> {
    files.map_values(|f: (Seq<char>, Seq<char>)| f.1)
}

/// The files of a work item as (name, directory handle offset) pairs.
pub open spec fn files_view(files: Seq<(String, DirectoryRef)>) -> Seq<(Seq<char>, u32)> {
    files.map_values(|f: (String, DirectoryRef)| (f.0@, f.1.0.offset))
}

proof fn lemma_intern_all_grows(strings: Seq<Seq<char>>, ss: Seq<Seq<char>>)
    requires
        strings.no_duplicates(),
    ensures
        intern_all(strings, ss).no_duplicates(),
        forall|i: int| 0 <= i < strings.len() ==> intern_all(strings, ss)[i] == strings[i],
        strings.len() <= intern_all(strings, ss).len(),
        forall|i: int| 0 <= i < ss.len() ==> intern_all(strings, ss).contains(#[trigger] ss[i]),
        forall|x: Seq<char>| strings.contains(x) ==> intern_all(strings, ss).contains(x),
    decreases ss.len(),
{
    if ss.len() > 0 {
        lemma_intern_all_grows(strings, ss.drop_last());
        let before = intern_all(strings, ss.drop_last());
        let s = ss.last();
        if !before.contains(s) {
            let after = before.push(s);
            assert(after.no_duplicates()) by {
                assert forall|i: int, j: int|
                    0 <= i < after.len() && 0 <= j < after.len() && i != j implies after[i]
                    != after[j] by {
                    if i < before.len() && j == before.len() {
                        assert(before.contains(before[i]));
                    }
                    if j < before.len() && i == before.len() {
                        assert(before.contains(before[j]));
                    }
                }
            }
            assert forall|i: int| 0 <= i < ss.len() implies after.contains(#[trigger] ss[i]) by {
                if i < ss.len() - 1 {
                    assert(ss.drop_last()[i] == ss[i]);
                    let k = choose|k: int| 0 <= k < before.len() && before[k] == ss[i];
                    assert(after[k] == ss[i]);
                } else {
                    assert(after[before.len() as int] == s);
                }
            }
            assert forall|x: Seq<char>| strings.contains(x) implies after.contains(x) by {
                let k = choose|k: int| 0 <= k < before.len() && before[k] == x;
                assert(after[k] == x);
            }
        } else {
            assert forall|i: int| 0 <= i < ss.len() implies before.contains(#[trigger] ss[i]) by {
                if i < ss.len() - 1 {
                    assert(ss.drop_last()[i] == ss[i]);
                }
            }
        }
    }
}

proof fn lemma_handle_stable_all(strings: Seq<Seq<char>>, ss: Seq<Seq<char>>, s: Seq<char>)
    requires
        strings.no_duplicates(),
        strings.contains(s),
    ensures
        handle_offset(intern_all(strings, ss), s) == handle_offset(strings, s),
    decreases ss.len(),
{
    if ss.len() > 0 {
        lemma_handle_stable_all(strings, ss.drop_last(), s);
        lemma_intern_all_grows(strings, ss.drop_last());
        let before = intern_all(strings, ss.drop_last());
        if !before.contains(ss.last()) {
            crate::interner::lemma_handle_stable(before, s, ss.last());
        }
    }
}

/// Collects the files of a files list, interning their directories.
fn collect_files(
    interner: &mut StringInternerBuilder,
    lines: &Vec<Vec<u8>>,
    filters: &PathFilters,
) -> (r: Result<Vec<(String, DirectoryRef)>, UpdateError>)
    requires
        old(interner).wf(),
    ensures
        final(interner).wf(),
        exists|ss: Seq<Seq<char>>| final(interner).strings() == intern_all(old(interner).strings(), ss),
        match files_of_lines(byte_strings_view(lines@), filters.entries(), old(interner).strings()) {
            Err(e) => r matches Err(e2) && e2 == e,
            Ok(files) => r matches Ok(v) && final(interner).strings() == intern_all(
                old(interner).strings(),
                dirs_of(files),
            ) && files_view(v@) == files.map_values(
                |f: (Seq<char>, Seq<char>)| (f.0, handle_offset(final(interner).strings(), f.1)),
            ),
        },
{
    let ghost lv = byte_strings_view(lines@);
    let ghost pre = filters.entries();
    let ghost s0 = interner.strings();
    proof {
        interner.lemma_wf();
    }
    let mut contents: Vec<(String, DirectoryRef)> = Vec::new();
    let ghost mut files: Seq<(Seq<char>, Seq<char>)> = seq![];
    let mut i: usize = 0;
    proof {
        assert(lv.take(0) =~= Seq::<Seq<u8>>::empty());
        assert(files_view(contents@) =~= Seq::<(Seq<char>, u32)>::empty());
    }
    while i < lines.len()
        invariant
            i <= lines@.len(),
            lv == byte_strings_view(lines@),
            pre == filters.entries(),
            interner.wf(),
            s0.no_duplicates(),
            s0 == old(interner).strings(),
            files_of_lines(lv.take(i as int), pre, s0) == Ok::<
                Seq<(Seq<char>, Seq<char>)>,
                UpdateError,
            >(files),
            interner.strings() == intern_all(s0, dirs_of(files)),
            files_view(contents@) == files.map_values(
                |f: (Seq<char>, Seq<char>)| (f.0, handle_offset(interner.strings(), f.1)),
            ),
        decreases lines.len() - i,
    {
        let line = lines[i].as_slice();
        proof {
            assert(lv.take(i + 1).drop_last() =~= lv.take(i as int));
            assert(lv.take(i + 1).last() == line@);
        }
        if line.len() == 0 || bytes_eq_marker(line) {
            assert(files_of_lines(lv.take(i + 1), pre, s0) == files_of_lines(lv.take(i as int), pre, s0));
            i = i + 1;
            continue;
        }
        if !filters.keeps_line(line) {
            assert(files_of_lines(lv.take(i + 1), pre, s0) == files_of_lines(lv.take(i as int), pre, s0));
            i = i + 1;
            continue;
        }
        let text = match bytes_to_str(line) {
            Some(t) => t,
            None => {
                proof {
                    lemma_files_of_lines_err_stays(lv, i as int + 1, pre, s0);
                    assert(interner.strings() == intern_all(s0, dirs_of(files)));
                }
                return Err(UpdateError::InvalidUtf8);
            },
        };
        let path = trim(text);
        let parent = match parent_of(path) {
            Some(p) => p,
            None => {
                assert(files_of_lines(lv.take(i + 1), pre, s0) == files_of_lines(lv.take(i as int), pre, s0));
                i = i + 1;
                continue;
            },
        };
        if !filters.keeps_dir(parent) {
            assert(files_of_lines(lv.take(i + 1), pre, s0) == files_of_lines(lv.take(i as int), pre, s0));
            i = i + 1;
            continue;
        }
        let file_name = match file_name_of(path) {
            Some(f) => f,
            None => {
                assert(files_of_lines(lv.take(i + 1), pre, s0) == files_of_lines(lv.take(i as int), pre, s0));
                i = i + 1;
                continue;
            },
        };
        if parent.as_bytes().len() > 0xffff {
            proof {
                lemma_files_of_lines_err_stays(lv, i as int + 1, pre, s0);
                assert(interner.strings() == intern_all(s0, dirs_of(files)));
            }
            return Err(UpdateError::TooLong);
        }
        if !interner.fits(parent) {
            proof {
                lemma_files_of_lines_err_stays(lv, i as int + 1, pre, s0);
                assert(interner.strings() == intern_all(s0, dirs_of(files)));
            }
            return Err(UpdateError::TooLarge);
        }
        let ghost old_strings = interner.strings();
        let h = interner.intern(parent);
        let ghost nf = files.push((file_name@, parent@));
        proof {
            assert(files_of_lines(lv.take(i + 1), pre, s0) == Ok::<
                Seq<(Seq<char>, Seq<char>)>,
                UpdateError,
            >(nf));
            assert(dirs_of(nf) =~= dirs_of(files).push(parent@));
            assert(dirs_of(nf).drop_last() =~= dirs_of(files));
            assert(dirs_of(nf).last() == parent@);
            lemma_intern_all_grows(s0, dirs_of(files));
            assert(interner.strings() == intern_all(s0, dirs_of(nf)));
            lemma_intern_all_grows(s0, dirs_of(nf));
            assert forall|k: int| 0 <= k < files.len() implies handle_offset(
                interner.strings(),
                #[trigger] files[k].1,
            ) == handle_offset(old_strings, files[k].1) by {
                assert(dirs_of(files)[k] == files[k].1);
                assert(old_strings.contains(files[k].1));
                if !old_strings.contains(parent@) {
                    crate::interner::lemma_handle_stable(old_strings, files[k].1, parent@);
                }
            }
        }
        let ghost old_contents = contents@;
        let ghost old_files = files;
        assert(files_view(old_contents).len() == old_contents.len());
        assert(old_contents.len() == old_files.len());
        let entry = (file_name.to_owned(), DirectoryRef(h));
        contents.push(entry);
        proof {
            assert(contents@ == old_contents.push(entry));
            assert forall|k: int| 0 <= k < nf.len() implies #[trigger] files_view(contents@)[k] == (
                nf[k].0,
                handle_offset(interner.strings(), nf[k].1),
            ) by {
                if k < old_files.len() {
                    assert(contents@[k] == old_contents[k]);
                    assert(files_view(old_contents)[k] == (
                        old_files[k].0,
                        handle_offset(old_strings, old_files[k].1),
                    ));
                    assert(nf[k] == old_files[k]);
                } else {
                    assert(contents@[k] == entry);
                }
            }
            files = nf;
            assert(files_view(contents@) =~= files.map_values(
                |f: (Seq<char>, Seq<char>)| (f.0, handle_offset(interner.strings(), f.1)),
            ));
        }
        i = i + 1;
    }
    proof {
        assert(lv.take(i as int) =~= lv);
    }
    Ok(contents)
}

/// Whether a line is `%FILES%`.
fn bytes_eq_marker(line: &[u8]) -> (r: bool)
    ensures
        r == (line@ == files_marker()),
{
    let marker: [u8; 7] = [37u8, 70u8, 73u8, 76u8, 69u8, 83u8, 37u8];
    assert(marker@ =~= files_marker());
    crate::arch::bytes_eq(line, marker.as_slice())
}

proof fn lemma_files_of_lines_err_stays(
    lines: Seq<Seq<u8>>,
    n: int,
    pre: Seq<Seq<char>>,
    s0: Seq<Seq<char>>,
)
    requires
        0 <= n <= lines.len(),
        files_of_lines(lines.take(n), pre, s0) is Err,
    ensures
        files_of_lines(lines, pre, s0) == files_of_lines(lines.take(n), pre, s0),
    decreases lines.len() - n,
{
    if n < lines.len() {
        assert(lines.take(n + 1).drop_last() =~= lines.take(n));
        lemma_files_of_lines_err_stays(lines, n + 1, pre, s0);
    } else {
        assert(lines.take(n) =~= lines);
    }
}


/// `entries` lists each key of `m` exactly once, with its value.
pub open spec fn is_map_enumeration<V>(entries: Seq<(Seq<char>, V)>, m: Map<Seq<char>, V>) -> bool {
    &&& forall|i: int|
        0 <= i < entries.len() ==> m.contains_key(#[trigger] entries[i].0) && m[entries[i].0]
            == entries[i].1
    &&& forall|i: int, j: int|
        0 <= i < entries.len() && 0 <= j < entries.len() && i != j ==> #[trigger] entries[i].0
            != #[trigger] entries[j].0
    &&& forall|k: Seq<char>|
        #[trigger] m.contains_key(k) ==> exists|i: int| 0 <= i < entries.len() && entries[i].0 == k
}

/// What is known of one directory of the archive while it is read: its
/// package, once its description was read, and its files, once its files
/// list was read.
#[derive(Debug, Default, Clone)]
pub struct RecordWorkInProgress {
    pub package: Option<String>,
    /// File name and containing directory
    pub files: Vec<(String, DirectoryRef)>,
}

/// The value a [`RecordWorkInProgress`] stands for.
pub open spec fn work_view(w: RecordWorkInProgress) -> (Option<Seq<char>>, Seq<(Seq<char>, u32)>) {
    (
        match w.package {
            Some(p) => Some(p@),
            None => None,
        },
        files_view(w.files@),
    )
}

/// Views of a list of work entries.
pub open spec fn work_entries_view(v: Seq<(String, RecordWorkInProgress)>) -> Seq<
    (Seq<char>, (Option<Seq<char>>, Seq<(Seq<char>, u32)>)),
> {
    v.map_values(|e: (String, RecordWorkInProgress)| (e.0@, work_view(e.1)))
}

/// The work in progress of each directory of the archive.
#[verifier::external_body]
pub struct PackageMap {
    map: hashbrown::HashMap<String, RecordWorkInProgress>,
}

/// What a [`PackageMap`] holds: each directory with the view of its work.
pub uninterp spec fn package_map_contents(m: PackageMap) -> Map<
    Seq<char>,
    (Option<Seq<char>>, Seq<(Seq<char>, u32)>),
>;

impl PackageMap {
    /// Calls `hashbrown::HashMap::new`; the new map is empty.
    #[verifier::external_body]
    fn new() -> (r: PackageMap)
        ensures
            package_map_contents(r).dom().is_empty(),
    {
        PackageMap { map: hashbrown::HashMap::new() }
    }

    /// Calls `hashbrown::HashMap::get`; it returns a copy of the work stored
    /// under a key equal to `key`, if any.
    #[verifier::external_body]
    fn get(&self, key: &str) -> (r: Option<RecordWorkInProgress>)
        ensures
            r matches Some(w) ==> package_map_contents(*self).contains_key(key@)
                && package_map_contents(*self)[key@] == work_view(w),
            r is None ==> !package_map_contents(*self).contains_key(key@),
    {
        self.map.get(key).cloned()
    }

    /// Calls `hashbrown::HashMap::insert`; afterwards `key` maps to `work`
    /// and every other key is as before.
    #[verifier::external_body]
    fn insert(&mut self, key: String, work: RecordWorkInProgress)
        ensures
            package_map_contents(*final(self)) == package_map_contents(*old(self)).insert(
                key@,
                work_view(work),
            ),
    {
        self.map.insert(key, work);
    }

    /// Calls `hashbrown::HashMap::into_iter`; it lists every entry once, in
    /// an order that the map's hasher decides.
    #[verifier::external_body]
    fn into_entries(self) -> (r: Vec<(String, RecordWorkInProgress)>)
        ensures
            is_map_enumeration(work_entries_view(r@), package_map_contents(self)),
    {
        self.map.into_iter().collect()
    }
}

/// The characters of `desc`.
pub open spec fn desc_file_name() -> Seq<char> {
    seq!['d', 'e', 's', 'c']
}

/// The characters of `files`.
pub open spec fn files_file_name() -> Seq<char> {
    seq!['f', 'i', 'l', 'e', 's']
}

/// The state of a scan of an archive: interned strings and the work of
/// each directory.
pub struct ScanState {
    pub strings: Seq<Seq<char>>,
    pub packages: Map<Seq<char>, (Option<Seq<char>>, Seq<(Seq<char>, u32)>)>,
}

/// The state after reading the archive entry at `path` with `contents`.
pub open spec fn scan_entry(
    st: ScanState,
    path: Seq<char>,
    contents: Seq<u8>,
    entries: Seq<Seq<char>>,
) -> Result<ScanState, UpdateError> {
    scan_entry_parts(st, path_file_name(path), path_parent(path), contents, entries)
}

/// The characters of an optional string.
pub open spec fn str_opt_view(o: Option<&str>) -> Option<Seq<char>> {
    match o {
        Some(s) => Some(s@),
        None => None,
    }
}

/// The state after reading an archive entry whose path has the file name
/// `file_name` and the parent directory `dir`, with `contents`.
pub open spec fn scan_entry_parts(
    st: ScanState,
    file_name: Option<Seq<char>>,
    dir: Option<Seq<char>>,
    contents: Seq<u8>,
    entries: Seq<Seq<char>>,
) -> Result<ScanState, UpdateError> {
    match file_name {
        None => Err(UpdateError::NoFileName),
        Some(name) => match dir {
            None => Err(UpdateError::NoParent),
            Some(parent) => {
                let dir = path_normal(parent);
                if name == desc_file_name() {
                match desc_from(contents, 0, None, None) {
                    Err(e) => Err(UpdateError::Desc(e)),
                    Ok((n, v)) => {
                        let files = if st.packages.contains_key(dir) {
                            st.packages[dir].1
                        } else {
                            seq![]
                        };
                        Ok(
                            ScanState {
                                strings: st.strings,
                                packages: st.packages.insert(dir, (Some(n + seq![' '] + v), files)),
                            },
                        )
                    },
                }
            } else if name == files_file_name() {
                match files_of_lines(byte_lines_spec(contents), entries, st.strings) {
                    Err(e) => Err(e),
                    Ok(files) => {
                        let strings = intern_all(st.strings, dirs_of(files));
                        let package = if st.packages.contains_key(dir) {
                            st.packages[dir].0
                        } else {
                            None
                        };
                        let fv = files.map_values(
                            |f: (Seq<char>, Seq<char>)| (f.0, handle_offset(strings, f.1)),
                        );
                        Ok(ScanState { strings, packages: st.packages.insert(dir, (package, fv)) })
                    },
                }
            } else {
                Ok(st)
            }
            },
        },
    }
}

/// The records of `files`, all of the package with handle offset `h`,
/// added to `bins` in order.
pub open spec fn add_records(
    bins: Map<Seq<char>, Seq<Record>>,
    files: Seq<(Seq<char>, u32)>,
    h: u32,
) -> Map<Seq<char>, Seq<Record>>
    decreases files.len(),
{
    if files.len() == 0 {
        bins
    } else {
        let b = add_records(bins, files.drop_last(), h);
        let (f, d) = files.last();
        let old_records = if b.contains_key(f) {
            b[f]
        } else {
            seq![]
        };
        b.insert(
            f,
            old_records.push(
                Record { package: PackageRef(Handle { offset: h }), directory: DirectoryRef(Handle { offset: d }) },
            ),
        )
    }
}

/// Why building the binaries map failed.
pub enum FinishFailure {
    /// The directory has files but no package.
    NoPackage(Seq<char>),
    /// The package name is too long for the interner.
    TooLong,
    /// The interner would grow past the offsets that a handle holds.
    TooLarge,
}

/// The interned strings and binaries map after going through the
/// directories `entries` in order: each directory with files adds a record
/// for each of its files, naming its package, which is interned.
pub open spec fn finish_fold(
    entries: Seq<(Seq<char>, (Option<Seq<char>>, Seq<(Seq<char>, u32)>))>,
    strings: Seq<Seq<char>>,
    bins: Map<Seq<char>, Seq<Record>>,
) -> Result<(Seq<Seq<char>>, Map<Seq<char>, Seq<Record>>), FinishFailure>
    decreases entries.len(),
{
    if entries.len() == 0 {
        Ok((strings, bins))
    } else {
        let (dir, (package, files)) = entries[0];
        if files.len() == 0 {
            finish_fold(entries.drop_first(), strings, bins)
        } else {
            match package {
                None => Err(FinishFailure::NoPackage(dir)),
                Some(p) => if encode_utf8(p).len() > 0xffff {
                    Err(FinishFailure::TooLong)
                } else if !fits_in_handles(strings, p) {
                    Err(FinishFailure::TooLarge)
                } else {
                    let s2 = intern_all(strings, seq![p]);
                    finish_fold(
                        entries.drop_first(),
                        s2,
                        add_records(bins, files, handle_offset(s2, p)),
                    )
                },
            }
        }
    }
}

/// How many records `bins` holds under the name `k`.
pub open spec fn records_under(bins: Map<Seq<char>, Seq<Record>>, k: Seq<char>) -> nat {
    if bins.contains_key(k) {
        bins[k].len()
    } else {
        0
    }
}

/// The files named `k` among `files`, in order.
pub open spec fn named(files: Seq<(Seq<char>, u32)>, k: Seq<char>) -> Seq<(Seq<char>, u32)> {
    files.filter(name_is(k))
}

/// Whether a file is named `k`.
pub open spec fn name_is(k: Seq<char>) -> spec_fn((Seq<char>, u32)) -> bool {
    |f: (Seq<char>, u32)| f.0 == k
}

/// How many files named `k` the listed directories hold together.
pub open spec fn files_named(
    e: Seq<(Seq<char>, (Option<Seq<char>>, Seq<(Seq<char>, u32)>))>,
    k: Seq<char>,
) -> nat
    decreases e.len(),
{
    if e.len() == 0 {
        0
    } else {
        named(e[0].1.1, k).len() + files_named(e.drop_first(), k)
    }
}

/// The record of a file in directory `d` of the package with handle `h`.
pub open spec fn record_of(h: u32, d: u32) -> Record {
    Record { package: PackageRef(Handle { offset: h }), directory: DirectoryRef(Handle { offset: d }) }
}

/// Adding a package's files to the index keeps every record already under
/// a name, and after them adds one record per file of that name, in order,
/// naming the package and the file's directory; other names are untouched
/// but for the records of their own files.
pub proof fn lemma_add_records_appends(
    bins: Map<Seq<char>, Seq<Record>>,
    files: Seq<(Seq<char>, u32)>,
    h: u32,
    k: Seq<char>,
)
    ensures
        records_under(add_records(bins, files, h), k) == records_under(bins, k) + named(files, k).len(),
        forall|i: int|
            0 <= i < records_under(bins, k) ==> #[trigger] add_records(bins, files, h)[k][i]
                == bins[k][i],
        forall|j: int|
            0 <= j < named(files, k).len() ==> add_records(bins, files, h)[k][records_under(bins, k)
                + j] == record_of(h, #[trigger] named(files, k)[j].1),
    decreases files.len(),
{
    let pk = name_is(k);
    if files.len() == 0 {
        files.lemma_filter_len(pk);
        assert(named(files, k).len() == 0) by {
            Seq::<(Seq<char>, u32)>::empty().lemma_filter_len(pk);
            assert(files =~= Seq::<(Seq<char>, u32)>::empty());
        }
    } else {
        let init = files.drop_last();
        lemma_add_records_appends(bins, init, h, k);
        let b = add_records(bins, init, h);
        let (f, d) = files.last();
        assert(files =~= init.push(files.last()));
        init.lemma_filter_push(files.last(), pk);
        let old = if b.contains_key(f) {
            b[f]
        } else {
            seq![]
        };
        assert(add_records(bins, files, h) == b.insert(f, old.push(record_of(h, d))));
        if f == k {
            assert(named(files, k) == named(init, k).push((f, d)));
            assert(records_under(b, k) == old.len());
        } else {
            assert(named(files, k) == named(init, k));
        }
    }
}

/// Reading `a` and then `b` interns the strings of both, in order.
proof fn lemma_intern_all_append(strings: Seq<Seq<char>>, a: Seq<Seq<char>>, b: Seq<Seq<char>>)
    ensures
        intern_all(strings, a + b) == intern_all(intern_all(strings, a), b),
    decreases b.len(),
{
    if b.len() == 0 {
        assert(a + b =~= a);
    } else {
        lemma_intern_all_append(strings, a, b.drop_last());
        assert((a + b).drop_last() =~= a + b.drop_last());
        assert((a + b).last() == b.last());
    }
}

/// Building the index only interns further strings after the given ones.
proof fn lemma_finish_fold_interns(
    e: Seq<(Seq<char>, (Option<Seq<char>>, Seq<(Seq<char>, u32)>))>,
    strings: Seq<Seq<char>>,
    bins: Map<Seq<char>, Seq<Record>>,
)
    ensures
        finish_fold(e, strings, bins) matches Ok((s2, b2)) ==> exists|ps: Seq<Seq<char>>|
            s2 == intern_all(strings, ps),
    decreases e.len(),
{
    assert(intern_all(strings, Seq::<Seq<char>>::empty()) == strings);
    if e.len() > 0 {
        let (dir, (package, files)) = e[0];
        if files.len() == 0 {
            lemma_finish_fold_interns(e.drop_first(), strings, bins);
        } else if let Some(p) = package {
            let s1 = intern_all(strings, seq![p]);
            let h = handle_offset(s1, p);
            lemma_finish_fold_interns(e.drop_first(), s1, add_records(bins, files, h));
            if let Ok((s2, b2)) = finish_fold(e, strings, bins) {
                let ps = choose|ps: Seq<Seq<char>>| s2 == intern_all(s1, ps);
                lemma_intern_all_append(strings, seq![p], ps);
            }
        }
    }
}

/// Building the index from the listed directories gives, under every name,
/// the records already there followed by one record for each file of that
/// name over all directories with files: a name shipped by several
/// packages keeps the record of every one of them.
pub proof fn lemma_finish_counts_records(
    e: Seq<(Seq<char>, (Option<Seq<char>>, Seq<(Seq<char>, u32)>))>,
    strings: Seq<Seq<char>>,
    bins: Map<Seq<char>, Seq<Record>>,
    k: Seq<char>,
)
    ensures
        finish_fold(e, strings, bins) matches Ok((s2, b2)) ==> records_under(b2, k) == records_under(
            bins,
            k,
        ) + files_named(e, k) && forall|i: int|
            0 <= i < records_under(bins, k) ==> #[trigger] b2[k][i] == bins[k][i],
    decreases e.len(),
{
    if e.len() > 0 {
        let (dir, (package, files)) = e[0];
        if files.len() == 0 {
            assert(named(files, k).len() == 0) by {
                files.lemma_filter_len(name_is(k));
            }
            lemma_finish_counts_records(e.drop_first(), strings, bins, k);
        } else if let Some(p) = package {
            let s1 = intern_all(strings, seq![p]);
            let h = handle_offset(s1, p);
            let bins1 = add_records(bins, files, h);
            lemma_add_records_appends(bins, files, h, k);
            lemma_finish_counts_records(e.drop_first(), s1, bins1, k);
        }
    }
}

/// Every file of every listed directory with a package is in the built
/// index, under its name, with the record of that package (by its handle
/// in the final strings) and its directory.
pub proof fn lemma_finish_keeps_every_package(
    e: Seq<(Seq<char>, (Option<Seq<char>>, Seq<(Seq<char>, u32)>))>,
    strings: Seq<Seq<char>>,
    bins: Map<Seq<char>, Seq<Record>>,
    a: int,
    j: int,
)
    requires
        strings.no_duplicates(),
        0 <= a < e.len(),
        0 <= j < e[a].1.1.len(),
        e[a].1.0 is Some,
    ensures
        finish_fold(e, strings, bins) matches Ok((s2, b2)) ==> ({
            let k = e[a].1.1[j].0;
            exists|i: int|
                0 <= i < records_under(b2, k) && b2[k][i] == record_of(
                    handle_offset(s2, e[a].1.0->Some_0),
                    e[a].1.1[j].1,
                )
        }),
    decreases e.len(),
{
    if let Ok((s2, b2)) = finish_fold(e, strings, bins) {
        let (dir, (package, files)) = e[0];
        let k = e[a].1.1[j].0;
        if a > 0 {
            assert(e.drop_first()[a - 1] == e[a]);
            if files.len() == 0 {
                lemma_finish_keeps_every_package(e.drop_first(), strings, bins, a - 1, j);
            } else {
                let p = package->Some_0;
                let s1 = intern_all(strings, seq![p]);
                lemma_intern_all_grows(strings, seq![p]);
                lemma_finish_keeps_every_package(
                    e.drop_first(),
                    s1,
                    add_records(bins, files, handle_offset(s1, p)),
                    a - 1,
                    j,
                );
            }
        } else {
            let p = package->Some_0;
            let s1 = intern_all(strings, seq![p]);
            let h = handle_offset(s1, p);
            let bins1 = add_records(bins, files, h);
            lemma_intern_all_grows(strings, seq![p]);
            assert(seq![p][0] == p);
            assert(s1.contains(p));
            lemma_add_records_appends(bins, files, h, k);
            let pk = name_is(k);
            // the file is among the files named k
            let nk = named(files, k);
            assert(nk.contains(files[j])) by {
                broadcast use vstd::seq_lib::group_filter_ensures;

                assert(pk(files[j]));
                assert(files.contains(files[j]));
            }
            let jj = choose|jj: int| 0 <= jj < nk.len() && nk[jj] == files[j];
            let i = records_under(bins, k) + jj;
            assert(bins1[k][i] == record_of(h, files[j].1));
            lemma_finish_counts_records(e.drop_first(), s1, bins1, k);
            lemma_finish_fold_interns(e.drop_first(), s1, bins1);
            let ps = choose|ps: Seq<Seq<char>>| s2 == intern_all(s1, ps);
            lemma_handle_stable_all(s1, ps, p);
            assert(b2[k][i] == bins1[k][i]);
        }
    }
}

/// `o` is the handle offset of one of `strings`.
pub open spec fn is_handle_of(strings: Seq<Seq<char>>, o: u32) -> bool {
    exists|s: Seq<char>| strings.contains(s) && o == handle_offset(strings, s)
}

/// Every file of every directory of the scan refers, by its directory
/// handle, to an interned string.
pub open spec fn offsets_interned(st: ScanState) -> bool {
    forall|d: Seq<char>, i: int|
        #![trigger st.packages[d].1[i]]
        st.packages.contains_key(d) && 0 <= i < st.packages[d].1.len() ==> is_handle_of(
            st.strings,
            st.packages[d].1[i].1,
        )
}

/// Every record of `bins` names its package and directory by handles of
/// `strings`.
pub open spec fn bins_interned(bins: Map<Seq<char>, Seq<Record>>, strings: Seq<Seq<char>>) -> bool {
    forall|k: Seq<char>, i: int|
        #![trigger bins[k][i]]
        bins.contains_key(k) && 0 <= i < bins[k].len() ==> is_handle_of(
            strings,
            bins[k][i].package.0.offset,
        ) && is_handle_of(strings, bins[k][i].directory.0.offset)
}

/// Every file of every listed directory refers to a handle of `strings`.
pub open spec fn entries_interned(
    e: Seq<(Seq<char>, (Option<Seq<char>>, Seq<(Seq<char>, u32)>))>,
    strings: Seq<Seq<char>>,
) -> bool {
    forall|a: int, i: int|
        #![trigger e[a].1.1[i]]
        0 <= a < e.len() && 0 <= i < e[a].1.1.len() ==> is_handle_of(strings, e[a].1.1[i].1)
}

proof fn lemma_handle_of_grows(strings: Seq<Seq<char>>, ss: Seq<Seq<char>>, o: u32)
    requires
        strings.no_duplicates(),
        is_handle_of(strings, o),
    ensures
        is_handle_of(intern_all(strings, ss), o),
{
    let s = choose|s: Seq<char>| strings.contains(s) && o == handle_offset(strings, s);
    lemma_handle_stable_all(strings, ss, s);
    lemma_intern_all_grows(strings, ss);
    assert(intern_all(strings, ss).contains(s));
}

/// Reading an archive entry keeps every file of the scan referring to an
/// interned directory, and keeps the interned strings distinct.
pub proof fn lemma_scan_entry_keeps_offsets(
    st: ScanState,
    file_name: Option<Seq<char>>,
    parent: Option<Seq<char>>,
    contents: Seq<u8>,
    entries: Seq<Seq<char>>,
)
    requires
        st.strings.no_duplicates(),
        offsets_interned(st),
    ensures
        scan_entry_parts(st, file_name, parent, contents, entries) matches Ok(st2) ==> offsets_interned(st2)
            && st2.strings.no_duplicates(),
{
    if let (Some(name), Some(p)) = (file_name, parent) {
        let dir = path_normal(p);
        if name == desc_file_name() {
            if let Ok((n, v)) = desc_from(contents, 0, None, None) {
                let st2 = scan_entry_parts(st, file_name, parent, contents, entries)->Ok_0;
                assert forall|d: Seq<char>, i: int|
                    st2.packages.contains_key(d) && 0 <= i < st2.packages[d].1.len() implies is_handle_of(
                    st2.strings,
                    #[trigger] st2.packages[d].1[i].1,
                ) by {
                    if d == dir {
                        assert(st.packages.contains_key(dir));
                        assert(st.packages[dir].1[i] == st2.packages[d].1[i]);
                    } else {
                        assert(st2.packages[d] == st.packages[d]);
                        assert(st.packages[d].1[i] == st2.packages[d].1[i]);
                    }
                }
            }
        } else if name == files_file_name() {
            if let Ok(files) = files_of_lines(byte_lines_spec(contents), entries, st.strings) {
                let st2 = scan_entry_parts(st, file_name, parent, contents, entries)->Ok_0;
                let strings = intern_all(st.strings, dirs_of(files));
                lemma_intern_all_grows(st.strings, dirs_of(files));
                assert(st2.strings == strings);
                assert forall|d: Seq<char>, i: int|
                    st2.packages.contains_key(d) && 0 <= i < st2.packages[d].1.len() implies is_handle_of(
                    st2.strings,
                    #[trigger] st2.packages[d].1[i].1,
                ) by {
                    if d == dir {
                        assert(dirs_of(files)[i] == files[i].1);
                        assert(strings.contains(dirs_of(files)[i]));
                        assert(st2.packages[d].1[i].1 == handle_offset(strings, files[i].1));
                    } else {
                        assert(st2.packages[d] == st.packages[d]);
                        assert(is_handle_of(st.strings, st.packages[d].1[i].1));
                        lemma_handle_of_grows(st.strings, dirs_of(files), st.packages[d].1[i].1);
                    }
                }
            }
        }
    }
}

/// A directory's package description and its files list may come in
/// either order in the archive: reading both gives the same scan.
pub proof fn lemma_desc_files_commute(
    st: ScanState,
    desc_path: Seq<char>,
    desc_contents: Seq<u8>,
    files_path: Seq<char>,
    files_contents: Seq<u8>,
    entries: Seq<Seq<char>>,
)
    requires
        path_file_name(desc_path) == Some(desc_file_name()),
        path_file_name(files_path) == Some(files_file_name()),
        path_parent(desc_path) is Some && path_parent(files_path) is Some,
        path_normal(path_parent(desc_path)->Some_0) == path_normal(path_parent(files_path)->Some_0),
        scan_entry(st, desc_path, desc_contents, entries) is Ok,
        scan_entry(st, files_path, files_contents, entries) is Ok,
    ensures
        scan_entry(
            scan_entry(st, desc_path, desc_contents, entries)->Ok_0,
            files_path,
            files_contents,
            entries,
        ) == scan_entry(
            scan_entry(st, files_path, files_contents, entries)->Ok_0,
            desc_path,
            desc_contents,
            entries,
        ),
{
    let dir = path_parent(desc_path)->Some_0;
    assert(desc_file_name() != files_file_name()) by {
        assert(desc_file_name().len() != files_file_name().len());
    }
    let a = scan_entry(st, desc_path, desc_contents, entries)->Ok_0;
    let b = scan_entry(st, files_path, files_contents, entries)->Ok_0;
    let fa = scan_entry(a, files_path, files_contents, entries)->Ok_0;
    let db = scan_entry(b, desc_path, desc_contents, entries)->Ok_0;
    assert(fa.strings == db.strings);
    assert(fa.packages =~= db.packages);
}

proof fn lemma_offsets_interned_grows(st: ScanState, ss: Seq<Seq<char>>)
    requires
        st.strings.no_duplicates(),
        offsets_interned(st),
    ensures
        offsets_interned(ScanState { strings: intern_all(st.strings, ss), packages: st.packages }),
{
    assert forall|d: Seq<char>, i: int|
        st.packages.contains_key(d) && 0 <= i < st.packages[d].1.len() implies is_handle_of(
        intern_all(st.strings, ss),
        #[trigger] st.packages[d].1[i].1,
    ) by {
        lemma_handle_of_grows(st.strings, ss, st.packages[d].1[i].1);
    }
}

proof fn lemma_bins_interned_grows(
    bins: Map<Seq<char>, Seq<Record>>,
    strings: Seq<Seq<char>>,
    ss: Seq<Seq<char>>,
)
    requires
        strings.no_duplicates(),
        bins_interned(bins, strings),
    ensures
        bins_interned(bins, intern_all(strings, ss)),
{
    assert forall|k: Seq<char>, i: int|
        bins.contains_key(k) && 0 <= i < bins[k].len() implies is_handle_of(
        intern_all(strings, ss),
        #[trigger] bins[k][i].package.0.offset,
    ) && is_handle_of(intern_all(strings, ss), bins[k][i].directory.0.offset) by {
        lemma_handle_of_grows(strings, ss, bins[k][i].package.0.offset);
        lemma_handle_of_grows(strings, ss, bins[k][i].directory.0.offset);
    }
}

proof fn lemma_entries_interned_grows(
    e: Seq<(Seq<char>, (Option<Seq<char>>, Seq<(Seq<char>, u32)>))>,
    strings: Seq<Seq<char>>,
    ss: Seq<Seq<char>>,
)
    requires
        strings.no_duplicates(),
        entries_interned(e, strings),
    ensures
        entries_interned(e, intern_all(strings, ss)),
{
    assert forall|a: int, i: int| 0 <= a < e.len() && 0 <= i < e[a].1.1.len() implies is_handle_of(
        intern_all(strings, ss),
        #[trigger] e[a].1.1[i].1,
    ) by {
        lemma_handle_of_grows(strings, ss, e[a].1.1[i].1);
    }
}

proof fn lemma_add_records_interned(
    bins: Map<Seq<char>, Seq<Record>>,
    files: Seq<(Seq<char>, u32)>,
    h: u32,
    strings: Seq<Seq<char>>,
)
    requires
        bins_interned(bins, strings),
        is_handle_of(strings, h),
        forall|i: int| 0 <= i < files.len() ==> is_handle_of(strings, #[trigger] files[i].1),
    ensures
        bins_interned(add_records(bins, files, h), strings),
    decreases files.len(),
{
    if files.len() > 0 {
        let init = files.drop_last();
        assert forall|i: int| 0 <= i < init.len() implies is_handle_of(strings, #[trigger] init[i].1) by {
            assert(init[i] == files[i]);
        }
        lemma_add_records_interned(bins, init, h, strings);
        let b = add_records(bins, init, h);
        let (f, d) = files.last();
        assert(is_handle_of(strings, files[files.len() - 1].1));
        let b2 = add_records(bins, files, h);
        assert forall|k: Seq<char>, i: int| b2.contains_key(k) && 0 <= i < b2[k].len() implies is_handle_of(
            strings,
            #[trigger] b2[k][i].package.0.offset,
        ) && is_handle_of(strings, b2[k][i].directory.0.offset) by {
            if k == f {
                if b.contains_key(f) && i < b[f].len() {
                    assert(b2[k][i] == b[f][i]);
                }
            } else {
                assert(b2[k] == b[k]);
            }
        }
    }
}

proof fn lemma_finish_fold_interned(
    e: Seq<(Seq<char>, (Option<Seq<char>>, Seq<(Seq<char>, u32)>))>,
    strings: Seq<Seq<char>>,
    bins: Map<Seq<char>, Seq<Record>>,
)
    requires
        strings.no_duplicates(),
        entries_encodable(strings),
        entries_interned(e, strings),
        bins_interned(bins, strings),
    ensures
        finish_fold(e, strings, bins) matches Ok((s2, b2)) ==> bins_interned(b2, s2)
            && entries_encodable(s2),
    decreases e.len(),
{
    if e.len() > 0 {
        let (dir, (package, files)) = e[0];
        let rest = e.drop_first();
        assert(entries_interned(rest, strings)) by {
            assert forall|a: int, i: int| 0 <= a < rest.len() && 0 <= i < rest[a].1.1.len() implies is_handle_of(
                strings,
                #[trigger] rest[a].1.1[i].1,
            ) by {
                assert(rest[a] == e[a + 1]);
            }
        }
        if files.len() == 0 {
            lemma_finish_fold_interned(rest, strings, bins);
        } else if let Some(p) = package {
            if encode_utf8(p).len() <= 0xffff {
                let s2 = intern_all(strings, seq![p]);
                assert(seq![p].drop_last() =~= Seq::<Seq<char>>::empty());
                assert(intern_all(strings, Seq::<Seq<char>>::empty()) == strings);
                assert(seq![p].last() == p);
                assert(s2 == if strings.contains(p) {
                    strings
                } else {
                    strings.push(p)
                });
                lemma_intern_all_grows(strings, seq![p]);
                assert(seq![p][0] == p);
                assert(s2.contains(p));
                let h = handle_offset(s2, p);
                assert(is_handle_of(s2, h));
                assert(entries_encodable(s2)) by {
                    assert forall|i: int| 0 <= i < s2.len() implies #[trigger] encode_utf8(s2[i]).len()
                        <= 0xffff by {
                        if i < strings.len() {
                            assert(s2[i] == strings[i]);
                        }
                    }
                }
                assert forall|i: int| 0 <= i < files.len() implies is_handle_of(s2, #[trigger] files[i].1) by {
                    assert(e[0].1.1[i] == files[i]);
                    lemma_handle_of_grows(strings, seq![p], files[i].1);
                }
                lemma_bins_interned_grows(bins, strings, seq![p]);
                lemma_add_records_interned(bins, files, h, s2);
                lemma_entries_interned_grows(rest, strings, seq![p]);
                lemma_finish_fold_interned(rest, s2, add_records(bins, files, h));
            }
        }
    }
}

proof fn lemma_interned_readable(bins: Map<Seq<char>, Seq<Record>>, strings: Seq<Seq<char>>)
    requires
        bins_interned(bins, strings),
        entries_encodable(strings),
        encode_entries(strings).len() <= u32::MAX,
    ensures
        records_readable(encode_entries(strings), bins),
{
    assert forall|k: Seq<char>, i: int| bins.contains_key(k) && 0 <= i < bins[k].len() implies crate::types::record_readable(
        encode_entries(strings),
        #[trigger] bins[k][i],
    ) by {
        let r = bins[k][i];
        let s = choose|s: Seq<char>| strings.contains(s) && r.package.0.offset == handle_offset(strings, s);
        lemma_get_after_intern(strings, s);
        let t = choose|t: Seq<char>| strings.contains(t) && r.directory.0.offset == handle_offset(strings, t);
        lemma_get_after_intern(strings, t);
    }
}

/// Finishing a scan builds an index whose every record refers to strings
/// that its interner holds, so that it reads back without error. It holds
/// while every offset of the interner fits in a handle.
pub proof fn lemma_finished_scan_readable(
    st: ScanState,
    e: Seq<(Seq<char>, (Option<Seq<char>>, Seq<(Seq<char>, u32)>))>,
    strings: Seq<Seq<char>>,
    bins: Map<Seq<char>, Seq<Record>>,
)
    requires
        st.strings.no_duplicates(),
        entries_encodable(st.strings),
        offsets_interned(st),
        is_map_enumeration(e, st.packages),
        finish_fold(e, st.strings, Map::empty()) == Ok::<
            (Seq<Seq<char>>, Map<Seq<char>, Seq<Record>>),
            FinishFailure,
        >((strings, bins)),
        encode_entries(strings).len() <= u32::MAX,
    ensures
        records_readable(encode_entries(strings), bins),
{
    assert forall|a: int, i: int| 0 <= a < e.len() && 0 <= i < e[a].1.1.len() implies is_handle_of(
        st.strings,
        #[trigger] e[a].1.1[i].1,
    ) by {
        let d = e[a].0;
        assert(st.packages.contains_key(d) && st.packages[d] == e[a].1);
        assert(st.packages[d].1[i] == e[a].1.1[i]);
    }
    lemma_finish_fold_interned(e, st.strings, Map::empty());
    lemma_interned_readable(bins, strings);
}

/// The reading of one files database into the index: the strings interned
/// so far and the work of each directory.
pub struct ArchiveScan {
    interner: StringInternerBuilder,
    packages: PackageMap,
}

impl ArchiveScan {
    /// The state of the scan.
    pub closed spec fn state(&self) -> ScanState {
        ScanState {
            strings: self.interner.strings(),
            packages: package_map_contents(self.packages),
        }
    }

    /// The scan's interner is well formed and every file it has read
    /// refers to an interned directory.
    pub closed spec fn wf(&self) -> bool {
        &&& self.interner.wf()
        &&& offsets_interned(self.state())
    }

    /// A well formed scan holds distinct strings, each short enough for the
    /// interner, and every file it has read refers to an interned directory.
    pub proof fn lemma_wf(&self)
        requires
            self.wf(),
        ensures
            self.state().strings.no_duplicates(),
            entries_encodable(self.state().strings),
            offsets_interned(self.state()),
    {
        self.interner.lemma_wf();
    }

    /// A scan that has read nothing.
    pub fn new() -> (r: ArchiveScan)
        ensures
            r.wf(),
            r.state().strings == Seq::<Seq<char>>::empty(),
            r.state().packages.dom().is_empty(),
    {
        ArchiveScan { interner: StringInternerBuilder::new(), packages: PackageMap::new() }
    }

    /// Reads the archive entry at `path` with `contents`: a package
    /// description gives the directory's package, a files list its files.
    pub fn add_entry(&mut self, path: &str, contents: &[u8], filters: &PathFilters) -> (r: Result<
        (),
        UpdateError,
    >)
        requires
            old(self).wf(),
        ensures
            final(self).wf(),
            match scan_entry(
                old(self).state(),
                path@,
                contents@,
                filters.entries(),
            ) {
                Ok(st) => r is Ok && final(self).state() == st,
                Err(e) => r matches Err(e2) && e2 == e,
            },
    {
        let file_name = file_name_of(path);
        let dir_name = parent_of(path);
        proof {
            assert(str_opt_view(file_name) == path_file_name(path@));
            assert(str_opt_view(dir_name) == path_parent(path@));
        }
        self.add_entry_parts(file_name, dir_name, contents, filters)
    }

    /// Reads an archive entry whose path has the file name `file_name` and
    /// the parent directory `dir`, with `contents`.
    pub fn add_entry_parts(
        &mut self,
        file_name: Option<&str>,
        dir: Option<&str>,
        contents: &[u8],
        filters: &PathFilters,
    ) -> (r: Result<(), UpdateError>)
        requires
            old(self).wf(),
        ensures
            final(self).wf(),
            match scan_entry_parts(
                old(self).state(),
                str_opt_view(file_name),
                str_opt_view(dir),
                contents@,
                filters.entries(),
            ) {
                Ok(st) => r is Ok && final(self).state() == st,
                Err(e) => r matches Err(e2) && e2 == e,
            },
    {
        proof {
            self.interner.lemma_wf();
            lemma_scan_entry_keeps_offsets(
                self.state(),
                str_opt_view(file_name),
                str_opt_view(dir),
                contents@,
                filters.entries(),
            );
        }
        let file_name = match file_name {
            Some(f) => f,
            None => {
                return Err(UpdateError::NoFileName);
            },
        };
        let dir_name = match dir {
            Some(d) => d,
            None => {
                return Err(UpdateError::NoParent);
            },
        };
        // Directories are told apart by their components, as paths compare
        let key = normal_path(dir_name);
        let name_chars = chars_of(file_name);
        let desc: [char; 4] = ['d', 'e', 's', 'c'];
        let files: [char; 5] = ['f', 'i', 'l', 'e', 's'];
        assert(desc@ =~= desc_file_name());
        assert(files@ =~= files_file_name());
        if chars_eq(name_chars.as_slice(), desc.as_slice()) {
            // Extract package name and version
            let pkg = match Package::from_desc(contents) {
                Ok(p) => p,
                Err(e) => {
                    return Err(UpdateError::Desc(e));
                },
            };
            let mut name = chars_of(pkg.name.as_str());
            name.push(' ');
            let mut version = chars_of(pkg.version.as_str());
            name.append(&mut version);
            assert(name@ =~= pkg.name@ + seq![' '] + pkg.version@);
            let pkg_name = string_from_chars(name);
            let work = match self.packages.get(key.as_str()) {
                Some(w) => RecordWorkInProgress { package: Some(pkg_name), files: w.files },
                None => RecordWorkInProgress { package: Some(pkg_name), files: Vec::new() },
            };
            proof {
                assert(files_view(Seq::<(String, DirectoryRef)>::empty()) =~= Seq::<(Seq<char>, u32)>::empty());
            }
            self.packages.insert(key, work);
            Ok(())
        } else if chars_eq(name_chars.as_slice(), files.as_slice()) {
            // Extract file list
            let lines = byte_lines(contents);
            let ghost before = self.state();
            let contents = match collect_files(&mut self.interner, &lines, filters) {
                Ok(c) => c,
                Err(e) => {
                    proof {
                        let ss = choose|ss: Seq<Seq<char>>| self.interner.strings() == intern_all(
                            before.strings,
                            ss,
                        );
                        lemma_offsets_interned_grows(before, ss);
                        assert(self.state() == ScanState {
                            strings: intern_all(before.strings, ss),
                            packages: before.packages,
                        });
                    }
                    return Err(e);
                },
            };
            let package = match self.packages.get(key.as_str()) {
                Some(w) => w.package,
                None => None,
            };
            self.packages.insert(key, RecordWorkInProgress { package, files: contents });
            Ok(())
        } else {
            // Other files are ignored
            Ok(())
        }
    }

    /// Builds the map from binary name to records, going through the
    /// directories in the order of the package map.
    #[verifier::loop_isolation(false)]
    pub fn finish(self) -> (r: Result<(StringInterner, BinariesData), UpdateError>)
        requires
            self.wf(),
        ensures
            exists|e: Seq<(Seq<char>, (Option<Seq<char>>, Seq<(Seq<char>, u32)>))>|
                {
                    &&& is_map_enumeration(e, self.state().packages)
                    &&& match finish_fold(e, self.state().strings, Map::empty()) {
                        Ok((strings, bins)) => r matches Ok((i, b)) && i@ == encode_entries(strings)
                            && binaries_contents(b) == bins,
                        Err(FinishFailure::NoPackage(d)) => r matches Err(UpdateError::NoPackage(x))
                            && x@ == d,
                        Err(FinishFailure::TooLong) => r matches Err(UpdateError::TooLong),
                        Err(FinishFailure::TooLarge) => r matches Err(UpdateError::TooLarge),
                    }
                },
            r matches Ok((i, b)) ==> i@.len() <= u32::MAX && records_readable(
                i@,
                binaries_contents(b),
            ),
    {
        proof {
            self.lemma_wf();
        }
        let ghost st = self.state();
        let ArchiveScan { mut interner, packages } = self;
        let ghost s0 = interner.strings();
        let ghost pm = package_map_contents(packages);
        let entries = packages.into_entries();
        let ghost ev = work_entries_view(entries@);
        assert(s0 == st.strings && pm == st.packages);
        let mut binaries = BinariesData::new();
        let ghost empty = binaries_contents(binaries);
        proof {
            assert(empty =~= Map::<Seq<char>, Seq<Record>>::empty());
            assert(ev.skip(0) =~= ev);
        }
        let mut i: usize = 0;
        while i < entries.len()
            invariant
                i <= entries@.len(),
                ev == work_entries_view(entries@),
                is_map_enumeration(ev, pm),
                s0 == st.strings,
                pm == st.packages,
                interner.wf(),
                finish_fold(ev, s0, Map::empty()) == finish_fold(
                    ev.skip(i as int),
                    interner.strings(),
                    binaries_contents(binaries),
                ),
            decreases entries.len() - i,
        {
            let ghost cur = ev.skip(i as int);
            proof {
                assert(cur[0] == ev[i as int]);
                assert(cur.drop_first() =~= ev.skip(i + 1));
            }
            let dir = &entries[i].0;
            let work = &entries[i].1;
            if work.files.len() == 0 {
                i = i + 1;
                continue;
            }
            let package = match &work.package {
                Some(p) => p,
                None => {
                    let d = dir.clone();
                    proof {
                        assert(d@ == dir@);
                        assert(finish_fold(ev, s0, Map::empty()) == Err::<
                            (Seq<Seq<char>>, Map<Seq<char>, Seq<Record>>),
                            FinishFailure,
                        >(FinishFailure::NoPackage(dir@)));
                        assert(is_map_enumeration(ev, pm));
                    }
                    let r: Result<(StringInterner, BinariesData), UpdateError> = Err(UpdateError::NoPackage(d));
                    proof {
                        assert(r matches Err(UpdateError::NoPackage(x)) && x@ == dir@);
                        assert(match finish_fold(ev, st.strings, Map::empty()) {
                            Ok((strings, bins)) => r matches Ok((i, b)) && i@ == encode_entries(strings)
                                && binaries_contents(b) == bins,
                            Err(FinishFailure::NoPackage(dd)) => r matches Err(UpdateError::NoPackage(x))
                                && x@ == dd,
                            Err(FinishFailure::TooLong) => r matches Err(UpdateError::TooLong),
                        Err(FinishFailure::TooLarge) => r matches Err(UpdateError::TooLarge),
                        });
                    }
                    return r;
                },
            };
            if package.as_str().as_bytes().len() > 0xffff {
                proof {
                    assert(finish_fold(ev, s0, Map::empty()) == Err::<
                        (Seq<Seq<char>>, Map<Seq<char>, Seq<Record>>),
                        FinishFailure,
                    >(FinishFailure::TooLong));
                    assert(is_map_enumeration(ev, pm));
                }
                return Err(UpdateError::TooLong);
            }
            if !interner.fits(package.as_str()) {
                proof {
                    assert(finish_fold(ev, s0, Map::empty()) == Err::<
                        (Seq<Seq<char>>, Map<Seq<char>, Seq<Record>>),
                        FinishFailure,
                    >(FinishFailure::TooLarge));
                    assert(is_map_enumeration(ev, pm));
                }
                return Err(UpdateError::TooLarge);
            }
            // The package ref is made only here, so that packages without
            // files are not interned
            let ghost before = interner.strings();
            let h = interner.intern(package.as_str());
            proof {
                assert(seq![package@].drop_last() =~= Seq::<Seq<char>>::empty());
                assert(intern_all(before, Seq::<Seq<char>>::empty()) == before);
                assert(seq![package@].last() == package@);
                assert(interner.strings() == intern_all(before, seq![package@]));
            }
            let ghost b0 = binaries_contents(binaries);
            let mut k: usize = 0;
            while k < work.files.len()
                invariant
                    k <= work.files@.len(),
                    binaries_contents(binaries) == add_records(
                        b0,
                        files_view(work.files@).take(k as int),
                        h.offset,
                    ),
                decreases work.files.len() - k,
            {
                let file = &work.files[k].0;
                let record = Record { package: PackageRef(h), directory: work.files[k].1 };
                let mut records = match binaries.get(file.as_str()) {
                    Some(v) => v,
                    None => Vec::new(),
                };
                records.push(record);
                proof {
                    let fv = files_view(work.files@);
                    assert(fv.take(k + 1).drop_last() =~= fv.take(k as int));
                    assert(fv.take(k + 1).last() == (file@, work.files@[k as int].1.0.offset));
                }
                binaries.insert(file.clone(), records);
                k = k + 1;
            }
            proof {
                assert(files_view(work.files@).take(k as int) =~= files_view(work.files@));
            }
            i = i + 1;
        }
        proof {
            assert(ev.skip(i as int) =~= Seq::<(Seq<char>, (Option<Seq<char>>, Seq<(Seq<char>, u32)>))>::empty());
            assert(is_map_enumeration(ev, pm));
        }
        let ghost final_strings = interner.strings();
        proof {
            interner.lemma_wf();
        }
        let readonly = interner.into_readonly();
        proof {
            assert(finish_fold(ev, s0, Map::empty()) == Ok::<
                (Seq<Seq<char>>, Map<Seq<char>, Seq<Record>>),
                FinishFailure,
            >((final_strings, binaries_contents(binaries))));
            lemma_finished_scan_readable(st, ev, final_strings, binaries_contents(binaries));
        }
        Ok((readonly, binaries))
    }
}

/// Builds the root object of a cache file from a finished scan of the
/// files database at `archive_path`: the repository is named after the
/// file's stem.
pub fn process_files_archive(scan: ArchiveScan, archive_path: &str) -> (r: Result<
    DataRoot,
    UpdateError,
>)
    requires
        scan.wf(),
    ensures
        exists|e: Seq<(Seq<char>, (Option<Seq<char>>, Seq<(Seq<char>, u32)>))>|
            {
                &&& is_map_enumeration(e, scan.state().packages)
                &&& match finish_fold(e, scan.state().strings, Map::empty()) {
                    Ok((strings, bins)) => match path_file_stem(archive_path@) {
                        Some(stem) => r matches Ok(d) && d.repository@ == stem && d.interner@
                            == encode_entries(strings) && binaries_contents(d.binaries) == bins,
                        None => r matches Err(UpdateError::NoFileStem),
                    },
                    Err(FinishFailure::NoPackage(d)) => r matches Err(UpdateError::NoPackage(x))
                        && x@ == d,
                    Err(FinishFailure::TooLong) => r matches Err(UpdateError::TooLong),
                        Err(FinishFailure::TooLarge) => r matches Err(UpdateError::TooLarge),
                }
            },
        r matches Ok(d) ==> d.interner@.len() <= u32::MAX && records_readable(
            d.interner@,
            binaries_contents(d.binaries),
        ),
{
    let (interner, binaries) = scan.finish()?;
    let repository = match file_stem_of(archive_path) {
        Some(stem) => stem.to_owned(),
        None => {
            return Err(UpdateError::NoFileStem);
        },
    };
    Ok(DataRoot { repository, interner, binaries })
}

/// What `camino::Utf8Path::extension` gives for a path.
pub uninterp spec fn path_extension(path: Seq<char>) -> Option<Seq<char>>;

/// What `camino::Utf8Path::join` gives for a base path and a further part.
pub uninterp spec fn path_join(base: Seq<char>, part: Seq<char>) -> Seq<char>;

/// Calls `camino::Utf8Path::extension`: the part of the file name after
/// its last dot, as Unix path syntax reads it.
#[verifier::external_body]
fn extension_of(path: &str) -> (r: Option<&str>)
    ensures
        r matches Some(e) ==> path_extension(path@) == Some(e@),
        r is None ==> path_extension(path@) is None,
{
    camino::Utf8Path::new(path).extension()
}

/// Calls `camino::Utf8Path::join`, which appends `part` to `base` as a
/// further path component.
#[verifier::external_body]
fn join_path(base: &str, part: &str) -> (r: String)
    ensures
        r@ == path_join(base@, part@),
{
    camino::Utf8Path::new(base).join(part).into_string()
}

/// The characters of `sync`.
pub open spec fn sync_name() -> Seq<char> {
    seq!['s', 'y', 'n', 'c']
}

/// What `camino::Utf8Path::with_extension` makes of a path and an
/// extension.
pub uninterp spec fn path_with_extension(path: Seq<char>, ext: Seq<char>) -> Seq<char>;

/// Calls `camino::Utf8Path::with_extension`, which replaces the extension
/// of the path's file name, or adds one. It goes through std's
/// `Path::with_extension`, which may panic on an extension that holds a path
/// separator, so such extensions are left out.
#[verifier::external_body]
fn with_extension_of(path: &str, ext: &str) -> (r: String)
    requires
        !ext@.contains('/'),
        !ext@.contains('\\'),
    ensures
        r@ == path_with_extension(path@, ext@),
{
    camino::Utf8Path::new(path).with_extension(ext).into_string()
}

/// The characters of `binaries`.
pub open spec fn binaries_ext() -> Seq<char> {
    seq!['b', 'i', 'n', 'a', 'r', 'i', 'e', 's']
}

/// The characters of `binaries_new`.
pub open spec fn binaries_new_ext() -> Seq<char> {
    seq!['b', 'i', 'n', 'a', 'r', 'i', 'e', 's', '_', 'n', 'e', 'w']
}

/// The cache file for the files database at `files_db`, in `cache_dir`,
/// and the temporary file it is written to first; `None` where the
/// database's path has no file stem.
pub fn cache_paths(cache_dir: &str, files_db: &str) -> (r: Option<(String, String)>)
    ensures
        match path_file_stem(files_db@) {
            None => r is None,
            Some(stem) => r matches Some((c, t)) && c@ == path_with_extension(
                path_join(cache_dir@, stem),
                binaries_ext(),
            ) && t@ == path_with_extension(c@, binaries_new_ext()),
        },
{
    let stem = match file_stem_of(files_db) {
        Some(s) => s,
        None => {
            return None;
        },
    };
    let joined = join_path(cache_dir, stem);
    let ext = string_from_chars(vec!['b', 'i', 'n', 'a', 'r', 'i', 'e', 's']);
    let tmp_ext = string_from_chars(
        vec!['b', 'i', 'n', 'a', 'r', 'i', 'e', 's', '_', 'n', 'e', 'w'],
    );
    assert(ext@ =~= binaries_ext());
    assert(tmp_ext@ =~= binaries_new_ext());
    assert(!ext@.contains('/') && !ext@.contains('\\')) by {
        assert forall|i: int| 0 <= i < ext@.len() implies ext@[i] != '/' && ext@[i] != '\\' by {
            assert(ext@[i] == binaries_ext()[i]);
        }
    }
    assert(!tmp_ext@.contains('/') && !tmp_ext@.contains('\\')) by {
        assert forall|i: int| 0 <= i < tmp_ext@.len() implies tmp_ext@[i] != '/' && tmp_ext@[i]
            != '\\' by {
            assert(tmp_ext@[i] == binaries_new_ext()[i]);
        }
    }
    let cache = with_extension_of(joined.as_str(), ext.as_str());
    let tmp = with_extension_of(cache.as_str(), tmp_ext.as_str());
    Some((cache, tmp))
}

/// The directory where pacman keeps its sync databases.
pub fn sync_dir(db_path: &str) -> (r: String)
    ensures
        r@ == path_join(db_path@, sync_name()),
{
    let sync = string_from_chars(vec!['s', 'y', 'n', 'c']);
    assert(sync@ =~= sync_name());
    join_path(db_path, sync.as_str())
}

/// The paths among `paths` whose extension is `ext`, in order.
pub open spec fn paths_with_extension(paths: Seq<Seq<char>>, ext: Seq<char>) -> Seq<Seq<char>> {
    paths.filter(|p: Seq<char>| path_extension(p) == Some(ext))
}

/// The paths among `paths` whose extension is `files`, in order.
pub open spec fn files_databases(paths: Seq<Seq<char>>) -> Seq<Seq<char>> {
    paths_with_extension(paths, files_file_name())
}

/// Views of a list of strings.
pub open spec fn strings_view(v: Seq<String>) -> Seq<Seq<char>> {
    v.map_values(|s: String| s@)
}

/// Whether a path whose extension is `found` has the extension `ext`.
pub fn has_extension(found: Option<&str>, ext: &str) -> (r: bool)
    ensures
        r == (str_opt_view(found) == Some(ext@)),
{
    match found {
        Some(e) => chars_eq(chars_of(e).as_slice(), chars_of(ext).as_slice()),
        None => false,
    }
}

/// Keeps the paths whose extension is `ext`, in order.
pub fn select_by_extension(paths: Vec<String>, ext: &str) -> (r: Vec<String>)
    ensures
        strings_view(r@) == paths_with_extension(strings_view(paths@), ext@),
{
    let mut out: Vec<String> = Vec::new();
    let ghost pv = strings_view(paths@);
    let ghost pred = |p: Seq<char>| path_extension(p) == Some(ext@);
    let mut i: usize = 0;
    assert(pv.take(0).filter(pred) =~= Seq::<Seq<char>>::empty()) by {
        pv.take(0).lemma_filter_len(pred);
    }
    while i < paths.len()
        invariant
            i <= paths@.len(),
            pv == strings_view(paths@),
            pred == (|p: Seq<char>| path_extension(p) == Some(ext@)),
            strings_view(out@) == pv.take(i as int).filter(pred),
        decreases paths.len() - i,
    {
        let path = paths[i].as_str();
        proof {
            assert(pv.take(i + 1) =~= pv.take(i as int).push(pv[i as int]));
            pv.take(i as int).lemma_filter_push(pv[i as int], pred);
        }
        let keep = has_extension(extension_of(path), ext);
        if keep {
            let ghost before = out@;
            out.push(paths[i].clone());
            assert(strings_view(out@) =~= strings_view(before).push(pv[i as int]));
        }
        i = i + 1;
    }
    assert(pv.take(i as int) =~= pv);
    out
}

/// Keeps the files databases (`*.files`) among the entries of the sync
/// directory.
pub fn select_files_databases(paths: Vec<String>) -> (r: Vec<String>)
    ensures
        strings_view(r@) == files_databases(strings_view(paths@)),
{
    let files = string_from_chars(vec!['f', 'i', 'l', 'e', 's']);
    assert(files@ =~= files_file_name());
    select_by_extension(paths, files.as_str())
}

/// Keeps the cache files (`*.binaries`) among the entries of the cache
/// directory; files still being written (`*.binaries_new`) are left out.
pub fn select_cache_files(paths: Vec<String>) -> (r: Vec<String>)
    ensures
        strings_view(r@) == paths_with_extension(strings_view(paths@), binaries_ext()),
{
    let ext = string_from_chars(vec!['b', 'i', 'n', 'a', 'r', 'i', 'e', 's']);
    assert(ext@ =~= binaries_ext());
    select_by_extension(paths, ext.as_str())
}

/// Whether two character strings are equal.
fn chars_eq(a: &[char], b: &[char]) -> (r: bool)
    ensures
        r == (a@ == b@),
{
    if a.len() != b.len() {
        return false;
    }
    let mut i: usize = 0;
    while i < a.len()
        invariant
            i <= a@.len(),
            a@.len() == b@.len(),
            forall|k: int| 0 <= k < i ==> a@[k] == b@[k],
        decreases a.len() - i,
    {
        if a[i] != b[i] {
            return false;
        }
        i = i + 1;
    }
    assert(a@ =~= b@);
    true
}

} // verus!
