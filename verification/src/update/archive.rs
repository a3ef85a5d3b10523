//! Reading a files database: a tar archive, compressed with gzip, zstd or
//! xz, of `desc` and `files` entries, one directory per package.
use crate::interner::utf8_str;
use crate::update::{
    desc_file_name, files_file_name, lemma_desc_files_commute, path_file_name, path_normal,
    path_parent, scan_entry, starts_with, ArchiveScan, PathFilters, ScanState, UpdateError,
};
use std::io::Read;
use vstd::prelude::*;
use vstd::utf8::*;

verus! {

/// What `flate2::bufread::GzDecoder` decompresses from the bytes: `None`
/// where they do not start with a gzip header or the stream breaks off.
pub uninterp spec fn gunzip(data: Seq<u8>) -> Option<Seq<u8>>;

/// What `tar::Archive::entries` reads from the bytes: the path and contents
/// of each entry up to the first error, and whether an error stopped it.
pub uninterp spec fn tar_entries(data: Seq<u8>) -> (Seq<(Seq<u8>, Seq<u8>)>, bool);

/// What `zstd::stream::decode_all` decompresses from the bytes: `None`
/// where they are not a complete zstd stream.
pub uninterp spec fn unzstd(data: Seq<u8>) -> Option<Seq<u8>>;

/// What `xz2::read::XzDecoder` decompresses from the bytes: `None` where
/// they are not a complete xz stream.
pub uninterp spec fn unxz(data: Seq<u8>) -> Option<Seq<u8>>;

/// The bytes that start a zstd frame.
pub open spec fn zstd_magic() -> Seq<u8> {
    seq![0x28u8, 0xb5u8, 0x2fu8, 0xfdu8]
}

/// The bytes that start an xz stream.
pub open spec fn xz_magic() -> Seq<u8> {
    seq![0xfdu8, 0x37u8, 0x7au8, 0x58u8, 0x5au8, 0x00u8]
}

/// What a files database decompresses to: zstd and xz are told by their
/// magic bytes, anything else is read as gzip.
pub open spec fn decompress(data: Seq<u8>) -> Option<Seq<u8>> {
    if starts_with(data, zstd_magic()) {
        unzstd(data)
    } else if starts_with(data, xz_magic()) {
        unxz(data)
    } else {
        gunzip(data)
    }
}

/// Calls `zstd::stream::decode_all`, which decompresses every frame of the
/// stream.
#[verifier::external_body]
fn zstd_decode(data: &[u8]) -> (r: Option<Vec<u8>>)
    ensures
        r matches Some(v) ==> unzstd(data@) == Some(v@),
        r is None ==> unzstd(data@) is None,
{
    zstd::stream::decode_all(data).ok()
}

/// Calls `xz2::read::XzDecoder` and reads the whole decompressed stream.
#[verifier::external_body]
fn xz_decode(data: &[u8]) -> (r: Option<Vec<u8>>)
    ensures
        r matches Some(v) ==> unxz(data@) == Some(v@),
        r is None ==> unxz(data@) is None,
{
    let mut out = Vec::new();
    match xz2::read::XzDecoder::new(data).read_to_end(&mut out) {
        Ok(_) => Some(out),
        Err(_) => None,
    }
}

/// Whether `data` starts with `prefix`.
fn has_prefix(data: &[u8], prefix: &[u8]) -> (r: bool)
    ensures
        r == starts_with(data@, prefix@),
{
    if data.len() < prefix.len() {
        return false;
    }
    let mut i: usize = 0;
    while i < prefix.len()
        invariant
            i <= prefix@.len() <= data@.len(),
            forall|k: int| 0 <= k < i ==> data@[k] == prefix@[k],
        decreases prefix.len() - i,
    {
        if data[i] != prefix[i] {
            assert(data@.subrange(0, prefix@.len() as int)[i as int] != prefix@[i as int]);
            return false;
        }
        i = i + 1;
    }
    assert(data@.subrange(0, prefix@.len() as int) =~= prefix@);
    true
}

/// Decompresses a files database, compressed with gzip, zstd or xz.
pub fn decompress_database(data: &[u8]) -> (r: Option<Vec<u8>>)
    ensures
        r matches Some(v) ==> decompress(data@) == Some(v@),
        r is None ==> decompress(data@) is None,
{
    let zstd: [u8; 4] = [0x28, 0xb5, 0x2f, 0xfd];
    let xz: [u8; 6] = [0xfd, 0x37, 0x7a, 0x58, 0x5a, 0x00];
    assert(zstd@ =~= zstd_magic());
    assert(xz@ =~= xz_magic());
    if has_prefix(data, zstd.as_slice()) {
        zstd_decode(data)
    } else if has_prefix(data, xz.as_slice()) {
        xz_decode(data)
    } else {
        gz_decode(data)
    }
}

/// Views of a list of (path, contents) pairs.
pub open spec fn pairs_view(v: Seq<(Vec<u8>, Vec<u8>)>) -> Seq<(Seq<u8>, Seq<u8>)> {
    v.map_values(|e: (Vec<u8>, Vec<u8>)| (e.0@, e.1@))
}

/// Calls `flate2::bufread::GzDecoder`: checks the gzip header, then reads
/// the whole decompressed stream.
#[verifier::external_body]
fn gz_decode(data: &[u8]) -> (r: Option<Vec<u8>>)
    ensures
        r matches Some(v) ==> gunzip(data@) == Some(v@),
        r is None ==> gunzip(data@) is None,
{
    let mut decoder = flate2::bufread::GzDecoder::new(data);
    if decoder.header().is_none() {
        return None;
    }
    let mut out = Vec::new();
    match decoder.read_to_end(&mut out) {
        Ok(_) => Some(out),
        Err(_) => None,
    }
}

/// Calls `tar::Archive::entries`, and for each entry `Entry::path_bytes`
/// and `Read::read_to_end`, until the archive ends or an error stops it.
#[verifier::external_body]
fn tar_read(data: &[u8]) -> (r: (Vec<(Vec<u8>, Vec<u8>)>, bool))
    ensures
        (pairs_view(r.0@), r.1) == tar_entries(data@),
{
    let mut out = Vec::new();
    let mut archive = tar::Archive::new(data);
    let Ok(entries) = archive.entries() else { return (out, true) };
    for entry in entries {
        let Ok(mut entry) = entry else { return (out, true) };
        let path = entry.path_bytes().into_owned();
        let mut contents = Vec::new();
        if entry.read_to_end(&mut contents).is_err() {
            return (out, true);
        }
        out.push((path, contents));
    }
    (out, false)
}

/// The scan of nothing.
pub open spec fn empty_scan() -> ScanState {
    ScanState { strings: Seq::empty(), packages: Map::empty() }
}

/// The state after reading one archive entry: its path must be UTF-8.
pub open spec fn scan_step(
    st: ScanState,
    entry: (Seq<u8>, Seq<u8>),
    dirs: Seq<Seq<char>>,
) -> Result<ScanState, UpdateError> {
    if !valid_utf8(entry.0) {
        Err(UpdateError::NonUtf8Path)
    } else {
        scan_entry(st, decode_utf8(entry.0), entry.1, dirs)
    }
}

/// The state after reading `entries` in order from `st`, or the first error.
pub open spec fn scan_fold(
    st: ScanState,
    entries: Seq<(Seq<u8>, Seq<u8>)>,
    dirs: Seq<Seq<char>>,
) -> Result<ScanState, UpdateError>
    decreases entries.len(),
{
    if entries.len() == 0 {
        Ok(st)
    } else {
        match scan_fold(st, entries.drop_last(), dirs) {
            Err(e) => Err(e),
            Ok(s) => scan_step(s, entries.last(), dirs),
        }
    }
}

/// The scan of an archive's entries: the fold over them, and an error where
/// the archive broke off after them.
pub open spec fn scan_result(
    entries: Seq<(Seq<u8>, Seq<u8>)>,
    failed: bool,
    dirs: Seq<Seq<char>>,
) -> Result<ScanState, UpdateError> {
    match scan_fold(empty_scan(), entries, dirs) {
        Err(e) => Err(e),
        Ok(st) => if failed {
            Err(UpdateError::Tar)
        } else {
            Ok(st)
        },
    }
}

/// The scan of the files database whose compressed bytes are `data`.
pub open spec fn archive_scan_result(data: Seq<u8>, dirs: Seq<Seq<char>>) -> Result<
    ScanState,
    UpdateError,
> {
    match decompress(data) {
        None => Err(UpdateError::NotCompressed),
        Some(t) => scan_result(tar_entries(t).0, tar_entries(t).1, dirs),
    }
}

/// Reads the entries of an archive in order into a new scan; `failed` says
/// that the archive broke off after them.
pub fn scan_entries(entries: &Vec<(Vec<u8>, Vec<u8>)>, failed: bool, filters: &PathFilters) -> (r:
    Result<ArchiveScan, UpdateError>)
    ensures
        match scan_result(
            pairs_view(entries@),
            failed,
            filters.entries(),
        ) {
            Ok(st) => r matches Ok(s) && s.wf() && s.state() == st,
            Err(e) => r matches Err(e2) && e2 == e,
        },
{
    let ghost pv = pairs_view(entries@);
    let ghost pre = filters.entries();
    let mut scan = ArchiveScan::new();
    proof {
        assert(scan.state().strings =~= empty_scan().strings);
        assert(scan.state().packages =~= empty_scan().packages);
        assert(pv.take(0) =~= Seq::<(Seq<u8>, Seq<u8>)>::empty());
    }
    let mut i: usize = 0;
    while i < entries.len()
        invariant
            i <= entries@.len(),
            pv == pairs_view(entries@),
            pre == filters.entries(),
            scan.wf(),
            scan_fold(empty_scan(), pv.take(i as int), pre) == Ok::<ScanState, UpdateError>(
                scan.state(),
            ),
        decreases entries.len() - i,
    {
        proof {
            assert(pv.take(i + 1).drop_last() =~= pv.take(i as int));
            assert(pv.take(i + 1).last() == pv[i as int]);
        }
        let path = match utf8_str(entries[i].0.as_slice()) {
            Some(p) => p,
            None => {
                proof {
                    lemma_scan_fold_err_stays(pv, i as int + 1, pre);
                }
                return Err(UpdateError::NonUtf8Path);
            },
        };
        match scan.add_entry(path, entries[i].1.as_slice(), filters) {
            Ok(()) => {},
            Err(e) => {
                proof {
                    lemma_scan_fold_err_stays(pv, i as int + 1, pre);
                }
                return Err(e);
            },
        }
        i = i + 1;
    }
    assert(pv.take(i as int) =~= pv);
    if failed {
        return Err(UpdateError::Tar);
    }
    Ok(scan)
}

/// Once the fold over a prefix fails, the fold over the whole fails the same.
proof fn lemma_scan_fold_err_stays(
    entries: Seq<(Seq<u8>, Seq<u8>)>,
    i: int,
    dirs: Seq<Seq<char>>,
)
    requires
        0 <= i <= entries.len(),
        scan_fold(empty_scan(), entries.take(i), dirs) is Err,
    ensures
        scan_fold(empty_scan(), entries, dirs) == scan_fold(
            empty_scan(),
            entries.take(i),
            dirs,
        ),
    decreases entries.len() - i,
{
    if i < entries.len() {
        assert(entries.take(i + 1).drop_last() =~= entries.take(i));
        lemma_scan_fold_err_stays(entries, i + 1, dirs);
    } else {
        assert(entries.take(i) =~= entries);
    }
}

/// Reads the files database whose compressed bytes are `data` into a scan.
pub fn scan_archive(data: &[u8], filters: &PathFilters) -> (r: Result<ArchiveScan, UpdateError>)
    ensures
        match archive_scan_result(data@, filters.entries()) {
            Ok(st) => r matches Ok(s) && s.wf() && s.state() == st,
            Err(e) => r matches Err(e2) && e2 == e,
        },
{
    let text = match decompress_database(data) {
        Some(t) => t,
        None => {
            return Err(UpdateError::NotCompressed);
        },
    };
    let (entries, failed) = tar_read(text.as_slice());
    scan_entries(&entries, failed, filters)
}

/// Both paths have parent directories, and these compare equal as paths.
pub open spec fn same_directory(a: Seq<char>, b: Seq<char>) -> bool {
    &&& path_parent(a) is Some
    &&& path_parent(b) is Some
    &&& path_normal(path_parent(a)->Some_0) == path_normal(path_parent(b)->Some_0)
}

/// Reading the entries `a` and then `b` is reading `a`, then going on
/// with `b` from where it left off.
proof fn lemma_scan_fold_append(
    st: ScanState,
    a: Seq<(Seq<u8>, Seq<u8>)>,
    b: Seq<(Seq<u8>, Seq<u8>)>,
    dirs: Seq<Seq<char>>,
)
    ensures
        scan_fold(st, a + b, dirs) == match scan_fold(st, a, dirs) {
            Err(e) => Err(e),
            Ok(s) => scan_fold(s, b, dirs),
        },
    decreases b.len(),
{
    if b.len() == 0 {
        assert(a + b =~= a);
    } else {
        lemma_scan_fold_append(st, a, b.drop_last(), dirs);
        assert((a + b).drop_last() =~= a + b.drop_last());
        assert((a + b).last() == b.last());
    }
}

/// The package description of a directory is read the same before or after
/// an entry that is not a description of the same directory.
proof fn lemma_desc_step_commutes(
    st: ScanState,
    x: (Seq<u8>, Seq<u8>),
    y: (Seq<u8>, Seq<u8>),
    dirs: Seq<Seq<char>>,
)
    requires
        valid_utf8(x.0),
        path_file_name(decode_utf8(x.0)) == Some(desc_file_name()),
        !(same_directory(decode_utf8(x.0), decode_utf8(y.0)) && path_file_name(decode_utf8(y.0))
            == Some(desc_file_name())),
        scan_step(st, x, dirs) is Ok,
        scan_step(st, y, dirs) is Ok,
    ensures
        scan_step(scan_step(st, x, dirs)->Ok_0, y, dirs) == scan_step(
            scan_step(st, y, dirs)->Ok_0,
            x,
            dirs,
        ),
{
    let px = decode_utf8(x.0);
    let py = decode_utf8(y.0);
    let dir = path_parent(px)->Some_0;
    let a = scan_step(st, x, dirs)->Ok_0;
    let b = scan_step(st, y, dirs)->Ok_0;
    assert(desc_file_name() != files_file_name()) by {
        assert(desc_file_name().len() != files_file_name().len());
    }
    let ny = path_file_name(py)->Some_0;
    let dy = path_parent(py)->Some_0;
    if ny == files_file_name() && path_normal(dy) == path_normal(dir) {
        lemma_desc_files_commute(st, px, x.1, py, y.1, dirs);
    } else if ny == desc_file_name() || ny == files_file_name() {
        assert(path_normal(dy) != path_normal(dir));
        let ab = scan_step(a, y, dirs)->Ok_0;
        let ba = scan_step(b, x, dirs)->Ok_0;
        assert(ab.strings == ba.strings);
        assert(ab.packages =~= ba.packages);
    }
}

/// In a files database, a directory's package description may be read one
/// entry later or earlier, past any entry but another description of the
/// same directory, among them that directory's files list: the whole scan
/// gives the same. It holds where both entries read without error.
pub proof fn lemma_desc_moves_in_archive(
    st: ScanState,
    before: Seq<(Seq<u8>, Seq<u8>)>,
    x: (Seq<u8>, Seq<u8>),
    y: (Seq<u8>, Seq<u8>),
    after: Seq<(Seq<u8>, Seq<u8>)>,
    dirs: Seq<Seq<char>>,
)
    requires
        valid_utf8(x.0),
        path_file_name(decode_utf8(x.0)) == Some(desc_file_name()),
        !(same_directory(decode_utf8(x.0), decode_utf8(y.0)) && path_file_name(decode_utf8(y.0))
            == Some(desc_file_name())),
        scan_fold(st, before, dirs) matches Ok(s) && scan_step(
            s,
            x,
            dirs,
        ) is Ok && scan_step(s, y, dirs) is Ok,
    ensures
        scan_fold(st, before + seq![x, y] + after, dirs) == scan_fold(
            st,
            before + seq![y, x] + after,
            dirs,
        ),
{
    let s = scan_fold(st, before, dirs)->Ok_0;
    lemma_desc_step_commutes(s, x, y, dirs);
    lemma_scan_fold_append(st, before + seq![x, y], after, dirs);
    lemma_scan_fold_append(st, before + seq![y, x], after, dirs);
    lemma_scan_fold_append(st, before, seq![x, y], dirs);
    lemma_scan_fold_append(st, before, seq![y, x], dirs);
    assert(seq![x, y].drop_last() =~= seq![x]);
    assert(seq![y, x].drop_last() =~= seq![y]);
    assert(seq![x].drop_last() =~= Seq::<(Seq<u8>, Seq<u8>)>::empty());
    assert(seq![y].drop_last() =~= Seq::<(Seq<u8>, Seq<u8>)>::empty());
    assert(seq![x, y].last() == y && seq![y, x].last() == x);
    assert(seq![x].last() == x && seq![y].last() == y);
    assert(scan_fold(s, Seq::<(Seq<u8>, Seq<u8>)>::empty(), dirs) == Ok::<ScanState, UpdateError>(s));
    assert(scan_fold(s, seq![x], dirs) == scan_step(s, x, dirs));
    assert(scan_fold(s, seq![y], dirs) == scan_step(s, y, dirs));
    assert(scan_fold(s, seq![x, y], dirs) == scan_fold(s, seq![y, x], dirs));
}

proof fn lemma_desc_step_ok_anywhere(
    s: ScanState,
    t: ScanState,
    x: (Seq<u8>, Seq<u8>),
    dirs: Seq<Seq<char>>,
)
    requires
        valid_utf8(x.0),
        path_file_name(decode_utf8(x.0)) == Some(desc_file_name()),
        scan_step(s, x, dirs) is Ok,
    ensures
        scan_step(t, x, dirs) is Ok,
{
}

/// A directory's package description may be read later in the archive,
/// past any run of entries that holds no other description of the same
/// directory (its own files list among them): the whole scan gives the
/// same. It holds where the description reads without error and the
/// entries it moves past read without error.
pub proof fn lemma_desc_moves_later(
    st: ScanState,
    before: Seq<(Seq<u8>, Seq<u8>)>,
    x: (Seq<u8>, Seq<u8>),
    mid: Seq<(Seq<u8>, Seq<u8>)>,
    after: Seq<(Seq<u8>, Seq<u8>)>,
    dirs: Seq<Seq<char>>,
)
    requires
        valid_utf8(x.0),
        path_file_name(decode_utf8(x.0)) == Some(desc_file_name()),
        forall|i: int|
            0 <= i < mid.len() ==> !(same_directory(decode_utf8(x.0), decode_utf8(#[trigger] mid[i].0))
                && path_file_name(decode_utf8(mid[i].0)) == Some(desc_file_name())),
        scan_fold(st, before, dirs) matches Ok(s) && scan_step(s, x, dirs) is Ok,
        scan_fold(st, before + mid, dirs) is Ok,
    ensures
        scan_fold(st, before + seq![x] + mid + after, dirs) == scan_fold(
            st,
            before + mid + seq![x] + after,
            dirs,
        ),
    decreases mid.len(),
{
    if mid.len() == 0 {
        assert(before + seq![x] + mid + after =~= before + mid + seq![x] + after);
    } else {
        let m0 = mid[0];
        let rest = mid.drop_first();
        let b1 = before + seq![m0];
        assert(b1 + rest =~= before + mid);
        lemma_scan_fold_append(st, b1, rest, dirs);
        lemma_scan_fold_append(st, before, seq![m0], dirs);
        assert(seq![m0].drop_last() =~= Seq::<(Seq<u8>, Seq<u8>)>::empty());
        assert(seq![m0].last() == m0);
        let s = scan_fold(st, before, dirs)->Ok_0;
        assert(scan_fold(s, Seq::<(Seq<u8>, Seq<u8>)>::empty(), dirs) == Ok::<ScanState, UpdateError>(s));
        assert(scan_fold(s, seq![m0], dirs) == scan_step(s, m0, dirs));
        assert(scan_step(s, m0, dirs) is Ok);
        assert(!(same_directory(decode_utf8(x.0), decode_utf8(m0.0)) && path_file_name(
            decode_utf8(m0.0),
        ) == Some(desc_file_name()))) by {
            assert(mid[0] == m0);
        }
        lemma_desc_moves_in_archive(st, before, x, m0, rest + after, dirs);
        assert(before + seq![x] + mid + after =~= before + seq![x, m0] + (rest + after));
        assert(before + seq![m0, x] + (rest + after) =~= b1 + seq![x] + rest + after);
        let s1 = scan_fold(st, b1, dirs)->Ok_0;
        lemma_desc_step_ok_anywhere(s, s1, x, dirs);
        assert forall|i: int| 0 <= i < rest.len() implies !(same_directory(
            decode_utf8(x.0),
            decode_utf8(#[trigger] rest[i].0),
        ) && path_file_name(decode_utf8(rest[i].0)) == Some(desc_file_name())) by {
            assert(rest[i] == mid[i + 1]);
        }
        lemma_desc_moves_later(st, b1, x, rest, after, dirs);
        assert(b1 + rest + seq![x] + after =~= before + mid + seq![x] + after);
    }
}

} // verus!
