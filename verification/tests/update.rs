use std::io::Write;
use filkoll::interner::ArchivedStringInterner;
use filkoll::lookup::search_in_file;
use filkoll::types::{ArchivedDataRoot, BinariesData, DataRoot};
use filkoll::update::archive::{scan_archive, scan_entries};
use filkoll::update::{cache_paths, has_extension, select_cache_files, 
    entries_regex, path_entries_of, process_files_archive, select_files_databases, sync_dir, ArchiveScan,
    PathFilters, UpdateError,
};
use filkoll::arch::DescError;

fn filters(path: &str) -> PathFilters {
    PathFilters::new(path).unwrap()
}

#[test]
fn path_patterns() {
    assert_eq!(path_entries_of("/usr/bin:/bin"), vec!["usr/bin", "bin"]);
    // Empty entries are skipped, one trailing slash is dropped
    assert_eq!(path_entries_of(":/usr/local/bin/::/sbin"), vec!["usr/local/bin", "sbin"]);
    // Relative entries are kept as they are
    assert_eq!(path_entries_of("bin"), vec!["bin"]);
    assert_eq!(path_entries_of(""), Vec::<String>::new());
    assert_eq!(path_entries_of("/:/"), Vec::<String>::new());
    let dirs = path_entries_of("/usr/bin:/opt/a.b+c");
    assert_eq!(entries_regex(&dirs, false), "^usr/bin/|^opt/a\\.b\\+c/");
    assert_eq!(entries_regex(&dirs, true), "^usr/bin$|^opt/a\\.b\\+c$");
}

#[test]
fn path_filters_keep_exactly_path_directories() {
    let f = filters("/usr/bin:/opt/a.b");
    assert!(f.keeps_line(b"usr/bin/ls"));
    assert!(!f.keeps_line(b"usr/binx/ls"));
    assert!(f.keeps_line(b"opt/a.b/tool"));
    assert!(!f.keeps_line(b"opt/axb/tool"));
    assert!(f.keeps_dir("usr/bin"));
    assert!(!f.keeps_dir("usr/bin/sub"));
    assert!(!f.keeps_dir("opt/axb"));
    // An empty PATH keeps nothing
    let none = filters("");
    assert!(!none.keeps_line(b"usr/bin/ls"));
    assert!(!none.keeps_dir(""));
    assert!(!none.keeps_dir("usr/bin"));
}

fn desc(name: &str, version: &str) -> Vec<u8> {
    format!("%NAME%\n{name}\n\n%VERSION%\n{version}\n\n%DESC%\nSomething\n").into_bytes()
}

#[test]
fn scan_builds_binaries() {
    let f = filters("/usr/bin:/bin");
    let mut scan = ArchiveScan::new();
    scan.add_entry("coreutils-9.5-1/desc", &desc("coreutils", "9.5-1"), &f).unwrap();
    scan.add_entry(
        "coreutils-9.5-1/files",
        b"%FILES%\nusr/\nusr/bin/\nusr/bin/ls\nusr/bin/cat\nusr/share/doc/x\nusr/bin/sub/deep\n",
        &f,
    )
    .unwrap();
    // Files before the description of the same directory
    scan.add_entry("rust-1.80-1/files", b"%FILES%\r\nusr/bin/cargo\r\n", &f).unwrap();
    scan.add_entry("rust-1.80-1/desc", &desc("rust", "1.80-1"), &f).unwrap();
    // A package without binaries is ignored
    scan.add_entry("docs-1-1/desc", &desc("docs", "1-1"), &f).unwrap();
    scan.add_entry("docs-1-1/files", b"%FILES%\nusr/share/doc/a\n", &f).unwrap();
    // Other entries are ignored
    scan.add_entry("docs-1-1/mtree", b"\xff\xfe", &f).unwrap();

    let root = process_files_archive(scan, "/var/lib/pacman/sync/core.files").unwrap();
    assert_eq!(root.repository, "core");
    let archived = ArchivedStringInterner::from_bytes(root.interner.as_bytes().to_vec());

    let ls = root.binaries.get("ls").unwrap();
    assert_eq!(ls.len(), 1);
    assert_eq!(archived.get(ls[0].package.0), "coreutils 9.5-1");
    assert_eq!(archived.get(ls[0].directory.0), "usr/bin");
    let cargo = root.binaries.get("cargo").unwrap();
    assert_eq!(archived.get(cargo[0].package.0), "rust 1.80-1");
    assert!(root.binaries.get("cat").is_some());
    assert!(root.binaries.get("x").is_none());
    assert!(root.binaries.get("deep").is_none());
    assert!(root.binaries.get("docs").is_none());
    assert_eq!(root.binaries.entries().len(), 3);
}

#[test]
fn scan_errors() {
    let f = filters("/usr/bin");
    let mut scan = ArchiveScan::new();
    assert_eq!(scan.add_entry("", b"", &f), Err(UpdateError::NoFileName));
    assert_eq!(
        scan.add_entry("pkg-1-1/desc", b"%VERSION%\n1\n", &f),
        Err(UpdateError::Desc(DescError::NoName))
    );
    assert_eq!(
        scan.add_entry("pkg-1-1/files", b"usr/bin/\xff\n", &f),
        Err(UpdateError::InvalidUtf8)
    );
    // Lines the quick filter rejects are not decoded
    assert_eq!(scan.add_entry("pkg-1-1/files", b"opt/\xff\n", &f), Ok(()));

    let mut scan = ArchiveScan::new();
    scan.add_entry("orphan-1-1/files", b"usr/bin/tool\n", &f).unwrap();
    assert_eq!(
        process_files_archive(scan, "core.files").err(),
        Some(UpdateError::NoPackage("orphan-1-1".to_string()))
    );
}

#[test]
fn too_long_directory() {
    let f = filters("/usr/bin");
    let long_dir = format!("usr/bin/{}", "d".repeat(70000));
    let lines = format!("{long_dir}/x\n");
    let f2 = filters(&format!("/{long_dir}"));
    let mut scan = ArchiveScan::new();
    assert_eq!(
        scan.add_entry("p-1-1/files", lines.as_bytes(), &f2),
        Err(UpdateError::TooLong)
    );
    let mut scan = ArchiveScan::new();
    assert_eq!(scan.add_entry("p-1-1/files", lines.as_bytes(), &f), Ok(()));
}

#[test]
fn repository_needs_file_stem() {
    let scan = ArchiveScan::new();
    assert_eq!(process_files_archive(scan, "/").err(), Some(UpdateError::NoFileStem));
}

#[test]
fn databases_and_sync_dir() {
    let paths = vec![
        "/var/lib/pacman/sync/core.files".to_string(),
        "/var/lib/pacman/sync/core.db".to_string(),
        "/var/lib/pacman/sync/extra.files".to_string(),
        "/var/lib/pacman/sync/files".to_string(),
    ];
    assert_eq!(
        select_files_databases(paths),
        vec![
            "/var/lib/pacman/sync/core.files".to_string(),
            "/var/lib/pacman/sync/extra.files".to_string()
        ]
    );
    assert_eq!(sync_dir("/var/lib/pacman/"), "/var/lib/pacman/sync");
    assert_eq!(sync_dir("/dbpath"), "/dbpath/sync");
}

fn sorted_entries(root: &DataRoot) -> Vec<(String, Vec<filkoll::types::Record>)> {
    let mut entries = root.binaries.entries();
    entries.sort_by(|a, b| a.0.cmp(&b.0));
    entries
}

#[test]
fn desc_and_files_in_either_order() {
    let f = filters("/usr/bin");
    let files: &[u8] = b"%FILES%\nusr/bin/ls\nusr/bin/cat\n";
    let mut first = ArchiveScan::new();
    first.add_entry("coreutils-9.5-1/desc", &desc("coreutils", "9.5-1"), &f).unwrap();
    first.add_entry("coreutils-9.5-1/files", files, &f).unwrap();
    let mut second = ArchiveScan::new();
    second.add_entry("coreutils-9.5-1/files", files, &f).unwrap();
    second.add_entry("coreutils-9.5-1/desc", &desc("coreutils", "9.5-1"), &f).unwrap();
    let a = process_files_archive(first, "core.files").unwrap();
    let b = process_files_archive(second, "core.files").unwrap();
    assert_eq!(a.interner.as_bytes(), b.interner.as_bytes());
    assert_eq!(sorted_entries(&a), sorted_entries(&b));
}

#[test]
fn built_index_is_searchable() {
    let f = filters("/usr/bin:/bin");
    let mut scan = ArchiveScan::new();
    scan.add_entry("coreutils-9.5-1/files", b"%FILES%\nusr/bin/ls\nbin/cat\n", &f).unwrap();
    scan.add_entry("coreutils-9.5-1/desc", &desc("coreutils", "9.5-1"), &f).unwrap();
    scan.add_entry("rust-1.80-1/desc", &desc("rust", "1.80-1"), &f).unwrap();
    scan.add_entry("rust-1.80-1/files", b"%FILES%\nusr/bin/cargo\n", &f).unwrap();
    let root = process_files_archive(scan, "extra.files").unwrap();
    let mut binaries = BinariesData::new();
    for (k, v) in root.binaries.entries() {
        binaries.insert(k, v);
    }
    let archived = ArchivedDataRoot {
        repository: root.repository.clone(),
        interner: ArchivedStringInterner::from_bytes(root.interner.as_bytes().to_vec()),
        binaries,
    };
    assert!(archived.is_well_formed());
    let found = search_in_file("cat", 0, &archived).unwrap();
    assert_eq!(found.len(), 1);
    assert_eq!(found[0].package, "coreutils 9.5-1");
    assert_eq!(found[0].directory, "bin");
    assert_eq!(found[0].repo, "extra");
    let fuzzy = search_in_file("cargo", 1, &archived).unwrap();
    assert_eq!(fuzzy.len(), 1);
    assert_eq!(fuzzy[0].package, "rust 1.80-1");
}

fn tar_bytes(entries: &[(&str, &[u8])]) -> Vec<u8> {
    let mut builder = tar::Builder::new(Vec::new());
    for (path, data) in entries {
        let mut header = tar::Header::new_gnu();
        header.set_size(data.len() as u64);
        header.set_mode(0o644);
        header.set_cksum();
        builder.append_data(&mut header, path, *data).unwrap();
    }
    builder.into_inner().unwrap()
}

fn gzip(data: &[u8]) -> Vec<u8> {
    let mut encoder = flate2::write::GzEncoder::new(Vec::new(), flate2::Compression::default());
    encoder.write_all(data).unwrap();
    encoder.finish().unwrap()
}

#[test]
fn archive_is_scanned() {
    let f = filters("/usr/bin");
    let d = desc("coreutils", "9.5-1");
    let tar = tar_bytes(&[
        ("coreutils-9.5-1/desc", &d),
        ("coreutils-9.5-1/files", b"%FILES%\nusr/bin/ls\n"),
    ]);
    let scan = scan_archive(&gzip(&tar), &f).unwrap();
    let root = process_files_archive(scan, "/x/core.files").unwrap();
    let archived = ArchivedStringInterner::from_bytes(root.interner.as_bytes().to_vec());
    let ls = root.binaries.get("ls").unwrap();
    assert_eq!(archived.get(ls[0].package.0), "coreutils 9.5-1");
    assert_eq!(archived.get(ls[0].directory.0), "usr/bin");
}

#[test]
fn archive_errors() {
    let f = filters("/usr/bin");
    assert_eq!(scan_archive(b"not gzip at all", &f).err(), Some(UpdateError::NotCompressed));
    let d = desc("coreutils", "9.5-1");
    let tar = tar_bytes(&[("coreutils-9.5-1/desc", &d)]);
    // A stream that breaks off is not a complete gzip stream
    let gz = gzip(&tar);
    assert_eq!(scan_archive(&gz[..gz.len() - 8], &f).err(), Some(UpdateError::NotCompressed));
    // A tar archive that breaks off inside an entry
    assert_eq!(scan_archive(&gzip(&tar[..600]), &f).err(), Some(UpdateError::Tar));
    // The error of an entry comes before that of the archive breaking off
    let bad = tar_bytes(&[("p-1/desc", b"%VERSION%\n1\n")]);
    assert_eq!(
        scan_archive(&gzip(&bad[..600]), &f).err(),
        Some(UpdateError::Desc(DescError::NoName))
    );
}

#[test]
fn entries_with_bad_paths() {
    let f = filters("/usr/bin");
    let entries = vec![(b"p-1/\xff".to_vec(), b"".to_vec())];
    assert_eq!(scan_entries(&entries, false, &f).err(), Some(UpdateError::NonUtf8Path));
    let entries = vec![(b"p-1/desc".to_vec(), desc("p", "1"))];
    assert!(scan_entries(&entries, false, &f).is_ok());
    assert_eq!(scan_entries(&entries, true, &f).err(), Some(UpdateError::Tar));
}

#[test]
fn cache_file_paths() {
    assert_eq!(
        cache_paths("/var/cache/filkoll", "/var/lib/pacman/sync/core.files"),
        Some((
            "/var/cache/filkoll/core.binaries".to_string(),
            "/var/cache/filkoll/core.binaries_new".to_string()
        ))
    );
    assert_eq!(cache_paths("/var/cache/filkoll", "/"), None);
}

#[test]
fn description_may_come_later_in_the_archive() {
    let f = filters("/usr/bin");
    let core = desc("coreutils", "9.5-1");
    let rust = desc("rust", "1.80-1");
    let a = tar_bytes(&[
        ("coreutils-9.5-1/desc", &core),
        ("coreutils-9.5-1/files", b"%FILES%\nusr/bin/ls\n"),
        ("rust-1.80-1/desc", &rust),
        ("rust-1.80-1/files", b"%FILES%\nusr/bin/cargo\n"),
    ]);
    let b = tar_bytes(&[
        ("coreutils-9.5-1/files", b"%FILES%\nusr/bin/ls\n"),
        ("rust-1.80-1/desc", &rust),
        ("coreutils-9.5-1/desc", &core),
        ("rust-1.80-1/files", b"%FILES%\nusr/bin/cargo\n"),
    ]);
    let ra = process_files_archive(scan_archive(&gzip(&a), &f).unwrap(), "core.files").unwrap();
    let rb = process_files_archive(scan_archive(&gzip(&b), &f).unwrap(), "core.files").unwrap();
    assert_eq!(decoded(&ra), decoded(&rb));
    assert_eq!(decoded(&ra).len(), 2);
}

fn decoded(root: &DataRoot) -> Vec<(String, Vec<(String, String)>)> {
    let archived = ArchivedStringInterner::from_bytes(root.interner.as_bytes().to_vec());
    sorted_entries(root)
        .into_iter()
        .map(|(k, v)| {
            let records = v
                .iter()
                .map(|r| {
                    (
                        archived.get(r.package.0).to_string(),
                        archived.get(r.directory.0).to_string(),
                    )
                })
                .collect();
            (k, records)
        })
        .collect()
}

#[test]
fn directories_compare_as_paths() {
    let f = filters("/usr/bin");
    let mut scan = ArchiveScan::new();
    scan.add_entry("tool-1-1/./desc", &desc("tool", "1-1"), &f).unwrap();
    scan.add_entry("tool-1-1/files", b"%FILES%\nusr/bin/tool\n", &f).unwrap();
    let root = process_files_archive(scan, "core.files").unwrap();
    assert!(root.binaries.get("tool").is_some());

    let mut scan = ArchiveScan::new();
    scan.add_entry("orphan-1-1//files", b"usr/bin/tool\n", &f).unwrap();
    assert_eq!(
        process_files_archive(scan, "core.files").err(),
        Some(UpdateError::NoPackage("orphan-1-1".to_string()))
    );
}

#[test]
fn entry_parts_and_extensions() {
    let f = filters("/usr/bin");
    let mut scan = ArchiveScan::new();
    assert_eq!(scan.add_entry_parts(None, Some("d"), b"", &f), Err(UpdateError::NoFileName));
    assert_eq!(scan.add_entry_parts(Some("desc"), None, b"", &f), Err(UpdateError::NoParent));
    assert_eq!(scan.add_entry_parts(Some("desc"), Some("p-1"), &desc("p", "1"), &f), Ok(()));
    assert!(has_extension(Some("files"), "files"));
    assert!(!has_extension(Some("db"), "files"));
    assert!(!has_extension(None, "files"));
    assert_eq!(
        select_cache_files(vec![
            "/c/core.binaries".to_string(),
            "/c/core.binaries_new".to_string(),
            "/c/extra.binaries".to_string(),
        ]),
        vec!["/c/core.binaries".to_string(), "/c/extra.binaries".to_string()]
    );
}

fn xz(data: &[u8]) -> Vec<u8> {
    let mut encoder = xz2::write::XzEncoder::new(Vec::new(), 6);
    encoder.write_all(data).unwrap();
    encoder.finish().unwrap()
}

#[test]
fn zstd_and_xz_archives_read_as_gzip() {
    let f = filters("/usr/bin");
    let d = desc("coreutils", "9.5-1");
    let tar = tar_bytes(&[
        ("coreutils-9.5-1/desc", &d),
        ("coreutils-9.5-1/files", b"%FILES%\nusr/bin/ls\nusr/bin/cat\n"),
    ]);
    let from_gz = process_files_archive(scan_archive(&gzip(&tar), &f).unwrap(), "core.files").unwrap();
    let zst = zstd::stream::encode_all(&tar[..], 3).unwrap();
    let from_zstd = process_files_archive(scan_archive(&zst, &f).unwrap(), "core.files").unwrap();
    let from_xz = process_files_archive(scan_archive(&xz(&tar), &f).unwrap(), "core.files").unwrap();
    assert_eq!(decoded(&from_gz), decoded(&from_zstd));
    assert_eq!(decoded(&from_gz), decoded(&from_xz));
    assert_eq!(decoded(&from_gz).len(), 2);
    // A broken zstd stream is not read
    assert_eq!(scan_archive(&zst[..zst.len() - 3], &f).err(), Some(UpdateError::NotCompressed));
}
