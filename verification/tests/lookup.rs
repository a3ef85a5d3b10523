use filkoll::interner::{ArchivedStringInterner, Handle, StringInternerBuilder};
use filkoll::lookup::{check_header, lookup, search_data_root, search_in_file, LookupError, Suggestion};
use filkoll::types::{
    ArchivedDataRoot, BinariesData, DataRoot, DirectoryRef, Header, PackageRef, Record,
    DATA_VERSION, HEADER_MAGIC,
};

/// Serialise and deserialise the interner's bytes to get the archived form.
fn archive(data: DataRoot) -> ArchivedDataRoot {
    let bytes = data.interner.as_bytes().to_vec();
    let serialised = rkyv::to_bytes::<rkyv::rancor::Error>(&bytes).unwrap();
    let archived =
        rkyv::access::<rkyv::vec::ArchivedVec<u8>, rkyv::rancor::Error>(&serialised).unwrap();
    ArchivedDataRoot {
        repository: data.repository,
        interner: ArchivedStringInterner::from_bytes(archived.as_slice().to_vec()),
        binaries: data.binaries,
    }
}

fn sample() -> ArchivedDataRoot {
    // Create string interner:
    let mut builder = StringInternerBuilder::new();
    let usrbin = DirectoryRef(builder.intern("/usr/bin"));
    let coreutils = PackageRef(builder.intern("coreutils"));
    let rust = PackageRef(builder.intern("rust"));
    let sl = PackageRef(builder.intern("sl"));
    let mut binaries = BinariesData::new();
    binaries.insert(
        "ls".into(),
        vec![Record {
            package: coreutils,
            directory: usrbin,
        }],
    );
    binaries.insert(
        "sl".into(),
        vec![Record {
            package: sl,
            directory: usrbin,
        }],
    );
    binaries.insert(
        "cat".into(),
        vec![Record {
            package: coreutils,
            directory: usrbin,
        }],
    );
    binaries.insert(
        "cargo".into(),
        vec![Record {
            package: rust,
            directory: usrbin,
        }],
    );
    let data = DataRoot {
        repository: "core".into(),
        interner: builder.into_readonly(),
        binaries,
    };
    archive(data)
}

fn suggestion(distance: u8, package: &str, command: &str) -> Suggestion {
    Suggestion {
        distance,
        repo: "core".into(),
        package: package.into(),
        directory: "/usr/bin".into(),
        command: command.into(),
    }
}

#[test]
fn test_search() {
    let archived = sample();

    // Test exact match
    let results = search_data_root("ls", 0, &archived).unwrap();
    assert_eq!(results.len(), 1);
    assert_eq!(
        results[0],
        Suggestion {
            distance: 0,
            repo: "core".into(),
            package: "coreutils".into(),
            directory: "/usr/bin".into(),
            command: "ls".into()
        }
    );

    // Test fuzzy match
    let mut results = search_data_root("ls", 2, &archived).unwrap();
    assert_eq!(results.len(), 2);
    results.sort();
    assert_eq!(
        results,
        vec![
            Suggestion {
                distance: 0,
                repo: "core".into(),
                package: "coreutils".into(),
                directory: "/usr/bin".into(),
                command: "ls".into()
            },
            Suggestion {
                distance: 2,
                repo: "core".into(),
                package: "sl".into(),
                directory: "/usr/bin".into(),
                command: "sl".into()
            }
        ]
    );
}

#[test]
fn exact_search_without_match() {
    let archived = sample();
    assert!(search_data_root("rm", 0, &archived).unwrap().is_empty());
}

#[test]
fn fuzzy_search_distances() {
    let archived = sample();
    let mut results = search_data_root("car", 2, &archived).unwrap();
    results.sort();
    // "cat" is one substitution away, "cargo" two insertions
    assert_eq!(
        results,
        vec![suggestion(1, "coreutils", "cat"), suggestion(2, "rust", "cargo")]
    );
    let results = search_data_root("car", 1, &archived).unwrap();
    assert_eq!(results, vec![suggestion(1, "coreutils", "cat")]);
}

#[test]
fn exact_part_of_fuzzy_search_is_exact_search() {
    let archived = sample();
    let exact = search_data_root("sl", 0, &archived).unwrap();
    let fuzzy = search_data_root("sl", 3, &archived).unwrap();
    let exact_in_fuzzy: Vec<Suggestion> = fuzzy.into_iter().filter(|s| s.distance == 0).collect();
    assert_eq!(exact, exact_in_fuzzy);
}

#[test]
fn lookup_without_cache_files() {
    assert_eq!(lookup(1, false, "ls", &vec![]), Err(LookupError::NoCacheFiles));
}

#[test]
fn lookup_no_fuzzy_if_exact() {
    let files = vec![sample(), sample()];
    let results = lookup(2, true, "ls", &files).unwrap();
    assert_eq!(
        results,
        vec![suggestion(0, "coreutils", "ls"), suggestion(0, "coreutils", "ls")]
    );
    let mut all = lookup(2, false, "ls", &files).unwrap();
    all.sort();
    assert_eq!(all.len(), 4);
    // Without an exact match, the fuzzy results stay
    let mut near = lookup(1, true, "cst", &files).unwrap();
    near.sort();
    assert_eq!(
        near,
        vec![suggestion(1, "coreutils", "cat"), suggestion(1, "coreutils", "cat")]
    );
}

#[test]
fn lookup_rejects_corrupt_cache() {
    let mut binaries = BinariesData::new();
    binaries.insert(
        "ls".into(),
        vec![Record {
            package: PackageRef(Handle { offset: 100 }),
            directory: DirectoryRef(Handle { offset: 0 }),
        }],
    );
    let bad = ArchivedDataRoot {
        repository: "core".into(),
        interner: ArchivedStringInterner::from_bytes(vec![1, 0, b'x']),
        binaries,
    };
    assert!(!bad.is_well_formed());
    assert!(sample().is_well_formed());
    assert_eq!(search_in_file("ls", 0, &bad), Err(LookupError::CorruptCache));
    assert_eq!(lookup(0, false, "ls", &vec![sample(), bad]), Err(LookupError::CorruptCache));
}

#[test]
fn corrupt_record_only_fails_searches_that_read_it() {
    let mut binaries = BinariesData::new();
    binaries.insert(
        "ls".into(),
        vec![Record {
            package: PackageRef(Handle { offset: 100 }),
            directory: DirectoryRef(Handle { offset: 0 }),
        }],
    );
    let bad = ArchivedDataRoot {
        repository: "core".into(),
        interner: ArchivedStringInterner::from_bytes(vec![1, 0, b'x']),
        binaries,
    };
    assert_eq!(search_in_file("cat", 0, &bad), Ok(vec![]));
    assert_eq!(search_in_file("zzzz", 1, &bad), Ok(vec![]));
    assert_eq!(search_in_file("lx", 1, &bad), Err(LookupError::CorruptCache));
    assert_eq!(lookup(0, false, "cat", &vec![sample(), bad]).unwrap().len(), 1);
}

#[test]
fn larger_distance_keeps_results() {
    let data = sample();
    let mut previous = search_data_root("ls", 0, &data).unwrap();
    for d in 1..4u8 {
        let current = search_data_root("ls", d, &data).unwrap();
        for s in &previous {
            assert!(current.contains(s));
        }
        previous = current;
    }
    assert_eq!(previous.len(), 3);
}

#[test]
fn header_checks() {
    let header = Header::new(42);
    assert_eq!(header.magic, HEADER_MAGIC);
    assert_eq!(header.version, DATA_VERSION);
    assert!(header.is_valid(42));
    assert!(!header.is_valid(43));
    assert_eq!(check_header(&header, 42), Ok(()));
    assert_eq!(check_header(&header, 7), Err(LookupError::InvalidHeader));
    let old = Header { magic: HEADER_MAGIC, version: 1, type_hash: 42 };
    assert!(!old.is_valid(42));
    let other = Header { magic: 0, version: DATA_VERSION, type_hash: 42 };
    assert!(!other.is_valid(42));
    assert_eq!(Header::expected_hash(0b1100, 0b1010), 0b0110);
}

#[test]
fn error_texts() {
    assert_eq!(
        LookupError::NoCacheFiles.message(),
        "No cache files found (if this is a new install: sudo filkoll update && sudo systemctl enable filkoll.timer)"
    );
    assert!(LookupError::InvalidHeader.suggestion().contains("filkoll update"));
}

#[test]
fn binaries_map_operations() {
    let mut b = BinariesData::new();
    assert!(b.get("x").is_none());
    let r = Record {
        package: PackageRef(Handle { offset: 1 }),
        directory: DirectoryRef(Handle { offset: 2 }),
    };
    b.insert("x".into(), vec![r, r]);
    assert_eq!(b.get("x"), Some(vec![r, r]));
    b.insert("y".into(), vec![]);
    let mut entries = b.entries();
    entries.sort_by(|a, b| a.0.cmp(&b.0));
    assert_eq!(entries, vec![("x".to_string(), vec![r, r]), ("y".to_string(), vec![])]);
}

#[test]
fn header_bytes_round_trip() {
    let header = Header::new(0x0102_0304_0506_0708);
    let bytes = header.to_bytes();
    assert_eq!(bytes.len(), 16);
    assert_eq!(&bytes[0..4], &[0x76, 0x79, 0x75, 0x70]);
    assert_eq!(&bytes[4..8], &[2, 0, 0, 0]);
    assert_eq!(&bytes[8..16], &[8, 7, 6, 5, 4, 3, 2, 1]);
    assert_eq!(Header::from_prefix(&bytes), Some(header));
    let mut longer = bytes.clone();
    longer.extend_from_slice(b"payload");
    assert_eq!(Header::from_prefix(&longer), Some(header));
    assert_eq!(Header::from_prefix(&bytes[..15]), None);
}
