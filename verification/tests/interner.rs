use filkoll::interner::{ArchivedStringInterner, Handle, StringInterner, StringInternerBuilder};

/// Round trips the interner's bytes through an rkyv archive, as a cache file
/// does.
fn archive(interner: &StringInterner) -> ArchivedStringInterner {
    let serialised = rkyv::to_bytes::<rkyv::rancor::Error>(&interner.as_bytes().to_vec()).unwrap();
    let archived =
        rkyv::access::<rkyv::vec::ArchivedVec<u8>, rkyv::rancor::Error>(&serialised).unwrap();
    ArchivedStringInterner::from_bytes(archived.as_slice().to_vec())
}

fn collect(archived: &ArchivedStringInterner) -> Vec<String> {
    let mut it = archived.iter();
    let mut out = Vec::new();
    while let Some(s) = it.next() {
        out.push(s.to_string());
    }
    out
}

#[test]
fn test_interner() {
    let mut builder = StringInternerBuilder::new();
    let a = builder.intern("a");
    let b = builder.intern("bcde");
    let c = builder.intern("c");
    let d = builder.intern("d");
    let e = builder.intern("eåäö");
    let f = builder.intern("a");

    let interner = builder.into_readonly();

    let archived = archive(&interner);

    assert_eq!(archived.get(a), "a");
    assert_eq!(archived.get(b), "bcde");
    assert_eq!(archived.get(c), "c");
    assert_eq!(archived.get(d), "d");
    assert_eq!(archived.get(e), "eåäö");
    assert_eq!(archived.get(f), "a");

    // Check that we actually deduplicate
    assert_eq!(collect(&archived), vec!["a", "bcde", "c", "d", "eåäö"]);
}

#[test]
fn intern_layout_is_length_prefixed() {
    let mut builder = StringInternerBuilder::new();
    let a = builder.intern("ab");
    let b = builder.intern("é");
    assert_eq!(a, Handle { offset: 0 });
    assert_eq!(b, Handle { offset: 4 });
    let interner = builder.into_readonly();
    assert_eq!(interner.as_bytes(), &[2, 0, b'a', b'b', 2, 0, 0xc3, 0xa9]);
}

#[test]
fn intern_same_string_same_handle() {
    let mut builder = StringInternerBuilder::new();
    let first = builder.intern("/usr/bin");
    let other = builder.intern("/usr/sbin");
    let again = builder.intern("/usr/bin");
    assert_eq!(first, again);
    assert_ne!(first, other);
    let interner = builder.into_readonly();
    assert_eq!(interner.as_bytes().len(), 2 + 8 + 2 + 9);
}

#[test]
fn intern_long_string_length_bytes() {
    let long = "x".repeat(300);
    let mut builder = StringInternerBuilder::new();
    let h = builder.intern(&long);
    let interner = builder.into_readonly();
    assert_eq!(&interner.as_bytes()[0..2], &[44, 1]);
    let archived = ArchivedStringInterner::from_bytes(interner.as_bytes().to_vec());
    assert_eq!(archived.get(h), long);
    assert_eq!(archived.get_raw(h).len(), 300);
}

#[test]
fn get_raw_gives_bytes() {
    let archived = ArchivedStringInterner::from_bytes(vec![1, 0, b'z', 2, 0, 0xc3, 0xa9]);
    assert_eq!(archived.get_raw(Handle { offset: 0 }), b"z");
    assert_eq!(archived.get_raw(Handle { offset: 3 }), "é".as_bytes());
    assert_eq!(archived.get(Handle { offset: 3 }), "é");
}

#[test]
fn try_get_rejects_bad_handles() {
    let archived = ArchivedStringInterner::from_bytes(vec![3, 0, b'a', b'b', b'c', 1, 0, 0xff]);
    assert_eq!(archived.try_get(Handle { offset: 0 }), Some("abc"));
    // Out of range
    assert_eq!(archived.try_get(Handle { offset: 8 }), None);
    assert_eq!(archived.try_get(Handle { offset: 7 }), None);
    // Length runs past the end
    assert_eq!(archived.try_get(Handle { offset: 1 }), None);
    // Not UTF-8
    assert_eq!(archived.try_get(Handle { offset: 5 }), None);
}

#[test]
fn entries_valid_checks_layout() {
    let mut builder = StringInternerBuilder::new();
    builder.intern("one");
    builder.intern("two");
    let interner = builder.into_readonly();
    assert!(ArchivedStringInterner::from_bytes(interner.as_bytes().to_vec()).entries_valid());
    assert!(ArchivedStringInterner::from_bytes(vec![]).entries_valid());
    assert!(!ArchivedStringInterner::from_bytes(vec![5, 0, b'a']).entries_valid());
    assert!(!ArchivedStringInterner::from_bytes(vec![1]).entries_valid());
    assert!(!ArchivedStringInterner::from_bytes(vec![1, 0, 0xff]).entries_valid());
}

#[test]
fn iter_on_empty_interner() {
    let archived = ArchivedStringInterner::from_bytes(vec![]);
    assert!(collect(&archived).is_empty());
    let empty = StringInternerBuilder::new().into_readonly();
    assert!(empty.as_bytes().is_empty());
    let back = StringInterner::from_bytes(vec![1, 0, b'q']);
    assert_eq!(back.as_bytes(), &[1, 0, b'q']);
}

#[test]
fn small_strings_fit_in_handles() {
    let mut builder = StringInternerBuilder::new();
    assert!(builder.fits("a"));
    builder.intern("a");
    assert!(builder.fits("a"));
    assert!(builder.fits("bcde"));
}
