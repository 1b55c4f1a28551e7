use rocket_static_fs::codec::{FormatError, Package};
use rocket_static_fs::codec::{encode_package, PackageFile};
use rocket_static_fs::fs::{EmbeddedFileSystem, Entry, StoreError, TemplateEntry};

fn be(n: u64) -> Vec<u8> {
    n.to_be_bytes().to_vec()
}

/// A package written out by hand: records in path order, contents after.
fn package(files: &[(&str, i64, &[u8])]) -> Vec<u8> {
    let mut meta = Vec::new();
    let mut data = Vec::new();
    for (path, modified, contents) in files {
        meta.extend(be(path.len() as u64));
        meta.extend(path.as_bytes());
        meta.extend(modified.to_be_bytes());
        meta.extend(be(contents.len() as u64));
        meta.extend(be(data.len() as u64));
        data.extend_from_slice(contents);
    }
    let mut out = be(meta.len() as u64);
    out.extend(meta);
    out.extend(data);
    out
}

fn assets() -> Vec<u8> {
    package(&[
        ("hello.txt", 1_500_000_000, b"Hello World!"),
        ("index.html", 1_500_000_001, b"<html></html>"),
        ("inner/deeper/x.txt", 1_500_000_002, b"x"),
        ("inner/other.txt", 1_500_000_003, b"other"),
        ("style.css", 1_500_000_004, b"body {}"),
    ])
}

#[test]
fn test_create_package_from_dir_and_read_back() {
    let bytes = assets();
    let p = Package::from_bytes(&bytes).expect("unable to read test.package");
    assert_eq!(p.file_count(), 5);
    assert!(p.get("hello.txt").is_some());
    assert!(p.get("inner/other.txt").is_some());

    let hello_world = p.get("hello.txt").unwrap();
    assert_eq!(hello_world.length, "Hello World!".as_bytes().len() as u64);
    let hello_str = String::from_utf8(p.open("hello.txt").unwrap().to_vec()).unwrap();
    assert_eq!(hello_str, "Hello World!");

    assert!(p.is_dir("/"));
    assert!(p.is_dir("/inner"));
    assert!(!p.is_dir("/not-there"));
    assert!(!p.is_dir("/hello.txt"));
    assert!(!p.is_dir("/inner/other.txt"));

    let entries = p.entries("/inner");
    assert_eq!(entries.len(), 2);
    match entries[0] {
        Entry::Dir(ref name) => assert_eq!(name.as_str(), "deeper"),
        _ => panic!("entry is not a dir"),
    }
    match entries[1] {
        Entry::File(ref name, _, _) => assert_eq!(name.as_str(), "other.txt"),
        _ => panic!("entry is not a file"),
    };
}

#[test]
fn listing_merges_files_and_directories_by_name_once_each() {
    let bytes = package(&[
        ("a.txt", 1, b"a"),
        ("b/one.txt", 2, b"1"),
        ("b/two.txt", 3, b"2"),
        ("c", 4, b"c"),
        ("d/e/f.txt", 5, b"f"),
    ]);
    let p = Package::from_bytes(&bytes).unwrap();
    let names: Vec<String> = p
        .entries("/")
        .iter()
        .map(|e| match e {
            Entry::File(n, _, _) => format!("file {}", n),
            Entry::Dir(n) => format!("dir {}", n),
        })
        .collect();
    assert_eq!(names, vec!["file a.txt", "dir b", "file c", "dir d"]);
    match &p.entries("b")[1] {
        Entry::File(n, size, modified) => assert_eq!((n.as_str(), *size, *modified), ("two.txt", 1, 3)),
        _ => panic!("entry is not a file"),
    }
    assert_eq!(p.entries("/d").len(), 1);
    assert!(p.entries("/missing").is_empty());
}

#[test]
fn encoded_package_reads_back() {
    let files = vec![
        PackageFile { path: "inner/other.txt".to_string(), last_modified: 7, contents: b"other".to_vec() },
        PackageFile { path: "hello.txt".to_string(), last_modified: -3, contents: b"Hello World!".to_vec() },
        PackageFile { path: "empty".to_string(), last_modified: 0, contents: Vec::new() },
    ];
    let bytes = encode_package(files);
    // Sorted by path: empty, hello.txt, inner/other.txt.
    assert_eq!(bytes, package(&[
        ("empty", 0, b""),
        ("hello.txt", -3, b"Hello World!"),
        ("inner/other.txt", 7, b"other"),
    ]));
    let p = Package::from_bytes(&bytes).unwrap();
    assert_eq!(p.file_count(), 3);
    assert_eq!(p.path(0), "empty");
    let hello = p.get("hello.txt").unwrap();
    assert_eq!((hello.length, hello.last_modified), (12, -3));
    assert_eq!(p.open("hello.txt").unwrap(), b"Hello World!");
    assert_eq!(p.open("inner/other.txt").unwrap(), b"other");
    assert_eq!(p.open("empty").unwrap(), b"");
}

#[test]
fn empty_encoding_is_eight_zero_bytes() {
    assert_eq!(encode_package(Vec::new()), vec![0u8; 8]);
}

#[test]
fn records_address_disjoint_slices_covering_the_blob() {
    let bytes = assets();
    let p = Package::from_bytes(&bytes).unwrap();
    let mut total = 0u64;
    let mut next = 0u64;
    for i in 0..p.file_count() {
        let r = p.record(i);
        assert_eq!(r.offset, next);
        next = r.offset + r.length;
        total += r.length;
    }
    assert_eq!(total as usize, p.data().len());
}

#[test]
fn decoded_files_keep_size_time_and_bytes() {
    let p = Package::from_bytes(&assets()).unwrap();
    let other = p.get("inner/other.txt").unwrap();
    assert_eq!(other.length, 5);
    assert_eq!(other.last_modified, 1_500_000_003);
    assert_eq!(p.open("inner/other.txt").unwrap(), b"other");
    assert_eq!(p.open("style.css").unwrap(), b"body {}");
    assert!(p.open("missing.txt").is_none());
}

#[test]
fn empty_package_has_only_the_root() {
    let p = Package::from_bytes(&package(&[])).unwrap();
    assert_eq!(p.file_count(), 0);
    assert!(p.is_dir("/"));
    assert!(p.is_dir(""));
    assert!(!p.is_dir("/inner"));
}

#[test]
fn truncated_package_is_refused() {
    let bytes = assets();
    assert_eq!(Package::from_bytes(&bytes[..5]).err(), Some(FormatError));
    assert_eq!(Package::from_bytes(&bytes[..40]).err(), Some(FormatError));
    assert!(Package::from_bytes(&[]).is_err());
}

#[test]
fn misaligned_metadata_is_refused() {
    let mut bytes = assets();
    // Claim one byte less of metadata than the records take.
    let meta_len = u64::from_be_bytes(bytes[..8].try_into().unwrap()) - 1;
    bytes[..8].copy_from_slice(&meta_len.to_be_bytes());
    assert_eq!(Package::from_bytes(&bytes).err(), Some(FormatError));
}

#[test]
fn non_utf8_path_is_refused() {
    let mut bytes = package(&[("ab", 0, b"x")]);
    bytes[16] = 0xff;
    assert_eq!(Package::from_bytes(&bytes).err(), Some(FormatError));
}

#[test]
fn duplicate_path_is_refused() {
    let bytes = package(&[("a", 0, b"x"), ("a", 0, b"y")]);
    assert_eq!(Package::from_bytes(&bytes).err(), Some(FormatError));
}

#[test]
fn record_past_the_blob_is_refused() {
    let mut bytes = package(&[("a", 0, b"xy")]);
    bytes.pop();
    assert_eq!(Package::from_bytes(&bytes).err(), Some(FormatError));
}

#[test]
fn embedded_store_answers_for_files() {
    let fs = EmbeddedFileSystem::from_bytes(&assets()).unwrap();
    assert!(fs.is_file("hello.txt"));
    assert!(!fs.is_file("inner"));
    assert!(fs.is_dir("inner"));
    assert!(fs.is_dir("/inner/deeper"));
    assert_eq!(fs.size("hello.txt"), Ok(12));
    assert_eq!(fs.last_modified("hello.txt"), Ok(1_500_000_000));
    assert_eq!(fs.size("nope"), Err(StoreError::NotFound));
    assert_eq!(fs.open("hello.txt", None).unwrap(), b"Hello World!");
    assert_eq!(fs.open("hello.txt", Some(6)).unwrap(), b"World!");
    assert_eq!(fs.open("hello.txt", Some(40)).unwrap(), b"");
    assert!(fs.path_valid("inner/other.txt"));
    assert!(!fs.path_valid("../etc/passwd"));
    assert!(!fs.path_valid("inner/.."));
    assert!(fs.path_valid("inner/..x"));
}

#[test]
fn template_rows_for_files_and_directories() {
    let row = TemplateEntry::from_entry(&Entry::File("a.txt".to_string(), 3, 1_500_000_000));
    assert_eq!(row.name, "a.txt");
    assert_eq!(row.size, 3);
    assert!(row.is_file);
    assert_eq!(row.last_modified, "Fri, 14 Jul 2017 02:40:00 GMT");
    let row = TemplateEntry::from_entry(&Entry::Dir("sub".to_string()));
    assert_eq!((row.name.as_str(), row.size, row.is_file, row.last_modified.as_str()), ("sub", 0, false, ""));
    let row = TemplateEntry::from_entry(&Entry::File("far".to_string(), 0, i64::MAX));
    assert_eq!(row.last_modified, "");
}
