use rocket_static_fs::fs::{EmbeddedFileSystem, LocalFileSystem};
use rocket_static_fs::{
    resolve, Body, Method, OptionsBuilder, PathInfo, Range, Request, StaticFileServer, Status,
};

fn be(n: u64) -> Vec<u8> {
    n.to_be_bytes().to_vec()
}

fn hello_package() -> Vec<u8> {
    let path = "hello.txt";
    let mut meta = be(path.len() as u64);
    meta.extend(path.as_bytes());
    meta.extend(1_500_000_000i64.to_be_bytes());
    meta.extend(be(12));
    meta.extend(be(0));
    let mut out = be(meta.len() as u64);
    out.extend(meta);
    out.extend(b"Hello World!");
    out
}

fn get(uri: &str) -> Request {
    Request { method: Method::Get, uri: uri.to_string(), if_modified_since: None, range: None }
}

fn body_of(fs: &EmbeddedFileSystem, path: &str, body: &Body) -> Vec<u8> {
    match body {
        Body::File { start, limit } => {
            let bytes = fs.open(path, Some(*start)).unwrap();
            match limit {
                Some(n) => bytes[..(*n as usize).min(bytes.len())].to_vec(),
                None => bytes.to_vec(),
            }
        }
        _ => panic!("no file body"),
    }
}

fn file_info(size: u64, modified: i64) -> PathInfo {
    PathInfo {
        within_root: true,
        is_file: true,
        is_dir: false,
        last_modified: Some(modified),
        size: Some(size),
    }
}

fn dir_info() -> PathInfo {
    PathInfo { within_root: true, is_file: false, is_dir: true, last_modified: None, size: None }
}

#[test]
fn test_parse_range_header() {
    let range: Range = "bytes=0-1023".parse().expect("unable to parse Range header");
    assert_eq!(range.start, 0);
    assert_eq!(range.end, Some(1023));
    assert_eq!(range.typ, "bytes");
}

#[test]
fn range_header_forms() {
    let open: Range = "bytes=5-".parse().unwrap();
    assert_eq!((open.start, open.end), (5, None));
    assert_eq!(open.len(), None);
    let closed: Range = "bytes=5-10".parse().unwrap();
    assert_eq!(closed.len(), Some(6));
    let odd: Range = "items=0-0".parse().unwrap();
    assert_eq!(odd.typ, "items");
    assert!("bytes=0-1,5-6".parse::<Range>().is_err());
    assert!("bytes=10-5".parse::<Range>().is_err());
    assert!("bytes=-5".parse::<Range>().is_err());
    assert!("bytes 0-5".parse::<Range>().is_err());
    assert!("bytes=0-5x".parse::<Range>().is_err());
    assert!("bytes=99999999999999999999-".parse::<Range>().is_err());
    assert!("bytes=0-18446744073709551615".parse::<Range>().is_err());
    assert!("bytes=1-18446744073709551615".parse::<Range>().is_ok());
}

#[test]
fn test_with_embedded_filesystem() {
    let fs = EmbeddedFileSystem::from_bytes(&hello_package()).expect("unable to load test.package");
    let options = OptionsBuilder::new().prefix("/test").build();
    let server = StaticFileServer::new(fs, options);

    let resp = server.handle(&get("/test/hello.txt")).unwrap();
    assert_eq!(resp.status, Status::Success);
    assert_eq!(resp.content_type.as_deref(), Some("text/plain"));
    assert_eq!(body_of(server.fs(), "hello.txt", &resp.body), b"Hello World!");
    let last_modified = resp.last_modified.clone().expect("no last modified header");

    let mut req = get("/test/hello.txt");
    req.if_modified_since = Some(last_modified);
    assert_eq!(server.handle(&req).unwrap().status, Status::NotModified);

    let mut req = get("/test/hello.txt");
    req.range = Some("bytes=5-10".to_string());
    let resp = server.handle(&req).unwrap();
    assert_eq!(resp.status, Status::PartialContent);
    assert_eq!(resp.content_length, Some(6));
    assert_eq!(body_of(server.fs(), "hello.txt", &resp.body), b" World");

    let mut req = get("/test/hello.txt");
    req.range = Some("bytes=0-".to_string());
    let resp = server.handle(&req).unwrap();
    assert_eq!(resp.status, Status::PartialContent);
    assert_eq!(body_of(server.fs(), "hello.txt", &resp.body).len(), 12);
}

#[test]
fn requests_outside_the_prefix_or_method_are_left_alone() {
    let fs = EmbeddedFileSystem::from_bytes(&hello_package()).unwrap();
    let server = StaticFileServer::new(fs, OptionsBuilder::new().prefix("/test").build());
    assert!(server.handle(&get("/other/hello.txt")).is_none());
    let mut req = get("/test/hello.txt");
    req.method = Method::Other;
    assert!(server.handle(&req).is_none());
    req.method = Method::Head;
    let resp = server.handle(&req).unwrap();
    assert_eq!(resp.status, Status::Success);
    assert_eq!(resp.content_length, Some(12));
    assert!(resp.accept_ranges);
    assert!(matches!(resp.body, Body::Empty));
}

#[test]
fn traversal_is_forbidden_and_missing_is_not_found() {
    let fs = EmbeddedFileSystem::from_bytes(&hello_package()).unwrap();
    let server = StaticFileServer::new(fs, OptionsBuilder::new().build());
    assert_eq!(server.handle(&get("/../secret")).unwrap().status, Status::Forbidden);
    assert_eq!(server.handle(&get("/missing.txt")).unwrap().status, Status::NotFound);
}

#[test]
fn if_modified_since_must_match_to_the_second() {
    let options = OptionsBuilder::new().build();
    let info = file_info(12, 1_500_000_000);
    let mut req = get("/hello.txt");
    req.if_modified_since = Some("Fri, 14 Jul 2017 02:40:00 GMT".to_string());
    assert_eq!(resolve(&options, &req, "hello.txt", &info).status, Status::NotModified);
    req.if_modified_since = Some("Fri, 14 Jul 2017 02:39:59 GMT".to_string());
    assert_eq!(resolve(&options, &req, "hello.txt", &info).status, Status::Success);
    req.if_modified_since = Some("Fri, 14 Jul 2017 02:40:01 GMT".to_string());
    assert_eq!(resolve(&options, &req, "hello.txt", &info).status, Status::Success);
    req.method = Method::Head;
    req.if_modified_since = Some("Fri, 14 Jul 2017 02:40:00 GMT".to_string());
    assert_eq!(resolve(&options, &req, "hello.txt", &info).status, Status::Success);
}

#[test]
fn last_modified_header_text() {
    let options = OptionsBuilder::new().build();
    let resp = resolve(&options, &get("/hello.txt"), "hello.txt", &file_info(12, 1_500_000_000));
    assert_eq!(resp.last_modified.as_deref(), Some("Fri, 14 Jul 2017 02:40:00 GMT"));
}

#[test]
fn multipart_range_serves_the_whole_file() {
    let options = OptionsBuilder::new().build();
    let mut req = get("/hello.txt");
    req.range = Some("bytes=0-1,5-6".to_string());
    let resp = resolve(&options, &req, "hello.txt", &file_info(12, 0));
    assert_eq!(resp.status, Status::Success);
    assert_eq!(resp.content_length, Some(12));
    assert!(resp.content_range.is_none());
}

#[test]
fn range_headers_and_lengths() {
    let options = OptionsBuilder::new().build();
    let mut req = get("/hello.txt");
    req.range = Some("bytes=5-10".to_string());
    let resp = resolve(&options, &req, "hello.txt", &file_info(12, 0));
    let cr = resp.content_range.unwrap();
    assert_eq!((cr.unit.as_str(), cr.start, cr.end, cr.size), ("bytes", 5, 10, 12));
    req.range = Some("bytes=4-".to_string());
    let resp = resolve(&options, &req, "hello.txt", &file_info(12, 0));
    assert_eq!(resp.status, Status::PartialContent);
    assert_eq!(resp.content_length, Some(8));
    let cr = resp.content_range.unwrap();
    assert_eq!((cr.start, cr.end, cr.size), (4, 12, 12));
    req.range = Some("bytes=20-".to_string());
    let resp = resolve(&options, &req, "hello.txt", &file_info(12, 0));
    assert_eq!(resp.status, Status::Success);
    assert_eq!(resp.content_length, Some(12));
}

#[test]
fn content_type_from_extension() {
    let options = OptionsBuilder::new().build();
    let info = file_info(1, 0);
    let ct = |p: &str| resolve(&options, &get(p), p, &info).content_type.unwrap();
    assert_eq!(ct("lib.rs"), "text/x-rust");
    assert_eq!(ct("a/b.html"), "text/html");
    assert_eq!(ct("README"), "application/octet-stream");
    assert_eq!(ct(".hidden"), "application/octet-stream");
    assert_eq!(ct("a.b/file"), "application/octet-stream");
}

#[test]
fn test_with_local_filesystem() {
    let fs = LocalFileSystem::new("src");
    assert_eq!(fs.path(), "src");
    let options = OptionsBuilder::new().prefix("/test").build();
    let path = rocket_static_fs::request_path(&options, Method::Get, "/test/lib.rs").unwrap();
    assert_eq!(path, "lib.rs");
    let info = file_info(5000, 1_500_000_000);
    let resp = resolve(&options, &get("/test/lib.rs"), &path, &info);
    assert_eq!(resp.status, Status::Success);
    assert_eq!(resp.content_type.as_deref(), Some("text/x-rust"));
    let last_modified = resp.last_modified.clone().expect("no last modified header");

    let mut req = get("/test/lib.rs");
    req.if_modified_since = Some(last_modified);
    assert_eq!(resolve(&options, &req, &path, &info).status, Status::NotModified);

    let mut req = get("/test/lib.rs");
    req.range = Some("bytes=5-10".to_string());
    let resp = resolve(&options, &req, &path, &info);
    assert_eq!(resp.status, Status::PartialContent);
    assert_eq!(resp.content_length, Some(6));
    assert!(matches!(resp.body, Body::File { start: 5, limit: Some(6) }));
}

#[test]
fn local_paths_stay_inside_the_served_directory() {
    let fs = LocalFileSystem::new("src");
    assert!(fs.path_valid("lib.rs"));
    assert!(fs.path_valid("a/b.txt"));
    assert!(!fs.path_valid("/etc/passwd"));
    assert!(!fs.path_valid("../Cargo.toml"));
    assert!(!fs.path_valid("a/../../x"));
    assert!(!fs.path_valid("C:/windows"));
    assert!(!fs.path_valid("a\\..\\..\\x"));
    let options = OptionsBuilder::new().build();
    let path = rocket_static_fs::request_path(&options, Method::Get, "//etc/passwd").unwrap();
    assert_eq!(path, "/etc/passwd");
    assert!(!fs.path_valid(&path));
}

#[test]
fn package_directories_redirect_then_list() {
    let path = "inner/other.txt";
    let mut meta = be(path.len() as u64);
    meta.extend(path.as_bytes());
    meta.extend(0i64.to_be_bytes());
    meta.extend(be(1));
    meta.extend(be(0));
    let mut bytes = be(meta.len() as u64);
    bytes.extend(meta);
    bytes.extend(b"x");
    let fs = EmbeddedFileSystem::from_bytes(&bytes).unwrap();
    let server =
        StaticFileServer::new(fs, OptionsBuilder::new().allow_directory_listing(true).build());
    let resp = server.handle(&get("/inner")).unwrap();
    assert_eq!(resp.status, Status::Found);
    assert_eq!(resp.location.as_deref(), Some("/inner/"));
    assert!(matches!(resp.body, Body::Empty));
    let resp = server.handle(&get("/inner/")).unwrap();
    assert_eq!(resp.status, Status::Success);
    match resp.body {
        Body::Listing(ref d) => {
            assert_eq!(d, "inner/");
            assert_eq!(server.fs().entries(d).len(), 1);
        }
        _ => panic!("no listing"),
    }
}

#[test]
fn not_found_and_forbidden_carry_nothing() {
    let options = OptionsBuilder::new().build();
    let resp = resolve(&options, &get("/src"), "src", &dir_info());
    assert!(resp.location.is_none() && resp.content_length.is_none());
    assert!(matches!(resp.body, Body::Empty));
    let mut info = file_info(3, 0);
    info.within_root = false;
    let resp = resolve(&options, &get("/x"), "x", &info);
    assert_eq!(resp.status, Status::Forbidden);
    assert!(matches!(resp.body, Body::Empty));
}

#[test]
fn test_directory_listing_with_local_filesystem() {
    let options = OptionsBuilder::new().allow_directory_listing(true).build();
    let path = rocket_static_fs::request_path(&options, Method::Get, "/src").unwrap();
    let resp = resolve(&options, &get("/src"), &path, &dir_info());
    assert_eq!(resp.status, Status::Found);
    assert_eq!(resp.location.as_deref(), Some("/src/"));

    let path = rocket_static_fs::request_path(&options, Method::Get, "/src/").unwrap();
    let resp = resolve(&options, &get("/src/"), &path, &dir_info());
    assert_eq!(resp.status, Status::Success);
    assert!(matches!(resp.body, Body::Listing(ref d) if d == "src/"));
}

#[test]
fn directory_without_listing_is_not_found() {
    let options = OptionsBuilder::new().build();
    let resp = resolve(&options, &get("/src"), "src", &dir_info());
    assert_eq!(resp.status, Status::NotFound);
}

#[test]
fn options_defaults_and_prefix_normalization() {
    let options = OptionsBuilder::new().build();
    assert_eq!(options.prefix(), "/");
    assert!(!options.allow_directory_listing());
    let options = OptionsBuilder::new().prefix("/assets").allow_directory_listing(true).build();
    assert_eq!(options.prefix(), "/assets/");
    assert!(options.allow_directory_listing());
    let options = OptionsBuilder::new().prefix("/assets/").build();
    assert_eq!(options.prefix(), "/assets/");
    let d: rocket_static_fs::Options = Default::default();
    assert_eq!(d.prefix(), "/");
}
