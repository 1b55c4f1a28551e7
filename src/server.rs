//! Request resolution: from a request, the server's options and what the store
//! knows of the requested path, to the response.
use crate::collab::{format_utc, formatted_utc, media_type, media_type_of, parse_utc_seconds, parsed_utc_seconds};
use crate::fs::{is_dir_in, lookup, path_within_root, EmbeddedFileSystem};
use crate::options::{ends_with_slash, Options};
use crate::range::{range_of, Range};
use crate::text::{starts_with, starts_with_exec};
use vstd::prelude::*;

verus! {

/// The format of `Last-Modified` and `If-Modified-Since`.
pub const LAST_MODIFIED_DATE_FORMAT: &'static str = "%a, %d %b %Y %H:%M:%S GMT";

#[derive(Clone, Copy, Debug, PartialEq, Eq, Structural)]
pub enum Method {
    Get,
    Head,
    Other,
}

/// What the resolution reads of a request.
pub struct Request {
    pub method: Method,
    pub uri: String,
    pub if_modified_since: Option<String>,
    pub range: Option<String>,
}

/// What a store knows of the requested path.
#[derive(Clone, Copy, Debug, PartialEq, Eq, Structural)]
pub struct PathInfo {
    pub within_root: bool,
    pub is_file: bool,
    pub is_dir: bool,
    pub last_modified: Option<i64>,
    pub size: Option<u64>,
}

#[derive(Clone, Copy, Debug, PartialEq, Eq, Structural)]
pub enum Status {
    Success,
    PartialContent,
    Found,
    NotModified,
    Forbidden,
    NotFound,
}

/// What the response carries.
#[derive(Debug)]
pub enum Body {
    Empty,
    /// The listing of this directory path.
    Listing(String),
    /// The file's bytes from `start`, at most `limit` of them.
    File { start: u64, limit: Option<u64> },
}

/// `Content-Range: <unit> <start>-<end>/<size>`.
#[derive(Debug)]
pub struct ContentRange {
    pub unit: String,
    pub start: u64,
    pub end: u64,
    pub size: u64,
}

#[derive(Debug)]
pub struct Response {
    pub status: Status,
    pub location: Option<String>,
    pub content_type: Option<String>,
    pub last_modified: Option<String>,
    pub accept_ranges: bool,
    pub content_length: Option<u64>,
    pub content_range: Option<ContentRange>,
    pub body: Body,
}

/// Where the last segment of `p[..i]` starts: after its last slash.
pub open spec fn last_segment_start(p: Seq<char>, i: int) -> int
    decreases i,
{
    if i <= 0 {
        0
    } else if p[i - 1] == '/' {
        i
    } else {
        last_segment_start(p, i - 1)
    }
}

/// The index of the last dot at or after `from` and before `i`.
pub open spec fn last_dot(p: Seq<char>, from: int, i: int) -> Option<int>
    decreases i - from,
{
    if i <= from {
        None
    } else if p[i - 1] == '.' {
        Some(i - 1)
    } else {
        last_dot(p, from, i - 1)
    }
}

/// The extension of the path's last segment: what follows its last dot,
/// where that dot is not the segment's first character; empty otherwise.
pub open spec fn extension_of(p: Seq<char>) -> Seq<char> {
    let seg = last_segment_start(p, p.len() as int);
    match last_dot(p, seg, p.len() as int) {
        Some(d) => if d > seg { p.subrange(d + 1, p.len() as int) } else { Seq::empty() },
        None => Seq::empty(),
    }
}

fn extension(p: &str) -> (r: String)
    ensures
        r@ == extension_of(p@),
{
    let n = p.unicode_len();
    let mut i: usize = 0;
    let mut seg: usize = 0;
    while i < n
        invariant
            i <= n,
            n == p@.len(),
            seg == last_segment_start(p@, i as int),
            seg <= i,
        decreases n - i,
    {
        if p.get_char(i) == '/' {
            seg = i + 1;
        }
        i = i + 1;
    }
    let mut dot: Option<usize> = None;
    let mut j: usize = seg;
    while j < n
        invariant
            seg <= j <= n,
            n == p@.len(),
            seg == last_segment_start(p@, n as int),
            match dot {
                Some(d) => last_dot(p@, seg as int, j as int) == Some(d as int) && seg <= d < j,
                None => last_dot(p@, seg as int, j as int) is None,
            },
        decreases n - j,
    {
        if p.get_char(j) == '.' {
            dot = Some(j);
        }
        j = j + 1;
    }
    match dot {
        Some(d) => if d > seg {
            p.substring_char(d + 1, n).to_owned()
        } else {
            String::new()
        },
        None => String::new(),
    }
}

/// The path asked for, where the server handles the request: a `GET` or
/// `HEAD` under the prefix; the URI with the prefix taken off.
pub open spec fn handled_path(prefix: Seq<char>, method: Method, uri: Seq<char>) -> Option<Seq<char>> {
    if (method == Method::Get || method == Method::Head) && starts_with(uri, prefix) {
        Some(uri.subrange(prefix.len() as int, uri.len() as int))
    } else {
        None
    }
}

/// The range that is served: the header's, where it is an accepted form and
/// starts inside the file.
pub open spec fn served_range(header: Option<Seq<char>>, size: u64) -> Option<(Seq<char>, nat, Option<nat>)> {
    match header {
        Some(h) => match range_of(h) {
            Some(r) => if r.1 <= size { Some(r) } else { None },
            None => None,
        },
        None => None,
    }
}

pub open spec fn opt_view(s: Option<String>) -> Option<Seq<char>> {
    match s {
        Some(x) => Some(x@),
        None => None,
    }
}

/// Whether a `GET` with this `If-Modified-Since` is answered "not modified".
pub open spec fn not_modified(header: Option<Seq<char>>, modified: i64) -> bool {
    match header {
        Some(h) => parsed_utc_seconds(h, LAST_MODIFIED_DATE_FORMAT@) == Some(modified),
        None => false,
    }
}

fn status_only(status: Status) -> (r: Response)
    ensures
        r.status == status,
        bare(r),
{
    Response {
        status,
        location: None,
        content_type: None,
        last_modified: None,
        accept_ranges: false,
        content_length: None,
        content_range: None,
        body: Body::Empty,
    }
}

/// The path that a request asks for, or `None` where the server leaves the
/// request alone.
pub fn request_path(options: &Options, method: Method, uri: &str) -> (r: Option<String>)
    ensures
        opt_view(r) == handled_path(options.prefix_view(), method, uri@),
{
    let prefix = options.prefix();
    if !(method == Method::Get || method == Method::Head) || !starts_with_exec(uri, prefix) {
        return None;
    }
    let m = prefix.unicode_len();
    let n = uri.unicode_len();
    Some(uri.substring_char(m, n).to_owned())
}

/// A response that carries only headers about the file, if any: no location,
/// no length, no range and no body.
pub open spec fn no_payload(r: Response) -> bool {
    &&& r.content_type is None
    &&& r.last_modified is None
    &&& !r.accept_ranges
    &&& r.content_length is None
    &&& r.content_range is None
    &&& r.body is Empty
}

/// A response that is a status alone.
pub open spec fn bare(r: Response) -> bool {
    no_payload(r) && r.location is None
}

/// What `resolve` answers for a handled request for `path`.
pub open spec fn resolve_post(options: Options, request: &Request, path: Seq<char>, info: PathInfo, r: Response) -> bool {
    &&& (!info.within_root ==> r.status == Status::Forbidden && bare(r))
    &&& (info.within_root && !info.is_file && info.is_dir && options.listing_allowed()
            && !ends_with_slash(path) && path.len() > 0 ==> r.status == Status::Found
            && opt_view(r.location) == Some(request.uri@.push('/')) && no_payload(r))
    &&& (info.within_root && !info.is_file && info.is_dir && options.listing_allowed()
            && (ends_with_slash(path) || path.len() == 0) ==> r.status == Status::Success
            && r.location is None && (r.body matches Body::Listing(d) && d@ == path))
    &&& (info.within_root && !info.is_file && !(info.is_dir && options.listing_allowed())
            ==> r.status == Status::NotFound && bare(r))
    &&& (info.within_root && info.is_file && (info.last_modified is None || info.size is None)
            ==> r.status == Status::Forbidden && bare(r))
    &&& (info.within_root && info.is_file && info.last_modified is Some && info.size is Some ==> ({
            let modified = info.last_modified->0;
            let size = info.size->0;
            if request.method == Method::Get && not_modified(opt_view(request.if_modified_since), modified) {
                r.status == Status::NotModified && bare(r)
            } else {
                &&& opt_view(r.content_type) == Some(media_type_of(extension_of(path)))
                &&& r.location is None
                &&& r.accept_ranges
                &&& if request.method != Method::Get {
                    r.status == Status::Success && r.content_length == Some(size) && r.body is Empty
                        && r.content_range is None && r.last_modified is None
                } else {
                    &&& opt_view(r.last_modified) == formatted_utc(modified, LAST_MODIFIED_DATE_FORMAT@)
                    &&& match served_range(opt_view(request.range), size) {
                        None => r.status == Status::Success && r.content_length == Some(size)
                            && r.content_range is None
                            && r.body == (Body::File { start: 0, limit: None }),
                        Some((unit, start, Some(end))) => r.status == Status::PartialContent
                            && r.content_length == Some((end - start + 1) as u64)
                            && (r.content_range matches Some(cr) && cr.unit@ == unit
                                && cr.start == start && cr.end == end && cr.size == size)
                            && r.body == (Body::File { start: start as u64, limit: Some((end - start + 1) as u64) }),
                        Some((unit, start, None)) => r.status == Status::PartialContent
                            && r.content_length == Some((size - start) as u64)
                            && (r.content_range matches Some(cr) && cr.unit@ == unit
                                && cr.start == start && cr.end == size && cr.size == size)
                            && r.body == (Body::File { start: start as u64, limit: None }),
                    }
                }
            }
        }))
}

/// The response to a handled request for `path`, given what the store knows of it.
#[verifier::rlimit(50)]
pub fn resolve(options: &Options, request: &Request, path: &str, info: &PathInfo) -> (r: Response)
    ensures
        resolve_post(*options, request, path@, *info, r),
{
    if !info.within_root {
        return status_only(Status::Forbidden);
    }
    if !info.is_file {
        if info.is_dir && options.allow_directory_listing() {
            let n = path.unicode_len();
            if n > 0 && path.get_char(n - 1) != '/' {
                let mut location = request.uri.clone();
                location.append("/");
                proof {
                    reveal_strlit("/");
                }
                assert(location@ =~= request.uri@.push('/'));
                let mut r = status_only(Status::Found);
                r.location = Some(location);
                return r;
            }
            let mut r = status_only(Status::Success);
            r.body = Body::Listing(path.to_owned());
            return r;
        }
        return status_only(Status::NotFound);
    }
    let (modified, size) = match (info.last_modified, info.size) {
        (Some(m), Some(s)) => (m, s),
        _ => {
            return status_only(Status::Forbidden);
        },
    };
    if request.method == Method::Get {
        if let Some(h) = &request.if_modified_since {
            if parse_utc_seconds(h.as_str(), LAST_MODIFIED_DATE_FORMAT) == Some(modified) {
                return status_only(Status::NotModified);
            }
        }
    }
    let ext = extension(path);
    let content_type = media_type(ext.as_str());
    let mut r = status_only(Status::Success);
    r.content_type = Some(content_type);
    r.accept_ranges = true;
    if request.method != Method::Get {
        r.content_length = Some(size);
        return r;
    }
    r.last_modified = format_utc(modified, LAST_MODIFIED_DATE_FORMAT);
    let range = match &request.range {
        Some(h) => match Range::parse(h.as_str()) {
            Some(range) => if range.start <= size {
                Some(range)
            } else {
                None
            },
            None => None,
        },
        None => None,
    };
    match range {
        None => {
            r.content_length = Some(size);
            r.body = Body::File { start: 0, limit: None };
        },
        Some(range) => {
            let start = range.start;
            let (length, end, limit) = match range.end {
                Some(end) => (end - start + 1, end, Some(end - start + 1)),
                None => (size - start, size, None),
            };
            r.status = Status::PartialContent;
            r.content_length = Some(length);
            r.content_range = Some(ContentRange { unit: range.typ, start, end, size });
            r.body = Body::File { start, limit };
        },
    }
    r
}

/// What an embedded store knows of `path`.
pub open spec fn embedded_info(fs: &EmbeddedFileSystem, path: Seq<char>) -> PathInfo {
    PathInfo {
        within_root: path_within_root(path),
        is_file: lookup(fs.records(), path) is Some,
        is_dir: is_dir_in(fs.records(), path),
        last_modified: match lookup(fs.records(), path) {
            Some(rec) => Some(rec.last_modified),
            None => None,
        },
        size: match lookup(fs.records(), path) {
            Some(rec) => Some(rec.length),
            None => None,
        },
    }
}

impl EmbeddedFileSystem {
    /// What this store knows of `path`.
    pub fn info(&self, path: &str) -> (r: PathInfo)
        requires
            self.wf(),
        ensures
            r == embedded_info(self, path@),
    {
        PathInfo {
            within_root: self.path_valid(path),
            is_file: self.is_file(path),
            is_dir: self.is_dir(path),
            last_modified: match self.last_modified(path) {
                Ok(t) => Some(t),
                Err(_) => None,
            },
            size: match self.size(path) {
                Ok(n) => Some(n),
                Err(_) => None,
            },
        }
    }
}

/// A static file server over a store, with its options.
pub struct StaticFileServer<T> {
    fs: T,
    options: Options,
}

impl<T> StaticFileServer<T> {
    pub closed spec fn store(&self) -> T {
        self.fs
    }

    pub closed spec fn settings(&self) -> Options {
        self.options
    }

    pub fn new(fs: T, options: Options) -> (r: StaticFileServer<T>)
        ensures
            r.store() == fs,
            r.settings() == options,
    {
        StaticFileServer { fs, options }
    }

    pub fn fs(&self) -> (r: &T)
        ensures
            *r == self.store(),
    {
        &self.fs
    }

    pub fn options(&self) -> (r: &Options)
        ensures
            *r == self.settings(),
    {
        &self.options
    }
}

impl StaticFileServer<EmbeddedFileSystem> {
    /// The response to `request`, or `None` where the server leaves it alone.
    pub fn handle(&self, request: &Request) -> (r: Option<Response>)
        requires
            self.store().wf(),
        ensures
            r is Some <==> handled_path(self.settings().prefix_view(), request.method, request.uri@) is Some,
            r matches Some(resp) ==> ({
                let path = handled_path(self.settings().prefix_view(), request.method, request.uri@)->0;
                resolve_post(self.settings(), request, path, embedded_info(&self.store(), path), resp)
            }),
    {
        match request_path(&self.options, request.method, request.uri.as_str()) {
            Some(path) => {
                let info = self.fs.info(path.as_str());
                Some(resolve(&self.options, request, path.as_str(), &info))
            },
            None => None,
        }
    }
}

/// Where the request for `/` goes, the store always has a directory.
pub proof fn lemma_root_is_dir(fs: &EmbeddedFileSystem)
    ensures
        embedded_info(fs, seq!['/']).is_dir,
{
    assert(seq!['/'].drop_first() =~= Seq::<char>::empty());
}

/// A `Range` header that names several ranges is not served as a range: the
/// whole file comes back.
pub proof fn lemma_multipart_range_serves_whole(header: Seq<char>, i: int, size: u64)
    requires
        0 <= i < header.len(),
        header[i] == ',',
    ensures
        served_range(Some(header), size) is None,
{
    crate::text::lemma_find_char_some(header, ',', 0);
}

} // verus!
