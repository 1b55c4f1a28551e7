//! The package format: an eight-byte big-endian length of the metadata, the
//! metadata records, then the contents of every file one after the other.
//! A record is a path length, the path in UTF-8, the modification time in
//! Unix seconds, the file's length and its offset in the contents, each
//! number eight bytes big-endian.
use vstd::prelude::*;
use vstd::utf8::{decode_utf8, encode_utf8, valid_utf8};

verus! {

broadcast use {vstd::utf8::encode_utf8_decode_utf8, vstd::utf8::encode_utf8_valid_utf8};

/// Where one file's bytes lie in a package, and when it was last changed.
#[derive(Clone, Copy, Debug, PartialEq, Eq)]
pub struct FileRecord {
    pub last_modified: i64,
    pub length: u64,
    pub offset: u64,
}

/// Bytes that are not a package.
#[derive(Debug, PartialEq, Eq)]
pub struct FormatError;

/// The number that `s` writes in big-endian order.
pub open spec fn be_value(s: Seq<u8>) -> nat
    decreases s.len(),
{
    if s.len() == 0 {
        0
    } else {
        be_value(s.drop_last()) * 256 + s.last() as nat
    }
}

/// The unsigned eight-byte number at `pos`.
pub open spec fn u64_at(b: Seq<u8>, pos: int) -> nat {
    be_value(b.subrange(pos, pos + 8))
}

/// The signed (two's complement) eight-byte number at `pos`.
pub open spec fn i64_at(b: Seq<u8>, pos: int) -> int {
    let v = u64_at(b, pos);
    if v >= 0x8000_0000_0000_0000 {
        v - 0x1_0000_0000_0000_0000
    } else {
        v as int
    }
}

/// The records that `b[pos..end]` holds, where it holds whole records only.
pub open spec fn records_from(b: Seq<u8>, pos: int, end: int) -> Option<Seq<(Seq<char>, FileRecord)>>
    decreases end - pos,
{
    if pos < 0 || end > b.len() || pos > end {
        None
    } else if pos == end {
        Some(Seq::empty())
    } else if pos + 8 > end {
        None
    } else {
        let path_len = u64_at(b, pos);
        let next = pos + 8 + path_len + 24;
        if next > end {
            None
        } else {
            let path = b.subrange(pos + 8, pos + 8 + path_len);
            let at = pos + 8 + path_len;
            let record = FileRecord {
                last_modified: i64_at(b, at) as i64,
                length: u64_at(b, at + 8) as u64,
                offset: u64_at(b, at + 16) as u64,
            };
            if !valid_utf8(path) {
                None
            } else {
                match records_from(b, next, end) {
                    Some(rest) => Some(seq![(decode_utf8(path), record)] + rest),
                    None => None,
                }
            }
        }
    }
}

/// No two records have the same path.
pub open spec fn paths_unique(rs: Seq<(Seq<char>, FileRecord)>) -> bool {
    forall|i: int, j: int| 0 <= i < j < rs.len() ==> #[trigger] rs[i].0 != #[trigger] rs[j].0
}

/// Every record addresses bytes inside a blob of `data_len` bytes.
pub open spec fn records_fit(rs: Seq<(Seq<char>, FileRecord)>, data_len: nat) -> bool {
    forall|i: int| 0 <= i < rs.len() ==> #[trigger] rs[i].1.offset + rs[i].1.length <= data_len
}

/// The records and the data blob of a package, where `b` is one.
pub open spec fn package_of(b: Seq<u8>) -> Option<(Seq<(Seq<char>, FileRecord)>, Seq<u8>)> {
    if b.len() < 8 || 8 + u64_at(b, 0) > b.len() {
        None
    } else {
        let end = 8 + u64_at(b, 0) as int;
        match records_from(b, 8, end) {
            None => None,
            Some(rs) => {
                let data = b.subrange(end, b.len() as int);
                if paths_unique(rs) && records_fit(rs, data.len()) {
                    Some((rs, data))
                } else {
                    None
                }
            },
        }
    }
}

/// Relies on byteorder's `BigEndian::read_u64`: the eight bytes at `pos`, read big-endian.
#[verifier::external_body]
fn read_u64_at(b: &[u8], pos: usize) -> (r: u64)
    requires
        pos + 8 <= b@.len(),
    ensures
        r as nat == u64_at(b@, pos as int),
{
    <byteorder::BigEndian as byteorder::ByteOrder>::read_u64(&b[pos..])
}

/// Relies on byteorder's `BigEndian::read_i64`: the eight bytes at `pos`, read
/// big-endian as a two's complement number.
#[verifier::external_body]
fn read_i64_at(b: &[u8], pos: usize) -> (r: i64)
    requires
        pos + 8 <= b@.len(),
    ensures
        r as int == i64_at(b@, pos as int),
{
    <byteorder::BigEndian as byteorder::ByteOrder>::read_i64(&b[pos..])
}

/// Relies on `std::str::from_utf8`: it accepts exactly the valid UTF-8 byte
/// strings, and the text it gives back is encoded by those bytes.
#[verifier::external_body]
fn utf8_string(b: &[u8]) -> (r: Option<String>)
    ensures
        r is Some <==> valid_utf8(b@),
        r matches Some(s) ==> encode_utf8(s@) == b@,
{
    match std::str::from_utf8(b) {
        Ok(s) => Some(s.to_string()),
        Err(_) => None,
    }
}

/// A decoded package: an index of records with distinct paths, and the data
/// blob that they address.
pub struct Package {
    files: Vec<(String, FileRecord)>,
    data: Vec<u8>,
}

pub open spec fn record_view(e: (String, FileRecord)) -> (Seq<char>, FileRecord) {
    (e.0@, e.1)
}

/// The index of the record with path `path`, if there is one.
fn find_path(files: &Vec<(String, FileRecord)>, path: &String) -> (r: Option<usize>)
    ensures
        r matches Some(j) ==> j < files@.len() && files@[j as int].0@ == path@,
        r is None ==> forall|k: int| 0 <= k < files@.len() ==> #[trigger] files@[k].0@ != path@,
{
    let mut j: usize = 0;
    while j < files.len()
        invariant
            j <= files@.len(),
            forall|k: int| 0 <= k < j ==> #[trigger] files@[k].0@ != path@,
        decreases files@.len() - j,
    {
        if files[j].0 == *path {
            return Some(j);
        }
        j = j + 1;
    }
    None
}

impl Package {
    /// The records, in the order in which the package holds them.
    pub closed spec fn records(&self) -> Seq<(Seq<char>, FileRecord)> {
        self.files@.map_values(|e: (String, FileRecord)| record_view(e))
    }

    /// The data blob.
    pub closed spec fn blob(&self) -> Seq<u8> {
        self.data@
    }

    pub open spec fn wf(&self) -> bool {
        paths_unique(self.records()) && records_fit(self.records(), self.blob().len())
    }

    pub fn file_count(&self) -> (r: usize)
        ensures
            r == self.records().len(),
    {
        self.files.len()
    }

    pub fn path(&self, i: usize) -> (r: &String)
        requires
            i < self.records().len(),
        ensures
            r@ == self.records()[i as int].0,
    {
        &self.files[i].0
    }

    pub fn record(&self, i: usize) -> (r: FileRecord)
        requires
            i < self.records().len(),
        ensures
            r == self.records()[i as int].1,
    {
        self.files[i].1
    }

    pub fn data(&self) -> (r: &[u8])
        ensures
            r@ == self.blob(),
    {
        self.data.as_slice()
    }

    pub fn from_bytes(bytes: &[u8]) -> (r: Result<Package, FormatError>)
        ensures
            r is Ok <==> package_of(bytes@) is Some,
            r matches Ok(p) ==> p.wf() && package_of(bytes@) == Some((p.records(), p.blob())),
    {
        let n = bytes.len();
        if n < 8 {
            return Err(FormatError);
        }
        let meta_len = read_u64_at(bytes, 0);
        if meta_len > (n - 8) as u64 {
            return Err(FormatError);
        }
        let end = 8 + meta_len as usize;
        let data_len = n - end;
        let ghost b = bytes@;
        let mut files: Vec<(String, FileRecord)> = Vec::new();
        let mut pos: usize = 8;
        while pos < end
            invariant
                b == bytes@,
                n == b.len(),
                8 <= pos <= end <= n,
                end == 8 + u64_at(b, 0),
                data_len == n - end,
                records_from(b, 8, end as int) == match records_from(b, pos as int, end as int) {
                    Some(rest) => Some(files@.map_values(|e: (String, FileRecord)| record_view(e)) + rest),
                    None => None,
                },
                paths_unique(files@.map_values(|e: (String, FileRecord)| record_view(e))),
                records_fit(files@.map_values(|e: (String, FileRecord)| record_view(e)), data_len as nat),
            decreases end - pos,
        {
            let ghost done = files@.map_values(|e: (String, FileRecord)| record_view(e));
            if end - pos < 8 {
                return Err(FormatError);
            }
            let path_len = read_u64_at(bytes, pos);
            if path_len > (end - pos - 8) as u64 || (end - pos - 8) as u64 - path_len < 24 {
                return Err(FormatError);
            }
            let path_end = pos + 8 + path_len as usize;
            let path = match utf8_string(&bytes[pos + 8..path_end]) {
                Some(s) => s,
                None => {
                    return Err(FormatError);
                },
            };
            let record = FileRecord {
                last_modified: read_i64_at(bytes, path_end),
                length: read_u64_at(bytes, path_end + 8),
                offset: read_u64_at(bytes, path_end + 16),
            };
            let next = path_end + 24;
            assert(path@ == decode_utf8(b.subrange(pos + 8, path_end as int)));
            assert(records_from(b, pos as int, end as int) == match records_from(b, next as int, end as int) {
                Some(rest) => Some(seq![(path@, record)] + rest),
                None => None,
            });
            match find_path(&files, &path) {
                Some(j) => {
                    proof {
                        match records_from(b, next as int, end as int) {
                            Some(rest) => {
                                let all = done + (seq![(path@, record)] + rest);
                                assert(done[j as int].0 == path@);
                                assert(all[j as int].0 == all[done.len() as int].0);
                                assert(!paths_unique(all));
                            },
                            None => {},
                        }
                    }
                    return Err(FormatError);
                },
                None => {},
            }
            if record.offset > data_len as u64 || record.length > data_len as u64 - record.offset {
                proof {
                    match records_from(b, next as int, end as int) {
                        Some(rest) => {
                            let all = done + (seq![(path@, record)] + rest);
                            assert(all[done.len() as int].1 == record);
                        },
                        None => {},
                    }
                }
                return Err(FormatError);
            }
            files.push((path, record));
            proof {
                let now = files@.map_values(|e: (String, FileRecord)| record_view(e));
                assert(now =~= done.push((path@, record)));
                match records_from(b, next as int, end as int) {
                    Some(rest) => {
                        assert(done + (seq![(path@, record)] + rest) =~= now + rest);
                    },
                    None => {},
                }
            }
            pos = next;
        }
        proof {
            let done = files@.map_values(|e: (String, FileRecord)| record_view(e));
            assert(done + Seq::<(Seq<char>, FileRecord)>::empty() =~= done);
        }
        let data = vstd::slice::slice_to_vec(&bytes[end..n]);
        let p = Package { files, data };
        assert(p.records() == files@.map_values(|e: (String, FileRecord)| record_view(e)));
        Ok(p)
    }
}

/// A file to be packed: its package path, its modification time in Unix
/// seconds and its contents.
pub struct PackageFile {
    pub path: String,
    pub last_modified: i64,
    pub contents: Vec<u8>,
}

pub open spec fn file_view(f: PackageFile) -> (Seq<char>, i64, Seq<u8>) {
    (f.path@, f.last_modified, f.contents@)
}

/// The last `k` bytes of `n` in big-endian order.
pub open spec fn be_bytes(n: nat, k: nat) -> Seq<u8>
    decreases k,
{
    if k == 0 {
        Seq::empty()
    } else {
        be_bytes(n / 256, (k - 1) as nat).push((n % 256) as u8)
    }
}

/// The eight big-endian bytes of `n`.
pub open spec fn be8(n: nat) -> Seq<u8> {
    be_bytes(n, 8)
}

pub open spec fn pow256(k: nat) -> nat
    decreases k,
{
    if k == 0 {
        1
    } else {
        256 * pow256((k - 1) as nat)
    }
}

proof fn lemma_be_bytes_value(n: nat, k: nat)
    ensures
        be_bytes(n, k).len() == k,
        be_value(be_bytes(n, k)) == n % pow256(k),
    decreases k,
{
    if k > 0 {
        lemma_be_bytes_value(n / 256, (k - 1) as nat);
        let s = be_bytes(n, k);
        assert(s.drop_last() =~= be_bytes(n / 256, (k - 1) as nat));
        assert(pow256((k - 1) as nat) > 0) by {
            lemma_pow256_positive((k - 1) as nat);
        }
        vstd::arithmetic::div_mod::lemma_mod_breakdown(n as int, 256, pow256((k - 1) as nat) as int);
        assert(n % 256 < 256);
    }
}

proof fn lemma_pow256_positive(k: nat)
    ensures
        pow256(k) > 0,
    decreases k,
{
    if k > 0 {
        lemma_pow256_positive((k - 1) as nat);
    }
}

/// Eight big-endian bytes read back give the number written.
proof fn lemma_be8_round_trip(n: nat)
    requires
        n < 0x1_0000_0000_0000_0000,
    ensures
        be8(n).len() == 8,
        be_value(be8(n)) == n,
{
    lemma_be_bytes_value(n, 8);
    reveal_with_fuel(pow256, 9);
    assert(pow256(8) == 0x1_0000_0000_0000_0000);
}

/// The same for a signed number in two's complement.
proof fn lemma_be8_signed_round_trip(b: Seq<u8>, pos: int, t: i64)
    requires
        0 <= pos,
        pos + 8 <= b.len(),
        b.subrange(pos, pos + 8) == be8_signed(t),
    ensures
        i64_at(b, pos) == t,
{
    if t < 0 {
        lemma_be8_round_trip((t + 0x1_0000_0000_0000_0000) as nat);
    } else {
        lemma_be8_round_trip(t as nat);
    }
}

/// The eight big-endian bytes of `n` in two's complement.
pub open spec fn be8_signed(n: i64) -> Seq<u8> {
    if n < 0 {
        be8((n + 0x1_0000_0000_0000_0000) as nat)
    } else {
        be8(n as nat)
    }
}

/// The contents of the files, one after the other.
pub open spec fn contents_of(fs: Seq<(Seq<char>, i64, Seq<u8>)>) -> Seq<u8>
    decreases fs.len(),
{
    if fs.len() == 0 {
        Seq::empty()
    } else {
        contents_of(fs.drop_last()) + fs.last().2
    }
}

/// The metadata record of file `f` whose contents start at `offset`.
pub open spec fn record_bytes(f: (Seq<char>, i64, Seq<u8>), offset: nat) -> Seq<u8> {
    be8(encode_utf8(f.0).len()) + encode_utf8(f.0) + be8_signed(f.1) + be8(f.2.len()) + be8(offset)
}

/// The metadata records of the files, each with the offset of its contents.
pub open spec fn records_bytes(fs: Seq<(Seq<char>, i64, Seq<u8>)>) -> Seq<u8>
    decreases fs.len(),
{
    if fs.len() == 0 {
        Seq::empty()
    } else {
        records_bytes(fs.drop_last()) + record_bytes(fs.last(), contents_of(fs.drop_last()).len())
    }
}

/// The package of the files, in the order given.
pub open spec fn encoding_of(fs: Seq<(Seq<char>, i64, Seq<u8>)>) -> Seq<u8> {
    be8(records_bytes(fs).len()) + records_bytes(fs) + contents_of(fs)
}

/// `s` holds the files of `fs` in ascending order of path.
pub open spec fn sorted_by_path(s: Seq<PackageFile>, fs: Seq<PackageFile>) -> bool {
    &&& s.to_multiset() == fs.to_multiset()
    &&& forall|i: int| 0 < i < s.len() ==> crate::text::name_le(#[trigger] s[i - 1].path@, s[i].path@)
}

/// Relies on byteorder's `BigEndian::write_u64`: `n` as eight big-endian bytes.
#[verifier::external_body]
fn u64_bytes(n: u64) -> (r: Vec<u8>)
    ensures
        r@ == be8(n as nat),
{
    let mut buf = vec![0u8; 8];
    <byteorder::BigEndian as byteorder::ByteOrder>::write_u64(&mut buf, n);
    buf
}

/// Relies on byteorder's `BigEndian::write_i64`: `n` as eight big-endian bytes
/// in two's complement.
#[verifier::external_body]
fn i64_bytes(n: i64) -> (r: Vec<u8>)
    ensures
        r@ == be8_signed(n),
{
    let mut buf = vec![0u8; 8];
    <byteorder::BigEndian as byteorder::ByteOrder>::write_i64(&mut buf, n);
    buf
}

/// How the paths of two files compare, by code point.
fn compare_paths(a: &PackageFile, b: &PackageFile) -> (r: std::cmp::Ordering)
    ensures
        (r == std::cmp::Ordering::Less) == crate::text::name_lt(a.path@, b.path@),
        (r == std::cmp::Ordering::Greater) == (!crate::text::name_lt(a.path@, b.path@)
            && crate::text::name_lt(b.path@, a.path@)),
{
    if crate::text::name_lt_exec(a.path.as_str(), b.path.as_str()) {
        std::cmp::Ordering::Less
    } else if crate::text::name_lt_exec(b.path.as_str(), a.path.as_str()) {
        std::cmp::Ordering::Greater
    } else {
        std::cmp::Ordering::Equal
    }
}

/// Relies on `slice::sort_by`: with `compare_paths`, a total order, it leaves
/// the same files in ascending order of path.
#[verifier::external_body]
fn sort_by_path(files: &mut Vec<PackageFile>)
    ensures
        sorted_by_path(final(files)@, old(files)@),
{
    files.sort_by(|a, b| compare_paths(a, b))
}

pub open spec fn file_views(fs: Seq<PackageFile>) -> Seq<(Seq<char>, i64, Seq<u8>)> {
    fs.map_values(|f: PackageFile| file_view(f))
}

/// Sorting keeps paths distinct.
proof fn lemma_sorted_keeps_distinct(s: Seq<PackageFile>, f: Seq<PackageFile>)
    requires
        s.to_multiset() == f.to_multiset(),
        distinct_paths(file_views(f)),
    ensures
        distinct_paths(file_views(s)),
{
    let fv = file_views(f);
    let sv = file_views(s);
    assert forall|i: int, j: int| 0 <= i < f.len() && 0 <= j < f.len() && i != j implies f[i] != f[j] by {
        if i < j {
            assert(fv[i].0 != fv[j].0);
        } else {
            assert(fv[j].0 != fv[i].0);
        }
    }
    assert(f.no_duplicates());
    f.lemma_multiset_has_no_duplicates();
    s.lemma_multiset_has_no_duplicates_conv();
    s.to_multiset_ensures();
    f.to_multiset_ensures();
    assert forall|i: int, j: int| 0 <= i < j < sv.len() implies #[trigger] sv[i].0 != #[trigger] sv[j].0 by {
        assert(s.contains(s[i]));
        assert(s.contains(s[j]));
        assert(s.to_multiset().count(s[i]) > 0 && s.to_multiset().count(s[j]) > 0);
        assert(f.to_multiset().count(s[i]) > 0 && f.to_multiset().count(s[j]) > 0);
        assert(f.contains(s[i]));
        assert(f.contains(s[j]));
        let a = choose|a: int| 0 <= a < f.len() && f[a] == s[i];
        let b = choose|b: int| 0 <= b < f.len() && f[b] == s[j];
        assert(s[i] != s[j]);
        assert(a != b);
        if a < b {
            assert(fv[a].0 != fv[b].0);
        } else {
            assert(fv[b].0 != fv[a].0);
        }
    }
}

/// The package of `files`: sorted by path, records first, contents after.
/// Files with distinct paths stay distinct, so that the law of
/// `lemma_decode_encoding` applies to what is written.
pub fn encode_package(files: Vec<PackageFile>) -> (r: Vec<u8>)
    ensures
        exists|s: Seq<PackageFile>|
            {
                &&& sorted_by_path(s, files@)
                &&& r@ == encoding_of(file_views(s))
                &&& distinct_paths(file_views(files@)) ==> distinct_paths(file_views(s))
            },
{
    let mut files = files;
    let ghost given = files@;
    sort_by_path(&mut files);
    proof {
        if distinct_paths(file_views(given)) {
            lemma_sorted_keeps_distinct(files@, given);
        }
    }
    let ghost fs = file_views(files@);
    let mut meta: Vec<u8> = Vec::new();
    let mut data: Vec<u8> = Vec::new();
    let mut i: usize = 0;
    while i < files.len()
        invariant
            i <= files@.len(),
            fs == file_views(files@),
            meta@ == records_bytes(fs.take(i as int)),
            data@ == contents_of(fs.take(i as int)),
        decreases files@.len() - i,
    {
        let f = &files[i];
        let path = f.path.as_str().as_bytes();
        let offset = data.len() as u64;
        let mut rec = u64_bytes(path.len() as u64);
        rec.extend_from_slice(path);
        let mut t = i64_bytes(f.last_modified);
        rec.append(&mut t);
        let mut l = u64_bytes(f.contents.len() as u64);
        rec.append(&mut l);
        let mut o = u64_bytes(offset);
        rec.append(&mut o);
        assert(fs.take(i as int + 1).drop_last() =~= fs.take(i as int));
        assert(fs.take(i as int + 1).last() == file_view(*f));
        assert(rec@ =~= record_bytes(file_view(*f), data@.len()));
        meta.append(&mut rec);
        data.extend_from_slice(f.contents.as_slice());
        i = i + 1;
    }
    assert(fs.take(files@.len() as int) =~= fs);
    let mut out = u64_bytes(meta.len() as u64);
    out.append(&mut meta);
    out.append(&mut data);
    out
}

/// The records that a package of `fs` holds: each file's path, time, length,
/// and the offset of its contents after those of the files before it.
pub open spec fn file_records(fs: Seq<(Seq<char>, i64, Seq<u8>)>) -> Seq<(Seq<char>, FileRecord)>
    decreases fs.len(),
{
    if fs.len() == 0 {
        Seq::empty()
    } else {
        file_records(fs.drop_last()).push(
            (
                fs.last().0,
                FileRecord {
                    last_modified: fs.last().1,
                    length: fs.last().2.len() as u64,
                    offset: contents_of(fs.drop_last()).len() as u64,
                },
            ),
        )
    }
}

/// Every length that the package of `fs` writes fits in eight bytes.
pub open spec fn fits_in_package(fs: Seq<(Seq<char>, i64, Seq<u8>)>) -> bool {
    &&& records_bytes(fs).len() < 0x1_0000_0000_0000_0000
    &&& contents_of(fs).len() < 0x1_0000_0000_0000_0000
    &&& forall|i: int| 0 <= i < fs.len() ==> encode_utf8(#[trigger] fs[i].0).len() < 0x1_0000_0000_0000_0000
}

/// No two files have the same path.
pub open spec fn distinct_paths(fs: Seq<(Seq<char>, i64, Seq<u8>)>) -> bool {
    forall|i: int, j: int| 0 <= i < j < fs.len() ==> #[trigger] fs[i].0 != #[trigger] fs[j].0
}

proof fn lemma_records_split(b: Seq<u8>, pos: int, mid: int, end: int)
    requires
        0 <= pos <= mid <= end <= b.len(),
        records_from(b, pos, mid) is Some,
        records_from(b, mid, end) is Some,
    ensures
        records_from(b, pos, end) == Some(records_from(b, pos, mid)->0 + records_from(b, mid, end)->0),
    decreases mid - pos,
{
    if pos == mid {
        assert(Seq::<(Seq<char>, FileRecord)>::empty() + records_from(b, mid, end)->0 =~= records_from(b, mid, end)->0);
    } else {
        let next = pos + 8 + u64_at(b, pos) + 24;
        lemma_records_split(b, next, mid, end);
        let first = records_from(b, pos, mid)->0[0];
        assert(records_from(b, pos, mid)->0 =~= seq![first] + records_from(b, next, mid)->0);
        assert(seq![first] + (records_from(b, next, mid)->0 + records_from(b, mid, end)->0)
            =~= records_from(b, pos, mid)->0 + records_from(b, mid, end)->0);
    }
}

proof fn lemma_one_record(b: Seq<u8>, pos: int, f: (Seq<char>, i64, Seq<u8>), off: nat)
    requires
        0 <= pos,
        pos + record_bytes(f, off).len() <= b.len(),
        b.subrange(pos, pos + record_bytes(f, off).len()) == record_bytes(f, off),
        off < 0x1_0000_0000_0000_0000,
        f.2.len() < 0x1_0000_0000_0000_0000,
        encode_utf8(f.0).len() < 0x1_0000_0000_0000_0000,
    ensures
        record_bytes(f, off).len() == 32 + encode_utf8(f.0).len(),
        records_from(b, pos, pos + record_bytes(f, off).len()) == Some(
            seq![(f.0, FileRecord { last_modified: f.1, length: f.2.len() as u64, offset: off as u64 })],
        ),
{
    let u = encode_utf8(f.0);
    let l = u.len();
    let rb = record_bytes(f, off);
    lemma_be8_round_trip(l);
    lemma_be8_round_trip(f.2.len());
    lemma_be8_round_trip(off);
    let t = f.1;
    if t < 0 {
        lemma_be8_round_trip((t + 0x1_0000_0000_0000_0000) as nat);
    } else {
        lemma_be8_round_trip(t as nat);
    }
    assert(be8_signed(t).len() == 8);
    assert(rb.len() == 32 + l);
    let end = pos + 32 + l;
    let at = pos + 8 + l;
    assert(b.subrange(pos, pos + 8) =~= rb.subrange(0, 8));
    assert(rb.subrange(0, 8) =~= be8(l));
    assert(b.subrange(pos + 8, at) =~= rb.subrange(8, 8 + l as int));
    assert(rb.subrange(8, 8 + l as int) =~= u);
    assert(b.subrange(at, at + 8) =~= rb.subrange(8 + l as int, 16 + l as int));
    assert(rb.subrange(8 + l as int, 16 + l as int) =~= be8_signed(t));
    assert(b.subrange(at + 8, at + 16) =~= rb.subrange(16 + l as int, 24 + l as int));
    assert(rb.subrange(16 + l as int, 24 + l as int) =~= be8(f.2.len()));
    assert(b.subrange(at + 16, at + 24) =~= rb.subrange(24 + l as int, 32 + l as int));
    assert(rb.subrange(24 + l as int, 32 + l as int) =~= be8(off));
    lemma_be8_signed_round_trip(b, at, t);
    assert(u64_at(b, pos) == l);
    assert(records_from(b, end, end) == Some(Seq::<(Seq<char>, FileRecord)>::empty()));
    let rec = FileRecord { last_modified: t, length: f.2.len() as u64, offset: off as u64 };
    assert(seq![(f.0, rec)] + Seq::<(Seq<char>, FileRecord)>::empty() =~= seq![(f.0, rec)]);
}

proof fn lemma_fits_prefix(fs: Seq<(Seq<char>, i64, Seq<u8>)>)
    requires
        fs.len() > 0,
        fits_in_package(fs),
    ensures
        fits_in_package(fs.drop_last()),
        records_bytes(fs) == records_bytes(fs.drop_last()) + record_bytes(
            fs.last(),
            contents_of(fs.drop_last()).len(),
        ),
        contents_of(fs) == contents_of(fs.drop_last()) + fs.last().2,
{
    let init = fs.drop_last();
    assert forall|i: int| 0 <= i < init.len() implies encode_utf8(#[trigger] init[i].0).len()
        < 0x1_0000_0000_0000_0000 by {
        assert(init[i] == fs[i]);
    }
}

proof fn lemma_records_parse(b: Seq<u8>, pos: int, fs: Seq<(Seq<char>, i64, Seq<u8>)>)
    requires
        0 <= pos,
        pos + records_bytes(fs).len() <= b.len(),
        b.subrange(pos, pos + records_bytes(fs).len()) == records_bytes(fs),
        fits_in_package(fs),
    ensures
        records_from(b, pos, pos + records_bytes(fs).len()) == Some(file_records(fs)),
    decreases fs.len(),
{
    if fs.len() == 0 {
        assert(file_records(fs) =~= Seq::<(Seq<char>, FileRecord)>::empty());
    } else {
        let init = fs.drop_last();
        lemma_fits_prefix(fs);
        let r0 = records_bytes(init);
        let off = contents_of(init).len();
        let rb = record_bytes(fs.last(), off);
        let mid = pos + r0.len();
        let end = pos + records_bytes(fs).len();
        assert(b.subrange(pos, mid) =~= records_bytes(fs).subrange(0, r0.len() as int));
        assert(records_bytes(fs).subrange(0, r0.len() as int) =~= r0);
        lemma_records_parse(b, pos, init);
        assert(b.subrange(mid, end) =~= records_bytes(fs).subrange(r0.len() as int, records_bytes(fs).len() as int));
        assert(records_bytes(fs).subrange(r0.len() as int, records_bytes(fs).len() as int) =~= rb);
        assert(encode_utf8(fs[fs.len() - 1].0).len() < 0x1_0000_0000_0000_0000);
        lemma_one_record(b, mid, fs.last(), off);
        lemma_records_split(b, pos, mid, end);
        let rec = FileRecord {
            last_modified: fs.last().1,
            length: fs.last().2.len() as u64,
            offset: off as u64,
        };
        assert(file_records(init) + seq![(fs.last().0, rec)] =~= file_records(fs));
    }
}

proof fn lemma_file_records_len(fs: Seq<(Seq<char>, i64, Seq<u8>)>)
    ensures
        file_records(fs).len() == fs.len(),
    decreases fs.len(),
{
    if fs.len() > 0 {
        lemma_file_records_len(fs.drop_last());
    }
}

proof fn lemma_file_records_index(fs: Seq<(Seq<char>, i64, Seq<u8>)>, i: int)
    requires
        0 <= i < fs.len(),
    ensures
        file_records(fs).len() == fs.len(),
        file_records(fs)[i] == (fs[i].0, FileRecord {
            last_modified: fs[i].1,
            length: fs[i].2.len() as u64,
            offset: contents_of(fs.take(i)).len() as u64,
        }),
    decreases fs.len(),
{
    let init = fs.drop_last();
    lemma_file_records_len(fs);
    lemma_file_records_len(init);
    if i < fs.len() - 1 {
        lemma_file_records_index(init, i);
        assert(init.take(i) =~= fs.take(i));
    } else {
        assert(fs.take(i) =~= init);
        if init.len() > 0 {
            lemma_file_records_index(init, 0);
        }
    }
}

proof fn lemma_contents_split(fs: Seq<(Seq<char>, i64, Seq<u8>)>, i: int)
    requires
        0 <= i < fs.len(),
    ensures
        contents_of(fs.take(i + 1)) == contents_of(fs.take(i)) + fs[i].2,
        contents_of(fs).len() >= contents_of(fs.take(i + 1)).len(),
        contents_of(fs).subrange(0, contents_of(fs.take(i + 1)).len() as int) == contents_of(fs.take(i + 1)),
    decreases fs.len(),
{
    assert(fs.take(i + 1).drop_last() =~= fs.take(i));
    let init = fs.drop_last();
    if i < fs.len() - 1 {
        lemma_contents_split(init, i);
        assert(init.take(i) =~= fs.take(i));
        assert(init.take(i + 1) =~= fs.take(i + 1));
        let c = contents_of(fs.take(i + 1)).len() as int;
        assert(contents_of(fs) =~= contents_of(init) + fs.last().2);
        assert(contents_of(fs).subrange(0, c) =~= contents_of(init).subrange(0, c));
    } else {
        assert(fs.take(i + 1) =~= fs);
        assert(contents_of(fs).subrange(0, contents_of(fs).len() as int) =~= contents_of(fs));
    }
}

proof fn lemma_record_at(fs: Seq<(Seq<char>, i64, Seq<u8>)>, i: int)
    requires
        0 <= i < fs.len(),
        fits_in_package(fs),
    ensures
        ({
            let rs = file_records(fs);
            let c = contents_of(fs);
            let rec = rs[i].1;
            &&& rs[i].0 == fs[i].0
            &&& rec.last_modified == fs[i].1
            &&& rec.length == fs[i].2.len()
            &&& c.subrange(rec.offset as int, rec.offset + rec.length) == fs[i].2
            &&& rec.offset + rec.length <= c.len()
            &&& rec.offset + rec.length == contents_of(fs.take(i + 1)).len()
        }),
{
    let c = contents_of(fs);
    lemma_file_records_index(fs, i);
    lemma_contents_split(fs, i);
    let lo = contents_of(fs.take(i)).len() as int;
    let hi = contents_of(fs.take(i + 1)).len() as int;
    assert(c.subrange(lo, hi) =~= c.subrange(0, hi).subrange(lo, hi));
    assert(contents_of(fs.take(i + 1)).subrange(lo, hi) =~= fs[i].2);
}

/// Decoding the package of files with distinct paths gives back, for each
/// file in the order written, its path, time and length, with contents laid
/// end to end: each file's bytes are its own, the first starts at offset 0,
/// each next one where the one before ends, and the last ends at the end of
/// the data blob.
#[verifier::rlimit(50)]
pub proof fn lemma_decode_encoding(fs: Seq<(Seq<char>, i64, Seq<u8>)>)
    requires
        distinct_paths(fs),
        fits_in_package(fs),
    ensures
        package_of(encoding_of(fs)) == Some((file_records(fs), contents_of(fs))),
        file_records(fs).len() == fs.len(),
        forall|i: int|
            0 <= i < fs.len() ==> {
                let rec = (#[trigger] file_records(fs)[i]).1;
                &&& file_records(fs)[i].0 == fs[i].0
                &&& rec.last_modified == fs[i].1
                &&& rec.length == fs[i].2.len()
                &&& contents_of(fs).subrange(rec.offset as int, rec.offset + rec.length) == fs[i].2
            },
        fs.len() > 0 ==> file_records(fs)[0].1.offset == 0,
        forall|i: int|
            0 <= i < fs.len() - 1 ==> (#[trigger] file_records(fs)[i]).1.offset
                + file_records(fs)[i].1.length == file_records(fs)[i + 1].1.offset,
        fs.len() > 0 ==> file_records(fs)[fs.len() - 1].1.offset + file_records(fs)[fs.len()
            - 1].1.length == contents_of(fs).len(),
{
    let r = records_bytes(fs);
    let c = contents_of(fs);
    let b = encoding_of(fs);
    let rs = file_records(fs);
    lemma_be8_round_trip(r.len());
    assert(b.subrange(0, 8) =~= be8(r.len()));
    assert(u64_at(b, 0) == r.len());
    assert(b.subrange(8, 8 + r.len() as int) =~= r);
    lemma_records_parse(b, 8, fs);
    assert(b.subrange(8 + r.len() as int, b.len() as int) =~= c);
    lemma_file_records_len(fs);
    assert forall|i: int| 0 <= i < fs.len() implies {
        let rec = (#[trigger] rs[i]).1;
        &&& rs[i].0 == fs[i].0
        &&& rec.last_modified == fs[i].1
        &&& rec.length == fs[i].2.len()
        &&& c.subrange(rec.offset as int, rec.offset + rec.length) == fs[i].2
        &&& rec.offset + rec.length <= c.len()
        &&& rec.offset + rec.length == contents_of(fs.take(i + 1)).len()
    } by {
        lemma_record_at(fs, i);
    }
    assert(paths_unique(rs)) by {
        assert forall|i: int, j: int| 0 <= i < j < rs.len() implies #[trigger] rs[i].0 != #[trigger] rs[j].0 by {
            lemma_file_records_index(fs, i);
            lemma_file_records_index(fs, j);
        }
    }
    assert(records_fit(rs, c.len())) by {
        assert forall|i: int| 0 <= i < rs.len() implies #[trigger] rs[i].1.offset + rs[i].1.length <= c.len() by {
            assert(rs[i].1.offset + rs[i].1.length <= c.len());
        }
    }
    if fs.len() > 0 {
        lemma_file_records_index(fs, 0);
        assert(fs.take(0) =~= Seq::<(Seq<char>, i64, Seq<u8>)>::empty());
        let n = fs.len() - 1;
        assert(rs[n].1.offset + rs[n].1.length == contents_of(fs.take(n + 1)).len());
        assert(fs.take(n + 1) =~= fs);
    }
    assert forall|i: int| 0 <= i < fs.len() - 1 implies (#[trigger] rs[i]).1.offset + rs[i].1.length
        == rs[i + 1].1.offset by {
        assert(rs[i].1.offset + rs[i].1.length == contents_of(fs.take(i + 1)).len());
        lemma_file_records_index(fs, i + 1);
    }
}

/// The sum of the records' lengths.
pub open spec fn total_length(rs: Seq<(Seq<char>, FileRecord)>) -> nat
    decreases rs.len(),
{
    if rs.len() == 0 {
        0
    } else {
        total_length(rs.drop_last()) + rs.last().1.length as nat
    }
}

/// The lengths of the records of `fs` add up to the length of its contents.
pub proof fn lemma_total_length(fs: Seq<(Seq<char>, i64, Seq<u8>)>)
    requires
        contents_of(fs).len() < 0x1_0000_0000_0000_0000,
    ensures
        total_length(file_records(fs)) == contents_of(fs).len(),
    decreases fs.len(),
{
    if fs.len() > 0 {
        assert(contents_of(fs) == contents_of(fs.drop_last()) + fs.last().2);
        lemma_total_length(fs.drop_last());
        assert(file_records(fs).drop_last() =~= file_records(fs.drop_last()));
        assert(file_records(fs).last().1.length == fs.last().2.len());
    }
}

/// Records laid end to end do not overlap: each ends at or before the start
/// of every later one.
pub proof fn lemma_end_to_end_ordered(rs: Seq<(Seq<char>, FileRecord)>, a: int, b: int)
    requires
        0 <= a < b < rs.len(),
        forall|i: int|
            0 <= i < rs.len() - 1 ==> (#[trigger] rs[i]).1.offset + rs[i].1.length == rs[i + 1].1.offset,
    ensures
        rs[a].1.offset + rs[a].1.length <= rs[b].1.offset,
    decreases b - a,
{
    if b > a + 1 {
        lemma_end_to_end_ordered(rs, a, b - 1);
        assert(rs[b - 1].1.offset + rs[b - 1].1.length == rs[b].1.offset);
    }
}

} // verus!
