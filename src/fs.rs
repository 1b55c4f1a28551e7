//! Stores that files are served from, and the directory semantics of a package.
use crate::codec::{
    distinct_paths, encoding_of, file_records, fits_in_package, lemma_decode_encoding,
    lemma_end_to_end_ordered, lemma_total_length, package_of, total_length,
    paths_unique, records_fit, FileRecord, FormatError, Package,
};
use crate::text::{
    find_char, find_char_exec, lemma_name_lt_asymmetric, name_le, name_lt, name_lt_exec,
    starts_with, starts_with_exec,
};
use crate::collab::{format_utc, formatted_utc};
use crate::server::LAST_MODIFIED_DATE_FORMAT;
use vstd::prelude::*;

verus! {

/// One item of a directory listing: a file with its size and modification
/// time in Unix seconds, or a subdirectory.
#[derive(Clone, Debug)]
pub enum Entry {
    File(String, u64, i64),
    Dir(String),
}

pub enum EntryView {
    File(Seq<char>, u64, i64),
    Dir(Seq<char>),
}

impl View for Entry {
    type V = EntryView;

    open spec fn view(&self) -> EntryView {
        match self {
            Entry::File(name, size, modified) => EntryView::File(name@, *size, *modified),
            Entry::Dir(name) => EntryView::Dir(name@),
        }
    }
}

pub open spec fn entry_name(e: EntryView) -> Seq<char> {
    match e {
        EntryView::File(name, _, _) => name,
        EntryView::Dir(name) => name,
    }
}

/// The path without one leading slash.
pub open spec fn drop_leading_slash(p: Seq<char>) -> Seq<char> {
    if p.len() > 0 && p[0] == '/' {
        p.drop_first()
    } else {
        p
    }
}

/// A requested directory as the package names it: without its leading slash
/// and without a trailing one.
pub open spec fn dir_key(p: Seq<char>) -> Seq<char> {
    let q = drop_leading_slash(p);
    if q.len() > 0 && q[q.len() - 1] == '/' {
        q.drop_last()
    } else {
        q
    }
}

/// What the paths of the files under directory `p` start with.
pub open spec fn child_prefix(p: Seq<char>) -> Seq<char> {
    if dir_key(p).len() == 0 {
        dir_key(p)
    } else {
        dir_key(p).push('/')
    }
}

/// The record of the file at `path`, if the package holds one.
pub open spec fn lookup(rs: Seq<(Seq<char>, FileRecord)>, path: Seq<char>) -> Option<FileRecord> {
    if exists|i: int| 0 <= i < rs.len() && rs[i].0 == path {
        Some(rs[choose|i: int| 0 <= i < rs.len() && rs[i].0 == path].1)
    } else {
        None
    }
}

/// `p` is the root, or some file lies below it.
pub open spec fn is_dir_in(rs: Seq<(Seq<char>, FileRecord)>, p: Seq<char>) -> bool {
    dir_key(p).len() == 0 || exists|i: int|
        0 <= i < rs.len() && #[trigger] starts_with(rs[i].0, dir_key(p).push('/'))
}

/// What a file at `path` contributes to the listing of the directory whose
/// children start with `prefix`: itself, the subdirectory that holds it, or
/// nothing when it lies elsewhere.
pub open spec fn entry_for(path: Seq<char>, rec: FileRecord, prefix: Seq<char>) -> Option<EntryView> {
    if !starts_with(path, prefix) {
        None
    } else {
        let rest = path.subrange(prefix.len() as int, path.len() as int);
        match find_char(rest, '/', 0) {
            Some(j) => Some(EntryView::Dir(rest.subrange(0, j))),
            None => Some(EntryView::File(rest, rec.length, rec.last_modified)),
        }
    }
}

/// Some file of `rs` gives entry `e`.
pub open spec fn comes_from_file(e: EntryView, rs: Seq<(Seq<char>, FileRecord)>, prefix: Seq<char>) -> bool {
    exists|i: int| 0 <= i < rs.len() && entry_for(rs[i].0, rs[i].1, prefix) == Some(e)
}

/// The entry, if there is one, is among `es`.
pub open spec fn is_listed(es: Seq<EntryView>, e: Option<EntryView>) -> bool {
    e matches Some(x) ==> exists|k: int| 0 <= k < es.len() && es[k] == x
}

/// `es` is the listing of the directory whose children start with `prefix`:
/// each entry comes from a file below it, each such file gives an entry, no
/// entry is repeated, and the names ascend.
pub open spec fn is_listing(
    es: Seq<EntryView>,
    rs: Seq<(Seq<char>, FileRecord)>,
    prefix: Seq<char>,
) -> bool {
    &&& forall|k: int| 0 <= k < es.len() ==> comes_from_file(#[trigger] es[k], rs, prefix)
    &&& forall|i: int|
        0 <= i < rs.len() ==> is_listed(es, #[trigger] entry_for(rs[i].0, rs[i].1, prefix))
    &&& forall|a: int, b: int| 0 <= a < b < es.len() ==> es[a] != es[b]
    &&& forall|k: int|
        0 < k < es.len() ==> name_le(entry_name(#[trigger] es[k - 1]), entry_name(es[k]))
}

/// Round trip: in the decoded package of files with distinct paths, each
/// file's path looks up its own length and time, and the bytes that its record
/// addresses are its contents.
pub proof fn lemma_round_trip(fs: Seq<(Seq<char>, i64, Seq<u8>)>, i: int)
    requires
        distinct_paths(fs),
        fits_in_package(fs),
        0 <= i < fs.len(),
    ensures
        package_of(encoding_of(fs)) matches Some((rs, data)) && lookup(rs, fs[i].0) matches Some(
            rec,
        ) && rec.length == fs[i].2.len() && rec.last_modified == fs[i].1 && data.subrange(
            rec.offset as int,
            rec.offset + rec.length,
        ) == fs[i].2,
{
    lemma_decode_encoding(fs);
    let rs = file_records(fs);
    assert(rs[i].0 == fs[i].0);
    let j = choose|j: int| 0 <= j < rs.len() && rs[j].0 == fs[i].0;
    assert(rs[j].0 == fs[j].0);
    if j != i {
        if j < i {
            assert(fs[j].0 != fs[i].0);
        } else {
            assert(fs[i].0 != fs[j].0);
        }
    }
}

/// Round trip through the package API: where `p` was decoded from the
/// package of files with distinct paths, its paths are exactly theirs; each
/// path looks up its file's length and time and addresses its bytes; the
/// lengths add up to the data blob; and no two records overlap.
pub proof fn lemma_package_round_trip(p: &Package, fs: Seq<(Seq<char>, i64, Seq<u8>)>)
    requires
        distinct_paths(fs),
        fits_in_package(fs),
        package_of(encoding_of(fs)) == Some((p.records(), p.blob())),
    ensures
        forall|k: Seq<char>|
            (#[trigger] lookup(p.records(), k) is Some) <==> exists|i: int|
                0 <= i < fs.len() && fs[i].0 == k,
        forall|i: int|
            0 <= i < fs.len() ==> (#[trigger] lookup(p.records(), fs[i].0) matches Some(rec)
                && rec.length == fs[i].2.len() && rec.last_modified == fs[i].1
                && p.blob().subrange(rec.offset as int, rec.offset + rec.length) == fs[i].2),
        total_length(p.records()) == p.blob().len(),
        forall|a: int, b: int|
            0 <= a < b < p.records().len() ==> #[trigger] p.records()[a].1.offset
                + p.records()[a].1.length <= #[trigger] p.records()[b].1.offset,
        records_fit(p.records(), p.blob().len()),
{
    lemma_decode_encoding(fs);
    let rs = p.records();
    assert(rs == file_records(fs));
    assert forall|i: int| 0 <= i < fs.len() implies (#[trigger] lookup(rs, fs[i].0) matches Some(rec)
        && rec.length == fs[i].2.len() && rec.last_modified == fs[i].1
        && p.blob().subrange(rec.offset as int, rec.offset + rec.length) == fs[i].2) by {
        lemma_round_trip(fs, i);
    }
    assert forall|k: Seq<char>|
        (#[trigger] lookup(rs, k) is Some) <==> exists|i: int| 0 <= i < fs.len() && fs[i].0 == k by {
        if lookup(rs, k) is Some {
            let j = choose|j: int| 0 <= j < rs.len() && rs[j].0 == k;
            assert(rs[j].0 == fs[j].0);
        }
        if exists|i: int| 0 <= i < fs.len() && fs[i].0 == k {
            let i = choose|i: int| 0 <= i < fs.len() && fs[i].0 == k;
            assert(rs[i].0 == fs[i].0);
        }
    }
    lemma_total_length(fs);
    assert forall|a: int, b: int| 0 <= a < b < rs.len() implies #[trigger] rs[a].1.offset
        + rs[a].1.length <= #[trigger] rs[b].1.offset by {
        lemma_end_to_end_ordered(rs, a, b);
    }
}

/// A path that stays inside the root: none of its segments is `..`.
pub open spec fn path_within_root(p: Seq<char>) -> bool {
    !exists|i: int|
        0 <= i && i + 2 <= p.len() && #[trigger] p[i] == '.' && p[i + 1] == '.' && (i == 0 || p[i
            - 1] == '/') && (i + 2 == p.len() || p[i + 2] == '/')
}

/// A relative path that stays inside a directory on disk: no segment is
/// `..`, it does not start with a slash, holds no backslash, and names no
/// drive (`C:`).
pub open spec fn local_path_within_root(p: Seq<char>) -> bool {
    &&& path_within_root(p)
    &&& !(p.len() > 0 && p[0] == '/')
    &&& forall|i: int| 0 <= i < p.len() ==> #[trigger] p[i] != '\\'
    &&& !(p.len() >= 2 && p[1] == ':')
}

/// Whether no segment of `p` is `..`.
pub fn path_valid(p: &str) -> (r: bool)
    ensures
        r == path_within_root(p@),
{
    let n = p.unicode_len();
    let mut i: usize = 0;
    while i < n && n - i >= 2
        invariant
            i <= n,
            n == p@.len(),
            forall|k: int|
                0 <= k < i && k + 2 <= p@.len() ==> !(#[trigger] p@[k] == '.' && p@[k + 1] == '.'
                    && (k == 0 || p@[k - 1] == '/') && (k + 2 == p@.len() || p@[k + 2] == '/')),
        decreases n - i,
    {
        if p.get_char(i) == '.' && p.get_char(i + 1) == '.' && (i == 0 || p.get_char(i - 1) == '/')
            && (i + 2 == n || p.get_char(i + 2) == '/') {
            return false;
        }
        i = i + 1;
    }
    true
}

/// The path with one leading slash and one trailing slash taken off.
fn strip_slash(p: &str) -> (r: String)
    ensures
        r@ == dir_key(p@),
{
    let n = p.unicode_len();
    let from: usize = if n > 0 && p.get_char(0) == '/' { 1 } else { 0 };
    let to: usize = if n > from && p.get_char(n - 1) == '/' { n - 1 } else { n };
    let s = p.substring_char(from, to).to_owned();
    assert(drop_leading_slash(p@) =~= p@.subrange(from as int, n as int));
    assert(s@ =~= dir_key(p@));
    s
}

/// What the paths of the files under directory `p` start with.
fn child_prefix_exec(p: &str) -> (r: String)
    ensures
        r@ == child_prefix(p@),
{
    let mut d = strip_slash(p);
    if d.as_str().unicode_len() > 0 {
        d.append("/");
        proof {
            reveal_strlit("/");
        }
        assert(d@ =~= dir_key(p@).push('/'));
    }
    d
}

impl Package {
    /// The index of the file at `path`.
    fn position(&self, path: &str) -> (r: Option<usize>)
        requires
            self.wf(),
        ensures
            r matches Some(i) ==> i < self.records().len() && self.records()[i as int].0 == path@
                && lookup(self.records(), path@) == Some(self.records()[i as int].1),
            r is None ==> lookup(self.records(), path@) is None,
    {
        let n = self.file_count();
        let target = path.to_owned();
        let mut i: usize = 0;
        while i < n
            invariant
                n == self.records().len(),
                i <= n,
                target@ == path@,
                self.wf(),
                forall|k: int| 0 <= k < i ==> #[trigger] self.records()[k].0 != path@,
            decreases n - i,
        {
            if *self.path(i) == target {
                let ghost rs = self.records();
                assert(rs[i as int].0 == path@);
                proof {
                    let j = choose|j: int| 0 <= j < rs.len() && rs[j].0 == path@;
                    if j != i {
                        assert(paths_unique(rs));
                        if j < i {
                            assert(rs[j].0 != rs[i as int].0);
                        } else {
                            assert(rs[i as int].0 != rs[j].0);
                        }
                    }
                }
                return Some(i);
            }
            i = i + 1;
        }
        None
    }

    /// The record of the file at `path`.
    pub fn get(&self, path: &str) -> (r: Option<FileRecord>)
        requires
            self.wf(),
        ensures
            r == lookup(self.records(), path@),
    {
        match self.position(path) {
            Some(i) => Some(self.record(i)),
            None => None,
        }
    }

    /// The bytes of the file at `path`.
    pub fn open(&self, path: &str) -> (r: Option<&[u8]>)
        requires
            self.wf(),
        ensures
            r is Some <==> lookup(self.records(), path@) is Some,
            r matches Some(b) ==> ({
                let rec = lookup(self.records(), path@)->0;
                b@ == self.blob().subrange(rec.offset as int, rec.offset + rec.length)
            }),
    {
        match self.position(path) {
            Some(i) => {
                let rec = self.record(i);
                let data = self.data();
                let len = data.len();
                assert(records_fit(self.records(), self.blob().len()));
                assert(rec.offset + rec.length <= len);
                let start = rec.offset as usize;
                let end = (rec.offset + rec.length) as usize;
                Some(&data[start..end])
            },
            None => None,
        }
    }

    /// Whether `path` is the root or a directory that holds some file.
    pub fn is_dir(&self, path: &str) -> (r: bool)
        ensures
            r == is_dir_in(self.records(), path@),
    {
        let d = strip_slash(path);
        if d.as_str().unicode_len() == 0 {
            return true;
        }
        let prefix = child_prefix_exec(path);
        let n = self.file_count();
        let mut i: usize = 0;
        while i < n
            invariant
                n == self.records().len(),
                i <= n,
                prefix@ == dir_key(path@).push('/'),
                forall|k: int| 0 <= k < i ==> !#[trigger] starts_with(self.records()[k].0, prefix@),
            decreases n - i,
        {
            if starts_with_exec(self.path(i).as_str(), prefix.as_str()) {
                assert(starts_with(self.records()[i as int].0, prefix@));
                return true;
            }
            i = i + 1;
        }
        false
    }
    /// The listing of directory `path`: one entry per file directly in it and
    /// one per subdirectory, without repeats, by ascending name.
    pub fn entries(&self, path: &str) -> (r: Vec<Entry>)
        ensures
            is_listing(entry_views(r@), self.records(), child_prefix(path@)),
    {
        let prefix = child_prefix_exec(path);
        let plen = prefix.as_str().unicode_len();
        let n = self.file_count();
        let ghost rs = self.records();
        let ghost pre = prefix@;
        let mut out: Vec<Entry> = Vec::new();
        // For each entry, a file it comes from; for each file, its entry.
        let ghost mut src: Seq<int> = Seq::empty();
        let ghost mut at: Seq<int> = Seq::empty();
        let mut i: usize = 0;
        while i < n
            invariant
                n == rs.len(),
                rs == self.records(),
                i <= n,
                plen == pre.len(),
                pre == prefix@,
                pre == child_prefix(path@),
                src.len() == out@.len(),
                at.len() == i,
                forall|k: int|
                    0 <= k < out@.len() ==> 0 <= #[trigger] src[k] < i && entry_for(
                        rs[src[k]].0,
                        rs[src[k]].1,
                        pre,
                    ) == Some(out@[k]@),
                forall|j: int|
                    0 <= j < i && (#[trigger] entry_for(rs[j].0, rs[j].1, pre)) is Some ==> 0
                        <= at[j] < out@.len() && Some(out@[at[j]]@) == entry_for(
                        rs[j].0,
                        rs[j].1,
                        pre,
                    ),
                distinct(out@),
                ascending(out@),
            decreases n - i,
        {
            let key = self.path(i);
            let rec = self.record(i);
            if starts_with_exec(key.as_str(), prefix.as_str()) {
                let klen = key.as_str().unicode_len();
                let rest = key.as_str().substring_char(plen, klen);
                let rlen = rest.unicode_len();
                let entry = match find_char_exec(rest, rlen, '/', 0) {
                    Some(j) => Entry::Dir(rest.substring_char(0, j).to_owned()),
                    None => Entry::File(rest.to_owned(), rec.length, rec.last_modified),
                };
                assert(entry_for(rs[i as int].0, rs[i as int].1, pre) == Some(entry@));
                let ghost old_out = out@;
                match insert_entry(&mut out, entry) {
                    Placed::Present(k) => {
                        proof {
                            at = at.push(k as int);
                        }
                    },
                    Placed::Inserted(p) => {
                        proof {
                            let p = p as int;
                            let old_src = src;
                            let old_at = at;
                            src = src.insert(p, i as int);
                            at = at.map_values(|k: int| if k >= p { k + 1 } else { k }).push(p);
                            assert forall|k: int| 0 <= k < out@.len() implies 0 <= #[trigger] src[k]
                                < i + 1 && entry_for(rs[src[k]].0, rs[src[k]].1, pre) == Some(
                                out@[k]@,
                            ) by {
                                if k < p {
                                    assert(src[k] == old_src[k] && out@[k] == old_out[k]);
                                } else if k > p {
                                    assert(src[k] == old_src[k - 1] && out@[k] == old_out[k - 1]);
                                }
                            }
                            assert forall|j: int|
                                0 <= j < i + 1 && (#[trigger] entry_for(rs[j].0, rs[j].1, pre)) is Some
                                    implies 0 <= at[j] < out@.len() && Some(out@[at[j]]@)
                                    == entry_for(rs[j].0, rs[j].1, pre) by {
                                if j < i {
                                    let k = old_at[j];
                                    if k >= p {
                                        assert(out@[k + 1] == old_out[k]);
                                    } else {
                                        assert(out@[k] == old_out[k]);
                                    }
                                }
                            }
                        }
                    },
                }
            } else {
                assert(entry_for(rs[i as int].0, rs[i as int].1, pre) is None);
                proof {
                    at = at.push(-1);
                }
            }
            i = i + 1;
        }
        let ghost es = entry_views(out@);
        assert forall|k: int| 0 <= k < es.len() implies comes_from_file(#[trigger] es[k], rs, pre) by {
            let i = src[k];
            assert(0 <= i < rs.len() && entry_for(rs[i].0, rs[i].1, pre) == Some(es[k]));
        }
        assert forall|j: int| 0 <= j < rs.len() implies is_listed(es, #[trigger] entry_for(rs[j].0, rs[j].1, pre)) by {
            if entry_for(rs[j].0, rs[j].1, pre) is Some {
                assert(es[at[j]] == entry_for(rs[j].0, rs[j].1, pre)->0);
            }
        }
        assert forall|a: int, b: int| 0 <= a < b < es.len() implies es[a] != es[b] by {
            assert(es[a] == out@[a]@ && es[b] == out@[b]@);
        }
        assert forall|k: int| 0 < k < es.len() implies name_le(
            entry_name(#[trigger] es[k - 1]),
            entry_name(es[k]),
        ) by {
            assert(es[k - 1] == out@[k - 1]@ && es[k] == out@[k]@);
        }
        out
    }
}


pub open spec fn entry_views(es: Seq<Entry>) -> Seq<EntryView> {
    es.map_values(|e: Entry| e@)
}

/// No two entries are the same.
pub open spec fn distinct(es: Seq<Entry>) -> bool {
    forall|a: int, b: int| 0 <= a < b < es.len() ==> es[a]@ != es[b]@
}

/// The names do not descend.
pub open spec fn ascending(es: Seq<Entry>) -> bool {
    forall|k: int| 0 < k < es.len() ==> name_le(entry_name(#[trigger] es[k - 1]@), entry_name(es[k]@))
}

/// Where `insert_entry` left the entry.
pub enum Placed {
    Present(usize),
    Inserted(usize),
}

/// Whether two entries are the same.
fn same_entry(a: &Entry, b: &Entry) -> (r: bool)
    ensures
        r == (a@ == b@),
{
    match (a, b) {
        (Entry::File(n1, s1, t1), Entry::File(n2, s2, t2)) => *n1 == *n2 && *s1 == *s2 && *t1 == *t2,
        (Entry::Dir(n1), Entry::Dir(n2)) => *n1 == *n2,
        _ => false,
    }
}

fn name_of(e: &Entry) -> (r: &String)
    ensures
        r@ == entry_name(e@),
{
    match e {
        Entry::File(n, _, _) => n,
        Entry::Dir(n) => n,
    }
}

/// Adds `e` to a listing kept in ascending order of names, unless it is
/// there already.
fn insert_entry(out: &mut Vec<Entry>, e: Entry) -> (r: Placed)
    requires
        distinct(old(out)@),
        ascending(old(out)@),
    ensures
        distinct(final(out)@),
        ascending(final(out)@),
        match r {
            Placed::Present(k) => final(out)@ == old(out)@ && k < old(out)@.len() && old(out)@[k as int]@ == e@,
            Placed::Inserted(p) => p <= old(out)@.len() && final(out)@ == old(out)@.insert(p as int, e),
        },
{
    let n = out.len();
    let mut i: usize = 0;
    while i < n
        invariant
            n == out@.len(),
            out@ == old(out)@,
            distinct(out@),
            ascending(out@),
            i <= n,
            forall|k: int| 0 <= k < i ==> (#[trigger] out@[k])@ != e@,
        decreases n - i,
    {
        if same_entry(&out[i], &e) {
            return Placed::Present(i);
        }
        i = i + 1;
    }
    let mut p: usize = 0;
    while p < n
        invariant
            n == out@.len(),
            out@ == old(out)@,
            distinct(out@),
            ascending(out@),
            forall|k: int| 0 <= k < n ==> (#[trigger] out@[k])@ != e@,
            p <= n,
            forall|k: int| 0 <= k < p ==> !name_lt(entry_name(e@), entry_name(#[trigger] out@[k]@)),
        ensures
            out@ == old(out)@,
            distinct(out@),
            ascending(out@),
            forall|k: int| 0 <= k < n ==> (#[trigger] out@[k])@ != e@,
            p <= n,
            p < n ==> name_lt(entry_name(e@), entry_name(out@[p as int]@)),
            forall|k: int| 0 <= k < p ==> !name_lt(entry_name(e@), entry_name(#[trigger] out@[k]@)),
        decreases n - p,
    {
        if name_lt_exec(name_of(&e).as_str(), name_of(&out[p]).as_str()) {
            break;
        }
        p = p + 1;
    }
    proof {
        if p < n {
            lemma_name_lt_asymmetric(entry_name(e@), entry_name(out@[p as int]@));
        }
    }
    let ghost before = out@;
    let ghost ev = e@;
    out.insert(p, e);
    assert forall|a: int, b: int| 0 <= a < b < out@.len() implies out@[a]@ != out@[b]@ by {
        if a == p {
            assert(out@[b] == before[b - 1]);
        } else if b == p {
            assert(out@[a] == before[a]);
        } else {
            let a0 = if a < p { a } else { a - 1 };
            let b0 = if b < p { b } else { b - 1 };
            assert(out@[a] == before[a0] && out@[b] == before[b0]);
        }
    }
    assert forall|k: int| 0 < k < out@.len() implies name_le(
        entry_name(#[trigger] out@[k - 1]@),
        entry_name(out@[k]@),
    ) by {
        if k < p {
            assert(out@[k - 1] == before[k - 1] && out@[k] == before[k]);
            assert(name_le(entry_name(before[k - 1]@), entry_name(before[k]@)));
        } else if k == p {
            assert(out@[k - 1] == before[k - 1]);
            assert(!name_lt(entry_name(ev), entry_name(before[k - 1]@)));
        } else if k == p + 1 {
            assert(out@[k] == before[k - 1]);
        } else {
            let j = k - 1;
            assert(out@[k - 1] == before[j - 1] && out@[k] == before[j]);
            assert(name_le(entry_name(before[j - 1]@), entry_name(before[j]@)));
        }
    }
    Placed::Inserted(p)
}

/// One row of a rendered directory listing.
pub struct TemplateEntry {
    pub name: String,
    pub size: u64,
    pub last_modified: String,
    pub is_file: bool,
}

impl TemplateEntry {
    /// The row of `e`; a file's time is written like `Last-Modified`, and left
    /// empty where it cannot be written.
    pub fn from_entry(e: &Entry) -> (r: TemplateEntry)
        ensures
            match e@ {
                EntryView::File(name, size, modified) => r.name@ == name && r.size == size
                    && r.is_file && r.last_modified@ == match formatted_utc(
                    modified,
                    LAST_MODIFIED_DATE_FORMAT@,
                ) {
                    Some(text) => text,
                    None => Seq::empty(),
                },
                EntryView::Dir(name) => r.name@ == name && r.size == 0 && !r.is_file
                    && r.last_modified@ == Seq::<char>::empty(),
            },
    {
        match e {
            Entry::File(name, size, modified) => {
                let last_modified = match format_utc(*modified, LAST_MODIFIED_DATE_FORMAT) {
                    Some(text) => text,
                    None => String::new(),
                };
                TemplateEntry { name: name.clone(), size: *size, last_modified, is_file: true }
            },
            Entry::Dir(name) => TemplateEntry {
                name: name.clone(),
                size: 0,
                last_modified: String::new(),
                is_file: false,
            },
        }
    }
}

/// A store failure: the file is not there.
#[derive(Debug, PartialEq, Eq)]
pub enum StoreError {
    NotFound,
}

/// A store over a package held in memory.
pub struct EmbeddedFileSystem {
    package: Package,
}

impl EmbeddedFileSystem {
    pub closed spec fn records(&self) -> Seq<(Seq<char>, FileRecord)> {
        self.package.records()
    }

    pub closed spec fn blob(&self) -> Seq<u8> {
        self.package.blob()
    }

    /// Paths are distinct and every record lies inside the blob.
    pub open spec fn wf(&self) -> bool {
        paths_unique(self.records()) && records_fit(self.records(), self.blob().len())
    }

    /// Decodes a package; fails exactly where the bytes are not one.
    pub fn from_bytes(bytes: &[u8]) -> (r: Result<EmbeddedFileSystem, FormatError>)
        ensures
            r is Ok <==> package_of(bytes@) is Some,
            r matches Ok(fs) ==> fs.wf() && package_of(bytes@) == Some((fs.records(), fs.blob())),
    {
        match Package::from_bytes(bytes) {
            Ok(package) => Ok(EmbeddedFileSystem { package }),
            Err(e) => Err(e),
        }
    }

    pub fn is_file(&self, path: &str) -> (r: bool)
        requires
            self.wf(),
        ensures
            r == (lookup(self.records(), path@) is Some),
    {
        self.package.get(path).is_some()
    }

    pub fn is_dir(&self, path: &str) -> (r: bool)
        ensures
            r == is_dir_in(self.records(), path@),
    {
        self.package.is_dir(path)
    }

    pub fn last_modified(&self, path: &str) -> (r: Result<i64, StoreError>)
        requires
            self.wf(),
        ensures
            r matches Ok(t) ==> lookup(self.records(), path@) matches Some(rec) && rec.last_modified == t,
            r is Err ==> lookup(self.records(), path@) is None,
    {
        match self.package.get(path) {
            Some(rec) => Ok(rec.last_modified),
            None => Err(StoreError::NotFound),
        }
    }

    pub fn size(&self, path: &str) -> (r: Result<u64, StoreError>)
        requires
            self.wf(),
        ensures
            r matches Ok(n) ==> lookup(self.records(), path@) matches Some(rec) && rec.length == n,
            r is Err ==> lookup(self.records(), path@) is None,
    {
        match self.package.get(path) {
            Some(rec) => Ok(rec.length),
            None => Err(StoreError::NotFound),
        }
    }

    /// The bytes of the file at `path` from `start` (or its beginning) to its end.
    pub fn open(&self, path: &str, start: Option<u64>) -> (r: Result<&[u8], StoreError>)
        requires
            self.wf(),
        ensures
            r is Err <==> lookup(self.records(), path@) is None,
            r matches Ok(b) ==> ({
                let rec = lookup(self.records(), path@)->0;
                let from = match start {
                    Some(s) => if s <= rec.length { s as int } else { rec.length as int },
                    None => 0,
                };
                &&& b@ == self.blob().subrange(rec.offset + from, rec.offset + rec.length)
                &&& b@.len() == rec.length - from
            }),
    {
        match self.package.open(path) {
            Some(bytes) => {
                let n = bytes.len();
                let from: usize = match start {
                    Some(s) => if s <= n as u64 { s as usize } else { n },
                    None => 0,
                };
                Ok(&bytes[from..n])
            },
            None => Err(StoreError::NotFound),
        }
    }

    /// The listing of directory `path`.
    pub fn entries(&self, path: &str) -> (r: Vec<Entry>)
        ensures
            is_listing(entry_views(r@), self.records(), child_prefix(path@)),
    {
        self.package.entries(path)
    }

    /// Whether `path` stays inside the package's root.
    pub fn path_valid(&self, path: &str) -> (r: bool)
        ensures
            r == path_within_root(path@),
    {
        path_valid(path)
    }
}

/// A store over a directory on disk; what it reads, the caller reads.
pub struct LocalFileSystem {
    path: String,
}

impl LocalFileSystem {
    pub closed spec fn root(&self) -> Seq<char> {
        self.path@
    }

    pub fn new(path: &str) -> (r: LocalFileSystem)
        ensures
            r.root() == path@,
    {
        LocalFileSystem { path: path.to_owned() }
    }

    /// The directory that is served.
    pub fn path(&self) -> (r: &str)
        ensures
            r@ == self.root(),
    {
        self.path.as_str()
    }

    /// Whether `path`, joined to the served directory, stays inside it.
    pub fn path_valid(&self, path: &str) -> (r: bool)
        ensures
            r == local_path_within_root(path@),
    {
        if !path_valid(path) {
            return false;
        }
        let n = path.unicode_len();
        if n > 0 && path.get_char(0) == '/' {
            return false;
        }
        if n >= 2 && path.get_char(1) == ':' {
            return false;
        }
        let mut i: usize = 0;
        while i < n
            invariant
                i <= n,
                n == path@.len(),
                forall|k: int| 0 <= k < i ==> #[trigger] path@[k] != '\\',
            decreases n - i,
        {
            if path.get_char(i) == '\\' {
                return false;
            }
            i = i + 1;
        }
        true
    }
}

} // verus!
