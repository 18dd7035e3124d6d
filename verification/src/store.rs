use vstd::prelude::*;

use crate::error::StoreError;
use crate::name::ProjectName;
use crate::name::archive_path_spec;
use crate::name::archive_seq;
use crate::name::extension_seq;
use crate::name::is_store_path;
use crate::name::lemma_archive_path_is_archive;
use crate::name::lemma_project_path_not_archive;
use crate::name::lemma_project_path_round_trip;
use crate::name::name_is_valid;
use crate::name::name_of_path;
use crate::name::project_path_spec;
use crate::name::push_char;
use crate::name::store_path_name;
use crate::name::valid_name;
use crate::ordering::str_same;
use crate::record::Note;
use crate::record::Notes;
use crate::record::decode_records;
use crate::record::encode_record;
use crate::record::encoding_of;
use crate::record::lemma_encoding_append;
use crate::record::note_views;
use crate::record::record_encoding;
use crate::record::timestamp_is_valid;
use crate::record::valid_timestamp;
use crate::record::wf_row;
use crate::record::wf_rows;
use crate::sorted::SortKey;
use crate::sorted::has_key;
use crate::sorted::insert_sorted;
use crate::sorted::pair_lt;
use crate::sorted::sorted_by_key;

verus! {

/// A project as read back from the store: its name, its notes, and the
/// subtree (active or archive) it was read from.
#[derive(Clone, Debug, PartialEq, Eq)]
pub struct Project {
    pub archived: bool,
    pub name: ProjectName,
    pub notes: Notes,
}

impl SortKey for Project {
    open spec fn key(&self) -> (Seq<char>, Seq<char>) {
        (self.name@, Seq::empty())
    }

    fn key_less(&self, other: &Self) -> (r: bool)
        ensures
            r == pair_lt(self.key(), other.key()),
    {
        self.name.key_less(&other.name)
    }

    fn key_same(&self, other: &Self) -> (r: bool)
        ensures
            r == (self.key() == other.key()),
    {
        self.name.key_same(&other.name)
    }
}

/// A set of projects, one per name, ordered by name.
#[derive(Clone, Debug, PartialEq, Eq)]
pub struct Projects {
    projects: Vec<Project>,
}

impl Projects {
    /// The projects inside, in name order.
    pub closed spec fn seq(self) -> Seq<Project> {
        self.projects@
    }

    /// Sorted strictly by name: one project per name.
    pub closed spec fn wf(self) -> bool {
        sorted_by_key(self.projects@)
    }

    /// An empty collection.
    pub fn new() -> (r: Projects)
        ensures
            r.wf(),
            r.seq() =~= Seq::<Project>::empty(),
    {
        Projects { projects: Vec::new() }
    }

    /// How many projects the collection holds.
    pub fn len(&self) -> (r: usize)
        ensures
            r == self.seq().len(),
    {
        self.projects.len()
    }

    /// The project at a position of the name order.
    pub fn get(&self, i: usize) -> (r: &Project)
        requires
            i < self.seq().len(),
        ensures
            *r == self.seq()[i as int],
    {
        &self.projects[i]
    }

    /// Adds a project; one whose name is already present is dropped.
    pub fn insert(&mut self, p: Project)
        requires
            old(self).wf(),
        ensures
            final(self).wf(),
            forall|k: (Seq<char>, Seq<char>)|
                has_key(final(self).seq(), k) == (has_key(old(self).seq(), k) || k == p.key()),
            final(self).seq().len() == old(self).seq().len() + (if has_key(
                old(self).seq(),
                p.key(),
            ) {
                0int
            } else {
                1int
            }),
            forall|i: int|
                0 <= i < final(self).seq().len() ==> old(self).seq().contains(
                    #[trigger] final(self).seq()[i],
                ) || final(self).seq()[i] == p,
    {
        insert_sorted(&mut self.projects, p);
    }
}

/// One file of the store: its path and its raw bytes.
#[derive(Clone, Debug, PartialEq, Eq)]
struct StoreFile {
    path: String,
    bytes: Vec<u8>,
}

/// The view of a file list: each file as its path and its bytes.
spec fn file_views(s: Seq<StoreFile>) -> Seq<(Seq<char>, Seq<u8>)> {
    s.map_values(|f: StoreFile| (f.path@, f.bytes@))
}

/// The bytes the file list holds at a path, scanning front to back.
pub open spec fn lookup(fs: Seq<(Seq<char>, Seq<u8>)>, p: Seq<char>) -> Option<Seq<u8>>
    decreases fs.len(),
{
    if fs.len() == 0 {
        None
    } else if fs[0].0 == p {
        Some(fs[0].1)
    } else {
        lookup(fs.drop_first(), p)
    }
}

/// No two files share a path.
pub open spec fn distinct_paths(fs: Seq<(Seq<char>, Seq<u8>)>) -> bool {
    forall|i: int, j: int| 0 <= i < j < fs.len() ==> (#[trigger] fs[i]).0 != (#[trigger] fs[j]).0
}

/// A path is found exactly when some file carries it, and then the found
/// bytes are that file's bytes.
pub proof fn lemma_lookup_index(fs: Seq<(Seq<char>, Seq<u8>)>, p: Seq<char>)
    ensures
        lookup(fs, p) is Some <==> exists|i: int| 0 <= i < fs.len() && (#[trigger] fs[i]).0 == p,
        distinct_paths(fs) ==> forall|i: int|
            0 <= i < fs.len() && (#[trigger] fs[i]).0 == p ==> lookup(fs, p) == Some(fs[i].1),
    decreases fs.len(),
{
    if fs.len() > 0 {
        lemma_lookup_index(fs.drop_first(), p);
        assert(forall|i: int|
            0 < i < fs.len() ==> (#[trigger] fs[i]) == fs.drop_first()[i - 1]);
        if fs[0].0 == p {
            assert(exists|i: int| 0 <= i < fs.len() && (#[trigger] fs[i]).0 == p);
        } else {
            if lookup(fs, p) is Some {
                let w = choose|w: int|
                    0 <= w < fs.drop_first().len() && (#[trigger] fs.drop_first()[w]).0 == p;
                assert(fs[w + 1].0 == p);
            }
            if exists|i: int| 0 <= i < fs.len() && (#[trigger] fs[i]).0 == p {
                let w = choose|w: int| 0 <= w < fs.len() && (#[trigger] fs[w]).0 == p;
                assert(fs.drop_first()[w - 1].0 == p);
            }
        }
    }
}

/// Removing the file at a position unmaps its path and nothing else.
pub proof fn lemma_lookup_remove(fs: Seq<(Seq<char>, Seq<u8>)>, i: int, q: Seq<char>)
    requires
        distinct_paths(fs),
        0 <= i < fs.len(),
    ensures
        lookup(fs.remove(i), q) == (if q == fs[i].0 {
            None
        } else {
            lookup(fs, q)
        }),
        distinct_paths(fs.remove(i)),
    decreases fs.len(),
{
    let r = fs.remove(i);
    assert(forall|j: int| 0 <= j < i ==> (#[trigger] r[j]) == fs[j]);
    assert(forall|j: int| i <= j < r.len() ==> (#[trigger] r[j]) == fs[j + 1]);
    if i == 0 {
        assert(r =~= fs.drop_first());
        if fs[0].0 == q {
            lemma_lookup_index(fs.drop_first(), q);
            if lookup(fs.drop_first(), q) is Some {
                let w = choose|w: int|
                    0 <= w < fs.drop_first().len() && (#[trigger] fs.drop_first()[w]).0 == q;
                assert(fs[w + 1].0 == q && fs[0].0 == q);
            }
        }
    } else {
        assert(fs.len() > 1);
        assert(r[0] == fs[0]);
        lemma_lookup_remove(fs.drop_first(), i - 1, q);
        assert(r.drop_first() =~= fs.drop_first().remove(i - 1));
        assert(fs.drop_first()[i - 1] == fs[i]);
    }
}

/// Pushing a file with a fresh path maps its path and nothing else.
pub proof fn lemma_lookup_push(fs: Seq<(Seq<char>, Seq<u8>)>, e: (Seq<char>, Seq<u8>), q: Seq<char>)
    requires
        lookup(fs, e.0) is None,
    ensures
        lookup(fs.push(e), q) == (if q == e.0 {
            Some(e.1)
        } else {
            lookup(fs, q)
        }),
        distinct_paths(fs) ==> distinct_paths(fs.push(e)),
    decreases fs.len(),
{
    let r = fs.push(e);
    if fs.len() == 0 {
        assert(r[0] == e);
        assert(r.drop_first() =~= Seq::<(Seq<char>, Seq<u8>)>::empty());
        assert(lookup(r.drop_first(), q) == Option::<Seq<u8>>::None);
        assert(lookup(fs, q) == Option::<Seq<u8>>::None);
    } else {
        assert(r[0] == fs[0]);
        assert(fs[0].0 != e.0);
        lemma_lookup_push(fs.drop_first(), e, q);
        assert(r.drop_first() =~= fs.drop_first().push(e));
        assert(lookup(r.drop_first(), q) == lookup(fs.drop_first().push(e), q));
    }
    if distinct_paths(fs) && lookup(fs, e.0) is None {
        lemma_lookup_index(fs, e.0);
        assert forall|i: int, j: int| 0 <= i < j < r.len() implies (#[trigger] r[i]).0 != (
        #[trigger] r[j]).0 by {
            if j == fs.len() as int {
                assert(r[i] == fs[i]);
            }
        }
    }
}

/// Something holds the key `k` among the first `n` files' paths.
pub open spec fn path_among(
    fs: Seq<(Seq<char>, Seq<u8>)>,
    n: int,
    p: Seq<char>,
) -> bool {
    exists|j: int| 0 <= j < n && (#[trigger] fs[j]).0 == p
}

/// A file's bytes are the encoding of some well-formed rows: what the
/// write path, and nothing else, ever puts in a file.
pub open spec fn is_record_bytes(b: Seq<u8>) -> bool {
    exists|rows: Seq<(Seq<char>, Seq<char>)>| wf_rows(rows) && b == encoding_of(rows)
}

/// The path of some valid project's active file.
pub open spec fn is_project_file_path(dir: Seq<char>, p: Seq<char>) -> bool {
    exists|n: Seq<char>| valid_name(n) && p == project_path_spec(dir, n)
}

/// The path of some valid project's archive file.
pub open spec fn is_archive_file_path(dir: Seq<char>, p: Seq<char>) -> bool {
    exists|n: Seq<char>| valid_name(n) && p == archive_path_spec(dir, n)
}

/// The store's invariant over its file list: paths are distinct, every
/// path names a project's active or archive file, and every file holds
/// only whole, well-formed records.
pub open spec fn store_files_ok(dir: Seq<char>, fs: Seq<(Seq<char>, Seq<u8>)>) -> bool {
    &&& distinct_paths(fs)
    &&& forall|i: int|
        0 <= i < fs.len() ==> is_project_file_path(dir, (#[trigger] fs[i]).0)
            || is_archive_file_path(dir, fs[i].0)
    &&& forall|i: int| 0 <= i < fs.len() ==> is_record_bytes((#[trigger] fs[i]).1)
}

/// The bytes of a file after a record or another file is appended to what
/// may not have existed before.
pub open spec fn appended_bytes(prev: Option<Seq<u8>>, add: Seq<u8>) -> Seq<u8> {
    match prev {
        Option::Some(b) => b + add,
        Option::None => add,
    }
}

/// What a batch read promises of each project it returns: read from the
/// active subtree, well-formed, and holding exactly its file's records.
pub open spec fn good_project(
    dir: Seq<char>,
    fs: Seq<(Seq<char>, Seq<u8>)>,
    proj: Project,
) -> bool {
    &&& proj.archived == false
    &&& proj.notes.wf()
    &&& valid_name(proj.name@)
    &&& forall|rows: Seq<(Seq<char>, Seq<char>)>|
        wf_rows(rows) && lookup(fs, project_path_spec(dir, proj.name@)) == Some(encoding_of(rows))
            ==> (forall|k: (Seq<char>, Seq<char>)| proj.notes@.contains(k) == rows.contains(k))
}

/// The store engine: a directory tree of record files, one per project,
/// with the archive mirror under its reserved subtree.
///
/// The tree is modelled explicitly as the list of files it holds; the
/// thin unverified layer around the library keeps a real directory tree
/// in step with the same operations.
#[derive(Debug)]
pub struct CSVStore {
    pub data_dir: String,
    files: Vec<StoreFile>,
}

impl CSVStore {
    /// The files of the store: each path with its bytes.
    pub closed spec fn files_view(self) -> Seq<(Seq<char>, Seq<u8>)> {
        file_views(self.files@)
    }

    /// The store root, as characters.
    pub closed spec fn dir(self) -> Seq<char> {
        self.data_dir@
    }

    /// The store invariant; every operation preserves it.
    pub open spec fn wf(self) -> bool {
        store_files_ok(self.dir(), self.files_view())
    }

    /// A fresh store over an empty tree rooted at `data_dir`.
    pub fn new(data_dir: String) -> (r: CSVStore)
        ensures
            r.wf(),
            r.dir() == data_dir@,
            r.files_view() =~= Seq::<(Seq<char>, Seq<u8>)>::empty(),
    {
        let r = CSVStore { data_dir, files: Vec::new() };
        proof {
            assert(r.files_view() =~= Seq::<(Seq<char>, Seq<u8>)>::empty());
        }
        r
    }

    /// The position of the file at a path, if the store holds one.
    fn find_file(&self, path: &str) -> (r: Option<usize>)
        ensures
            match r {
                Option::Some(i) => i < self.files_view().len() && self.files_view()[i as int].0
                    == path@,
                Option::None => forall|i: int|
                    0 <= i < self.files_view().len() ==> (#[trigger] self.files_view()[i]).0
                        != path@,
            },
    {
        let mut i: usize = 0;
        loop
            invariant
                i <= self.files@.len(),
                forall|j: int|
                    0 <= j < i ==> (#[trigger] self.files_view()[j]).0 != path@,
            decreases self.files@.len() - i,
        {
            if i == self.files.len() {
                return None;
            }
            if str_same(self.files[i].path.as_str(), path) {
                proof {
                    assert(self.files_view()[i as int].0 == path@);
                }
                return Some(i);
            }
            i = i + 1;
        }
    }

    /// The file that holds the project's active notes:
    /// `<data_dir>/<segments...>.csv`.
    pub fn project_path(&self, name: &ProjectName) -> (r: String)
        ensures
            r@ == project_path_spec(self.dir(), name@),
    {
        let mut path = self.data_dir.clone();
        push_char(&mut path, '/');
        let rel = name.normalize_path();
        path.append(rel.as_str());
        path.append(".csv");
        proof {
            reveal_strlit(".csv");
            assert(".csv"@ =~= extension_seq());
            assert(path@ =~= project_path_spec(self.dir(), name@));
        }
        path
    }

    /// The file that holds the project's archived notes:
    /// `<data_dir>/.archive/<segments...>.csv`.
    pub fn project_archive_path(&self, name: &ProjectName) -> (r: String)
        ensures
            r@ == archive_path_spec(self.dir(), name@),
    {
        let mut path = self.data_dir.clone();
        push_char(&mut path, '/');
        path.append(".archive");
        push_char(&mut path, '/');
        let rel = name.normalize_path();
        path.append(rel.as_str());
        path.append(".csv");
        proof {
            reveal_strlit(".archive");
            reveal_strlit(".csv");
            assert(".archive"@ =~= archive_seq());
            assert(".csv"@ =~= extension_seq());
            assert(path@ =~= archive_path_spec(self.dir(), name@));
        }
        path
    }

    /// The name a path under the store root decodes to: the root prefix
    /// and the record extension are stripped, and each directory
    /// delimiter becomes a dot.  A path that does not lie under the root
    /// or lacks the extension is rejected.
    pub fn project_name_from_path(&self, path: &String) -> (r: Result<ProjectName, StoreError>)
        ensures
            is_store_path(self.dir(), path@) ==> (r matches Ok(pn) && pn@
                == store_path_name(self.dir(), path@)),
            !is_store_path(self.dir(), path@) ==> (r matches Err(e) && e
                == StoreError::PathEncodingError),
    {
        let p = path.as_str();
        let d = self.data_dir.as_str();
        let plen = p.unicode_len();
        let dlen = d.unicode_len();
        if plen <= dlen {
            return Err(StoreError::PathEncodingError);
        }
        if plen - dlen <= 5 {
            return Err(StoreError::PathEncodingError);
        }
        let mut i: usize = 0;
        loop
            invariant
                i <= dlen,
                dlen == d@.len(),
                plen == p@.len(),
                plen > dlen + 5,
                d@ == self.dir(),
                p@ == path@,
                forall|j: int| 0 <= j < i ==> p@[j] == d@[j],
            ensures
                i == dlen,
                forall|j: int| 0 <= j < dlen ==> p@[j] == d@[j],
            decreases dlen - i,
        {
            if i == dlen {
                break;
            }
            let pc = p.get_char(i);
            let dc = d.get_char(i);
            if pc != dc {
                proof {
                    if is_store_path(self.dir(), path@) {
                        assert(path@.subrange(0, dlen as int)[i as int] == d@[i as int]);
                    }
                }
                return Err(StoreError::PathEncodingError);
            }
            i = i + 1;
        }
        if p.get_char(dlen) != '/' {
            return Err(StoreError::PathEncodingError);
        }
        let e0 = p.get_char(plen - 4);
        let e1 = p.get_char(plen - 3);
        let e2 = p.get_char(plen - 2);
        let e3 = p.get_char(plen - 1);
        if !(e0 == '.' && e1 == 'c' && e2 == 's' && e3 == 'v') {
            proof {
                if is_store_path(self.dir(), path@) {
                    let ext = path@.subrange(plen as int - 4, plen as int);
                    assert(ext[0] == e0 && ext[1] == e1 && ext[2] == e2 && ext[3] == e3);
                    assert(extension_seq()[0] == '.' && extension_seq()[1] == 'c'
                        && extension_seq()[2] == 's' && extension_seq()[3] == 'v');
                }
            }
            return Err(StoreError::PathEncodingError);
        }
        proof {
            assert(path@.subrange(0, dlen as int) =~= self.dir());
            assert(path@.subrange(plen as int - 4, plen as int) =~= extension_seq());
            assert(is_store_path(self.dir(), path@));
        }
        let mut out = String::new();
        let mut j: usize = dlen + 1;
        proof {
            assert(out@ =~= name_of_path(p@.subrange(dlen as int + 1, dlen as int + 1)));
        }
        loop
            invariant
                dlen + 1 <= j <= plen - 4,
                dlen == d@.len(),
                plen == p@.len(),
                plen > dlen + 5,
                out@ =~= name_of_path(p@.subrange(dlen as int + 1, j as int)),
            ensures
                j == plen - 4,
                out@ =~= name_of_path(p@.subrange(dlen as int + 1, plen as int - 4)),
            decreases plen - 4 - j,
        {
            if j == plen - 4 {
                break;
            }
            let c = p.get_char(j);
            if c == '/' {
                push_char(&mut out, '.');
            } else {
                push_char(&mut out, c);
            }
            proof {
                let sub = p@.subrange(dlen as int + 1, j as int + 1);
                assert(sub[j - dlen - 1] == p@[j as int]);
                assert(out@ =~= name_of_path(sub));
            }
            j = j + 1;
        }
        Ok(ProjectName { name: out })
    }

    /// Appends one note to the project's active file, creating it if it
    /// does not exist yet; a note with an empty value is rejected before
    /// anything is touched.
    pub fn write_note(&mut self, name: &ProjectName, note: &Note) -> (r: Result<(), StoreError>)
        requires
            old(self).wf(),
            name.wf(),
            valid_timestamp(note.time_stamp@),
        ensures
            final(self).wf(),
            final(self).dir() == old(self).dir(),
            note.value@.len() == 0 ==> (r matches Err(e) && e == StoreError::EmptyValue
                && *final(self) == *old(self)),
            note.value@.len() > 0 ==> (r matches Ok(v) && (forall|q: Seq<char>|
                #[trigger] lookup(final(self).files_view(), q) == (if q == project_path_spec(
                    old(self).dir(),
                    name@,
                ) {
                    Option::Some(
                        appended_bytes(
                            lookup(
                                old(self).files_view(),
                                project_path_spec(old(self).dir(), name@),
                            ),
                            record_encoding(note.time_stamp@, note.value@),
                        ),
                    )
                } else {
                    lookup(old(self).files_view(), q)
                }))),
    {
        if note.value.as_str().is_empty() {
            return Err(StoreError::EmptyValue);
        }
        let path = self.project_path(name);
        let mut rec = encode_record(note);
        let ghost fsold = self.files_view();
        let ghost ap = path@;
        let ghost recv = rec@;
        match self.find_file(path.as_str()) {
            Some(i) => {
                let mut f = self.files.remove(i);
                proof {
                    assert(file_views(self.files@) =~= fsold.remove(i as int));
                    lemma_lookup_index(fsold, ap);
                    assert(lookup(fsold, ap) == Option::Some(fsold[i as int].1));
                }
                let ghost fbytes = f.bytes@;
                f.bytes.append(&mut rec);
                self.files.push(f);
                proof {
                    let mid = fsold.remove(i as int);
                    assert(file_views(self.files@) =~= mid.push((ap, fbytes + recv)));
                    assert forall|q: Seq<char>|
                        #[trigger] lookup(self.files_view(), q) == (if q == ap {
                            Option::Some(appended_bytes(lookup(fsold, ap), recv))
                        } else {
                            lookup(fsold, q)
                        }) by {
                        lemma_lookup_remove(fsold, i as int, ap);
                        lemma_lookup_remove(fsold, i as int, q);
                        lemma_lookup_push(mid, (ap, fbytes + recv), q);
                    }
                    self.lemma_write_preserves_wf(fsold, i as int, ap, fbytes, recv, name@, note@);
                }
                Ok(())
            },
            None => {
                self.files.push(StoreFile { path, bytes: rec });
                proof {
                    assert(file_views(self.files@) =~= fsold.push((ap, recv)));
                    lemma_lookup_index(fsold, ap);
                    assert forall|q: Seq<char>|
                        #[trigger] lookup(self.files_view(), q) == (if q == ap {
                            Option::Some(appended_bytes(lookup(fsold, ap), recv))
                        } else {
                            lookup(fsold, q)
                        }) by {
                        lemma_lookup_push(fsold, (ap, recv), q);
                    }
                    self.lemma_push_fresh_wf(fsold, ap, recv, name@, note@);
                }
                Ok(())
            },
        }
    }

    /// The invariant after appending a record to an existing file.
    proof fn lemma_write_preserves_wf(
        self,
        fsold: Seq<(Seq<char>, Seq<u8>)>,
        i: int,
        ap: Seq<char>,
        fbytes: Seq<u8>,
        recv: Seq<u8>,
        n: Seq<char>,
        row: (Seq<char>, Seq<char>),
    )
        requires
            store_files_ok(self.dir(), fsold),
            0 <= i < fsold.len(),
            fsold[i] == (ap, fbytes),
            self.files_view() =~= fsold.remove(i).push((ap, fbytes + recv)),
            recv == record_encoding(row.0, row.1),
            wf_row(row),
            valid_name(n),
            ap == project_path_spec(self.dir(), n),
        ensures
            self.wf(),
    {
        let mid = fsold.remove(i);
        lemma_lookup_remove(fsold, i, ap);
        lemma_lookup_index(mid, ap);
        let fs = self.files_view();
        assert forall|j: int| 0 <= j < fs.len() implies (is_project_file_path(
            self.dir(),
            (#[trigger] fs[j]).0,
        ) || is_archive_file_path(self.dir(), fs[j].0)) && is_record_bytes(fs[j].1) by {
            if j < mid.len() {
                if j < i {
                    assert(fs[j] == fsold[j]);
                    assert(is_record_bytes(fsold[j].1));
                } else {
                    assert(fs[j] == fsold[j + 1]);
                    assert(is_record_bytes(fsold[j + 1].1));
                }
            } else {
                assert(fs[j] == (ap, fbytes + recv));
                assert(is_record_bytes(fbytes)) by {
                    assert(fsold[i].1 == fbytes);
                }
                let rows = choose|rows: Seq<(Seq<char>, Seq<char>)>|
                    wf_rows(rows) && fbytes == encoding_of(rows);
                lemma_encoding_append(rows, row);
                assert(wf_rows(rows.push(row))) by {
                    assert(forall|t: int|
                        0 <= t < rows.len() ==> rows.push(row)[t] == #[trigger] rows[t]);
                    assert(rows.push(row)[rows.len() as int] == row);
                }
                assert(fbytes + recv == encoding_of(rows.push(row)));
                assert(is_project_file_path(self.dir(), fsold[i].0));
            }
        }
        assert(distinct_paths(fs)) by {
            lemma_lookup_push(mid, (ap, fbytes + recv), ap);
        }
    }

    /// The invariant after creating a project's first file.
    proof fn lemma_push_fresh_wf(
        self,
        fsold: Seq<(Seq<char>, Seq<u8>)>,
        ap: Seq<char>,
        recv: Seq<u8>,
        n: Seq<char>,
        row: (Seq<char>, Seq<char>),
    )
        requires
            store_files_ok(self.dir(), fsold),
            lookup(fsold, ap) is None,
            self.files_view() =~= fsold.push((ap, recv)),
            recv == record_encoding(row.0, row.1),
            wf_row(row),
            valid_name(n),
            ap == project_path_spec(self.dir(), n),
        ensures
            self.wf(),
    {
        let fs = self.files_view();
        lemma_lookup_push(fsold, (ap, recv), ap);
        assert forall|j: int| 0 <= j < fs.len() implies (is_project_file_path(
            self.dir(),
            (#[trigger] fs[j]).0,
        ) || is_archive_file_path(self.dir(), fs[j].0)) && is_record_bytes(fs[j].1) by {
            if j < fsold.len() {
                assert(fs[j] == fsold[j]);
                assert(is_record_bytes(fsold[j].1));
            } else {
                assert(fs[j] == (ap, recv));
                let rows = seq![row];
                assert(rows.drop_first() =~= Seq::<(Seq<char>, Seq<char>)>::empty());
                assert(encoding_of(rows.drop_first()) == Seq::<u8>::empty());
                assert(encoding_of(rows) =~= recv);
                assert(wf_rows(rows));
                assert(is_record_bytes(recv));
                assert(is_project_file_path(self.dir(), ap));
            }
        }
    }
}

/// Decodes a whole record file into a project: every record becomes one
/// note of the project's note set.
pub fn project_from_bytes(name: ProjectName, archived: bool, bytes: &Vec<u8>) -> (r: Result<
    Project,
    StoreError,
>)
    ensures
        r matches Err(e) ==> e == StoreError::DecodeError,
        r matches Ok(proj) ==> proj.name == name && proj.archived == archived && proj.notes.wf(),
        forall|rows: Seq<(Seq<char>, Seq<char>)>|
            wf_rows(rows) && bytes@ == encoding_of(rows) ==> r is Ok,
        r matches Ok(proj) ==> (forall|rows: Seq<(Seq<char>, Seq<char>)>|
            wf_rows(rows) && bytes@ == encoding_of(rows) ==> (forall|k: (Seq<char>, Seq<char>)|
                proj.notes@.contains(k) == rows.contains(k))),
{
    let recs = match decode_records(bytes) {
        Ok(v) => v,
        Err(e) => {
            return Err(StoreError::DecodeError);
        },
    };
    let mut notes = Notes::new();
    let mut i: usize = 0;
    proof {
        assert(note_views(recs@).take(0) =~= Seq::<(Seq<char>, Seq<char>)>::empty());
    }
    loop
        invariant
            i <= recs@.len(),
            notes.wf(),
            forall|k: (Seq<char>, Seq<char>)|
                notes@.contains(k) == note_views(recs@).take(i as int).contains(k),
            forall|rows: Seq<(Seq<char>, Seq<char>)>|
                bytes@ == encoding_of(rows) ==> note_views(recs@) == rows,
        ensures
            i == recs@.len(),
            notes.wf(),
            forall|k: (Seq<char>, Seq<char>)|
                notes@.contains(k) == note_views(recs@).take(i as int).contains(k),
        decreases recs@.len() - i,
    {
        if i == recs.len() {
            break;
        }
        if !timestamp_is_valid(recs[i].time_stamp.as_str()) {
            proof {
                assert forall|rows: Seq<(Seq<char>, Seq<char>)>|
                    wf_rows(rows) && bytes@ == encoding_of(rows) implies false by {
                    assert(note_views(recs@) == rows);
                    assert(rows[i as int] == note_views(recs@)[i as int]);
                    assert(wf_row(rows[i as int]));
                    assert(rows[i as int].0 == recs@[i as int].time_stamp@);
                }
            }
            return Err(StoreError::DecodeError);
        }
        let n = Note {
            time_stamp: recs[i].time_stamp.clone(),
            value: recs[i].value.clone(),
        };
        proof {
            assert(n@ == note_views(recs@)[i as int]);
        }
        let ghost before = notes@;
        notes.insert(n);
        proof {
            let dec = note_views(recs@);
            assert(dec.take(i as int + 1) =~= dec.take(i as int).push(dec[i as int]));
            assert forall|k: (Seq<char>, Seq<char>)|
                notes@.contains(k) == dec.take(i as int + 1).contains(k) by {
                crate::sorted::lemma_push_contains(dec.take(i as int), dec[i as int], k);
            }
        }
        i = i + 1;
    }
    proof {
        assert(note_views(recs@).take(recs@.len() as int) =~= note_views(recs@));
    }
    Ok(Project { archived, name, notes })
}

impl CSVStore {
    /// Reads a project back from the store: the file under the active or
    /// the archive subtree, as asked, decoded into its set of notes.
    pub fn get_project(&self, name: ProjectName, archived: bool) -> (r: Result<
        Project,
        StoreError,
    >)
        requires
            self.wf(),
            name.wf(),
        ensures
            ({
                let p = if archived {
                    archive_path_spec(self.dir(), name@)
                } else {
                    project_path_spec(self.dir(), name@)
                };
                match lookup(self.files_view(), p) {
                    Option::None => r matches Err(e) && e == StoreError::NotFound,
                    Option::Some(b) => r matches Ok(proj) && proj.name == name && proj.archived
                        == archived && proj.notes.wf() && (forall|
                        rows: Seq<(Seq<char>, Seq<char>)>,
                    |
                        wf_rows(rows) && b == encoding_of(rows) ==> (forall|
                            k: (Seq<char>, Seq<char>),
                        |
                            proj.notes@.contains(k) == rows.contains(k))),
                }
            }),
    {
        let path = if archived {
            self.project_archive_path(&name)
        } else {
            self.project_path(&name)
        };
        match self.find_file(path.as_str()) {
            None => {
                proof {
                    lemma_lookup_index(self.files_view(), path@);
                }
                Err(StoreError::NotFound)
            },
            Some(i) => {
                proof {
                    lemma_lookup_index(self.files_view(), path@);
                }
                let res = project_from_bytes(name, archived, &self.files[i].bytes);
                match res {
                    Ok(proj) => Ok(proj),
                    Err(e) => {
                        // never reached on a well-formed store: every file
                        // holds whole records, which decode
                        proof {
                            let b = self.files_view()[i as int].1;
                            assert(is_record_bytes(b));
                            let rows = choose|rows: Seq<(Seq<char>, Seq<char>)>|
                                wf_rows(rows) && b == encoding_of(rows);
                            assert(false);
                        }
                        Err(StoreError::DecodeError)
                    },
                }
            },
        }
    }

    /// Lists the names of all active projects: every file under the store
    /// root, outside the reserved archive subtree, decoded back to its
    /// name; sorted and free of duplicates, whatever order the tree was
    /// walked in.
    pub fn get_projects_list(&self) -> (r: Result<Vec<ProjectName>, StoreError>)
        requires
            self.wf(),
        ensures
            r is Ok,
            r matches Ok(list) ==> sorted_by_key(list@) && (forall|i: int|
                0 <= i < list@.len() ==> valid_name((#[trigger] list@[i])@)) && (forall|
                n: Seq<char>,
            |
                has_key(list@, (n, Seq::empty())) == (valid_name(n) && lookup(
                    self.files_view(),
                    project_path_spec(self.dir(), n),
                ) is Some)),
    {
        let mut list: Vec<ProjectName> = Vec::new();
        let mut i: usize = 0;
        loop
            invariant
                self.wf(),
                i <= self.files_view().len(),
                sorted_by_key(list@),
                forall|t: int| 0 <= t < list@.len() ==> valid_name((#[trigger] list@[t])@),
                forall|n: Seq<char>|
                    has_key(list@, (n, Seq::empty())) == (valid_name(n) && path_among(
                        self.files_view(),
                        i as int,
                        project_path_spec(self.dir(), n),
                    )),
            ensures
                i == self.files_view().len(),
                sorted_by_key(list@),
                forall|t: int| 0 <= t < list@.len() ==> valid_name((#[trigger] list@[t])@),
                forall|n: Seq<char>|
                    has_key(list@, (n, Seq::empty())) == (valid_name(n) && path_among(
                        self.files_view(),
                        i as int,
                        project_path_spec(self.dir(), n),
                    )),
            decreases self.files_view().len() - i,
        {
            if i == self.files.len() {
                break;
            }
            let ghost fs = self.files_view();
            let ghost fpath = fs[i as int].0;
            let res = self.project_name_from_path(&self.files[i].path);
            proof {
                assert(self.files@[i as int].path@ == fpath);
                if is_project_file_path(self.dir(), fpath) {
                    let n0 = choose|n0: Seq<char>|
                        valid_name(n0) && fpath == project_path_spec(self.dir(), n0);
                    lemma_project_path_round_trip(self.dir(), n0);
                } else {
                    assert(is_archive_file_path(self.dir(), fpath));
                    let m0 = choose|m0: Seq<char>|
                        valid_name(m0) && fpath == archive_path_spec(self.dir(), m0);
                    crate::name::lemma_archive_path_decodes_dotted(self.dir(), m0);
                }
            }
            match res {
                Ok(pn) => {
                    let keep = name_is_valid(pn.name.as_str());
                    let ghost oldlist = list@;
                    if keep {
                        insert_sorted(&mut list, pn);
                    }
                    proof {
                        if keep {
                            let n0 = choose|n0: Seq<char>|
                                valid_name(n0) && fpath == project_path_spec(self.dir(), n0);
                            lemma_project_path_round_trip(self.dir(), n0);
                            assert(pn@ == n0);
                            assert forall|n: Seq<char>|
                                has_key(list@, (n, Seq::empty())) == (valid_name(n) && path_among(
                                    fs,
                                    i as int + 1,
                                    project_path_spec(self.dir(), n),
                                )) by {
                                if valid_name(n) {
                                    if n == n0 {
                                        assert(fs[i as int].0 == project_path_spec(self.dir(), n));
                                        assert(path_among(
                                            fs,
                                            i as int + 1,
                                            project_path_spec(self.dir(), n),
                                        ));
                                    } else {
                                        crate::name::lemma_paths_injective(self.dir(), n, n0);
                                        assert(path_among(
                                            fs,
                                            i as int + 1,
                                            project_path_spec(self.dir(), n),
                                        ) == path_among(
                                            fs,
                                            i as int,
                                            project_path_spec(self.dir(), n),
                                        ));
                                    }
                                }
                            }
                        } else {
                            assert(!valid_name(pn@));
                            assert(is_archive_file_path(self.dir(), fpath)) by {
                                if is_project_file_path(self.dir(), fpath) {
                                    let n0 = choose|n0: Seq<char>|
                                        valid_name(n0) && fpath == project_path_spec(
                                            self.dir(),
                                            n0,
                                        );
                                    lemma_project_path_round_trip(self.dir(), n0);
                                }
                            }
                            let m0 = choose|m0: Seq<char>|
                                valid_name(m0) && fpath == archive_path_spec(self.dir(), m0);
                            lemma_archive_path_is_archive(self.dir(), m0);
                            assert forall|n: Seq<char>|
                                has_key(list@, (n, Seq::empty())) == (valid_name(n) && path_among(
                                    fs,
                                    i as int + 1,
                                    project_path_spec(self.dir(), n),
                                )) by {
                                if valid_name(n) {
                                    lemma_project_path_not_archive(self.dir(), n);
                                    assert(fpath != project_path_spec(self.dir(), n));
                                    assert(path_among(
                                        fs,
                                        i as int + 1,
                                        project_path_spec(self.dir(), n),
                                    ) == path_among(
                                        fs,
                                        i as int,
                                        project_path_spec(self.dir(), n),
                                    ));
                                }
                            }
                        }
                    }
                },
                Err(e) => {
                    // never reached: every file of a well-formed store lies
                    // under the root and carries the record extension
                    proof {
                        assert(false);
                    }
                    return Err(StoreError::TraversalError);
                },
            }
            i = i + 1;
        }
        proof {
            assert forall|n: Seq<char>|
                has_key(list@, (n, Seq::empty())) == (valid_name(n) && lookup(
                    self.files_view(),
                    project_path_spec(self.dir(), n),
                ) is Some) by {
                lemma_lookup_index(self.files_view(), project_path_spec(self.dir(), n));
            }
        }
        Ok(list)
    }

    /// Reads every active project: the listing composed with a read of
    /// each name, failing as a whole if any single read fails.
    pub fn get_projects(&self) -> (r: Result<Projects, StoreError>)
        requires
            self.wf(),
        ensures
            r is Ok,
            r matches Ok(ps) ==> ps.wf() && (forall|n: Seq<char>|
                has_key(ps.seq(), (n, Seq::empty())) == (valid_name(n) && lookup(
                    self.files_view(),
                    project_path_spec(self.dir(), n),
                ) is Some)) && (forall|j: int|
                0 <= j < ps.seq().len() ==> good_project(
                    self.dir(),
                    self.files_view(),
                    #[trigger] ps.seq()[j],
                )),
    {
        let list = match self.get_projects_list() {
            Ok(l) => l,
            Err(e) => {
                // never reached: the listing succeeds on a well-formed store
                proof {
                    assert(false);
                }
                return Err(StoreError::TraversalError);
            },
        };
        let mut projects = Projects::new();
        let mut i: usize = 0;
        proof {
            assert(list@.take(0) =~= Seq::<ProjectName>::empty());
        }
        loop
            invariant
                self.wf(),
                i <= list@.len(),
                sorted_by_key(list@),
                projects.wf(),
                forall|t: int| 0 <= t < list@.len() ==> valid_name((#[trigger] list@[t])@),
                forall|n: Seq<char>|
                    has_key(list@, (n, Seq::empty())) == (valid_name(n) && lookup(
                        self.files_view(),
                        project_path_spec(self.dir(), n),
                    ) is Some),
                forall|n: Seq<char>|
                    has_key(projects.seq(), (n, Seq::empty())) == has_key(
                        list@.take(i as int),
                        (n, Seq::empty()),
                    ),
                forall|j: int|
                    0 <= j < projects.seq().len() ==> good_project(
                        self.dir(),
                        self.files_view(),
                        #[trigger] projects.seq()[j],
                    ),
            ensures
                i == list@.len(),
                projects.wf(),
                forall|n: Seq<char>|
                    has_key(projects.seq(), (n, Seq::empty())) == has_key(
                        list@.take(i as int),
                        (n, Seq::empty()),
                    ),
                forall|j: int|
                    0 <= j < projects.seq().len() ==> good_project(
                        self.dir(),
                        self.files_view(),
                        #[trigger] projects.seq()[j],
                    ),
            decreases list@.len() - i,
        {
            if i == list.len() {
                break;
            }
            let name = ProjectName { name: list[i].name.clone() };
            proof {
                assert(name@ == list@[i as int]@);
                assert(has_key(list@, (name@, Seq::empty()))) by {
                    assert(list@[i as int].key() == (name@, Seq::<char>::empty()));
                }
            }
            let proj = match self.get_project(name, false) {
                Ok(p) => p,
                Err(e) => {
                    // never reached: the listing names only projects whose
                    // active file exists
                    proof {
                        assert(false);
                    }
                    return Err(StoreError::NotFound);
                },
            };
            let ghost oldps = projects.seq();
            projects.insert(proj);
            proof {
                assert(proj.key() == (list@[i as int]@, Seq::<char>::empty()));
                assert forall|n: Seq<char>|
                    has_key(projects.seq(), (n, Seq::empty())) == has_key(
                        list@.take(i as int + 1),
                        (n, Seq::empty()),
                    ) by {
                    assert(list@.take(i as int + 1) =~= list@.take(i as int).push(
                        list@[i as int],
                    ));
                    let tk = list@.take(i as int);
                    let ghost ek = (n, Seq::<char>::empty());
                    if has_key(tk.push(list@[i as int]), ek) {
                        let w = choose|w: int|
                            0 <= w < tk.push(list@[i as int]).len() && (#[trigger] tk.push(
                                list@[i as int],
                            )[w]).key() == ek;
                        if w < tk.len() {
                            assert(tk[w].key() == ek);
                        }
                    }
                    if has_key(tk, ek) {
                        let w = choose|w: int|
                            0 <= w < tk.len() && (#[trigger] tk[w]).key() == ek;
                        assert(tk.push(list@[i as int])[w].key() == ek);
                    }
                    if ek == proj.key() {
                        assert(tk.push(list@[i as int])[tk.len() as int].key() == ek);
                    }
                }
                assert forall|j: int|
                    0 <= j < projects.seq().len() implies good_project(
                        self.dir(),
                        self.files_view(),
                        #[trigger] projects.seq()[j],
                    ) by {
                    if oldps.contains(projects.seq()[j]) {
                        let w = choose|w: int|
                            0 <= w < oldps.len() && oldps[w] == projects.seq()[j];
                        assert(good_project(self.dir(), self.files_view(), oldps[w]));
                    } else {
                        assert(projects.seq()[j] == proj);
                    }
                }
            }
            i = i + 1;
        }
        proof {
            assert(list@.take(list@.len() as int) =~= list@);
        }
        Ok(projects)
    }

    /// Moves a project's active file into the archive subtree: where an
    /// archive file already exists, the active records are appended after
    /// it; either way the active file is gone afterwards and no record is
    /// lost.
    pub fn archive_project(&mut self, name: &ProjectName) -> (r: Result<(), StoreError>)
        requires
            old(self).wf(),
            name.wf(),
        ensures
            final(self).wf(),
            final(self).dir() == old(self).dir(),
            ({
                let ap = project_path_spec(old(self).dir(), name@);
                let rp = archive_path_spec(old(self).dir(), name@);
                match lookup(old(self).files_view(), ap) {
                    Option::None => r matches Err(e) && e == StoreError::NotFound
                        && final(self).files_view() == old(self).files_view(),
                    Option::Some(active) => r matches Ok(v) && (forall|q: Seq<char>|
                        #[trigger] lookup(final(self).files_view(), q) == (if q == ap {
                            Option::<Seq<u8>>::None
                        } else if q == rp {
                            Option::Some(
                                appended_bytes(lookup(old(self).files_view(), rp), active),
                            )
                        } else {
                            lookup(old(self).files_view(), q)
                        })),
                }
            }),
    {
        let oldpath = self.project_path(name);
        let newpath = self.project_archive_path(name);
        let ghost fsold = self.files_view();
        let ghost ap = oldpath@;
        let ghost rp = newpath@;
        proof {
            lemma_project_path_not_archive(old(self).dir(), name@);
            lemma_archive_path_is_archive(old(self).dir(), name@);
            assert(ap != rp);
        }
        let oi = match self.find_file(oldpath.as_str()) {
            Some(i) => i,
            None => {
                proof {
                    lemma_lookup_index(fsold, ap);
                }
                return Err(StoreError::NotFound);
            },
        };
        proof {
            lemma_lookup_index(fsold, ap);
        }
        let active_file = self.files.remove(oi);
        let ghost active = active_file.bytes@;
        proof {
            assert(file_views(self.files@) =~= fsold.remove(oi as int));
        }
        let ghost mid = fsold.remove(oi as int);
        match self.find_file(newpath.as_str()) {
            Some(ai) => {
                proof {
                    lemma_lookup_remove(fsold, oi as int, rp);
                    lemma_lookup_index(mid, rp);
                }
                let mut arch = self.files.remove(ai);
                let ghost archbytes = arch.bytes@;
                let mut buffer = active_file.bytes;
                arch.bytes.append(&mut buffer);
                self.files.push(arch);
                proof {
                    let mid2 = mid.remove(ai as int);
                    assert(file_views(self.files@) =~= mid2.push((rp, archbytes + active)));
                    assert forall|q: Seq<char>|
                        #[trigger] lookup(self.files_view(), q) == (if q == ap {
                            Option::<Seq<u8>>::None
                        } else if q == rp {
                            Option::Some(appended_bytes(lookup(fsold, rp), active))
                        } else {
                            lookup(fsold, q)
                        }) by {
                        lemma_lookup_remove(fsold, oi as int, q);
                        lemma_lookup_remove(fsold, oi as int, rp);
                        lemma_lookup_remove(mid, ai as int, q);
                        lemma_lookup_remove(mid, ai as int, rp);
                        lemma_lookup_push(mid2, (rp, archbytes + active), q);
                    }
                    self.lemma_archive_merge_wf(fsold, oi as int, ai as int, ap, rp, archbytes, active);
                }
                Ok(())
            },
            None => {
                self.files.push(StoreFile { path: newpath, bytes: active_file.bytes });
                proof {
                    assert(file_views(self.files@) =~= mid.push((rp, active)));
                    assert forall|q: Seq<char>|
                        #[trigger] lookup(self.files_view(), q) == (if q == ap {
                            Option::<Seq<u8>>::None
                        } else if q == rp {
                            Option::Some(appended_bytes(lookup(fsold, rp), active))
                        } else {
                            lookup(fsold, q)
                        }) by {
                        lemma_lookup_remove(fsold, oi as int, q);
                        lemma_lookup_remove(fsold, oi as int, rp);
                        lemma_lookup_index(mid, rp);
                        lemma_lookup_push(mid, (rp, active), q);
                    }
                    lemma_lookup_index(mid, rp);
                    self.lemma_archive_move_wf(fsold, oi as int, ap, rp, active, name@);
                }
                Ok(())
            },
        }
    }

    /// The invariant after merging the active file into an existing
    /// archive file.
    proof fn lemma_archive_merge_wf(
        self,
        fsold: Seq<(Seq<char>, Seq<u8>)>,
        oi: int,
        ai: int,
        ap: Seq<char>,
        rp: Seq<char>,
        archbytes: Seq<u8>,
        active: Seq<u8>,
    )
        requires
            store_files_ok(self.dir(), fsold),
            0 <= oi < fsold.len(),
            fsold[oi] == (ap, active),
            0 <= ai < fsold.remove(oi).len(),
            fsold.remove(oi)[ai] == (rp, archbytes),
            self.files_view() =~= fsold.remove(oi).remove(ai).push((rp, archbytes + active)),
        ensures
            self.wf(),
    {
        let mid = fsold.remove(oi);
        let mid2 = mid.remove(ai);
        lemma_lookup_remove(fsold, oi, rp);
        lemma_lookup_remove(mid, ai, rp);
        lemma_lookup_index(mid2, rp);
        let fs = self.files_view();
        assert forall|j: int| 0 <= j < fs.len() implies (is_project_file_path(
            self.dir(),
            (#[trigger] fs[j]).0,
        ) || is_archive_file_path(self.dir(), fs[j].0)) && is_record_bytes(fs[j].1) by {
            if j < mid2.len() {
                assert(fs[j] == mid2[j]);
                let t0 = if j < ai {
                    j
                } else {
                    j + 1
                };
                assert(mid2[j] == mid[t0]);
                let t1 = if t0 < oi {
                    t0
                } else {
                    t0 + 1
                };
                assert(mid[t0] == fsold[t1]);
                assert(is_record_bytes(fsold[t1].1));
            } else {
                assert(fs[j] == (rp, archbytes + active));
                assert(is_record_bytes(archbytes)) by {
                    let t1 = if ai < oi {
                        ai
                    } else {
                        ai + 1
                    };
                    assert(fsold[t1] == (rp, archbytes));
                    assert(is_record_bytes(fsold[t1].1));
                }
                assert(is_record_bytes(fsold[oi].1));
                let rows1 = choose|rows: Seq<(Seq<char>, Seq<char>)>|
                    wf_rows(rows) && archbytes == encoding_of(rows);
                let rows2 = choose|rows: Seq<(Seq<char>, Seq<char>)>|
                    wf_rows(rows) && active == encoding_of(rows);
                crate::record::lemma_encoding_concat(rows1, rows2);
                assert(wf_rows(rows1 + rows2)) by {
                    assert(forall|t: int|
                        0 <= t < rows1.len() ==> (rows1 + rows2)[t] == #[trigger] rows1[t]);
                    assert(forall|t: int|
                        0 <= t < rows2.len() ==> (rows1 + rows2)[t + rows1.len()]
                            == #[trigger] rows2[t]);
                    assert(forall|t: int|
                        0 <= t < (rows1 + rows2).len() ==> wf_row(#[trigger] (rows1 + rows2)[t]));
                }
                assert(archbytes + active == encoding_of(rows1 + rows2));
                let t1 = if ai < oi {
                    ai
                } else {
                    ai + 1
                };
                assert(fsold[t1].0 == rp);
                assert(is_project_file_path(self.dir(), rp) || is_archive_file_path(
                    self.dir(),
                    rp,
                ));
            }
        }
        assert(distinct_paths(fs)) by {
            lemma_lookup_push(mid2, (rp, archbytes + active), rp);
        }
    }

    /// The invariant after moving the active file to a fresh archive
    /// path.
    proof fn lemma_archive_move_wf(
        self,
        fsold: Seq<(Seq<char>, Seq<u8>)>,
        oi: int,
        ap: Seq<char>,
        rp: Seq<char>,
        active: Seq<u8>,
        n: Seq<char>,
    )
        requires
            store_files_ok(self.dir(), fsold),
            0 <= oi < fsold.len(),
            fsold[oi] == (ap, active),
            lookup(fsold.remove(oi), rp) is None,
            self.files_view() =~= fsold.remove(oi).push((rp, active)),
            valid_name(n),
            rp == archive_path_spec(self.dir(), n),
        ensures
            self.wf(),
    {
        let mid = fsold.remove(oi);
        lemma_lookup_remove(fsold, oi, rp);
        let fs = self.files_view();
        assert forall|j: int| 0 <= j < fs.len() implies (is_project_file_path(
            self.dir(),
            (#[trigger] fs[j]).0,
        ) || is_archive_file_path(self.dir(), fs[j].0)) && is_record_bytes(fs[j].1) by {
            if j < mid.len() {
                let t = if j < oi {
                    j
                } else {
                    j + 1
                };
                assert(fs[j] == mid[j] && mid[j] == fsold[t]);
                assert(is_record_bytes(fsold[t].1));
            } else {
                assert(fs[j] == (rp, active));
                assert(is_record_bytes(fsold[oi].1));
                assert(is_archive_file_path(self.dir(), rp));
            }
        }
        assert(distinct_paths(fs)) by {
            lemma_lookup_push(mid, (rp, active), rp);
        }
    }
}

} // verus!
