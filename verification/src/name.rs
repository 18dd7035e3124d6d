use vstd::prelude::*;

use crate::error::StoreError;
use crate::sorted::SortKey;
use crate::sorted::pair_lt;
use crate::ordering::str_less;
use crate::ordering::str_same;

verus! {

/// The name of a project: dot-separated segments, as in `work.clientA`.
///
/// On disk each segment becomes one directory level, so a valid name has
/// non-empty segments, holds no path delimiter, and does not begin with a
/// dot — which also keeps the reserved archive directory `.archive` out of
/// the project namespace.
#[derive(Clone, Debug, PartialEq, Eq)]
pub struct ProjectName {
    pub name: String,
}

impl View for ProjectName {
    type V = Seq<char>;

    open spec fn view(&self) -> Seq<char> {
        self.name@
    }
}

/// A valid project name: non-empty, no `/`, no leading, trailing or
/// doubled dot (so every segment is non-empty and no name begins with the
/// reserved archive directory's dot).
pub open spec fn valid_name(s: Seq<char>) -> bool {
    &&& s.len() > 0
    &&& (forall|i: int| 0 <= i < s.len() ==> s[i] != '/')
    &&& s[0] != '.'
    &&& s[s.len() - 1] != '.'
    &&& (forall|i: int| 0 < i < s.len() ==> !(s[i - 1] == '.' && #[trigger] s[i] == '.'))
}

/// A name's place on disk, relative to the store root: each dot becomes
/// the directory delimiter.
pub open spec fn path_of_name(s: Seq<char>) -> Seq<char> {
    s.map_values(|c: char| if c == '.' { '/' } else { c })
}

/// The inverse direction: each directory delimiter becomes a dot.
pub open spec fn name_of_path(p: Seq<char>) -> Seq<char> {
    p.map_values(|c: char| if c == '/' { '.' } else { c })
}

/// Decoding the path of a name gives the name back: the two maps cancel
/// wherever the name holds no `/`, which a valid name never does.
pub proof fn lemma_name_path_round_trip(s: Seq<char>)
    requires
        forall|i: int| 0 <= i < s.len() ==> s[i] != '/',
    ensures
        name_of_path(path_of_name(s)) == s,
{
    assert(name_of_path(path_of_name(s)) =~= s);
}

/// And the other way around: encoding the name of a path gives the path
/// back, wherever the path holds no dot.
pub proof fn lemma_path_name_round_trip(p: Seq<char>)
    requires
        forall|i: int| 0 <= i < p.len() ==> p[i] != '.',
    ensures
        path_of_name(name_of_path(p)) == p,
{
    assert(path_of_name(name_of_path(p)) =~= p);
}

/// The record file extension, as characters: `.csv`.
pub open spec fn extension_seq() -> Seq<char> {
    seq!['.', 'c', 's', 'v']
}

/// The reserved directory that roots the archive subtree: `.archive`.
pub open spec fn archive_seq() -> Seq<char> {
    seq!['.', 'a', 'r', 'c', 'h', 'i', 'v', 'e']
}

/// The file that holds a project's active notes:
/// `<dir>/<segments...>.csv`.
pub open spec fn project_path_spec(dir: Seq<char>, name: Seq<char>) -> Seq<char> {
    dir + seq!['/'] + path_of_name(name) + extension_seq()
}

/// The file that holds a project's archived notes:
/// `<dir>/.archive/<segments...>.csv`.
pub open spec fn archive_path_spec(dir: Seq<char>, name: Seq<char>) -> Seq<char> {
    dir + seq!['/'] + archive_seq() + seq!['/'] + path_of_name(name) + extension_seq()
}

/// A path that lies under the store root and carries the record file
/// extension, with something in between.
pub open spec fn is_store_path(dir: Seq<char>, p: Seq<char>) -> bool {
    &&& p.len() > dir.len() + 5
    &&& p.subrange(0, dir.len() as int) == dir
    &&& p[dir.len() as int] == '/'
    &&& p.subrange(p.len() as int - 4, p.len() as int) == extension_seq()
}

/// The name a store path decodes to: the piece between the root and the
/// extension, with delimiters turned back into dots.
pub open spec fn store_path_name(dir: Seq<char>, p: Seq<char>) -> Seq<char> {
    name_of_path(p.subrange(dir.len() as int + 1, p.len() as int - 4))
}

/// An active project's path decodes to exactly its name.
pub proof fn lemma_project_path_round_trip(dir: Seq<char>, name: Seq<char>)
    requires
        valid_name(name),
    ensures
        is_store_path(dir, project_path_spec(dir, name)),
        store_path_name(dir, project_path_spec(dir, name)) == name,
{
    let p = project_path_spec(dir, name);
    assert(p.subrange(0, dir.len() as int) =~= dir);
    assert(p.subrange(p.len() as int - 4, p.len() as int) =~= extension_seq());
    assert(p.subrange(dir.len() as int + 1, p.len() as int - 4) =~= path_of_name(name));
    lemma_name_path_round_trip(name);
}

/// A path in the archive subtree: the segment after the root is the
/// reserved archive directory.
pub open spec fn is_archive_path(dir: Seq<char>, p: Seq<char>) -> bool {
    &&& p.len() > dir.len() + 9
    &&& p.subrange(dir.len() as int + 1, dir.len() as int + 9) == archive_seq()
    &&& p[dir.len() as int + 9] == '/'
}

/// An archived project's path lies in the archive subtree.
pub proof fn lemma_archive_path_is_archive(dir: Seq<char>, name: Seq<char>)
    ensures
        is_archive_path(dir, archive_path_spec(dir, name)),
{
    let p = archive_path_spec(dir, name);
    assert(p.subrange(dir.len() as int + 1, dir.len() as int + 9) =~= archive_seq());
}

/// An active project's path never lies in the archive subtree: a valid
/// name cannot begin with the archive directory's dot.
pub proof fn lemma_project_path_not_archive(dir: Seq<char>, name: Seq<char>)
    requires
        valid_name(name),
    ensures
        !is_archive_path(dir, project_path_spec(dir, name)),
{
    let p = project_path_spec(dir, name);
    if is_archive_path(dir, p) {
        assert(p[dir.len() as int + 1] == path_of_name(name)[0]);
        assert(p.subrange(dir.len() as int + 1, dir.len() as int + 9)[0] == '.');
    }
}

/// Two distinct valid names keep distinct active paths, and distinct
/// archive paths.
pub proof fn lemma_paths_injective(dir: Seq<char>, n1: Seq<char>, n2: Seq<char>)
    requires
        valid_name(n1),
        valid_name(n2),
        n1 != n2,
    ensures
        project_path_spec(dir, n1) != project_path_spec(dir, n2),
        archive_path_spec(dir, n1) != archive_path_spec(dir, n2),
{
    if project_path_spec(dir, n1) == project_path_spec(dir, n2) {
        lemma_project_path_round_trip(dir, n1);
        lemma_project_path_round_trip(dir, n2);
    }
    if archive_path_spec(dir, n1) == archive_path_spec(dir, n2) {
        let p1 = archive_path_spec(dir, n1);
        let p2 = archive_path_spec(dir, n2);
        assert(p1.subrange(dir.len() as int + 10, p1.len() as int - 4) =~= path_of_name(n1));
        assert(p2.subrange(dir.len() as int + 10, p2.len() as int - 4) =~= path_of_name(n2));
        lemma_name_path_round_trip(n1);
        lemma_name_path_round_trip(n2);
    }
}

impl SortKey for ProjectName {
    open spec fn key(&self) -> (Seq<char>, Seq<char>) {
        (self@, Seq::empty())
    }

    fn key_less(&self, other: &Self) -> (r: bool)
        ensures
            r == pair_lt(self.key(), other.key()),
    {
        str_less(self.name.as_str(), other.name.as_str())
    }

    fn key_same(&self, other: &Self) -> (r: bool)
        ensures
            r == (self.key() == other.key()),
    {
        str_same(self.name.as_str(), other.name.as_str())
    }
}

impl ProjectName {
    /// Wraps a string as a project name after checking its shape; a string
    /// that no directory tree could represent is rejected.
    pub fn from_string(name: String) -> (r: Result<ProjectName, StoreError>)
        ensures
            r matches Ok(pn) ==> pn@ == name@ && valid_name(name@),
            r matches Err(e) ==> e == StoreError::PathEncodingError && !valid_name(name@),
    {
        if name_is_valid(name.as_str()) {
            Ok(ProjectName { name })
        } else {
            Err(StoreError::PathEncodingError)
        }
    }

    /// Whether this name satisfies the name invariant.
    pub open spec fn wf(&self) -> bool {
        valid_name(self@)
    }
}

/// Relies on `String::push`: appends the one character at the end.
#[verifier::external_body]
pub(crate) fn push_char(s: &mut String, c: char)
    ensures
        final(s)@ == old(s)@.push(c),
{
    s.push(c);
}

impl ProjectName {
    /// The name's place on disk, relative to the store root: each dot
    /// becomes the directory delimiter.
    pub fn normalize_path(&self) -> (r: String)
        ensures
            r@ == path_of_name(self@),
    {
        let s = self.name.as_str();
        let n = s.unicode_len();
        let mut out = String::new();
        let mut i: usize = 0;
        loop
            invariant
                n == s@.len(),
                i <= n,
                s@ == self@,
                out@ =~= path_of_name(self@).subrange(0, i as int),
            ensures
                i == n,
                out@ =~= path_of_name(self@).subrange(0, n as int),
            decreases n - i,
        {
            if i == n {
                break;
            }
            let c = s.get_char(i);
            let ghost before = out@;
            if c == '.' {
                push_char(&mut out, '/');
            } else {
                push_char(&mut out, c);
            }
            proof {
                assert(path_of_name(self@)[i as int] == (if c == '.' {
                    '/'
                } else {
                    c
                }));
                assert(out@ =~= path_of_name(self@).subrange(0, i as int + 1));
            }
            i = i + 1;
        }
        proof {
            assert(path_of_name(self@).subrange(0, n as int) =~= path_of_name(self@));
        }
        out
    }
}

/// An archived project's path is still a store path, and the name it
/// decodes to begins with the archive directory's dot — so no valid name
/// ever decodes from it.
pub proof fn lemma_archive_path_decodes_dotted(dir: Seq<char>, name: Seq<char>)
    requires
        valid_name(name),
    ensures
        is_store_path(dir, archive_path_spec(dir, name)),
        store_path_name(dir, archive_path_spec(dir, name)).len() > 0,
        store_path_name(dir, archive_path_spec(dir, name))[0] == '.',
        !valid_name(store_path_name(dir, archive_path_spec(dir, name))),
{
    let p = archive_path_spec(dir, name);
    assert(p.subrange(0, dir.len() as int) =~= dir);
    assert(p.subrange(p.len() as int - 4, p.len() as int) =~= extension_seq());
    let mid = p.subrange(dir.len() as int + 1, p.len() as int - 4);
    assert(mid[0] == archive_seq()[0]);
    assert(store_path_name(dir, p)[0] == '.');
}

/// Decides the name invariant, one character at a time.
pub fn name_is_valid(s: &str) -> (r: bool)
    ensures
        r == valid_name(s@),
{
    let n = s.unicode_len();
    if n == 0 {
        return false;
    }
    if s.get_char(0) == '.' {
        return false;
    }
    if s.get_char(n - 1) == '.' {
        return false;
    }
    let mut i: usize = 0;
    loop
        invariant
            n == s@.len(),
            0 < n,
            i <= n,
            s@[0] != '.',
            s@[n - 1] != '.',
            forall|j: int| 0 <= j < i ==> s@[j] != '/',
            forall|j: int| 0 < j < i ==> !(s@[j - 1] == '.' && #[trigger] s@[j] == '.'),
        ensures
            i == n,
            forall|j: int| 0 <= j < n ==> s@[j] != '/',
            forall|j: int| 0 < j < n ==> !(s@[j - 1] == '.' && #[trigger] s@[j] == '.'),
        decreases n - i,
    {
        if i == n {
            break;
        }
        let c = s.get_char(i);
        if c == '/' {
            proof {
                assert(s@[i as int] == '/');
            }
            return false;
        }
        if i > 0 && c == '.' {
            if s.get_char(i - 1) == '.' {
                proof {
                    assert(s@[i - 1] == '.' && s@[i as int] == '.');
                }
                return false;
            }
        }
        i = i + 1;
    }
    true
}

} // verus!
