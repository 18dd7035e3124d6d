use vstd::prelude::*;

use crate::name::ProjectName;
use crate::name::lemma_paths_injective;
use crate::name::project_path_spec;
use crate::name::valid_name;
use crate::store::lookup;
use crate::record::Notes;
use crate::record::encoding_of;
use crate::record::lemma_encoding_concat;
use crate::record::lemma_notes_no_duplicates;
use crate::sorted::SortKey;
use crate::sorted::has_key;
use crate::sorted::lemma_sorted_same_keys;
use crate::sorted::sorted_by_key;

verus! {

/// Writing distinct notes to a fresh project and reading the project back
/// yields a note set of exactly that size: a read's note set has one
/// member per distinct record in the file, so none of the written notes
/// is lost and none is duplicated.
pub proof fn lemma_write_read_consistency(notes: Notes, rows: Seq<(Seq<char>, Seq<char>)>)
    requires
        notes.wf(),
        rows.no_duplicates(),
        forall|k: (Seq<char>, Seq<char>)| notes@.contains(k) == rows.contains(k),
    ensures
        notes@.len() == rows.len(),
{
    lemma_notes_no_duplicates(notes);
    notes@.unique_seq_to_set();
    rows.unique_seq_to_set();
    assert(notes@.to_set() =~= rows.to_set());
}

/// The archive merge loses no record and invents none: the merged file is
/// the archived records followed by the active ones, and its note set is
/// the union of the two.
pub proof fn lemma_archive_merge_union(
    arch: Seq<(Seq<char>, Seq<char>)>,
    active: Seq<(Seq<char>, Seq<char>)>,
    k: (Seq<char>, Seq<char>),
)
    ensures
        encoding_of(arch + active) == encoding_of(arch) + encoding_of(active),
        (arch + active).contains(k) == (arch.contains(k) || active.contains(k)),
{
    lemma_encoding_concat(arch, active);
    let both = arch + active;
    if arch.contains(k) {
        let w = choose|w: int| 0 <= w < arch.len() && arch[w] == k;
        assert(both[w] == k);
    }
    if active.contains(k) {
        let w = choose|w: int| 0 <= w < active.len() && active[w] == k;
        assert(both[w + arch.len()] == k);
    }
    if both.contains(k) {
        let w = choose|w: int| 0 <= w < both.len() && both[w] == k;
        if w < arch.len() {
            assert(arch[w] == k);
        } else {
            assert(active[w - arch.len()] == k);
        }
    }
}

/// A write to one project makes exactly that project listable and leaves
/// every other name's presence untouched: filling projects one by one
/// builds up exactly their set of names, in whatever order.
pub proof fn lemma_write_extends_listing(
    pre: Seq<(Seq<char>, Seq<u8>)>,
    post: Seq<(Seq<char>, Seq<u8>)>,
    dir: Seq<char>,
    n: Seq<char>,
    m: Seq<char>,
)
    requires
        valid_name(n),
        valid_name(m),
        lookup(post, project_path_spec(dir, n)) is Some,
        forall|q: Seq<char>|
            q != project_path_spec(dir, n) ==> #[trigger] lookup(post, q) == lookup(pre, q),
    ensures
        lookup(post, project_path_spec(dir, n)) is Some,
        m != n ==> lookup(post, project_path_spec(dir, m)) == lookup(
            pre,
            project_path_spec(dir, m),
        ),
{
    if m != n {
        lemma_paths_injective(dir, m, n);
    }
}

/// Listing the store twice, with nothing written in between, gives the
/// same names in the same order: a listing is a function of the store's
/// files alone, not of the order the tree was walked in.
pub proof fn lemma_listing_deterministic(a: Seq<ProjectName>, b: Seq<ProjectName>)
    requires
        sorted_by_key(a),
        sorted_by_key(b),
        forall|k: (Seq<char>, Seq<char>)| has_key(a, k) == has_key(b, k),
    ensures
        a.len() == b.len(),
        forall|i: int| 0 <= i < a.len() ==> (#[trigger] a[i])@ == b[i]@,
{
    lemma_sorted_same_keys(a, b);
    assert forall|i: int| 0 <= i < a.len() implies (#[trigger] a[i])@ == b[i]@ by {
        assert(a[i].key() == b[i].key());
    }
}

} // verus!
