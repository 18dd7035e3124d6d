use vstd::prelude::*;

use crate::ordering::lemma_str_lt_connected;
use crate::ordering::lemma_str_lt_irreflexive;
use crate::ordering::lemma_str_lt_transitive;
use crate::ordering::str_lt;

verus! {

/// Strict order on a pair of character sequences: by the first component,
/// then by the second.  The store's collections all sort by such a key.
pub open spec fn pair_lt(a: (Seq<char>, Seq<char>), b: (Seq<char>, Seq<char>)) -> bool {
    str_lt(a.0, b.0) || (a.0 == b.0 && str_lt(a.1, b.1))
}

pub proof fn lemma_pair_lt_irreflexive(a: (Seq<char>, Seq<char>))
    ensures
        !pair_lt(a, a),
{
    lemma_str_lt_irreflexive(a.0);
    lemma_str_lt_irreflexive(a.1);
}

pub proof fn lemma_pair_lt_connected(a: (Seq<char>, Seq<char>), b: (Seq<char>, Seq<char>))
    requires
        !pair_lt(a, b),
        !pair_lt(b, a),
    ensures
        a == b,
{
    lemma_str_lt_connected(a.0, b.0);
    lemma_str_lt_connected(a.1, b.1);
}

pub proof fn lemma_pair_lt_transitive(
    a: (Seq<char>, Seq<char>),
    b: (Seq<char>, Seq<char>),
    c: (Seq<char>, Seq<char>),
)
    requires
        pair_lt(a, b),
        pair_lt(b, c),
    ensures
        pair_lt(a, c),
{
    if str_lt(a.0, b.0) && str_lt(b.0, c.0) {
        lemma_str_lt_transitive(a.0, b.0, c.0);
    }
    if a.0 == c.0 && str_lt(a.1, b.1) && str_lt(b.1, c.1) {
        lemma_str_lt_transitive(a.1, b.1, c.1);
    }
}

/// An element of a sorted collection: it exposes the key it is ordered by,
/// and decides the order and key equality executably.
pub trait SortKey: Sized {
    spec fn key(&self) -> (Seq<char>, Seq<char>);

    fn key_less(&self, other: &Self) -> (r: bool)
        ensures
            r == pair_lt(self.key(), other.key()),
    ;

    fn key_same(&self, other: &Self) -> (r: bool)
        ensures
            r == (self.key() == other.key()),
    ;
}

/// The elements are strictly increasing by key: sorted and duplicate-free.
pub open spec fn sorted_by_key<T: SortKey>(s: Seq<T>) -> bool {
    forall|i: int, j: int| 0 <= i < j < s.len() ==> pair_lt(#[trigger] s[i].key(), #[trigger] s[j].key())
}

/// Some element of `s` has the key `k`.
pub open spec fn has_key<T: SortKey>(s: Seq<T>, k: (Seq<char>, Seq<char>)) -> bool {
    exists|i: int| 0 <= i < s.len() && (#[trigger] s[i].key()) == k
}

/// Inserts `x` into the sorted, duplicate-free vector `v`, keeping it
/// sorted and duplicate-free; an element whose key is already present is
/// dropped.
pub fn insert_sorted<T: SortKey>(v: &mut Vec<T>, x: T)
    requires
        sorted_by_key(old(v)@),
    ensures
        sorted_by_key(final(v)@),
        forall|k: (Seq<char>, Seq<char>)|
            has_key(final(v)@, k) == (has_key(old(v)@, k) || k == x.key()),
        final(v)@.len() == old(v)@.len() + (if has_key(old(v)@, x.key()) {
            0int
        } else {
            1int
        }),
        forall|i: int|
            0 <= i < final(v)@.len() ==> old(v)@.contains(#[trigger] final(v)@[i])
                || final(v)@[i] == x,
{
    let ghost olds = v@;
    let mut i: usize = 0;
    loop
        invariant
            sorted_by_key(v@),
            v@ == olds,
            i <= v@.len(),
            forall|j: int| 0 <= j < i ==> pair_lt(#[trigger] v@[j].key(), x.key()),
        ensures
            i <= olds.len(),
            forall|j: int| 0 <= j < i ==> pair_lt(#[trigger] olds[j].key(), x.key()),
            i < olds.len() ==> !pair_lt(olds[i as int].key(), x.key()),
        decreases v@.len() - i,
    {
        if i == v.len() {
            break;
        }
        if !v[i].key_less(&x) {
            break;
        }
        i = i + 1;
    }
    if i < v.len() {
        if v[i].key_same(&x) {
            proof {
                assert(has_key(olds, x.key()));
                assert(forall|t: int|
                    0 <= t < olds.len() ==> olds.contains(#[trigger] olds[t]));
            }
            return ;
        }
    }
    proof {
        if i < olds.len() {
            if !pair_lt(x.key(), olds[i as int].key()) {
                lemma_pair_lt_connected(olds[i as int].key(), x.key());
            }
            assert(pair_lt(x.key(), olds[i as int].key()));
        }
        if has_key(olds, x.key()) {
            let w = choose|w: int| 0 <= w < olds.len() && olds[w].key() == x.key();
            if w < i {
                lemma_pair_lt_irreflexive(x.key());
            } else {
                assert(i < olds.len());
                if w > i {
                    lemma_pair_lt_transitive(x.key(), olds[i as int].key(), olds[w].key());
                }
                lemma_pair_lt_irreflexive(x.key());
            }
        }
    }
    let ghost xkey = x.key();
    v.insert(i, x);
    proof {
        let news = v@;
        assert(news == olds.insert(i as int, x));
        assert(news.len() == olds.len() + 1);
        assert(forall|j: int| 0 <= j < i ==> news[j] == olds[j]);
        assert(news[i as int].key() == xkey);
        assert(forall|j: int| i < j < news.len() ==> news[j] == olds[j - 1]);
        assert forall|p: int, q: int| 0 <= p < q < news.len() implies pair_lt(
            #[trigger] news[p].key(),
            #[trigger] news[q].key(),
        ) by {
            if p < i && q == i {
            } else if p == i && q > i {
                if i < olds.len() {
                    if i < q - 1 {
                        lemma_pair_lt_transitive(
                            xkey,
                            olds[i as int].key(),
                            olds[q - 1].key(),
                        );
                    }
                }
            } else if p < i && q > i {
                if p < q - 1 {
                } else {
                    assert(p == q - 1 && q == i + 1);
                    assert(pair_lt(news[p].key(), xkey));
                    assert(i < olds.len());
                    lemma_pair_lt_transitive(news[p].key(), xkey, olds[i as int].key());
                }
            }
        }
        assert forall|k: (Seq<char>, Seq<char>)|
            has_key(news, k) == (has_key(olds, k) || k == xkey) by {
            if has_key(news, k) {
                let w = choose|w: int| 0 <= w < news.len() && news[w].key() == k;
                if w < i {
                    assert(olds[w].key() == k);
                } else if w == i {
                } else {
                    assert(olds[w - 1].key() == k);
                }
            }
            if has_key(olds, k) {
                let w = choose|w: int| 0 <= w < olds.len() && olds[w].key() == k;
                if w < i {
                    assert(news[w].key() == k);
                } else {
                    assert(news[w + 1].key() == k);
                }
            }
            if k == xkey {
                assert(news[i as int].key() == k);
            }
        }
        assert forall|t: int|
            0 <= t < news.len() implies olds.contains(#[trigger] news[t]) || news[t] == x by {
            if t < i {
                assert(news[t] == olds[t]);
                assert(olds.contains(olds[t]));
            } else if t > i {
                assert(news[t] == olds[t - 1]);
                assert(olds.contains(olds[t - 1]));
            }
        }
    }
}

/// Pushing an element onto a sequence adds exactly it to the membership.
pub proof fn lemma_push_contains<T>(s: Seq<T>, e: T, k: T)
    ensures
        s.push(e).contains(k) == (s.contains(k) || k == e),
{
    if s.contains(k) {
        let w = choose|w: int| 0 <= w < s.len() && s[w] == k;
        assert(s.push(e)[w] == k);
    }
    if k == e {
        assert(s.push(e)[s.len() as int] == k);
    }
    if s.push(e).contains(k) {
        let w = choose|w: int| 0 <= w < s.push(e).len() && s.push(e)[w] == k;
        if w < s.len() {
            assert(s[w] == k);
        }
    }
}

/// Two sorted, duplicate-free sequences with the same keys are the same
/// sequence of keys: the order a collection was filled in leaves no trace.
pub proof fn lemma_sorted_same_keys<T: SortKey>(a: Seq<T>, b: Seq<T>)
    requires
        sorted_by_key(a),
        sorted_by_key(b),
        forall|k: (Seq<char>, Seq<char>)| has_key(a, k) == has_key(b, k),
    ensures
        a.len() == b.len(),
        forall|i: int| 0 <= i < a.len() ==> (#[trigger] a[i].key()) == b[i].key(),
    decreases a.len(),
{
    if a.len() == 0 {
        if b.len() > 0 {
            assert(has_key(b, b[0].key()));
        }
    } else if b.len() == 0 {
        assert(has_key(a, a[0].key()));
    } else {
        assert(has_key(a, a[0].key()));
        assert(has_key(b, b[0].key()));
        let wa = choose|w: int| 0 <= w < b.len() && b[w].key() == a[0].key();
        let wb = choose|w: int| 0 <= w < a.len() && a[w].key() == b[0].key();
        if wa > 0 {
            assert(pair_lt(b[0].key(), b[wa].key()));
        }
        if wb > 0 {
            assert(pair_lt(a[0].key(), a[wb].key()));
        }
        if a[0].key() != b[0].key() {
            assert(wa > 0 || wb > 0);
            if wa > 0 && wb > 0 {
                lemma_pair_lt_transitive(a[0].key(), a[wb].key(), b[wa].key());
                lemma_pair_lt_irreflexive(a[0].key());
            } else if wa > 0 {
                assert(b[0].key() == a[wb].key() && wb == 0);
            } else {
                assert(a[0].key() == b[wa].key() && wa == 0);
            }
        }
        assert(a[0].key() == b[0].key());
        let at = a.drop_first();
        let bt = b.drop_first();
        assert forall|k: (Seq<char>, Seq<char>)| has_key(at, k) == has_key(bt, k) by {
            if has_key(at, k) {
                let w = choose|w: int| 0 <= w < at.len() && at[w].key() == k;
                assert(a[w + 1].key() == k);
                assert(pair_lt(a[0].key(), k));
                assert(has_key(a, k));
                lemma_pair_lt_irreflexive(k);
                lemma_tail_keys(b, k);
            }
            if has_key(bt, k) {
                let w = choose|w: int| 0 <= w < bt.len() && bt[w].key() == k;
                assert(b[w + 1].key() == k);
                assert(pair_lt(b[0].key(), k));
                assert(has_key(b, k));
                lemma_pair_lt_irreflexive(k);
                lemma_tail_keys(a, k);
            }
        }
        assert(sorted_by_key(at)) by {
            assert(forall|i: int| 0 <= i < at.len() ==> (#[trigger] at[i]) == a[i + 1]);
        }
        assert(sorted_by_key(bt)) by {
            assert(forall|i: int| 0 <= i < bt.len() ==> (#[trigger] bt[i]) == b[i + 1]);
        }
        lemma_sorted_same_keys(at, bt);
        assert forall|i: int| 0 <= i < a.len() implies (#[trigger] a[i].key()) == b[i].key() by {
            if i > 0 {
                assert(at[i - 1].key() == bt[i - 1].key());
                assert(a[i] == at[i - 1] && b[i] == bt[i - 1]);
            }
        }
    }
}

/// Helper: a key held by a sorted sequence, other than the head's key,
/// is held by the tail.
proof fn lemma_tail_keys<T: SortKey>(s: Seq<T>, k: (Seq<char>, Seq<char>))
    requires
        sorted_by_key(s),
        s.len() > 0,
        has_key(s, k),
        s[0].key() != k,
    ensures
        has_key(s.drop_first(), k),
{
    let w = choose|w: int| 0 <= w < s.len() && s[w].key() == k;
    assert(w > 0);
    assert(s.drop_first()[w - 1].key() == k);
}

} // verus!
