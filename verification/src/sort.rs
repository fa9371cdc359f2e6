//! Ordering of query results: a stable key made of a rank (larger first)
//! and a collation key (smaller first), and an insertion sort on it.

use vstd::prelude::*;
use vstd::multiset::Multiset;
use crate::text::{key_less, lemma_seq_lt_asymmetric, lemma_seq_lt_transitive, seq_lt};

verus! {

broadcast use vstd::seq_lib::group_to_multiset_ensures;

/// A sort key: results with a larger `rank` come first; among equal ranks,
/// the smaller `text` (lexicographically) comes first.
pub struct SortKey {
    pub rank: i64,
    pub text: Vec<u32>,
}

/// An item to be ordered, with its key.
pub struct Keyed<T> {
    pub key: SortKey,
    pub item: T,
}

/// `a` strictly precedes `b`.
pub open spec fn key_lt(a: SortKey, b: SortKey) -> bool {
    a.rank > b.rank || (a.rank == b.rank && seq_lt(a.text@, b.text@))
}

/// No item strictly precedes an item before it.
pub open spec fn keys_sorted<T>(s: Seq<Keyed<T>>) -> bool {
    forall|i: int, j: int| 0 <= i < j < s.len() ==> !key_lt(#[trigger] s[j].key, #[trigger] s[i].key)
}

proof fn lemma_key_lt_transitive(a: SortKey, b: SortKey, c: SortKey)
    requires
        key_lt(a, b),
        key_lt(b, c),
    ensures
        key_lt(a, c),
{
    if a.rank == b.rank && b.rank == c.rank {
        lemma_seq_lt_transitive(a.text@, b.text@, c.text@);
    }
}

/// Decides `key_lt(a, b)`.
pub fn key_before(a: &SortKey, b: &SortKey) -> (r: bool)
    ensures
        r == key_lt(*a, *b),
{
    if a.rank != b.rank {
        a.rank > b.rank
    } else {
        key_less(&a.text, &b.text)
    }
}

proof fn lemma_insert_to_multiset<A>(s: Seq<A>, p: int, x: A)
    requires
        0 <= p <= s.len(),
    ensures
        s.insert(p, x).to_multiset() =~= s.to_multiset().insert(x),
{
    broadcast use vstd::multiset::group_multiset_axioms;

    let t = s.insert(p, x);
    s.insert_ensures(p, x);
    assert(t.remove(p) =~= s);
    assert(t.contains(x)) by {
        assert(t[p] == x);
    }
    assert(t.to_multiset().count(x) > 0);
    assert(t.to_multiset() =~= t.to_multiset().remove(x).insert(x));
}

proof fn lemma_insert_keeps_sorted<T>(s: Seq<Keyed<T>>, p: int, x: Keyed<T>)
    requires
        0 <= p <= s.len(),
        keys_sorted(s),
        forall|j: int| 0 <= j < p ==> !key_lt(x.key, #[trigger] s[j].key),
        p < s.len() ==> key_lt(x.key, s[p].key),
    ensures
        keys_sorted(s.insert(p, x)),
{
    let t = s.insert(p, x);
    s.insert_ensures(p, x);
    assert forall|i: int, j: int| 0 <= i < j < t.len() implies !key_lt(
        #[trigger] t[j].key,
        #[trigger] t[i].key,
    ) by {
        if j < p {
            assert(t[j] == s[j] && t[i] == s[i]);
            assert(!key_lt(s[j].key, s[i].key));
        } else if j == p {
            assert(t[i] == s[i]);
            assert(t[j] == x);
            assert(!key_lt(x.key, s[i].key));
        } else {
            assert(t[j] == s[j - 1]);
            if i < p {
                assert(t[i] == s[i]);
                assert(!key_lt(s[j - 1].key, s[i].key));
            } else if i == p {
                assert(t[i] == x);
                if key_lt(s[j - 1].key, x.key) {
                    lemma_key_lt_transitive(s[j - 1].key, x.key, s[p].key);
                    lemma_seq_lt_asymmetric(s[p].key.text@, s[p].key.text@);
                    assert(!key_lt(s[j - 1].key, s[p].key));
                }
            } else {
                assert(t[i] == s[i - 1]);
                assert(!key_lt(s[j - 1].key, s[i - 1].key));
            }
        }
    }
}

/// Inserts `x` before the first item that it strictly precedes.
fn insert_sorted<T>(out: &mut Vec<Keyed<T>>, x: Keyed<T>)
    requires
        keys_sorted(old(out)@),
    ensures
        keys_sorted(final(out)@),
        final(out)@.to_multiset() == old(out)@.to_multiset().insert(x),
        final(out)@.len() == old(out)@.len() + 1,
{
    let mut p: usize = 0;
    while p < out.len() && !key_before(&x.key, &out[p].key)
        invariant
            p <= out.len(),
            forall|j: int| 0 <= j < p ==> !key_lt(x.key, #[trigger] out@[j].key),
        decreases out.len() - p,
    {
        p = p + 1;
    }
    proof {
        lemma_insert_to_multiset(out@, p as int, x);
        lemma_insert_keeps_sorted(out@, p as int, x);
    }
    out.insert(p, x);
}

/// Orders `items` by key; the result holds the same items.
pub fn sort_keyed<T>(items: Vec<Keyed<T>>) -> (out: Vec<Keyed<T>>)
    ensures
        out@.to_multiset() == items@.to_multiset(),
        out@.len() == items@.len(),
        keys_sorted(out@),
{
    let ghost orig = items@;
    let mut rest = items;
    let mut out: Vec<Keyed<T>> = Vec::new();
    proof {
        assert(out@.to_multiset() =~= Multiset::empty()) by {
            broadcast use vstd::multiset::group_multiset_axioms;
        }
    }
    while rest.len() > 0
        invariant
            out@.to_multiset().add(rest@.to_multiset()) == orig.to_multiset(),
            out@.len() + rest@.len() == orig.len(),
            keys_sorted(out@),
        decreases rest.len(),
    {
        let ghost before = rest@;
        let ghost before_out = out@;
        let x = rest.pop().unwrap();
        insert_sorted(&mut out, x);
        proof {
            assert(before =~= rest@.push(x));
            assert(out@.to_multiset().add(rest@.to_multiset()) =~= before_out.to_multiset().add(
                before.to_multiset(),
            )) by {
                broadcast use vstd::multiset::group_multiset_axioms;
            }
        }
    }
    proof {
        assert(rest@.to_multiset() =~= Multiset::empty()) by {
            broadcast use vstd::multiset::group_multiset_axioms;
        }
        assert(out@.to_multiset() =~= out@.to_multiset().add(rest@.to_multiset())) by {
            broadcast use vstd::multiset::group_multiset_axioms;
        }
    }
    out
}

/// An element of one arrangement is an element of the other.
pub proof fn lemma_from_same_items<A>(a: Seq<A>, b: Seq<A>, k: int)
    requires
        a.to_multiset() == b.to_multiset(),
        0 <= k < b.len(),
    ensures
        exists|j: int| 0 <= j < a.len() && a[j] == b[k],
{
    assert(b.contains(b[k]));
    assert(b.to_multiset().count(b[k]) > 0);
    assert(a.to_multiset().count(b[k]) > 0);
    assert(a.contains(b[k]));
}

/// Two arrangements of the same items: each element of one is an element of
/// the other, and distinct elements stay distinct.
pub proof fn lemma_same_items<A>(a: Seq<A>, b: Seq<A>)
    requires
        a.to_multiset() == b.to_multiset(),
    ensures
        forall|k: int| 0 <= k < b.len() ==> a.contains(#[trigger] b[k]),
        forall|j: int| 0 <= j < a.len() ==> b.contains(#[trigger] a[j]),
        a.no_duplicates() ==> b.no_duplicates(),
{
    assert forall|k: int| 0 <= k < b.len() implies a.contains(#[trigger] b[k]) by {
        assert(b.contains(b[k]));
        assert(b.to_multiset().count(b[k]) > 0);
        assert(a.to_multiset().count(b[k]) > 0);
    }
    assert forall|j: int| 0 <= j < a.len() implies b.contains(#[trigger] a[j]) by {
        assert(a.contains(a[j]));
        assert(a.to_multiset().count(a[j]) > 0);
        assert(b.to_multiset().count(a[j]) > 0);
    }
    if a.no_duplicates() {
        a.lemma_multiset_has_no_duplicates();
        b.lemma_multiset_has_no_duplicates_conv();
    }
}

/// The items of keyed entries, in order.
pub open spec fn items_of<T>(s: Seq<Keyed<T>>) -> Seq<T> {
    s.map_values(|x: Keyed<T>| x.item)
}

/// Orders `items` by key and hands out the items alone; `order` is the
/// keyed arrangement they come in.
pub fn sort_items<T>(items: Vec<Keyed<T>>) -> (res: (Vec<T>, Ghost<Seq<Keyed<T>>>))
    ensures
        res.1@.to_multiset() == items@.to_multiset(),
        res.1@.len() == items@.len(),
        keys_sorted(res.1@),
        res.0@ == items_of(res.1@),
{
    let mut sorted = sort_keyed(items);
    let n = sorted.len();
    let ghost order = sorted@;
    let mut out: Vec<T> = Vec::new();
    let mut k: usize = 0;
    while sorted.len() > 0
        invariant
            k + sorted@.len() == order.len(),
            order.len() == n,
            sorted@ == order.skip(k as int),
            out@ == items_of(order.take(k as int)),
        decreases sorted.len(),
    {
        let x = sorted.remove(0);
        proof {
            assert(order.skip(k as int)[0] == x);
            assert(sorted@ =~= order.skip(k + 1));
        }
        out.push(x.item);
        k = k + 1;
        proof {
            assert(out@ =~= items_of(order.take(k as int)));
        }
    }
    proof {
        assert(order.take(k as int) =~= order);
    }
    (out, Ghost(order))
}

} // verus!
