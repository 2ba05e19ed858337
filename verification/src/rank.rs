//! Ranking of balance entries: richest first, equal sums by address bytes.
use vstd::prelude::*;
use vstd::seq_lib::{to_multiset_build, to_multiset_remove};
use crate::ledger::{balance_views, bytes_copy};

verus! {

/// `a` and `b` agree before position `k`, and there `a` ends or has the smaller byte.
pub open spec fn less_at(a: Seq<u8>, b: Seq<u8>, k: int) -> bool {
    &&& 0 <= k <= a.len()
    &&& k < b.len()
    &&& forall|j: int| 0 <= j < k ==> a[j] == b[j]
    &&& (k < a.len() ==> a[k] < b[k])
}

/// The lexicographic order of byte strings.
pub open spec fn bytes_less(a: Seq<u8>, b: Seq<u8>) -> bool {
    exists|k: int| less_at(a, b, k)
}

/// Whether entry `x` ranks strictly before entry `y`: by the larger sum,
/// and among equal sums by the smaller address.
pub open spec fn ranks_before(x: (Seq<u8>, i64), y: (Seq<u8>, i64)) -> bool {
    x.1 > y.1 || (x.1 == y.1 && bytes_less(x.0, y.0))
}

/// No entry ranks before one that stands earlier.
pub open spec fn ranked(s: Seq<(Seq<u8>, i64)>) -> bool {
    forall|i: int, j: int| 0 <= i < j < s.len() ==> !ranks_before(#[trigger] s[j], #[trigger] s[i])
}

/// The lexicographic order is transitive and never holds both ways.
pub proof fn lemma_bytes_less_order(a: Seq<u8>, b: Seq<u8>, c: Seq<u8>)
    ensures
        bytes_less(a, b) && bytes_less(b, c) ==> bytes_less(a, c),
        !(bytes_less(a, b) && bytes_less(b, a)),
{
    if bytes_less(a, b) && bytes_less(b, c) {
        let k1 = choose|k: int| less_at(a, b, k);
        let k2 = choose|k: int| less_at(b, c, k);
        let k = if k1 <= k2 { k1 } else { k2 };
        assert(less_at(a, c, k));
    }
    if bytes_less(a, b) && bytes_less(b, a) {
        let k1 = choose|k: int| less_at(a, b, k);
        let k2 = choose|k: int| less_at(b, a, k);
        if k1 < k2 {
            assert(b[k1] == a[k1]);
        } else if k2 < k1 {
            assert(a[k2] == b[k2]);
        }
    }
}

proof fn lemma_bytes_differ_from(a: Seq<u8>, b: Seq<u8>, i: int)
    requires
        0 <= i <= a.len(),
        i <= b.len(),
        forall|j: int| 0 <= j < i ==> a[j] == b[j],
        a != b,
    ensures
        bytes_less(a, b) || bytes_less(b, a),
    decreases a.len() - i,
{
    if i == a.len() && i == b.len() {
        assert(a =~= b);
    } else if i == a.len() {
        assert(less_at(a, b, i));
    } else if i == b.len() {
        assert(less_at(b, a, i));
    } else if a[i] < b[i] {
        assert(less_at(a, b, i));
    } else if b[i] < a[i] {
        assert(less_at(b, a, i));
    } else {
        lemma_bytes_differ_from(a, b, i + 1);
    }
}

/// Of two different byte strings one comes before the other.
pub proof fn lemma_bytes_less_total(a: Seq<u8>, b: Seq<u8>)
    requires
        a != b,
    ensures
        bytes_less(a, b) || bytes_less(b, a),
{
    lemma_bytes_differ_from(a, b, 0);
}

/// Of two entries with different addresses one ranks before the other: a
/// ranked list of an index, where no address occurs twice, has one order only.
pub proof fn lemma_ranks_before_total(x: (Seq<u8>, i64), y: (Seq<u8>, i64))
    requires
        x.0 != y.0,
    ensures
        ranks_before(x, y) || ranks_before(y, x),
{
    lemma_bytes_less_total(x.0, y.0);
}

/// Ranking is transitive and never holds both ways.
pub proof fn lemma_ranks_before_order(x: (Seq<u8>, i64), y: (Seq<u8>, i64), z: (Seq<u8>, i64))
    ensures
        ranks_before(x, y) && ranks_before(y, z) ==> ranks_before(x, z),
        !(ranks_before(x, y) && ranks_before(y, x)),
{
    lemma_bytes_less_order(x.0, y.0, z.0);
    lemma_bytes_less_order(x.0, y.0, x.0);
}

/// Whether `a` comes before `b` in the lexicographic order.
pub fn bytes_before(a: &Vec<u8>, b: &Vec<u8>) -> (r: bool)
    ensures
        r == bytes_less(a@, b@),
{
    let mut i: usize = 0;
    while i < a.len() && i < b.len()
        invariant
            i <= a.len(),
            i <= b.len(),
            forall|j: int| 0 <= j < i ==> a@[j] == b@[j],
        decreases a.len() - i,
    {
        if a[i] != b[i] {
            proof {
                if a@[i as int] < b@[i as int] {
                    assert(less_at(a@, b@, i as int));
                } else {
                    assert forall|k: int| !less_at(a@, b@, k) by {
                        if k > i && less_at(a@, b@, k) {
                            assert(a@[i as int] == b@[i as int]);
                        }
                    }
                }
            }
            return a[i] < b[i];
        }
        i += 1;
    }
    proof {
        if i < b.len() {
            assert(less_at(a@, b@, i as int));
        } else {
            assert forall|k: int| !less_at(a@, b@, k) by {}
        }
    }
    i < b.len()
}

/// Whether the entry `(a, x)` ranks strictly before `(b, y)`.
pub fn entry_before(a: &Vec<u8>, x: i64, b: &Vec<u8>, y: i64) -> (r: bool)
    ensures
        r == ranks_before((a@, x), (b@, y)),
{
    if x != y {
        x > y
    } else {
        bytes_before(a, b)
    }
}

proof fn lemma_insert_multiset<A>(s: Seq<A>, p: int, x: A)
    requires
        0 <= p <= s.len(),
    ensures
        s.insert(p, x).to_multiset() == s.to_multiset().insert(x),
{
    let t = s.insert(p, x);
    assert(t.remove(p) =~= s);
    assert(t[p] == x);
    to_multiset_remove(t, p);
    t.to_multiset_ensures();
    assert(t.contains(x));
    assert(t.to_multiset() =~= s.to_multiset().insert(x));
}

/// The entries ranked: the same entries, richest first, equal sums in the
/// order of their addresses.
pub fn rank_entries(entries: &Vec<(Vec<u8>, i64)>) -> (r: Vec<(Vec<u8>, i64)>)
    ensures
        r@.len() == entries@.len(),
        balance_views(r@).to_multiset() == balance_views(entries@).to_multiset(),
        ranked(balance_views(r@)),
{
    let ghost all = balance_views(entries@);
    let mut r: Vec<(Vec<u8>, i64)> = Vec::new();
    let mut i: usize = 0;
    assert(balance_views(r@) =~= all.subrange(0, 0));
    while i < entries.len()
        invariant
            i <= entries.len(),
            all == balance_views(entries@),
            r@.len() == i,
            balance_views(r@).to_multiset() == all.subrange(0, i as int).to_multiset(),
            ranked(balance_views(r@)),
        decreases entries.len() - i,
    {
        let sum = entries[i].1;
        let address = bytes_copy(&entries[i].0);
        let ghost x = (address@, sum);
        let ghost before = balance_views(r@);
        let mut p: usize = 0;
        while p < r.len() && !entry_before(&address, sum, &r[p].0, r[p].1)
            invariant
                p <= r.len(),
                x == (address@, sum),
                before == balance_views(r@),
                forall|j: int| 0 <= j < p ==> !ranks_before(x, #[trigger] before[j]),
            decreases r.len() - p,
        {
            p += 1;
        }
        r.insert(p, (address, sum));
        proof {
            let after = balance_views(r@);
            assert(after =~= before.insert(p as int, x));
            lemma_insert_multiset(before, p as int, x);
            assert(all.subrange(0, i + 1) =~= all.subrange(0, i as int).push(x));
            to_multiset_build(all.subrange(0, i as int), x);
            assert forall|a: int, b: int| 0 <= a < b < after.len() implies !ranks_before(
                #[trigger] after[b],
                #[trigger] after[a],
            ) by {
                if b == p {
                    assert(after[a] == before[a]);
                } else if a == p {
                    assert(after[b] == before[b - 1]);
                    if b - 1 > p {
                        assert(!ranks_before(before[b - 1], before[p as int]));
                    }
                    lemma_ranks_before_order(after[b], x, before[p as int]);
                } else {
                    let sa = if a < p { a } else { a - 1 };
                    let sb = if b < p { b } else { b - 1 };
                    assert(after[a] == before[sa]);
                    assert(after[b] == before[sb]);
                }
            }
        }
        i += 1;
    }
    assert(all.subrange(0, i as int) =~= all);
    r
}

} // verus!
