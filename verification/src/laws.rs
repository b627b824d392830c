//! The laws this library states about its pipeline, each proved from the
//! contracts of the passes.
use crate::blkextends::{blk_resolvable, expanded_items};
use crate::extends::{expanded_fields, fs_resolvable};
use crate::merge::{find_name, lemma_find_name, lemma_merge_disjoint_is_concat, lemma_merge_unique, spec_merge, upsert};
use crate::order::{
    key_leq, lemma_sort_idempotent, lemma_sorted_unique_names, lemma_spec_sort_props, sorted,
    spec_sort, unique_names, Key,
};
use crate::ir::{SpecBlock, SpecFieldSet};
use vstd::prelude::*;

verus! {

/// A permutation of a collection with pairwise distinct names again has
/// pairwise distinct names.
pub proof fn lemma_unique_names_permutation<K: Key>(x: Seq<K>, y: Seq<K>)
    requires
        unique_names(x),
        x.to_multiset() == y.to_multiset(),
    ensures
        unique_names(y),
{
    broadcast use vstd::seq_lib::group_to_multiset_ensures;

    assert forall|i: int, j: int|
        0 <= i < j < y.len() implies (#[trigger] y[i]).kname() != (#[trigger] y[j]).kname() by {
        if y[i].kname() == y[j].kname() {
            if y[i] == y[j] {
                // the same value twice: its count in x is at least two,
                // so it sits at two positions of x with one name
                let yd = y.remove(j);
                assert(yd.to_multiset() =~= y.to_multiset().remove(y[j]));
                assert(yd[i] == y[i]);
                assert(yd.to_multiset().contains(yd[i]));
                assert(x.to_multiset().remove(y[j]).contains(y[i]));
                assert(x.contains(y[i]));
                let a = choose|a: int| 0 <= a < x.len() && x[a] == y[i];
                let xd = x.remove(a);
                assert(xd.to_multiset() =~= x.to_multiset().remove(x[a]));
                assert(xd.to_multiset().contains(y[j]));
                assert(xd.contains(y[j]));
                let b0 = choose|b0: int| 0 <= b0 < xd.len() && xd[b0] == y[j];
                if b0 < a {
                    assert(x[b0] == xd[b0]);
                    assert(x[b0].kname() == x[a].kname());
                    assert(false);
                } else {
                    assert(x[b0 + 1] == xd[b0]);
                    assert(x[b0 + 1].kname() == x[a].kname());
                    assert(false);
                }
            } else {
                // two distinct values sharing a name: both occur in x
                assert(y.to_multiset().contains(y[i]));
                assert(y.to_multiset().contains(y[j]));
                assert(x.contains(y[i]));
                assert(x.contains(y[j]));
                let a = choose|a: int| 0 <= a < x.len() && x[a] == y[i];
                let b = choose|b: int| 0 <= b < x.len() && x[b] == y[j];
                assert(a != b);
                assert(x[a].kname() == x[b].kname());
                assert(false);
            }
        }
    }
}

/// Merge totality and order-independence: two documents with disjoint entity
/// names merge, in either order, to collections with the same elements, and
/// after the deterministic sort to the very same collection.
pub proof fn lemma_merge_disjoint_commutes<K: Key>(a: Seq<K>, b: Seq<K>)
    requires
        unique_names(a),
        unique_names(b),
        forall|i: int, j: int|
            0 <= i < a.len() && 0 <= j < b.len() ==> (#[trigger] a[i]).kname() != (
            #[trigger] b[j]).kname(),
    ensures
        spec_merge(a, b).to_multiset() == spec_merge(b, a).to_multiset(),
        spec_sort(spec_merge(a, b)) == spec_sort(spec_merge(b, a)),
{
    broadcast use vstd::seq_lib::group_to_multiset_ensures;

    lemma_merge_disjoint_is_concat(a, b);
    assert forall|i: int, j: int|
        0 <= i < b.len() && 0 <= j < a.len() implies (#[trigger] b[i]).kname() != (
    #[trigger] a[j]).kname() by {
        assert(a[j].kname() != b[i].kname());
    }
    lemma_merge_disjoint_is_concat(b, a);
    vstd::seq_lib::lemma_multiset_commutative(a, b);
    vstd::seq_lib::lemma_multiset_commutative(b, a);
    assert((a + b).to_multiset() =~= (b + a).to_multiset());
    assert(unique_names(a + b)) by {
        assert forall|i: int, j: int|
            0 <= i < j < (a + b).len() implies ((a + b)[i]).kname() != ((a + b)[j]).kname() by {
            if i < a.len() {
                assert((a + b)[i] == a[i]);
            } else {
                assert((a + b)[i] == b[i - a.len()]);
            }
            if j < a.len() {
                assert((a + b)[j] == a[j]);
            } else {
                assert((a + b)[j] == b[j - a.len()]);
            }
        }
    }
    lemma_spec_sort_props(a + b);
    lemma_spec_sort_props(b + a);
    lemma_unique_names_permutation(a + b, spec_sort(a + b));
    lemma_sorted_unique_names(spec_sort(a + b), spec_sort(b + a));
}

/// Sorting is canonical on collections with distinct names: any two
/// arrangements of the same entities sort to the same sequence. Together
/// with `lemma_sort_idempotent` this is the sorter's order-independence.
pub proof fn lemma_sort_canonical<K: Key>(x: Seq<K>, y: Seq<K>)
    requires
        unique_names(x),
        x.to_multiset() == y.to_multiset(),
    ensures
        spec_sort(x) == spec_sort(y),
{
    lemma_spec_sort_props(x);
    lemma_spec_sort_props(y);
    lemma_unique_names_permutation(x, spec_sort(x));
    lemma_sorted_unique_names(spec_sort(x), spec_sort(y));
}

/// Extends flattening correctness: in the merge of inherited members `b`
/// with locally declared members `l`, every local member stands as declared;
/// an inherited member survives exactly when its name is not overridden; and
/// nothing appears that neither side declared. A member of an overridden
/// name is the local one.
pub proof fn lemma_override_merge<K: Key>(b: Seq<K>, l: Seq<K>)
    requires
        unique_names(b),
        unique_names(l),
    ensures
        forall|i: int| 0 <= i < l.len() ==> spec_merge(b, l).contains(#[trigger] l[i]),
        forall|i: int|
            0 <= i < b.len() && find_name(l, (#[trigger] b[i]).kname()) == -1 ==> spec_merge(
                b,
                l,
            ).contains(b[i]),
        forall|i: int|
            0 <= i < spec_merge(b, l).len() ==> b.contains(#[trigger] spec_merge(b, l)[i])
                || l.contains(spec_merge(b, l)[i]),
        forall|i: int|
            0 <= i < spec_merge(b, l).len() && find_name(
                l,
                (#[trigger] spec_merge(b, l)[i]).kname(),
            ) != -1 ==> l.contains(spec_merge(b, l)[i]),
    decreases l.len(),
{
    if l.len() == 0 {
    } else {
        let ld = l.drop_last();
        let x = l.last();
        assert forall|i: int, j: int|
            0 <= i < j < ld.len() implies (#[trigger] ld[i]).kname() != (#[trigger] ld[j]).kname() by {
            assert(l[i] == ld[i] && l[j] == ld[j]);
        }
        lemma_override_merge(b, ld);
        let m0 = spec_merge(b, ld);
        let m = spec_merge(b, l);
        assert(m == upsert(m0, x));
        lemma_merge_unique(b, ld);
        lemma_find_name(m0, x.kname());
        let w = find_name(m0, x.kname());
        // locals survive
        assert forall|i: int| 0 <= i < l.len() implies m.contains(#[trigger] l[i]) by {
            if i == l.len() - 1 {
                if w == -1 {
                    assert(m[m0.len() as int] == x);
                } else {
                    assert(m[w] == x);
                }
            } else {
                assert(ld[i] == l[i]);
                assert(m0.contains(l[i]));
                let p = choose|p: int| 0 <= p < m0.len() && m0[p] == l[i];
                assert(l[i].kname() != x.kname());
                if w == -1 {
                    assert(m[p] == m0[p]);
                } else {
                    assert(w != p);
                    assert(m[p] == m0[p]);
                }
            }
        }
        // inherited members of non-overridden names survive
        assert forall|i: int|
            0 <= i < b.len() && find_name(l, (#[trigger] b[i]).kname()) == -1 implies m.contains(
            b[i],
        ) by {
            lemma_find_name(l, b[i].kname());
            lemma_find_name(ld, b[i].kname());
            if find_name(ld, b[i].kname()) != -1 {
                let q = find_name(ld, b[i].kname());
                assert(l[q] == ld[q]);
                assert(false);
            }
            assert(m0.contains(b[i]));
            let p = choose|p: int| 0 <= p < m0.len() && m0[p] == b[i];
            assert(b[i].kname() != x.kname()) by {
                if b[i].kname() == x.kname() {
                    assert(l[l.len() - 1] == x);
                    assert(false);
                }
            }
            if w == -1 {
                assert(m[p] == m0[p]);
            } else {
                assert(w != p);
                assert(m[p] == m0[p]);
            }
        }
        // nothing is invented
        assert forall|i: int|
            0 <= i < m.len() implies b.contains(#[trigger] m[i]) || l.contains(m[i]) by {
            if w == -1 && i == m0.len() as int {
                assert(m[i] == x);
                assert(l[l.len() - 1] == x);
            } else if w != -1 && i == w {
                assert(m[i] == x);
                assert(l[l.len() - 1] == x);
            } else {
                assert(m[i] == m0[i]);
                if ld.contains(m0[i]) {
                    let p = choose|p: int| 0 <= p < ld.len() && ld[p] == m0[i];
                    assert(l[p] == ld[p]);
                }
            }
        }
        // an overridden name carries the local member
        lemma_merge_unique(b, l);
        assert forall|i: int|
            0 <= i < m.len() && find_name(l, (#[trigger] m[i]).kname()) != -1 implies l.contains(
            m[i],
        ) by {
            lemma_find_name(l, m[i].kname());
            if (w == -1 && i == m0.len() as int) || (w != -1 && i == w) {
                assert(m[i] == x);
                assert(l[l.len() - 1] == x);
            } else {
                assert(m[i] == m0[i]);
                let q = find_name(l, m[i].kname());
                if q == l.len() - 1 {
                    // the name is the last local's: m0's member of that name
                    // is the one at position w, which was replaced
                    assert(m[i].kname() == x.kname());
                    lemma_find_name(m0, x.kname());
                    if w == -1 {
                        assert(false);
                    } else {
                        assert(m0[w].kname() == x.kname());
                        // two positions of m share the name unless i == w
                        assert(m[w] == x);
                        assert(x.kname() == m[i].kname());
                        lemma_merge_unique(b, l);
                        assert(false);
                    }
                } else {
                    assert(ld[q] == l[q]);
                    lemma_find_name(ld, m[i].kname());
                    if find_name(ld, m[i].kname()) == -1 {
                        assert(false);
                    }
                    assert(ld.contains(m0[i]));
                    let p = choose|p: int| 0 <= p < ld.len() && ld[p] == m0[i];
                    assert(l[p] == ld[p]);
                }
            }
        }
    }
}

/// A cycle in the extends graph leaves every entity on it unresolvable, so
/// the expander refuses the graph instead of looping.
pub proof fn lemma_cycle_unresolvable(s: Seq<SpecFieldSet>, c: Seq<int>)
    requires
        unique_names(s),
        c.len() >= 1,
        forall|k: int| 0 <= k < c.len() ==> 0 <= #[trigger] c[k] < s.len(),
        forall|k: int|
            0 <= k < c.len() ==> (#[trigger] s[c[k]]).extends == Option::Some(
                s[c[(k + 1) % (c.len() as int)]].name,
            ),
    ensures
        forall|k: int| 0 <= k < c.len() ==> !fs_resolvable(s, #[trigger] c[k]),
{
    assert forall|k: int| 0 <= k < c.len() implies !fs_resolvable(s, #[trigger] c[k]) by {
        assert forall|f: nat| !(expanded_fields(s, c[k], f) is Some) by {
            lemma_cycle_fuel(s, c, f);
        }
    }
}

proof fn lemma_cycle_fuel(s: Seq<SpecFieldSet>, c: Seq<int>, f: nat)
    requires
        unique_names(s),
        c.len() >= 1,
        forall|k: int| 0 <= k < c.len() ==> 0 <= #[trigger] c[k] < s.len(),
        forall|k: int|
            0 <= k < c.len() ==> (#[trigger] s[c[k]]).extends == Option::Some(
                s[c[(k + 1) % (c.len() as int)]].name,
            ),
    ensures
        forall|k: int| 0 <= k < c.len() ==> expanded_fields(s, #[trigger] c[k], f) is None,
    decreases f,
{
    if f > 0 {
        lemma_cycle_fuel(s, c, (f - 1) as nat);
    }
    assert forall|k: int| 0 <= k < c.len() implies expanded_fields(s, #[trigger] c[k], f)
        is None by {
        let kn = (k + 1) % (c.len() as int);
        assert(0 <= kn < c.len());
        let n = s[c[kn]].name;
        lemma_find_name(s, n);
        let j = find_name(s, n);
        if j == -1 {
            assert(s[c[kn]].kname() == n);
            assert(false);
        }
        assert(s[j].kname() == n);
        if j != c[kn] {
            assert(s[j].kname() == s[c[kn]].kname());
            assert(false);
        }
        if f > 0 {
            assert(expanded_fields(s, c[kn], (f - 1) as nat) is None);
        }
    }
}

/// The same law for the block extends graph.
pub proof fn lemma_block_cycle_unresolvable(s: Seq<SpecBlock>, c: Seq<int>)
    requires
        unique_names(s),
        c.len() >= 1,
        forall|k: int| 0 <= k < c.len() ==> 0 <= #[trigger] c[k] < s.len(),
        forall|k: int|
            0 <= k < c.len() ==> (#[trigger] s[c[k]]).extends == Option::Some(
                s[c[(k + 1) % (c.len() as int)]].name,
            ),
    ensures
        forall|k: int| 0 <= k < c.len() ==> !blk_resolvable(s, #[trigger] c[k]),
{
    assert forall|k: int| 0 <= k < c.len() implies !blk_resolvable(s, #[trigger] c[k]) by {
        assert forall|f: nat| !(expanded_items(s, c[k], f) is Some) by {
            lemma_block_cycle_fuel(s, c, f);
        }
    }
}

proof fn lemma_block_cycle_fuel(s: Seq<SpecBlock>, c: Seq<int>, f: nat)
    requires
        unique_names(s),
        c.len() >= 1,
        forall|k: int| 0 <= k < c.len() ==> 0 <= #[trigger] c[k] < s.len(),
        forall|k: int|
            0 <= k < c.len() ==> (#[trigger] s[c[k]]).extends == Option::Some(
                s[c[(k + 1) % (c.len() as int)]].name,
            ),
    ensures
        forall|k: int| 0 <= k < c.len() ==> expanded_items(s, #[trigger] c[k], f) is None,
    decreases f,
{
    if f > 0 {
        lemma_block_cycle_fuel(s, c, (f - 1) as nat);
    }
    assert forall|k: int| 0 <= k < c.len() implies expanded_items(s, #[trigger] c[k], f)
        is None by {
        let kn = (k + 1) % (c.len() as int);
        assert(0 <= kn < c.len());
        let n = s[c[kn]].name;
        lemma_find_name(s, n);
        let j = find_name(s, n);
        if j == -1 {
            assert(s[c[kn]].kname() == n);
            assert(false);
        }
        assert(s[j].kname() == n);
        if j != c[kn] {
            assert(s[j].kname() == s[c[kn]].kname());
            assert(false);
        }
        if f > 0 {
            assert(expanded_items(s, c[kn], (f - 1) as nat) is None);
        }
    }
}

} // verus!
