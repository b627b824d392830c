//! Merging IR documents into one graph. Entities are keyed by name within
//! their kind; when a later document carries an entity of a name the graph
//! already holds, the later definition replaces the earlier one in place
//! (last wins), and new names are appended in document order.
use crate::bytes::bytes_eq;
use crate::ir::views;
use crate::ir::{Ir, SpecIr};
use crate::order::{unique_names, Key, KeyItem};
use vstd::prelude::*;

verus! {

/// The index of the first element named `n`, or -1 if there is none.
pub open spec fn find_name<K: Key>(s: Seq<K>, n: Seq<u8>) -> int
    decreases s.len(),
{
    if s.len() == 0 {
        -1
    } else if s[0].kname() == n {
        0
    } else if find_name(s.drop_first(), n) == -1 {
        -1
    } else {
        1 + find_name(s.drop_first(), n)
    }
}

pub proof fn lemma_find_name<K: Key>(s: Seq<K>, n: Seq<u8>)
    ensures
        find_name(s, n) == -1 ==> forall|k: int|
            0 <= k < s.len() ==> (#[trigger] s[k]).kname() != n,
        find_name(s, n) != -1 ==> 0 <= find_name(s, n) < s.len() && s[find_name(s, n)].kname()
            == n && forall|k: int| 0 <= k < find_name(s, n) ==> (#[trigger] s[k]).kname() != n,
    decreases s.len(),
{
    if s.len() != 0 && s[0].kname() != n {
        lemma_find_name(s.drop_first(), n);
        assert forall|k: int| 0 <= k < s.len() && find_name(s.drop_first(), n) == -1 implies (
        #[trigger] s[k]).kname() != n by {
            if k > 0 {
                assert(s.drop_first()[k - 1] == s[k]);
            }
        }
        if find_name(s.drop_first(), n) != -1 {
            let i = find_name(s.drop_first(), n);
            assert(s.drop_first()[i] == s[i + 1]);
            assert forall|k: int| 0 <= k < i + 1 implies (#[trigger] s[k]).kname() != n by {
                if k > 0 {
                    assert(s.drop_first()[k - 1] == s[k]);
                }
            }
        }
    }
}

/// One entity placed into the graph: replaces the first entity of its name,
/// or is appended when the name is new.
pub open spec fn upsert<K: Key>(s: Seq<K>, x: K) -> Seq<K> {
    let i = find_name(s, x.kname());
    if i == -1 {
        s.push(x)
    } else {
        s.update(i, x)
    }
}

/// Last-wins merge: the entities of `b` placed into `a`, in order.
pub open spec fn spec_merge<K: Key>(a: Seq<K>, b: Seq<K>) -> Seq<K>
    decreases b.len(),
{
    if b.len() == 0 {
        a
    } else {
        upsert(spec_merge(a, b.drop_last()), b.last())
    }
}

/// Merging never breaks per-kind name uniqueness.
pub proof fn lemma_upsert_unique<K: Key>(s: Seq<K>, x: K)
    requires
        unique_names(s),
    ensures
        unique_names(upsert(s, x)),
        forall|n: Seq<u8>|
            (#[trigger] find_name(upsert(s, x), n) != -1) <==> (n == x.kname() || find_name(s, n)
                != -1),
{
    lemma_find_name(s, x.kname());
    let r = upsert(s, x);
    let i = find_name(s, x.kname());
    assert forall|a: int, b: int| 0 <= a < b < r.len() implies (#[trigger] r[a]).kname() != (
    #[trigger] r[b]).kname() by {
        if i == -1 {
            if b == s.len() as int {
                if s[a].kname() == x.kname() {
                    assert(false);
                }
            }
        }
    }
    assert forall|n: Seq<u8>| true implies ((#[trigger] find_name(r, n) != -1) <==> (n
        == x.kname() || find_name(s, n) != -1)) by {
        lemma_find_name(r, n);
        lemma_find_name(s, n);
        if n == x.kname() {
            if i == -1 {
                assert(r[s.len() as int].kname() == n);
                if find_name(r, n) == -1 {
                    assert(false);
                }
            } else {
                assert(r[i].kname() == n);
                if find_name(r, n) == -1 {
                    assert(false);
                }
            }
        } else {
            if find_name(s, n) != -1 {
                let j = find_name(s, n);
                assert(r[j].kname() == n);
                if find_name(r, n) == -1 {
                    assert(false);
                }
            }
            if find_name(r, n) != -1 {
                let j = find_name(r, n);
                if i == -1 && j == s.len() as int {
                    assert(false);
                } else {
                    assert(s[j].kname() == n);
                    if find_name(s, n) == -1 {
                        assert(false);
                    }
                }
            }
        }
    }
}

pub proof fn lemma_merge_unique<K: Key>(a: Seq<K>, b: Seq<K>)
    requires
        unique_names(a),
    ensures
        unique_names(spec_merge(a, b)),
    decreases b.len(),
{
    if b.len() != 0 {
        lemma_merge_unique(a, b.drop_last());
        lemma_upsert_unique(spec_merge(a, b.drop_last()), b.last());
    }
}

/// When no name of `b` occurs in `a` and `b` itself repeats no name, the
/// merge is plain concatenation.
pub proof fn lemma_merge_disjoint_is_concat<K: Key>(a: Seq<K>, b: Seq<K>)
    requires
        unique_names(b),
        forall|i: int, j: int|
            0 <= i < a.len() && 0 <= j < b.len() ==> (#[trigger] a[i]).kname() != (
            #[trigger] b[j]).kname(),
    ensures
        spec_merge(a, b) == a + b,
    decreases b.len(),
{
    if b.len() == 0 {
        assert(spec_merge(a, b) =~= a + b);
    } else {
        let bd = b.drop_last();
        lemma_merge_disjoint_is_concat(a, bd);
        lemma_find_name(a + bd, b.last().kname());
        let i = find_name(a + bd, b.last().kname());
        if i != -1 {
            if i < a.len() {
                assert((a + bd)[i] == a[i]);
                assert(b[b.len() - 1] == b.last());
                assert(false);
            } else {
                assert((a + bd)[i] == bd[i - a.len()]);
                assert(b[i - a.len()] == bd[i - a.len()]);
                assert(false);
            }
        }
        assert(spec_merge(a, b) == (a + bd).push(b.last()));
        assert((a + bd).push(b.last()) =~= a + b);
    }
}

/// The index of the first entity in `v` whose name is `n`.
pub fn find_by_name<T: KeyItem>(v: &Vec<T>, n: &Vec<u8>) -> (r: Option<usize>) where T::V: Key
    ensures
        match r {
            Option::Some(i) => i < v@.len() && find_name(views(v@), n@) == i as int,
            Option::None => find_name(views(v@), n@) == -1,
        },
{
    let ghost s = views(v@);
    let mut i: usize = 0;
    while i < v.len()
        invariant
            i <= v@.len(),
            s == views(v@),
            forall|k: int| 0 <= k < i ==> (#[trigger] s[k]).kname() != n@,
        decreases v@.len() - i,
    {
        if bytes_eq(v[i].xkname(), n) {
            proof {
                lemma_find_name(s, n@);
                assert(s[i as int] == v@[i as int]@);
                if find_name(s, n@) == -1 {
                    assert(false);
                }
                let j = find_name(s, n@);
                if j < i as int {
                    assert(false);
                }
                if j > i as int {
                    assert(s[i as int].kname() != n@);
                    assert(false);
                }
            }
            return Option::Some(i);
        }
        proof {
            assert(s[i as int] == v@[i as int]@);
        }
        i = i + 1;
    }
    proof {
        lemma_find_name(s, n@);
        if find_name(s, n@) != -1 {
            assert(false);
        }
    }
    Option::None
}

/// Places one entity into the collection, last wins.
fn upsert_item<T: KeyItem>(v: &mut Vec<T>, x: T) where T::V: Key
    ensures
        views(final(v)@) == upsert(views(old(v)@), x@),
{
    let found = find_by_name(v, x.xkname());
    match found {
        Option::Some(i) => {
            v.set(i, x);
            proof {
                assert(views(v@) =~= views(old(v)@).update(i as int, x@));
            }
        },
        Option::None => {
            v.push(x);
            proof {
                assert(views(v@) =~= views(old(v)@).push(x@));
            }
        },
    }
}

/// Merges the entities of `b` into `a`, last wins, in document order.
pub fn merge_entities<T: KeyItem>(a: &mut Vec<T>, b: Vec<T>) where T::V: Key
    ensures
        views(final(a)@) == spec_merge(views(old(a)@), views(b@)),
{
    let ghost borig = b@;
    let mut b = b;
    proof {
        assert(views(borig.take(0)) =~= Seq::<T::V>::empty());
        assert(borig.skip(0) =~= borig);
    }
    while b.len() > 0
        invariant
            b@.len() <= borig.len(),
            b@ == borig.skip(borig.len() - b@.len()),
            views(a@) == spec_merge(views(old(a)@), views(borig.take(borig.len() - b@.len()))),
        decreases b@.len(),
    {
        let ghost k = borig.len() - b@.len();
        proof {
            assert(0 <= k < borig.len());
            assert(b@[0] == borig.skip(k as int)[0]);
        }
        let x = b.remove(0);
        proof {
            assert(x == borig[k]);
            assert(x@ == borig[k]@);
            assert(b@ =~= borig.skip(k + 1));
            let p1 = views(borig.take(k + 1));
            assert(p1.drop_last() =~= views(borig.take(k)));
            assert(p1.last() == borig[k]@);
        }
        upsert_item(a, x);
    }
    proof {
        assert(borig.take(borig.len() as int) =~= borig);
    }
}

/// The whole-graph merge, kind by kind.
pub open spec fn spec_merge_ir(a: SpecIr, b: SpecIr) -> SpecIr {
    SpecIr {
        devices: spec_merge(a.devices, b.devices),
        blocks: spec_merge(a.blocks, b.blocks),
        fieldsets: spec_merge(a.fieldsets, b.fieldsets),
        enums: spec_merge(a.enums, b.enums),
    }
}

impl Ir {
    /// Merges another document's graph into this one: entities of the same
    /// kind and name are replaced by the later document, new ones appended.
    pub fn merge(&mut self, other: Ir)
        ensures
            final(self)@ == spec_merge_ir(old(self)@, other@),
    {
        let Ir { devices, blocks, fieldsets, enums } = other;
        merge_entities(&mut self.devices, devices);
        merge_entities(&mut self.blocks, blocks);
        merge_entities(&mut self.fieldsets, fieldsets);
        merge_entities(&mut self.enums, enums);
    }
}

} // verus!
