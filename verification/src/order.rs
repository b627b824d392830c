//! A total, deterministic order over IR collections. Every sortable value
//! exposes a key: a number (a bit or byte offset, an enum value) and a name;
//! entities keyed by name alone use zero for the number. Sorting is by
//! number first, then lexicographically by name, and is stable.
use crate::bytes::{lemma_lex_antisymmetric, lemma_lex_total, lemma_lex_transitive, lex_le, lex_leq};
use crate::ir::views;
use crate::ir::{
    Block, BlockItem, Device, Enum, EnumVariant, Field, FieldSet, Peripheral, SpecBlock,
    SpecBlockItem, SpecDevice, SpecEnum, SpecEnumVariant, SpecField, SpecFieldSet, SpecPeripheral,
};
use vstd::prelude::*;

verus! {

/// The sort key of a spec-level IR value.
pub trait Key: Sized {
    spec fn knum(self) -> u64;

    spec fn kname(self) -> Seq<u8>;
}

/// An exec value whose view carries a sort key.
pub trait KeyItem: View where Self::V: Key {
    fn xknum(&self) -> (r: u64)
        ensures
            r == self@.knum(),
    ;

    fn xkname(&self) -> (r: &Vec<u8>)
        ensures
            r@ == self@.kname(),
    ;
}

/// The order itself: by number, ties by name.
pub open spec fn key_leq<K: Key>(a: K, b: K) -> bool {
    a.knum() < b.knum() || (a.knum() == b.knum() && lex_leq(a.kname(), b.kname()))
}

/// Non-strictly ascending by `key_leq`.
pub open spec fn sorted<K: Key>(s: Seq<K>) -> bool {
    forall|i: int, j: int| 0 <= i < j < s.len() ==> key_leq(#[trigger] s[i], #[trigger] s[j])
}

/// No two elements share a name.
pub open spec fn unique_names<K: Key>(s: Seq<K>) -> bool {
    forall|i: int, j: int|
        0 <= i < j < s.len() ==> (#[trigger] s[i]).kname() != (#[trigger] s[j]).kname()
}

pub proof fn lemma_key_total<K: Key>(a: K, b: K)
    ensures
        key_leq(a, b) || key_leq(b, a),
{
    lemma_lex_total(a.kname(), b.kname());
}

pub proof fn lemma_key_transitive<K: Key>(a: K, b: K, c: K)
    requires
        key_leq(a, b),
        key_leq(b, c),
    ensures
        key_leq(a, c),
{
    if a.knum() == b.knum() && b.knum() == c.knum() {
        lemma_lex_transitive(a.kname(), b.kname(), c.kname());
    }
}

pub proof fn lemma_key_antisymmetric<K: Key>(a: K, b: K)
    requires
        key_leq(a, b),
        key_leq(b, a),
    ensures
        a.knum() == b.knum(),
        a.kname() == b.kname(),
{
    lemma_lex_antisymmetric(a.kname(), b.kname());
}

/// `x` placed into `s` before the maximal run of strictly greater elements
/// at the end: a stable insertion.
pub open spec fn insert_sorted<K: Key>(s: Seq<K>, x: K) -> Seq<K>
    decreases s.len(),
{
    if s.len() == 0 {
        seq![x]
    } else if key_leq(s.last(), x) {
        s.push(x)
    } else {
        insert_sorted(s.drop_last(), x).push(s.last())
    }
}

/// Stable insertion sort of the whole sequence, element by element from the
/// left.
pub open spec fn spec_sort<K: Key>(s: Seq<K>) -> Seq<K>
    decreases s.len(),
{
    if s.len() == 0 {
        Seq::<K>::empty()
    } else {
        insert_sorted(spec_sort(s.drop_last()), s.last())
    }
}

pub proof fn lemma_insert_sorted_props<K: Key>(s: Seq<K>, x: K)
    ensures
        insert_sorted(s, x).to_multiset() == s.to_multiset().insert(x),
        insert_sorted(s, x).len() == s.len() + 1,
        forall|i: int|
            0 <= i < insert_sorted(s, x).len() ==> insert_sorted(s, x)[i] == x || s.contains(
                #[trigger] insert_sorted(s, x)[i],
            ),
        sorted(s) ==> sorted(insert_sorted(s, x)),
    decreases s.len(),
{
    broadcast use vstd::seq_lib::group_to_multiset_ensures;

    if s.len() == 0 {
        assert(insert_sorted(s, x) =~= Seq::<K>::empty().push(x));
        assert(insert_sorted(s, x).to_multiset() =~= s.to_multiset().insert(x));
    } else if key_leq(s.last(), x) {
        assert(insert_sorted(s, x) == s.push(x));
        assert(s.push(x).to_multiset() =~= s.to_multiset().insert(x));
        if sorted(s) {
            assert forall|i: int, j: int|
                0 <= i < j < s.push(x).len() implies key_leq(
                #[trigger] s.push(x)[i],
                #[trigger] s.push(x)[j],
            ) by {
                if j == s.len() as int {
                    if i < s.len() - 1 {
                        assert(key_leq(s[i], s.last()));
                        lemma_key_transitive(s[i], s.last(), x);
                    }
                }
            }
        }
    } else {
        let dl = s.drop_last();
        let la = s.last();
        lemma_insert_sorted_props(dl, x);
        let r0 = insert_sorted(dl, x);
        assert(insert_sorted(s, x) == r0.push(la));
        assert(s =~= dl.push(la));
        assert(s.to_multiset() =~= dl.to_multiset().insert(la));
        assert(r0.push(la).to_multiset() =~= r0.to_multiset().insert(la));
        assert(r0.push(la).to_multiset() =~= s.to_multiset().insert(x));
        assert forall|i: int|
            0 <= i < r0.push(la).len() implies r0.push(la)[i] == x || s.contains(
            #[trigger] r0.push(la)[i],
        ) by {
            if i < r0.len() {
                if r0[i] != x {
                    assert(dl.contains(r0[i]));
                    let w = choose|w: int| 0 <= w < dl.len() && dl[w] == r0[i];
                    assert(s[w] == r0[i]);
                }
            } else {
                assert(s[s.len() - 1] == la);
            }
        }
        if sorted(s) {
            assert forall|i: int, j: int| 0 <= i < j < dl.len() implies key_leq(
                #[trigger] dl[i],
                #[trigger] dl[j],
            ) by {
                assert(s[i] == dl[i] && s[j] == dl[j]);
            }
            assert(sorted(dl));
            assert(sorted(r0));
            lemma_key_total(la, x);
            assert(key_leq(x, la));
            assert forall|i: int, j: int|
                0 <= i < j < r0.push(la).len() implies key_leq(
                #[trigger] r0.push(la)[i],
                #[trigger] r0.push(la)[j],
            ) by {
                if j == r0.len() as int {
                    if r0[i] == x {
                        assert(key_leq(x, la));
                    } else {
                        assert(dl.contains(r0[i]));
                        let w = choose|w: int| 0 <= w < dl.len() && dl[w] == r0[i];
                        assert(key_leq(s[w], s[s.len() - 1]));
                    }
                }
            }
        }
    }
}

pub proof fn lemma_spec_sort_props<K: Key>(s: Seq<K>)
    ensures
        spec_sort(s).to_multiset() == s.to_multiset(),
        spec_sort(s).len() == s.len(),
        sorted(spec_sort(s)),
    decreases s.len(),
{
    broadcast use vstd::seq_lib::group_to_multiset_ensures;

    if s.len() == 0 {
        assert(spec_sort(s).to_multiset() =~= s.to_multiset());
    } else {
        let dl = s.drop_last();
        lemma_spec_sort_props(dl);
        lemma_insert_sorted_props(spec_sort(dl), s.last());
        assert(s =~= dl.push(s.last()));
        assert(s.to_multiset() =~= dl.to_multiset().insert(s.last()));
        assert(spec_sort(s).to_multiset() =~= spec_sort(dl).to_multiset().insert(s.last()));
    }
}

/// Sorting a sequence that is already in order gives it back unchanged.
pub proof fn lemma_sort_idempotent<K: Key>(s: Seq<K>)
    requires
        sorted(s),
    ensures
        spec_sort(s) == s,
    decreases s.len(),
{
    if s.len() == 0 {
        assert(spec_sort(s) =~= s);
    } else {
        let dl = s.drop_last();
        assert forall|i: int, j: int| 0 <= i < j < dl.len() implies key_leq(
            #[trigger] dl[i],
            #[trigger] dl[j],
        ) by {
            assert(s[i] == dl[i] && s[j] == dl[j]);
        }
        lemma_sort_idempotent(dl);
        if dl.len() > 0 {
            assert(key_leq(dl.last(), s.last()));
            assert(insert_sorted(dl, s.last()) == dl.push(s.last()));
        }
        assert(spec_sort(s) =~= s);
    }
}

/// Two sorted sequences with the same elements and pairwise distinct names
/// are the same sequence: the order is canonical.
pub proof fn lemma_sorted_unique_names<K: Key>(x: Seq<K>, y: Seq<K>)
    requires
        sorted(x),
        sorted(y),
        unique_names(x),
        x.to_multiset() == y.to_multiset(),
    ensures
        x == y,
    decreases x.len(),
{
    broadcast use vstd::seq_lib::group_to_multiset_ensures;

    if x.len() == 0 {
        assert(y.to_multiset().len() == 0);
        assert(x =~= y);
    } else {
        assert(x.to_multiset().contains(x[0]));
        assert(y.to_multiset().contains(x[0]));
        assert(y.contains(x[0]));
        assert(x.to_multiset().contains(y[0]));
        assert(x.contains(y[0]));
        let i = choose|i: int| 0 <= i < x.len() && x[i] == y[0];
        let j = choose|j: int| 0 <= j < y.len() && y[j] == x[0];
        if i > 0 {
            assert(key_leq(x[0], x[i]));
        }
        if j > 0 {
            assert(key_leq(y[0], y[j]));
        }
        lemma_key_total(x[0], y[0]);
        assert(key_leq(x[0], y[0]) && key_leq(y[0], x[0]));
        lemma_key_antisymmetric(x[0], y[0]);
        if x[0] != y[0] {
            // both heads exist in x, share a name, but differ: impossible
            assert(x[i] == y[0]);
            assert(i != 0);
            assert(x[0].kname() != x[i].kname());
            assert(false);
        }
        let xd = x.drop_first();
        let yd = y.drop_first();
        assert(xd =~= x.remove(0));
        assert(yd =~= y.remove(0));
        assert(x.remove(0).to_multiset() =~= x.to_multiset().remove(x[0]));
        assert(y.remove(0).to_multiset() =~= y.to_multiset().remove(y[0]));
        assert forall|a: int, b: int| 0 <= a < b < xd.len() implies key_leq(
            #[trigger] xd[a],
            #[trigger] xd[b],
        ) by {
            assert(x[a + 1] == xd[a] && x[b + 1] == xd[b]);
        }
        assert forall|a: int, b: int| 0 <= a < b < yd.len() implies key_leq(
            #[trigger] yd[a],
            #[trigger] yd[b],
        ) by {
            assert(y[a + 1] == yd[a] && y[b + 1] == yd[b]);
        }
        assert forall|a: int, b: int|
            0 <= a < b < xd.len() implies (#[trigger] xd[a]).kname() != (#[trigger] xd[b]).kname() by {
            assert(x[a + 1] == xd[a] && x[b + 1] == xd[b]);
        }
        lemma_sorted_unique_names(xd, yd);
        assert(x =~= seq![x[0]] + xd);
        assert(y =~= seq![y[0]] + yd);
    }
}

impl Key for SpecDevice {
    open spec fn knum(self) -> u64 {
        0
    }

    open spec fn kname(self) -> Seq<u8> {
        self.name
    }
}

impl KeyItem for Device {
    fn xknum(&self) -> (r: u64) {
        0
    }

    fn xkname(&self) -> (r: &Vec<u8>) {
        &self.name
    }
}

impl Key for SpecPeripheral {
    open spec fn knum(self) -> u64 {
        0
    }

    open spec fn kname(self) -> Seq<u8> {
        self.name
    }
}

impl KeyItem for Peripheral {
    fn xknum(&self) -> (r: u64) {
        0
    }

    fn xkname(&self) -> (r: &Vec<u8>) {
        &self.name
    }
}

impl Key for SpecBlock {
    open spec fn knum(self) -> u64 {
        0
    }

    open spec fn kname(self) -> Seq<u8> {
        self.name
    }
}

impl KeyItem for Block {
    fn xknum(&self) -> (r: u64) {
        0
    }

    fn xkname(&self) -> (r: &Vec<u8>) {
        &self.name
    }
}

impl Key for SpecBlockItem {
    open spec fn knum(self) -> u64 {
        self.byte_offset
    }

    open spec fn kname(self) -> Seq<u8> {
        self.name
    }
}

impl KeyItem for BlockItem {
    fn xknum(&self) -> (r: u64) {
        self.byte_offset
    }

    fn xkname(&self) -> (r: &Vec<u8>) {
        &self.name
    }
}

impl Key for SpecFieldSet {
    open spec fn knum(self) -> u64 {
        0
    }

    open spec fn kname(self) -> Seq<u8> {
        self.name
    }
}

impl KeyItem for FieldSet {
    fn xknum(&self) -> (r: u64) {
        0
    }

    fn xkname(&self) -> (r: &Vec<u8>) {
        &self.name
    }
}

impl Key for SpecField {
    open spec fn knum(self) -> u64 {
        self.bit_offset
    }

    open spec fn kname(self) -> Seq<u8> {
        self.name
    }
}

impl KeyItem for Field {
    fn xknum(&self) -> (r: u64) {
        self.bit_offset
    }

    fn xkname(&self) -> (r: &Vec<u8>) {
        &self.name
    }
}

impl Key for SpecEnum {
    open spec fn knum(self) -> u64 {
        0
    }

    open spec fn kname(self) -> Seq<u8> {
        self.name
    }
}

impl KeyItem for Enum {
    fn xknum(&self) -> (r: u64) {
        0
    }

    fn xkname(&self) -> (r: &Vec<u8>) {
        &self.name
    }
}

impl Key for SpecEnumVariant {
    open spec fn knum(self) -> u64 {
        self.value
    }

    open spec fn kname(self) -> Seq<u8> {
        self.name
    }
}

impl KeyItem for EnumVariant {
    fn xknum(&self) -> (r: u64) {
        self.value
    }

    fn xkname(&self) -> (r: &Vec<u8>) {
        &self.name
    }
}

/// Decides `key_leq` on the views of two exec values.
pub fn le_item<T: KeyItem>(a: &T, b: &T) -> (r: bool) where T::V: Key
    ensures
        r == key_leq(a@, b@),
{
    let an = a.xknum();
    let bn = b.xknum();
    if an < bn {
        true
    } else if an > bn {
        false
    } else {
        lex_le(a.xkname(), b.xkname())
    }
}

proof fn lemma_insert_sorted_at<K: Key>(s: Seq<K>, x: K, i: int)
    requires
        0 <= i <= s.len(),
        forall|k: int| i <= k < s.len() ==> !key_leq(#[trigger] s[k], x),
        i > 0 ==> key_leq(s[i - 1], x),
    ensures
        insert_sorted(s, x) == s.subrange(0, i).push(x) + s.subrange(i, s.len() as int),
    decreases s.len(),
{
    if i == s.len() {
        if s.len() == 0 {
            assert(insert_sorted(s, x) =~= s.subrange(0, i).push(x) + s.subrange(
                i,
                s.len() as int,
            ));
        } else {
            assert(key_leq(s.last(), x));
            assert(s.subrange(0, i) =~= s);
            assert(insert_sorted(s, x) =~= s.subrange(0, i).push(x) + s.subrange(
                i,
                s.len() as int,
            ));
        }
    } else {
        assert(!key_leq(s.last(), x));
        let dl = s.drop_last();
        lemma_insert_sorted_at(dl, x, i);
        assert(dl.subrange(0, i) =~= s.subrange(0, i));
        assert(insert_sorted(s, x) == insert_sorted(dl, x).push(s.last()));
        assert((dl.subrange(0, i).push(x) + dl.subrange(i, dl.len() as int)).push(s.last()) =~= s
            .subrange(0, i).push(x) + s.subrange(i, s.len() as int));
    }
}

/// Inserts one element at its stable position in a sorted vector.
fn insert_item<T: KeyItem>(v: &mut Vec<T>, x: T) where T::V: Key
    ensures
        views(final(v)@) == insert_sorted(views(old(v)@), x@),
{
    let ghost gx = x@;
    let mut idx: usize = v.len();
    loop
        invariant_except_break
            gx == x@,
            idx <= v@.len(),
            v@ == old(v)@,
            forall|k: int| idx <= k < v@.len() ==> !key_leq(#[trigger] views(v@)[k], gx),
        ensures
            idx <= v@.len(),
            v@ == old(v)@,
            forall|k: int| idx <= k < v@.len() ==> !key_leq(#[trigger] views(v@)[k], gx),
            idx > 0 ==> key_leq(views(v@)[idx - 1], gx),
        decreases idx,
    {
        if idx == 0 {
            break ;
        }
        let stop = le_item(&v[idx - 1], &x);
        proof {
            assert(views(v@)[idx - 1] == v@[idx - 1]@);
        }
        if stop {
            break ;
        }
        proof {
            assert(!key_leq(views(v@)[idx - 1], gx));
        }
        idx = idx - 1;
    }
    proof {
        lemma_insert_sorted_at(views(old(v)@), gx, idx as int);
    }
    v.insert(idx, x);
    proof {
        assert(views(v@) =~= views(old(v)@).subrange(0, idx as int).push(gx) + views(
            old(v)@,
        ).subrange(idx as int, old(v)@.len() as int));
    }
}

/// Sorts a vector stably by `key_leq` on the views.
pub fn sorted_vec<T: KeyItem>(v: Vec<T>) -> (r: Vec<T>) where T::V: Key
    ensures
        views(r@) == spec_sort(views(v@)),
{
    let ghost orig = v@;
    let mut v = v;
    let mut out: Vec<T> = Vec::new();
    proof {
        assert(views(orig.take(0)) =~= Seq::<T::V>::empty());
        assert(views(out@) =~= Seq::<T::V>::empty());
        assert(orig.skip(0) =~= orig);
    }
    while v.len() > 0
        invariant
            v@.len() <= orig.len(),
            v@ == orig.skip(orig.len() - v@.len()),
            views(out@) == spec_sort(views(orig.take(orig.len() - v@.len()))),
        decreases v@.len(),
    {
        let ghost k = orig.len() - v@.len();
        proof {
            assert(0 <= k < orig.len());
            assert(v@[0] == orig.skip(k as int)[0]);
        }
        let x = v.remove(0);
        proof {
            assert(x == orig[k]);
            assert(x@ == orig[k]@);
            assert(v@ =~= orig.skip(k + 1));
            let p1 = views(orig.take(k + 1));
            assert(p1.drop_last() =~= views(orig.take(k)));
            assert(p1.last() == orig[k]@);
            assert(spec_sort(p1) == insert_sorted(spec_sort(views(orig.take(k))), orig[k]@));
        }
        insert_item(&mut out, x);
    }
    proof {
        assert(orig.take(orig.len() as int) =~= orig);
        assert(views(out@) == spec_sort(views(orig)));
    }
    out
}

} // verus!
