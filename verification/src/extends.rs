//! Inheritance expansion: every `extends` edge is resolved by copying the
//! base entity's members and letting the extending entity's own members
//! override by name (an override replaces the inherited member in place, new
//! names are appended). Bases are expanded before what extends them; an edge
//! to an unknown name or a cycle in the extends graph is an error, reported
//! with the name of an entity that cannot be resolved.
use crate::bytes::clone_bytes;
use crate::ir::views;
use crate::ir::{Field, FieldSet, SpecField, SpecFieldSet};
use crate::merge::{find_by_name, find_name, lemma_find_name, merge_entities, spec_merge};
use crate::order::Key;
use vstd::prelude::*;

verus! {

/// The member list that entity `i` flattens to, if the chain of bases above
/// it reaches a concrete entity within `fuel` steps.
pub open spec fn expanded_fields(s: Seq<SpecFieldSet>, i: int, fuel: nat) -> Option<Seq<SpecField>>
    decreases fuel,
{
    if !(0 <= i < s.len()) {
        Option::None
    } else {
        match s[i].extends {
            Option::None => Option::Some(s[i].fields),
            Option::Some(b) => {
                if fuel == 0 {
                    Option::None
                } else {
                    let j = find_name(s, b);
                    if j == -1 {
                        Option::None
                    } else {
                        match expanded_fields(s, j, (fuel - 1) as nat) {
                            Option::None => Option::None,
                            Option::Some(bf) => Option::Some(spec_merge(bf, s[i].fields)),
                        }
                    }
                }
            },
        }
    }
}

/// The extends chain above entity `i` reaches a concrete entity.
pub open spec fn fs_resolvable(s: Seq<SpecFieldSet>, i: int) -> bool {
    exists|f: nat| expanded_fields(s, i, f) is Some
}

/// The flattened member list of a resolvable entity.
pub open spec fn fs_expansion(s: Seq<SpecFieldSet>, i: int) -> Seq<SpecField> {
    let f = choose|f: nat| expanded_fields(s, i, f) is Some;
    match expanded_fields(s, i, f) {
        Option::Some(x) => x,
        Option::None => Seq::<SpecField>::empty(),
    }
}

/// More fuel never changes a resolution that succeeded.
pub proof fn lemma_expanded_mono(s: Seq<SpecFieldSet>, i: int, f1: nat, f2: nat)
    requires
        f1 <= f2,
        expanded_fields(s, i, f1) is Some,
    ensures
        expanded_fields(s, i, f2) == expanded_fields(s, i, f1),
    decreases f1,
{
    if 0 <= i < s.len() {
        match s[i].extends {
            Option::None => {},
            Option::Some(b) => {
                let j = find_name(s, b);
                lemma_expanded_mono(s, j, (f1 - 1) as nat, (f2 - 1) as nat);
            },
        }
    }
}

/// A successful resolution at any fuel is the entity's one expansion.
pub proof fn lemma_expansion_value(s: Seq<SpecFieldSet>, i: int, f: nat)
    requires
        expanded_fields(s, i, f) is Some,
    ensures
        fs_resolvable(s, i),
        expanded_fields(s, i, f) == Option::Some(fs_expansion(s, i)),
{
    assert(fs_resolvable(s, i));
    let f0 = choose|f0: nat| expanded_fields(s, i, f0) is Some;
    if f0 <= f {
        lemma_expanded_mono(s, i, f0, f);
    } else {
        lemma_expanded_mono(s, i, f, f0);
    }
}

/// Two graphs whose entities carry the same names agree on name lookup.
pub proof fn lemma_find_name_same<K1: Key, K2: Key>(a: Seq<K1>, b: Seq<K2>, n: Seq<u8>)
    requires
        a.len() == b.len(),
        forall|i: int| 0 <= i < a.len() ==> (#[trigger] a[i]).kname() == (#[trigger] b[i]).kname(),
    ensures
        find_name(a, n) == find_name(b, n),
    decreases a.len(),
{
    if a.len() != 0 {
        lemma_find_name_same(a.drop_first(), b.drop_first(), n);
        assert forall|i: int| 0 <= i < a.drop_first().len() implies (#[trigger] a.drop_first()[i]).kname()
            == (#[trigger] b.drop_first()[i]).kname() by {
            assert(a[i + 1].kname() == b[i + 1].kname());
        }
    }
}

/// The extends target of an entity, the empty name when there is none.
pub open spec fn ext_name(fs: SpecFieldSet) -> Seq<u8> {
    match fs.extends {
        Option::Some(b) => b,
        Option::None => Seq::<u8>::empty(),
    }
}

/// An edge to a name that no entity carries can never resolve.
pub proof fn lemma_unknown_unresolvable(s: Seq<SpecFieldSet>, i: int)
    requires
        0 <= i < s.len(),
        s[i].extends is Some,
        find_name(s, ext_name(s[i])) == -1,
    ensures
        !fs_resolvable(s, i),
{
    assert forall|f: nat| !(expanded_fields(s, i, f) is Some) by {
        reveal_with_fuel(expanded_fields, 1);
    }
}

fn dup_fields(v: &Vec<Field>) -> (r: Vec<Field>)
    ensures
        views(r@) == views(v@),
{
    let mut r: Vec<Field> = Vec::new();
    let mut i: usize = 0;
    while i < v.len()
        invariant
            i <= v@.len(),
            views(r@) == views(v@).take(i as int),
        decreases v@.len() - i,
    {
        let d = v[i].duplicate();
        proof {
            assert(d@ == views(v@)[i as int]);
        }
        let ghost oldr = r@;
        r.push(d);
        proof {
            assert(views(r@).len() == r@.len());
            assert(views(oldr).len() == oldr.len());
            assert(views(v@).take(i as int).len() == i);
            assert forall|w: int| 0 <= w < i + 1 implies views(r@)[w] == views(v@).take(i + 1)[w] by {
                if w < i {
                    assert(r@[w] == oldr[w]);
                    assert(views(r@)[w] == views(oldr)[w]);
                } else {
                    assert(views(r@)[w] == views(v@)[i as int]);
                }
            }
            assert(views(r@) =~= views(v@).take(i + 1));
        }
        i = i + 1;
    }
    proof {
        assert(views(v@).take(v@.len() as int) =~= views(v@));
    }
    r
}

fn dup_fieldset(fs: &FieldSet) -> (r: FieldSet)
    ensures
        r@ == fs@,
{
    FieldSet {
        name: clone_bytes(&fs.name),
        extends: match &fs.extends {
            Option::Some(e) => Option::Some(clone_bytes(e)),
            Option::None => Option::None,
        },
        bit_size: fs.bit_size,
        fields: dup_fields(&fs.fields),
    }
}

/// What one pass makes of entity `i`: an entity whose base is already
/// concrete is flattened, anything else is left as it stands.
pub open spec fn pass_rel(s: Seq<SpecFieldSet>, oi: SpecFieldSet, i: int) -> bool {
    match s[i].extends {
        Option::None => oi == s[i],
        Option::Some(b) => {
            let j = find_name(s, b);
            &&& j != -1
            &&& if s[j].extends is None {
                oi == (SpecFieldSet {
                    name: s[i].name,
                    extends: Option::<Seq<u8>>::None,
                    bit_size: s[i].bit_size,
                    fields: spec_merge(s[j].fields, s[i].fields),
                })
            } else {
                oi == s[i]
            }
        },
    }
}

fn expand_pass(v: &Vec<FieldSet>) -> (r: Result<Vec<FieldSet>, Vec<u8>>)
    ensures
        match r {
            Result::Ok(out) => views(out@).len() == views(v@).len() && forall|i: int|
                0 <= i < views(v@).len() ==> pass_rel(views(v@), #[trigger] views(out@)[i], i),
            Result::Err(name) => exists|i: int|
                0 <= i < views(v@).len() && (#[trigger] views(v@)[i]).extends is Some && find_name(
                    views(v@),
                    ext_name(views(v@)[i]),
                ) == -1 && views(v@)[i].name == name@,
        },
{
    let ghost s = views(v@);
    let mut out: Vec<FieldSet> = Vec::new();
    let mut i: usize = 0;
    while i < v.len()
        invariant
            s == views(v@),
            i <= v@.len(),
            views(out@).len() == i,
            forall|w: int| 0 <= w < i ==> pass_rel(s, #[trigger] views(out@)[w], w),
        decreases v@.len() - i,
    {
        let oe;
        let has_ext = v[i].extends.is_some();
        if !has_ext {
            oe = dup_fieldset(&v[i]);
            proof {
                assert(oe@ == s[i as int]);
                assert(pass_rel(s, oe@, i as int));
            }
        } else {
            let bname = match &v[i].extends {
                Option::Some(b) => clone_bytes(b),
                Option::None => Vec::new(),
            };
            proof {
                assert(bname@ == ext_name(s[i as int]));
            }
            let found = find_by_name(v, &bname);
            match found {
                Option::None => {
                    let name = clone_bytes(&v[i].name);
                    proof {
                        assert(s[i as int].extends is Some && find_name(s, ext_name(s[i as int]))
                            == -1 && s[i as int].name == name@);
                    }
                    return Result::Err(name);
                },
                Option::Some(j) => {
                    let base_concrete = v[j].extends.is_none();
                    if base_concrete {
                        let mut fields = dup_fields(&v[j].fields);
                        let local = dup_fields(&v[i].fields);
                        merge_entities(&mut fields, local);
                        oe = FieldSet {
                            name: clone_bytes(&v[i].name),
                            extends: Option::None,
                            bit_size: v[i].bit_size,
                            fields,
                        };
                        proof {
                            assert(oe@.fields == spec_merge(s[j as int].fields, s[i as int].fields));
                            assert(pass_rel(s, oe@, i as int));
                        }
                    } else {
                        oe = dup_fieldset(&v[i]);
                        proof {
                            assert(oe@ == s[i as int]);
                            assert(pass_rel(s, oe@, i as int));
                        }
                    }
                },
            }
        }
        let ghost oev = oe@;
        let ghost oldout = out@;
        out.push(oe);
        proof {
            assert(views(out@).len() == out@.len());
            assert(views(oldout).len() == oldout.len());
            assert forall|w: int| 0 <= w < i + 1 implies pass_rel(s, #[trigger] views(out@)[w], w) by {
                if w < i {
                    assert(out@[w] == oldout[w]);
                    assert(views(out@)[w] == views(oldout)[w]);
                } else {
                    assert(views(out@)[w] == oev);
                }
            }
        }
        i = i + 1;
    }
    Result::Ok(out)
}

/// How many entities still carry an extends edge.
pub open spec fn num_unexpanded(s: Seq<SpecFieldSet>) -> nat
    decreases s.len(),
{
    if s.len() == 0 {
        0
    } else {
        num_unexpanded(s.drop_last()) + if s.last().extends is Some {
            1nat
        } else {
            0nat
        }
    }
}

proof fn lemma_count_le(s: Seq<SpecFieldSet>, o: Seq<SpecFieldSet>)
    requires
        s.len() == o.len(),
        forall|i: int| 0 <= i < o.len() && (#[trigger] o[i]).extends is Some ==> s[i].extends is Some,
    ensures
        num_unexpanded(o) <= num_unexpanded(s),
    decreases s.len(),
{
    if s.len() != 0 {
        lemma_count_le(s.drop_last(), o.drop_last());
    }
}

proof fn lemma_count_lt(s: Seq<SpecFieldSet>, o: Seq<SpecFieldSet>, w: int)
    requires
        s.len() == o.len(),
        forall|i: int| 0 <= i < o.len() && (#[trigger] o[i]).extends is Some ==> s[i].extends is Some,
        0 <= w < s.len(),
        s[w].extends is Some,
        o[w].extends is None,
    ensures
        num_unexpanded(o) < num_unexpanded(s),
    decreases s.len(),
{
    if w == s.len() - 1 {
        lemma_count_le(s.drop_last(), o.drop_last());
    } else {
        lemma_count_lt(s.drop_last(), o.drop_last(), w);
    }
}

fn count_unexpanded(v: &Vec<FieldSet>) -> (r: usize)
    ensures
        r as nat == num_unexpanded(views(v@)),
{
    let ghost s = views(v@);
    let mut cnt: usize = 0;
    let mut i: usize = 0;
    proof {
        assert(s.take(0) =~= Seq::<SpecFieldSet>::empty());
    }
    while i < v.len()
        invariant
            s == views(v@),
            i <= v@.len(),
            cnt <= i,
            cnt as nat == num_unexpanded(s.take(i as int)),
        decreases v@.len() - i,
    {
        proof {
            assert(s.take(i + 1).drop_last() =~= s.take(i as int));
            assert(s.take(i + 1).last() == s[i as int]);
        }
        if v[i].extends.is_some() {
            cnt = cnt + 1;
        }
        i = i + 1;
    }
    proof {
        assert(s.take(s.len() as int) =~= s);
    }
    cnt
}

/// The invariant the passes maintain against the starting graph: names and
/// sizes are kept, untouched entities stand as they were, and every entity
/// already freed of its edge carries exactly its flattened member list.
pub open spec fn fs_inv(orig: Seq<SpecFieldSet>, cur: Seq<SpecFieldSet>) -> bool {
    &&& cur.len() == orig.len()
    &&& forall|i: int|
        0 <= i < cur.len() ==> (#[trigger] cur[i]).name == orig[i].name && cur[i].bit_size
            == orig[i].bit_size
    &&& forall|i: int| 0 <= i < cur.len() && (#[trigger] cur[i]).extends is Some ==> cur[i] == orig[i]
    &&& forall|i: int|
        0 <= i < cur.len() && (#[trigger] cur[i]).extends is None ==> fs_resolvable(orig, i)
            && cur[i].fields == fs_expansion(orig, i)
}

proof fn lemma_pass_preserves_inv(orig: Seq<SpecFieldSet>, cur: Seq<SpecFieldSet>, next: Seq<SpecFieldSet>)
    requires
        fs_inv(orig, cur),
        next.len() == cur.len(),
        forall|i: int| 0 <= i < cur.len() ==> pass_rel(cur, #[trigger] next[i], i),
    ensures
        fs_inv(orig, next),
{
    assert forall|i: int|
        0 <= i < next.len() && (#[trigger] next[i]).extends is None implies fs_resolvable(orig, i)
        && next[i].fields == fs_expansion(orig, i) by {
        if cur[i].extends is None {
            assert(next[i] == cur[i]);
        } else {
            let b = ext_name(cur[i]);
            let j = find_name(cur, b);
            assert(j != -1);
            lemma_find_name(cur, b);
            assert(cur[j].extends is None);
            assert(cur[i] == orig[i]);
            let fj = choose|f: nat| expanded_fields(orig, j, f) is Some;
            lemma_find_name_same(cur, orig, b);
            assert(find_name(orig, b) == j);
            assert(expanded_fields(orig, i, fj + 1) == Option::Some(
                spec_merge(fs_expansion(orig, j), orig[i].fields),
            )) by {
                lemma_expansion_value(orig, j, fj);
            }
            lemma_expansion_value(orig, i, fj + 1);
            assert(next[i].fields == spec_merge(cur[j].fields, cur[i].fields));
        }
    }
}

/// Resolves every extends edge, base first; a graph with an unknown target
/// or a cycle is refused, with the name of an entity that cannot resolve.
pub fn expand_fieldsets(v: Vec<FieldSet>) -> (r: Result<Vec<FieldSet>, Vec<u8>>)
    ensures
        match r {
            Result::Ok(out) => {
                &&& views(out@).len() == views(v@).len()
                &&& forall|i: int| 0 <= i < views(v@).len() ==> fs_resolvable(views(v@), i)
                &&& forall|i: int|
                    0 <= i < views(v@).len() ==> (#[trigger] views(out@)[i]).extends is None
                        && views(out@)[i].name == views(v@)[i].name && views(out@)[i].bit_size
                        == views(v@)[i].bit_size && views(out@)[i].fields == fs_expansion(
                        views(v@),
                        i,
                    )
            },
            Result::Err(name) => exists|i: int|
                0 <= i < views(v@).len() && !fs_resolvable(views(v@), i) && (#[trigger] views(
                    v@,
                )[i]).name == name@,
        },
{
    let ghost orig = views(v@);
    let mut cur = v;
    let mut cnt = count_unexpanded(&cur);
    proof {
        assert forall|i: int|
            0 <= i < orig.len() && (#[trigger] orig[i]).extends is None implies fs_resolvable(
            orig,
            i,
        ) && orig[i].fields == fs_expansion(orig, i) by {
            assert(expanded_fields(orig, i, 0) == Option::Some(orig[i].fields));
            lemma_expansion_value(orig, i, 0);
        }
        assert(fs_inv(orig, views(cur@)));
    }
    loop
        invariant
            orig == views(v@),
            fs_inv(orig, views(cur@)),
            cnt as nat == num_unexpanded(views(cur@)),
        decreases cnt,
    {
        if cnt == 0 {
            proof {
                let s = views(cur@);
                assert forall|i: int| 0 <= i < s.len() implies (#[trigger] s[i]).extends is None by {
                    if s[i].extends is Some {
                        lemma_some_has_count(s, i);
                    }
                }
                assert forall|i: int| 0 <= i < orig.len() implies #[trigger] fs_resolvable(
                    orig,
                    i,
                ) by {
                    assert(s[i].extends is None);
                }
                assert forall|i: int| 0 <= i < orig.len() implies (#[trigger] s[i]).extends
                    is None && s[i].name == orig[i].name && s[i].bit_size == orig[i].bit_size
                    && s[i].fields == fs_expansion(orig, i) by {
                    assert(s[i].extends is None);
                }
            }
            return Result::Ok(cur);
        }
        let pr = expand_pass(&cur);
        match pr {
            Result::Err(name) => {
                proof {
                    let s = views(cur@);
                    let i = choose|i: int|
                        0 <= i < s.len() && (#[trigger] s[i]).extends is Some && find_name(
                            s,
                            ext_name(s[i]),
                        ) == -1 && s[i].name == name@;
                    assert(s[i] == orig[i]);
                    lemma_find_name_same(s, orig, ext_name(orig[i]));
                    lemma_unknown_unresolvable(orig, i);
                }
                return Result::Err(name);
            },
            Result::Ok(next) => {
                let cnt2 = count_unexpanded(&next);
                proof {
                    lemma_pass_preserves_inv(orig, views(cur@), views(next@));
                    assert forall|i: int|
                        0 <= i < views(next@).len() && (#[trigger] views(next@)[i]).extends
                            is Some implies views(cur@)[i].extends is Some by {
                        if views(cur@)[i].extends is None {
                            assert(views(next@)[i] == views(cur@)[i]);
                        }
                    }
                    lemma_count_le(views(cur@), views(next@));
                }
                if cnt2 == cnt {
                    // no base was concrete: every remaining edge sits on a cycle
                    let stuck = first_unexpanded(&next);
                    proof {
                        let s = views(next@);
                        let c = views(cur@);
                        assert forall|i: int| 0 <= i < s.len() implies (#[trigger] s[i]).kname()
                            == c[i].kname() by {
                            assert(s[i].name == orig[i].name && c[i].name == orig[i].name);
                        }
                        assert forall|i: int|
                            0 <= i < s.len() && (#[trigger] s[i]).extends is Some implies {
                            let j = find_name(s, ext_name(s[i]));
                            0 <= j < s.len() && s[j].extends is Some
                        } by {
                            if c[i].extends is None {
                                assert(s[i] == c[i]);
                                assert(false);
                            }
                            let j = find_name(c, ext_name(c[i]));
                            lemma_find_name(c, ext_name(c[i]));
                            assert(j != -1);
                            if c[j].extends is None {
                                // the pass would have flattened entity i
                                assert(s[i].extends is None);
                                assert(false);
                            }
                            assert(s[i] == c[i]);
                            if s[j].extends is None {
                                lemma_count_lt(c, s, j);
                                assert(false);
                            }
                            lemma_find_name_same(c, s, ext_name(s[i]));
                        }
                        lemma_stuck_unresolvable(orig, s);
                    }
                    match stuck {
                        Option::Some(name) => {
                            return Result::Err(name);
                        },
                        Option::None => {
                            proof {
                                lemma_some_has_count_none(views(next@));
                                assert(false);
                            }
                            return Result::Err(Vec::new());
                        },
                    }
                }
                cnt = cnt2;
                cur = next;
            },
        }
    }
}

/// On a stuck graph (every remaining edge points at another entity that
/// still carries an edge) no remaining entity can ever resolve.
proof fn lemma_stuck_all_fuel(orig: Seq<SpecFieldSet>, s: Seq<SpecFieldSet>, f: nat)
    requires
        fs_inv(orig, s),
        forall|i: int|
            0 <= i < s.len() && (#[trigger] s[i]).extends is Some ==> {
                let j = find_name(s, ext_name(s[i]));
                0 <= j < s.len() && s[j].extends is Some
            },
    ensures
        forall|i: int|
            0 <= i < s.len() && (#[trigger] s[i]).extends is Some ==> expanded_fields(orig, i, f)
                is None,
    decreases f,
{
    if f > 0 {
        lemma_stuck_all_fuel(orig, s, (f - 1) as nat);
    }
    assert forall|i: int|
        0 <= i < s.len() && (#[trigger] s[i]).extends is Some implies expanded_fields(orig, i, f)
        is None by {
        assert(s[i] == orig[i]);
        let b = ext_name(orig[i]);
        let j = find_name(s, b);
        assert(0 <= j < s.len() && s[j].extends is Some);
        lemma_find_name_same(s, orig, b);
        if f > 0 {
            assert(expanded_fields(orig, j, (f - 1) as nat) is None);
        }
    }
}

proof fn lemma_stuck_unresolvable(orig: Seq<SpecFieldSet>, s: Seq<SpecFieldSet>)
    requires
        fs_inv(orig, s),
        forall|i: int|
            0 <= i < s.len() && (#[trigger] s[i]).extends is Some ==> {
                let j = find_name(s, ext_name(s[i]));
                0 <= j < s.len() && s[j].extends is Some
            },
    ensures
        forall|i: int|
            0 <= i < s.len() && (#[trigger] s[i]).extends is Some ==> !fs_resolvable(orig, i),
{
    assert forall|i: int|
        0 <= i < s.len() && (#[trigger] s[i]).extends is Some implies !fs_resolvable(orig, i) by {
        assert forall|f: nat| !(expanded_fields(orig, i, f) is Some) by {
            lemma_stuck_all_fuel(orig, s, f);
        }
    }
}

/// An entity that still carries an edge makes the count positive.
proof fn lemma_some_has_count(s: Seq<SpecFieldSet>, i: int)
    requires
        0 <= i < s.len(),
        s[i].extends is Some,
    ensures
        num_unexpanded(s) > 0,
    decreases s.len(),
{
    if i < s.len() - 1 {
        lemma_some_has_count(s.drop_last(), i);
    }
}

proof fn lemma_some_has_count_none(s: Seq<SpecFieldSet>)
    requires
        forall|i: int| 0 <= i < s.len() ==> !((#[trigger] s[i]).extends is Some),
    ensures
        num_unexpanded(s) == 0,
    decreases s.len(),
{
    if s.len() > 0 {
        lemma_some_has_count_none(s.drop_last());
    }
}

/// The name of the first entity that still carries an extends edge.
fn first_unexpanded(v: &Vec<FieldSet>) -> (r: Option<Vec<u8>>)
    ensures
        match r {
            Option::Some(name) => exists|i: int|
                0 <= i < views(v@).len() && (#[trigger] views(v@)[i]).extends is Some && views(
                    v@,
                )[i].name == name@,
            Option::None => forall|i: int|
                0 <= i < views(v@).len() ==> !((#[trigger] views(v@)[i]).extends is Some),
        },
{
    let mut i: usize = 0;
    while i < v.len()
        invariant
            i <= v@.len(),
            forall|w: int| 0 <= w < i ==> !((#[trigger] views(v@)[w]).extends is Some),
        decreases v@.len() - i,
    {
        if v[i].extends.is_some() {
            let name = clone_bytes(&v[i].name);
            proof {
                assert(views(v@)[i as int].extends is Some && views(v@)[i as int].name == name@);
            }
            return Option::Some(name);
        }
        proof {
            assert(views(v@)[i as int] == v@[i as int]@);
        }
        i = i + 1;
    }
    Option::None
}

} // verus!
