//! Inheritance expansion for blocks: the same resolution as for fieldsets,
//! over block items. An edge to an unknown name or a cycle is an error,
//! reported with the name of a block that cannot be resolved.
use crate::bytes::clone_bytes;
use crate::ir::views;
use crate::ir::{Block, BlockItem, SpecBlock, SpecBlockItem};
use crate::extends::lemma_find_name_same;
use crate::merge::{find_by_name, find_name, lemma_find_name, merge_entities, spec_merge};
use crate::order::Key;
use vstd::prelude::*;

verus! {

/// The member list that entity `i` flattens to, if the chain of bases above
/// it reaches a concrete entity within `fuel` steps.
pub open spec fn expanded_items(s: Seq<SpecBlock>, i: int, fuel: nat) -> Option<Seq<SpecBlockItem>>
    decreases fuel,
{
    if !(0 <= i < s.len()) {
        Option::None
    } else {
        match s[i].extends {
            Option::None => Option::Some(s[i].items),
            Option::Some(b) => {
                if fuel == 0 {
                    Option::None
                } else {
                    let j = find_name(s, b);
                    if j == -1 {
                        Option::None
                    } else {
                        match expanded_items(s, j, (fuel - 1) as nat) {
                            Option::None => Option::None,
                            Option::Some(bf) => Option::Some(spec_merge(bf, s[i].items)),
                        }
                    }
                }
            },
        }
    }
}

/// The extends chain above entity `i` reaches a concrete entity.
pub open spec fn blk_resolvable(s: Seq<SpecBlock>, i: int) -> bool {
    exists|f: nat| expanded_items(s, i, f) is Some
}

/// The flattened member list of a resolvable entity.
pub open spec fn blk_expansion(s: Seq<SpecBlock>, i: int) -> Seq<SpecBlockItem> {
    let f = choose|f: nat| expanded_items(s, i, f) is Some;
    match expanded_items(s, i, f) {
        Option::Some(x) => x,
        Option::None => Seq::<SpecBlockItem>::empty(),
    }
}

/// More fuel never changes a resolution that succeeded.
pub proof fn blk_lemma_expanded_mono(s: Seq<SpecBlock>, i: int, f1: nat, f2: nat)
    requires
        f1 <= f2,
        expanded_items(s, i, f1) is Some,
    ensures
        expanded_items(s, i, f2) == expanded_items(s, i, f1),
    decreases f1,
{
    if 0 <= i < s.len() {
        match s[i].extends {
            Option::None => {},
            Option::Some(b) => {
                let j = find_name(s, b);
                blk_lemma_expanded_mono(s, j, (f1 - 1) as nat, (f2 - 1) as nat);
            },
        }
    }
}

/// A successful resolution at any fuel is the entity's one expansion.
pub proof fn blk_lemma_expansion_value(s: Seq<SpecBlock>, i: int, f: nat)
    requires
        expanded_items(s, i, f) is Some,
    ensures
        blk_resolvable(s, i),
        expanded_items(s, i, f) == Option::Some(blk_expansion(s, i)),
{
    assert(blk_resolvable(s, i));
    let f0 = choose|f0: nat| expanded_items(s, i, f0) is Some;
    if f0 <= f {
        blk_lemma_expanded_mono(s, i, f0, f);
    } else {
        blk_lemma_expanded_mono(s, i, f, f0);
    }
}

/// The extends target of an entity, the empty name when there is none.
pub open spec fn blk_ext_name(fs: SpecBlock) -> Seq<u8> {
    match fs.extends {
        Option::Some(b) => b,
        Option::None => Seq::<u8>::empty(),
    }
}

/// An edge to a name that no entity carries can never resolve.
pub proof fn blk_lemma_unknown_unresolvable(s: Seq<SpecBlock>, i: int)
    requires
        0 <= i < s.len(),
        s[i].extends is Some,
        find_name(s, blk_ext_name(s[i])) == -1,
    ensures
        !blk_resolvable(s, i),
{
    assert forall|f: nat| !(expanded_items(s, i, f) is Some) by {
        reveal_with_fuel(expanded_items, 1);
    }
}

fn dup_items(v: &Vec<BlockItem>) -> (r: Vec<BlockItem>)
    ensures
        views(r@) == views(v@),
{
    let mut r: Vec<BlockItem> = Vec::new();
    let mut i: usize = 0;
    while i < v.len()
        invariant
            i <= v@.len(),
            views(r@) == views(v@).take(i as int),
        decreases v@.len() - i,
    {
        let d = v[i].duplicate();
        proof {
            assert(d@ == views(v@)[i as int]);
        }
        let ghost oldr = r@;
        r.push(d);
        proof {
            assert(views(r@).len() == r@.len());
            assert(views(oldr).len() == oldr.len());
            assert(views(v@).take(i as int).len() == i);
            assert forall|w: int| 0 <= w < i + 1 implies views(r@)[w] == views(v@).take(i + 1)[w] by {
                if w < i {
                    assert(r@[w] == oldr[w]);
                    assert(views(r@)[w] == views(oldr)[w]);
                } else {
                    assert(views(r@)[w] == views(v@)[i as int]);
                }
            }
            assert(views(r@) =~= views(v@).take(i + 1));
        }
        i = i + 1;
    }
    proof {
        assert(views(v@).take(v@.len() as int) =~= views(v@));
    }
    r
}

fn dup_itemset(fs: &Block) -> (r: Block)
    ensures
        r@ == fs@,
{
    Block {
        name: clone_bytes(&fs.name),
        extends: match &fs.extends {
            Option::Some(e) => Option::Some(clone_bytes(e)),
            Option::None => Option::None,
        },
        items: dup_items(&fs.items),
    }
}

/// What one pass makes of entity `i`: an entity whose base is already
/// concrete is flattened, anything else is left as it stands.
pub open spec fn blk_pass_rel(s: Seq<SpecBlock>, oi: SpecBlock, i: int) -> bool {
    match s[i].extends {
        Option::None => oi == s[i],
        Option::Some(b) => {
            let j = find_name(s, b);
            &&& j != -1
            &&& if s[j].extends is None {
                oi == (SpecBlock {
                    name: s[i].name,
                    extends: Option::<Seq<u8>>::None,
                    items: spec_merge(s[j].items, s[i].items),
                })
            } else {
                oi == s[i]
            }
        },
    }
}

fn blk_expand_pass(v: &Vec<Block>) -> (r: Result<Vec<Block>, Vec<u8>>)
    ensures
        match r {
            Result::Ok(out) => views(out@).len() == views(v@).len() && forall|i: int|
                0 <= i < views(v@).len() ==> blk_pass_rel(views(v@), #[trigger] views(out@)[i], i),
            Result::Err(name) => exists|i: int|
                0 <= i < views(v@).len() && (#[trigger] views(v@)[i]).extends is Some && find_name(
                    views(v@),
                    blk_ext_name(views(v@)[i]),
                ) == -1 && views(v@)[i].name == name@,
        },
{
    let ghost s = views(v@);
    let mut out: Vec<Block> = Vec::new();
    let mut i: usize = 0;
    while i < v.len()
        invariant
            s == views(v@),
            i <= v@.len(),
            views(out@).len() == i,
            forall|w: int| 0 <= w < i ==> blk_pass_rel(s, #[trigger] views(out@)[w], w),
        decreases v@.len() - i,
    {
        let oe;
        let has_ext = v[i].extends.is_some();
        if !has_ext {
            oe = dup_itemset(&v[i]);
            proof {
                assert(oe@ == s[i as int]);
                assert(blk_pass_rel(s, oe@, i as int));
            }
        } else {
            let bname = match &v[i].extends {
                Option::Some(b) => clone_bytes(b),
                Option::None => Vec::new(),
            };
            proof {
                assert(bname@ == blk_ext_name(s[i as int]));
            }
            let found = find_by_name(v, &bname);
            match found {
                Option::None => {
                    let name = clone_bytes(&v[i].name);
                    proof {
                        assert(s[i as int].extends is Some && find_name(s, blk_ext_name(s[i as int]))
                            == -1 && s[i as int].name == name@);
                    }
                    return Result::Err(name);
                },
                Option::Some(j) => {
                    let base_concrete = v[j].extends.is_none();
                    if base_concrete {
                        let mut items = dup_items(&v[j].items);
                        let local = dup_items(&v[i].items);
                        merge_entities(&mut items, local);
                        oe = Block {
                            name: clone_bytes(&v[i].name),
                            extends: Option::None,
                            items,
                        };
                        proof {
                            assert(oe@.items == spec_merge(s[j as int].items, s[i as int].items));
                            assert(blk_pass_rel(s, oe@, i as int));
                        }
                    } else {
                        oe = dup_itemset(&v[i]);
                        proof {
                            assert(oe@ == s[i as int]);
                            assert(blk_pass_rel(s, oe@, i as int));
                        }
                    }
                },
            }
        }
        let ghost oev = oe@;
        let ghost oldout = out@;
        out.push(oe);
        proof {
            assert(views(out@).len() == out@.len());
            assert(views(oldout).len() == oldout.len());
            assert forall|w: int| 0 <= w < i + 1 implies blk_pass_rel(s, #[trigger] views(out@)[w], w) by {
                if w < i {
                    assert(out@[w] == oldout[w]);
                    assert(views(out@)[w] == views(oldout)[w]);
                } else {
                    assert(views(out@)[w] == oev);
                }
            }
        }
        i = i + 1;
    }
    Result::Ok(out)
}

/// How many entities still carry an extends edge.
pub open spec fn blk_num_unexpanded(s: Seq<SpecBlock>) -> nat
    decreases s.len(),
{
    if s.len() == 0 {
        0
    } else {
        blk_num_unexpanded(s.drop_last()) + if s.last().extends is Some {
            1nat
        } else {
            0nat
        }
    }
}

proof fn blk_lemma_count_le(s: Seq<SpecBlock>, o: Seq<SpecBlock>)
    requires
        s.len() == o.len(),
        forall|i: int| 0 <= i < o.len() && (#[trigger] o[i]).extends is Some ==> s[i].extends is Some,
    ensures
        blk_num_unexpanded(o) <= blk_num_unexpanded(s),
    decreases s.len(),
{
    if s.len() != 0 {
        blk_lemma_count_le(s.drop_last(), o.drop_last());
    }
}

proof fn blk_lemma_count_lt(s: Seq<SpecBlock>, o: Seq<SpecBlock>, w: int)
    requires
        s.len() == o.len(),
        forall|i: int| 0 <= i < o.len() && (#[trigger] o[i]).extends is Some ==> s[i].extends is Some,
        0 <= w < s.len(),
        s[w].extends is Some,
        o[w].extends is None,
    ensures
        blk_num_unexpanded(o) < blk_num_unexpanded(s),
    decreases s.len(),
{
    if w == s.len() - 1 {
        blk_lemma_count_le(s.drop_last(), o.drop_last());
    } else {
        blk_lemma_count_lt(s.drop_last(), o.drop_last(), w);
    }
}

fn blk_count_unexpanded(v: &Vec<Block>) -> (r: usize)
    ensures
        r as nat == blk_num_unexpanded(views(v@)),
{
    let ghost s = views(v@);
    let mut cnt: usize = 0;
    let mut i: usize = 0;
    proof {
        assert(s.take(0) =~= Seq::<SpecBlock>::empty());
    }
    while i < v.len()
        invariant
            s == views(v@),
            i <= v@.len(),
            cnt <= i,
            cnt as nat == blk_num_unexpanded(s.take(i as int)),
        decreases v@.len() - i,
    {
        proof {
            assert(s.take(i + 1).drop_last() =~= s.take(i as int));
            assert(s.take(i + 1).last() == s[i as int]);
        }
        if v[i].extends.is_some() {
            cnt = cnt + 1;
        }
        i = i + 1;
    }
    proof {
        assert(s.take(s.len() as int) =~= s);
    }
    cnt
}

/// The invariant the passes maintain against the starting graph: names and
/// sizes are kept, untouched entities stand as they were, and every entity
/// already freed of its edge carries exactly its flattened member list.
pub open spec fn blk_inv(orig: Seq<SpecBlock>, cur: Seq<SpecBlock>) -> bool {
    &&& cur.len() == orig.len()
    &&& forall|i: int|
        0 <= i < cur.len() ==> (#[trigger] cur[i]).name == orig[i].name
    &&& forall|i: int| 0 <= i < cur.len() && (#[trigger] cur[i]).extends is Some ==> cur[i] == orig[i]
    &&& forall|i: int|
        0 <= i < cur.len() && (#[trigger] cur[i]).extends is None ==> blk_resolvable(orig, i)
            && cur[i].items == blk_expansion(orig, i)
}

proof fn blk_lemma_pass_preserves_inv(orig: Seq<SpecBlock>, cur: Seq<SpecBlock>, next: Seq<SpecBlock>)
    requires
        blk_inv(orig, cur),
        next.len() == cur.len(),
        forall|i: int| 0 <= i < cur.len() ==> blk_pass_rel(cur, #[trigger] next[i], i),
    ensures
        blk_inv(orig, next),
{
    assert forall|i: int|
        0 <= i < next.len() && (#[trigger] next[i]).extends is None implies blk_resolvable(orig, i)
        && next[i].items == blk_expansion(orig, i) by {
        if cur[i].extends is None {
            assert(next[i] == cur[i]);
        } else {
            let b = blk_ext_name(cur[i]);
            let j = find_name(cur, b);
            assert(j != -1);
            lemma_find_name(cur, b);
            assert(cur[j].extends is None);
            assert(cur[i] == orig[i]);
            let fj = choose|f: nat| expanded_items(orig, j, f) is Some;
            lemma_find_name_same(cur, orig, b);
            assert(find_name(orig, b) == j);
            assert(expanded_items(orig, i, fj + 1) == Option::Some(
                spec_merge(blk_expansion(orig, j), orig[i].items),
            )) by {
                blk_lemma_expansion_value(orig, j, fj);
            }
            blk_lemma_expansion_value(orig, i, fj + 1);
            assert(next[i].items == spec_merge(cur[j].items, cur[i].items));
        }
    }
}

/// Resolves every extends edge, base first; a graph with an unknown target
/// or a cycle is refused, with the name of an entity that cannot resolve.
pub fn expand_blocks(v: Vec<Block>) -> (r: Result<Vec<Block>, Vec<u8>>)
    ensures
        match r {
            Result::Ok(out) => {
                &&& views(out@).len() == views(v@).len()
                &&& forall|i: int| 0 <= i < views(v@).len() ==> blk_resolvable(views(v@), i)
                &&& forall|i: int|
                    0 <= i < views(v@).len() ==> (#[trigger] views(out@)[i]).extends is None
                        && views(out@)[i].name == views(v@)[i].name && views(out@)[i].items == blk_expansion(
                        views(v@),
                        i,
                    )
            },
            Result::Err(name) => exists|i: int|
                0 <= i < views(v@).len() && !blk_resolvable(views(v@), i) && (#[trigger] views(
                    v@,
                )[i]).name == name@,
        },
{
    let ghost orig = views(v@);
    let mut cur = v;
    let mut cnt = blk_count_unexpanded(&cur);
    proof {
        assert forall|i: int|
            0 <= i < orig.len() && (#[trigger] orig[i]).extends is None implies blk_resolvable(
            orig,
            i,
        ) && orig[i].items == blk_expansion(orig, i) by {
            assert(expanded_items(orig, i, 0) == Option::Some(orig[i].items));
            blk_lemma_expansion_value(orig, i, 0);
        }
        assert(blk_inv(orig, views(cur@)));
    }
    loop
        invariant
            orig == views(v@),
            blk_inv(orig, views(cur@)),
            cnt as nat == blk_num_unexpanded(views(cur@)),
        decreases cnt,
    {
        if cnt == 0 {
            proof {
                let s = views(cur@);
                assert forall|i: int| 0 <= i < s.len() implies (#[trigger] s[i]).extends is None by {
                    if s[i].extends is Some {
                        blk_lemma_some_has_count(s, i);
                    }
                }
                assert forall|i: int| 0 <= i < orig.len() implies #[trigger] blk_resolvable(
                    orig,
                    i,
                ) by {
                    assert(s[i].extends is None);
                }
                assert forall|i: int| 0 <= i < orig.len() implies (#[trigger] s[i]).extends
                    is None && s[i].name == orig[i].name
                    && s[i].items == blk_expansion(orig, i) by {
                    assert(s[i].extends is None);
                }
            }
            return Result::Ok(cur);
        }
        let pr = blk_expand_pass(&cur);
        match pr {
            Result::Err(name) => {
                proof {
                    let s = views(cur@);
                    let i = choose|i: int|
                        0 <= i < s.len() && (#[trigger] s[i]).extends is Some && find_name(
                            s,
                            blk_ext_name(s[i]),
                        ) == -1 && s[i].name == name@;
                    assert(s[i] == orig[i]);
                    lemma_find_name_same(s, orig, blk_ext_name(orig[i]));
                    blk_lemma_unknown_unresolvable(orig, i);
                }
                return Result::Err(name);
            },
            Result::Ok(next) => {
                let cnt2 = blk_count_unexpanded(&next);
                proof {
                    blk_lemma_pass_preserves_inv(orig, views(cur@), views(next@));
                    assert forall|i: int|
                        0 <= i < views(next@).len() && (#[trigger] views(next@)[i]).extends
                            is Some implies views(cur@)[i].extends is Some by {
                        if views(cur@)[i].extends is None {
                            assert(views(next@)[i] == views(cur@)[i]);
                        }
                    }
                    blk_lemma_count_le(views(cur@), views(next@));
                }
                if cnt2 == cnt {
                    // no base was concrete: every remaining edge sits on a cycle
                    let stuck = blk_first_unexpanded(&next);
                    proof {
                        let s = views(next@);
                        let c = views(cur@);
                        assert forall|i: int| 0 <= i < s.len() implies (#[trigger] s[i]).kname()
                            == c[i].kname() by {
                            assert(s[i].name == orig[i].name && c[i].name == orig[i].name);
                        }
                        assert forall|i: int|
                            0 <= i < s.len() && (#[trigger] s[i]).extends is Some implies {
                            let j = find_name(s, blk_ext_name(s[i]));
                            0 <= j < s.len() && s[j].extends is Some
                        } by {
                            if c[i].extends is None {
                                assert(s[i] == c[i]);
                                assert(false);
                            }
                            let j = find_name(c, blk_ext_name(c[i]));
                            lemma_find_name(c, blk_ext_name(c[i]));
                            assert(j != -1);
                            if c[j].extends is None {
                                // the pass would have flattened entity i
                                assert(s[i].extends is None);
                                assert(false);
                            }
                            assert(s[i] == c[i]);
                            if s[j].extends is None {
                                blk_lemma_count_lt(c, s, j);
                                assert(false);
                            }
                            lemma_find_name_same(c, s, blk_ext_name(s[i]));
                        }
                        blk_lemma_stuck_unresolvable(orig, s);
                    }
                    match stuck {
                        Option::Some(name) => {
                            return Result::Err(name);
                        },
                        Option::None => {
                            proof {
                                blk_lemma_some_has_count_none(views(next@));
                                assert(false);
                            }
                            return Result::Err(Vec::new());
                        },
                    }
                }
                cnt = cnt2;
                cur = next;
            },
        }
    }
}

/// On a stuck graph (every remaining edge points at another entity that
/// still carries an edge) no remaining entity can ever resolve.
proof fn blk_lemma_stuck_all_fuel(orig: Seq<SpecBlock>, s: Seq<SpecBlock>, f: nat)
    requires
        blk_inv(orig, s),
        forall|i: int|
            0 <= i < s.len() && (#[trigger] s[i]).extends is Some ==> {
                let j = find_name(s, blk_ext_name(s[i]));
                0 <= j < s.len() && s[j].extends is Some
            },
    ensures
        forall|i: int|
            0 <= i < s.len() && (#[trigger] s[i]).extends is Some ==> expanded_items(orig, i, f)
                is None,
    decreases f,
{
    if f > 0 {
        blk_lemma_stuck_all_fuel(orig, s, (f - 1) as nat);
    }
    assert forall|i: int|
        0 <= i < s.len() && (#[trigger] s[i]).extends is Some implies expanded_items(orig, i, f)
        is None by {
        assert(s[i] == orig[i]);
        let b = blk_ext_name(orig[i]);
        let j = find_name(s, b);
        assert(0 <= j < s.len() && s[j].extends is Some);
        lemma_find_name_same(s, orig, b);
        if f > 0 {
            assert(expanded_items(orig, j, (f - 1) as nat) is None);
        }
    }
}

proof fn blk_lemma_stuck_unresolvable(orig: Seq<SpecBlock>, s: Seq<SpecBlock>)
    requires
        blk_inv(orig, s),
        forall|i: int|
            0 <= i < s.len() && (#[trigger] s[i]).extends is Some ==> {
                let j = find_name(s, blk_ext_name(s[i]));
                0 <= j < s.len() && s[j].extends is Some
            },
    ensures
        forall|i: int|
            0 <= i < s.len() && (#[trigger] s[i]).extends is Some ==> !blk_resolvable(orig, i),
{
    assert forall|i: int|
        0 <= i < s.len() && (#[trigger] s[i]).extends is Some implies !blk_resolvable(orig, i) by {
        assert forall|f: nat| !(expanded_items(orig, i, f) is Some) by {
            blk_lemma_stuck_all_fuel(orig, s, f);
        }
    }
}

/// An entity that still carries an edge makes the count positive.
proof fn blk_lemma_some_has_count(s: Seq<SpecBlock>, i: int)
    requires
        0 <= i < s.len(),
        s[i].extends is Some,
    ensures
        blk_num_unexpanded(s) > 0,
    decreases s.len(),
{
    if i < s.len() - 1 {
        blk_lemma_some_has_count(s.drop_last(), i);
    }
}

proof fn blk_lemma_some_has_count_none(s: Seq<SpecBlock>)
    requires
        forall|i: int| 0 <= i < s.len() ==> !((#[trigger] s[i]).extends is Some),
    ensures
        blk_num_unexpanded(s) == 0,
    decreases s.len(),
{
    if s.len() > 0 {
        blk_lemma_some_has_count_none(s.drop_last());
    }
}

/// The name of the first entity that still carries an extends edge.
fn blk_first_unexpanded(v: &Vec<Block>) -> (r: Option<Vec<u8>>)
    ensures
        match r {
            Option::Some(name) => exists|i: int|
                0 <= i < views(v@).len() && (#[trigger] views(v@)[i]).extends is Some && views(
                    v@,
                )[i].name == name@,
            Option::None => forall|i: int|
                0 <= i < views(v@).len() ==> !((#[trigger] views(v@)[i]).extends is Some),
        },
{
    let mut i: usize = 0;
    while i < v.len()
        invariant
            i <= v@.len(),
            forall|w: int| 0 <= w < i ==> !((#[trigger] views(v@)[w]).extends is Some),
        decreases v@.len() - i,
    {
        if v[i].extends.is_some() {
            let name = clone_bytes(&v[i].name);
            proof {
                assert(views(v@)[i as int].extends is Some && views(v@)[i as int].name == name@);
            }
            return Option::Some(name);
        }
        proof {
            assert(views(v@)[i as int] == v@[i as int]@);
        }
        i = i + 1;
    }
    Option::None
}


} // verus!
