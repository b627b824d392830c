//! Identifier sanitization, the capitalized-word rewriting of enum variant
//! names, and the deterministic ordering pass. Sanitization keeps letters,
//! digits, underscores and the namespace separator, turns every other byte
//! into an underscore, guards a leading digit with an underscore, and
//! appends an underscore to a name that is a reserved word of the target
//! language. References are rewritten exactly as the names they point at.
use crate::bytes::{bytes_eq, push_bytes};
use crate::ir::views;
use crate::ir::{
    Block, BlockItem, BlockItemInner, Device, Enum, EnumVariant, Field, FieldSet, Ir, Peripheral,
    SpecBlock, SpecBlockItem, SpecBlockItemInner, SpecDevice, SpecEnum, SpecEnumVariant, SpecField,
    SpecFieldSet, SpecIr, SpecPeripheral,
};
use crate::order::{sorted_vec, spec_sort, unique_names, Key, KeyItem};
use vstd::prelude::*;

verus! {

pub open spec fn is_lower(c: u8) -> bool {
    97 <= c <= 122
}

pub open spec fn is_upper(c: u8) -> bool {
    65 <= c <= 90
}

pub open spec fn is_digit(c: u8) -> bool {
    48 <= c <= 57
}

/// A byte that may stand in a sanitized identifier: a letter, a digit, an
/// underscore, or the namespace separator.
pub open spec fn legal_byte(c: u8) -> bool {
    is_lower(c) || is_upper(c) || is_digit(c) || c == 95 || c == 58
}

pub open spec fn sane_byte(c: u8) -> u8 {
    if legal_byte(c) {
        c
    } else {
        95
    }
}

/// Every byte normalized, order and length kept.
pub open spec fn norm_bytes(s: Seq<u8>) -> Seq<u8>
    decreases s.len(),
{
    if s.len() == 0 {
        Seq::<u8>::empty()
    } else {
        norm_bytes(s.drop_last()).push(sane_byte(s.last()))
    }
}

/// The reserved words of the target language that an identifier may not
/// collide with.
pub open spec fn kw_list() -> Seq<Seq<u8>> {
    seq![seq![97u8, 115u8], seq![98u8, 114u8, 101u8, 97u8, 107u8], seq![99u8, 111u8, 110u8, 115u8, 116u8], seq![99u8, 111u8, 110u8, 116u8, 105u8, 110u8, 117u8, 101u8], seq![99u8, 114u8, 97u8, 116u8, 101u8], seq![101u8, 108u8, 115u8, 101u8], seq![101u8, 110u8, 117u8, 109u8], seq![102u8, 110u8], seq![102u8, 111u8, 114u8], seq![105u8, 102u8], seq![105u8, 109u8, 112u8, 108u8], seq![105u8, 110u8], seq![108u8, 101u8, 116u8], seq![108u8, 111u8, 111u8, 112u8], seq![109u8, 97u8, 116u8, 99u8, 104u8], seq![109u8, 111u8, 100u8], seq![109u8, 111u8, 118u8, 101u8], seq![109u8, 117u8, 116u8], seq![112u8, 117u8, 98u8], seq![114u8, 101u8, 102u8], seq![114u8, 101u8, 116u8, 117u8, 114u8, 110u8], seq![115u8, 101u8, 108u8, 102u8], seq![115u8, 116u8, 97u8, 116u8, 105u8, 99u8], seq![115u8, 116u8, 114u8, 117u8, 99u8, 116u8], seq![115u8, 117u8, 112u8, 101u8, 114u8], seq![116u8, 114u8, 97u8, 105u8, 116u8], seq![116u8, 121u8, 112u8, 101u8], seq![117u8, 110u8, 115u8, 97u8, 102u8, 101u8], seq![117u8, 115u8, 101u8], seq![119u8, 104u8, 101u8, 114u8, 101u8], seq![119u8, 104u8, 105u8, 108u8, 101u8]]
}

pub open spec fn spec_is_keyword(s: Seq<u8>) -> bool {
    exists|i: int| 0 <= i < kw_list().len() && #[trigger] kw_list()[i] == s
}


/// The sanitized form of one identifier.
pub open spec fn spec_sanitize_name(s: Seq<u8>) -> Seq<u8> {
    let t = if s.len() > 0 && is_digit(s[0]) {
        seq![95u8] + norm_bytes(s)
    } else {
        norm_bytes(s)
    };
    if spec_is_keyword(t) {
        t.push(95u8)
    } else {
        t
    }
}

/// An identifier that sanitization leaves alone: legal bytes only, no
/// leading digit, not a reserved word.
pub open spec fn spec_ident_ok(s: Seq<u8>) -> bool {
    &&& forall|i: int| 0 <= i < s.len() ==> legal_byte(#[trigger] s[i])
    &&& (s.len() > 0 ==> !is_digit(s[0]))
    &&& !spec_is_keyword(s)
}

proof fn lemma_norm_ok(s: Seq<u8>)
    requires
        forall|i: int| 0 <= i < s.len() ==> legal_byte(#[trigger] s[i]),
    ensures
        norm_bytes(s) == s,
    decreases s.len(),
{
    if s.len() > 0 {
        lemma_norm_ok(s.drop_last());
        assert(norm_bytes(s) =~= s);
    } else {
        assert(norm_bytes(s) =~= s);
    }
}

/// Sanitization round-trip: a valid, non-colliding identifier passes
/// through sanitization unchanged.
pub proof fn lemma_sanitize_identity(s: Seq<u8>)
    requires
        spec_ident_ok(s),
    ensures
        spec_sanitize_name(s) == s,
{
    lemma_norm_ok(s);
}

/// The capitalized-word rewriting of a variant name: underscores split
/// words, the first letter of each word goes to upper case, the rest to
/// lower case, and the separators vanish.
pub open spec fn to_upper(c: u8) -> u8 {
    if is_lower(c) {
        (c - 32) as u8
    } else {
        c
    }
}

pub open spec fn to_lower(c: u8) -> u8 {
    if is_upper(c) {
        (c + 32) as u8
    } else {
        c
    }
}

pub open spec fn pascal_of(s: Seq<u8>, start: bool) -> Seq<u8>
    decreases s.len(),
{
    if s.len() == 0 {
        Seq::<u8>::empty()
    } else if s[0] == 95 {
        pascal_of(s.drop_first(), true)
    } else if start {
        seq![to_upper(s[0])] + pascal_of(s.drop_first(), false)
    } else {
        seq![to_lower(s[0])] + pascal_of(s.drop_first(), false)
    }
}

fn make_kw_list() -> (r: Vec<Vec<u8>>)
    ensures
        views(r@) == kw_list(),
{
    let mut r: Vec<Vec<u8>> = Vec::new();
    proof {
        assert(views(r@) =~= kw_list().take(0));
    }

    let mut k: Vec<u8> = Vec::new();
    k.push(97u8);
    k.push(115u8);
    proof {
        assert(k@ =~= kw_list()[0]);
    }
    r.push(k);
    proof {
        assert(views(r@) =~= kw_list().take(1));
    }

    let mut k: Vec<u8> = Vec::new();
    k.push(98u8);
    k.push(114u8);
    k.push(101u8);
    k.push(97u8);
    k.push(107u8);
    proof {
        assert(k@ =~= kw_list()[1]);
    }
    r.push(k);
    proof {
        assert(views(r@) =~= kw_list().take(2));
    }

    let mut k: Vec<u8> = Vec::new();
    k.push(99u8);
    k.push(111u8);
    k.push(110u8);
    k.push(115u8);
    k.push(116u8);
    proof {
        assert(k@ =~= kw_list()[2]);
    }
    r.push(k);
    proof {
        assert(views(r@) =~= kw_list().take(3));
    }

    let mut k: Vec<u8> = Vec::new();
    k.push(99u8);
    k.push(111u8);
    k.push(110u8);
    k.push(116u8);
    k.push(105u8);
    k.push(110u8);
    k.push(117u8);
    k.push(101u8);
    proof {
        assert(k@ =~= kw_list()[3]);
    }
    r.push(k);
    proof {
        assert(views(r@) =~= kw_list().take(4));
    }

    let mut k: Vec<u8> = Vec::new();
    k.push(99u8);
    k.push(114u8);
    k.push(97u8);
    k.push(116u8);
    k.push(101u8);
    proof {
        assert(k@ =~= kw_list()[4]);
    }
    r.push(k);
    proof {
        assert(views(r@) =~= kw_list().take(5));
    }

    let mut k: Vec<u8> = Vec::new();
    k.push(101u8);
    k.push(108u8);
    k.push(115u8);
    k.push(101u8);
    proof {
        assert(k@ =~= kw_list()[5]);
    }
    r.push(k);
    proof {
        assert(views(r@) =~= kw_list().take(6));
    }

    let mut k: Vec<u8> = Vec::new();
    k.push(101u8);
    k.push(110u8);
    k.push(117u8);
    k.push(109u8);
    proof {
        assert(k@ =~= kw_list()[6]);
    }
    r.push(k);
    proof {
        assert(views(r@) =~= kw_list().take(7));
    }

    let mut k: Vec<u8> = Vec::new();
    k.push(102u8);
    k.push(110u8);
    proof {
        assert(k@ =~= kw_list()[7]);
    }
    r.push(k);
    proof {
        assert(views(r@) =~= kw_list().take(8));
    }

    let mut k: Vec<u8> = Vec::new();
    k.push(102u8);
    k.push(111u8);
    k.push(114u8);
    proof {
        assert(k@ =~= kw_list()[8]);
    }
    r.push(k);
    proof {
        assert(views(r@) =~= kw_list().take(9));
    }

    let mut k: Vec<u8> = Vec::new();
    k.push(105u8);
    k.push(102u8);
    proof {
        assert(k@ =~= kw_list()[9]);
    }
    r.push(k);
    proof {
        assert(views(r@) =~= kw_list().take(10));
    }

    let mut k: Vec<u8> = Vec::new();
    k.push(105u8);
    k.push(109u8);
    k.push(112u8);
    k.push(108u8);
    proof {
        assert(k@ =~= kw_list()[10]);
    }
    r.push(k);
    proof {
        assert(views(r@) =~= kw_list().take(11));
    }

    let mut k: Vec<u8> = Vec::new();
    k.push(105u8);
    k.push(110u8);
    proof {
        assert(k@ =~= kw_list()[11]);
    }
    r.push(k);
    proof {
        assert(views(r@) =~= kw_list().take(12));
    }

    let mut k: Vec<u8> = Vec::new();
    k.push(108u8);
    k.push(101u8);
    k.push(116u8);
    proof {
        assert(k@ =~= kw_list()[12]);
    }
    r.push(k);
    proof {
        assert(views(r@) =~= kw_list().take(13));
    }

    let mut k: Vec<u8> = Vec::new();
    k.push(108u8);
    k.push(111u8);
    k.push(111u8);
    k.push(112u8);
    proof {
        assert(k@ =~= kw_list()[13]);
    }
    r.push(k);
    proof {
        assert(views(r@) =~= kw_list().take(14));
    }

    let mut k: Vec<u8> = Vec::new();
    k.push(109u8);
    k.push(97u8);
    k.push(116u8);
    k.push(99u8);
    k.push(104u8);
    proof {
        assert(k@ =~= kw_list()[14]);
    }
    r.push(k);
    proof {
        assert(views(r@) =~= kw_list().take(15));
    }

    let mut k: Vec<u8> = Vec::new();
    k.push(109u8);
    k.push(111u8);
    k.push(100u8);
    proof {
        assert(k@ =~= kw_list()[15]);
    }
    r.push(k);
    proof {
        assert(views(r@) =~= kw_list().take(16));
    }

    let mut k: Vec<u8> = Vec::new();
    k.push(109u8);
    k.push(111u8);
    k.push(118u8);
    k.push(101u8);
    proof {
        assert(k@ =~= kw_list()[16]);
    }
    r.push(k);
    proof {
        assert(views(r@) =~= kw_list().take(17));
    }

    let mut k: Vec<u8> = Vec::new();
    k.push(109u8);
    k.push(117u8);
    k.push(116u8);
    proof {
        assert(k@ =~= kw_list()[17]);
    }
    r.push(k);
    proof {
        assert(views(r@) =~= kw_list().take(18));
    }

    let mut k: Vec<u8> = Vec::new();
    k.push(112u8);
    k.push(117u8);
    k.push(98u8);
    proof {
        assert(k@ =~= kw_list()[18]);
    }
    r.push(k);
    proof {
        assert(views(r@) =~= kw_list().take(19));
    }

    let mut k: Vec<u8> = Vec::new();
    k.push(114u8);
    k.push(101u8);
    k.push(102u8);
    proof {
        assert(k@ =~= kw_list()[19]);
    }
    r.push(k);
    proof {
        assert(views(r@) =~= kw_list().take(20));
    }

    let mut k: Vec<u8> = Vec::new();
    k.push(114u8);
    k.push(101u8);
    k.push(116u8);
    k.push(117u8);
    k.push(114u8);
    k.push(110u8);
    proof {
        assert(k@ =~= kw_list()[20]);
    }
    r.push(k);
    proof {
        assert(views(r@) =~= kw_list().take(21));
    }

    let mut k: Vec<u8> = Vec::new();
    k.push(115u8);
    k.push(101u8);
    k.push(108u8);
    k.push(102u8);
    proof {
        assert(k@ =~= kw_list()[21]);
    }
    r.push(k);
    proof {
        assert(views(r@) =~= kw_list().take(22));
    }

    let mut k: Vec<u8> = Vec::new();
    k.push(115u8);
    k.push(116u8);
    k.push(97u8);
    k.push(116u8);
    k.push(105u8);
    k.push(99u8);
    proof {
        assert(k@ =~= kw_list()[22]);
    }
    r.push(k);
    proof {
        assert(views(r@) =~= kw_list().take(23));
    }

    let mut k: Vec<u8> = Vec::new();
    k.push(115u8);
    k.push(116u8);
    k.push(114u8);
    k.push(117u8);
    k.push(99u8);
    k.push(116u8);
    proof {
        assert(k@ =~= kw_list()[23]);
    }
    r.push(k);
    proof {
        assert(views(r@) =~= kw_list().take(24));
    }

    let mut k: Vec<u8> = Vec::new();
    k.push(115u8);
    k.push(117u8);
    k.push(112u8);
    k.push(101u8);
    k.push(114u8);
    proof {
        assert(k@ =~= kw_list()[24]);
    }
    r.push(k);
    proof {
        assert(views(r@) =~= kw_list().take(25));
    }

    let mut k: Vec<u8> = Vec::new();
    k.push(116u8);
    k.push(114u8);
    k.push(97u8);
    k.push(105u8);
    k.push(116u8);
    proof {
        assert(k@ =~= kw_list()[25]);
    }
    r.push(k);
    proof {
        assert(views(r@) =~= kw_list().take(26));
    }

    let mut k: Vec<u8> = Vec::new();
    k.push(116u8);
    k.push(121u8);
    k.push(112u8);
    k.push(101u8);
    proof {
        assert(k@ =~= kw_list()[26]);
    }
    r.push(k);
    proof {
        assert(views(r@) =~= kw_list().take(27));
    }

    let mut k: Vec<u8> = Vec::new();
    k.push(117u8);
    k.push(110u8);
    k.push(115u8);
    k.push(97u8);
    k.push(102u8);
    k.push(101u8);
    proof {
        assert(k@ =~= kw_list()[27]);
    }
    r.push(k);
    proof {
        assert(views(r@) =~= kw_list().take(28));
    }

    let mut k: Vec<u8> = Vec::new();
    k.push(117u8);
    k.push(115u8);
    k.push(101u8);
    proof {
        assert(k@ =~= kw_list()[28]);
    }
    r.push(k);
    proof {
        assert(views(r@) =~= kw_list().take(29));
    }

    let mut k: Vec<u8> = Vec::new();
    k.push(119u8);
    k.push(104u8);
    k.push(101u8);
    k.push(114u8);
    k.push(101u8);
    proof {
        assert(k@ =~= kw_list()[29]);
    }
    r.push(k);
    proof {
        assert(views(r@) =~= kw_list().take(30));
    }

    let mut k: Vec<u8> = Vec::new();
    k.push(119u8);
    k.push(104u8);
    k.push(105u8);
    k.push(108u8);
    k.push(101u8);
    proof {
        assert(k@ =~= kw_list()[30]);
    }
    r.push(k);
    proof {
        assert(views(r@) =~= kw_list().take(31));
    }

    proof {
        assert(kw_list().take(31) =~= kw_list());
    }
    r
}

fn is_keyword(s: &Vec<u8>) -> (r: bool)
    ensures
        r == spec_is_keyword(s@),
{
    let kws = make_kw_list();
    let mut i: usize = 0;
    while i < kws.len()
        invariant
            views(kws@) == kw_list(),
            i <= kws@.len(),
            forall|w: int| 0 <= w < i ==> #[trigger] kw_list()[w] != s@,
        decreases kws@.len() - i,
    {
        if bytes_eq(&kws[i], s) {
            proof {
                assert(kw_list()[i as int] == kws@[i as int]@);
            }
            return true;
        }
        proof {
            assert(kw_list()[i as int] == kws@[i as int]@);
        }
        i = i + 1;
    }
    false
}


/// Sanitizes one identifier.
pub fn sanitize_name(v: &Vec<u8>) -> (r: Vec<u8>)
    ensures
        r@ == spec_sanitize_name(v@),
{
    let mut t: Vec<u8> = Vec::new();
    if v.len() > 0 && v[0] >= 48 && v[0] <= 57 {
        t.push(95u8);
    }
    let ghost pre = t@;
    let mut i: usize = 0;
    proof {
        assert(norm_bytes(v@.take(0)) =~= Seq::<u8>::empty());
        assert(t@ =~= pre + norm_bytes(v@.take(0)));
    }
    while i < v.len()
        invariant
            i <= v@.len(),
            t@ == pre + norm_bytes(v@.take(i as int)),
        decreases v@.len() - i,
    {
        let c = v[i];
        let keep = (c >= 97 && c <= 122) || (c >= 65 && c <= 90) || (c >= 48 && c <= 57) || c == 95
            || c == 58;
        let d = if keep {
            c
        } else {
            95u8
        };
        proof {
            assert(d == sane_byte(v@[i as int]));
            assert(v@.take(i + 1).drop_last() =~= v@.take(i as int));
            assert(v@.take(i + 1).drop_last() == v@.take(i as int));
            assert(v@.take(i + 1).last() == v@[i as int]);
        }
        t.push(d);
        proof {
            assert(t@ =~= pre + norm_bytes(v@.take(i + 1)));
        }
        i = i + 1;
    }
    proof {
        assert(v@.take(v@.len() as int) =~= v@);
        assert(v@.take(v@.len() as int) == v@);
    }
    if is_keyword(&t) {
        t.push(95u8);
    }
    t
}

/// Rewrites one variant name to the capitalized-word convention.
pub fn pascal_name(v: &Vec<u8>) -> (r: Vec<u8>)
    ensures
        r@ == pascal_of(v@, true),
{
    let mut out: Vec<u8> = Vec::new();
    let mut i: usize = 0;
    let mut start: bool = true;
    proof {
        assert(v@.skip(0) =~= v@);
        assert(out@ =~= Seq::<u8>::empty());
    }
    while i < v.len()
        invariant
            i <= v@.len(),
            pascal_of(v@, true) == out@ + pascal_of(v@.skip(i as int), start),
        decreases v@.len() - i,
    {
        let c = v[i];
        proof {
            assert(v@.skip(i as int)[0] == v@[i as int]);
            assert(v@.skip(i as int).drop_first() =~= v@.skip(i + 1));
            assert(v@.skip(i as int).drop_first() == v@.skip(i + 1));
        }
        if c == 95 {
            start = true;
        } else if start {
            let d = if c >= 97 && c <= 122 {
                (c - 32) as u8
            } else {
                c
            };
            proof {
                assert(d == to_upper(v@[i as int]));
            }
            let ghost oldout = out@;
            out.push(d);
            start = false;
            proof {
                assert(out@ + pascal_of(v@.skip(i + 1), false) =~= oldout + (seq![d] + pascal_of(
                    v@.skip(i + 1),
                    false,
                )));
            }
        } else {
            let d = if c >= 65 && c <= 90 {
                (c + 32) as u8
            } else {
                c
            };
            proof {
                assert(d == to_lower(v@[i as int]));
            }
            let ghost oldout = out@;
            out.push(d);
            proof {
                assert(out@ + pascal_of(v@.skip(i + 1), false) =~= oldout + (seq![d] + pascal_of(
                    v@.skip(i + 1),
                    false,
                )));
            }
        }
        i = i + 1;
    }
    proof {
        assert(v@.skip(v@.len() as int).len() == 0);
        assert(out@ + pascal_of(v@.skip(v@.len() as int), start) =~= out@);
    }
    out
}


pub open spec fn san_opt(o: Option<Seq<u8>>) -> Option<Seq<u8>> {
    match o {
        Option::Some(n) => Option::Some(spec_sanitize_name(n)),
        Option::None => Option::None,
    }
}

pub open spec fn san_field(f: SpecField) -> SpecField {
    SpecField { name: spec_sanitize_name(f.name), enumm: san_opt(f.enumm), ..f }
}

pub open spec fn san_fields(s: Seq<SpecField>) -> Seq<SpecField>
    decreases s.len(),
{
    if s.len() == 0 {
        Seq::<SpecField>::empty()
    } else {
        san_fields(s.drop_last()).push(san_field(s.last()))
    }
}

pub open spec fn san_fieldset(fs: SpecFieldSet) -> SpecFieldSet {
    SpecFieldSet {
        name: spec_sanitize_name(fs.name),
        extends: san_opt(fs.extends),
        fields: san_fields(fs.fields),
        ..fs
    }
}

pub open spec fn san_fieldsets(s: Seq<SpecFieldSet>) -> Seq<SpecFieldSet>
    decreases s.len(),
{
    if s.len() == 0 {
        Seq::<SpecFieldSet>::empty()
    } else {
        san_fieldsets(s.drop_last()).push(san_fieldset(s.last()))
    }
}

pub open spec fn san_item(it: SpecBlockItem) -> SpecBlockItem {
    SpecBlockItem {
        name: spec_sanitize_name(it.name),
        inner: match it.inner {
            SpecBlockItemInner::Register { bit_size, fieldset } => SpecBlockItemInner::Register {
                bit_size,
                fieldset: san_opt(fieldset),
            },
            SpecBlockItemInner::Block { block } => SpecBlockItemInner::Block {
                block: spec_sanitize_name(block),
            },
        },
        ..it
    }
}

pub open spec fn san_items(s: Seq<SpecBlockItem>) -> Seq<SpecBlockItem>
    decreases s.len(),
{
    if s.len() == 0 {
        Seq::<SpecBlockItem>::empty()
    } else {
        san_items(s.drop_last()).push(san_item(s.last()))
    }
}

pub open spec fn san_block(b: SpecBlock) -> SpecBlock {
    SpecBlock {
        name: spec_sanitize_name(b.name),
        extends: san_opt(b.extends),
        items: san_items(b.items),
    }
}

pub open spec fn san_blocks(s: Seq<SpecBlock>) -> Seq<SpecBlock>
    decreases s.len(),
{
    if s.len() == 0 {
        Seq::<SpecBlock>::empty()
    } else {
        san_blocks(s.drop_last()).push(san_block(s.last()))
    }
}

pub open spec fn san_variant(v: SpecEnumVariant) -> SpecEnumVariant {
    SpecEnumVariant { name: spec_sanitize_name(v.name), ..v }
}

pub open spec fn san_variants(s: Seq<SpecEnumVariant>) -> Seq<SpecEnumVariant>
    decreases s.len(),
{
    if s.len() == 0 {
        Seq::<SpecEnumVariant>::empty()
    } else {
        san_variants(s.drop_last()).push(san_variant(s.last()))
    }
}

pub open spec fn san_enum(e: SpecEnum) -> SpecEnum {
    SpecEnum { name: spec_sanitize_name(e.name), variants: san_variants(e.variants), ..e }
}

pub open spec fn san_enums(s: Seq<SpecEnum>) -> Seq<SpecEnum>
    decreases s.len(),
{
    if s.len() == 0 {
        Seq::<SpecEnum>::empty()
    } else {
        san_enums(s.drop_last()).push(san_enum(s.last()))
    }
}

pub open spec fn san_peripheral(p: SpecPeripheral) -> SpecPeripheral {
    SpecPeripheral { name: spec_sanitize_name(p.name), block: spec_sanitize_name(p.block), ..p }
}

pub open spec fn san_peripherals(s: Seq<SpecPeripheral>) -> Seq<SpecPeripheral>
    decreases s.len(),
{
    if s.len() == 0 {
        Seq::<SpecPeripheral>::empty()
    } else {
        san_peripherals(s.drop_last()).push(san_peripheral(s.last()))
    }
}

pub open spec fn san_device(d: SpecDevice) -> SpecDevice {
    SpecDevice { name: spec_sanitize_name(d.name), peripherals: san_peripherals(d.peripherals) }
}

pub open spec fn san_devices(s: Seq<SpecDevice>) -> Seq<SpecDevice>
    decreases s.len(),
{
    if s.len() == 0 {
        Seq::<SpecDevice>::empty()
    } else {
        san_devices(s.drop_last()).push(san_device(s.last()))
    }
}

/// The whole graph with every identifier and reference sanitized.
pub open spec fn spec_sanitize_ir(ir: SpecIr) -> SpecIr {
    SpecIr {
        devices: san_devices(ir.devices),
        blocks: san_blocks(ir.blocks),
        fieldsets: san_fieldsets(ir.fieldsets),
        enums: san_enums(ir.enums),
    }
}

/// No two entities of one kind share a name.
pub open spec fn spec_names_unique(ir: SpecIr) -> bool {
    &&& unique_names(ir.devices)
    &&& unique_names(ir.blocks)
    &&& unique_names(ir.fieldsets)
    &&& unique_names(ir.enums)
}

fn san_fields_x(v: Vec<Field>) -> (r: Vec<Field>)
    ensures
        views(r@) == san_fields(views(v@)),
{
    let ghost orig = v@;
    let mut v = v;
    let mut out: Vec<Field> = Vec::new();
    proof {
        assert(orig.skip(0) =~= orig);
        assert(views(orig.take(0)) =~= Seq::<SpecField>::empty());
        assert(views(out@) =~= san_fields(views(orig.take(0))));
    }
    while v.len() > 0
        invariant
            v@.len() <= orig.len(),
            v@ == orig.skip(orig.len() - v@.len()),
            views(out@) == san_fields(views(orig.take(orig.len() - v@.len()))),
        decreases v@.len(),
    {
        let ghost k = orig.len() - v@.len();
        proof {
            assert(0 <= k < orig.len());
            assert(v@[0] == orig.skip(k as int)[0]);
        }
        let x = v.remove(0);
        proof {
            assert(x == orig[k]);
            assert(v@ =~= orig.skip(k + 1));
            assert(views(orig.take(k + 1)).len() == k + 1);
            assert(views(orig.take(k as int)).len() == k);
            assert(views(orig.take(k + 1)).drop_last() =~= views(orig.take(k as int)));
            assert(views(orig.take(k + 1)).drop_last() == views(orig.take(k as int)));
            assert(views(orig.take(k + 1)).last() == orig[k]@);
        }
        let Field { name, bit_offset, bit_size, enumm } = x;
        let name = sanitize_name(&name);
        let enumm = match &enumm {
            Option::Some(e) => Option::Some(sanitize_name(e)),
            Option::None => Option::None,
        };
        let ne = Field { name, bit_offset, bit_size, enumm };
        proof {
            assert(ne@ == san_field(orig[k]@));
        }
        let ghost oldout = out@;
        out.push(ne);
        proof {
            assert(views(out@).len() == out@.len());
            assert(views(oldout).len() == oldout.len());
            assert(san_fields(views(orig.take(k + 1))) == san_fields(views(orig.take(k as int))).push(
                san_field(orig[k]@),
            ));
            let target = san_fields(views(orig.take(k + 1)));
            assert forall|w: int| 0 <= w < target.len() implies views(out@)[w] == target[w] by {
                if w < oldout.len() {
                    assert(out@[w] == oldout[w]);
                    assert(views(out@)[w] == views(oldout)[w]);
                } else {
                    assert(views(out@)[w] == ne@);
                }
            }
            assert(views(out@) =~= target);
        }
    }
    proof {
        assert(orig.take(orig.len() as int) =~= orig);
        assert(orig.take(orig.len() as int) == orig);
    }
    out
}

fn san_fieldsets_x(v: Vec<FieldSet>) -> (r: Vec<FieldSet>)
    ensures
        views(r@) == san_fieldsets(views(v@)),
{
    let ghost orig = v@;
    let mut v = v;
    let mut out: Vec<FieldSet> = Vec::new();
    proof {
        assert(orig.skip(0) =~= orig);
        assert(views(orig.take(0)) =~= Seq::<SpecFieldSet>::empty());
        assert(views(out@) =~= san_fieldsets(views(orig.take(0))));
    }
    while v.len() > 0
        invariant
            v@.len() <= orig.len(),
            v@ == orig.skip(orig.len() - v@.len()),
            views(out@) == san_fieldsets(views(orig.take(orig.len() - v@.len()))),
        decreases v@.len(),
    {
        let ghost k = orig.len() - v@.len();
        proof {
            assert(0 <= k < orig.len());
            assert(v@[0] == orig.skip(k as int)[0]);
        }
        let x = v.remove(0);
        proof {
            assert(x == orig[k]);
            assert(v@ =~= orig.skip(k + 1));
            assert(views(orig.take(k + 1)).len() == k + 1);
            assert(views(orig.take(k as int)).len() == k);
            assert(views(orig.take(k + 1)).drop_last() =~= views(orig.take(k as int)));
            assert(views(orig.take(k + 1)).drop_last() == views(orig.take(k as int)));
            assert(views(orig.take(k + 1)).last() == orig[k]@);
        }
        let FieldSet { name, extends, bit_size, fields } = x;
        let name = sanitize_name(&name);
        let extends = match &extends {
            Option::Some(e) => Option::Some(sanitize_name(e)),
            Option::None => Option::None,
        };
        let fields = san_fields_x(fields);
        let ne = FieldSet { name, extends, bit_size, fields };
        proof {
            assert(ne@ == san_fieldset(orig[k]@));
        }
        let ghost oldout = out@;
        out.push(ne);
        proof {
            assert(views(out@).len() == out@.len());
            assert(views(oldout).len() == oldout.len());
            assert(san_fieldsets(views(orig.take(k + 1))) == san_fieldsets(views(orig.take(k as int))).push(
                san_fieldset(orig[k]@),
            ));
            let target = san_fieldsets(views(orig.take(k + 1)));
            assert forall|w: int| 0 <= w < target.len() implies views(out@)[w] == target[w] by {
                if w < oldout.len() {
                    assert(out@[w] == oldout[w]);
                    assert(views(out@)[w] == views(oldout)[w]);
                } else {
                    assert(views(out@)[w] == ne@);
                }
            }
            assert(views(out@) =~= target);
        }
    }
    proof {
        assert(orig.take(orig.len() as int) =~= orig);
        assert(orig.take(orig.len() as int) == orig);
    }
    out
}

fn san_items_x(v: Vec<BlockItem>) -> (r: Vec<BlockItem>)
    ensures
        views(r@) == san_items(views(v@)),
{
    let ghost orig = v@;
    let mut v = v;
    let mut out: Vec<BlockItem> = Vec::new();
    proof {
        assert(orig.skip(0) =~= orig);
        assert(views(orig.take(0)) =~= Seq::<SpecBlockItem>::empty());
        assert(views(out@) =~= san_items(views(orig.take(0))));
    }
    while v.len() > 0
        invariant
            v@.len() <= orig.len(),
            v@ == orig.skip(orig.len() - v@.len()),
            views(out@) == san_items(views(orig.take(orig.len() - v@.len()))),
        decreases v@.len(),
    {
        let ghost k = orig.len() - v@.len();
        proof {
            assert(0 <= k < orig.len());
            assert(v@[0] == orig.skip(k as int)[0]);
        }
        let x = v.remove(0);
        proof {
            assert(x == orig[k]);
            assert(v@ =~= orig.skip(k + 1));
            assert(views(orig.take(k + 1)).len() == k + 1);
            assert(views(orig.take(k as int)).len() == k);
            assert(views(orig.take(k + 1)).drop_last() =~= views(orig.take(k as int)));
            assert(views(orig.take(k + 1)).drop_last() == views(orig.take(k as int)));
            assert(views(orig.take(k + 1)).last() == orig[k]@);
        }
        let BlockItem { name, byte_offset, inner } = x;
        let name = sanitize_name(&name);
        let inner = match &inner {
            BlockItemInner::Register { bit_size, fieldset } => BlockItemInner::Register {
                bit_size: *bit_size,
                fieldset: match fieldset {
                    Option::Some(f) => Option::Some(sanitize_name(f)),
                    Option::None => Option::None,
                },
            },
            BlockItemInner::Block { block } => BlockItemInner::Block {
                block: sanitize_name(block),
            },
        };
        let ne = BlockItem { name, byte_offset, inner };
        proof {
            assert(ne@ == san_item(orig[k]@));
        }
        let ghost oldout = out@;
        out.push(ne);
        proof {
            assert(views(out@).len() == out@.len());
            assert(views(oldout).len() == oldout.len());
            assert(san_items(views(orig.take(k + 1))) == san_items(views(orig.take(k as int))).push(
                san_item(orig[k]@),
            ));
            let target = san_items(views(orig.take(k + 1)));
            assert forall|w: int| 0 <= w < target.len() implies views(out@)[w] == target[w] by {
                if w < oldout.len() {
                    assert(out@[w] == oldout[w]);
                    assert(views(out@)[w] == views(oldout)[w]);
                } else {
                    assert(views(out@)[w] == ne@);
                }
            }
            assert(views(out@) =~= target);
        }
    }
    proof {
        assert(orig.take(orig.len() as int) =~= orig);
        assert(orig.take(orig.len() as int) == orig);
    }
    out
}

fn san_blocks_x(v: Vec<Block>) -> (r: Vec<Block>)
    ensures
        views(r@) == san_blocks(views(v@)),
{
    let ghost orig = v@;
    let mut v = v;
    let mut out: Vec<Block> = Vec::new();
    proof {
        assert(orig.skip(0) =~= orig);
        assert(views(orig.take(0)) =~= Seq::<SpecBlock>::empty());
        assert(views(out@) =~= san_blocks(views(orig.take(0))));
    }
    while v.len() > 0
        invariant
            v@.len() <= orig.len(),
            v@ == orig.skip(orig.len() - v@.len()),
            views(out@) == san_blocks(views(orig.take(orig.len() - v@.len()))),
        decreases v@.len(),
    {
        let ghost k = orig.len() - v@.len();
        proof {
            assert(0 <= k < orig.len());
            assert(v@[0] == orig.skip(k as int)[0]);
        }
        let x = v.remove(0);
        proof {
            assert(x == orig[k]);
            assert(v@ =~= orig.skip(k + 1));
            assert(views(orig.take(k + 1)).len() == k + 1);
            assert(views(orig.take(k as int)).len() == k);
            assert(views(orig.take(k + 1)).drop_last() =~= views(orig.take(k as int)));
            assert(views(orig.take(k + 1)).drop_last() == views(orig.take(k as int)));
            assert(views(orig.take(k + 1)).last() == orig[k]@);
        }
        let Block { name, extends, items } = x;
        let name = sanitize_name(&name);
        let extends = match &extends {
            Option::Some(e) => Option::Some(sanitize_name(e)),
            Option::None => Option::None,
        };
        let items = san_items_x(items);
        let ne = Block { name, extends, items };
        proof {
            assert(ne@ == san_block(orig[k]@));
        }
        let ghost oldout = out@;
        out.push(ne);
        proof {
            assert(views(out@).len() == out@.len());
            assert(views(oldout).len() == oldout.len());
            assert(san_blocks(views(orig.take(k + 1))) == san_blocks(views(orig.take(k as int))).push(
                san_block(orig[k]@),
            ));
            let target = san_blocks(views(orig.take(k + 1)));
            assert forall|w: int| 0 <= w < target.len() implies views(out@)[w] == target[w] by {
                if w < oldout.len() {
                    assert(out@[w] == oldout[w]);
                    assert(views(out@)[w] == views(oldout)[w]);
                } else {
                    assert(views(out@)[w] == ne@);
                }
            }
            assert(views(out@) =~= target);
        }
    }
    proof {
        assert(orig.take(orig.len() as int) =~= orig);
        assert(orig.take(orig.len() as int) == orig);
    }
    out
}

fn san_variants_x(v: Vec<EnumVariant>) -> (r: Vec<EnumVariant>)
    ensures
        views(r@) == san_variants(views(v@)),
{
    let ghost orig = v@;
    let mut v = v;
    let mut out: Vec<EnumVariant> = Vec::new();
    proof {
        assert(orig.skip(0) =~= orig);
        assert(views(orig.take(0)) =~= Seq::<SpecEnumVariant>::empty());
        assert(views(out@) =~= san_variants(views(orig.take(0))));
    }
    while v.len() > 0
        invariant
            v@.len() <= orig.len(),
            v@ == orig.skip(orig.len() - v@.len()),
            views(out@) == san_variants(views(orig.take(orig.len() - v@.len()))),
        decreases v@.len(),
    {
        let ghost k = orig.len() - v@.len();
        proof {
            assert(0 <= k < orig.len());
            assert(v@[0] == orig.skip(k as int)[0]);
        }
        let x = v.remove(0);
        proof {
            assert(x == orig[k]);
            assert(v@ =~= orig.skip(k + 1));
            assert(views(orig.take(k + 1)).len() == k + 1);
            assert(views(orig.take(k as int)).len() == k);
            assert(views(orig.take(k + 1)).drop_last() =~= views(orig.take(k as int)));
            assert(views(orig.take(k + 1)).drop_last() == views(orig.take(k as int)));
            assert(views(orig.take(k + 1)).last() == orig[k]@);
        }
        let EnumVariant { name, value } = x;
        let name = sanitize_name(&name);
        let ne = EnumVariant { name, value };
        proof {
            assert(ne@ == san_variant(orig[k]@));
        }
        let ghost oldout = out@;
        out.push(ne);
        proof {
            assert(views(out@).len() == out@.len());
            assert(views(oldout).len() == oldout.len());
            assert(san_variants(views(orig.take(k + 1))) == san_variants(views(orig.take(k as int))).push(
                san_variant(orig[k]@),
            ));
            let target = san_variants(views(orig.take(k + 1)));
            assert forall|w: int| 0 <= w < target.len() implies views(out@)[w] == target[w] by {
                if w < oldout.len() {
                    assert(out@[w] == oldout[w]);
                    assert(views(out@)[w] == views(oldout)[w]);
                } else {
                    assert(views(out@)[w] == ne@);
                }
            }
            assert(views(out@) =~= target);
        }
    }
    proof {
        assert(orig.take(orig.len() as int) =~= orig);
        assert(orig.take(orig.len() as int) == orig);
    }
    out
}

fn san_enums_x(v: Vec<Enum>) -> (r: Vec<Enum>)
    ensures
        views(r@) == san_enums(views(v@)),
{
    let ghost orig = v@;
    let mut v = v;
    let mut out: Vec<Enum> = Vec::new();
    proof {
        assert(orig.skip(0) =~= orig);
        assert(views(orig.take(0)) =~= Seq::<SpecEnum>::empty());
        assert(views(out@) =~= san_enums(views(orig.take(0))));
    }
    while v.len() > 0
        invariant
            v@.len() <= orig.len(),
            v@ == orig.skip(orig.len() - v@.len()),
            views(out@) == san_enums(views(orig.take(orig.len() - v@.len()))),
        decreases v@.len(),
    {
        let ghost k = orig.len() - v@.len();
        proof {
            assert(0 <= k < orig.len());
            assert(v@[0] == orig.skip(k as int)[0]);
        }
        let x = v.remove(0);
        proof {
            assert(x == orig[k]);
            assert(v@ =~= orig.skip(k + 1));
            assert(views(orig.take(k + 1)).len() == k + 1);
            assert(views(orig.take(k as int)).len() == k);
            assert(views(orig.take(k + 1)).drop_last() =~= views(orig.take(k as int)));
            assert(views(orig.take(k + 1)).drop_last() == views(orig.take(k as int)));
            assert(views(orig.take(k + 1)).last() == orig[k]@);
        }
        let Enum { name, bit_size, variants } = x;
        let name = sanitize_name(&name);
        let variants = san_variants_x(variants);
        let ne = Enum { name, bit_size, variants };
        proof {
            assert(ne@ == san_enum(orig[k]@));
        }
        let ghost oldout = out@;
        out.push(ne);
        proof {
            assert(views(out@).len() == out@.len());
            assert(views(oldout).len() == oldout.len());
            assert(san_enums(views(orig.take(k + 1))) == san_enums(views(orig.take(k as int))).push(
                san_enum(orig[k]@),
            ));
            let target = san_enums(views(orig.take(k + 1)));
            assert forall|w: int| 0 <= w < target.len() implies views(out@)[w] == target[w] by {
                if w < oldout.len() {
                    assert(out@[w] == oldout[w]);
                    assert(views(out@)[w] == views(oldout)[w]);
                } else {
                    assert(views(out@)[w] == ne@);
                }
            }
            assert(views(out@) =~= target);
        }
    }
    proof {
        assert(orig.take(orig.len() as int) =~= orig);
        assert(orig.take(orig.len() as int) == orig);
    }
    out
}

fn san_peripherals_x(v: Vec<Peripheral>) -> (r: Vec<Peripheral>)
    ensures
        views(r@) == san_peripherals(views(v@)),
{
    let ghost orig = v@;
    let mut v = v;
    let mut out: Vec<Peripheral> = Vec::new();
    proof {
        assert(orig.skip(0) =~= orig);
        assert(views(orig.take(0)) =~= Seq::<SpecPeripheral>::empty());
        assert(views(out@) =~= san_peripherals(views(orig.take(0))));
    }
    while v.len() > 0
        invariant
            v@.len() <= orig.len(),
            v@ == orig.skip(orig.len() - v@.len()),
            views(out@) == san_peripherals(views(orig.take(orig.len() - v@.len()))),
        decreases v@.len(),
    {
        let ghost k = orig.len() - v@.len();
        proof {
            assert(0 <= k < orig.len());
            assert(v@[0] == orig.skip(k as int)[0]);
        }
        let x = v.remove(0);
        proof {
            assert(x == orig[k]);
            assert(v@ =~= orig.skip(k + 1));
            assert(views(orig.take(k + 1)).len() == k + 1);
            assert(views(orig.take(k as int)).len() == k);
            assert(views(orig.take(k + 1)).drop_last() =~= views(orig.take(k as int)));
            assert(views(orig.take(k + 1)).drop_last() == views(orig.take(k as int)));
            assert(views(orig.take(k + 1)).last() == orig[k]@);
        }
        let Peripheral { name, base_address, block } = x;
        let name = sanitize_name(&name);
        let block = sanitize_name(&block);
        let ne = Peripheral { name, base_address, block };
        proof {
            assert(ne@ == san_peripheral(orig[k]@));
        }
        let ghost oldout = out@;
        out.push(ne);
        proof {
            assert(views(out@).len() == out@.len());
            assert(views(oldout).len() == oldout.len());
            assert(san_peripherals(views(orig.take(k + 1))) == san_peripherals(views(orig.take(k as int))).push(
                san_peripheral(orig[k]@),
            ));
            let target = san_peripherals(views(orig.take(k + 1)));
            assert forall|w: int| 0 <= w < target.len() implies views(out@)[w] == target[w] by {
                if w < oldout.len() {
                    assert(out@[w] == oldout[w]);
                    assert(views(out@)[w] == views(oldout)[w]);
                } else {
                    assert(views(out@)[w] == ne@);
                }
            }
            assert(views(out@) =~= target);
        }
    }
    proof {
        assert(orig.take(orig.len() as int) =~= orig);
        assert(orig.take(orig.len() as int) == orig);
    }
    out
}

fn san_devices_x(v: Vec<Device>) -> (r: Vec<Device>)
    ensures
        views(r@) == san_devices(views(v@)),
{
    let ghost orig = v@;
    let mut v = v;
    let mut out: Vec<Device> = Vec::new();
    proof {
        assert(orig.skip(0) =~= orig);
        assert(views(orig.take(0)) =~= Seq::<SpecDevice>::empty());
        assert(views(out@) =~= san_devices(views(orig.take(0))));
    }
    while v.len() > 0
        invariant
            v@.len() <= orig.len(),
            v@ == orig.skip(orig.len() - v@.len()),
            views(out@) == san_devices(views(orig.take(orig.len() - v@.len()))),
        decreases v@.len(),
    {
        let ghost k = orig.len() - v@.len();
        proof {
            assert(0 <= k < orig.len());
            assert(v@[0] == orig.skip(k as int)[0]);
        }
        let x = v.remove(0);
        proof {
            assert(x == orig[k]);
            assert(v@ =~= orig.skip(k + 1));
            assert(views(orig.take(k + 1)).len() == k + 1);
            assert(views(orig.take(k as int)).len() == k);
            assert(views(orig.take(k + 1)).drop_last() =~= views(orig.take(k as int)));
            assert(views(orig.take(k + 1)).drop_last() == views(orig.take(k as int)));
            assert(views(orig.take(k + 1)).last() == orig[k]@);
        }
        let Device { name, peripherals } = x;
        let name = sanitize_name(&name);
        let peripherals = san_peripherals_x(peripherals);
        let ne = Device { name, peripherals };
        proof {
            assert(ne@ == san_device(orig[k]@));
        }
        let ghost oldout = out@;
        out.push(ne);
        proof {
            assert(views(out@).len() == out@.len());
            assert(views(oldout).len() == oldout.len());
            assert(san_devices(views(orig.take(k + 1))) == san_devices(views(orig.take(k as int))).push(
                san_device(orig[k]@),
            ));
            let target = san_devices(views(orig.take(k + 1)));
            assert forall|w: int| 0 <= w < target.len() implies views(out@)[w] == target[w] by {
                if w < oldout.len() {
                    assert(out@[w] == oldout[w]);
                    assert(views(out@)[w] == views(oldout)[w]);
                } else {
                    assert(views(out@)[w] == ne@);
                }
            }
            assert(views(out@) =~= target);
        }
    }
    proof {
        assert(orig.take(orig.len() as int) =~= orig);
        assert(orig.take(orig.len() as int) == orig);
    }
    out
}

/// Whether two entities of the collection share a name.
fn has_dup_names<T: KeyItem>(v: &Vec<T>) -> (r: bool) where T::V: Key
    ensures
        r == !unique_names(views(v@)),
{
    let ghost s = views(v@);
    let mut j: usize = 0;
    while j < v.len()
        invariant
            s == views(v@),
            j <= v@.len(),
            forall|x: int, y: int|
                0 <= x < y < j ==> (#[trigger] s[x]).kname() != (#[trigger] s[y]).kname(),
        decreases v@.len() - j,
    {
        let mut i: usize = 0;
        while i < j
            invariant
                s == views(v@),
                i <= j < v@.len(),
                forall|x: int, y: int|
                    0 <= x < y < j ==> (#[trigger] s[x]).kname() != (#[trigger] s[y]).kname(),
                forall|x: int| 0 <= x < i ==> (#[trigger] s[x]).kname() != s[j as int].kname(),
            decreases j - i,
        {
            if bytes_eq(v[i].xkname(), v[j].xkname()) {
                proof {
                    assert(s[i as int] == v@[i as int]@);
                    assert(s[j as int] == v@[j as int]@);
                    assert(s[i as int].kname() == s[j as int].kname());
                }
                return true;
            }
            proof {
                assert(s[i as int] == v@[i as int]@);
                assert(s[j as int] == v@[j as int]@);
            }
            i = i + 1;
        }
        j = j + 1;
    }
    false
}

/// Sanitizes every identifier and reference in the graph. When two distinct
/// sanitized names collide where the source names did not, the naming
/// conflict is unrecoverable and the graph is refused.
pub fn sanitize_ir(ir: Ir) -> (r: Result<Ir, ()>)
    ensures
        match r {
            Result::Ok(o) => o@ == spec_sanitize_ir(ir@) && spec_names_unique(spec_sanitize_ir(ir@)),
            Result::Err(u) => !spec_names_unique(spec_sanitize_ir(ir@)),
        },
{
    let Ir { devices, blocks, fieldsets, enums } = ir;
    let o = Ir {
        devices: san_devices_x(devices),
        blocks: san_blocks_x(blocks),
        fieldsets: san_fieldsets_x(fieldsets),
        enums: san_enums_x(enums),
    };
    if has_dup_names(&o.devices) || has_dup_names(&o.blocks) || has_dup_names(&o.fieldsets)
        || has_dup_names(&o.enums) {
        return Result::Err(());
    }
    Result::Ok(o)
}

pub open spec fn pas_variant(v: SpecEnumVariant) -> SpecEnumVariant {
    SpecEnumVariant { name: pascal_of(v.name, true), ..v }
}

pub open spec fn pas_variants(s: Seq<SpecEnumVariant>) -> Seq<SpecEnumVariant>
    decreases s.len(),
{
    if s.len() == 0 {
        Seq::<SpecEnumVariant>::empty()
    } else {
        pas_variants(s.drop_last()).push(pas_variant(s.last()))
    }
}

pub open spec fn pas_enum(e: SpecEnum) -> SpecEnum {
    SpecEnum { variants: pas_variants(e.variants), ..e }
}

pub open spec fn pas_enums(s: Seq<SpecEnum>) -> Seq<SpecEnum>
    decreases s.len(),
{
    if s.len() == 0 {
        Seq::<SpecEnum>::empty()
    } else {
        pas_enums(s.drop_last()).push(pas_enum(s.last()))
    }
}

/// The graph with every enum variant name in the capitalized-word
/// convention; nothing else changes.
pub open spec fn spec_pascal_ir(ir: SpecIr) -> SpecIr {
    SpecIr { enums: pas_enums(ir.enums), ..ir }
}

fn pas_variants_x(v: Vec<EnumVariant>) -> (r: Vec<EnumVariant>)
    ensures
        views(r@) == pas_variants(views(v@)),
{
    let ghost orig = v@;
    let mut v = v;
    let mut out: Vec<EnumVariant> = Vec::new();
    proof {
        assert(orig.skip(0) =~= orig);
        assert(views(orig.take(0)) =~= Seq::<SpecEnumVariant>::empty());
        assert(views(out@) =~= pas_variants(views(orig.take(0))));
    }
    while v.len() > 0
        invariant
            v@.len() <= orig.len(),
            v@ == orig.skip(orig.len() - v@.len()),
            views(out@) == pas_variants(views(orig.take(orig.len() - v@.len()))),
        decreases v@.len(),
    {
        let ghost k = orig.len() - v@.len();
        proof {
            assert(0 <= k < orig.len());
            assert(v@[0] == orig.skip(k as int)[0]);
        }
        let x = v.remove(0);
        proof {
            assert(x == orig[k]);
            assert(v@ =~= orig.skip(k + 1));
            assert(views(orig.take(k + 1)).len() == k + 1);
            assert(views(orig.take(k as int)).len() == k);
            assert(views(orig.take(k + 1)).drop_last() =~= views(orig.take(k as int)));
            assert(views(orig.take(k + 1)).drop_last() == views(orig.take(k as int)));
            assert(views(orig.take(k + 1)).last() == orig[k]@);
        }
        let EnumVariant { name, value } = x;
        let name = pascal_name(&name);
        let ne = EnumVariant { name, value };
        proof {
            assert(ne@ == pas_variant(orig[k]@));
        }
        let ghost oldout = out@;
        out.push(ne);
        proof {
            assert(views(out@).len() == out@.len());
            assert(views(oldout).len() == oldout.len());
            assert(pas_variants(views(orig.take(k + 1))) == pas_variants(views(orig.take(k as int))).push(
                pas_variant(orig[k]@),
            ));
            let target = pas_variants(views(orig.take(k + 1)));
            assert forall|w: int| 0 <= w < target.len() implies views(out@)[w] == target[w] by {
                if w < oldout.len() {
                    assert(out@[w] == oldout[w]);
                    assert(views(out@)[w] == views(oldout)[w]);
                } else {
                    assert(views(out@)[w] == ne@);
                }
            }
            assert(views(out@) =~= target);
        }
    }
    proof {
        assert(orig.take(orig.len() as int) =~= orig);
        assert(orig.take(orig.len() as int) == orig);
    }
    out
}

fn pas_enums_x(v: Vec<Enum>) -> (r: Vec<Enum>)
    ensures
        views(r@) == pas_enums(views(v@)),
{
    let ghost orig = v@;
    let mut v = v;
    let mut out: Vec<Enum> = Vec::new();
    proof {
        assert(orig.skip(0) =~= orig);
        assert(views(orig.take(0)) =~= Seq::<SpecEnum>::empty());
        assert(views(out@) =~= pas_enums(views(orig.take(0))));
    }
    while v.len() > 0
        invariant
            v@.len() <= orig.len(),
            v@ == orig.skip(orig.len() - v@.len()),
            views(out@) == pas_enums(views(orig.take(orig.len() - v@.len()))),
        decreases v@.len(),
    {
        let ghost k = orig.len() - v@.len();
        proof {
            assert(0 <= k < orig.len());
            assert(v@[0] == orig.skip(k as int)[0]);
        }
        let x = v.remove(0);
        proof {
            assert(x == orig[k]);
            assert(v@ =~= orig.skip(k + 1));
            assert(views(orig.take(k + 1)).len() == k + 1);
            assert(views(orig.take(k as int)).len() == k);
            assert(views(orig.take(k + 1)).drop_last() =~= views(orig.take(k as int)));
            assert(views(orig.take(k + 1)).drop_last() == views(orig.take(k as int)));
            assert(views(orig.take(k + 1)).last() == orig[k]@);
        }
        let Enum { name, bit_size, variants } = x;
        let variants = pas_variants_x(variants);
        let ne = Enum { name, bit_size, variants };
        proof {
            assert(ne@ == pas_enum(orig[k]@));
        }
        let ghost oldout = out@;
        out.push(ne);
        proof {
            assert(views(out@).len() == out@.len());
            assert(views(oldout).len() == oldout.len());
            assert(pas_enums(views(orig.take(k + 1))) == pas_enums(views(orig.take(k as int))).push(
                pas_enum(orig[k]@),
            ));
            let target = pas_enums(views(orig.take(k + 1)));
            assert forall|w: int| 0 <= w < target.len() implies views(out@)[w] == target[w] by {
                if w < oldout.len() {
                    assert(out@[w] == oldout[w]);
                    assert(views(out@)[w] == views(oldout)[w]);
                } else {
                    assert(views(out@)[w] == ne@);
                }
            }
            assert(views(out@) =~= target);
        }
    }
    proof {
        assert(orig.take(orig.len() as int) =~= orig);
        assert(orig.take(orig.len() as int) == orig);
    }
    out
}

/// Rewrites every enum variant name to the capitalized-word convention.
pub fn pascal_ir(ir: Ir) -> (r: Ir)
    ensures
        r@ == spec_pascal_ir(ir@),
{
    let Ir { devices, blocks, fieldsets, enums } = ir;
    Ir { devices, blocks, fieldsets, enums: pas_enums_x(enums) }
}

pub open spec fn srt_block(b: SpecBlock) -> SpecBlock {
    SpecBlock { items: spec_sort(b.items), ..b }
}

pub open spec fn srt_blocks(s: Seq<SpecBlock>) -> Seq<SpecBlock>
    decreases s.len(),
{
    if s.len() == 0 {
        Seq::<SpecBlock>::empty()
    } else {
        srt_blocks(s.drop_last()).push(srt_block(s.last()))
    }
}

pub open spec fn srt_fieldset(fs: SpecFieldSet) -> SpecFieldSet {
    SpecFieldSet { fields: spec_sort(fs.fields), ..fs }
}

pub open spec fn srt_fieldsets(s: Seq<SpecFieldSet>) -> Seq<SpecFieldSet>
    decreases s.len(),
{
    if s.len() == 0 {
        Seq::<SpecFieldSet>::empty()
    } else {
        srt_fieldsets(s.drop_last()).push(srt_fieldset(s.last()))
    }
}

pub open spec fn srt_enum(e: SpecEnum) -> SpecEnum {
    SpecEnum { variants: spec_sort(e.variants), ..e }
}

pub open spec fn srt_enums(s: Seq<SpecEnum>) -> Seq<SpecEnum>
    decreases s.len(),
{
    if s.len() == 0 {
        Seq::<SpecEnum>::empty()
    } else {
        srt_enums(s.drop_last()).push(srt_enum(s.last()))
    }
}

pub open spec fn srt_device(d: SpecDevice) -> SpecDevice {
    SpecDevice { peripherals: spec_sort(d.peripherals), ..d }
}

pub open spec fn srt_devices(s: Seq<SpecDevice>) -> Seq<SpecDevice>
    decreases s.len(),
{
    if s.len() == 0 {
        Seq::<SpecDevice>::empty()
    } else {
        srt_devices(s.drop_last()).push(srt_device(s.last()))
    }
}

/// Every collection of the graph in the deterministic order: entities by
/// name, members by their offset or value and then by name.
pub open spec fn spec_sort_ir(ir: SpecIr) -> SpecIr {
    SpecIr {
        devices: spec_sort(srt_devices(ir.devices)),
        blocks: spec_sort(srt_blocks(ir.blocks)),
        fieldsets: spec_sort(srt_fieldsets(ir.fieldsets)),
        enums: spec_sort(srt_enums(ir.enums)),
    }
}

fn srt_blocks_x(v: Vec<Block>) -> (r: Vec<Block>)
    ensures
        views(r@) == srt_blocks(views(v@)),
{
    let ghost orig = v@;
    let mut v = v;
    let mut out: Vec<Block> = Vec::new();
    proof {
        assert(orig.skip(0) =~= orig);
        assert(views(orig.take(0)) =~= Seq::<SpecBlock>::empty());
        assert(views(out@) =~= srt_blocks(views(orig.take(0))));
    }
    while v.len() > 0
        invariant
            v@.len() <= orig.len(),
            v@ == orig.skip(orig.len() - v@.len()),
            views(out@) == srt_blocks(views(orig.take(orig.len() - v@.len()))),
        decreases v@.len(),
    {
        let ghost k = orig.len() - v@.len();
        proof {
            assert(0 <= k < orig.len());
            assert(v@[0] == orig.skip(k as int)[0]);
        }
        let x = v.remove(0);
        proof {
            assert(x == orig[k]);
            assert(v@ =~= orig.skip(k + 1));
            assert(views(orig.take(k + 1)).len() == k + 1);
            assert(views(orig.take(k as int)).len() == k);
            assert(views(orig.take(k + 1)).drop_last() =~= views(orig.take(k as int)));
            assert(views(orig.take(k + 1)).drop_last() == views(orig.take(k as int)));
            assert(views(orig.take(k + 1)).last() == orig[k]@);
        }
        let Block { name, extends, items } = x;
        let items = sorted_vec(items);
        let ne = Block { name, extends, items };
        proof {
            assert(ne@ == srt_block(orig[k]@));
        }
        let ghost oldout = out@;
        out.push(ne);
        proof {
            assert(views(out@).len() == out@.len());
            assert(views(oldout).len() == oldout.len());
            assert(srt_blocks(views(orig.take(k + 1))) == srt_blocks(views(orig.take(k as int))).push(
                srt_block(orig[k]@),
            ));
            let target = srt_blocks(views(orig.take(k + 1)));
            assert forall|w: int| 0 <= w < target.len() implies views(out@)[w] == target[w] by {
                if w < oldout.len() {
                    assert(out@[w] == oldout[w]);
                    assert(views(out@)[w] == views(oldout)[w]);
                } else {
                    assert(views(out@)[w] == ne@);
                }
            }
            assert(views(out@) =~= target);
        }
    }
    proof {
        assert(orig.take(orig.len() as int) =~= orig);
        assert(orig.take(orig.len() as int) == orig);
    }
    out
}

fn srt_fieldsets_x(v: Vec<FieldSet>) -> (r: Vec<FieldSet>)
    ensures
        views(r@) == srt_fieldsets(views(v@)),
{
    let ghost orig = v@;
    let mut v = v;
    let mut out: Vec<FieldSet> = Vec::new();
    proof {
        assert(orig.skip(0) =~= orig);
        assert(views(orig.take(0)) =~= Seq::<SpecFieldSet>::empty());
        assert(views(out@) =~= srt_fieldsets(views(orig.take(0))));
    }
    while v.len() > 0
        invariant
            v@.len() <= orig.len(),
            v@ == orig.skip(orig.len() - v@.len()),
            views(out@) == srt_fieldsets(views(orig.take(orig.len() - v@.len()))),
        decreases v@.len(),
    {
        let ghost k = orig.len() - v@.len();
        proof {
            assert(0 <= k < orig.len());
            assert(v@[0] == orig.skip(k as int)[0]);
        }
        let x = v.remove(0);
        proof {
            assert(x == orig[k]);
            assert(v@ =~= orig.skip(k + 1));
            assert(views(orig.take(k + 1)).len() == k + 1);
            assert(views(orig.take(k as int)).len() == k);
            assert(views(orig.take(k + 1)).drop_last() =~= views(orig.take(k as int)));
            assert(views(orig.take(k + 1)).drop_last() == views(orig.take(k as int)));
            assert(views(orig.take(k + 1)).last() == orig[k]@);
        }
        let FieldSet { name, extends, bit_size, fields } = x;
        let fields = sorted_vec(fields);
        let ne = FieldSet { name, extends, bit_size, fields };
        proof {
            assert(ne@ == srt_fieldset(orig[k]@));
        }
        let ghost oldout = out@;
        out.push(ne);
        proof {
            assert(views(out@).len() == out@.len());
            assert(views(oldout).len() == oldout.len());
            assert(srt_fieldsets(views(orig.take(k + 1))) == srt_fieldsets(views(orig.take(k as int))).push(
                srt_fieldset(orig[k]@),
            ));
            let target = srt_fieldsets(views(orig.take(k + 1)));
            assert forall|w: int| 0 <= w < target.len() implies views(out@)[w] == target[w] by {
                if w < oldout.len() {
                    assert(out@[w] == oldout[w]);
                    assert(views(out@)[w] == views(oldout)[w]);
                } else {
                    assert(views(out@)[w] == ne@);
                }
            }
            assert(views(out@) =~= target);
        }
    }
    proof {
        assert(orig.take(orig.len() as int) =~= orig);
        assert(orig.take(orig.len() as int) == orig);
    }
    out
}

fn srt_enums_x(v: Vec<Enum>) -> (r: Vec<Enum>)
    ensures
        views(r@) == srt_enums(views(v@)),
{
    let ghost orig = v@;
    let mut v = v;
    let mut out: Vec<Enum> = Vec::new();
    proof {
        assert(orig.skip(0) =~= orig);
        assert(views(orig.take(0)) =~= Seq::<SpecEnum>::empty());
        assert(views(out@) =~= srt_enums(views(orig.take(0))));
    }
    while v.len() > 0
        invariant
            v@.len() <= orig.len(),
            v@ == orig.skip(orig.len() - v@.len()),
            views(out@) == srt_enums(views(orig.take(orig.len() - v@.len()))),
        decreases v@.len(),
    {
        let ghost k = orig.len() - v@.len();
        proof {
            assert(0 <= k < orig.len());
            assert(v@[0] == orig.skip(k as int)[0]);
        }
        let x = v.remove(0);
        proof {
            assert(x == orig[k]);
            assert(v@ =~= orig.skip(k + 1));
            assert(views(orig.take(k + 1)).len() == k + 1);
            assert(views(orig.take(k as int)).len() == k);
            assert(views(orig.take(k + 1)).drop_last() =~= views(orig.take(k as int)));
            assert(views(orig.take(k + 1)).drop_last() == views(orig.take(k as int)));
            assert(views(orig.take(k + 1)).last() == orig[k]@);
        }
        let Enum { name, bit_size, variants } = x;
        let variants = sorted_vec(variants);
        let ne = Enum { name, bit_size, variants };
        proof {
            assert(ne@ == srt_enum(orig[k]@));
        }
        let ghost oldout = out@;
        out.push(ne);
        proof {
            assert(views(out@).len() == out@.len());
            assert(views(oldout).len() == oldout.len());
            assert(srt_enums(views(orig.take(k + 1))) == srt_enums(views(orig.take(k as int))).push(
                srt_enum(orig[k]@),
            ));
            let target = srt_enums(views(orig.take(k + 1)));
            assert forall|w: int| 0 <= w < target.len() implies views(out@)[w] == target[w] by {
                if w < oldout.len() {
                    assert(out@[w] == oldout[w]);
                    assert(views(out@)[w] == views(oldout)[w]);
                } else {
                    assert(views(out@)[w] == ne@);
                }
            }
            assert(views(out@) =~= target);
        }
    }
    proof {
        assert(orig.take(orig.len() as int) =~= orig);
        assert(orig.take(orig.len() as int) == orig);
    }
    out
}

fn srt_devices_x(v: Vec<Device>) -> (r: Vec<Device>)
    ensures
        views(r@) == srt_devices(views(v@)),
{
    let ghost orig = v@;
    let mut v = v;
    let mut out: Vec<Device> = Vec::new();
    proof {
        assert(orig.skip(0) =~= orig);
        assert(views(orig.take(0)) =~= Seq::<SpecDevice>::empty());
        assert(views(out@) =~= srt_devices(views(orig.take(0))));
    }
    while v.len() > 0
        invariant
            v@.len() <= orig.len(),
            v@ == orig.skip(orig.len() - v@.len()),
            views(out@) == srt_devices(views(orig.take(orig.len() - v@.len()))),
        decreases v@.len(),
    {
        let ghost k = orig.len() - v@.len();
        proof {
            assert(0 <= k < orig.len());
            assert(v@[0] == orig.skip(k as int)[0]);
        }
        let x = v.remove(0);
        proof {
            assert(x == orig[k]);
            assert(v@ =~= orig.skip(k + 1));
            assert(views(orig.take(k + 1)).len() == k + 1);
            assert(views(orig.take(k as int)).len() == k);
            assert(views(orig.take(k + 1)).drop_last() =~= views(orig.take(k as int)));
            assert(views(orig.take(k + 1)).drop_last() == views(orig.take(k as int)));
            assert(views(orig.take(k + 1)).last() == orig[k]@);
        }
        let Device { name, peripherals } = x;
        let peripherals = sorted_vec(peripherals);
        let ne = Device { name, peripherals };
        proof {
            assert(ne@ == srt_device(orig[k]@));
        }
        let ghost oldout = out@;
        out.push(ne);
        proof {
            assert(views(out@).len() == out@.len());
            assert(views(oldout).len() == oldout.len());
            assert(srt_devices(views(orig.take(k + 1))) == srt_devices(views(orig.take(k as int))).push(
                srt_device(orig[k]@),
            ));
            let target = srt_devices(views(orig.take(k + 1)));
            assert forall|w: int| 0 <= w < target.len() implies views(out@)[w] == target[w] by {
                if w < oldout.len() {
                    assert(out@[w] == oldout[w]);
                    assert(views(out@)[w] == views(oldout)[w]);
                } else {
                    assert(views(out@)[w] == ne@);
                }
            }
            assert(views(out@) =~= target);
        }
    }
    proof {
        assert(orig.take(orig.len() as int) =~= orig);
        assert(orig.take(orig.len() as int) == orig);
    }
    out
}

/// Imposes the deterministic order on the whole graph.
pub fn sort_ir(ir: Ir) -> (r: Ir)
    ensures
        r@ == spec_sort_ir(ir@),
{
    let Ir { devices, blocks, fieldsets, enums } = ir;
    Ir {
        devices: sorted_vec(srt_devices_x(devices)),
        blocks: sorted_vec(srt_blocks_x(blocks)),
        fieldsets: sorted_vec(srt_fieldsets_x(fieldsets)),
        enums: sorted_vec(srt_enums_x(enums)),
    }
}

} // verus!
