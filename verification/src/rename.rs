//! Namespace renaming: fieldset names move under the `regs::` namespace and
//! enum names under the `vals::` namespace, block and device names stay as
//! they are, and every reference to a renamed entity is rewritten the same
//! way. Enum variant names are later rewritten to a capitalized-word
//! convention (each underscore-delimited segment capitalized, separators
//! dropped).
use crate::bytes::{clone_bytes, push_bytes};
use crate::ir::views;
use crate::ir::{
    Block, BlockItem, BlockItemInner, Enum, Field, FieldSet, Ir, SpecBlock, SpecBlockItem,
    SpecBlockItemInner, SpecEnum, SpecField, SpecFieldSet, SpecIr,
};
use vstd::prelude::*;

verus! {

/// The namespace segment put before every fieldset name.
pub open spec fn regs_prefix() -> Seq<u8> {
    seq![114u8, 101u8, 103u8, 115u8, 58u8, 58u8]
}

/// The namespace segment put before every enum name.
pub open spec fn vals_prefix() -> Seq<u8> {
    seq![118u8, 97u8, 108u8, 115u8, 58u8, 58u8]
}

fn make_regs_prefix() -> (r: Vec<u8>)
    ensures
        r@ == regs_prefix(),
{
    let mut r: Vec<u8> = Vec::new();
    r.push(114u8);
    r.push(101u8);
    r.push(103u8);
    r.push(115u8);
    r.push(58u8);
    r.push(58u8);
    proof {
        assert(r@ =~= regs_prefix());
    }
    r
}

fn make_vals_prefix() -> (r: Vec<u8>)
    ensures
        r@ == vals_prefix(),
{
    let mut r: Vec<u8> = Vec::new();
    r.push(118u8);
    r.push(97u8);
    r.push(108u8);
    r.push(115u8);
    r.push(58u8);
    r.push(58u8);
    proof {
        assert(r@ =~= vals_prefix());
    }
    r
}

/// `p` put before `n`.
fn prefix_name(p: &Vec<u8>, n: Vec<u8>) -> (r: Vec<u8>)
    ensures
        r@ == p@ + n@,
{
    let mut r = clone_bytes(p);
    push_bytes(&mut r, &n);
    r
}

pub open spec fn spec_rename_field(f: SpecField) -> SpecField {
    SpecField {
        enumm: match f.enumm {
            Option::Some(e) => Option::Some(vals_prefix() + e),
            Option::None => Option::None,
        },
        ..f
    }
}

pub open spec fn spec_rename_fieldset(fs: SpecFieldSet) -> SpecFieldSet {
    SpecFieldSet {
        name: regs_prefix() + fs.name,
        extends: match fs.extends {
            Option::Some(e) => Option::Some(regs_prefix() + e),
            Option::None => Option::None,
        },
        fields: fs.fields.map_values(|f: SpecField| spec_rename_field(f)),
        ..fs
    }
}

pub open spec fn spec_rename_enum(e: SpecEnum) -> SpecEnum {
    SpecEnum { name: vals_prefix() + e.name, ..e }
}

pub open spec fn spec_rename_item(it: SpecBlockItem) -> SpecBlockItem {
    SpecBlockItem {
        inner: match it.inner {
            SpecBlockItemInner::Register { bit_size, fieldset } => SpecBlockItemInner::Register {
                bit_size,
                fieldset: match fieldset {
                    Option::Some(f) => Option::Some(regs_prefix() + f),
                    Option::None => Option::None,
                },
            },
            SpecBlockItemInner::Block { block } => SpecBlockItemInner::Block { block },
        },
        ..it
    }
}

pub open spec fn spec_rename_block(b: SpecBlock) -> SpecBlock {
    SpecBlock { items: b.items.map_values(|it: SpecBlockItem| spec_rename_item(it)), ..b }
}

/// The whole-graph renaming: block and device names are kept, fieldsets gain
/// `regs::`, enums gain `vals::`, and references follow suit.
pub open spec fn spec_rename(ir: SpecIr) -> SpecIr {
    SpecIr {
        devices: ir.devices,
        blocks: ir.blocks.map_values(|b: SpecBlock| spec_rename_block(b)),
        fieldsets: ir.fieldsets.map_values(|fs: SpecFieldSet| spec_rename_fieldset(fs)),
        enums: ir.enums.map_values(|e: SpecEnum| spec_rename_enum(e)),
    }
}

fn rename_fields(v: Vec<Field>) -> (r: Vec<Field>)
    ensures
        views(r@) == views(v@).map_values(|f: SpecField| spec_rename_field(f)),
{
    let ghost orig = v@;
    let mut v = v;
    let mut out: Vec<Field> = Vec::new();
    let vals = make_vals_prefix();
    proof {
        assert(orig.skip(0) =~= orig);
        assert(views(out@) =~= views(orig.take(0)).map_values(|f: SpecField| spec_rename_field(f)));
    }
    while v.len() > 0
        invariant
            vals@ == vals_prefix(),
            v@.len() <= orig.len(),
            v@ == orig.skip(orig.len() - v@.len()),
            views(out@) == views(orig.take(orig.len() - v@.len())).map_values(
                |f: SpecField| spec_rename_field(f),
            ),
        decreases v@.len(),
    {
        let ghost k = orig.len() - v@.len();
        proof {
            assert(views(out@).len() == out@.len());
            assert(views(orig.take(k)).map_values(|f: SpecField| spec_rename_field(f)).len() == k);
            assert(out@.len() == k);
        }
        let x = v.remove(0);
        proof {
            assert(x == orig[k]);
            assert(v@ =~= orig.skip(k + 1));
        }
        let Field { name, bit_offset, bit_size, enumm } = x;
        let enumm = match enumm {
            Option::Some(e) => Option::Some(prefix_name(&vals, e)),
            Option::None => Option::None,
        };
        let nf = Field { name, bit_offset, bit_size, enumm };
        proof {
            assert(nf@ == spec_rename_field(orig[k]@));
        }
        out.push(nf);
        proof {
            let target = views(orig.take(k + 1)).map_values(|f: SpecField| spec_rename_field(f));
            assert(0 <= k && k + 1 <= orig.len());
            assert(out@.len() == k + 1);
            assert(views(out@).len() == k + 1);
            assert(target.len() == k + 1);
            assert forall|i: int| 0 <= i < k + 1 implies views(out@)[i] == target[i] by {
                if i < k {
                    assert(views(out@)[i] == out@[i]@);
                    assert(out@[i] == out@.drop_last()[i]);
                    assert(views(out@.drop_last())[i] == views(orig.take(k)).map_values(
                        |f: SpecField| spec_rename_field(f),
                    )[i]);
                    assert(orig.take(k)[i] == orig.take(k + 1)[i]);
                } else {
                    assert(out@[i] == nf);
                    assert(orig.take(k + 1)[i] == orig[k]);
                }
            }
            assert(views(out@) =~~= target);
        }
    }
    proof {
        assert(orig.take(orig.len() as int) =~= orig);
    }
    out
}

fn rename_fieldsets(v: Vec<FieldSet>) -> (r: Vec<FieldSet>)
    ensures
        views(r@) == views(v@).map_values(|fs: SpecFieldSet| spec_rename_fieldset(fs)),
{
    let ghost orig = v@;
    let mut v = v;
    let mut out: Vec<FieldSet> = Vec::new();
    let regs = make_regs_prefix();
    proof {
        assert(orig.skip(0) =~= orig);
        assert(views(out@) =~= views(orig.take(0)).map_values(
            |fs: SpecFieldSet| spec_rename_fieldset(fs),
        ));
    }
    while v.len() > 0
        invariant
            regs@ == regs_prefix(),
            v@.len() <= orig.len(),
            v@ == orig.skip(orig.len() - v@.len()),
            views(out@) == views(orig.take(orig.len() - v@.len())).map_values(
                |fs: SpecFieldSet| spec_rename_fieldset(fs),
            ),
        decreases v@.len(),
    {
        let ghost k = orig.len() - v@.len();
        proof {
            assert(views(out@).len() == out@.len());
            assert(views(orig.take(k)).map_values(
                |fs: SpecFieldSet| spec_rename_fieldset(fs),
            ).len() == k);
            assert(out@.len() == k);
        }
        let x = v.remove(0);
        proof {
            assert(x == orig[k]);
            assert(v@ =~= orig.skip(k + 1));
        }
        let FieldSet { name, extends, bit_size, fields } = x;
        let name = prefix_name(&regs, name);
        let extends = match extends {
            Option::Some(e) => Option::Some(prefix_name(&regs, e)),
            Option::None => Option::None,
        };
        let fields = rename_fields(fields);
        let ne = FieldSet { name, extends, bit_size, fields };
        proof {
            assert(ne@ == spec_rename_fieldset(orig[k]@));
        }
        out.push(ne);
        proof {
            let target = views(orig.take(k + 1)).map_values(
                |fs: SpecFieldSet| spec_rename_fieldset(fs),
            );
            assert(target.len() == k + 1);
            assert forall|i: int| 0 <= i < k + 1 implies views(out@)[i] == target[i] by {
                if i < k {
                    assert(views(out@)[i] == out@[i]@);
                    assert(out@[i] == out@.drop_last()[i]);
                    assert(views(out@.drop_last())[i] == views(orig.take(k)).map_values(
                        |fs: SpecFieldSet| spec_rename_fieldset(fs),
                    )[i]);
                    assert(orig.take(k)[i] == orig.take(k + 1)[i]);
                } else {
                    assert(out@[i] == ne);
                    assert(orig.take(k + 1)[i] == orig[k]);
                }
            }
            assert(views(out@) =~~= target);
        }
    }
    proof {
        assert(orig.take(orig.len() as int) =~= orig);
    }
    out
}

fn rename_enums(v: Vec<Enum>) -> (r: Vec<Enum>)
    ensures
        views(r@) == views(v@).map_values(|e: SpecEnum| spec_rename_enum(e)),
{
    let ghost orig = v@;
    let mut v = v;
    let mut out: Vec<Enum> = Vec::new();
    let vals = make_vals_prefix();
    proof {
        assert(orig.skip(0) =~= orig);
        assert(views(out@) =~= views(orig.take(0)).map_values(|e: SpecEnum| spec_rename_enum(e)));
    }
    while v.len() > 0
        invariant
            vals@ == vals_prefix(),
            v@.len() <= orig.len(),
            v@ == orig.skip(orig.len() - v@.len()),
            views(out@) == views(orig.take(orig.len() - v@.len())).map_values(
                |e: SpecEnum| spec_rename_enum(e),
            ),
        decreases v@.len(),
    {
        let ghost k = orig.len() - v@.len();
        proof {
            assert(views(out@).len() == out@.len());
            assert(views(orig.take(k)).map_values(|e: SpecEnum| spec_rename_enum(e)).len() == k);
            assert(out@.len() == k);
        }
        let x = v.remove(0);
        proof {
            assert(x == orig[k]);
            assert(v@ =~= orig.skip(k + 1));
        }
        let Enum { name, bit_size, variants } = x;
        let name = prefix_name(&vals, name);
        let ne = Enum { name, bit_size, variants };
        proof {
            assert(ne@ == spec_rename_enum(orig[k]@));
        }
        out.push(ne);
        proof {
            let target = views(orig.take(k + 1)).map_values(|e: SpecEnum| spec_rename_enum(e));
            assert(target.len() == k + 1);
            assert forall|i: int| 0 <= i < k + 1 implies views(out@)[i] == target[i] by {
                if i < k {
                    assert(views(out@)[i] == out@[i]@);
                    assert(out@[i] == out@.drop_last()[i]);
                    assert(views(out@.drop_last())[i] == views(orig.take(k)).map_values(
                        |e: SpecEnum| spec_rename_enum(e),
                    )[i]);
                    assert(orig.take(k)[i] == orig.take(k + 1)[i]);
                } else {
                    assert(out@[i] == ne);
                    assert(orig.take(k + 1)[i] == orig[k]);
                }
            }
            assert(views(out@) =~~= target);
        }
    }
    proof {
        assert(orig.take(orig.len() as int) =~= orig);
    }
    out
}

fn rename_items(v: Vec<BlockItem>) -> (r: Vec<BlockItem>)
    ensures
        views(r@) == views(v@).map_values(|it: SpecBlockItem| spec_rename_item(it)),
{
    let ghost orig = v@;
    let mut v = v;
    let mut out: Vec<BlockItem> = Vec::new();
    let regs = make_regs_prefix();
    proof {
        assert(orig.skip(0) =~= orig);
        assert(views(out@) =~= views(orig.take(0)).map_values(
            |it: SpecBlockItem| spec_rename_item(it),
        ));
    }
    while v.len() > 0
        invariant
            regs@ == regs_prefix(),
            v@.len() <= orig.len(),
            v@ == orig.skip(orig.len() - v@.len()),
            views(out@) == views(orig.take(orig.len() - v@.len())).map_values(
                |it: SpecBlockItem| spec_rename_item(it),
            ),
        decreases v@.len(),
    {
        let ghost k = orig.len() - v@.len();
        proof {
            assert(views(out@).len() == out@.len());
            assert(views(orig.take(k)).map_values(
                |it: SpecBlockItem| spec_rename_item(it),
            ).len() == k);
            assert(out@.len() == k);
        }
        let x = v.remove(0);
        proof {
            assert(x == orig[k]);
            assert(v@ =~= orig.skip(k + 1));
        }
        let BlockItem { name, byte_offset, inner } = x;
        let inner = match inner {
            BlockItemInner::Register { bit_size, fieldset } => {
                let fieldset = match fieldset {
                    Option::Some(f) => Option::Some(prefix_name(&regs, f)),
                    Option::None => Option::None,
                };
                BlockItemInner::Register { bit_size, fieldset }
            },
            BlockItemInner::Block { block } => BlockItemInner::Block { block },
        };
        let ne = BlockItem { name, byte_offset, inner };
        proof {
            assert(ne@ == spec_rename_item(orig[k]@));
        }
        out.push(ne);
        proof {
            let target = views(orig.take(k + 1)).map_values(
                |it: SpecBlockItem| spec_rename_item(it),
            );
            assert(target.len() == k + 1);
            assert forall|i: int| 0 <= i < k + 1 implies views(out@)[i] == target[i] by {
                if i < k {
                    assert(views(out@)[i] == out@[i]@);
                    assert(out@[i] == out@.drop_last()[i]);
                    assert(views(out@.drop_last())[i] == views(orig.take(k)).map_values(
                        |it: SpecBlockItem| spec_rename_item(it),
                    )[i]);
                    assert(orig.take(k)[i] == orig.take(k + 1)[i]);
                } else {
                    assert(out@[i] == ne);
                    assert(orig.take(k + 1)[i] == orig[k]);
                }
            }
            assert(views(out@) =~~= target);
        }
    }
    proof {
        assert(orig.take(orig.len() as int) =~= orig);
    }
    out
}

fn rename_blocks(v: Vec<Block>) -> (r: Vec<Block>)
    ensures
        views(r@) == views(v@).map_values(|b: SpecBlock| spec_rename_block(b)),
{
    let ghost orig = v@;
    let mut v = v;
    let mut out: Vec<Block> = Vec::new();
    proof {
        assert(orig.skip(0) =~= orig);
        assert(views(out@) =~= views(orig.take(0)).map_values(|b: SpecBlock| spec_rename_block(b)));
    }
    while v.len() > 0
        invariant
            v@.len() <= orig.len(),
            v@ == orig.skip(orig.len() - v@.len()),
            views(out@) == views(orig.take(orig.len() - v@.len())).map_values(
                |b: SpecBlock| spec_rename_block(b),
            ),
        decreases v@.len(),
    {
        let ghost k = orig.len() - v@.len();
        proof {
            assert(views(out@).len() == out@.len());
            assert(views(orig.take(k)).map_values(|b: SpecBlock| spec_rename_block(b)).len() == k);
            assert(out@.len() == k);
        }
        let x = v.remove(0);
        proof {
            assert(x == orig[k]);
            assert(v@ =~= orig.skip(k + 1));
        }
        let Block { name, extends, items } = x;
        let items = rename_items(items);
        let ne = Block { name, extends, items };
        proof {
            assert(ne@ == spec_rename_block(orig[k]@));
        }
        out.push(ne);
        proof {
            let target = views(orig.take(k + 1)).map_values(|b: SpecBlock| spec_rename_block(b));
            assert(target.len() == k + 1);
            assert forall|i: int| 0 <= i < k + 1 implies views(out@)[i] == target[i] by {
                if i < k {
                    assert(views(out@)[i] == out@[i]@);
                    assert(out@[i] == out@.drop_last()[i]);
                    assert(views(out@.drop_last())[i] == views(orig.take(k)).map_values(
                        |b: SpecBlock| spec_rename_block(b),
                    )[i]);
                    assert(orig.take(k)[i] == orig.take(k + 1)[i]);
                } else {
                    assert(out@[i] == ne);
                    assert(orig.take(k + 1)[i] == orig[k]);
                }
            }
            assert(views(out@) =~~= target);
        }
    }
    proof {
        assert(orig.take(orig.len() as int) =~= orig);
    }
    out
}

/// Applies the default namespace policy to the whole graph.
pub fn rename_ir(ir: Ir) -> (r: Ir)
    ensures
        r@ == spec_rename(ir@),
{
    let Ir { devices, blocks, fieldsets, enums } = ir;
    Ir {
        devices,
        blocks: rename_blocks(blocks),
        fieldsets: rename_fieldsets(fieldsets),
        enums: rename_enums(enums),
    }
}

} // verus!
