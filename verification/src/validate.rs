//! Structural validation under a policy. The validator walks the merged
//! graph and produces an ordered list of human-readable violation messages;
//! it changes nothing. The pipeline refuses the graph when the list is not
//! empty. Each message is a fixed phrase followed by the entity's name.
use crate::bytes::push_bytes;
use crate::ir::views;
use crate::ir::{
    Block, BlockItem, BlockItemInner, Device, Enum, EnumVariant, Field, FieldSet, Ir, SpecBlock,
    SpecBlockItem, SpecBlockItemInner, SpecDevice, SpecEnum, SpecEnumVariant, SpecField, SpecFieldSet, SpecIr,
};
use crate::merge::{find_by_name, find_name};
use vstd::prelude::*;

verus! {

/// The validation policy: what the caller permits in the graph.
#[derive(Clone, Copy)]
pub struct ValidateOptions {
    pub allow_register_overlap: bool,
    pub allow_field_overlap: bool,
    pub allow_enum_dup_value: bool,
    pub allow_unused_enums: bool,
    pub allow_unused_fieldsets: bool,
}

pub open spec fn reg_overlap_prefix() -> Seq<u8> {
    seq![111u8, 118u8, 101u8, 114u8, 108u8, 97u8, 112u8, 112u8, 105u8, 110u8, 103u8, 32u8, 114u8, 101u8, 103u8, 105u8, 115u8, 116u8, 101u8, 114u8, 115u8, 32u8, 105u8, 110u8, 32u8, 98u8, 108u8, 111u8, 99u8, 107u8, 32u8]
}

pub open spec fn field_overlap_prefix() -> Seq<u8> {
    seq![111u8, 118u8, 101u8, 114u8, 108u8, 97u8, 112u8, 112u8, 105u8, 110u8, 103u8, 32u8, 102u8, 105u8, 101u8, 108u8, 100u8, 115u8, 32u8, 105u8, 110u8, 32u8, 102u8, 105u8, 101u8, 108u8, 100u8, 115u8, 101u8, 116u8, 32u8]
}

pub open spec fn enum_dup_prefix() -> Seq<u8> {
    seq![100u8, 117u8, 112u8, 108u8, 105u8, 99u8, 97u8, 116u8, 101u8, 32u8, 118u8, 97u8, 108u8, 117u8, 101u8, 32u8, 105u8, 110u8, 32u8, 101u8, 110u8, 117u8, 109u8, 32u8]
}

pub open spec fn block_ref_prefix() -> Seq<u8> {
    seq![117u8, 110u8, 114u8, 101u8, 115u8, 111u8, 108u8, 118u8, 101u8, 100u8, 32u8, 114u8, 101u8, 102u8, 101u8, 114u8, 101u8, 110u8, 99u8, 101u8, 32u8, 105u8, 110u8, 32u8, 98u8, 108u8, 111u8, 99u8, 107u8, 32u8]
}

pub open spec fn fieldset_ref_prefix() -> Seq<u8> {
    seq![117u8, 110u8, 114u8, 101u8, 115u8, 111u8, 108u8, 118u8, 101u8, 100u8, 32u8, 114u8, 101u8, 102u8, 101u8, 114u8, 101u8, 110u8, 99u8, 101u8, 32u8, 105u8, 110u8, 32u8, 102u8, 105u8, 101u8, 108u8, 100u8, 115u8, 101u8, 116u8, 32u8]
}

pub open spec fn device_ref_prefix() -> Seq<u8> {
    seq![117u8, 110u8, 114u8, 101u8, 115u8, 111u8, 108u8, 118u8, 101u8, 100u8, 32u8, 114u8, 101u8, 102u8, 101u8, 114u8, 101u8, 110u8, 99u8, 101u8, 32u8, 105u8, 110u8, 32u8, 100u8, 101u8, 118u8, 105u8, 99u8, 101u8, 32u8]
}

pub open spec fn unused_enum_prefix() -> Seq<u8> {
    seq![117u8, 110u8, 117u8, 115u8, 101u8, 100u8, 32u8, 101u8, 110u8, 117u8, 109u8, 32u8]
}

pub open spec fn unused_fieldset_prefix() -> Seq<u8> {
    seq![117u8, 110u8, 117u8, 115u8, 101u8, 100u8, 32u8, 102u8, 105u8, 101u8, 108u8, 100u8, 115u8, 101u8, 116u8, 32u8]
}


/// The message for one violating entity.
pub open spec fn msg_of(prefix: Seq<u8>, name: Seq<u8>) -> Seq<u8> {
    prefix + name
}

/// Two bit ranges intersect.
pub open spec fn bits_overlap(ao: int, asz: int, bo: int, bsz: int) -> bool {
    ao < bo + bsz && bo < ao + asz
}

/// The byte span a register item covers; a sub-block reference has no known
/// span here and takes part in no overlap check.
pub open spec fn spec_item_overlap(a: SpecBlockItem, b: SpecBlockItem) -> bool {
    match (a.inner, b.inner) {
        (
            SpecBlockItemInner::Register { bit_size: asz, fieldset: _ },
            SpecBlockItemInner::Register { bit_size: bsz, fieldset: _ },
        ) => bits_overlap(a.byte_offset * 8, asz as int, b.byte_offset * 8, bsz as int),
        _ => false,
    }
}

pub open spec fn spec_block_overlap(b: SpecBlock) -> bool {
    exists|i: int, j: int|
        0 <= i < j < b.items.len() && spec_item_overlap(#[trigger] b.items[i], #[trigger] b.items[j])
}

pub open spec fn spec_field_pair_overlap(a: SpecField, b: SpecField) -> bool {
    bits_overlap(a.bit_offset as int, a.bit_size as int, b.bit_offset as int, b.bit_size as int)
}

pub open spec fn spec_fieldset_overlap(fs: SpecFieldSet) -> bool {
    exists|i: int, j: int|
        0 <= i < j < fs.fields.len() && spec_field_pair_overlap(
            #[trigger] fs.fields[i],
            #[trigger] fs.fields[j],
        )
}

pub open spec fn spec_enum_dup(e: SpecEnum) -> bool {
    exists|i: int, j: int|
        0 <= i < j < e.variants.len() && (#[trigger] e.variants[i]).value == (
        #[trigger] e.variants[j]).value
}

/// An item reference that no entity of the expected kind carries.
pub open spec fn spec_item_dangles(ir: SpecIr, it: SpecBlockItem) -> bool {
    match it.inner {
        SpecBlockItemInner::Register { bit_size: _, fieldset } => match fieldset {
            Option::Some(f) => find_name(ir.fieldsets, f) == -1,
            Option::None => false,
        },
        SpecBlockItemInner::Block { block } => find_name(ir.blocks, block) == -1,
    }
}

pub open spec fn spec_block_dangles(ir: SpecIr, b: SpecBlock) -> bool {
    exists|i: int| 0 <= i < b.items.len() && spec_item_dangles(ir, #[trigger] b.items[i])
}

pub open spec fn spec_field_dangles(ir: SpecIr, f: SpecField) -> bool {
    match f.enumm {
        Option::Some(e) => find_name(ir.enums, e) == -1,
        Option::None => false,
    }
}

pub open spec fn spec_fieldset_dangles(ir: SpecIr, fs: SpecFieldSet) -> bool {
    exists|i: int| 0 <= i < fs.fields.len() && spec_field_dangles(ir, #[trigger] fs.fields[i])
}

pub open spec fn spec_device_dangles(ir: SpecIr, d: SpecDevice) -> bool {
    exists|i: int| 0 <= i < d.peripherals.len() && find_name(ir.blocks, (#[trigger] d.peripherals[i]).block) == -1
}

/// Some field of some fieldset names this enum.
pub open spec fn spec_enum_used(ir: SpecIr, name: Seq<u8>) -> bool {
    exists|i: int, j: int|
        0 <= i < ir.fieldsets.len() && 0 <= j < (#[trigger] ir.fieldsets[i]).fields.len() && (
        #[trigger] ir.fieldsets[i].fields[j]).enumm == Option::Some(name)
}

/// Some register of some block is laid out by this fieldset.
pub open spec fn spec_fieldset_used(ir: SpecIr, name: Seq<u8>) -> bool {
    exists|i: int, j: int|
        0 <= i < ir.blocks.len() && 0 <= j < (#[trigger] ir.blocks[i]).items.len() && match (
        #[trigger] ir.blocks[i].items[j]).inner {
            SpecBlockItemInner::Register { bit_size: _, fieldset } => fieldset == Option::Some(
                name,
            ),
            SpecBlockItemInner::Block { block: _ } => false,
        }
}

/// The message list one check contributes, one entry for each violating
/// entity, in graph order.
pub open spec fn reg_overlap_msgs(s: Seq<SpecBlock>) -> Seq<Seq<u8>>
    decreases s.len(),
{
    if s.len() == 0 {
        Seq::<Seq<u8>>::empty()
    } else {
        let rest = reg_overlap_msgs(s.drop_last());
        if spec_block_overlap(s.last()) {
            rest.push(msg_of(reg_overlap_prefix(), s.last().name))
        } else {
            rest
        }
    }
}

pub open spec fn field_overlap_msgs(s: Seq<SpecFieldSet>) -> Seq<Seq<u8>>
    decreases s.len(),
{
    if s.len() == 0 {
        Seq::<Seq<u8>>::empty()
    } else {
        let rest = field_overlap_msgs(s.drop_last());
        if spec_fieldset_overlap(s.last()) {
            rest.push(msg_of(field_overlap_prefix(), s.last().name))
        } else {
            rest
        }
    }
}

pub open spec fn enum_dup_msgs(s: Seq<SpecEnum>) -> Seq<Seq<u8>>
    decreases s.len(),
{
    if s.len() == 0 {
        Seq::<Seq<u8>>::empty()
    } else {
        let rest = enum_dup_msgs(s.drop_last());
        if spec_enum_dup(s.last()) {
            rest.push(msg_of(enum_dup_prefix(), s.last().name))
        } else {
            rest
        }
    }
}

pub open spec fn block_ref_msgs(ir: SpecIr, s: Seq<SpecBlock>) -> Seq<Seq<u8>>
    decreases s.len(),
{
    if s.len() == 0 {
        Seq::<Seq<u8>>::empty()
    } else {
        let rest = block_ref_msgs(ir, s.drop_last());
        if spec_block_dangles(ir, s.last()) {
            rest.push(msg_of(block_ref_prefix(), s.last().name))
        } else {
            rest
        }
    }
}

pub open spec fn fieldset_ref_msgs(ir: SpecIr, s: Seq<SpecFieldSet>) -> Seq<Seq<u8>>
    decreases s.len(),
{
    if s.len() == 0 {
        Seq::<Seq<u8>>::empty()
    } else {
        let rest = fieldset_ref_msgs(ir, s.drop_last());
        if spec_fieldset_dangles(ir, s.last()) {
            rest.push(msg_of(fieldset_ref_prefix(), s.last().name))
        } else {
            rest
        }
    }
}

pub open spec fn device_ref_msgs(ir: SpecIr, s: Seq<SpecDevice>) -> Seq<Seq<u8>>
    decreases s.len(),
{
    if s.len() == 0 {
        Seq::<Seq<u8>>::empty()
    } else {
        let rest = device_ref_msgs(ir, s.drop_last());
        if spec_device_dangles(ir, s.last()) {
            rest.push(msg_of(device_ref_prefix(), s.last().name))
        } else {
            rest
        }
    }
}

pub open spec fn unused_enum_msgs(ir: SpecIr, s: Seq<SpecEnum>) -> Seq<Seq<u8>>
    decreases s.len(),
{
    if s.len() == 0 {
        Seq::<Seq<u8>>::empty()
    } else {
        let rest = unused_enum_msgs(ir, s.drop_last());
        if !spec_enum_used(ir, s.last().name) {
            rest.push(msg_of(unused_enum_prefix(), s.last().name))
        } else {
            rest
        }
    }
}

pub open spec fn unused_fieldset_msgs(ir: SpecIr, s: Seq<SpecFieldSet>) -> Seq<Seq<u8>>
    decreases s.len(),
{
    if s.len() == 0 {
        Seq::<Seq<u8>>::empty()
    } else {
        let rest = unused_fieldset_msgs(ir, s.drop_last());
        if !spec_fieldset_used(ir, s.last().name) {
            rest.push(msg_of(unused_fieldset_prefix(), s.last().name))
        } else {
            rest
        }
    }
}

/// The ordered list of violation messages the validator produces: the
/// policy-gated checks first, then the reference checks, then the unused
/// entities.
pub open spec fn spec_validate(ir: SpecIr, o: ValidateOptions) -> Seq<Seq<u8>> {
    (if !o.allow_register_overlap {
        reg_overlap_msgs(ir.blocks)
    } else {
        Seq::<Seq<u8>>::empty()
    }) + (if !o.allow_field_overlap {
        field_overlap_msgs(ir.fieldsets)
    } else {
        Seq::<Seq<u8>>::empty()
    }) + (if !o.allow_enum_dup_value {
        enum_dup_msgs(ir.enums)
    } else {
        Seq::<Seq<u8>>::empty()
    }) + block_ref_msgs(ir, ir.blocks) + fieldset_ref_msgs(ir, ir.fieldsets) + device_ref_msgs(
        ir,
        ir.devices,
    ) + (if !o.allow_unused_enums {
        unused_enum_msgs(ir, ir.enums)
    } else {
        Seq::<Seq<u8>>::empty()
    }) + (if !o.allow_unused_fieldsets {
        unused_fieldset_msgs(ir, ir.fieldsets)
    } else {
        Seq::<Seq<u8>>::empty()
    })
}

/// A graph the policy accepts: the validator has nothing to report.
pub open spec fn spec_valid(ir: SpecIr, o: ValidateOptions) -> bool {
    spec_validate(ir, o) =~= Seq::<Seq<u8>>::empty()
}


fn build_msg(prefix: &Vec<u8>, name: &Vec<u8>) -> (r: Vec<u8>)
    ensures
        r@ == msg_of(prefix@, name@),
{
    let mut r = crate::bytes::clone_bytes(prefix);
    push_bytes(&mut r, name);
    r
}

fn items_overlap(a: &BlockItem, b: &BlockItem) -> (r: bool)
    ensures
        r == spec_item_overlap(a@, b@),
{
    match (&a.inner, &b.inner) {
        (
            BlockItemInner::Register { bit_size: asz, fieldset: _ },
            BlockItemInner::Register { bit_size: bsz, fieldset: _ },
        ) => {
            let ao = (a.byte_offset as u128) * 8;
            let bo = (b.byte_offset as u128) * 8;
            ao < bo + (*bsz as u128) && bo < ao + (*asz as u128)
        },
        _ => false,
    }
}

fn fields_overlap(a: &Field, b: &Field) -> (r: bool)
    ensures
        r == spec_field_pair_overlap(a@, b@),
{
    (a.bit_offset as u128) < (b.bit_offset as u128) + (b.bit_size as u128) && (b.bit_offset
        as u128) < (a.bit_offset as u128) + (a.bit_size as u128)
}

fn block_overlaps(b: &Block) -> (r: bool)
    ensures
        r == spec_block_overlap(b@),
{
    let mut j: usize = 0;
    while j < b.items.len()
        invariant
            j <= b.items@.len(),
            forall|x: int, y: int|
                0 <= x < y < j ==> !spec_item_overlap(#[trigger] b@.items[x], #[trigger] b@.items[y]),
        decreases b.items@.len() - j,
    {
        let mut i: usize = 0;
        while i < j
            invariant
                i <= j < b.items@.len(),
                forall|x: int, y: int|
                    0 <= x < y < j ==> !spec_item_overlap(
                        #[trigger] b@.items[x],
                        #[trigger] b@.items[y],
                    ),
                forall|x: int| 0 <= x < i ==> !spec_item_overlap(#[trigger] b@.items[x], b@.items[j as int]),
            decreases j - i,
        {
            if items_overlap(&b.items[i], &b.items[j]) {
                proof {
                    assert(b@.items[i as int] == b.items@[i as int]@);
                    assert(b@.items[j as int] == b.items@[j as int]@);
                    assert(spec_item_overlap(b@.items[i as int], b@.items[j as int]));
                }
                return true;
            }
            proof {
                assert(b@.items[i as int] == b.items@[i as int]@);
                assert(b@.items[j as int] == b.items@[j as int]@);
            }
            i = i + 1;
        }
        j = j + 1;
    }
    false
}

fn fieldset_overlaps(fs: &FieldSet) -> (r: bool)
    ensures
        r == spec_fieldset_overlap(fs@),
{
    let mut j: usize = 0;
    while j < fs.fields.len()
        invariant
            j <= fs.fields@.len(),
            forall|x: int, y: int|
                0 <= x < y < j ==> !spec_field_pair_overlap(
                    #[trigger] fs@.fields[x],
                    #[trigger] fs@.fields[y],
                ),
        decreases fs.fields@.len() - j,
    {
        let mut i: usize = 0;
        while i < j
            invariant
                i <= j < fs.fields@.len(),
                forall|x: int, y: int|
                    0 <= x < y < j ==> !spec_field_pair_overlap(
                        #[trigger] fs@.fields[x],
                        #[trigger] fs@.fields[y],
                    ),
                forall|x: int|
                    0 <= x < i ==> !spec_field_pair_overlap(
                        #[trigger] fs@.fields[x],
                        fs@.fields[j as int],
                    ),
            decreases j - i,
        {
            if fields_overlap(&fs.fields[i], &fs.fields[j]) {
                proof {
                    assert(fs@.fields[i as int] == fs.fields@[i as int]@);
                    assert(fs@.fields[j as int] == fs.fields@[j as int]@);
                    assert(spec_field_pair_overlap(fs@.fields[i as int], fs@.fields[j as int]));
                }
                return true;
            }
            proof {
                assert(fs@.fields[i as int] == fs.fields@[i as int]@);
                assert(fs@.fields[j as int] == fs.fields@[j as int]@);
            }
            i = i + 1;
        }
        j = j + 1;
    }
    false
}

fn enum_dups(e: &Enum) -> (r: bool)
    ensures
        r == spec_enum_dup(e@),
{
    let mut j: usize = 0;
    while j < e.variants.len()
        invariant
            j <= e.variants@.len(),
            forall|x: int, y: int|
                0 <= x < y < j ==> (#[trigger] e@.variants[x]).value != (
                #[trigger] e@.variants[y]).value,
        decreases e.variants@.len() - j,
    {
        let mut i: usize = 0;
        while i < j
            invariant
                i <= j < e.variants@.len(),
                forall|x: int, y: int|
                    0 <= x < y < j ==> (#[trigger] e@.variants[x]).value != (
                    #[trigger] e@.variants[y]).value,
                forall|x: int|
                    0 <= x < i ==> (#[trigger] e@.variants[x]).value != e@.variants[j as int].value,
            decreases j - i,
        {
            if e.variants[i].value == e.variants[j].value {
                proof {
                    assert(e@.variants[i as int] == e.variants@[i as int]@);
                    assert(e@.variants[j as int] == e.variants@[j as int]@);
                    assert(e@.variants[i as int].value == e@.variants[j as int].value);
                }
                return true;
            }
            proof {
                assert(e@.variants[i as int] == e.variants@[i as int]@);
                assert(e@.variants[j as int] == e.variants@[j as int]@);
            }
            i = i + 1;
        }
        j = j + 1;
    }
    false
}

fn item_dangles(ir: &Ir, it: &BlockItem) -> (r: bool)
    ensures
        r == spec_item_dangles(ir@, it@),
{
    match &it.inner {
        BlockItemInner::Register { bit_size: _, fieldset } => match fieldset {
            Option::Some(f) => find_by_name(&ir.fieldsets, f).is_none(),
            Option::None => false,
        },
        BlockItemInner::Block { block } => find_by_name(&ir.blocks, block).is_none(),
    }
}

fn block_dangles(ir: &Ir, b: &Block) -> (r: bool)
    ensures
        r == spec_block_dangles(ir@, b@),
{
    let mut i: usize = 0;
    while i < b.items.len()
        invariant
            i <= b.items@.len(),
            forall|x: int| 0 <= x < i ==> !spec_item_dangles(ir@, #[trigger] b@.items[x]),
        decreases b.items@.len() - i,
    {
        if item_dangles(ir, &b.items[i]) {
            proof {
                assert(b@.items[i as int] == b.items@[i as int]@);
            }
            return true;
        }
        proof {
            assert(b@.items[i as int] == b.items@[i as int]@);
        }
        i = i + 1;
    }
    false
}

fn field_dangles(ir: &Ir, f: &Field) -> (r: bool)
    ensures
        r == spec_field_dangles(ir@, f@),
{
    match &f.enumm {
        Option::Some(e) => find_by_name(&ir.enums, e).is_none(),
        Option::None => false,
    }
}

fn fieldset_dangles(ir: &Ir, fs: &FieldSet) -> (r: bool)
    ensures
        r == spec_fieldset_dangles(ir@, fs@),
{
    let mut i: usize = 0;
    while i < fs.fields.len()
        invariant
            i <= fs.fields@.len(),
            forall|x: int| 0 <= x < i ==> !spec_field_dangles(ir@, #[trigger] fs@.fields[x]),
        decreases fs.fields@.len() - i,
    {
        if field_dangles(ir, &fs.fields[i]) {
            proof {
                assert(fs@.fields[i as int] == fs.fields@[i as int]@);
            }
            return true;
        }
        proof {
            assert(fs@.fields[i as int] == fs.fields@[i as int]@);
        }
        i = i + 1;
    }
    false
}

fn device_dangles(ir: &Ir, d: &Device) -> (r: bool)
    ensures
        r == spec_device_dangles(ir@, d@),
{
    let mut i: usize = 0;
    while i < d.peripherals.len()
        invariant
            i <= d.peripherals@.len(),
            forall|x: int|
                0 <= x < i ==> find_name(ir@.blocks, (#[trigger] d@.peripherals[x]).block) != -1,
        decreases d.peripherals@.len() - i,
    {
        if find_by_name(&ir.blocks, &d.peripherals[i].block).is_none() {
            proof {
                assert(d@.peripherals[i as int] == d.peripherals@[i as int]@);
            }
            return true;
        }
        proof {
            assert(d@.peripherals[i as int] == d.peripherals@[i as int]@);
        }
        i = i + 1;
    }
    false
}

fn enum_used(ir: &Ir, name: &Vec<u8>) -> (r: bool)
    ensures
        r == spec_enum_used(ir@, name@),
{
    let mut i: usize = 0;
    while i < ir.fieldsets.len()
        invariant
            i <= ir.fieldsets@.len(),
            forall|x: int, y: int|
                0 <= x < i && 0 <= y < (#[trigger] ir@.fieldsets[x]).fields.len() ==> (
                #[trigger] ir@.fieldsets[x].fields[y]).enumm != Option::Some(name@),
        decreases ir.fieldsets@.len() - i,
    {
        let fs = &ir.fieldsets[i];
        let mut j: usize = 0;
        while j < fs.fields.len()
            invariant
                j <= fs.fields@.len(),
                fs@ == ir@.fieldsets[i as int],
                0 <= i < ir@.fieldsets.len(),
                forall|y: int| 0 <= y < j ==> (#[trigger] fs@.fields[y]).enumm != Option::Some(name@),
            decreases fs.fields@.len() - j,
        {
            let hit = match &fs.fields[j].enumm {
                Option::Some(e) => crate::bytes::bytes_eq(e, name),
                Option::None => false,
            };
            proof {
                assert(fs@.fields[j as int] == fs.fields@[j as int]@);
            }
            if hit {
                return true;
            }
            j = j + 1;
        }
        proof {
            assert(ir@.fieldsets[i as int] == ir.fieldsets@[i as int]@);
        }
        i = i + 1;
    }
    false
}

fn fieldset_used(ir: &Ir, name: &Vec<u8>) -> (r: bool)
    ensures
        r == spec_fieldset_used(ir@, name@),
{
    let mut i: usize = 0;
    while i < ir.blocks.len()
        invariant
            i <= ir.blocks@.len(),
            forall|x: int, y: int|
                0 <= x < i && 0 <= y < (#[trigger] ir@.blocks[x]).items.len() ==> match (
                #[trigger] ir@.blocks[x].items[y]).inner {
                    SpecBlockItemInner::Register { bit_size: _, fieldset } => fieldset
                        != Option::Some(name@),
                    SpecBlockItemInner::Block { block: _ } => true,
                },
        decreases ir.blocks@.len() - i,
    {
        let b = &ir.blocks[i];
        let mut j: usize = 0;
        while j < b.items.len()
            invariant
                j <= b.items@.len(),
                b@ == ir@.blocks[i as int],
                0 <= i < ir@.blocks.len(),
                forall|y: int|
                    0 <= y < j ==> match (#[trigger] b@.items[y]).inner {
                        SpecBlockItemInner::Register { bit_size: _, fieldset } => fieldset
                            != Option::Some(name@),
                        SpecBlockItemInner::Block { block: _ } => true,
                    },
            decreases b.items@.len() - j,
        {
            let hit = match &b.items[j].inner {
                BlockItemInner::Register { bit_size: _, fieldset } => match fieldset {
                    Option::Some(f) => crate::bytes::bytes_eq(f, name),
                    Option::None => false,
                },
                BlockItemInner::Block { block: _ } => false,
            };
            proof {
                assert(b@.items[j as int] == b.items@[j as int]@);
            }
            if hit {
                return true;
            }
            j = j + 1;
        }
        proof {
            assert(ir@.blocks[i as int] == ir.blocks@[i as int]@);
        }
        i = i + 1;
    }
    false
}

fn make_reg_overlap_prefix() -> (r: Vec<u8>)
    ensures
        r@ == reg_overlap_prefix(),
{
    let mut r: Vec<u8> = Vec::new();
    r.push(111u8);
    r.push(118u8);
    r.push(101u8);
    r.push(114u8);
    r.push(108u8);
    r.push(97u8);
    r.push(112u8);
    r.push(112u8);
    r.push(105u8);
    r.push(110u8);
    r.push(103u8);
    r.push(32u8);
    r.push(114u8);
    r.push(101u8);
    r.push(103u8);
    r.push(105u8);
    r.push(115u8);
    r.push(116u8);
    r.push(101u8);
    r.push(114u8);
    r.push(115u8);
    r.push(32u8);
    r.push(105u8);
    r.push(110u8);
    r.push(32u8);
    r.push(98u8);
    r.push(108u8);
    r.push(111u8);
    r.push(99u8);
    r.push(107u8);
    r.push(32u8);
    proof {
        assert(r@ =~= reg_overlap_prefix());
    }
    r
}

fn make_field_overlap_prefix() -> (r: Vec<u8>)
    ensures
        r@ == field_overlap_prefix(),
{
    let mut r: Vec<u8> = Vec::new();
    r.push(111u8);
    r.push(118u8);
    r.push(101u8);
    r.push(114u8);
    r.push(108u8);
    r.push(97u8);
    r.push(112u8);
    r.push(112u8);
    r.push(105u8);
    r.push(110u8);
    r.push(103u8);
    r.push(32u8);
    r.push(102u8);
    r.push(105u8);
    r.push(101u8);
    r.push(108u8);
    r.push(100u8);
    r.push(115u8);
    r.push(32u8);
    r.push(105u8);
    r.push(110u8);
    r.push(32u8);
    r.push(102u8);
    r.push(105u8);
    r.push(101u8);
    r.push(108u8);
    r.push(100u8);
    r.push(115u8);
    r.push(101u8);
    r.push(116u8);
    r.push(32u8);
    proof {
        assert(r@ =~= field_overlap_prefix());
    }
    r
}

fn make_enum_dup_prefix() -> (r: Vec<u8>)
    ensures
        r@ == enum_dup_prefix(),
{
    let mut r: Vec<u8> = Vec::new();
    r.push(100u8);
    r.push(117u8);
    r.push(112u8);
    r.push(108u8);
    r.push(105u8);
    r.push(99u8);
    r.push(97u8);
    r.push(116u8);
    r.push(101u8);
    r.push(32u8);
    r.push(118u8);
    r.push(97u8);
    r.push(108u8);
    r.push(117u8);
    r.push(101u8);
    r.push(32u8);
    r.push(105u8);
    r.push(110u8);
    r.push(32u8);
    r.push(101u8);
    r.push(110u8);
    r.push(117u8);
    r.push(109u8);
    r.push(32u8);
    proof {
        assert(r@ =~= enum_dup_prefix());
    }
    r
}

fn make_block_ref_prefix() -> (r: Vec<u8>)
    ensures
        r@ == block_ref_prefix(),
{
    let mut r: Vec<u8> = Vec::new();
    r.push(117u8);
    r.push(110u8);
    r.push(114u8);
    r.push(101u8);
    r.push(115u8);
    r.push(111u8);
    r.push(108u8);
    r.push(118u8);
    r.push(101u8);
    r.push(100u8);
    r.push(32u8);
    r.push(114u8);
    r.push(101u8);
    r.push(102u8);
    r.push(101u8);
    r.push(114u8);
    r.push(101u8);
    r.push(110u8);
    r.push(99u8);
    r.push(101u8);
    r.push(32u8);
    r.push(105u8);
    r.push(110u8);
    r.push(32u8);
    r.push(98u8);
    r.push(108u8);
    r.push(111u8);
    r.push(99u8);
    r.push(107u8);
    r.push(32u8);
    proof {
        assert(r@ =~= block_ref_prefix());
    }
    r
}

fn make_fieldset_ref_prefix() -> (r: Vec<u8>)
    ensures
        r@ == fieldset_ref_prefix(),
{
    let mut r: Vec<u8> = Vec::new();
    r.push(117u8);
    r.push(110u8);
    r.push(114u8);
    r.push(101u8);
    r.push(115u8);
    r.push(111u8);
    r.push(108u8);
    r.push(118u8);
    r.push(101u8);
    r.push(100u8);
    r.push(32u8);
    r.push(114u8);
    r.push(101u8);
    r.push(102u8);
    r.push(101u8);
    r.push(114u8);
    r.push(101u8);
    r.push(110u8);
    r.push(99u8);
    r.push(101u8);
    r.push(32u8);
    r.push(105u8);
    r.push(110u8);
    r.push(32u8);
    r.push(102u8);
    r.push(105u8);
    r.push(101u8);
    r.push(108u8);
    r.push(100u8);
    r.push(115u8);
    r.push(101u8);
    r.push(116u8);
    r.push(32u8);
    proof {
        assert(r@ =~= fieldset_ref_prefix());
    }
    r
}

fn make_device_ref_prefix() -> (r: Vec<u8>)
    ensures
        r@ == device_ref_prefix(),
{
    let mut r: Vec<u8> = Vec::new();
    r.push(117u8);
    r.push(110u8);
    r.push(114u8);
    r.push(101u8);
    r.push(115u8);
    r.push(111u8);
    r.push(108u8);
    r.push(118u8);
    r.push(101u8);
    r.push(100u8);
    r.push(32u8);
    r.push(114u8);
    r.push(101u8);
    r.push(102u8);
    r.push(101u8);
    r.push(114u8);
    r.push(101u8);
    r.push(110u8);
    r.push(99u8);
    r.push(101u8);
    r.push(32u8);
    r.push(105u8);
    r.push(110u8);
    r.push(32u8);
    r.push(100u8);
    r.push(101u8);
    r.push(118u8);
    r.push(105u8);
    r.push(99u8);
    r.push(101u8);
    r.push(32u8);
    proof {
        assert(r@ =~= device_ref_prefix());
    }
    r
}

fn make_unused_enum_prefix() -> (r: Vec<u8>)
    ensures
        r@ == unused_enum_prefix(),
{
    let mut r: Vec<u8> = Vec::new();
    r.push(117u8);
    r.push(110u8);
    r.push(117u8);
    r.push(115u8);
    r.push(101u8);
    r.push(100u8);
    r.push(32u8);
    r.push(101u8);
    r.push(110u8);
    r.push(117u8);
    r.push(109u8);
    r.push(32u8);
    proof {
        assert(r@ =~= unused_enum_prefix());
    }
    r
}

fn make_unused_fieldset_prefix() -> (r: Vec<u8>)
    ensures
        r@ == unused_fieldset_prefix(),
{
    let mut r: Vec<u8> = Vec::new();
    r.push(117u8);
    r.push(110u8);
    r.push(117u8);
    r.push(115u8);
    r.push(101u8);
    r.push(100u8);
    r.push(32u8);
    r.push(102u8);
    r.push(105u8);
    r.push(101u8);
    r.push(108u8);
    r.push(100u8);
    r.push(115u8);
    r.push(101u8);
    r.push(116u8);
    r.push(32u8);
    proof {
        assert(r@ =~= unused_fieldset_prefix());
    }
    r
}

fn collect_reg_overlap(ir: &Ir) -> (r: Vec<Vec<u8>>)
    ensures
        views(r@) == reg_overlap_msgs(ir@.blocks),
{
    let prefix = make_reg_overlap_prefix();
    let mut out: Vec<Vec<u8>> = Vec::new();
    let ghost s = ir@.blocks;
    proof {
        assert(s.take(0) =~= Seq::<SpecBlock>::empty());
        assert(views(out@) =~= reg_overlap_msgs(s.take(0)));
    }
    let mut i: usize = 0;
    while i < ir.blocks.len()
        invariant
            s == ir@.blocks,
            i <= ir.blocks@.len(),
            prefix@ == reg_overlap_prefix(),
            views(out@) == reg_overlap_msgs(s.take(i as int)),
        decreases ir.blocks@.len() - i,
    {
        let hit = block_overlaps(&ir.blocks[i]);
        proof {
            assert(s[i as int] == ir.blocks@[i as int]@);
            assert(s.take(i + 1).drop_last() =~= s.take(i as int));
            assert(s.take(i + 1).drop_last() == s.take(i as int));
            assert(s.take(i + 1).last() == s[i as int]);
        }
        if hit {
            let m = build_msg(&prefix, &ir.blocks[i].name);
            let ghost oldout = out@;
            out.push(m);
            proof {
                assert(reg_overlap_msgs(s.take(i + 1)) == reg_overlap_msgs(s.take(i as int)).push(msg_of(reg_overlap_prefix(), s[i as int].name)));
                let target = reg_overlap_msgs(s.take(i + 1));
                assert(views(out@).len() == out@.len());
                assert(views(oldout).len() == oldout.len());
                assert forall|w: int| 0 <= w < target.len() implies views(out@)[w] == target[w] by {
                    if w < oldout.len() {
                        assert(out@[w] == oldout[w]);
                        assert(views(out@)[w] == views(oldout)[w]);
                    } else {
                        assert(views(out@)[w] == m@);
                    }
                }
                assert(views(out@) =~= target);
            }
        } else {
            proof {
                assert(reg_overlap_msgs(s.take(i + 1)) == reg_overlap_msgs(s.take(i as int)));
            }
        }
        i = i + 1;
    }
    proof {
        assert(s.take(s.len() as int) =~= s);
        assert(s.take(s.len() as int) == s);
    }
    out
}

fn collect_field_overlap(ir: &Ir) -> (r: Vec<Vec<u8>>)
    ensures
        views(r@) == field_overlap_msgs(ir@.fieldsets),
{
    let prefix = make_field_overlap_prefix();
    let mut out: Vec<Vec<u8>> = Vec::new();
    let ghost s = ir@.fieldsets;
    proof {
        assert(s.take(0) =~= Seq::<SpecFieldSet>::empty());
        assert(views(out@) =~= field_overlap_msgs(s.take(0)));
    }
    let mut i: usize = 0;
    while i < ir.fieldsets.len()
        invariant
            s == ir@.fieldsets,
            i <= ir.fieldsets@.len(),
            prefix@ == field_overlap_prefix(),
            views(out@) == field_overlap_msgs(s.take(i as int)),
        decreases ir.fieldsets@.len() - i,
    {
        let hit = fieldset_overlaps(&ir.fieldsets[i]);
        proof {
            assert(s[i as int] == ir.fieldsets@[i as int]@);
            assert(s.take(i + 1).drop_last() =~= s.take(i as int));
            assert(s.take(i + 1).drop_last() == s.take(i as int));
            assert(s.take(i + 1).last() == s[i as int]);
        }
        if hit {
            let m = build_msg(&prefix, &ir.fieldsets[i].name);
            let ghost oldout = out@;
            out.push(m);
            proof {
                assert(field_overlap_msgs(s.take(i + 1)) == field_overlap_msgs(s.take(i as int)).push(msg_of(field_overlap_prefix(), s[i as int].name)));
                let target = field_overlap_msgs(s.take(i + 1));
                assert(views(out@).len() == out@.len());
                assert(views(oldout).len() == oldout.len());
                assert forall|w: int| 0 <= w < target.len() implies views(out@)[w] == target[w] by {
                    if w < oldout.len() {
                        assert(out@[w] == oldout[w]);
                        assert(views(out@)[w] == views(oldout)[w]);
                    } else {
                        assert(views(out@)[w] == m@);
                    }
                }
                assert(views(out@) =~= target);
            }
        } else {
            proof {
                assert(field_overlap_msgs(s.take(i + 1)) == field_overlap_msgs(s.take(i as int)));
            }
        }
        i = i + 1;
    }
    proof {
        assert(s.take(s.len() as int) =~= s);
        assert(s.take(s.len() as int) == s);
    }
    out
}

fn collect_enum_dup(ir: &Ir) -> (r: Vec<Vec<u8>>)
    ensures
        views(r@) == enum_dup_msgs(ir@.enums),
{
    let prefix = make_enum_dup_prefix();
    let mut out: Vec<Vec<u8>> = Vec::new();
    let ghost s = ir@.enums;
    proof {
        assert(s.take(0) =~= Seq::<SpecEnum>::empty());
        assert(views(out@) =~= enum_dup_msgs(s.take(0)));
    }
    let mut i: usize = 0;
    while i < ir.enums.len()
        invariant
            s == ir@.enums,
            i <= ir.enums@.len(),
            prefix@ == enum_dup_prefix(),
            views(out@) == enum_dup_msgs(s.take(i as int)),
        decreases ir.enums@.len() - i,
    {
        let hit = enum_dups(&ir.enums[i]);
        proof {
            assert(s[i as int] == ir.enums@[i as int]@);
            assert(s.take(i + 1).drop_last() =~= s.take(i as int));
            assert(s.take(i + 1).drop_last() == s.take(i as int));
            assert(s.take(i + 1).last() == s[i as int]);
        }
        if hit {
            let m = build_msg(&prefix, &ir.enums[i].name);
            let ghost oldout = out@;
            out.push(m);
            proof {
                assert(enum_dup_msgs(s.take(i + 1)) == enum_dup_msgs(s.take(i as int)).push(msg_of(enum_dup_prefix(), s[i as int].name)));
                let target = enum_dup_msgs(s.take(i + 1));
                assert(views(out@).len() == out@.len());
                assert(views(oldout).len() == oldout.len());
                assert forall|w: int| 0 <= w < target.len() implies views(out@)[w] == target[w] by {
                    if w < oldout.len() {
                        assert(out@[w] == oldout[w]);
                        assert(views(out@)[w] == views(oldout)[w]);
                    } else {
                        assert(views(out@)[w] == m@);
                    }
                }
                assert(views(out@) =~= target);
            }
        } else {
            proof {
                assert(enum_dup_msgs(s.take(i + 1)) == enum_dup_msgs(s.take(i as int)));
            }
        }
        i = i + 1;
    }
    proof {
        assert(s.take(s.len() as int) =~= s);
        assert(s.take(s.len() as int) == s);
    }
    out
}

fn collect_block_ref(ir: &Ir) -> (r: Vec<Vec<u8>>)
    ensures
        views(r@) == block_ref_msgs(ir@, ir@.blocks),
{
    let prefix = make_block_ref_prefix();
    let mut out: Vec<Vec<u8>> = Vec::new();
    let ghost s = ir@.blocks;
    proof {
        assert(s.take(0) =~= Seq::<SpecBlock>::empty());
        assert(views(out@) =~= block_ref_msgs(ir@, s.take(0)));
    }
    let mut i: usize = 0;
    while i < ir.blocks.len()
        invariant
            s == ir@.blocks,
            i <= ir.blocks@.len(),
            prefix@ == block_ref_prefix(),
            views(out@) == block_ref_msgs(ir@, s.take(i as int)),
        decreases ir.blocks@.len() - i,
    {
        let hit = block_dangles(ir, &ir.blocks[i]);
        proof {
            assert(s[i as int] == ir.blocks@[i as int]@);
            assert(s.take(i + 1).drop_last() =~= s.take(i as int));
            assert(s.take(i + 1).drop_last() == s.take(i as int));
            assert(s.take(i + 1).last() == s[i as int]);
        }
        if hit {
            let m = build_msg(&prefix, &ir.blocks[i].name);
            let ghost oldout = out@;
            out.push(m);
            proof {
                assert(block_ref_msgs(ir@, s.take(i + 1)) == block_ref_msgs(ir@, s.take(i as int)).push(msg_of(block_ref_prefix(), s[i as int].name)));
                let target = block_ref_msgs(ir@, s.take(i + 1));
                assert(views(out@).len() == out@.len());
                assert(views(oldout).len() == oldout.len());
                assert forall|w: int| 0 <= w < target.len() implies views(out@)[w] == target[w] by {
                    if w < oldout.len() {
                        assert(out@[w] == oldout[w]);
                        assert(views(out@)[w] == views(oldout)[w]);
                    } else {
                        assert(views(out@)[w] == m@);
                    }
                }
                assert(views(out@) =~= target);
            }
        } else {
            proof {
                assert(block_ref_msgs(ir@, s.take(i + 1)) == block_ref_msgs(ir@, s.take(i as int)));
            }
        }
        i = i + 1;
    }
    proof {
        assert(s.take(s.len() as int) =~= s);
        assert(s.take(s.len() as int) == s);
    }
    out
}

fn collect_fieldset_ref(ir: &Ir) -> (r: Vec<Vec<u8>>)
    ensures
        views(r@) == fieldset_ref_msgs(ir@, ir@.fieldsets),
{
    let prefix = make_fieldset_ref_prefix();
    let mut out: Vec<Vec<u8>> = Vec::new();
    let ghost s = ir@.fieldsets;
    proof {
        assert(s.take(0) =~= Seq::<SpecFieldSet>::empty());
        assert(views(out@) =~= fieldset_ref_msgs(ir@, s.take(0)));
    }
    let mut i: usize = 0;
    while i < ir.fieldsets.len()
        invariant
            s == ir@.fieldsets,
            i <= ir.fieldsets@.len(),
            prefix@ == fieldset_ref_prefix(),
            views(out@) == fieldset_ref_msgs(ir@, s.take(i as int)),
        decreases ir.fieldsets@.len() - i,
    {
        let hit = fieldset_dangles(ir, &ir.fieldsets[i]);
        proof {
            assert(s[i as int] == ir.fieldsets@[i as int]@);
            assert(s.take(i + 1).drop_last() =~= s.take(i as int));
            assert(s.take(i + 1).drop_last() == s.take(i as int));
            assert(s.take(i + 1).last() == s[i as int]);
        }
        if hit {
            let m = build_msg(&prefix, &ir.fieldsets[i].name);
            let ghost oldout = out@;
            out.push(m);
            proof {
                assert(fieldset_ref_msgs(ir@, s.take(i + 1)) == fieldset_ref_msgs(ir@, s.take(i as int)).push(msg_of(fieldset_ref_prefix(), s[i as int].name)));
                let target = fieldset_ref_msgs(ir@, s.take(i + 1));
                assert(views(out@).len() == out@.len());
                assert(views(oldout).len() == oldout.len());
                assert forall|w: int| 0 <= w < target.len() implies views(out@)[w] == target[w] by {
                    if w < oldout.len() {
                        assert(out@[w] == oldout[w]);
                        assert(views(out@)[w] == views(oldout)[w]);
                    } else {
                        assert(views(out@)[w] == m@);
                    }
                }
                assert(views(out@) =~= target);
            }
        } else {
            proof {
                assert(fieldset_ref_msgs(ir@, s.take(i + 1)) == fieldset_ref_msgs(ir@, s.take(i as int)));
            }
        }
        i = i + 1;
    }
    proof {
        assert(s.take(s.len() as int) =~= s);
        assert(s.take(s.len() as int) == s);
    }
    out
}

fn collect_device_ref(ir: &Ir) -> (r: Vec<Vec<u8>>)
    ensures
        views(r@) == device_ref_msgs(ir@, ir@.devices),
{
    let prefix = make_device_ref_prefix();
    let mut out: Vec<Vec<u8>> = Vec::new();
    let ghost s = ir@.devices;
    proof {
        assert(s.take(0) =~= Seq::<SpecDevice>::empty());
        assert(views(out@) =~= device_ref_msgs(ir@, s.take(0)));
    }
    let mut i: usize = 0;
    while i < ir.devices.len()
        invariant
            s == ir@.devices,
            i <= ir.devices@.len(),
            prefix@ == device_ref_prefix(),
            views(out@) == device_ref_msgs(ir@, s.take(i as int)),
        decreases ir.devices@.len() - i,
    {
        let hit = device_dangles(ir, &ir.devices[i]);
        proof {
            assert(s[i as int] == ir.devices@[i as int]@);
            assert(s.take(i + 1).drop_last() =~= s.take(i as int));
            assert(s.take(i + 1).drop_last() == s.take(i as int));
            assert(s.take(i + 1).last() == s[i as int]);
        }
        if hit {
            let m = build_msg(&prefix, &ir.devices[i].name);
            let ghost oldout = out@;
            out.push(m);
            proof {
                assert(device_ref_msgs(ir@, s.take(i + 1)) == device_ref_msgs(ir@, s.take(i as int)).push(msg_of(device_ref_prefix(), s[i as int].name)));
                let target = device_ref_msgs(ir@, s.take(i + 1));
                assert(views(out@).len() == out@.len());
                assert(views(oldout).len() == oldout.len());
                assert forall|w: int| 0 <= w < target.len() implies views(out@)[w] == target[w] by {
                    if w < oldout.len() {
                        assert(out@[w] == oldout[w]);
                        assert(views(out@)[w] == views(oldout)[w]);
                    } else {
                        assert(views(out@)[w] == m@);
                    }
                }
                assert(views(out@) =~= target);
            }
        } else {
            proof {
                assert(device_ref_msgs(ir@, s.take(i + 1)) == device_ref_msgs(ir@, s.take(i as int)));
            }
        }
        i = i + 1;
    }
    proof {
        assert(s.take(s.len() as int) =~= s);
        assert(s.take(s.len() as int) == s);
    }
    out
}

fn collect_unused_enum(ir: &Ir) -> (r: Vec<Vec<u8>>)
    ensures
        views(r@) == unused_enum_msgs(ir@, ir@.enums),
{
    let prefix = make_unused_enum_prefix();
    let mut out: Vec<Vec<u8>> = Vec::new();
    let ghost s = ir@.enums;
    proof {
        assert(s.take(0) =~= Seq::<SpecEnum>::empty());
        assert(views(out@) =~= unused_enum_msgs(ir@, s.take(0)));
    }
    let mut i: usize = 0;
    while i < ir.enums.len()
        invariant
            s == ir@.enums,
            i <= ir.enums@.len(),
            prefix@ == unused_enum_prefix(),
            views(out@) == unused_enum_msgs(ir@, s.take(i as int)),
        decreases ir.enums@.len() - i,
    {
        let hit = !enum_used(ir, &ir.enums[i].name);
        proof {
            assert(s[i as int] == ir.enums@[i as int]@);
            assert(s.take(i + 1).drop_last() =~= s.take(i as int));
            assert(s.take(i + 1).drop_last() == s.take(i as int));
            assert(s.take(i + 1).last() == s[i as int]);
        }
        if hit {
            let m = build_msg(&prefix, &ir.enums[i].name);
            let ghost oldout = out@;
            out.push(m);
            proof {
                assert(unused_enum_msgs(ir@, s.take(i + 1)) == unused_enum_msgs(ir@, s.take(i as int)).push(msg_of(unused_enum_prefix(), s[i as int].name)));
                let target = unused_enum_msgs(ir@, s.take(i + 1));
                assert(views(out@).len() == out@.len());
                assert(views(oldout).len() == oldout.len());
                assert forall|w: int| 0 <= w < target.len() implies views(out@)[w] == target[w] by {
                    if w < oldout.len() {
                        assert(out@[w] == oldout[w]);
                        assert(views(out@)[w] == views(oldout)[w]);
                    } else {
                        assert(views(out@)[w] == m@);
                    }
                }
                assert(views(out@) =~= target);
            }
        } else {
            proof {
                assert(unused_enum_msgs(ir@, s.take(i + 1)) == unused_enum_msgs(ir@, s.take(i as int)));
            }
        }
        i = i + 1;
    }
    proof {
        assert(s.take(s.len() as int) =~= s);
        assert(s.take(s.len() as int) == s);
    }
    out
}

fn collect_unused_fieldset(ir: &Ir) -> (r: Vec<Vec<u8>>)
    ensures
        views(r@) == unused_fieldset_msgs(ir@, ir@.fieldsets),
{
    let prefix = make_unused_fieldset_prefix();
    let mut out: Vec<Vec<u8>> = Vec::new();
    let ghost s = ir@.fieldsets;
    proof {
        assert(s.take(0) =~= Seq::<SpecFieldSet>::empty());
        assert(views(out@) =~= unused_fieldset_msgs(ir@, s.take(0)));
    }
    let mut i: usize = 0;
    while i < ir.fieldsets.len()
        invariant
            s == ir@.fieldsets,
            i <= ir.fieldsets@.len(),
            prefix@ == unused_fieldset_prefix(),
            views(out@) == unused_fieldset_msgs(ir@, s.take(i as int)),
        decreases ir.fieldsets@.len() - i,
    {
        let hit = !fieldset_used(ir, &ir.fieldsets[i].name);
        proof {
            assert(s[i as int] == ir.fieldsets@[i as int]@);
            assert(s.take(i + 1).drop_last() =~= s.take(i as int));
            assert(s.take(i + 1).drop_last() == s.take(i as int));
            assert(s.take(i + 1).last() == s[i as int]);
        }
        if hit {
            let m = build_msg(&prefix, &ir.fieldsets[i].name);
            let ghost oldout = out@;
            out.push(m);
            proof {
                assert(unused_fieldset_msgs(ir@, s.take(i + 1)) == unused_fieldset_msgs(ir@, s.take(i as int)).push(msg_of(unused_fieldset_prefix(), s[i as int].name)));
                let target = unused_fieldset_msgs(ir@, s.take(i + 1));
                assert(views(out@).len() == out@.len());
                assert(views(oldout).len() == oldout.len());
                assert forall|w: int| 0 <= w < target.len() implies views(out@)[w] == target[w] by {
                    if w < oldout.len() {
                        assert(out@[w] == oldout[w]);
                        assert(views(out@)[w] == views(oldout)[w]);
                    } else {
                        assert(views(out@)[w] == m@);
                    }
                }
                assert(views(out@) =~= target);
            }
        } else {
            proof {
                assert(unused_fieldset_msgs(ir@, s.take(i + 1)) == unused_fieldset_msgs(ir@, s.take(i as int)));
            }
        }
        i = i + 1;
    }
    proof {
        assert(s.take(s.len() as int) =~= s);
        assert(s.take(s.len() as int) == s);
    }
    out
}

fn append_msgs(acc: &mut Vec<Vec<u8>>, more: Vec<Vec<u8>>)
    ensures
        views(final(acc)@) == views(old(acc)@) + views(more@),
{
    let ghost morig = more@;
    let mut more = more;
    proof {
        assert(morig.skip(0) =~= morig);
        assert(views(acc@) =~= views(old(acc)@) + views(morig.take(0)));
    }
    while more.len() > 0
        invariant
            more@.len() <= morig.len(),
            more@ == morig.skip(morig.len() - more@.len()),
            views(acc@) == views(old(acc)@) + views(morig.take(morig.len() - more@.len())),
        decreases more@.len(),
    {
        let ghost k = morig.len() - more@.len();
        proof {
            assert(0 <= k < morig.len());
            assert(more@[0] == morig.skip(k as int)[0]);
        }
        let x = more.remove(0);
        proof {
            assert(x == morig[k]);
            assert(more@ =~= morig.skip(k + 1));
        }
        let ghost oldacc = acc@;
        acc.push(x);
        proof {
            assert(views(acc@).len() == acc@.len());
            assert(views(oldacc).len() == oldacc.len());
            assert(views(morig.take(k)).len() == k);
            let target = views(old(acc)@) + views(morig.take(k + 1));
            assert(views(morig.take(k + 1)).len() == k + 1);
            assert forall|w: int| 0 <= w < target.len() implies views(acc@)[w] == target[w] by {
                if w < oldacc.len() {
                    assert(acc@[w] == oldacc[w]);
                    assert(views(acc@)[w] == views(oldacc)[w]);
                } else {
                    assert(views(acc@)[w] == x@);
                    assert(target[w] == views(morig.take(k + 1))[w - old(acc)@.len()]);
                }
            }
            assert(views(acc@) =~= target);
        }
    }
    proof {
        assert(morig.take(morig.len() as int) =~= morig);
    }
}

/// Walks the merged graph under the policy and produces, in a fixed order,
/// one message for each violating entity; an empty list means the graph is
/// accepted.
pub fn validate(ir: &Ir, o: ValidateOptions) -> (r: Vec<Vec<u8>>)
    ensures
        views(r@) == spec_validate(ir@, o),
        (r@.len() == 0) == spec_valid(ir@, o),
{
    let mut out: Vec<Vec<u8>> = Vec::new();
    let ghost e = Seq::<Seq<u8>>::empty();
    proof {
        assert(views(out@) =~= e);
    }
    let ghost s1 = if !o.allow_register_overlap { reg_overlap_msgs(ir@.blocks) } else { e };
    if !o.allow_register_overlap {
        let c = collect_reg_overlap(ir);
        append_msgs(&mut out, c);
    }
    proof {
        assert(views(out@) =~= e + s1);
    }
    let ghost s2 = if !o.allow_field_overlap { field_overlap_msgs(ir@.fieldsets) } else { e };
    if !o.allow_field_overlap {
        let c = collect_field_overlap(ir);
        append_msgs(&mut out, c);
    }
    proof {
        assert(views(out@) =~= e + s1 + s2);
    }
    let ghost s3 = if !o.allow_enum_dup_value { enum_dup_msgs(ir@.enums) } else { e };
    if !o.allow_enum_dup_value {
        let c = collect_enum_dup(ir);
        append_msgs(&mut out, c);
    }
    proof {
        assert(views(out@) =~= e + s1 + s2 + s3);
    }
    let c = collect_block_ref(ir);
    append_msgs(&mut out, c);
    let c = collect_fieldset_ref(ir);
    append_msgs(&mut out, c);
    let c = collect_device_ref(ir);
    append_msgs(&mut out, c);
    let ghost s4 = block_ref_msgs(ir@, ir@.blocks);
    let ghost s5 = fieldset_ref_msgs(ir@, ir@.fieldsets);
    let ghost s6 = device_ref_msgs(ir@, ir@.devices);
    proof {
        assert(views(out@) =~= e + s1 + s2 + s3 + s4 + s5 + s6);
    }
    let ghost s7 = if !o.allow_unused_enums { unused_enum_msgs(ir@, ir@.enums) } else { e };
    if !o.allow_unused_enums {
        let c = collect_unused_enum(ir);
        append_msgs(&mut out, c);
    }
    let ghost s8 = if !o.allow_unused_fieldsets { unused_fieldset_msgs(ir@, ir@.fieldsets) } else { e };
    if !o.allow_unused_fieldsets {
        let c = collect_unused_fieldset(ir);
        append_msgs(&mut out, c);
    }
    proof {
        assert(views(out@) =~= e + s1 + s2 + s3 + s4 + s5 + s6 + s7 + s8);
        assert(views(out@) =~= spec_validate(ir@, o));
        assert(views(out@).len() == out@.len());
        assert((out@.len() == 0) == spec_valid(ir@, o));
    }
    out
}

} // verus!
