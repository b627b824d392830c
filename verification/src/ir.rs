//! The register-map intermediate representation: devices, blocks, fieldsets,
//! enums, and the relations between them. Identifiers are byte strings.
//!
//! The exec structures mirror one-for-one into spec structures (`Spec...`)
//! through `View`, and every pass of the pipeline states its contract over
//! those spec values.
use crate::bytes::clone_bytes;
use vstd::prelude::*;

verus! {

/// One bit-field of a register value: a name, a bit range, and optionally
/// the name of the enum that gives its values meaning.
pub struct Field {
    pub name: Vec<u8>,
    pub bit_offset: u64,
    pub bit_size: u64,
    pub enumm: Option<Vec<u8>>,
}

pub struct SpecField {
    pub name: Seq<u8>,
    pub bit_offset: u64,
    pub bit_size: u64,
    pub enumm: Option<Seq<u8>>,
}

impl View for Field {
    type V = SpecField;

    open spec fn view(&self) -> SpecField {
        SpecField {
            name: self.name@,
            bit_offset: self.bit_offset,
            bit_size: self.bit_size,
            enumm: match self.enumm {
                Option::Some(n) => Option::Some(n@),
                Option::None => Option::None,
            },
        }
    }
}

/// A named bit layout for one register value; may extend another fieldset.
pub struct FieldSet {
    pub name: Vec<u8>,
    pub extends: Option<Vec<u8>>,
    pub bit_size: u64,
    pub fields: Vec<Field>,
}

pub struct SpecFieldSet {
    pub name: Seq<u8>,
    pub extends: Option<Seq<u8>>,
    pub bit_size: u64,
    pub fields: Seq<SpecField>,
}

impl View for FieldSet {
    type V = SpecFieldSet;

    open spec fn view(&self) -> SpecFieldSet {
        SpecFieldSet {
            name: self.name@,
            extends: match self.extends {
                Option::Some(n) => Option::Some(n@),
                Option::None => Option::None,
            },
            bit_size: self.bit_size,
            fields: views(self.fields@),
        }
    }
}

/// One named value of an enum.
pub struct EnumVariant {
    pub name: Vec<u8>,
    pub value: u64,
}

pub struct SpecEnumVariant {
    pub name: Seq<u8>,
    pub value: u64,
}

impl View for EnumVariant {
    type V = SpecEnumVariant;

    open spec fn view(&self) -> SpecEnumVariant {
        SpecEnumVariant { name: self.name@, value: self.value }
    }
}

/// A named set of variants for a field's values.
pub struct Enum {
    pub name: Vec<u8>,
    pub bit_size: u64,
    pub variants: Vec<EnumVariant>,
}

pub struct SpecEnum {
    pub name: Seq<u8>,
    pub bit_size: u64,
    pub variants: Seq<SpecEnumVariant>,
}

impl View for Enum {
    type V = SpecEnum;

    open spec fn view(&self) -> SpecEnum {
        SpecEnum { name: self.name@, bit_size: self.bit_size, variants: views(self.variants@) }
    }
}

/// What one entry of a block is: a register laid out by a fieldset, or a
/// nested sub-block referred to by name.
pub enum BlockItemInner {
    Register { bit_size: u64, fieldset: Option<Vec<u8>> },
    Block { block: Vec<u8> },
}

pub enum SpecBlockItemInner {
    Register { bit_size: u64, fieldset: Option<Seq<u8>> },
    Block { block: Seq<u8> },
}

impl View for BlockItemInner {
    type V = SpecBlockItemInner;

    open spec fn view(&self) -> SpecBlockItemInner {
        match self {
            BlockItemInner::Register { bit_size, fieldset } => SpecBlockItemInner::Register {
                bit_size: *bit_size,
                fieldset: match fieldset {
                    Option::Some(n) => Option::Some(n@),
                    Option::None => Option::None,
                },
            },
            BlockItemInner::Block { block } => SpecBlockItemInner::Block { block: block@ },
        }
    }
}

/// One named entry of a block at a byte offset.
pub struct BlockItem {
    pub name: Vec<u8>,
    pub byte_offset: u64,
    pub inner: BlockItemInner,
}

pub struct SpecBlockItem {
    pub name: Seq<u8>,
    pub byte_offset: u64,
    pub inner: SpecBlockItemInner,
}

impl View for BlockItem {
    type V = SpecBlockItem;

    open spec fn view(&self) -> SpecBlockItem {
        SpecBlockItem { name: self.name@, byte_offset: self.byte_offset, inner: self.inner@ }
    }
}

/// A structural grouping of registers and sub-blocks; may extend another
/// block.
pub struct Block {
    pub name: Vec<u8>,
    pub extends: Option<Vec<u8>>,
    pub items: Vec<BlockItem>,
}

pub struct SpecBlock {
    pub name: Seq<u8>,
    pub extends: Option<Seq<u8>>,
    pub items: Seq<SpecBlockItem>,
}

impl View for Block {
    type V = SpecBlock;

    open spec fn view(&self) -> SpecBlock {
        SpecBlock {
            name: self.name@,
            extends: match self.extends {
                Option::Some(n) => Option::Some(n@),
                Option::None => Option::None,
            },
            items: views(self.items@),
        }
    }
}

/// A peripheral instance: a block placed at a base address.
pub struct Peripheral {
    pub name: Vec<u8>,
    pub base_address: u64,
    pub block: Vec<u8>,
}

pub struct SpecPeripheral {
    pub name: Seq<u8>,
    pub base_address: u64,
    pub block: Seq<u8>,
}

impl View for Peripheral {
    type V = SpecPeripheral;

    open spec fn view(&self) -> SpecPeripheral {
        SpecPeripheral { name: self.name@, base_address: self.base_address, block: self.block@ }
    }
}

/// The top-level container: peripheral instances and their base addresses.
pub struct Device {
    pub name: Vec<u8>,
    pub peripherals: Vec<Peripheral>,
}

pub struct SpecDevice {
    pub name: Seq<u8>,
    pub peripherals: Seq<SpecPeripheral>,
}

impl View for Device {
    type V = SpecDevice;

    open spec fn view(&self) -> SpecDevice {
        SpecDevice { name: self.name@, peripherals: views(self.peripherals@) }
    }
}

/// The IR graph: every entity of the register map, partitioned by kind.
pub struct Ir {
    pub devices: Vec<Device>,
    pub blocks: Vec<Block>,
    pub fieldsets: Vec<FieldSet>,
    pub enums: Vec<Enum>,
}

pub struct SpecIr {
    pub devices: Seq<SpecDevice>,
    pub blocks: Seq<SpecBlock>,
    pub fieldsets: Seq<SpecFieldSet>,
    pub enums: Seq<SpecEnum>,
}

impl View for Ir {
    type V = SpecIr;

    open spec fn view(&self) -> SpecIr {
        SpecIr {
            devices: views(self.devices@),
            blocks: views(self.blocks@),
            fieldsets: views(self.fieldsets@),
            enums: views(self.enums@),
        }
    }
}

/// The spec views of a sequence of exec values.
pub open spec fn views<T: View>(s: Seq<T>) -> Seq<T::V> {
    s.map_values(|t: T| t@)
}

impl Ir {
    /// An empty graph, the unit of merging.
    pub fn new() -> (r: Ir)
        ensures
            r@ == (SpecIr {
                devices: Seq::<SpecDevice>::empty(),
                blocks: Seq::<SpecBlock>::empty(),
                fieldsets: Seq::<SpecFieldSet>::empty(),
                enums: Seq::<SpecEnum>::empty(),
            }),
    {
        let r = Ir { devices: Vec::new(), blocks: Vec::new(), fieldsets: Vec::new(), enums: Vec::new() };
        proof {
            assert(r@.devices =~= Seq::<SpecDevice>::empty());
            assert(r@.blocks =~= Seq::<SpecBlock>::empty());
            assert(r@.fieldsets =~= Seq::<SpecFieldSet>::empty());
            assert(r@.enums =~= Seq::<SpecEnum>::empty());
        }
        r
    }
}

impl Field {
    /// A fresh copy with the same view.
    pub fn duplicate(&self) -> (r: Field)
        ensures
            r@ == self@,
    {
        Field {
            name: clone_bytes(&self.name),
            bit_offset: self.bit_offset,
            bit_size: self.bit_size,
            enumm: match &self.enumm {
                Option::Some(n) => Option::Some(clone_bytes(n)),
                Option::None => Option::None,
            },
        }
    }
}

impl BlockItem {
    /// A fresh copy with the same view.
    pub fn duplicate(&self) -> (r: BlockItem)
        ensures
            r@ == self@,
    {
        BlockItem {
            name: clone_bytes(&self.name),
            byte_offset: self.byte_offset,
            inner: match &self.inner {
                BlockItemInner::Register { bit_size, fieldset } => BlockItemInner::Register {
                    bit_size: *bit_size,
                    fieldset: match fieldset {
                        Option::Some(n) => Option::Some(clone_bytes(n)),
                        Option::None => Option::None,
                    },
                },
                BlockItemInner::Block { block } => BlockItemInner::Block {
                    block: clone_bytes(block),
                },
            },
        }
    }
}

} // verus!
