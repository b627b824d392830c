//! A register-map IR pipeline: merge IR documents into one graph, validate
//! it under a policy, flatten inheritance, apply namespace renaming, impose
//! a deterministic order, sanitize identifiers, and render register-access
//! source text with configurable shared-runtime emission.
pub mod blkextends;
pub mod bytes;
pub mod extends;
pub mod ir;
pub mod laws;
pub mod merge;
pub mod order;
pub mod output;
pub mod rename;
pub mod sanitize;
pub mod validate;

use crate::blkextends::{blk_expansion, blk_resolvable, expand_blocks};
use crate::extends::{expand_fieldsets, fs_expansion, fs_resolvable};
use crate::ir::views;
use crate::ir::{Ir, SpecBlock, SpecFieldSet, SpecIr};
use crate::output::{render_output, spec_output, CommonModule};
use crate::rename::spec_rename;
use crate::sanitize::{
    pascal_ir, sanitize_ir, sort_ir, spec_names_unique, spec_pascal_ir, spec_sanitize_ir,
    spec_sort_ir,
};
use crate::validate::{spec_valid, spec_validate, validate, ValidateOptions};
use vstd::prelude::*;

verus! {

/// Why a pipeline run was refused: the validator's report, an extends edge
/// that cannot resolve, or an unrecoverable naming collision after
/// sanitization.
#[derive(Debug)]
pub enum Error {
    Validation { messages: Vec<Vec<u8>> },
    Expansion { name: Vec<u8> },
    Sanitize,
}

/// The policy this pipeline validates under: register and field overlap are
/// tolerated, duplicate enum values are refused, unused enums and fieldsets
/// are tolerated.
pub open spec fn pac_policy() -> ValidateOptions {
    ValidateOptions {
        allow_register_overlap: true,
        allow_field_overlap: true,
        allow_enum_dup_value: false,
        allow_unused_enums: true,
        allow_unused_fieldsets: true,
    }
}

fn make_pac_policy() -> (r: ValidateOptions)
    ensures
        r == pac_policy(),
{
    ValidateOptions {
        allow_register_overlap: true,
        allow_field_overlap: true,
        allow_enum_dup_value: false,
        allow_unused_enums: true,
        allow_unused_fieldsets: true,
    }
}

/// Every fieldset flattened to its full member list, edges gone.
pub open spec fn exp_fieldsets_spec(s: Seq<SpecFieldSet>) -> Seq<SpecFieldSet> {
    Seq::new(
        s.len(),
        |i: int|
            SpecFieldSet {
                name: s[i].name,
                extends: Option::None,
                bit_size: s[i].bit_size,
                fields: fs_expansion(s, i),
            },
    )
}

/// Every block flattened to its full item list, edges gone.
pub open spec fn exp_blocks_spec(s: Seq<SpecBlock>) -> Seq<SpecBlock> {
    Seq::new(
        s.len(),
        |i: int| SpecBlock { name: s[i].name, extends: Option::None, items: blk_expansion(s, i) },
    )
}

pub open spec fn spec_expand_ir(ir: SpecIr) -> SpecIr {
    SpecIr {
        devices: ir.devices,
        blocks: exp_blocks_spec(ir.blocks),
        fieldsets: exp_fieldsets_spec(ir.fieldsets),
        enums: ir.enums,
    }
}

/// Every extends chain in the graph reaches a concrete entity.
pub open spec fn spec_resolvable_ir(ir: SpecIr) -> bool {
    &&& forall|i: int| 0 <= i < ir.fieldsets.len() ==> fs_resolvable(ir.fieldsets, i)
    &&& forall|i: int| 0 <= i < ir.blocks.len() ==> blk_resolvable(ir.blocks, i)
}

/// The graph after every transform pass, in pipeline order: expansion,
/// renaming, sorting, sanitization, variant-name rewriting.
pub open spec fn spec_pipeline(ir: SpecIr) -> SpecIr {
    spec_pascal_ir(spec_sanitize_ir(spec_sort_ir(spec_rename(spec_expand_ir(ir)))))
}

/// The bytes a successful run produces from a graph and a strategy.
pub open spec fn spec_gen_output(ir: SpecIr, cm: CommonModule) -> Seq<u8> {
    spec_output(spec_pipeline(ir), cm)
}

/// The inputs on which a run succeeds: the validator is silent, every
/// extends edge resolves, and sanitization caused no collision.
pub open spec fn spec_gen_ok(ir: SpecIr) -> bool {
    &&& spec_valid(ir, pac_policy())
    &&& spec_resolvable_ir(ir)
    &&& spec_names_unique(spec_sanitize_ir(spec_sort_ir(spec_rename(spec_expand_ir(ir)))))
}

pub open spec fn cm_of(builtin_common: bool) -> CommonModule {
    if builtin_common {
        CommonModule::Builtin
    } else {
        CommonModule::External
    }
}

/// Determinism: two runs over the same graph and the same configuration
/// produce byte-identical output.
pub proof fn lemma_gen_deterministic(a: SpecIr, b: SpecIr, cm: CommonModule)
    requires
        a == b,
    ensures
        spec_gen_output(a, cm) == spec_gen_output(b, cm),
{
}

/// Runs the whole pipeline over a merged graph and returns the generated
/// source text, or the first failure: the validator's full report, the name
/// of an entity whose extends edge cannot resolve, or the sanitizer's
/// collision.
pub fn gen_pac(ir: Ir, builtin_common: bool) -> (r: Result<Vec<u8>, Error>)
    ensures
        match r {
            Result::Ok(data) => spec_gen_ok(ir@) && data@ == spec_gen_output(
                ir@,
                cm_of(builtin_common),
            ),
            Result::Err(e) => match e {
                Error::Validation { messages } => !spec_valid(ir@, pac_policy()) && views(
                    messages@,
                ) == spec_validate(ir@, pac_policy()),
                Error::Expansion { name } => (exists|i: int|
                    0 <= i < ir@.fieldsets.len() && !fs_resolvable(ir@.fieldsets, i) && (
                    #[trigger] ir@.fieldsets[i]).name == name@) || (exists|i: int|
                    0 <= i < ir@.blocks.len() && !blk_resolvable(ir@.blocks, i) && (
                    #[trigger] ir@.blocks[i]).name == name@),
                Error::Sanitize => !spec_names_unique(
                    spec_sanitize_ir(spec_sort_ir(spec_rename(spec_expand_ir(ir@)))),
                ),
            },
        },
{
    let policy = make_pac_policy();
    let messages = validate(&ir, policy);
    if messages.len() > 0 {
        return Result::Err(Error::Validation { messages });
    }
    let ghost g0 = ir@;
    let Ir { devices, blocks, fieldsets, enums } = ir;
    let fieldsets = match expand_fieldsets(fieldsets) {
        Result::Ok(f) => f,
        Result::Err(name) => {
            return Result::Err(Error::Expansion { name });
        },
    };
    let blocks = match expand_blocks(blocks) {
        Result::Ok(b) => b,
        Result::Err(name) => {
            return Result::Err(Error::Expansion { name });
        },
    };
    let ir2 = Ir { devices, blocks, fieldsets, enums };
    proof {
        assert(views(ir2.fieldsets@) =~= exp_fieldsets_spec(g0.fieldsets));
        assert(views(ir2.blocks@) =~= exp_blocks_spec(g0.blocks));
        assert(ir2@ == spec_expand_ir(g0));
    }
    let ir3 = crate::rename::rename_ir(ir2);
    let ir4 = sort_ir(ir3);
    let ir5 = match sanitize_ir(ir4) {
        Result::Ok(o) => o,
        Result::Err(u) => {
            return Result::Err(Error::Sanitize);
        },
    };
    let ir6 = pascal_ir(ir5);
    proof {
        assert(ir6@ == spec_pipeline(g0));
    }
    let data = render_output(&ir6, if builtin_common {
        CommonModule::Builtin
    } else {
        CommonModule::External
    });
    Result::Ok(data)
}

} // verus!
