use yaml2pac::ir::{Block, BlockItem, BlockItemInner, Device, Enum, EnumVariant, Field, FieldSet, Ir, Peripheral};
use yaml2pac::Error;

fn name(s: &str) -> Vec<u8> {
    s.as_bytes().to_vec()
}

fn field(n: &str, off: u64, sz: u64, en: Option<&str>) -> Field {
    Field { name: name(n), bit_offset: off, bit_size: sz, enumm: en.map(name) }
}

fn fieldset(n: &str, ext: Option<&str>, bits: u64, fields: Vec<Field>) -> FieldSet {
    FieldSet { name: name(n), extends: ext.map(name), bit_size: bits, fields }
}

fn reg(n: &str, off: u64, bits: u64, fs: Option<&str>) -> BlockItem {
    BlockItem {
        name: name(n),
        byte_offset: off,
        inner: BlockItemInner::Register { bit_size: bits, fieldset: fs.map(name) },
    }
}

fn block(n: &str, ext: Option<&str>, items: Vec<BlockItem>) -> Block {
    Block { name: name(n), extends: ext.map(name), items }
}

fn enum_of(n: &str, bits: u64, vs: Vec<(&str, u64)>) -> Enum {
    Enum {
        name: name(n),
        bit_size: bits,
        variants: vs.into_iter().map(|(vn, v)| EnumVariant { name: name(vn), value: v }).collect(),
    }
}

fn usart_ir() -> Ir {
    Ir {
        devices: vec![Device {
            name: name("Chip"),
            peripherals: vec![Peripheral {
                name: name("USART1"),
                base_address: 0x4000_0000,
                block: name("Usart"),
            }],
        }],
        blocks: vec![block("Usart", None, vec![reg("cr1", 0, 16, Some("Cr1"))])],
        fieldsets: vec![fieldset("Cr1", None, 16, vec![field("Enable", 0, 1, Some("OnOff"))])],
        enums: vec![enum_of("OnOff", 1, vec![("off", 0), ("on", 1)])],
    }
}

fn text(v: &[u8]) -> String {
    String::from_utf8(v.to_vec()).unwrap()
}

#[test]
fn end_to_end_usart() {
    let out = yaml2pac::gen_pac(usart_ir(), true).unwrap();
    let s = text(&out);
    assert!(s.contains("fieldset regs::Cr1 @ 16"));
    assert!(s.contains("  field Enable @ 0 + 1: vals::OnOff"));
    assert!(s.contains("enum vals::OnOff @ 1"));
    assert!(s.contains("  variant Off = 0"));
    assert!(s.contains("  variant On = 1"));
    assert!(s.contains("block Usart"));
    assert!(s.contains("  reg cr1 @ 0 + 16: regs::Cr1"));
    assert!(s.starts_with("#![allow(clippy::missing_safety_doc)]"));
}

#[test]
fn deterministic_output() {
    let a = yaml2pac::gen_pac(usart_ir(), true).unwrap();
    let b = yaml2pac::gen_pac(usart_ir(), true).unwrap();
    assert_eq!(a, b);
}

#[test]
fn builtin_and_external_common() {
    let a = yaml2pac::gen_pac(usart_ir(), true).unwrap();
    let b = yaml2pac::gen_pac(usart_ir(), false).unwrap();
    assert!(text(&a).contains("pub mod common"));
    assert!(!text(&b).contains("pub mod common"));
    assert!(text(&b).contains("use crate::common;"));
}

#[test]
fn merge_disjoint_either_order() {
    let mut a = Ir::new();
    a.merge(Ir { devices: vec![], blocks: vec![block("B1", None, vec![])], fieldsets: vec![], enums: vec![] });
    a.merge(Ir { devices: vec![], blocks: vec![block("B2", None, vec![])], fieldsets: vec![], enums: vec![] });
    let mut b = Ir::new();
    b.merge(Ir { devices: vec![], blocks: vec![block("B2", None, vec![])], fieldsets: vec![], enums: vec![] });
    b.merge(Ir { devices: vec![], blocks: vec![block("B1", None, vec![])], fieldsets: vec![], enums: vec![] });
    // the two orders hold the same entities, and generation sorts them into
    // the same bytes
    let ga = yaml2pac::gen_pac(a, true).unwrap();
    let gb = yaml2pac::gen_pac(b, true).unwrap();
    assert_eq!(ga, gb);
}

#[test]
fn merge_last_wins() {
    let mut a = Ir::new();
    a.merge(Ir { devices: vec![], blocks: vec![], fieldsets: vec![fieldset("F", None, 8, vec![])], enums: vec![] });
    a.merge(Ir {
        devices: vec![],
        blocks: vec![],
        fieldsets: vec![fieldset("F", None, 32, vec![])],
        enums: vec![],
    });
    assert_eq!(a.fieldsets.len(), 1);
    assert_eq!(a.fieldsets[0].bit_size, 32);
}

#[test]
fn extends_flattening_with_override() {
    let ir = Ir {
        devices: vec![],
        blocks: vec![],
        fieldsets: vec![
            fieldset("Base", None, 16, vec![field("f1", 0, 1, None), field("f2", 1, 1, None)]),
            fieldset(
                "Child",
                Some("Base"),
                16,
                vec![field("f2", 2, 2, None), field("f3", 4, 1, None)],
            ),
        ],
        enums: vec![],
    };
    let out = yaml2pac::extends::expand_fieldsets(ir.fieldsets).unwrap();
    assert!(out.iter().all(|fs| fs.extends.is_none()));
    let child = &out[1];
    let names: Vec<String> =
        child.fields.iter().map(|f| String::from_utf8(f.name.clone()).unwrap()).collect();
    // base order kept, the override replaced in place, the new field appended
    assert_eq!(names, vec!["f1", "f2", "f3"]);
    assert_eq!(child.fields[1].bit_offset, 2);
    assert_eq!(child.fields[1].bit_size, 2);
}

#[test]
fn extends_cycle_is_refused() {
    let ir = Ir {
        devices: vec![],
        blocks: vec![],
        fieldsets: vec![
            fieldset("A", Some("B"), 8, vec![]),
            fieldset("B", Some("A"), 8, vec![]),
        ],
        enums: vec![],
    };
    match yaml2pac::gen_pac(ir, true) {
        Err(Error::Expansion { name }) => {
            let n = text(&name);
            assert!(n == "A" || n == "B");
        },
        _ => panic!("a cyclic extends graph must be refused"),
    }
}

#[test]
fn extends_unknown_target_is_refused() {
    let fss = vec![fieldset("A", Some("Missing"), 8, vec![])];
    match yaml2pac::extends::expand_fieldsets(fss) {
        Err(name) => assert_eq!(text(&name), "A"),
        Ok(_) => panic!("an unknown extends target must be refused"),
    }
}

#[test]
fn sort_orders_entities_and_members() {
    let ir = Ir {
        devices: vec![],
        blocks: vec![],
        fieldsets: vec![
            fieldset("Zeta", None, 8, vec![field("b", 4, 1, None), field("a", 0, 1, None)]),
            fieldset("Alpha", None, 8, vec![]),
        ],
        enums: vec![],
    };
    let sorted = yaml2pac::sanitize::sort_ir(ir);
    assert_eq!(text(&sorted.fieldsets[0].name), "Alpha");
    assert_eq!(text(&sorted.fieldsets[1].name), "Zeta");
    assert_eq!(text(&sorted.fieldsets[1].fields[0].name), "a");
    assert_eq!(text(&sorted.fieldsets[1].fields[1].name), "b");
}

#[test]
fn sort_is_idempotent() {
    let ir = Ir {
        devices: vec![],
        blocks: vec![],
        fieldsets: vec![
            fieldset("B", None, 8, vec![]),
            fieldset("A", None, 8, vec![]),
        ],
        enums: vec![],
    };
    let once = yaml2pac::sanitize::sort_ir(ir);
    let names1: Vec<Vec<u8>> = once.fieldsets.iter().map(|f| f.name.clone()).collect();
    let twice = yaml2pac::sanitize::sort_ir(once);
    let names2: Vec<Vec<u8>> = twice.fieldsets.iter().map(|f| f.name.clone()).collect();
    assert_eq!(names1, names2);
}

#[test]
fn sanitize_keeps_valid_names() {
    assert_eq!(yaml2pac::sanitize::sanitize_name(&name("Cr1")), name("Cr1"));
    assert_eq!(yaml2pac::sanitize::sanitize_name(&name("regs::Cr1")), name("regs::Cr1"));
}

#[test]
fn sanitize_rewrites_illegal_names() {
    assert_eq!(yaml2pac::sanitize::sanitize_name(&name("a-b")), name("a_b"));
    assert_eq!(yaml2pac::sanitize::sanitize_name(&name("2x")), name("_2x"));
    assert_eq!(yaml2pac::sanitize::sanitize_name(&name("enum")), name("enum_"));
}

#[test]
fn sanitize_collision_is_refused() {
    let ir = Ir {
        devices: vec![],
        blocks: vec![],
        fieldsets: vec![
            fieldset("a-b", None, 8, vec![]),
            fieldset("a_b", None, 8, vec![]),
        ],
        enums: vec![],
    };
    match yaml2pac::gen_pac(ir, true) {
        Err(Error::Sanitize) => {},
        _ => panic!("a sanitized-name collision must be refused"),
    }
}

#[test]
fn validation_gates_field_overlap() {
    let ir = Ir {
        devices: vec![],
        blocks: vec![],
        fieldsets: vec![fieldset(
            "Cr1",
            None,
            16,
            vec![field("a", 0, 4, None), field("b", 2, 4, None)],
        )],
        enums: vec![],
    };
    let strict = yaml2pac::validate::ValidateOptions {
        allow_register_overlap: false,
        allow_field_overlap: false,
        allow_enum_dup_value: false,
        allow_unused_enums: true,
        allow_unused_fieldsets: true,
    };
    let msgs = yaml2pac::validate::validate(&ir, strict);
    assert_eq!(msgs.len(), 1);
    assert_eq!(text(&msgs[0]), "overlapping fields in fieldset Cr1");
    let lenient = yaml2pac::validate::ValidateOptions { allow_field_overlap: true, ..strict };
    assert!(yaml2pac::validate::validate(&ir, lenient).is_empty());
}

#[test]
fn validation_reports_duplicate_enum_values() {
    let ir = Ir {
        devices: vec![],
        blocks: vec![],
        fieldsets: vec![],
        enums: vec![enum_of("E", 1, vec![("x", 0), ("y", 0)])],
    };
    match yaml2pac::gen_pac(ir, true) {
        Err(Error::Validation { messages }) => {
            assert_eq!(messages.len(), 1);
            assert_eq!(text(&messages[0]), "duplicate value in enum E");
        },
        _ => panic!("duplicate enum values must be refused under the policy"),
    }
}

#[test]
fn unused_enum_policy() {
    let ir = Ir {
        devices: vec![],
        blocks: vec![],
        fieldsets: vec![],
        enums: vec![enum_of("Lone", 1, vec![("off", 0)])],
    };
    // the pipeline's policy tolerates unused enums
    assert!(yaml2pac::gen_pac(ir, true).is_ok());
    let strict = yaml2pac::validate::ValidateOptions {
        allow_register_overlap: true,
        allow_field_overlap: true,
        allow_enum_dup_value: false,
        allow_unused_enums: false,
        allow_unused_fieldsets: true,
    };
    let ir2 = Ir {
        devices: vec![],
        blocks: vec![],
        fieldsets: vec![],
        enums: vec![enum_of("Lone", 1, vec![("off", 0)])],
    };
    let msgs = yaml2pac::validate::validate(&ir2, strict);
    assert_eq!(msgs.len(), 1);
    assert_eq!(text(&msgs[0]), "unused enum Lone");
}

#[test]
fn validation_reports_unresolved_reference() {
    let ir = Ir {
        devices: vec![],
        blocks: vec![block("Usart", None, vec![reg("cr1", 0, 16, Some("Nowhere"))])],
        fieldsets: vec![],
        enums: vec![],
    };
    match yaml2pac::gen_pac(ir, true) {
        Err(Error::Validation { messages }) => {
            assert_eq!(messages.len(), 1);
            assert_eq!(text(&messages[0]), "unresolved reference in block Usart");
        },
        _ => panic!("a dangling reference must be refused"),
    }
}

#[test]
fn postprocess_breaks_after_brackets() {
    let out = yaml2pac::output::apply_nl_brackets(&name("a] b] c"));
    assert_eq!(text(&out), "a]\nb]\nc");
}

#[test]
fn postprocess_strips_inner_directives() {
    let input = name("keep\n#![no_std]\n # ! [allow(x)] \nalso keep");
    let out = yaml2pac::output::apply_strip_lines(&input);
    assert_eq!(text(&out), "keep\nalso keep");
}

#[test]
fn variant_names_are_capitalized_words() {
    let p = yaml2pac::sanitize::pascal_name(&name("rx_enable"));
    assert_eq!(text(&p), "RxEnable");
    let p = yaml2pac::sanitize::pascal_name(&name("OFF"));
    assert_eq!(text(&p), "Off");
}
