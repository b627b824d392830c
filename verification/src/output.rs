//! The code-emission backend and the textual post-processing of its output.
//! The renderer turns the finalized graph into deterministic source text,
//! one declaration per entity with its members indented below it, preceded
//! by the shared runtime support (emitted inline under the builtin strategy,
//! referenced under the external one). Post-processing then breaks the line
//! after every closing bracket followed by a space and strips module-level
//! inner-directive lines, which would be illegal when the output is included
//! into a larger file.
use crate::bytes::push_bytes;
use crate::ir::views;
use crate::ir::{
    Block, BlockItem, BlockItemInner, Device, Enum, EnumVariant, Field, FieldSet, Ir, Peripheral,
    SpecBlock, SpecBlockItem, SpecBlockItemInner, SpecDevice, SpecEnum, SpecEnumVariant, SpecField,
    SpecFieldSet, SpecIr, SpecPeripheral,
};
use vstd::prelude::*;

verus! {

/// How the shared runtime-support code reaches the output: emitted inline,
/// or referenced as a module that exists beside the generated file.
#[derive(Clone, Copy, PartialEq, Eq, Structural)]
pub enum CommonModule {
    Builtin,
    External,
}

/// The decimal digits of a number, most significant first.
pub open spec fn dec_of(n: nat) -> Seq<u8>
    decreases n,
{
    if n < 10 {
        seq![(48 + n) as u8]
    } else {
        dec_of(n / 10).push((48 + n % 10) as u8)
    }
}

/// Renders a number in decimal.
pub fn dec(n: u64) -> (r: Vec<u8>)
    ensures
        r@ == dec_of(n as nat),
    decreases n,
{
    if n < 10 {
        let mut v: Vec<u8> = Vec::new();
        v.push(48 + (n as u8));
        proof {
            assert(v@ =~= dec_of(n as nat));
        }
        v
    } else {
        let mut v = dec(n / 10);
        v.push(48 + ((n % 10) as u8));
        v
    }
}

pub open spec fn header_text_part0() -> Seq<u8> {
    seq![35u8, 33u8, 91u8, 97u8, 108u8, 108u8, 111u8, 119u8, 40u8, 99u8, 108u8, 105u8, 112u8, 112u8, 121u8, 58u8, 58u8, 109u8, 105u8, 115u8]
}

fn make_header_text_part0() -> (r: Vec<u8>)
    ensures
        r@ == header_text_part0(),
{
    let mut r: Vec<u8> = Vec::new();
    r.push(35u8);
    r.push(33u8);
    r.push(91u8);
    r.push(97u8);
    r.push(108u8);
    r.push(108u8);
    r.push(111u8);
    r.push(119u8);
    r.push(40u8);
    r.push(99u8);
    r.push(108u8);
    r.push(105u8);
    r.push(112u8);
    r.push(112u8);
    r.push(121u8);
    r.push(58u8);
    r.push(58u8);
    r.push(109u8);
    r.push(105u8);
    r.push(115u8);
    proof {
        assert(r@ =~= header_text_part0());
    }
    r
}

pub open spec fn header_text_part1() -> Seq<u8> {
    seq![115u8, 105u8, 110u8, 103u8, 95u8, 115u8, 97u8, 102u8, 101u8, 116u8, 121u8, 95u8, 100u8, 111u8, 99u8, 41u8, 93u8, 10u8, 35u8, 33u8]
}

fn make_header_text_part1() -> (r: Vec<u8>)
    ensures
        r@ == header_text_part1(),
{
    let mut r: Vec<u8> = Vec::new();
    r.push(115u8);
    r.push(105u8);
    r.push(110u8);
    r.push(103u8);
    r.push(95u8);
    r.push(115u8);
    r.push(97u8);
    r.push(102u8);
    r.push(101u8);
    r.push(116u8);
    r.push(121u8);
    r.push(95u8);
    r.push(100u8);
    r.push(111u8);
    r.push(99u8);
    r.push(41u8);
    r.push(93u8);
    r.push(10u8);
    r.push(35u8);
    r.push(33u8);
    proof {
        assert(r@ =~= header_text_part1());
    }
    r
}

pub open spec fn header_text_part2() -> Seq<u8> {
    seq![91u8, 97u8, 108u8, 108u8, 111u8, 119u8, 40u8, 99u8, 108u8, 105u8, 112u8, 112u8, 121u8, 58u8, 58u8, 105u8, 100u8, 101u8, 110u8, 116u8]
}

fn make_header_text_part2() -> (r: Vec<u8>)
    ensures
        r@ == header_text_part2(),
{
    let mut r: Vec<u8> = Vec::new();
    r.push(91u8);
    r.push(97u8);
    r.push(108u8);
    r.push(108u8);
    r.push(111u8);
    r.push(119u8);
    r.push(40u8);
    r.push(99u8);
    r.push(108u8);
    r.push(105u8);
    r.push(112u8);
    r.push(112u8);
    r.push(121u8);
    r.push(58u8);
    r.push(58u8);
    r.push(105u8);
    r.push(100u8);
    r.push(101u8);
    r.push(110u8);
    r.push(116u8);
    proof {
        assert(r@ =~= header_text_part2());
    }
    r
}

pub open spec fn header_text_part3() -> Seq<u8> {
    seq![105u8, 116u8, 121u8, 95u8, 111u8, 112u8, 41u8, 93u8, 10u8, 35u8, 33u8, 91u8, 97u8, 108u8, 108u8, 111u8, 119u8, 40u8, 99u8, 108u8]
}

fn make_header_text_part3() -> (r: Vec<u8>)
    ensures
        r@ == header_text_part3(),
{
    let mut r: Vec<u8> = Vec::new();
    r.push(105u8);
    r.push(116u8);
    r.push(121u8);
    r.push(95u8);
    r.push(111u8);
    r.push(112u8);
    r.push(41u8);
    r.push(93u8);
    r.push(10u8);
    r.push(35u8);
    r.push(33u8);
    r.push(91u8);
    r.push(97u8);
    r.push(108u8);
    r.push(108u8);
    r.push(111u8);
    r.push(119u8);
    r.push(40u8);
    r.push(99u8);
    r.push(108u8);
    proof {
        assert(r@ =~= header_text_part3());
    }
    r
}

pub open spec fn header_text_part4() -> Seq<u8> {
    seq![105u8, 112u8, 112u8, 121u8, 58u8, 58u8, 117u8, 110u8, 110u8, 101u8, 99u8, 101u8, 115u8, 115u8, 97u8, 114u8, 121u8, 95u8, 99u8, 97u8]
}

fn make_header_text_part4() -> (r: Vec<u8>)
    ensures
        r@ == header_text_part4(),
{
    let mut r: Vec<u8> = Vec::new();
    r.push(105u8);
    r.push(112u8);
    r.push(112u8);
    r.push(121u8);
    r.push(58u8);
    r.push(58u8);
    r.push(117u8);
    r.push(110u8);
    r.push(110u8);
    r.push(101u8);
    r.push(99u8);
    r.push(101u8);
    r.push(115u8);
    r.push(115u8);
    r.push(97u8);
    r.push(114u8);
    r.push(121u8);
    r.push(95u8);
    r.push(99u8);
    r.push(97u8);
    proof {
        assert(r@ =~= header_text_part4());
    }
    r
}

pub open spec fn header_text_part5() -> Seq<u8> {
    seq![115u8, 116u8, 41u8, 93u8, 10u8, 35u8, 33u8, 91u8, 97u8, 108u8, 108u8, 111u8, 119u8, 40u8, 99u8, 108u8, 105u8, 112u8, 112u8, 121u8]
}

fn make_header_text_part5() -> (r: Vec<u8>)
    ensures
        r@ == header_text_part5(),
{
    let mut r: Vec<u8> = Vec::new();
    r.push(115u8);
    r.push(116u8);
    r.push(41u8);
    r.push(93u8);
    r.push(10u8);
    r.push(35u8);
    r.push(33u8);
    r.push(91u8);
    r.push(97u8);
    r.push(108u8);
    r.push(108u8);
    r.push(111u8);
    r.push(119u8);
    r.push(40u8);
    r.push(99u8);
    r.push(108u8);
    r.push(105u8);
    r.push(112u8);
    r.push(112u8);
    r.push(121u8);
    proof {
        assert(r@ =~= header_text_part5());
    }
    r
}

pub open spec fn header_text_part6() -> Seq<u8> {
    seq![58u8, 58u8, 101u8, 114u8, 97u8, 115u8, 105u8, 110u8, 103u8, 95u8, 111u8, 112u8, 41u8, 93u8, 10u8]
}

fn make_header_text_part6() -> (r: Vec<u8>)
    ensures
        r@ == header_text_part6(),
{
    let mut r: Vec<u8> = Vec::new();
    r.push(58u8);
    r.push(58u8);
    r.push(101u8);
    r.push(114u8);
    r.push(97u8);
    r.push(115u8);
    r.push(105u8);
    r.push(110u8);
    r.push(103u8);
    r.push(95u8);
    r.push(111u8);
    r.push(112u8);
    r.push(41u8);
    r.push(93u8);
    r.push(10u8);
    proof {
        assert(r@ =~= header_text_part6());
    }
    r
}

/// A fixed piece of the output text, named in whole.
pub open spec fn header_text() -> Seq<u8> {
    header_text_part0() + header_text_part1() + header_text_part2() + header_text_part3() + header_text_part4() + header_text_part5() + header_text_part6()
}

fn make_header_text() -> (r: Vec<u8>)
    ensures
        r@ == header_text(),
{
    let mut r = make_header_text_part0();
    let p1 = make_header_text_part1();
    push_bytes(&mut r, &p1);
    let p2 = make_header_text_part2();
    push_bytes(&mut r, &p2);
    let p3 = make_header_text_part3();
    push_bytes(&mut r, &p3);
    let p4 = make_header_text_part4();
    push_bytes(&mut r, &p4);
    let p5 = make_header_text_part5();
    push_bytes(&mut r, &p5);
    let p6 = make_header_text_part6();
    push_bytes(&mut r, &p6);
    proof {
        assert(r@ =~= header_text());
    }
    r
}

pub open spec fn common_text_part0() -> Seq<u8> {
    seq![112u8, 117u8, 98u8, 32u8, 109u8, 111u8, 100u8, 32u8, 99u8, 111u8, 109u8, 109u8, 111u8, 110u8, 32u8, 123u8, 32u8, 112u8, 117u8, 98u8]
}

fn make_common_text_part0() -> (r: Vec<u8>)
    ensures
        r@ == common_text_part0(),
{
    let mut r: Vec<u8> = Vec::new();
    r.push(112u8);
    r.push(117u8);
    r.push(98u8);
    r.push(32u8);
    r.push(109u8);
    r.push(111u8);
    r.push(100u8);
    r.push(32u8);
    r.push(99u8);
    r.push(111u8);
    r.push(109u8);
    r.push(109u8);
    r.push(111u8);
    r.push(110u8);
    r.push(32u8);
    r.push(123u8);
    r.push(32u8);
    r.push(112u8);
    r.push(117u8);
    r.push(98u8);
    proof {
        assert(r@ =~= common_text_part0());
    }
    r
}

pub open spec fn common_text_part1() -> Seq<u8> {
    seq![32u8, 102u8, 110u8, 32u8, 114u8, 101u8, 97u8, 100u8, 95u8, 114u8, 101u8, 103u8, 40u8, 97u8, 58u8, 32u8, 117u8, 54u8, 52u8, 41u8]
}

fn make_common_text_part1() -> (r: Vec<u8>)
    ensures
        r@ == common_text_part1(),
{
    let mut r: Vec<u8> = Vec::new();
    r.push(32u8);
    r.push(102u8);
    r.push(110u8);
    r.push(32u8);
    r.push(114u8);
    r.push(101u8);
    r.push(97u8);
    r.push(100u8);
    r.push(95u8);
    r.push(114u8);
    r.push(101u8);
    r.push(103u8);
    r.push(40u8);
    r.push(97u8);
    r.push(58u8);
    r.push(32u8);
    r.push(117u8);
    r.push(54u8);
    r.push(52u8);
    r.push(41u8);
    proof {
        assert(r@ =~= common_text_part1());
    }
    r
}

pub open spec fn common_text_part2() -> Seq<u8> {
    seq![32u8, 45u8, 62u8, 32u8, 117u8, 54u8, 52u8, 32u8, 123u8, 32u8, 97u8, 32u8, 125u8, 32u8, 112u8, 117u8, 98u8, 32u8, 102u8, 110u8]
}

fn make_common_text_part2() -> (r: Vec<u8>)
    ensures
        r@ == common_text_part2(),
{
    let mut r: Vec<u8> = Vec::new();
    r.push(32u8);
    r.push(45u8);
    r.push(62u8);
    r.push(32u8);
    r.push(117u8);
    r.push(54u8);
    r.push(52u8);
    r.push(32u8);
    r.push(123u8);
    r.push(32u8);
    r.push(97u8);
    r.push(32u8);
    r.push(125u8);
    r.push(32u8);
    r.push(112u8);
    r.push(117u8);
    r.push(98u8);
    r.push(32u8);
    r.push(102u8);
    r.push(110u8);
    proof {
        assert(r@ =~= common_text_part2());
    }
    r
}

pub open spec fn common_text_part3() -> Seq<u8> {
    seq![32u8, 119u8, 114u8, 105u8, 116u8, 101u8, 95u8, 114u8, 101u8, 103u8, 40u8, 97u8, 58u8, 32u8, 117u8, 54u8, 52u8, 44u8, 32u8, 118u8]
}

fn make_common_text_part3() -> (r: Vec<u8>)
    ensures
        r@ == common_text_part3(),
{
    let mut r: Vec<u8> = Vec::new();
    r.push(32u8);
    r.push(119u8);
    r.push(114u8);
    r.push(105u8);
    r.push(116u8);
    r.push(101u8);
    r.push(95u8);
    r.push(114u8);
    r.push(101u8);
    r.push(103u8);
    r.push(40u8);
    r.push(97u8);
    r.push(58u8);
    r.push(32u8);
    r.push(117u8);
    r.push(54u8);
    r.push(52u8);
    r.push(44u8);
    r.push(32u8);
    r.push(118u8);
    proof {
        assert(r@ =~= common_text_part3());
    }
    r
}

pub open spec fn common_text_part4() -> Seq<u8> {
    seq![58u8, 32u8, 117u8, 54u8, 52u8, 41u8, 32u8, 45u8, 62u8, 32u8, 117u8, 54u8, 52u8, 32u8, 123u8, 32u8, 118u8, 32u8, 125u8, 32u8]
}

fn make_common_text_part4() -> (r: Vec<u8>)
    ensures
        r@ == common_text_part4(),
{
    let mut r: Vec<u8> = Vec::new();
    r.push(58u8);
    r.push(32u8);
    r.push(117u8);
    r.push(54u8);
    r.push(52u8);
    r.push(41u8);
    r.push(32u8);
    r.push(45u8);
    r.push(62u8);
    r.push(32u8);
    r.push(117u8);
    r.push(54u8);
    r.push(52u8);
    r.push(32u8);
    r.push(123u8);
    r.push(32u8);
    r.push(118u8);
    r.push(32u8);
    r.push(125u8);
    r.push(32u8);
    proof {
        assert(r@ =~= common_text_part4());
    }
    r
}

pub open spec fn common_text_part5() -> Seq<u8> {
    seq![125u8, 10u8]
}

fn make_common_text_part5() -> (r: Vec<u8>)
    ensures
        r@ == common_text_part5(),
{
    let mut r: Vec<u8> = Vec::new();
    r.push(125u8);
    r.push(10u8);
    proof {
        assert(r@ =~= common_text_part5());
    }
    r
}

/// A fixed piece of the output text, named in whole.
pub open spec fn common_text() -> Seq<u8> {
    common_text_part0() + common_text_part1() + common_text_part2() + common_text_part3() + common_text_part4() + common_text_part5()
}

fn make_common_text() -> (r: Vec<u8>)
    ensures
        r@ == common_text(),
{
    let mut r = make_common_text_part0();
    let p1 = make_common_text_part1();
    push_bytes(&mut r, &p1);
    let p2 = make_common_text_part2();
    push_bytes(&mut r, &p2);
    let p3 = make_common_text_part3();
    push_bytes(&mut r, &p3);
    let p4 = make_common_text_part4();
    push_bytes(&mut r, &p4);
    let p5 = make_common_text_part5();
    push_bytes(&mut r, &p5);
    proof {
        assert(r@ =~= common_text());
    }
    r
}

pub open spec fn external_text() -> Seq<u8> {
    seq![117u8, 115u8, 101u8, 32u8, 99u8, 114u8, 97u8, 116u8, 101u8, 58u8, 58u8, 99u8, 111u8, 109u8, 109u8, 111u8, 110u8, 59u8, 32u8, 10u8]
}

fn make_external_text() -> (r: Vec<u8>)
    ensures
        r@ == external_text(),
{
    let mut r: Vec<u8> = Vec::new();
    r.push(117u8);
    r.push(115u8);
    r.push(101u8);
    r.push(32u8);
    r.push(99u8);
    r.push(114u8);
    r.push(97u8);
    r.push(116u8);
    r.push(101u8);
    r.push(58u8);
    r.push(58u8);
    r.push(99u8);
    r.push(111u8);
    r.push(109u8);
    r.push(109u8);
    r.push(111u8);
    r.push(110u8);
    r.push(59u8);
    r.push(32u8);
    r.push(10u8);
    proof {
        assert(r@ =~= external_text());
    }
    r
}

pub open spec fn p_field() -> Seq<u8> {
    seq![32u8, 32u8, 102u8, 105u8, 101u8, 108u8, 100u8, 32u8]
}

fn make_p_field() -> (r: Vec<u8>)
    ensures
        r@ == p_field(),
{
    let mut r: Vec<u8> = Vec::new();
    r.push(32u8);
    r.push(32u8);
    r.push(102u8);
    r.push(105u8);
    r.push(101u8);
    r.push(108u8);
    r.push(100u8);
    r.push(32u8);
    proof {
        assert(r@ =~= p_field());
    }
    r
}

pub open spec fn p_reg() -> Seq<u8> {
    seq![32u8, 32u8, 114u8, 101u8, 103u8, 32u8]
}

fn make_p_reg() -> (r: Vec<u8>)
    ensures
        r@ == p_reg(),
{
    let mut r: Vec<u8> = Vec::new();
    r.push(32u8);
    r.push(32u8);
    r.push(114u8);
    r.push(101u8);
    r.push(103u8);
    r.push(32u8);
    proof {
        assert(r@ =~= p_reg());
    }
    r
}

pub open spec fn p_sub() -> Seq<u8> {
    seq![32u8, 32u8, 115u8, 117u8, 98u8, 32u8]
}

fn make_p_sub() -> (r: Vec<u8>)
    ensures
        r@ == p_sub(),
{
    let mut r: Vec<u8> = Vec::new();
    r.push(32u8);
    r.push(32u8);
    r.push(115u8);
    r.push(117u8);
    r.push(98u8);
    r.push(32u8);
    proof {
        assert(r@ =~= p_sub());
    }
    r
}

pub open spec fn p_variant() -> Seq<u8> {
    seq![32u8, 32u8, 118u8, 97u8, 114u8, 105u8, 97u8, 110u8, 116u8, 32u8]
}

fn make_p_variant() -> (r: Vec<u8>)
    ensures
        r@ == p_variant(),
{
    let mut r: Vec<u8> = Vec::new();
    r.push(32u8);
    r.push(32u8);
    r.push(118u8);
    r.push(97u8);
    r.push(114u8);
    r.push(105u8);
    r.push(97u8);
    r.push(110u8);
    r.push(116u8);
    r.push(32u8);
    proof {
        assert(r@ =~= p_variant());
    }
    r
}

pub open spec fn p_periph() -> Seq<u8> {
    seq![32u8, 32u8, 112u8, 101u8, 114u8, 105u8, 112u8, 104u8, 32u8]
}

fn make_p_periph() -> (r: Vec<u8>)
    ensures
        r@ == p_periph(),
{
    let mut r: Vec<u8> = Vec::new();
    r.push(32u8);
    r.push(32u8);
    r.push(112u8);
    r.push(101u8);
    r.push(114u8);
    r.push(105u8);
    r.push(112u8);
    r.push(104u8);
    r.push(32u8);
    proof {
        assert(r@ =~= p_periph());
    }
    r
}

pub open spec fn p_block() -> Seq<u8> {
    seq![98u8, 108u8, 111u8, 99u8, 107u8, 32u8]
}

fn make_p_block() -> (r: Vec<u8>)
    ensures
        r@ == p_block(),
{
    let mut r: Vec<u8> = Vec::new();
    r.push(98u8);
    r.push(108u8);
    r.push(111u8);
    r.push(99u8);
    r.push(107u8);
    r.push(32u8);
    proof {
        assert(r@ =~= p_block());
    }
    r
}

pub open spec fn p_fieldset() -> Seq<u8> {
    seq![102u8, 105u8, 101u8, 108u8, 100u8, 115u8, 101u8, 116u8, 32u8]
}

fn make_p_fieldset() -> (r: Vec<u8>)
    ensures
        r@ == p_fieldset(),
{
    let mut r: Vec<u8> = Vec::new();
    r.push(102u8);
    r.push(105u8);
    r.push(101u8);
    r.push(108u8);
    r.push(100u8);
    r.push(115u8);
    r.push(101u8);
    r.push(116u8);
    r.push(32u8);
    proof {
        assert(r@ =~= p_fieldset());
    }
    r
}

pub open spec fn p_enum() -> Seq<u8> {
    seq![101u8, 110u8, 117u8, 109u8, 32u8]
}

fn make_p_enum() -> (r: Vec<u8>)
    ensures
        r@ == p_enum(),
{
    let mut r: Vec<u8> = Vec::new();
    r.push(101u8);
    r.push(110u8);
    r.push(117u8);
    r.push(109u8);
    r.push(32u8);
    proof {
        assert(r@ =~= p_enum());
    }
    r
}

pub open spec fn p_device() -> Seq<u8> {
    seq![100u8, 101u8, 118u8, 105u8, 99u8, 101u8, 32u8]
}

fn make_p_device() -> (r: Vec<u8>)
    ensures
        r@ == p_device(),
{
    let mut r: Vec<u8> = Vec::new();
    r.push(100u8);
    r.push(101u8);
    r.push(118u8);
    r.push(105u8);
    r.push(99u8);
    r.push(101u8);
    r.push(32u8);
    proof {
        assert(r@ =~= p_device());
    }
    r
}

pub open spec fn p_at() -> Seq<u8> {
    seq![32u8, 64u8, 32u8]
}

fn make_p_at() -> (r: Vec<u8>)
    ensures
        r@ == p_at(),
{
    let mut r: Vec<u8> = Vec::new();
    r.push(32u8);
    r.push(64u8);
    r.push(32u8);
    proof {
        assert(r@ =~= p_at());
    }
    r
}

pub open spec fn p_plus() -> Seq<u8> {
    seq![32u8, 43u8, 32u8]
}

fn make_p_plus() -> (r: Vec<u8>)
    ensures
        r@ == p_plus(),
{
    let mut r: Vec<u8> = Vec::new();
    r.push(32u8);
    r.push(43u8);
    r.push(32u8);
    proof {
        assert(r@ =~= p_plus());
    }
    r
}

pub open spec fn p_colon() -> Seq<u8> {
    seq![58u8, 32u8]
}

fn make_p_colon() -> (r: Vec<u8>)
    ensures
        r@ == p_colon(),
{
    let mut r: Vec<u8> = Vec::new();
    r.push(58u8);
    r.push(32u8);
    proof {
        assert(r@ =~= p_colon());
    }
    r
}

pub open spec fn p_eq() -> Seq<u8> {
    seq![32u8, 61u8, 32u8]
}

fn make_p_eq() -> (r: Vec<u8>)
    ensures
        r@ == p_eq(),
{
    let mut r: Vec<u8> = Vec::new();
    r.push(32u8);
    r.push(61u8);
    r.push(32u8);
    proof {
        assert(r@ =~= p_eq());
    }
    r
}

pub open spec fn p_nl() -> Seq<u8> {
    seq![10u8]
}

fn make_p_nl() -> (r: Vec<u8>)
    ensures
        r@ == p_nl(),
{
    let mut r: Vec<u8> = Vec::new();
    r.push(10u8);
    proof {
        assert(r@ =~= p_nl());
    }
    r
}


pub open spec fn r_ref(p: Seq<u8>, o: Option<Seq<u8>>) -> Seq<u8> {
    match o {
        Option::Some(x) => p + x,
        Option::None => Seq::<u8>::empty(),
    }
}

/// One field line.
pub open spec fn r_field(f: SpecField) -> Seq<u8> {
    p_field() + f.name + p_at() + dec_of(f.bit_offset as nat) + p_plus() + dec_of(
        f.bit_size as nat,
    ) + r_ref(p_colon(), f.enumm) + p_nl()
}

pub open spec fn r_fields(s: Seq<SpecField>) -> Seq<u8>
    decreases s.len(),
{
    if s.len() == 0 {
        Seq::<u8>::empty()
    } else {
        r_fields(s.drop_last()) + r_field(s.last())
    }
}

/// One fieldset declaration with its fields below it.
pub open spec fn r_fieldset(fs: SpecFieldSet) -> Seq<u8> {
    p_fieldset() + fs.name + p_at() + dec_of(fs.bit_size as nat) + p_nl() + r_fields(fs.fields)
}

pub open spec fn r_fieldsets(s: Seq<SpecFieldSet>) -> Seq<u8>
    decreases s.len(),
{
    if s.len() == 0 {
        Seq::<u8>::empty()
    } else {
        r_fieldsets(s.drop_last()) + r_fieldset(s.last())
    }
}

/// One block item line: a register with its layout, or a sub-block.
pub open spec fn r_item(it: SpecBlockItem) -> Seq<u8> {
    match it.inner {
        SpecBlockItemInner::Register { bit_size, fieldset } => p_reg() + it.name + p_at() + dec_of(
            it.byte_offset as nat,
        ) + p_plus() + dec_of(bit_size as nat) + r_ref(p_colon(), fieldset) + p_nl(),
        SpecBlockItemInner::Block { block } => p_sub() + it.name + p_at() + dec_of(
            it.byte_offset as nat,
        ) + p_colon() + block + p_nl(),
    }
}

pub open spec fn r_items(s: Seq<SpecBlockItem>) -> Seq<u8>
    decreases s.len(),
{
    if s.len() == 0 {
        Seq::<u8>::empty()
    } else {
        r_items(s.drop_last()) + r_item(s.last())
    }
}

/// One block declaration with its items below it.
pub open spec fn r_block(b: SpecBlock) -> Seq<u8> {
    p_block() + b.name + p_nl() + r_items(b.items)
}

pub open spec fn r_blocks(s: Seq<SpecBlock>) -> Seq<u8>
    decreases s.len(),
{
    if s.len() == 0 {
        Seq::<u8>::empty()
    } else {
        r_blocks(s.drop_last()) + r_block(s.last())
    }
}

/// One enum variant line.
pub open spec fn r_variant(v: SpecEnumVariant) -> Seq<u8> {
    p_variant() + v.name + p_eq() + dec_of(v.value as nat) + p_nl()
}

pub open spec fn r_variants(s: Seq<SpecEnumVariant>) -> Seq<u8>
    decreases s.len(),
{
    if s.len() == 0 {
        Seq::<u8>::empty()
    } else {
        r_variants(s.drop_last()) + r_variant(s.last())
    }
}

/// One enum declaration with its variants below it.
pub open spec fn r_enum(e: SpecEnum) -> Seq<u8> {
    p_enum() + e.name + p_at() + dec_of(e.bit_size as nat) + p_nl() + r_variants(e.variants)
}

pub open spec fn r_enums(s: Seq<SpecEnum>) -> Seq<u8>
    decreases s.len(),
{
    if s.len() == 0 {
        Seq::<u8>::empty()
    } else {
        r_enums(s.drop_last()) + r_enum(s.last())
    }
}

/// One peripheral instance line.
pub open spec fn r_periph(p: SpecPeripheral) -> Seq<u8> {
    p_periph() + p.name + p_at() + dec_of(p.base_address as nat) + p_colon() + p.block + p_nl()
}

pub open spec fn r_periphs(s: Seq<SpecPeripheral>) -> Seq<u8>
    decreases s.len(),
{
    if s.len() == 0 {
        Seq::<u8>::empty()
    } else {
        r_periphs(s.drop_last()) + r_periph(s.last())
    }
}

/// One device declaration with its peripherals below it.
pub open spec fn r_device(d: SpecDevice) -> Seq<u8> {
    p_device() + d.name + p_nl() + r_periphs(d.peripherals)
}

pub open spec fn r_devices(s: Seq<SpecDevice>) -> Seq<u8>
    decreases s.len(),
{
    if s.len() == 0 {
        Seq::<u8>::empty()
    } else {
        r_devices(s.drop_last()) + r_device(s.last())
    }
}

/// The rendered source text of the whole graph: the shared runtime support
/// first (inline or referenced), then every entity in graph order.
pub open spec fn spec_render(ir: SpecIr, cm: CommonModule) -> Seq<u8> {
    (if cm is Builtin {
        common_text()
    } else {
        external_text()
    }) + r_devices(ir.devices) + r_blocks(ir.blocks) + r_fieldsets(ir.fieldsets) + r_enums(
        ir.enums,
    )
}


fn append_fields(out: &mut Vec<u8>, v: &Vec<Field>)
    ensures
        final(out)@ == old(out)@ + r_fields(views(v@)),
{
    let ghost s = views(v@);
    let mut i: usize = 0;
    proof {
        assert(s.take(0) =~= Seq::<SpecField>::empty());
        assert(out@ =~= old(out)@ + r_fields(s.take(0)));
    }
    while i < v.len()
        invariant
            s == views(v@),
            i <= v@.len(),
            out@ == old(out)@ + r_fields(s.take(i as int)),
        decreases v@.len() - i,
    {
        proof {
            assert(s[i as int] == v@[i as int]@);
            assert(s.take(i + 1).drop_last() =~= s.take(i as int));
            assert(s.take(i + 1).drop_last() == s.take(i as int));
            assert(s.take(i + 1).last() == s[i as int]);
        }
        append_field(out, &v[i]);
        proof {
            assert(out@ =~= old(out)@ + r_fields(s.take(i + 1)));
        }
        i = i + 1;
    }
    proof {
        assert(s.take(s.len() as int) =~= s);
        assert(s.take(s.len() as int) == s);
    }
}

fn append_items(out: &mut Vec<u8>, v: &Vec<BlockItem>)
    ensures
        final(out)@ == old(out)@ + r_items(views(v@)),
{
    let ghost s = views(v@);
    let mut i: usize = 0;
    proof {
        assert(s.take(0) =~= Seq::<SpecBlockItem>::empty());
        assert(out@ =~= old(out)@ + r_items(s.take(0)));
    }
    while i < v.len()
        invariant
            s == views(v@),
            i <= v@.len(),
            out@ == old(out)@ + r_items(s.take(i as int)),
        decreases v@.len() - i,
    {
        proof {
            assert(s[i as int] == v@[i as int]@);
            assert(s.take(i + 1).drop_last() =~= s.take(i as int));
            assert(s.take(i + 1).drop_last() == s.take(i as int));
            assert(s.take(i + 1).last() == s[i as int]);
        }
        append_item(out, &v[i]);
        proof {
            assert(out@ =~= old(out)@ + r_items(s.take(i + 1)));
        }
        i = i + 1;
    }
    proof {
        assert(s.take(s.len() as int) =~= s);
        assert(s.take(s.len() as int) == s);
    }
}

fn append_variants(out: &mut Vec<u8>, v: &Vec<EnumVariant>)
    ensures
        final(out)@ == old(out)@ + r_variants(views(v@)),
{
    let ghost s = views(v@);
    let mut i: usize = 0;
    proof {
        assert(s.take(0) =~= Seq::<SpecEnumVariant>::empty());
        assert(out@ =~= old(out)@ + r_variants(s.take(0)));
    }
    while i < v.len()
        invariant
            s == views(v@),
            i <= v@.len(),
            out@ == old(out)@ + r_variants(s.take(i as int)),
        decreases v@.len() - i,
    {
        proof {
            assert(s[i as int] == v@[i as int]@);
            assert(s.take(i + 1).drop_last() =~= s.take(i as int));
            assert(s.take(i + 1).drop_last() == s.take(i as int));
            assert(s.take(i + 1).last() == s[i as int]);
        }
        append_variant(out, &v[i]);
        proof {
            assert(out@ =~= old(out)@ + r_variants(s.take(i + 1)));
        }
        i = i + 1;
    }
    proof {
        assert(s.take(s.len() as int) =~= s);
        assert(s.take(s.len() as int) == s);
    }
}

fn append_periphs(out: &mut Vec<u8>, v: &Vec<Peripheral>)
    ensures
        final(out)@ == old(out)@ + r_periphs(views(v@)),
{
    let ghost s = views(v@);
    let mut i: usize = 0;
    proof {
        assert(s.take(0) =~= Seq::<SpecPeripheral>::empty());
        assert(out@ =~= old(out)@ + r_periphs(s.take(0)));
    }
    while i < v.len()
        invariant
            s == views(v@),
            i <= v@.len(),
            out@ == old(out)@ + r_periphs(s.take(i as int)),
        decreases v@.len() - i,
    {
        proof {
            assert(s[i as int] == v@[i as int]@);
            assert(s.take(i + 1).drop_last() =~= s.take(i as int));
            assert(s.take(i + 1).drop_last() == s.take(i as int));
            assert(s.take(i + 1).last() == s[i as int]);
        }
        append_periph(out, &v[i]);
        proof {
            assert(out@ =~= old(out)@ + r_periphs(s.take(i + 1)));
        }
        i = i + 1;
    }
    proof {
        assert(s.take(s.len() as int) =~= s);
        assert(s.take(s.len() as int) == s);
    }
}

fn append_fieldsets(out: &mut Vec<u8>, v: &Vec<FieldSet>)
    ensures
        final(out)@ == old(out)@ + r_fieldsets(views(v@)),
{
    let ghost s = views(v@);
    let mut i: usize = 0;
    proof {
        assert(s.take(0) =~= Seq::<SpecFieldSet>::empty());
        assert(out@ =~= old(out)@ + r_fieldsets(s.take(0)));
    }
    while i < v.len()
        invariant
            s == views(v@),
            i <= v@.len(),
            out@ == old(out)@ + r_fieldsets(s.take(i as int)),
        decreases v@.len() - i,
    {
        proof {
            assert(s[i as int] == v@[i as int]@);
            assert(s.take(i + 1).drop_last() =~= s.take(i as int));
            assert(s.take(i + 1).drop_last() == s.take(i as int));
            assert(s.take(i + 1).last() == s[i as int]);
        }
        append_fieldset(out, &v[i]);
        proof {
            assert(out@ =~= old(out)@ + r_fieldsets(s.take(i + 1)));
        }
        i = i + 1;
    }
    proof {
        assert(s.take(s.len() as int) =~= s);
        assert(s.take(s.len() as int) == s);
    }
}

fn append_blocks(out: &mut Vec<u8>, v: &Vec<Block>)
    ensures
        final(out)@ == old(out)@ + r_blocks(views(v@)),
{
    let ghost s = views(v@);
    let mut i: usize = 0;
    proof {
        assert(s.take(0) =~= Seq::<SpecBlock>::empty());
        assert(out@ =~= old(out)@ + r_blocks(s.take(0)));
    }
    while i < v.len()
        invariant
            s == views(v@),
            i <= v@.len(),
            out@ == old(out)@ + r_blocks(s.take(i as int)),
        decreases v@.len() - i,
    {
        proof {
            assert(s[i as int] == v@[i as int]@);
            assert(s.take(i + 1).drop_last() =~= s.take(i as int));
            assert(s.take(i + 1).drop_last() == s.take(i as int));
            assert(s.take(i + 1).last() == s[i as int]);
        }
        append_block(out, &v[i]);
        proof {
            assert(out@ =~= old(out)@ + r_blocks(s.take(i + 1)));
        }
        i = i + 1;
    }
    proof {
        assert(s.take(s.len() as int) =~= s);
        assert(s.take(s.len() as int) == s);
    }
}

fn append_enums(out: &mut Vec<u8>, v: &Vec<Enum>)
    ensures
        final(out)@ == old(out)@ + r_enums(views(v@)),
{
    let ghost s = views(v@);
    let mut i: usize = 0;
    proof {
        assert(s.take(0) =~= Seq::<SpecEnum>::empty());
        assert(out@ =~= old(out)@ + r_enums(s.take(0)));
    }
    while i < v.len()
        invariant
            s == views(v@),
            i <= v@.len(),
            out@ == old(out)@ + r_enums(s.take(i as int)),
        decreases v@.len() - i,
    {
        proof {
            assert(s[i as int] == v@[i as int]@);
            assert(s.take(i + 1).drop_last() =~= s.take(i as int));
            assert(s.take(i + 1).drop_last() == s.take(i as int));
            assert(s.take(i + 1).last() == s[i as int]);
        }
        append_enum(out, &v[i]);
        proof {
            assert(out@ =~= old(out)@ + r_enums(s.take(i + 1)));
        }
        i = i + 1;
    }
    proof {
        assert(s.take(s.len() as int) =~= s);
        assert(s.take(s.len() as int) == s);
    }
}

fn append_devices(out: &mut Vec<u8>, v: &Vec<Device>)
    ensures
        final(out)@ == old(out)@ + r_devices(views(v@)),
{
    let ghost s = views(v@);
    let mut i: usize = 0;
    proof {
        assert(s.take(0) =~= Seq::<SpecDevice>::empty());
        assert(out@ =~= old(out)@ + r_devices(s.take(0)));
    }
    while i < v.len()
        invariant
            s == views(v@),
            i <= v@.len(),
            out@ == old(out)@ + r_devices(s.take(i as int)),
        decreases v@.len() - i,
    {
        proof {
            assert(s[i as int] == v@[i as int]@);
            assert(s.take(i + 1).drop_last() =~= s.take(i as int));
            assert(s.take(i + 1).drop_last() == s.take(i as int));
            assert(s.take(i + 1).last() == s[i as int]);
        }
        append_device(out, &v[i]);
        proof {
            assert(out@ =~= old(out)@ + r_devices(s.take(i + 1)));
        }
        i = i + 1;
    }
    proof {
        assert(s.take(s.len() as int) =~= s);
        assert(s.take(s.len() as int) == s);
    }
}

fn append_field(out: &mut Vec<u8>, f: &Field)
    ensures
        final(out)@ == old(out)@ + r_field(f@),
{
    let p = make_p_field();
    push_bytes(out, &p);
    push_bytes(out, &f.name);
    let p = make_p_at();
    push_bytes(out, &p);
    let d = dec(f.bit_offset);
    push_bytes(out, &d);
    let p = make_p_plus();
    push_bytes(out, &p);
    let d = dec(f.bit_size);
    push_bytes(out, &d);
    match &f.enumm {
        Option::Some(e) => {
            let p = make_p_colon();
            push_bytes(out, &p);
            push_bytes(out, e);
        },
        Option::None => {},
    }
    let p = make_p_nl();
    push_bytes(out, &p);
    proof {
        assert(out@ =~= old(out)@ + r_field(f@));
    }
}

fn append_item(out: &mut Vec<u8>, it: &BlockItem)
    ensures
        final(out)@ == old(out)@ + r_item(it@),
{
    match &it.inner {
        BlockItemInner::Register { bit_size, fieldset } => {
            let p = make_p_reg();
            push_bytes(out, &p);
            push_bytes(out, &it.name);
            let p = make_p_at();
            push_bytes(out, &p);
            let d = dec(it.byte_offset);
            push_bytes(out, &d);
            let p = make_p_plus();
            push_bytes(out, &p);
            let d = dec(*bit_size);
            push_bytes(out, &d);
            match fieldset {
                Option::Some(fr) => {
                    let p = make_p_colon();
                    push_bytes(out, &p);
                    push_bytes(out, fr);
                },
                Option::None => {},
            }
            let p = make_p_nl();
            push_bytes(out, &p);
        },
        BlockItemInner::Block { block } => {
            let p = make_p_sub();
            push_bytes(out, &p);
            push_bytes(out, &it.name);
            let p = make_p_at();
            push_bytes(out, &p);
            let d = dec(it.byte_offset);
            push_bytes(out, &d);
            let p = make_p_colon();
            push_bytes(out, &p);
            push_bytes(out, block);
            let p = make_p_nl();
            push_bytes(out, &p);
        },
    }
    proof {
        assert(out@ =~= old(out)@ + r_item(it@));
    }
}

fn append_variant(out: &mut Vec<u8>, v: &EnumVariant)
    ensures
        final(out)@ == old(out)@ + r_variant(v@),
{
    let p = make_p_variant();
    push_bytes(out, &p);
    push_bytes(out, &v.name);
    let p = make_p_eq();
    push_bytes(out, &p);
    let d = dec(v.value);
    push_bytes(out, &d);
    let p = make_p_nl();
    push_bytes(out, &p);
    proof {
        assert(out@ =~= old(out)@ + r_variant(v@));
    }
}

fn append_periph(out: &mut Vec<u8>, pe: &Peripheral)
    ensures
        final(out)@ == old(out)@ + r_periph(pe@),
{
    let p = make_p_periph();
    push_bytes(out, &p);
    push_bytes(out, &pe.name);
    let p = make_p_at();
    push_bytes(out, &p);
    let d = dec(pe.base_address);
    push_bytes(out, &d);
    let p = make_p_colon();
    push_bytes(out, &p);
    push_bytes(out, &pe.block);
    let p = make_p_nl();
    push_bytes(out, &p);
    proof {
        assert(out@ =~= old(out)@ + r_periph(pe@));
    }
}

fn append_fieldset(out: &mut Vec<u8>, fs: &FieldSet)
    ensures
        final(out)@ == old(out)@ + r_fieldset(fs@),
{
    let ghost base = out@;
    let p = make_p_fieldset();
    push_bytes(out, &p);
    push_bytes(out, &fs.name);
    let p = make_p_at();
    push_bytes(out, &p);
    let d = dec(fs.bit_size);
    push_bytes(out, &d);
    let p = make_p_nl();
    push_bytes(out, &p);
    let ghost mid = out@;
    proof {
        assert(mid =~= base + (p_fieldset() + fs@.name + p_at() + dec_of(fs@.bit_size as nat)
            + p_nl()));
    }
    append_fields(out, &fs.fields);
    proof {
        assert(out@ =~= base + r_fieldset(fs@));
    }
}

fn append_block(out: &mut Vec<u8>, b: &Block)
    ensures
        final(out)@ == old(out)@ + r_block(b@),
{
    let ghost base = out@;
    let p = make_p_block();
    push_bytes(out, &p);
    push_bytes(out, &b.name);
    let p = make_p_nl();
    push_bytes(out, &p);
    proof {
        assert(out@ =~= base + (p_block() + b@.name + p_nl()));
    }
    append_items(out, &b.items);
    proof {
        assert(out@ =~= base + r_block(b@));
    }
}

fn append_enum(out: &mut Vec<u8>, e: &Enum)
    ensures
        final(out)@ == old(out)@ + r_enum(e@),
{
    let ghost base = out@;
    let p = make_p_enum();
    push_bytes(out, &p);
    push_bytes(out, &e.name);
    let p = make_p_at();
    push_bytes(out, &p);
    let d = dec(e.bit_size);
    push_bytes(out, &d);
    let p = make_p_nl();
    push_bytes(out, &p);
    proof {
        assert(out@ =~= base + (p_enum() + e@.name + p_at() + dec_of(e@.bit_size as nat) + p_nl()));
    }
    append_variants(out, &e.variants);
    proof {
        assert(out@ =~= base + r_enum(e@));
    }
}

fn append_device(out: &mut Vec<u8>, d: &Device)
    ensures
        final(out)@ == old(out)@ + r_device(d@),
{
    let ghost base = out@;
    let p = make_p_device();
    push_bytes(out, &p);
    push_bytes(out, &d.name);
    let p = make_p_nl();
    push_bytes(out, &p);
    proof {
        assert(out@ =~= base + (p_device() + d@.name + p_nl()));
    }
    append_periphs(out, &d.peripherals);
    proof {
        assert(out@ =~= base + r_device(d@));
    }
}

/// Renders the graph after all passes: the shared runtime support first,
/// then every entity in graph order.
pub fn render_ir(ir: &Ir, cm: CommonModule) -> (r: Vec<u8>)
    ensures
        r@ == spec_render(ir@, cm),
{
    let mut out = match cm {
        CommonModule::Builtin => make_common_text(),
        CommonModule::External => make_external_text(),
    };
    let ghost c0 = out@;
    append_devices(&mut out, &ir.devices);
    append_blocks(&mut out, &ir.blocks);
    append_fieldsets(&mut out, &ir.fieldsets);
    append_enums(&mut out, &ir.enums);
    proof {
        assert(out@ =~= spec_render(ir@, cm));
    }
    out
}


/// The rendered text with a line break after every closing bracket that a
/// space follows.
pub open spec fn nl_brackets(s: Seq<u8>) -> Seq<u8>
    decreases s.len(),
{
    if s.len() == 0 {
        Seq::<u8>::empty()
    } else if s.len() >= 2 && s[0] == 93 && s[1] == 32 {
        seq![93u8, 10u8] + nl_brackets(s.skip(2))
    } else {
        seq![s[0]] + nl_brackets(s.skip(1))
    }
}

/// Applies the bracket line breaks.
pub fn apply_nl_brackets(v: &Vec<u8>) -> (r: Vec<u8>)
    ensures
        r@ == nl_brackets(v@),
{
    let mut out: Vec<u8> = Vec::new();
    let mut i: usize = 0;
    proof {
        assert(v@.skip(0) =~= v@);
        assert(out@ =~= Seq::<u8>::empty());
    }
    while i < v.len()
        invariant
            i <= v@.len(),
            nl_brackets(v@) == out@ + nl_brackets(v@.skip(i as int)),
        decreases v@.len() - i,
    {
        proof {
            assert(v@.skip(i as int)[0] == v@[i as int]);
            if i + 1 < v@.len() {
                assert(v@.skip(i as int)[1] == v@[i + 1]);
            }
            assert(v@.skip(i as int).skip(1) =~= v@.skip(i + 1));
            assert(v@.skip(i as int).skip(1) == v@.skip(i + 1));
            if i + 2 <= v@.len() {
                assert(v@.skip(i as int).skip(2) =~= v@.skip(i + 2));
                assert(v@.skip(i as int).skip(2) == v@.skip(i + 2));
            }
        }
        if v[i] == 93 && i + 1 < v.len() && v[i + 1] == 32 {
            let ghost before = out@;
            out.push(93);
            out.push(10);
            proof {
                assert(out@ + nl_brackets(v@.skip(i + 2)) =~= before + (seq![93u8, 10u8]
                    + nl_brackets(v@.skip(i + 2))));
            }
            i = i + 2;
        } else {
            let ghost before = out@;
            let c = v[i];
            out.push(c);
            proof {
                assert(out@ + nl_brackets(v@.skip(i + 1)) =~= before + (seq![v@[i as int]]
                    + nl_brackets(v@.skip(i + 1))));
            }
            i = i + 1;
        }
    }
    proof {
        assert(nl_brackets(v@.skip(v@.len() as int)) =~= Seq::<u8>::empty());
        assert(out@ + Seq::<u8>::empty() =~= out@);
    }
    out
}

/// The text before the first space that something else follows.
pub open spec fn skip_spaces(s: Seq<u8>) -> Seq<u8>
    decreases s.len(),
{
    if s.len() > 0 && s[0] == 32 {
        skip_spaces(s.drop_first())
    } else {
        s
    }
}

pub open spec fn trim_end_spaces(s: Seq<u8>) -> Seq<u8>
    decreases s.len(),
{
    if s.len() > 0 && s.last() == 32 {
        trim_end_spaces(s.drop_last())
    } else {
        s
    }
}

/// A module-level inner directive: optional spaces, a number sign, spaces,
/// an exclamation mark, spaces, an opening square bracket, and a closing
/// square bracket at the end of the line (trailing spaces allowed).
pub open spec fn is_inner_attr(line: Seq<u8>) -> bool {
    let a = skip_spaces(line);
    a.len() > 0 && a[0] == 35 && {
        let b = skip_spaces(a.drop_first());
        b.len() > 0 && b[0] == 33 && {
            let c = skip_spaces(b.drop_first());
            c.len() > 0 && c[0] == 91 && {
                let t = trim_end_spaces(c.drop_first());
                t.len() > 0 && t.last() == 93
            }
        }
    }
}

fn exec_skip_spaces(v: Vec<u8>) -> (r: Vec<u8>)
    ensures
        r@ == skip_spaces(v@),
{
    let mut v = v;
    let ghost orig = v@;
    while v.len() > 0 && v[0] == 32
        invariant
            skip_spaces(orig) == skip_spaces(v@),
        decreases v@.len(),
    {
        let ghost before = v@;
        v.remove(0);
        proof {
            assert(v@ =~= before.drop_first());
        }
    }
    v
}

fn exec_trim_end(v: &mut Vec<u8>)
    ensures
        final(v)@ == trim_end_spaces(old(v)@),
{
    while v.len() > 0 && v[v.len() - 1] == 32
        invariant
            trim_end_spaces(old(v)@) == trim_end_spaces(v@),
        decreases v@.len(),
    {
        let ghost before = v@;
        v.pop();
        proof {
            assert(v@ =~= before.drop_last());
        }
    }
}

/// Decides the inner-directive pattern for one line.
fn exec_is_inner_attr(line: &Vec<u8>) -> (r: bool)
    ensures
        r == is_inner_attr(line@),
{
    let a = crate::bytes::clone_bytes(line);
    let mut a = exec_skip_spaces(a);
    if a.len() == 0 || a[0] != 35 {
        return false;
    }
    a.remove(0);
    proof {
        assert(a@ =~= skip_spaces(line@).drop_first());
    }
    let mut b = exec_skip_spaces(a);
    if b.len() == 0 || b[0] != 33 {
        return false;
    }
    b.remove(0);
    let mut c = exec_skip_spaces(b);
    if c.len() == 0 || c[0] != 91 {
        return false;
    }
    c.remove(0);
    exec_trim_end(&mut c);
    if c.len() == 0 {
        return false;
    }
    let last = c[c.len() - 1];
    last == 93
}

/// The index where the first line of `s` ends: at the first line feed, or
/// at the end of the text.
pub open spec fn line_len(s: Seq<u8>) -> nat
    decreases s.len(),
{
    if s.len() == 0 {
        0
    } else if s[0] == 10 {
        0
    } else {
        line_len(s.drop_first()) + 1
    }
}

pub proof fn lemma_line_len(s: Seq<u8>)
    ensures
        0 <= line_len(s) <= s.len(),
        forall|k: int| 0 <= k < line_len(s) ==> s[k] != 10,
        line_len(s) < s.len() ==> s[line_len(s) as int] == 10,
    decreases s.len(),
{
    if s.len() > 0 && s[0] != 10 {
        lemma_line_len(s.drop_first());
        assert forall|k: int| 0 <= k < line_len(s) implies s[k] != 10 by {
            if k > 0 {
                assert(s.drop_first()[k - 1] == s[k]);
            }
        }
        if line_len(s) < s.len() {
            assert(s.drop_first()[line_len(s) - 1] == s[line_len(s) as int]);
        }
    }
}

/// The text with every inner-directive line removed, line feed included.
pub open spec fn strip_lines(s: Seq<u8>) -> Seq<u8>
    decreases s.len(),
{
    if s.len() == 0 {
        Seq::<u8>::empty()
    } else {
        let ll = line_len(s);
        let line = s.take(ll as int);
        if ll < s.len() {
            (if is_inner_attr(line) {
                Seq::<u8>::empty()
            } else {
                line + seq![10u8]
            }) + strip_lines(s.skip(ll as int + 1))
        } else {
            if is_inner_attr(line) {
                Seq::<u8>::empty()
            } else {
                line
            }
        }
    }
}

/// Copies the bytes of `v` between two positions.
fn copy_range(v: &Vec<u8>, a: usize, b: usize) -> (r: Vec<u8>)
    requires
        a <= b <= v@.len(),
    ensures
        r@ == v@.subrange(a as int, b as int),
{
    let mut r: Vec<u8> = Vec::new();
    let mut i: usize = a;
    proof {
        assert(r@ =~= v@.subrange(a as int, a as int));
    }
    while i < b
        invariant
            a <= i <= b <= v@.len(),
            r@ == v@.subrange(a as int, i as int),
        decreases b - i,
    {
        r.push(v[i]);
        proof {
            assert(r@ =~= v@.subrange(a as int, i + 1));
        }
        i = i + 1;
    }
    r
}

/// Applies the inner-directive stripping.
pub fn apply_strip_lines(v: &Vec<u8>) -> (r: Vec<u8>)
    ensures
        r@ == strip_lines(v@),
{
    let mut out: Vec<u8> = Vec::new();
    let mut pos: usize = 0;
    proof {
        assert(v@.skip(0) =~= v@);
        assert(v@.skip(0) == v@);
        assert(out@ + strip_lines(v@.skip(0)) =~= strip_lines(v@));
    }
    while pos < v.len()
        invariant
            pos <= v@.len(),
            strip_lines(v@) == out@ + strip_lines(v@.skip(pos as int)),
        decreases v@.len() - pos,
    {
        let ghost rest = v@.skip(pos as int);
        // find the end of the line
        let mut j: usize = pos;
        while j < v.len() && v[j] != 10
            invariant
                pos <= j <= v@.len(),
                forall|k: int| pos <= k < j ==> v@[k] != 10,
            decreases v@.len() - j,
        {
            j = j + 1;
        }
        proof {
            lemma_line_len(rest);
            assert forall|k: int| 0 <= k < j - pos implies rest[k] != 10 by {
                assert(rest[k] == v@[pos + k]);
            }
            if line_len(rest) < j - pos {
                assert(rest[line_len(rest) as int] == v@[pos + line_len(rest)]);
                assert(false);
            }
            if line_len(rest) > j - pos {
                if j < v@.len() {
                    assert(rest[j - pos] == v@[j as int]);
                    assert(false);
                } else {
                    assert(false);
                }
            }
            assert(line_len(rest) == j - pos);
        }
        let line = copy_range(v, pos, j);
        proof {
            assert(line@ =~= rest.take(line_len(rest) as int));
            assert(line@ == rest.take(line_len(rest) as int));
        }
        let inner = exec_is_inner_attr(&line);
        let ghost before = out@;
        if j < v.len() {
            // the line ends in a line feed
            if !inner {
                push_bytes(&mut out, &line);
                out.push(10);
            }
            proof {
                assert(rest.skip(line_len(rest) as int + 1) =~= v@.skip(j + 1));
                assert(rest.skip(line_len(rest) as int + 1) == v@.skip(j + 1));
                if inner {
                    assert(out@ + strip_lines(v@.skip(j + 1)) =~= before + (Seq::<u8>::empty()
                        + strip_lines(rest.skip(line_len(rest) as int + 1))));
                } else {
                    assert(out@ + strip_lines(v@.skip(j + 1)) =~= before + ((rest.take(
                        line_len(rest) as int,
                    ) + seq![10u8]) + strip_lines(rest.skip(line_len(rest) as int + 1))));
                }
            }
            pos = j + 1;
        } else {
            // the last line, without a line feed
            if !inner {
                push_bytes(&mut out, &line);
            }
            proof {
                assert(v@.skip(v@.len() as int).len() == 0);
                assert(strip_lines(v@.skip(v@.len() as int)) =~= Seq::<u8>::empty());
                if inner {
                    assert(out@ + strip_lines(v@.skip(v@.len() as int)) =~= before);
                    assert(before + strip_lines(rest) =~= before);
                } else {
                    assert(out@ + strip_lines(v@.skip(v@.len() as int)) =~= before + rest.take(
                        line_len(rest) as int,
                    ));
                    assert(before + strip_lines(rest) =~= before + rest.take(line_len(rest) as int));
                }
            }
            pos = v.len();
        }
    }
    proof {
        assert(strip_lines(v@.skip(v@.len() as int)) =~= Seq::<u8>::empty());
        assert(out@ + Seq::<u8>::empty() =~= out@);
    }
    out
}

/// The final output text: the warning-suppression header, then the rendered
/// code with the bracket line breaks and the inner-directive stripping
/// applied.
pub open spec fn spec_output(ir: SpecIr, cm: CommonModule) -> Seq<u8> {
    header_text() + strip_lines(nl_brackets(spec_render(ir, cm)))
}

/// The verbatim shared runtime-support source, for the caller that writes
/// it beside the generated file under the external strategy.
pub fn common_module_text() -> (r: Vec<u8>)
    ensures
        r@ == common_text(),
{
    make_common_text()
}

/// Renders and post-processes the finalized graph.
pub fn render_output(ir: &Ir, cm: CommonModule) -> (r: Vec<u8>)
    ensures
        r@ == spec_output(ir@, cm),
{
    let rendered = render_ir(ir, cm);
    let broken = apply_nl_brackets(&rendered);
    let stripped = apply_strip_lines(&broken);
    let mut out = make_header_text();
    push_bytes(&mut out, &stripped);
    out
}

} // verus!
