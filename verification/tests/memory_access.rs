use spirt_passes::memory_access::{fix_memory_access, Access};
use spirt_passes::spirv::{Imm, OperandKind};
use spirt_passes::well_known::WellKnown;

const OTHER: OperandKind = OperandKind(1);

fn ma(bits: u32) -> Imm {
    Imm::Short(OperandKind(6), bits)
}

fn lit(word: u32) -> Imm {
    Imm::Short(OperandKind(54), word)
}

fn other(word: u32) -> Imm {
    Imm::LongStart(OTHER, word)
}

fn fix(access: Access, imms: &[Imm]) -> Vec<Imm> {
    fix_memory_access(&WellKnown::get(), &access, &imms.to_vec())
}

fn load(physical: bool) -> Access {
    Access {
        is_copy: false,
        dst_physical: physical,
        src_physical: physical,
        dst_align: 8,
        src_align: 8,
    }
}

fn copy(dst_physical: bool, src_physical: bool) -> Access {
    Access { is_copy: true, dst_physical, src_physical, dst_align: 8, src_align: 4 }
}

#[test]
fn physical_access_without_operand_gets_one() {
    assert_eq!(fix(load(true), &[]), [ma(2), lit(8)]);
    assert_eq!(fix(load(true), &[other(7)]), [other(7), ma(2), lit(8)]);
}

#[test]
fn physical_access_gets_the_aligned_bit() {
    assert_eq!(fix(load(true), &[ma(1)]), [ma(3), lit(8)]);
    assert_eq!(fix(load(true), &[ma(0)]), [ma(2), lit(8)]);
}

#[test]
fn physical_access_keeps_its_alignment() {
    assert_eq!(fix(load(true), &[ma(2), lit(16)]), [ma(2), lit(16)]);
    assert_eq!(fix(load(true), &[ma(3), lit(1)]), [ma(3), lit(1)]);
}

#[test]
fn aligned_bit_without_literal_gets_a_memory_access_word() {
    assert_eq!(fix(load(true), &[ma(2)]), [ma(2), ma(8)]);
    assert_eq!(fix(copy(true, true), &[ma(3)]), [ma(3), ma(8), ma(3), lit(4)]);
}

#[test]
fn logical_access_loses_its_alignment() {
    assert_eq!(fix(load(false), &[ma(2), lit(16)]), []);
    assert_eq!(fix(load(false), &[ma(3), lit(16)]), [ma(1)]);
    assert_eq!(fix(load(false), &[ma(2)]), []);
}

#[test]
fn logical_access_without_alignment_stays() {
    assert_eq!(fix(load(false), &[]), []);
    assert_eq!(fix(load(false), &[ma(5)]), [ma(5)]);
    assert_eq!(fix(load(false), &[other(3), ma(1)]), [other(3), ma(1)]);
}

#[test]
fn empty_operands_at_the_end_go() {
    assert_eq!(fix(load(false), &[ma(0)]), []);
    assert_eq!(fix(load(false), &[ma(0), ma(0)]), []);
    assert_eq!(fix(load(false), &[ma(0), other(1)]), [ma(0), other(1)]);
}

#[test]
fn copy_without_operands_gets_both_or_none() {
    assert_eq!(fix(copy(true, true), &[]), [ma(2), lit(8), ma(2), lit(4)]);
    assert_eq!(fix(copy(true, false), &[]), [ma(2), lit(8), ma(0)]);
    assert_eq!(fix(copy(false, true), &[]), [ma(0), ma(2), lit(4)]);
    assert_eq!(fix(copy(false, false), &[]), []);
}

#[test]
fn copy_with_one_operand_has_it_for_both_sides() {
    assert_eq!(fix(copy(true, true), &[ma(2), lit(16)]), [ma(2), lit(16), ma(2), lit(4)]);
    assert_eq!(fix(copy(true, false), &[ma(2), lit(4)]), [ma(2), lit(4), ma(0)]);
    assert_eq!(fix(copy(false, true), &[ma(3), lit(16)]), [ma(1), ma(3), lit(4)]);
    assert_eq!(fix(copy(true, false), &[ma(1)]), [ma(3), lit(8), ma(1)]);
    assert_eq!(fix(copy(true, true), &[ma(1)]), [ma(3), lit(8), ma(3), lit(4)]);
    assert_eq!(fix(copy(true, true), &[ma(0)]), [ma(2), lit(8), ma(2), lit(4)]);
    assert_eq!(fix(copy(false, false), &[ma(3), lit(16)]), [ma(1)]);
    assert_eq!(fix(copy(false, false), &[ma(2), lit(16)]), []);
}

#[test]
fn copy_with_two_operands_has_each_fixed() {
    let both = [ma(2), lit(16), ma(1)];
    assert_eq!(fix(copy(true, true), &both), [ma(2), lit(16), ma(3), lit(4)]);
    assert_eq!(fix(copy(true, false), &both), [ma(2), lit(16), ma(1)]);
    assert_eq!(fix(copy(false, true), &both), [ma(0), ma(3), lit(4)]);
    assert_eq!(fix(copy(false, false), &both), [ma(0), ma(1)]);
}

#[test]
fn empty_operands_of_a_copy_go_together() {
    assert_eq!(fix(copy(false, false), &[ma(2), lit(16), ma(2), lit(4)]), []);
    assert_eq!(fix(copy(false, false), &[ma(0), other(9), ma(0)]), [other(9)]);
    assert_eq!(fix(copy(false, false), &[ma(1), ma(2), lit(4)]), [ma(1), ma(0)]);
}

#[test]
fn further_operands_of_a_copy_are_about_the_source() {
    assert_eq!(
        fix(copy(true, false), &[ma(0), ma(1), ma(3), lit(2)]),
        [ma(2), lit(8), ma(1), ma(1)]
    );
}

#[test]
fn other_immediates_stay_where_they_are() {
    assert_eq!(
        fix(load(true), &[other(1), ma(0), other(2)]),
        [other(1), ma(2), lit(8), other(2)]
    );
    assert_eq!(
        fix(copy(false, false), &[other(1), ma(2), lit(4), other(2), ma(0), other(3)]),
        [other(1), other(2), other(3)]
    );
}

#[test]
fn fixing_twice_is_fixing_once() {
    let lists = [
        vec![],
        vec![ma(0)],
        vec![ma(1)],
        vec![ma(2), lit(16)],
        vec![ma(3), lit(16), ma(1)],
        vec![ma(0), ma(2), lit(4)],
        vec![other(1), ma(2), lit(2), other(2)],
        vec![ma(2)],
    ];
    for physical in [false, true] {
        for access in [load(physical), copy(physical, false), copy(physical, true)] {
            for imms in &lists {
                let once = fix(access, imms);
                assert_eq!(fix(access, &once), once);
            }
        }
    }
}

#[test]
fn an_alignment_that_reads_as_an_empty_operand_is_lost() {
    assert_eq!(fix(load(true), &[ma(2), ma(0)]), [ma(2)]);
    assert_eq!(fix(load(false), &[ma(2), ma(0)]), []);
}
