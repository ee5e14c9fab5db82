use spirt_passes::alignment::natural_alignment;
use spirt_passes::context::Context;
use spirt_passes::ir::{AttrSet, Const, Type, TypeDef, TypeKind, TypeOrConst};
use spirt_passes::spirv::{Imm, Inst, Opcode, OperandKind};
use spirt_passes::well_known::WellKnown;

const LIT: OperandKind = OperandKind(54);

fn ty(op: u16, words: Vec<u32>, inputs: Vec<TypeOrConst>) -> TypeDef {
    let imms = words.into_iter().map(|word| Imm::Short(LIT, word)).collect();
    TypeDef {
        attrs: AttrSet(0),
        kind: TypeKind::SpvInst {
            spv_inst: Inst { opcode: Opcode(op), imms },
            type_and_const_inputs: inputs,
        },
    }
}

fn aligns(types: Vec<TypeDef>) -> Vec<u32> {
    let wk = WellKnown::get();
    let n = types.len();
    let cx = Context { types, consts: Vec::new(), forms: Vec::new() };
    (0..n).map(|t| natural_alignment(&cx, &wk, Type(t))).collect()
}

fn of(t: usize) -> TypeOrConst {
    TypeOrConst::Type(Type(t))
}

#[test]
fn numbers_are_aligned_to_their_size() {
    let widths = [1, 7, 8, 16, 32, 64];
    let mut types: Vec<TypeDef> = widths.iter().map(|&w| ty(21, vec![w, 0], vec![])).collect();
    types.extend(widths.iter().map(|&w| ty(22, vec![w], vec![])));
    assert_eq!(aligns(types), [1, 1, 1, 2, 4, 8, 1, 1, 1, 2, 4, 8]);
}

#[test]
fn odd_sizes_are_rounded_up_to_a_power_of_two() {
    let types = vec![ty(21, vec![24, 0], vec![]), ty(21, vec![40, 0], vec![]), ty(21, vec![72, 0], vec![])];
    assert_eq!(aligns(types), [4, 8, 16]);
}

#[test]
fn the_largest_width_is_rounded_up() {
    assert_eq!(aligns(vec![ty(21, vec![u32::MAX, 0], vec![])]), [0x2000_0000]);
}

#[test]
fn numbers_without_a_width_have_the_fallback() {
    let mut long = ty(21, vec![], vec![]);
    if let TypeKind::SpvInst { spv_inst, .. } = &mut long.kind {
        spv_inst.imms.push(Imm::LongStart(LIT, 64));
    }
    assert_eq!(aligns(vec![ty(21, vec![], vec![]), ty(22, vec![], vec![]), long]), [1, 1, 1]);
}

#[test]
fn elements_give_their_alignment() {
    let length = TypeOrConst::Const(Const(0));
    let types = vec![
        ty(21, vec![16, 0], vec![]),
        ty(22, vec![64], vec![]),
        ty(23, vec![3], vec![of(0)]),
        ty(24, vec![4], vec![of(2)]),
        ty(28, vec![], vec![of(1), length]),
        ty(29, vec![], vec![of(4)]),
    ];
    assert_eq!(aligns(types), [2, 8, 2, 2, 8, 8]);
}

#[test]
fn elements_that_are_no_type_have_the_fallback() {
    let types = vec![ty(23, vec![3], vec![]), ty(29, vec![], vec![TypeOrConst::Const(Const(0))])];
    assert_eq!(aligns(types), [1, 1]);
}

#[test]
fn structures_take_the_largest_of_their_members() {
    let types = vec![
        ty(21, vec![8, 0], vec![]),
        ty(21, vec![64, 0], vec![]),
        ty(22, vec![32], vec![]),
        ty(30, vec![], vec![of(0), of(1), of(2)]),
        ty(30, vec![], vec![of(0), TypeOrConst::Const(Const(0))]),
        ty(30, vec![], vec![]),
        ty(30, vec![], vec![of(4), of(2)]),
    ];
    assert_eq!(aligns(types), [1, 8, 4, 8, 1, 1, 4]);
}

#[test]
fn other_types_have_the_fallback() {
    let pointer = ty(32, vec![5349], vec![of(0)]);
    let types = vec![
        ty(21, vec![64, 0], vec![]),
        pointer,
        TypeDef { attrs: AttrSet(0), kind: TypeKind::QPtr },
        TypeDef { attrs: AttrSet(0), kind: TypeKind::SpvStringLiteralForExtInst },
    ];
    assert_eq!(aligns(types), [8, 1, 1, 1]);
}

#[test]
fn alignments_are_powers_of_two() {
    for width in 0..200 {
        let align = aligns(vec![ty(21, vec![width, 0], vec![])])[0];
        assert!(align.is_power_of_two());
        assert_eq!(align, (width / 8).max(1).next_power_of_two());
    }
}
