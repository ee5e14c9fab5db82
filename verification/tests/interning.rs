use spirt_passes::context::Context;
use spirt_passes::ir::{
    AttrSet, Const, ConstDef, ConstKind, DataInstForm, DataInstFormDef, DataInstKind, Func,
    GlobalVar, InternedStr, QPtrOp, Type, TypeDef, TypeKind, TypeOrConst,
};
use spirt_passes::spirv::{Imm, Inst, Opcode, OperandKind};

fn inst(op: u16, words: &[u32]) -> Inst {
    Inst {
        opcode: Opcode(op),
        imms: words.iter().map(|&word| Imm::Short(OperandKind(54), word)).collect(),
    }
}

fn empty() -> Context {
    Context { types: Vec::new(), consts: Vec::new(), forms: Vec::new() }
}

#[test]
fn equal_types_have_one_handle() {
    let mut cx = empty();
    let int = |width| TypeDef {
        attrs: AttrSet(0),
        kind: TypeKind::SpvInst { spv_inst: inst(21, &[width, 0]), type_and_const_inputs: vec![] },
    };
    let array = |elem, len| TypeDef {
        attrs: AttrSet(0),
        kind: TypeKind::SpvInst {
            spv_inst: inst(28, &[]),
            type_and_const_inputs: vec![TypeOrConst::Type(Type(elem)), TypeOrConst::Const(Const(len))],
        },
    };
    assert_eq!(cx.intern_type(int(32)), Type(0));
    assert_eq!(cx.intern_type(int(64)), Type(1));
    assert_eq!(cx.intern_type(array(0, 0)), Type(2));
    assert_eq!(cx.intern_type(array(1, 0)), Type(3));
    assert_eq!(cx.intern_type(array(0, 1)), Type(4));
    assert_eq!(cx.intern_type(TypeDef { attrs: AttrSet(0), kind: TypeKind::QPtr }), Type(5));
    assert_eq!(cx.intern_type(TypeDef { attrs: AttrSet(1), kind: TypeKind::QPtr }), Type(6));
    assert_eq!(
        cx.intern_type(TypeDef { attrs: AttrSet(0), kind: TypeKind::SpvStringLiteralForExtInst }),
        Type(7)
    );
    assert_eq!(cx.intern_type(int(64)), Type(1));
    assert_eq!(cx.intern_type(array(0, 1)), Type(4));
    assert_eq!(cx.intern_type(TypeDef { attrs: AttrSet(0), kind: TypeKind::QPtr }), Type(5));
    assert_eq!(cx.types.len(), 8);
}

#[test]
fn equal_constants_have_one_handle() {
    let mut cx = empty();
    let def = |ty, kind| ConstDef { attrs: AttrSet(0), ty: Type(ty), kind };
    let number = |word| ConstKind::SpvInst { spv_inst: inst(43, &[word]), const_inputs: vec![] };
    let composite = |c| ConstKind::SpvInst { spv_inst: inst(44, &[]), const_inputs: vec![Const(c)] };
    assert_eq!(cx.intern_const(def(0, number(0))), Const(0));
    assert_eq!(cx.intern_const(def(1, number(0))), Const(1));
    assert_eq!(cx.intern_const(def(0, number(1))), Const(2));
    assert_eq!(cx.intern_const(def(0, composite(0))), Const(3));
    assert_eq!(cx.intern_const(def(0, composite(1))), Const(4));
    assert_eq!(cx.intern_const(def(0, ConstKind::PtrToGlobalVar(GlobalVar(0)))), Const(5));
    assert_eq!(
        cx.intern_const(def(0, ConstKind::SpvStringLiteralForExtInst(InternedStr(0)))),
        Const(6)
    );
    assert_eq!(cx.intern_const(def(0, composite(1))), Const(4));
    assert_eq!(cx.intern_const(def(0, ConstKind::PtrToGlobalVar(GlobalVar(0)))), Const(5));
    assert_eq!(cx.intern_const(def(0, ConstKind::PtrToGlobalVar(GlobalVar(1)))), Const(7));
    assert_eq!(cx.consts.len(), 8);
}

#[test]
fn equal_forms_have_one_handle() {
    let mut cx = empty();
    let def = |kind, output_type| DataInstFormDef { kind, output_type };
    assert_eq!(cx.intern_form(def(DataInstKind::FuncCall(Func(0)), None)), DataInstForm(0));
    assert_eq!(cx.intern_form(def(DataInstKind::FuncCall(Func(1)), None)), DataInstForm(1));
    assert_eq!(
        cx.intern_form(def(DataInstKind::FuncCall(Func(0)), Some(Type(0)))),
        DataInstForm(2)
    );
    assert_eq!(cx.intern_form(def(DataInstKind::QPtr(QPtrOp(0)), None)), DataInstForm(3));
    assert_eq!(cx.intern_form(def(DataInstKind::SpvInst(inst(61, &[2])), None)), DataInstForm(4));
    let ext = || DataInstKind::SpvExtInst { ext_set: InternedStr(0), inst: 5 };
    assert_eq!(cx.intern_form(def(ext(), None)), DataInstForm(5));
    assert_eq!(cx.intern_form(def(ext(), None)), DataInstForm(5));
    assert_eq!(cx.intern_form(def(DataInstKind::SpvInst(inst(61, &[2])), None)), DataInstForm(4));
    assert_eq!(cx.intern_form(def(DataInstKind::FuncCall(Func(0)), None)), DataInstForm(0));
    assert_eq!(cx.forms.len(), 6);
}
