use spirt_passes::checks::has_accesses_in_order;
use spirt_passes::context::{Context, Module};
use spirt_passes::ir::{
    AttrSet, Const, ConstDef, ConstKind, ControlNode, ControlNodeDef, ControlNodeKind,
    ControlRegion, ControlRegionDef, DataInst, DataInstDef, DataInstForm, DataInstFormDef,
    DataInstKind, Export, ExportKey, Exportee, Func, FuncDecl, FuncDefBody, GlobalVar,
    GlobalVarDecl, InternedStr, Type, TypeDef, TypeKind, TypeOrConst, Value,
};
use spirt_passes::spirv::{Imm, Inst, Opcode, OperandKind};
use spirt_passes::strip_logical_alignment::strip_when_invalid;

const LOAD: u16 = 61;
const STORE: u16 = 62;
const COPY: u16 = 63;
const ADD: u16 = 128;

fn ma(bits: u32) -> Imm {
    Imm::Short(OperandKind(6), bits)
}

fn lit(word: u32) -> Imm {
    Imm::Short(OperandKind(54), word)
}

fn type_def(op: u16, imms: Vec<Imm>, inputs: Vec<TypeOrConst>) -> TypeDef {
    TypeDef {
        attrs: AttrSet(0),
        kind: TypeKind::SpvInst {
            spv_inst: Inst { opcode: Opcode(op), imms },
            type_and_const_inputs: inputs,
        },
    }
}

const U32: Type = Type(0);
const F64: Type = Type(1);
const PAIR: Type = Type(2);
const PHYSICAL: Type = Type(3);
const LOGICAL: Type = Type(4);
const PHYSICAL_PAIR: Type = Type(5);
const OPAQUE: Type = Type(6);

/// Types, a `u32` constant, and whatever else the functions need.
fn module(exports: Vec<Export>, funcs: Vec<(Vec<DataInstFormDef>, FuncDecl)>) -> Module {
    let class = |word| vec![Imm::Short(OperandKind(13), word)];
    let of = |ty| vec![TypeOrConst::Type(ty)];
    let types = vec![
        type_def(21, vec![lit(32), lit(0)], vec![]),
        type_def(22, vec![lit(64)], vec![]),
        type_def(30, vec![], vec![TypeOrConst::Type(U32), TypeOrConst::Type(F64)]),
        type_def(32, class(5349), of(U32)),
        type_def(32, class(12), of(U32)),
        type_def(32, class(5349), of(PAIR)),
        TypeDef { attrs: AttrSet(0), kind: TypeKind::QPtr },
    ];
    let consts = vec![ConstDef {
        attrs: AttrSet(0),
        ty: U32,
        kind: ConstKind::SpvInst {
            spv_inst: Inst { opcode: Opcode(43), imms: vec![lit(1)] },
            const_inputs: vec![],
        },
    }];
    let mut cx = Context { types, consts, forms: Vec::new() };
    let mut decls = Vec::new();
    for (forms, mut decl) in funcs {
        let handles: Vec<DataInstForm> = forms.into_iter().map(|def| cx.intern_form(def)).collect();
        if let FuncDecl::Present(body) = &mut decl {
            for inst in &mut body.data_insts {
                inst.form = handles[inst.form.0];
            }
        }
        decls.push(decl);
    }
    let global_vars = vec![GlobalVarDecl { type_of_ptr_to: LOGICAL, initializer: None }];
    Module { cx, exports, global_vars, funcs: decls }
}

/// A function with inputs of types `PHYSICAL`, `LOGICAL`, `PHYSICAL_PAIR` and
/// `OPAQUE`, and one block.
fn func(insts: Vec<(DataInstKind, Option<Type>, Vec<Value>)>) -> (Vec<DataInstFormDef>, FuncDecl) {
    let n = insts.len();
    let mut forms = Vec::new();
    let mut data_insts = Vec::new();
    for (i, (kind, output_type, inputs)) in insts.into_iter().enumerate() {
        forms.push(DataInstFormDef { kind, output_type });
        data_insts.push(DataInstDef { attrs: AttrSet(i), form: DataInstForm(i), inputs });
    }
    let block = ControlNodeDef {
        kind: ControlNodeKind::Block { insts: (0..n).map(DataInst).collect() },
        outputs: vec![],
    };
    let body = FuncDefBody {
        control_regions: vec![ControlRegionDef {
            inputs: vec![PHYSICAL, LOGICAL, PHYSICAL_PAIR, OPAQUE],
            outputs: vec![],
            exit_inputs: vec![],
        }],
        control_nodes: vec![block],
        data_insts,
        node_order: vec![ControlNode(0)],
        entry: Some(ControlNode(0)),
    };
    (forms, FuncDecl::Present(body))
}

fn spv(op: u16, imms: &[Imm]) -> DataInstKind {
    DataInstKind::SpvInst(Inst { opcode: Opcode(op), imms: imms.to_vec() })
}

fn input(input_idx: u32) -> Value {
    Value::ControlRegionInput { region: ControlRegion(0), input_idx }
}

fn one() -> Value {
    Value::Const(Const(0))
}

fn export(f: usize) -> Export {
    Export { key: ExportKey::LinkName(InternedStr(f)), exportee: Exportee::Func(Func(f)) }
}

fn imms(module: &Module, f: usize, d: usize) -> Vec<Imm> {
    let FuncDecl::Present(body) = &module.funcs[f] else { panic!() };
    match &module.cx.forms[body.data_insts[d].form.0].kind {
        DataInstKind::SpvInst(spv_inst) => spv_inst.imms.clone(),
        _ => panic!(),
    }
}

fn dump(module: &Module) -> String {
    format!("{:?}", module)
}

#[test]
fn loads_and_stores_match_their_pointers() {
    let mut m = module(
        vec![export(0)],
        vec![func(vec![
            (spv(LOAD, &[]), Some(U32), vec![input(0)]),
            (spv(LOAD, &[ma(2), lit(4)]), Some(U32), vec![input(1)]),
            (spv(STORE, &[]), None, vec![input(0), one()]),
            (spv(STORE, &[ma(3), lit(4)]), None, vec![input(1), one()]),
            (spv(LOAD, &[]), Some(PAIR), vec![input(2)]),
            (spv(LOAD, &[ma(2), lit(1)]), Some(U32), vec![input(0)]),
        ])],
    );
    strip_when_invalid(&mut m);
    assert_eq!(imms(&m, 0, 0), [ma(2), lit(4)]);
    assert_eq!(imms(&m, 0, 1), []);
    assert_eq!(imms(&m, 0, 2), [ma(2), lit(4)]);
    assert_eq!(imms(&m, 0, 3), [ma(1)]);
    assert_eq!(imms(&m, 0, 4), [ma(2), lit(8)]);
    assert_eq!(imms(&m, 0, 5), [ma(2), lit(1)]);
}

#[test]
fn load_is_aligned_for_what_it_loads() {
    let mut m = module(
        vec![export(0)],
        vec![func(vec![
            (spv(LOAD, &[]), Some(F64), vec![input(0)]),
            (spv(LOAD, &[]), None, vec![input(2)]),
        ])],
    );
    strip_when_invalid(&mut m);
    assert_eq!(imms(&m, 0, 0), [ma(2), lit(8)]);
    assert_eq!(imms(&m, 0, 1), [ma(2), lit(8)]);
}

#[test]
fn store_is_aligned_for_what_it_stores() {
    let mut m = module(
        vec![export(0)],
        vec![func(vec![
            (spv(STORE, &[]), None, vec![input(2), one()]),
            (spv(LOAD, &[]), Some(F64), vec![input(1)]),
            (spv(STORE, &[]), None, vec![input(0), Value::DataInstOutput(DataInst(1))]),
        ])],
    );
    strip_when_invalid(&mut m);
    assert_eq!(imms(&m, 0, 0), [ma(2), lit(4)]);
    assert_eq!(imms(&m, 0, 1), []);
    assert_eq!(imms(&m, 0, 2), [ma(2), lit(8)]);
}

#[test]
fn copies_have_both_sides_fixed() {
    let mut m = module(
        vec![export(0)],
        vec![func(vec![
            (spv(COPY, &[]), None, vec![input(0), input(2)]),
            (spv(COPY, &[]), None, vec![input(2), input(1)]),
            (spv(COPY, &[ma(2), lit(4)]), None, vec![input(1), input(1)]),
            (spv(COPY, &[ma(2), lit(16)]), None, vec![input(1), input(0)]),
            (spv(COPY, &[ma(2), lit(4)]), None, vec![input(0), input(1)]),
            (spv(COPY, &[ma(1)]), None, vec![input(0), input(0)]),
        ])],
    );
    strip_when_invalid(&mut m);
    assert_eq!(imms(&m, 0, 0), [ma(2), lit(4), ma(2), lit(8)]);
    assert_eq!(imms(&m, 0, 1), [ma(2), lit(8), ma(0)]);
    assert_eq!(imms(&m, 0, 2), []);
    assert_eq!(imms(&m, 0, 3), [ma(0), ma(2), lit(4)]);
    assert_eq!(imms(&m, 0, 4), [ma(2), lit(4), ma(0)]);
    assert_eq!(imms(&m, 0, 5), [ma(3), lit(4), ma(3), lit(4)]);
}

#[test]
fn values_that_are_no_pointers_are_not_physical() {
    let mut m = module(
        vec![export(0)],
        vec![func(vec![
            (spv(LOAD, &[ma(2), lit(4)]), Some(U32), vec![input(3)]),
            (spv(LOAD, &[ma(2), lit(4)]), Some(U32), vec![one()]),
        ])],
    );
    strip_when_invalid(&mut m);
    assert_eq!(imms(&m, 0, 0), []);
    assert_eq!(imms(&m, 0, 1), []);
}

#[test]
fn pointers_that_are_outputs_of_nodes_count() {
    let mut f = func(vec![(
        spv(LOAD, &[]),
        Some(U32),
        vec![Value::ControlNodeOutput { control_node: ControlNode(1), output_idx: 0 }],
    )]);
    if let FuncDecl::Present(body) = &mut f.1 {
        body.control_nodes
            .push(ControlNodeDef {
                kind: ControlNodeKind::Select { scrutinee: one() },
                outputs: vec![PHYSICAL],
            });
        body.node_order = vec![ControlNode(1), ControlNode(0)];
        body.entry = Some(ControlNode(1));
    }
    let mut m = module(vec![export(0)], vec![f]);
    strip_when_invalid(&mut m);
    assert_eq!(imms(&m, 0, 0), [ma(2), lit(4)]);
}

#[test]
fn other_instructions_stay() {
    let mut m = module(
        vec![export(0)],
        vec![func(vec![
            (spv(ADD, &[ma(2), lit(4)]), Some(U32), vec![one(), one()]),
            (DataInstKind::SpvExtInst { ext_set: InternedStr(0), inst: 61 }, Some(U32), vec![]),
        ])],
    );
    let before = dump(&m);
    strip_when_invalid(&mut m);
    assert_eq!(dump(&m), before);
}

#[test]
fn only_what_can_be_reached_is_fixed() {
    let load = || (spv(LOAD, &[]), Some(U32), vec![input(0)]);
    let call = |f| (DataInstKind::FuncCall(Func(f)), Some(U32), vec![]);
    let mut m = module(
        vec![
            Export {
                key: ExportKey::SpvEntryPoint { interface_global_vars: vec![GlobalVar(0)] },
                exportee: Exportee::Func(Func(3)),
            },
            Export {
                key: ExportKey::LinkName(InternedStr(9)),
                exportee: Exportee::GlobalVar(GlobalVar(0)),
            },
        ],
        vec![
            func(vec![load()]),
            func(vec![load(), call(0), call(2), call(1)]),
            (vec![], FuncDecl::Imported),
            func(vec![call(1), load()]),
            func(vec![load(), call(0)]),
        ],
    );
    strip_when_invalid(&mut m);
    assert_eq!(imms(&m, 0, 0), [ma(2), lit(4)]);
    assert_eq!(imms(&m, 1, 0), [ma(2), lit(4)]);
    assert_eq!(imms(&m, 3, 1), [ma(2), lit(4)]);
    assert_eq!(imms(&m, 4, 0), []);
    assert!(matches!(m.funcs[2], FuncDecl::Imported));
}

#[test]
fn only_instructions_in_blocks_that_are_walked_are_fixed() {
    let mut f = func(vec![
        (spv(LOAD, &[]), Some(U32), vec![input(0)]),
        (spv(LOAD, &[]), Some(U32), vec![input(0)]),
        (spv(LOAD, &[]), Some(U32), vec![input(0)]),
    ]);
    if let FuncDecl::Present(body) = &mut f.1 {
        body.control_nodes[0].kind = ControlNodeKind::Block { insts: vec![DataInst(1)] };
        body.control_nodes.push(ControlNodeDef {
            kind: ControlNodeKind::Block { insts: vec![DataInst(2)] },
            outputs: vec![],
        });
    }
    let mut m = module(vec![export(0)], vec![f]);
    strip_when_invalid(&mut m);
    assert_eq!(imms(&m, 0, 0), []);
    assert_eq!(imms(&m, 0, 1), [ma(2), lit(4)]);
    assert_eq!(imms(&m, 0, 2), []);
}

#[test]
fn forms_are_shared_and_kept() {
    let mut m = module(
        vec![export(0)],
        vec![func(vec![
            (spv(LOAD, &[]), Some(U32), vec![input(0)]),
            (spv(LOAD, &[]), Some(U32), vec![input(1)]),
            (spv(LOAD, &[]), Some(U32), vec![input(0)]),
        ])],
    );
    assert_eq!(m.cx.forms.len(), 1);
    strip_when_invalid(&mut m);
    assert_eq!(m.cx.forms.len(), 2);
    let FuncDecl::Present(body) = &m.funcs[0] else { panic!() };
    let forms: Vec<DataInstForm> = body.data_insts.iter().map(|inst| inst.form).collect();
    assert_eq!(forms, [DataInstForm(1), DataInstForm(0), DataInstForm(1)]);
    let attrs: Vec<AttrSet> = body.data_insts.iter().map(|inst| inst.attrs).collect();
    assert_eq!(attrs, [AttrSet(0), AttrSet(1), AttrSet(2)]);
}

#[test]
fn a_module_that_was_fixed_stays() {
    let mut m = module(
        vec![export(0)],
        vec![func(vec![
            (spv(LOAD, &[]), Some(U32), vec![input(0)]),
            (spv(LOAD, &[ma(2), lit(4)]), Some(U32), vec![input(1)]),
            (spv(STORE, &[ma(1)]), None, vec![input(2), one()]),
            (spv(COPY, &[]), None, vec![input(0), input(1)]),
            (spv(COPY, &[ma(2), lit(16)]), None, vec![input(0), input(1)]),
            (spv(COPY, &[ma(2), lit(16), ma(2), lit(16)]), None, vec![input(1), input(1)]),
        ])],
    );
    strip_when_invalid(&mut m);
    let once = dump(&m);
    strip_when_invalid(&mut m);
    assert_eq!(dump(&m), once);
}

#[test]
fn accesses_lack_operands_or_types() {
    let checked = |op, inputs: Vec<Value>| {
        let store = (spv(STORE, &[]), None, vec![input(0), one()]);
        let inst = (spv(op, &[]), Some(U32), inputs);
        has_accesses_in_order(&module(vec![export(0)], vec![func(vec![store, inst])]))
    };
    let no_output = Value::DataInstOutput(DataInst(0));
    let output = Value::DataInstOutput(DataInst(1));
    assert!(checked(LOAD, vec![input(0)]));
    assert!(checked(LOAD, vec![output]));
    assert!(!checked(LOAD, vec![]));
    assert!(!checked(LOAD, vec![no_output]));
    assert!(!checked(LOAD, vec![input(4)]));
    for op in [STORE, COPY] {
        assert!(checked(op, vec![input(0), one()]));
        assert!(checked(op, vec![input(0), one(), no_output]));
        assert!(!checked(op, vec![input(0)]));
        assert!(!checked(op, vec![no_output, one()]));
        assert!(!checked(op, vec![input(0), no_output]));
    }
    assert!(checked(ADD, vec![no_output]));
    assert!(checked(ADD, vec![]));
}
