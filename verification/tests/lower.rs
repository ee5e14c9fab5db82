use spirt_passes::checks::has_typed_conversions;
use spirt_passes::context::{Context, Module};
use spirt_passes::ir::{
    AttrSet, Const, ConstDef, ConstKind, ControlNode, ControlNodeDef, ControlNodeKind,
    ControlRegion, ControlRegionDef, DataInst, DataInstDef, DataInstForm, DataInstFormDef,
    DataInstKind, Export, ExportKey, Exportee, Func, FuncDecl, FuncDefBody, GlobalVar,
    GlobalVarDecl, InternedStr, Type, TypeDef, TypeKind, TypeOrConst, Value,
};
use spirt_passes::lower_physical_nulls::lower_physical_nulls;
use spirt_passes::lowerer::{offending_null_pointer_type, Lowerer};
use spirt_passes::reach::Worklist;
use spirt_passes::spirv::{Imm, Inst, Opcode, OperandKind};
use spirt_passes::well_formed::is_well_formed;
use spirt_passes::well_known::WellKnown;

const STORE: u16 = 62;
const PTR_TO_U: u16 = 117;
const U_TO_PTR: u16 = 120;
const SELECT: u16 = 169;
const COMPARISONS: [u16; 6] = [170, 171, 172, 174, 176, 178];

const U32: Type = Type(0);
const BOOL: Type = Type(1);
const PHYSICAL: Type = Type(2);
const LOGICAL: Type = Type(3);
const OTHER_PHYSICAL: Type = Type(4);
const U64: Type = Type(5);

const NULL: Const = Const(0);
const LOGICAL_NULL: Const = Const(1);
const ZERO: Const = Const(2);
const ONE: Const = Const(3);
const NULL_U32: Const = Const(4);
const FALSE: Const = Const(5);
const OTHER_NULL: Const = Const(6);
const U64_ZERO: Const = Const(7);

fn lit(word: u32) -> Imm {
    Imm::Short(OperandKind(54), word)
}

fn type_def(op: u16, imms: Vec<Imm>, inputs: Vec<TypeOrConst>) -> TypeDef {
    TypeDef {
        attrs: AttrSet(0),
        kind: TypeKind::SpvInst {
            spv_inst: Inst { opcode: Opcode(op), imms },
            type_and_const_inputs: inputs,
        },
    }
}

fn const_def(ty: Type, op: u16, imms: Vec<Imm>) -> ConstDef {
    ConstDef {
        attrs: AttrSet(0),
        ty,
        kind: ConstKind::SpvInst {
            spv_inst: Inst { opcode: Opcode(op), imms },
            const_inputs: vec![],
        },
    }
}

fn context() -> Context {
    let class = |word| vec![Imm::Short(OperandKind(13), word)];
    let of = |ty| vec![TypeOrConst::Type(ty)];
    Context {
        types: vec![
            type_def(21, vec![lit(32), lit(0)], vec![]),
            type_def(20, vec![], vec![]),
            type_def(32, class(5349), of(U32)),
            type_def(32, class(12), of(U32)),
            type_def(32, class(5349), of(BOOL)),
        ],
        consts: vec![
            const_def(PHYSICAL, 46, vec![]),
            const_def(LOGICAL, 46, vec![]),
            const_def(U32, 43, vec![lit(0)]),
            const_def(U32, 43, vec![lit(1)]),
            const_def(U32, 46, vec![]),
            const_def(BOOL, 46, vec![]),
            const_def(OTHER_PHYSICAL, 46, vec![]),
        ],
        forms: vec![],
    }
}

fn spv(op: u16) -> DataInstKind {
    DataInstKind::SpvInst(Inst { opcode: Opcode(op), imms: vec![] })
}

/// A function with inputs of types `PHYSICAL` and `LOGICAL`, and blocks of
/// instructions, of which `blocks` gives the lengths.
fn func(
    cx: &mut Context,
    blocks: &[usize],
    insts: Vec<(DataInstKind, Option<Type>, Vec<Value>)>,
) -> FuncDecl {
    let mut data_insts = Vec::new();
    for (i, (kind, output_type, inputs)) in insts.into_iter().enumerate() {
        let form = cx.intern_form(DataInstFormDef { kind, output_type });
        data_insts.push(DataInstDef { attrs: AttrSet(i), form, inputs });
    }
    let mut control_nodes = Vec::new();
    let mut next = 0;
    for &len in blocks {
        control_nodes.push(ControlNodeDef {
            kind: ControlNodeKind::Block { insts: (next..next + len).map(DataInst).collect() },
            outputs: vec![],
        });
        next += len;
    }
    FuncDecl::Present(FuncDefBody {
        control_regions: vec![ControlRegionDef {
            inputs: vec![PHYSICAL, LOGICAL],
            outputs: vec![],
            exit_inputs: vec![],
        }],
        node_order: (0..control_nodes.len()).map(ControlNode).collect(),
        entry: if control_nodes.is_empty() { None } else { Some(ControlNode(0)) },
        control_nodes,
        data_insts,
    })
}

fn lowered(blocks: &[usize], insts: Vec<(DataInstKind, Option<Type>, Vec<Value>)>) -> Module {
    let mut cx = context();
    let funcs = vec![func(&mut cx, blocks, insts)];
    let exports = vec![export(0)];
    let mut m = Module { cx, exports, global_vars: vec![], funcs };
    lower_physical_nulls(&mut m);
    m
}

fn export(f: usize) -> Export {
    Export { key: ExportKey::LinkName(InternedStr(f)), exportee: Exportee::Func(Func(f)) }
}

fn input(input_idx: u32) -> Value {
    Value::ControlRegionInput { region: ControlRegion(0), input_idx }
}

fn c(c: Const) -> Value {
    Value::Const(c)
}

fn out(d: usize) -> Value {
    Value::DataInstOutput(DataInst(d))
}

fn body(m: &Module, f: usize) -> &FuncDefBody {
    match &m.funcs[f] {
        FuncDecl::Present(body) => body,
        FuncDecl::Imported => panic!(),
    }
}

fn inputs(m: &Module, d: usize) -> Vec<Value> {
    body(m, 0).data_insts[d].inputs.clone()
}

fn form(m: &Module, d: usize) -> (u16, Option<Type>) {
    let def = &m.cx.forms[body(m, 0).data_insts[d].form.0];
    match &def.kind {
        DataInstKind::SpvInst(spv_inst) => {
            assert!(spv_inst.imms.is_empty());
            (spv_inst.opcode.0, def.output_type)
        }
        _ => panic!(),
    }
}

fn block(m: &Module, node: usize) -> Vec<usize> {
    match &body(m, 0).control_nodes[node].kind {
        ControlNodeKind::Block { insts } => insts.iter().map(|d| d.0).collect(),
        _ => panic!(),
    }
}

fn dump(m: &Module) -> String {
    format!("{:?}", m)
}

#[test]
fn null_constants_of_physical_pointers_are_found() {
    let wk = WellKnown::get();
    let cx = context();
    assert_eq!(offending_null_pointer_type(&cx, &wk, NULL), Some(PHYSICAL));
    assert_eq!(offending_null_pointer_type(&cx, &wk, OTHER_NULL), Some(OTHER_PHYSICAL));
    for other in [LOGICAL_NULL, ZERO, ONE, NULL_U32, FALSE] {
        assert_eq!(offending_null_pointer_type(&cx, &wk, other), None);
    }
}

#[test]
fn u64_and_its_zero_are_interned() {
    let m = lowered(&[], vec![]);
    assert_eq!(m.cx.types.len(), 6);
    assert_eq!(m.cx.consts.len(), 8);
    let TypeKind::SpvInst { spv_inst, type_and_const_inputs } = &m.cx.types[U64.0].kind else {
        panic!()
    };
    assert_eq!(spv_inst.opcode, Opcode(21));
    assert_eq!(spv_inst.imms, [lit(64), lit(0)]);
    assert!(type_and_const_inputs.is_empty());
    assert_eq!(m.cx.consts[U64_ZERO.0].ty, U64);
    let ConstKind::SpvInst { spv_inst, const_inputs } = &m.cx.consts[U64_ZERO.0].kind else {
        panic!()
    };
    assert_eq!(spv_inst.opcode, Opcode(46));
    assert!(spv_inst.imms.is_empty());
    assert!(const_inputs.is_empty());
    assert!(m.cx.forms.is_empty());
}

#[test]
fn null_inputs_are_converted_zeros() {
    let m = lowered(
        &[2],
        vec![
            (spv(STORE), None, vec![c(NULL), c(ONE)]),
            (spv(SELECT), Some(PHYSICAL), vec![c(FALSE), c(NULL), c(OTHER_NULL)]),
        ],
    );
    assert_eq!(block(&m, 0), [2, 0, 3, 4, 1]);
    assert_eq!(inputs(&m, 0), [out(2), c(ONE)]);
    assert_eq!(inputs(&m, 1), [c(FALSE), out(3), out(4)]);
    for d in 2..5 {
        assert_eq!(inputs(&m, d), [c(U64_ZERO)]);
        assert_eq!(body(&m, 0).data_insts[d].attrs, AttrSet(0));
    }
    assert_eq!(form(&m, 2), (U_TO_PTR, Some(PHYSICAL)));
    assert_eq!(form(&m, 3), (U_TO_PTR, Some(PHYSICAL)));
    assert_eq!(form(&m, 4), (U_TO_PTR, Some(OTHER_PHYSICAL)));
    assert_eq!(form(&m, 0), (STORE, None));
    assert_eq!(form(&m, 1), (SELECT, Some(PHYSICAL)));
    assert_eq!(body(&m, 0).data_insts[1].attrs, AttrSet(1));
}

#[test]
fn other_nulls_stay() {
    let m = lowered(&[1], vec![(spv(STORE), None, vec![c(LOGICAL_NULL), c(NULL_U32)])]);
    assert_eq!(block(&m, 0), [0]);
    assert_eq!(inputs(&m, 0), [c(LOGICAL_NULL), c(NULL_U32)]);
}

#[test]
fn every_block_gets_its_own_zeros() {
    let m = lowered(
        &[1, 0, 2],
        vec![
            (spv(STORE), None, vec![c(NULL), c(ONE)]),
            (spv(STORE), None, vec![input(0), c(ONE)]),
            (spv(STORE), None, vec![c(NULL), c(ONE)]),
        ],
    );
    assert_eq!(block(&m, 0), [3, 0]);
    assert!(block(&m, 1).is_empty());
    assert_eq!(block(&m, 2), [1, 4, 2]);
    assert_eq!(inputs(&m, 2), [out(4), c(ONE)]);
}

#[test]
fn addresses_of_physical_pointers_are_widened() {
    let m = lowered(
        &[3],
        vec![
            (spv(PTR_TO_U), Some(U32), vec![input(0)]),
            (spv(PTR_TO_U), Some(U32), vec![input(1)]),
            (spv(PTR_TO_U), Some(U32), vec![]),
        ],
    );
    assert_eq!(form(&m, 0), (PTR_TO_U, Some(U64)));
    assert_eq!(form(&m, 1), (PTR_TO_U, Some(U32)));
    assert_eq!(form(&m, 2), (PTR_TO_U, Some(U32)));
    assert_eq!(inputs(&m, 0), [input(0)]);
}

#[test]
fn the_address_of_null_is_widened() {
    let m = lowered(&[1], vec![(spv(PTR_TO_U), Some(U32), vec![c(NULL)])]);
    assert_eq!(block(&m, 0), [1, 0]);
    assert_eq!(form(&m, 0), (PTR_TO_U, Some(U64)));
    assert_eq!(inputs(&m, 0), [out(1)]);
}

#[test]
fn zeros_that_a_wide_address_is_compared_to_are_widened() {
    for op in COMPARISONS {
        let m = lowered(
            &[5],
            vec![
                (spv(PTR_TO_U), Some(U32), vec![input(0)]),
                (spv(op), Some(BOOL), vec![out(0), c(ZERO)]),
                (spv(op), Some(BOOL), vec![c(NULL_U32), out(0)]),
                (spv(op), Some(BOOL), vec![out(0), c(ONE)]),
                (spv(op), Some(BOOL), vec![out(0), c(FALSE)]),
            ],
        );
        assert_eq!(inputs(&m, 1), [out(0), c(U64_ZERO)]);
        assert_eq!(inputs(&m, 2), [c(U64_ZERO), out(0)]);
        assert_eq!(inputs(&m, 3), [out(0), c(ONE)]);
        assert_eq!(inputs(&m, 4), [out(0), c(FALSE)]);
        assert_eq!(form(&m, 1), (op, Some(BOOL)));
    }
}

#[test]
fn other_zeros_stay() {
    let m = lowered(
        &[5],
        vec![
            (spv(170), Some(BOOL), vec![out(1), c(ZERO)]),
            (spv(PTR_TO_U), Some(U32), vec![input(0)]),
            (spv(PTR_TO_U), Some(U32), vec![input(1)]),
            (spv(170), Some(BOOL), vec![out(2), c(ZERO)]),
            (spv(173), Some(BOOL), vec![out(1), c(ZERO)]),
        ],
    );
    assert_eq!(inputs(&m, 0), [out(1), c(ZERO)]);
    assert_eq!(inputs(&m, 3), [out(2), c(ZERO)]);
    assert_eq!(inputs(&m, 4), [out(1), c(ZERO)]);
    assert_eq!(form(&m, 1), (PTR_TO_U, Some(U64)));
}

#[test]
fn addresses_that_are_wide_already_count_for_nothing() {
    let mut cx = context();
    cx.types.push(type_def(21, vec![lit(64), lit(0)], vec![]));
    let f = func(
        &mut cx,
        &[2],
        vec![
            (spv(PTR_TO_U), Some(U64), vec![input(0)]),
            (spv(170), Some(BOOL), vec![out(0), c(ZERO)]),
        ],
    );
    let mut m = Module { cx, exports: vec![export(0)], global_vars: vec![], funcs: vec![f] };
    lower_physical_nulls(&mut m);
    assert_eq!(m.cx.types.len(), 6);
    assert_eq!(form(&m, 0), (PTR_TO_U, Some(U64)));
    assert_eq!(inputs(&m, 1), [out(0), c(ZERO)]);
}

#[test]
fn the_constants_of_literals_with_several_words_are_zeros_if_all_words_are() {
    let mut cx = context();
    cx.consts.push(const_def(U32, 43, vec![lit(0), lit(0)]));
    cx.consts.push(const_def(U32, 43, vec![lit(0), lit(1)]));
    cx.consts.push(const_def(U32, 43, vec![Imm::LongStart(OperandKind(54), 0)]));
    let f = func(
        &mut cx,
        &[2],
        vec![
            (spv(PTR_TO_U), Some(U32), vec![input(0)]),
            (spv(170), Some(BOOL), vec![out(0), c(Const(7)), c(Const(8)), c(Const(9))]),
        ],
    );
    let mut m = Module { cx, exports: vec![export(0)], global_vars: vec![], funcs: vec![f] };
    lower_physical_nulls(&mut m);
    assert_eq!(inputs(&m, 1), [out(0), c(Const(10)), c(Const(8)), c(Const(9))]);
}

#[test]
fn only_what_can_be_reached_is_lowered() {
    let mut cx = context();
    let store = || (spv(STORE), None, vec![c(NULL), c(ONE)]);
    let call = |f| (DataInstKind::FuncCall(Func(f)), None, vec![]);
    let funcs = vec![
        func(&mut cx, &[2], vec![call(2), call(2)]),
        func(&mut cx, &[1], vec![store()]),
        func(&mut cx, &[2], vec![store(), call(0)]),
    ];
    let mut m = Module { cx, exports: vec![export(0)], global_vars: vec![], funcs };
    lower_physical_nulls(&mut m);
    assert_eq!(body(&m, 0).data_insts.len(), 2);
    assert_eq!(body(&m, 1).data_insts[0].inputs, [c(NULL), c(ONE)]);
    assert_eq!(body(&m, 2).data_insts[0].inputs, [out(2), c(ONE)]);
}

#[test]
fn widened_addresses_of_one_function_do_not_count_in_another() {
    let mut cx = context();
    let funcs = vec![
        func(&mut cx, &[1], vec![(spv(PTR_TO_U), Some(U32), vec![input(0)])]),
        func(
            &mut cx,
            &[2],
            vec![
                (spv(PTR_TO_U), Some(U32), vec![input(1)]),
                (spv(170), Some(BOOL), vec![out(0), c(ZERO)]),
            ],
        ),
    ];
    let exports = vec![export(0), export(1)];
    let mut m = Module { cx, exports, global_vars: vec![], funcs };
    lower_physical_nulls(&mut m);
    assert_eq!(form(&m, 0), (PTR_TO_U, Some(U64)));
    assert_eq!(body(&m, 1).data_insts[1].inputs, [out(0), c(ZERO)]);
}

#[test]
fn a_module_that_was_lowered_stays() {
    let mut m = lowered(
        &[2, 3],
        vec![
            (spv(PTR_TO_U), Some(U32), vec![c(NULL)]),
            (spv(170), Some(BOOL), vec![out(0), c(ZERO)]),
            (spv(SELECT), Some(PHYSICAL), vec![out(1), c(NULL), c(NULL)]),
            (spv(PTR_TO_U), Some(U32), vec![out(2)]),
            (spv(171), Some(BOOL), vec![out(3), out(0)]),
        ],
    );
    let once = dump(&m);
    lower_physical_nulls(&mut m);
    assert_eq!(dump(&m), once);
}

#[test]
fn forms_are_added_once() {
    let m = lowered(
        &[2],
        vec![
            (spv(STORE), None, vec![c(NULL), c(ONE)]),
            (spv(STORE), None, vec![c(NULL), c(ONE)]),
        ],
    );
    assert_eq!(m.cx.forms.len(), 2);
    assert_eq!(body(&m, 0).data_insts[2].form, DataInstForm(1));
    assert_eq!(body(&m, 0).data_insts[3].form, DataInstForm(1));
}

#[test]
fn conversions_lack_types() {
    let checked = |op, inputs: Vec<Value>| {
        let mut cx = context();
        let store = (spv(STORE), None, vec![input(0), c(ZERO)]);
        let funcs = vec![func(&mut cx, &[1, 1], vec![store, (spv(op), Some(U32), inputs)])];
        has_typed_conversions(&Module {
            cx,
            exports: vec![export(0)],
            global_vars: vec![],
            funcs,
        })
    };
    assert!(checked(PTR_TO_U, vec![input(0)]));
    assert!(checked(PTR_TO_U, vec![c(NULL)]));
    assert!(checked(PTR_TO_U, vec![out(1)]));
    assert!(checked(PTR_TO_U, vec![]));
    assert!(!checked(PTR_TO_U, vec![out(0)]));
    assert!(!checked(PTR_TO_U, vec![input(2)]));
    assert!(checked(SELECT, vec![out(0)]));
}

/// A function that stores, and in which other things than instructions take values.
fn with_uses() -> Module {
    let mut cx = context();
    let mut f =
        func(&mut cx, &[1, 0], vec![(spv(STORE), None, vec![input(0), c(NULL), c(ZERO)])]);
    if let FuncDecl::Present(body) = &mut f {
        body.control_regions[0].outputs = vec![c(ONE), c(NULL), c(OTHER_NULL)];
        body.control_regions.push(ControlRegionDef {
            inputs: vec![PHYSICAL],
            outputs: vec![c(LOGICAL_NULL)],
            exit_inputs: vec![c(NULL), c(FALSE)],
        });
        body.control_nodes[1].kind = ControlNodeKind::Select { scrutinee: c(NULL) };
        body.control_nodes.push(ControlNodeDef {
            kind: ControlNodeKind::Loop {
                initial_inputs: vec![c(OTHER_NULL), input(0)],
                repeat_condition: c(NULL),
            },
            outputs: vec![PHYSICAL],
        });
        body.control_nodes.push(ControlNodeDef {
            kind: ControlNodeKind::ExitInvocation { inputs: vec![c(FALSE), c(NULL)] },
            outputs: vec![],
        });
        body.node_order = vec![ControlNode(1), ControlNode(0), ControlNode(2), ControlNode(3)];
        body.entry = Some(ControlNode(1));
    }
    Module { cx, exports: vec![export(0)], global_vars: vec![], funcs: vec![f] }
}

#[test]
fn null_uses_are_zeros_converted_at_the_start() {
    let mut m = with_uses();
    lower_physical_nulls(&mut m);
    assert_eq!(inputs(&m, 0), [input(0), out(1), c(ZERO)]);
    assert_eq!(block(&m, 0), [1, 0]);

    let b = body(&m, 0);
    assert_eq!(b.control_regions[0].inputs, [PHYSICAL, LOGICAL]);
    assert_eq!(b.control_regions[0].outputs, [c(ONE), out(2), out(3)]);
    assert_eq!(b.control_regions[1].outputs, [c(LOGICAL_NULL)]);
    assert_eq!(b.control_regions[1].exit_inputs, [out(4), c(FALSE)]);
    assert!(matches!(
        b.control_nodes[1].kind,
        ControlNodeKind::Select { scrutinee } if scrutinee == out(5)
    ));
    let ControlNodeKind::Loop { initial_inputs, repeat_condition } = &b.control_nodes[2].kind
    else {
        panic!()
    };
    assert_eq!(*initial_inputs, [out(6), input(0)]);
    assert_eq!(*repeat_condition, out(7));
    assert_eq!(b.control_nodes[2].outputs, [PHYSICAL]);
    let ControlNodeKind::ExitInvocation { inputs: exit } = &b.control_nodes[3].kind else {
        panic!()
    };
    assert_eq!(*exit, [c(FALSE), out(8)]);

    assert_eq!(
        b.node_order,
        [ControlNode(4), ControlNode(1), ControlNode(0), ControlNode(2), ControlNode(3)]
    );
    assert_eq!(b.entry, Some(ControlNode(4)));
    assert_eq!(block(&m, 4), [2, 3, 4, 5, 6, 7, 8]);
    for (d, ty) in [
        (2, PHYSICAL),
        (3, OTHER_PHYSICAL),
        (4, PHYSICAL),
        (5, PHYSICAL),
        (6, OTHER_PHYSICAL),
        (7, PHYSICAL),
        (8, PHYSICAL),
    ] {
        assert_eq!(form(&m, d), (U_TO_PTR, Some(ty)));
        assert_eq!(inputs(&m, d), [c(U64_ZERO)]);
    }
    assert_eq!(b.data_insts.len(), 9);
    assert!(is_well_formed(&m));
}

#[test]
fn null_uses_are_converted_behind_an_entry_that_is_a_block() {
    let mut cx = context();
    let store = || (spv(STORE), None, vec![input(0), c(ZERO)]);
    let mut f = func(&mut cx, &[1, 1], vec![store(), store()]);
    if let FuncDecl::Present(body) = &mut f {
        body.control_regions[0].outputs = vec![c(NULL)];
    }
    let mut m = Module { cx, exports: vec![export(0)], global_vars: vec![], funcs: vec![f] };
    lower_physical_nulls(&mut m);
    let b = body(&m, 0);
    assert_eq!(b.node_order, [ControlNode(0), ControlNode(2), ControlNode(1)]);
    assert_eq!(b.entry, Some(ControlNode(0)));
    assert_eq!(block(&m, 0), [0]);
    assert_eq!(block(&m, 2), [2]);
    assert_eq!(block(&m, 1), [1]);
    assert_eq!(b.control_regions[0].outputs, [out(2)]);
    assert_eq!(form(&m, 2), (U_TO_PTR, Some(PHYSICAL)));
    assert!(is_well_formed(&m));
}

#[test]
fn null_uses_are_converted_first_where_there_is_no_entry() {
    let mut cx = context();
    let mut f = func(&mut cx, &[1], vec![(spv(STORE), None, vec![input(0), c(ZERO)])]);
    if let FuncDecl::Present(body) = &mut f {
        body.entry = None;
        body.control_regions[0].exit_inputs = vec![c(NULL)];
    }
    let mut m = Module { cx, exports: vec![export(0)], global_vars: vec![], funcs: vec![f] };
    lower_physical_nulls(&mut m);
    assert_eq!(body(&m, 0).node_order, [ControlNode(1), ControlNode(0)]);
    assert_eq!(body(&m, 0).entry, Some(ControlNode(1)));
    assert_eq!(body(&m, 0).control_regions[0].exit_inputs, [out(1)]);
}

#[test]
fn no_block_is_added_without_null_uses() {
    let m = lowered(&[1], vec![(spv(STORE), None, vec![input(0), c(NULL)])]);
    assert_eq!(body(&m, 0).node_order, [ControlNode(0)]);
    assert_eq!(body(&m, 0).control_nodes.len(), 1);
}

#[test]
fn null_uses_are_lowered_once() {
    let mut m = with_uses();
    lower_physical_nulls(&mut m);
    let once = dump(&m);
    lower_physical_nulls(&mut m);
    assert_eq!(dump(&m), once);
}

#[test]
fn classified_constants_stay_what_they_are() {
    let cx = context();
    let mut lowerer = Lowerer {
        wk: WellKnown::get(),
        u64_ty: U64,
        u64_zero: U64_ZERO,
        offending: Default::default(),
        work: Worklist::new(),
        widened_ptr_to_u: Default::default(),
    };
    for _ in 0..2 {
        assert_eq!(lowerer.classify(&cx, NULL), Some(PHYSICAL));
        assert_eq!(lowerer.classify(&cx, LOGICAL_NULL), None);
        assert_eq!(lowerer.classify(&cx, OTHER_NULL), Some(OTHER_PHYSICAL));
        assert_eq!(lowerer.classify(&cx, ZERO), None);
    }
    assert_eq!(lowerer.offending.len(), 4);
}

#[test]
fn exports_are_come_across_in_order() {
    let entry_point = |f, vars: &[usize]| Export {
        key: ExportKey::SpvEntryPoint {
            interface_global_vars: vars.iter().map(|&gv| GlobalVar(gv)).collect(),
        },
        exportee: Exportee::Func(Func(f)),
    };
    let var = |gv| Export {
        key: ExportKey::LinkName(InternedStr(gv)),
        exportee: Exportee::GlobalVar(GlobalVar(gv)),
    };
    let m = Module {
        cx: context(),
        exports: vec![
            entry_point(2, &[3, 1]),
            var(1),
            export(0),
            entry_point(2, &[0, 3]),
            var(2),
            export(0),
        ],
        global_vars: vec![GlobalVarDecl { type_of_ptr_to: LOGICAL, initializer: None }; 4],
        funcs: vec![FuncDecl::Imported, FuncDecl::Imported, FuncDecl::Imported],
    };
    let mut work = Worklist::new();
    work.transform_module(&m);
    assert_eq!(work.func_queue, [Func(2), Func(0)]);
    assert_eq!(work.seen_funcs.len(), 2);
    assert_eq!(
        work.global_var_queue,
        [GlobalVar(1), GlobalVar(2), GlobalVar(3), GlobalVar(0)]
    );
    assert_eq!(work.seen_global_vars.len(), 4);
}

#[test]
fn modules_that_are_not_in_order_are_found() {
    let change = |change: fn(&mut Module)| {
        let mut m = with_uses();
        assert!(is_well_formed(&m));
        change(&mut m);
        is_well_formed(&m)
    };
    fn body(m: &mut Module) -> &mut FuncDefBody {
        match &mut m.funcs[0] {
            FuncDecl::Present(body) => body,
            FuncDecl::Imported => panic!(),
        }
    }
    assert!(change(|m| body(m).data_insts[0].inputs.push(out(99))));
    assert!(!change(|m| m.exports.push(export(1))));
    assert!(!change(|m| m.exports[0].key = ExportKey::SpvEntryPoint {
        interface_global_vars: vec![GlobalVar(0)]
    }));
    assert!(!change(|m| m.cx.types.push(type_def(20, vec![], vec![]))));
    assert!(!change(|m| {
        m.cx.types.push(type_def(30, vec![], vec![TypeOrConst::Type(Type(5))]))
    }));
    assert!(!change(|m| m.cx.consts.push(const_def(PHYSICAL, 46, vec![]))));
    assert!(!change(|m| m.cx.consts.push(const_def(Type(5), 46, vec![]))));
    assert!(!change(|m| {
        m.cx.forms.push(DataInstFormDef { kind: spv(STORE), output_type: None })
    }));
    assert!(!change(|m| {
        m.cx.forms.push(DataInstFormDef { kind: spv(STORE), output_type: Some(Type(5)) })
    }));
    assert!(!change(|m| {
        m.cx.forms.push(DataInstFormDef {
            kind: DataInstKind::FuncCall(Func(1)),
            output_type: None,
        })
    }));
    assert!(!change(|m| body(m).data_insts[0].form = DataInstForm(1)));
    assert!(!change(|m| body(m).data_insts[0].inputs.push(c(Const(7)))));
    assert!(!change(|m| body(m).control_regions[0].inputs.push(Type(5))));
    assert!(!change(|m| body(m).control_regions[0].outputs.push(c(Const(7)))));
    assert!(!change(|m| body(m).control_regions[1].exit_inputs.push(c(Const(7)))));
    assert!(!change(|m| body(m).control_nodes[2].outputs.push(Type(5))));
    assert!(!change(|m| {
        body(m).control_nodes[1].kind = ControlNodeKind::Select { scrutinee: c(Const(7)) }
    }));
    assert!(change(|m| body(m).entry = None));
    assert!(!change(|m| body(m).entry = Some(ControlNode(0))));
    assert!(!change(|m| body(m).node_order.push(ControlNode(0))));
    assert!(!change(|m| body(m).node_order.push(ControlNode(4))));
    assert!(!change(|m| {
        body(m).control_nodes[0].kind =
            ControlNodeKind::Block { insts: vec![DataInst(0), DataInst(0)] }
    }));
    assert!(!change(|m| {
        body(m).control_nodes[0].kind = ControlNodeKind::Block { insts: vec![DataInst(1)] }
    }));
}
