//! The parts of a shader module that the passes read and write: interned types,
//! constants and instruction forms, and functions made of control nodes and
//! data instructions.
//!
//! Everything is named by an index into the table that defines it, so two
//! handles are the same exactly where they name the same entry.

use crate::spirv::{Inst, InstView};
use vstd::prelude::*;

verus! {

/// A set of attributes. Attributes are carried along and never looked into.
#[derive(Clone, Copy, PartialEq, Eq, Hash, Debug, Structural)]
pub struct AttrSet(pub usize);

impl Default for AttrSet {
    /// The empty set, which is number 0.
    fn default() -> (attrs: Self)
        ensures
            attrs == AttrSet(0),
    {
        AttrSet(0)
    }
}

/// An interned string.
#[derive(Clone, Copy, PartialEq, Eq, Hash, Debug, Structural)]
pub struct InternedStr(pub usize);

/// An operation on untyped pointers. The passes have no business with these.
#[derive(Clone, Copy, PartialEq, Eq, Hash, Debug, Structural)]
pub struct QPtrOp(pub usize);

/// An interned [`TypeDef`].
#[derive(Clone, Copy, PartialEq, Eq, Hash, Debug, Structural)]
pub struct Type(pub usize);

/// An interned [`ConstDef`].
#[derive(Clone, Copy, PartialEq, Eq, Hash, Debug, Structural)]
pub struct Const(pub usize);

/// An interned [`DataInstFormDef`].
#[derive(Clone, Copy, PartialEq, Eq, Hash, Debug, Structural)]
pub struct DataInstForm(pub usize);

/// A global variable of a module.
#[derive(Clone, Copy, PartialEq, Eq, Hash, Debug, Structural)]
pub struct GlobalVar(pub usize);

/// A function of a module.
#[derive(Clone, Copy, PartialEq, Eq, Hash, Debug, Structural)]
pub struct Func(pub usize);

/// A control region of a function.
#[derive(Clone, Copy, PartialEq, Eq, Hash, Debug, Structural)]
pub struct ControlRegion(pub usize);

/// A control node of a function.
#[derive(Clone, Copy, PartialEq, Eq, Hash, Debug, Structural)]
pub struct ControlNode(pub usize);

/// A data instruction of a function.
#[derive(Clone, Copy, PartialEq, Eq, Hash, Debug, Structural)]
pub struct DataInst(pub usize);

/// An operand of a type.
#[derive(Clone, Copy, PartialEq, Eq, Hash, Debug, Structural)]
pub enum TypeOrConst {
    Type(Type),
    Const(Const),
}

/// What a type is made of.
#[derive(Debug)]
pub enum TypeKind {
    /// An untyped pointer.
    QPtr,
    /// An `OpType*` instruction.
    SpvInst { spv_inst: Inst, type_and_const_inputs: Vec<TypeOrConst> },
    /// The type of a string literal of an extended instruction.
    SpvStringLiteralForExtInst,
}

/// The definition of a [`Type`].
#[derive(Debug)]
pub struct TypeDef {
    pub attrs: AttrSet,
    pub kind: TypeKind,
}

/// What a constant is made of.
#[derive(Debug)]
pub enum ConstKind {
    /// The address of a global variable.
    PtrToGlobalVar(GlobalVar),
    /// An `OpConstant*` instruction.
    SpvInst { spv_inst: Inst, const_inputs: Vec<Const> },
    /// A string literal of an extended instruction.
    SpvStringLiteralForExtInst(InternedStr),
}

/// The definition of a [`Const`].
#[derive(Debug)]
pub struct ConstDef {
    pub attrs: AttrSet,
    pub ty: Type,
    pub kind: ConstKind,
}

/// What a data instruction does.
#[derive(Debug)]
pub enum DataInstKind {
    FuncCall(Func),
    QPtr(QPtrOp),
    SpvInst(Inst),
    SpvExtInst { ext_set: InternedStr, inst: u32 },
}

/// The part of a data instruction that does not depend on its operands.
#[derive(Debug)]
pub struct DataInstFormDef {
    pub kind: DataInstKind,
    pub output_type: Option<Type>,
}

/// A value that an instruction takes.
#[derive(Clone, Copy, PartialEq, Eq, Hash, Debug, Structural)]
pub enum Value {
    Const(Const),
    ControlRegionInput { region: ControlRegion, input_idx: u32 },
    ControlNodeOutput { control_node: ControlNode, output_idx: u32 },
    DataInstOutput(DataInst),
}

/// The definition of a [`DataInst`].
#[derive(Debug)]
pub struct DataInstDef {
    pub attrs: AttrSet,
    pub form: DataInstForm,
    pub inputs: Vec<Value>,
}

/// The definition of a [`ControlRegion`]: the types of its inputs, and the values that
/// it hands on. In a function whose control flow is not structured, `exit_inputs` are
/// the values that the instruction takes which leaves the region, those for the regions
/// that it branches to among them.
#[derive(Debug)]
pub struct ControlRegionDef {
    pub inputs: Vec<Type>,
    pub outputs: Vec<Value>,
    pub exit_inputs: Vec<Value>,
}

/// What a control node does, and the values that it takes. Only blocks hold data
/// instructions, and they take no values of their own.
#[derive(Debug)]
pub enum ControlNodeKind {
    Block { insts: Vec<DataInst> },
    Select { scrutinee: Value },
    Loop { initial_inputs: Vec<Value>, repeat_condition: Value },
    ExitInvocation { inputs: Vec<Value> },
}

/// The definition of a [`ControlNode`], with the types of its outputs.
#[derive(Debug)]
pub struct ControlNodeDef {
    pub kind: ControlNodeKind,
    pub outputs: Vec<Type>,
}

/// The body of a function. `node_order` lists the control nodes of the function
/// in the order in which a walk through the function reaches them. `entry` is the first
/// node of the region with which the function starts, and so the first that a walk
/// reaches; there is none where that region has no nodes.
#[derive(Debug)]
pub struct FuncDefBody {
    pub control_regions: Vec<ControlRegionDef>,
    pub control_nodes: Vec<ControlNodeDef>,
    pub data_insts: Vec<DataInstDef>,
    pub node_order: Vec<ControlNode>,
    pub entry: Option<ControlNode>,
}

/// A function, which is either imported or has a body.
#[derive(Debug)]
pub enum FuncDecl {
    Imported,
    Present(FuncDefBody),
}

/// A global variable.
#[derive(Clone, Copy, PartialEq, Eq, Debug, Structural)]
pub struct GlobalVarDecl {
    pub type_of_ptr_to: Type,
    pub initializer: Option<Const>,
}

/// The name under which something is exported.
#[derive(Debug)]
pub enum ExportKey {
    LinkName(InternedStr),
    SpvEntryPoint { interface_global_vars: Vec<GlobalVar> },
}

/// What is exported.
#[derive(Clone, Copy, PartialEq, Eq, Debug, Structural)]
pub enum Exportee {
    GlobalVar(GlobalVar),
    Func(Func),
}

/// One export of a module.
#[derive(Debug)]
pub struct Export {
    pub key: ExportKey,
    pub exportee: Exportee,
}

/// What a [`TypeKind`] holds.
#[verifier::ext_equal]
pub enum TypeKindView {
    QPtr,
    SpvInst { spv_inst: InstView, inputs: Seq<TypeOrConst> },
    SpvStringLiteralForExtInst,
}

/// What a [`TypeDef`] holds.
#[verifier::ext_equal]
pub struct TypeDefView {
    pub attrs: AttrSet,
    pub kind: TypeKindView,
}

/// What a [`ConstKind`] holds.
#[verifier::ext_equal]
pub enum ConstKindView {
    PtrToGlobalVar(GlobalVar),
    SpvInst { spv_inst: InstView, inputs: Seq<Const> },
    SpvStringLiteralForExtInst(InternedStr),
}

/// What a [`ConstDef`] holds.
#[verifier::ext_equal]
pub struct ConstDefView {
    pub attrs: AttrSet,
    pub ty: Type,
    pub kind: ConstKindView,
}

/// What a [`DataInstKind`] holds.
#[verifier::ext_equal]
pub enum DataInstKindView {
    FuncCall(Func),
    QPtr(QPtrOp),
    SpvInst(InstView),
    SpvExtInst { ext_set: InternedStr, inst: u32 },
}

/// What a [`DataInstFormDef`] holds.
#[verifier::ext_equal]
pub struct FormView {
    pub kind: DataInstKindView,
    pub output_type: Option<Type>,
}

/// What a [`DataInstDef`] holds, with the definition of its form in place of the
/// form's handle.
#[verifier::ext_equal]
pub struct DataInstView {
    pub attrs: AttrSet,
    pub form: FormView,
    pub inputs: Seq<Value>,
}

/// What a [`ControlNodeKind`] holds.
#[verifier::ext_equal]
pub enum NodeKindView {
    Block { insts: Seq<DataInst> },
    Select { scrutinee: Value },
    Loop { initial_inputs: Seq<Value>, repeat_condition: Value },
    ExitInvocation { inputs: Seq<Value> },
}

/// What a [`ControlNodeDef`] holds.
#[verifier::ext_equal]
pub struct NodeView {
    pub kind: NodeKindView,
    pub outputs: Seq<Type>,
}

/// What a [`ControlRegionDef`] holds.
#[verifier::ext_equal]
pub struct RegionView {
    pub inputs: Seq<Type>,
    pub outputs: Seq<Value>,
    pub exit_inputs: Seq<Value>,
}

/// What a [`FuncDefBody`] holds, forms resolved.
#[verifier::ext_equal]
pub struct BodyView {
    pub regions: Seq<RegionView>,
    pub nodes: Seq<NodeView>,
    pub insts: Seq<DataInstView>,
    pub node_order: Seq<ControlNode>,
    pub entry: Option<ControlNode>,
}

/// What a [`FuncDecl`] holds, forms resolved.
#[verifier::ext_equal]
pub enum FuncView {
    Imported,
    Present(BodyView),
}

/// What an [`ExportKey`] holds.
#[verifier::ext_equal]
pub enum ExportKeyView {
    LinkName(InternedStr),
    SpvEntryPoint { interface_global_vars: Seq<GlobalVar> },
}

/// What an [`Export`] holds.
#[verifier::ext_equal]
pub struct ExportView {
    pub key: ExportKeyView,
    pub exportee: Exportee,
}

impl View for TypeKind {
    type V = TypeKindView;

    open spec fn view(&self) -> TypeKindView {
        match self {
            TypeKind::QPtr => TypeKindView::QPtr,
            TypeKind::SpvInst { spv_inst, type_and_const_inputs } => TypeKindView::SpvInst {
                spv_inst: spv_inst@,
                inputs: type_and_const_inputs@,
            },
            TypeKind::SpvStringLiteralForExtInst => TypeKindView::SpvStringLiteralForExtInst,
        }
    }
}

impl View for TypeDef {
    type V = TypeDefView;

    open spec fn view(&self) -> TypeDefView {
        TypeDefView { attrs: self.attrs, kind: self.kind@ }
    }
}

impl View for ConstKind {
    type V = ConstKindView;

    open spec fn view(&self) -> ConstKindView {
        match self {
            ConstKind::PtrToGlobalVar(gv) => ConstKindView::PtrToGlobalVar(*gv),
            ConstKind::SpvInst { spv_inst, const_inputs } => ConstKindView::SpvInst {
                spv_inst: spv_inst@,
                inputs: const_inputs@,
            },
            ConstKind::SpvStringLiteralForExtInst(s) => {
                ConstKindView::SpvStringLiteralForExtInst(*s)
            },
        }
    }
}

impl View for ConstDef {
    type V = ConstDefView;

    open spec fn view(&self) -> ConstDefView {
        ConstDefView { attrs: self.attrs, ty: self.ty, kind: self.kind@ }
    }
}

impl View for DataInstKind {
    type V = DataInstKindView;

    open spec fn view(&self) -> DataInstKindView {
        match self {
            DataInstKind::FuncCall(func) => DataInstKindView::FuncCall(*func),
            DataInstKind::QPtr(op) => DataInstKindView::QPtr(*op),
            DataInstKind::SpvInst(spv_inst) => DataInstKindView::SpvInst(spv_inst@),
            DataInstKind::SpvExtInst { ext_set, inst } => DataInstKindView::SpvExtInst {
                ext_set: *ext_set,
                inst: *inst,
            },
        }
    }
}

impl View for DataInstFormDef {
    type V = FormView;

    open spec fn view(&self) -> FormView {
        FormView { kind: self.kind@, output_type: self.output_type }
    }
}

impl View for ControlNodeKind {
    type V = NodeKindView;

    open spec fn view(&self) -> NodeKindView {
        match self {
            ControlNodeKind::Block { insts } => NodeKindView::Block { insts: insts@ },
            ControlNodeKind::Select { scrutinee } => NodeKindView::Select { scrutinee: *scrutinee },
            ControlNodeKind::Loop { initial_inputs, repeat_condition } => NodeKindView::Loop {
                initial_inputs: initial_inputs@,
                repeat_condition: *repeat_condition,
            },
            ControlNodeKind::ExitInvocation { inputs } => NodeKindView::ExitInvocation {
                inputs: inputs@,
            },
        }
    }
}

impl View for ControlRegionDef {
    type V = RegionView;

    open spec fn view(&self) -> RegionView {
        RegionView {
            inputs: self.inputs@,
            outputs: self.outputs@,
            exit_inputs: self.exit_inputs@,
        }
    }
}

impl View for ControlNodeDef {
    type V = NodeView;

    open spec fn view(&self) -> NodeView {
        NodeView { kind: self.kind@, outputs: self.outputs@ }
    }
}

impl View for ExportKey {
    type V = ExportKeyView;

    open spec fn view(&self) -> ExportKeyView {
        match self {
            ExportKey::LinkName(s) => ExportKeyView::LinkName(*s),
            ExportKey::SpvEntryPoint { interface_global_vars } => ExportKeyView::SpvEntryPoint {
                interface_global_vars: interface_global_vars@,
            },
        }
    }
}

impl View for Export {
    type V = ExportView;

    open spec fn view(&self) -> ExportView {
        ExportView { key: self.key@, exportee: self.exportee }
    }
}

impl DataInstDef {
    /// What this instruction holds, where `forms` are the forms of the module.
    pub open spec fn view_in(&self, forms: Seq<FormView>) -> DataInstView {
        DataInstView {
            attrs: self.attrs,
            form: forms[self.form.0 as int],
            inputs: self.inputs@,
        }
    }
}

impl FuncDefBody {
    /// What this body holds, where `forms` are the forms of the module.
    pub open spec fn view_in(&self, forms: Seq<FormView>) -> BodyView {
        BodyView {
            regions: Seq::new(self.control_regions@.len(), |i: int| self.control_regions@[i]@),
            nodes: Seq::new(self.control_nodes@.len(), |i: int| self.control_nodes@[i]@),
            insts: Seq::new(self.data_insts@.len(), |i: int| self.data_insts@[i].view_in(forms)),
            node_order: self.node_order@,
            entry: self.entry,
        }
    }

    /// Every instruction has one of the first `n_forms` forms.
    pub open spec fn forms_within(&self, n_forms: int) -> bool {
        forall|i: int| 0 <= i < self.data_insts@.len() ==> #[trigger] self.data_insts@[i].form.0 < n_forms
    }
}

/// More forms change nothing in a body that uses the first of them.
pub proof fn lemma_view_in_more_forms(body: FuncDefBody, forms: Seq<FormView>, more: Seq<FormView>)
    requires
        body.forms_within(forms.len() as int),
        forms.is_prefix_of(more),
    ensures
        body.forms_within(more.len() as int),
        body.view_in(more) == body.view_in(forms),
{
    assert forall|i: int| 0 <= i < body.data_insts@.len() implies #[trigger] body.view_in(
        more,
    ).insts[i] == body.view_in(forms).insts[i] by {
        let form = body.data_insts@[i].form;
        assert(more[form.0 as int] == forms[form.0 as int]);
    }
    assert(body.view_in(more).insts =~= body.view_in(forms).insts);
}

impl FuncDecl {
    /// What this function holds, where `forms` are the forms of the module.
    pub open spec fn view_in(&self, forms: Seq<FormView>) -> FuncView {
        match self {
            FuncDecl::Imported => FuncView::Imported,
            FuncDecl::Present(body) => FuncView::Present(body.view_in(forms)),
        }
    }

    /// Every instruction has one of the first `n_forms` forms.
    pub open spec fn forms_within(&self, n_forms: int) -> bool {
        self matches FuncDecl::Present(body) ==> body.forms_within(n_forms)
    }
}

/// Every constant among `values` is one of so many.
pub open spec fn values_wf(values: Seq<Value>, n_consts: int) -> bool {
    forall|i: int|
        0 <= i < values.len() ==> (#[trigger] values[i] matches Value::Const(c) ==> c.0 < n_consts)
}

/// Values in order are those that are made of values in order.
pub proof fn lemma_values_wf_add(a: Seq<Value>, b: Seq<Value>, n_consts: int)
    ensures
        values_wf(a + b, n_consts) == (values_wf(a, n_consts) && values_wf(b, n_consts)),
{
    if values_wf(a + b, n_consts) {
        assert forall|i: int| 0 <= i < a.len() implies (
        #[trigger] a[i] matches Value::Const(c) ==> c.0 < n_consts) by {
            assert((a + b)[i] == a[i]);
        }
        assert forall|i: int| 0 <= i < b.len() implies (
        #[trigger] b[i] matches Value::Const(c) ==> c.0 < n_consts) by {
            assert((a + b)[a.len() + i] == b[i]);
        }
    }
    if values_wf(a, n_consts) && values_wf(b, n_consts) {
        assert forall|i: int| 0 <= i < (a + b).len() implies (
        #[trigger] (a + b)[i] matches Value::Const(c) ==> c.0 < n_consts) by {
            if i < a.len() {
                assert((a + b)[i] == a[i]);
            } else {
                assert((a + b)[i] == b[i - a.len()]);
            }
        }
    }
}

impl RegionView {
    /// The values that the region hands on.
    pub open spec fn values(self) -> Seq<Value> {
        self.outputs + self.exit_inputs
    }
}

impl NodeView {
    /// The values that a node takes.
    pub open spec fn values(self) -> Seq<Value> {
        match self.kind {
            NodeKindView::Block { .. } => Seq::empty(),
            NodeKindView::Select { scrutinee } => seq![scrutinee],
            NodeKindView::Loop { initial_inputs, repeat_condition } => initial_inputs.push(
                repeat_condition,
            ),
            NodeKindView::ExitInvocation { inputs } => inputs,
        }
    }

    /// The instructions of a node, which is none where the node is not a block.
    pub open spec fn insts(self) -> Seq<DataInst> {
        match self.kind {
            NodeKindView::Block { insts } => insts,
            _ => Seq::empty(),
        }
    }

    /// A block with these instructions. Another node has none, and stays as it is.
    pub open spec fn with_insts(self, insts: Seq<DataInst>) -> NodeView {
        match self.kind {
            NodeKindView::Block { .. } => NodeView { kind: NodeKindView::Block { insts }, ..self },
            _ => self,
        }
    }
}

impl FuncDefBody {
    /// How many instructions a node has.
    pub fn block_len(&self, node: ControlNode) -> (len: usize)
        requires
            node.0 < self.control_nodes@.len(),
        ensures
            len == self.control_nodes@[node.0 as int]@.insts().len(),
    {
        match &self.control_nodes[node.0].kind {
            ControlNodeKind::Block { insts } => insts.len(),
            _ => 0,
        }
    }

    /// The `j`-th instruction of a node.
    pub fn block_inst(&self, node: ControlNode, j: usize) -> (inst: DataInst)
        requires
            node.0 < self.control_nodes@.len(),
            j < self.control_nodes@[node.0 as int]@.insts().len(),
        ensures
            inst == self.control_nodes@[node.0 as int]@.insts()[j as int],
    {
        match &self.control_nodes[node.0].kind {
            ControlNodeKind::Block { insts } => insts[j],
            _ => DataInst(0),
        }
    }
}

impl BodyView {
    /// The instructions of the `n`-th node that a walk reaches, which is none
    /// where that node is not a block.
    pub open spec fn block(self, n: int) -> Seq<DataInst> {
        self.nodes[self.node_order[n].0 as int].insts()
    }

    /// A walk reaches instruction `d` before it comes to the `j`-th of its `n`-th
    /// node.
    pub open spec fn visits_before(self, n: int, j: int, d: DataInst) -> bool {
        exists|n2: int, j2: int| #[trigger]
            self.visits_at(n2, j2, d) && (n2 < n || (n2 == n && j2 < j))
    }

    /// A walk reaches instruction `d`.
    pub open spec fn visits(self, d: DataInst) -> bool {
        exists|n: int, j: int| self.visits_at(n, j, d)
    }

    /// A walk reaches instruction `d` as the `j`-th of its `n`-th node.
    pub open spec fn visits_at(self, n: int, j: int, d: DataInst) -> bool {
        &&& 0 <= n < self.node_order.len()
        &&& 0 <= j < self.block(n).len()
        &&& self.block(n)[j] == d
    }

    /// The body calls `func`, in an instruction that a walk reaches.
    pub open spec fn calls(self, func: Func) -> bool {
        exists|d: DataInst| #[trigger] self.visits(d) && self.insts[d.0 as int].form.kind
            == DataInstKindView::FuncCall(func)
    }

    /// The walk reaches each node once, and each instruction that it reaches in one
    /// place of one block. It starts with the entry.
    pub open spec fn walk_wf(self) -> bool {
        &&& self.entry matches Some(c) ==> self.node_order.len() > 0 && self.node_order[0] == c
        &&& forall|n: int|
            0 <= n < self.node_order.len() ==> #[trigger] self.node_order[n].0 < self.nodes.len()
        &&& self.node_order.no_duplicates()
        &&& forall|n: int, j: int, d: DataInst| #[trigger]
            self.visits_at(n, j, d) ==> d.0 < self.insts.len()
        &&& forall|n: int, j: int, n2: int, j2: int, d: DataInst|
            #![trigger self.visits_at(n, j, d), self.visits_at(n2, j2, d)]
            self.visits_at(n, j, d) && self.visits_at(n2, j2, d) ==> n == n2 && j == j2
    }

    /// Every type, constant and function is one of so many.
    pub open spec fn handles_wf(self, n_types: int, n_consts: int, n_funcs: int) -> bool {
        &&& forall|r: int, i: int|
            0 <= r < self.regions.len() && 0 <= i < self.regions[r].inputs.len()
                ==> #[trigger] self.regions[r].inputs[i].0 < n_types
        &&& forall|r: int|
            0 <= r < self.regions.len() ==> values_wf(
                (#[trigger] self.regions[r]).values(),
                n_consts,
            )
        &&& forall|n: int, i: int|
            0 <= n < self.nodes.len() && 0 <= i < self.nodes[n].outputs.len()
                ==> #[trigger] self.nodes[n].outputs[i].0 < n_types
        &&& forall|n: int|
            0 <= n < self.nodes.len() ==> values_wf((#[trigger] self.nodes[n]).values(), n_consts)
        &&& forall|d: int|
            0 <= d < self.insts.len() ==> (#[trigger] self.insts[d]).wf(n_types, n_consts, n_funcs)
    }

    /// The body is in order, and has no more nodes and instructions than there are
    /// handles for.
    pub open spec fn wf(self, n_types: int, n_consts: int, n_funcs: int) -> bool {
        &&& self.nodes.len() <= usize::MAX
        &&& self.insts.len() <= usize::MAX
        &&& self.walk_wf()
        &&& self.handles_wf(n_types, n_consts, n_funcs)
    }
}

impl BodyView {
    /// One step further, a walk has come past one more instruction.
    pub proof fn lemma_visits_step(self, n: int, j: int, d: DataInst)
        requires
            self.visits_at(n, j, d),
        ensures
            forall|x: DataInst| #[trigger]
                self.visits_before(n, j + 1, x) <==> self.visits_before(n, j, x) || x == d,
    {
        assert forall|x: DataInst| #[trigger]
            self.visits_before(n, j + 1, x) <==> self.visits_before(n, j, x) || x == d by {
            if self.visits_before(n, j + 1, x) && x != d {
                let (n2, j2) = choose|n2: int, j2: int| #[trigger]
                    self.visits_at(n2, j2, x) && (n2 < n || (n2 == n && j2 < j + 1));
                assert(!(n2 == n && j2 == j));
            }
            if self.visits_before(n, j, x) {
                let (n2, j2) = choose|n2: int, j2: int| #[trigger]
                    self.visits_at(n2, j2, x) && (n2 < n || (n2 == n && j2 < j));
                assert(self.visits_at(n2, j2, x));
            }
        }
    }

    /// At the end of a node, a walk is at the start of the next.
    pub proof fn lemma_visits_next_node(self, n: int)
        ensures
            forall|x: DataInst| #[trigger]
                self.visits_before(n + 1, 0, x) <==> self.visits_before(
                    n,
                    self.block(n).len() as int,
                    x,
                ),
    {
        assert forall|x: DataInst| #[trigger]
            self.visits_before(n + 1, 0, x) <==> self.visits_before(
                n,
                self.block(n).len() as int,
                x,
            ) by {
            if self.visits_before(n + 1, 0, x) {
                let (n2, j2) = choose|n2: int, j2: int| #[trigger]
                    self.visits_at(n2, j2, x) && (n2 < n + 1 || (n2 == n + 1 && j2 < 0));
                assert(self.visits_at(n2, j2, x));
            }
            if self.visits_before(n, self.block(n).len() as int, x) {
                let (n2, j2) = choose|n2: int, j2: int| #[trigger]
                    self.visits_at(n2, j2, x) && (n2 < n || (n2 == n && j2 < self.block(n).len()));
                assert(self.visits_at(n2, j2, x));
            }
        }
    }

    /// At its start a walk has come past nothing, and at its end past all that it
    /// reaches.
    pub proof fn lemma_visits_ends(self)
        ensures
            forall|x: DataInst| !#[trigger] self.visits_before(0, 0, x),
            forall|x: DataInst| #[trigger]
                self.visits_before(self.node_order.len() as int, 0, x) <==> self.visits(x),
    {
        assert forall|x: DataInst| #[trigger]
            self.visits_before(self.node_order.len() as int, 0, x) <==> self.visits(x) by {
            if self.visits(x) {
                let (n, j) = choose|n: int, j: int| self.visits_at(n, j, x);
                assert(self.visits_at(n, j, x));
            }
        }
    }

    /// A walk comes to instructions of the body.
    pub proof fn lemma_visited_in_range(self, d: DataInst)
        requires
            self.walk_wf(),
            self.visits(d),
        ensures
            d.0 < self.insts.len(),
    {
        let (n, j) = choose|n: int, j: int| self.visits_at(n, j, d);
        assert(self.visits_at(n, j, d));
    }

    /// A walk comes to an instruction once.
    pub proof fn lemma_visits_once(self, n: int, j: int, d: DataInst)
        requires
            self.walk_wf(),
            self.visits_at(n, j, d),
        ensures
            !self.visits_before(n, j, d),
    {
    }
}

impl FormView {
    /// Every handle names an entry of its table.
    pub open spec fn wf(self, n_types: int, n_funcs: int) -> bool {
        &&& self.output_type matches Some(ty) ==> ty.0 < n_types
        &&& self.kind matches DataInstKindView::FuncCall(func) ==> func.0 < n_funcs
    }
}

impl DataInstView {
    /// Every handle names an entry of its table.
    pub open spec fn wf(self, n_types: int, n_consts: int, n_funcs: int) -> bool {
        &&& self.form.wf(n_types, n_funcs)
        &&& forall|i: int|
            0 <= i < self.inputs.len() ==> (#[trigger] self.inputs[i] matches Value::Const(c)
                ==> c.0 < n_consts)
    }
}

} // verus!
