//! What becomes of null checks of physical pointers, instruction by instruction.

use crate::context::{interned, lemma_interned, ContextView, ModuleView};
use crate::ir::{
    AttrSet, BodyView, Const, ConstDefView, ConstKindView, ControlNode, DataInst, DataInstKindView,
    DataInstView, FormView, Func, FuncView, NodeView, Type, TypeDefView, TypeKindView, TypeOrConst,
    Value,
};
use crate::reach::{calls, lemma_same_reach, reachable};
use crate::rewrite::changed_funcs;
use crate::spirv::{Imm, InstView, Opcode};
use crate::types::{is_physical, type_of};
use crate::well_known::spv;
use vstd::prelude::*;

verus! {

/// The type of unsigned 64-bit integers.
pub open spec fn u64_type() -> TypeDefView {
    TypeDefView {
        attrs: AttrSet(0),
        kind: TypeKindView::SpvInst {
            spv_inst: InstView {
                opcode: spv().op_type_int,
                imms: seq![
                    Imm::Short(spv().literal_integer, 64),
                    Imm::Short(spv().literal_integer, 0),
                ],
            },
            inputs: Seq::empty(),
        },
    }
}

/// The null constant of type `ty`.
pub open spec fn null_const(ty: Type) -> ConstDefView {
    ConstDefView {
        attrs: AttrSet(0),
        ty,
        kind: ConstKindView::SpvInst {
            spv_inst: InstView { opcode: spv().op_constant_null, imms: Seq::empty() },
            inputs: Seq::empty(),
        },
    }
}

/// The types and constants of a module, among them the type `u64` and its zero.
#[verifier::ext_equal]
pub struct Env {
    pub types: Seq<TypeDefView>,
    pub consts: Seq<ConstDefView>,
    pub u64_ty: Type,
    pub u64_zero: Const,
}

/// The types and constants of a module after `u64` and its zero were interned.
pub open spec fn lowering_env(cx: ContextView) -> Env {
    let types = interned(cx.types, u64_type());
    let u64_ty = Type(types.index_of(u64_type()) as usize);
    let consts = interned(cx.consts, null_const(u64_ty));
    Env { types, consts, u64_ty, u64_zero: Const(consts.index_of(null_const(u64_ty)) as usize) }
}

/// The type of constant `c`, where that is the null of a physical pointer type.
pub open spec fn null_pointer_type(
    types: Seq<TypeDefView>,
    consts: Seq<ConstDefView>,
    c: Const,
) -> Option<Type> {
    let def = consts[c.0 as int];
    match def.kind {
        ConstKindView::SpvInst { spv_inst, .. } => if spv_inst.opcode == spv().op_constant_null
            && is_physical(types, def.ty) {
            Some(def.ty)
        } else {
            None
        },
        _ => None,
    }
}

/// `op` compares integers for equality or as unsigned numbers.
pub open spec fn is_comparison(op: Opcode) -> bool {
    ||| op == spv().op_i_equal
    ||| op == spv().op_i_not_equal
    ||| op == spv().op_u_greater_than
    ||| op == spv().op_u_greater_than_equal
    ||| op == spv().op_u_less_than
    ||| op == spv().op_u_less_than_equal
}

/// The constant is written as a zero: as a null, or as a literal all words of
/// which are zero.
pub open spec fn is_zero(def: ConstDefView) -> bool {
    match def.kind {
        ConstKindView::SpvInst { spv_inst, .. } => {
            ||| spv_inst.opcode == spv().op_constant_null
            ||| spv_inst.opcode == spv().op_constant && forall|i: int|
                0 <= i < spv_inst.imms.len() ==> (#[trigger] spv_inst.imms[i] matches Imm::Short(
                    _,
                    word,
                ) && word == 0)
        },
        _ => false,
    }
}

/// The type is an `OpTypeInt`.
pub open spec fn is_int(def: TypeDefView) -> bool {
    def.kind matches TypeKindView::SpvInst { spv_inst, .. } && spv_inst.opcode == spv().op_type_int
}

/// An instruction takes the output of one of these instructions.
pub open spec fn takes_any_of(inputs: Seq<Value>, insts: Set<usize>) -> bool {
    exists|i: int|
        0 <= i < inputs.len() && (#[trigger] inputs[i] matches Value::DataInstOutput(d)
            && insts.contains(d.0))
}

/// How far a body was lowered: its instructions, with the new ones at the end,
/// and which conversions give a `u64` that did not before.
#[verifier::ext_equal]
pub struct Lowering {
    pub insts: Seq<DataInstView>,
    pub widened: Set<usize>,
}

impl Env {
    /// The type of `v`, where that is the null of a physical pointer type.
    pub open spec fn null_type(self, v: Value) -> Option<Type> {
        match v {
            Value::Const(c) => null_pointer_type(self.types, self.consts, c),
            _ => None,
        }
    }

    /// The types of the physical null pointers among `values`, in order.
    pub open spec fn null_types(self, values: Seq<Value>) -> Seq<Type>
        decreases values.len(),
    {
        if values.len() == 0 {
            Seq::empty()
        } else {
            let before = self.null_types(values.drop_last());
            match self.null_type(values.last()) {
                Some(ty) => before.push(ty),
                None => before,
            }
        }
    }

    /// The values with the outputs of instructions `first`, `first + 1` and so on
    /// in place of the physical null pointers.
    pub open spec fn without_nulls(self, values: Seq<Value>, first: int) -> Seq<Value> {
        Seq::new(
            values.len(),
            |i: int|
                if self.null_type(values[i]) is Some {
                    Value::DataInstOutput(
                        DataInst((first + self.null_types(values.take(i)).len()) as usize),
                    )
                } else {
                    values[i]
                },
        )
    }

    /// A conversion of a `u64` zero to a pointer of type `ty`.
    pub open spec fn null_inst(self, ty: Type) -> DataInstView {
        DataInstView {
            attrs: AttrSet(0),
            form: FormView {
                kind: DataInstKindView::SpvInst(
                    InstView { opcode: spv().op_convert_u_to_ptr, imms: Seq::empty() },
                ),
                output_type: Some(ty),
            },
            inputs: seq![Value::Const(self.u64_zero)],
        }
    }

    /// The instructions that take the place of the physical null pointers among
    /// `values`, in order.
    pub open spec fn null_insts(self, values: Seq<Value>) -> Seq<DataInstView> {
        self.null_types(values).map_values(|ty: Type| self.null_inst(ty))
    }

    /// `inst` converts a physical pointer to an integer that is not a `u64`.
    pub open spec fn is_narrow_address(self, body: BodyView, inst: DataInstView) -> bool {
        &&& inst.form.kind matches DataInstKindView::SpvInst(spv_inst)
        &&& spv_inst.opcode == spv().op_convert_ptr_to_u
        &&& inst.form.output_type != Some(self.u64_ty)
        &&& inst.inputs.len() > 0
        &&& type_of(self.consts, body, inst.inputs[0]) matches Some(ty)
        &&& is_physical(self.types, ty)
    }

    /// `v` is a zero of an integer type other than `u64`.
    pub open spec fn is_narrow_zero(self, v: Value) -> bool {
        &&& v matches Value::Const(c)
        &&& self.consts[c.0 as int].ty != self.u64_ty
        &&& is_int(self.types[self.consts[c.0 as int].ty.0 as int])
        &&& is_zero(self.consts[c.0 as int])
    }

    /// The values with `u64` zeros in place of other integer zeros.
    pub open spec fn with_wide_zeros(self, values: Seq<Value>) -> Seq<Value> {
        values.map_values(
            |v: Value|
                if self.is_narrow_zero(v) {
                    Value::Const(self.u64_zero)
                } else {
                    v
                },
        )
    }

    /// An instruction whose physical null pointers come from instructions `first`,
    /// `first + 1` and so on.
    pub open spec fn without_nulls_inst(self, inst: DataInstView, first: int) -> DataInstView {
        DataInstView { inputs: self.without_nulls(inst.inputs, first), ..inst }
    }

    /// The instruction with `u64` as the type of its output.
    pub open spec fn widened_inst(self, inst: DataInstView) -> DataInstView {
        DataInstView {
            form: FormView { output_type: Some(self.u64_ty), ..inst.form },
            ..inst
        }
    }

    /// A comparison with a `widened` address has its zeros widened. Nothing
    /// becomes of another instruction.
    pub open spec fn patched_inst(self, inst: DataInstView, widened: Set<usize>) -> DataInstView {
        match inst.form.kind {
            DataInstKindView::SpvInst(spv_inst) => if is_comparison(spv_inst.opcode)
                && takes_any_of(inst.inputs, widened) {
                DataInstView { inputs: self.with_wide_zeros(inst.inputs), ..inst }
            } else {
                inst
            },
            _ => inst,
        }
    }

    /// One instruction further: physical null pointers that instruction `d` takes
    /// come from new instructions, and then it is widened where it is an address,
    /// and has its zeros widened where it compares one.
    pub open spec fn lowered_inst(self, body: BodyView, before: Lowering, d: DataInst) -> Lowering {
        let old_inst = before.insts[d.0 as int];
        let insts = before.insts + self.null_insts(old_inst.inputs);
        let inst = self.without_nulls_inst(old_inst, before.insts.len() as int);
        if self.is_narrow_address(BodyView { insts, ..body }, inst) {
            let widened = before.widened.insert(d.0);
            Lowering {
                insts: insts.update(
                    d.0 as int,
                    self.patched_inst(self.widened_inst(inst), widened),
                ),
                widened,
            }
        } else {
            Lowering {
                insts: insts.update(d.0 as int, self.patched_inst(inst, before.widened)),
                widened: before.widened,
            }
        }
    }

    /// How far a walk has lowered a body when it comes to the `j`-th instruction of
    /// the `n`-th node.
    pub open spec fn lowered_to(self, body: BodyView, n: nat, j: nat) -> Lowering
        decreases n, j,
    {
        if j > 0 {
            self.lowered_inst(
                body,
                self.lowered_to(body, n, (j - 1) as nat),
                body.block(n as int)[j - 1],
            )
        } else if n > 0 {
            self.lowered_to(body, (n - 1) as nat, body.block(n - 1).len())
        } else {
            Lowering { insts: body.insts, widened: Set::empty() }
        }
    }

    /// What the first `j` instructions of the `n`-th node that a walk reaches
    /// become: each of them stands behind the new ones that it takes.
    pub open spec fn lowered_block(self, body: BodyView, n: nat, j: nat) -> Seq<DataInst>
        decreases j,
    {
        if j == 0 {
            Seq::empty()
        } else {
            let before = self.lowered_to(body, n, (j - 1) as nat).insts.len();
            let after = self.lowered_to(body, n, j).insts.len();
            self.lowered_block(body, n, (j - 1) as nat) + new_insts(before as int, after as int)
                + seq![body.block(n as int)[j - 1]]
        }
    }

    /// What becomes of a node: the instructions of a block that a walk reaches are
    /// lowered.
    pub open spec fn lowered_node(self, body: BodyView, node: int) -> NodeView {
        if body.node_order.contains(ControlNode(node as usize)) {
            let n = body.node_order.index_of(ControlNode(node as usize)) as nat;
            body.nodes[node].with_insts(self.lowered_block(body, n, body.block(n as int).len()))
        } else {
            body.nodes[node]
        }
    }

    /// What becomes of a body when its instructions are lowered.
    pub open spec fn inst_lowered_body(self, body: BodyView) -> BodyView {
        BodyView {
            insts: self.lowered_to(body, body.node_order.len(), 0).insts,
            nodes: Seq::new(body.nodes.len(), |node: int| self.lowered_node(body, node)),
            ..body
        }
    }

    /// What becomes of a body: its instructions are lowered, and then the values that
    /// its regions and nodes take.
    pub open spec fn lowered_body(self, body: BodyView) -> BodyView {
        self.without_null_uses(self.inst_lowered_body(body))
    }

    /// What becomes of a function.
    pub open spec fn lowered_func(self, func: FuncView) -> FuncView {
        match func {
            FuncView::Imported => FuncView::Imported,
            FuncView::Present(body) => FuncView::Present(self.lowered_body(body)),
        }
    }
}

/// The instructions from `from` to before `to`.
pub open spec fn new_insts(from: int, to: int) -> Seq<DataInst> {
    Seq::new((to - from) as nat, |i: int| DataInst((from + i) as usize))
}

/// Every conversion of a pointer to an integer takes a value that has a type when
/// a walk comes to it.
pub open spec fn is_lowerable_body(env: Env, body: BodyView) -> bool {
    forall|n: nat, j: nat, d: DataInst| #[trigger]
        body.visits_at(n as int, j as int, d) ==> has_typed_source(
            env,
            BodyView { insts: env.lowered_to(body, n, j).insts, ..body },
            body.insts[d.0 as int],
        )
}

/// A conversion of a pointer to an integer takes a value that has a type.
pub open spec fn has_typed_source(env: Env, body: BodyView, inst: DataInstView) -> bool {
    inst.form.kind matches DataInstKindView::SpvInst(spv_inst) ==> (spv_inst.opcode
        == spv().op_convert_ptr_to_u && inst.inputs.len() > 0 ==> type_of(
        env.consts,
        body,
        inst.inputs[0],
    ) is Some)
}

/// The conversions that the module can reach take values that have types.
pub open spec fn is_lowerable(m: ModuleView) -> bool {
    forall|f: Func| #[trigger]
        reachable(m, f) ==> (m.funcs[f.0 as int] matches FuncView::Present(body)
            ==> is_lowerable_body(lowering_env(m.cx), body))
}

/// What becomes of the functions of a module.
pub open spec fn lowered_funcs(m: ModuleView) -> Seq<FuncView> {
    changed_funcs(m, |func: FuncView| lowering_env(m.cx).lowered_func(func))
}

impl Env {
    /// The type `u64` and its zero are what they should be, and every constant has
    /// one of the types.
    pub open spec fn wf(self) -> bool {
        &&& self.u64_ty.0 < self.types.len()
        &&& self.types[self.u64_ty.0 as int] == u64_type()
        &&& self.u64_zero.0 < self.consts.len()
        &&& self.consts[self.u64_zero.0 as int] == null_const(self.u64_ty)
        &&& forall|c: int|
            0 <= c < self.consts.len() ==> (#[trigger] self.consts[c]).ty.0 < self.types.len()
    }

    /// One value further.
    pub proof fn lemma_null_types_step(self, values: Seq<Value>, i: int)
        requires
            0 <= i < values.len(),
        ensures
            self.null_types(values.take(i + 1)) == (match self.null_type(values[i]) {
                Some(ty) => self.null_types(values.take(i)).push(ty),
                None => self.null_types(values.take(i)),
            }),
    {
        assert(values.take(i + 1).drop_last() =~= values.take(i));
    }

    /// Null pointers among the first values are among the values.
    pub proof fn lemma_null_types_prefix(self, values: Seq<Value>, i: int)
        requires
            0 <= i <= values.len(),
        ensures
            self.null_types(values.take(i)).len() <= self.null_types(values).len(),
            forall|r: int|
                0 <= r < self.null_types(values.take(i)).len() ==> self.null_types(values)[r]
                    == #[trigger] self.null_types(values.take(i))[r],
        decreases values.len() - i,
    {
        if i < values.len() {
            self.lemma_null_types_step(values, i);
            self.lemma_null_types_prefix(values, i + 1);
            assert forall|r: int| 0 <= r < self.null_types(values.take(i)).len() implies self.null_types(
                values,
            )[r] == #[trigger] self.null_types(values.take(i))[r] by {
                assert(self.null_types(values.take(i + 1))[r] == self.null_types(
                    values.take(i),
                )[r]);
            }
        } else {
            assert(values.take(i) =~= values);
        }
    }

    /// The place of a null pointer among the null pointers.
    pub proof fn lemma_null_rank(self, values: Seq<Value>, i: int)
        requires
            0 <= i < values.len(),
            self.null_type(values[i]) is Some,
        ensures
            self.null_types(values.take(i)).len() < self.null_types(values).len(),
            Some(self.null_types(values)[self.null_types(values.take(i)).len() as int])
                == self.null_type(values[i]),
    {
        let r = self.null_types(values.take(i)).len() as int;
        self.lemma_null_types_step(values, i);
        self.lemma_null_types_prefix(values, i + 1);
        assert(self.null_types(values.take(i + 1))[r] == self.null_type(values[i])->0);
    }

    /// Two null pointers have two places.
    pub proof fn lemma_null_rank_unique(self, values: Seq<Value>, i: int, k: int)
        requires
            0 <= i < k < values.len(),
            self.null_type(values[i]) is Some,
        ensures
            self.null_types(values.take(i)).len() < self.null_types(values.take(k)).len(),
    {
        assert(values.take(k).take(i) =~= values.take(i));
        self.lemma_null_rank(values.take(k), i);
    }

    /// Null pointers have physical pointer types.
    pub proof fn lemma_null_types_physical(self, values: Seq<Value>)
        requires
            self.wf(),
            forall|i: int|
                0 <= i < values.len() ==> (#[trigger] values[i] matches Value::Const(c) ==> c.0
                    < self.consts.len()),
        ensures
            forall|r: int|
                0 <= r < self.null_types(values).len() ==> (#[trigger] self.null_types(
                    values,
                )[r]).0 < self.types.len() && is_physical(self.types, self.null_types(values)[r]),
        decreases values.len(),
    {
        if values.len() > 0 {
            assert forall|i: int| 0 <= i < values.drop_last().len() implies (
            #[trigger] values.drop_last()[i] matches Value::Const(c) ==> c.0
                < self.consts.len()) by {
                assert(values.drop_last()[i] == values[i]);
            }
            self.lemma_null_types_physical(values.drop_last());
            let before = self.null_types(values.drop_last());
            let all = self.null_types(values);
            assert forall|r: int| 0 <= r < all.len() implies (#[trigger] all[r]).0
                < self.types.len() && is_physical(self.types, all[r]) by {
                if r < before.len() {
                    assert(all[r] == before[r]);
                } else {
                    assert(values[values.len() - 1] is Const);
                }
            }
        }
    }

    /// What an instruction adds and changes.
    pub proof fn lemma_lowered_inst(
        self,
        body: BodyView,
        before: Lowering,
        d: DataInst,
        n_funcs: int,
    )
        requires
            self.wf(),
            d.0 < before.insts.len(),
            before.insts[d.0 as int].wf(
                self.types.len() as int,
                self.consts.len() as int,
                n_funcs,
            ),
        ensures
            ({
                let after = self.lowered_inst(body, before, d);
                let old_inst = before.insts[d.0 as int];
                let inst = after.insts[d.0 as int];
                &&& after.insts.len() == before.insts.len() + self.null_types(
                    old_inst.inputs,
                ).len()
                &&& forall|x: int|
                    0 <= x < before.insts.len() && x != d.0 ==> #[trigger] after.insts[x]
                        == before.insts[x]
                &&& forall|x: int|
                    before.insts.len() <= x < after.insts.len() ==> self.is_null_inst(
                        #[trigger] after.insts[x],
                    )
                &&& inst.attrs == old_inst.attrs
                &&& inst.form.kind == old_inst.form.kind
                &&& inst.form.output_type == old_inst.form.output_type
                    || inst.form.output_type == Some(self.u64_ty)
                &&& inst.inputs.len() == old_inst.inputs.len()
                &&& inst.wf(self.types.len() as int, self.consts.len() as int, n_funcs)
            }),
    {
        let after = self.lowered_inst(body, before, d);
        let old_inst = before.insts[d.0 as int];
        self.lemma_null_types_physical(old_inst.inputs);
        assert forall|x: int| before.insts.len() <= x < after.insts.len() implies self.is_null_inst(
            #[trigger] after.insts[x],
        ) by {
            let ty = self.null_types(old_inst.inputs)[x - before.insts.len()];
            assert(after.insts[x] == self.null_inst(ty));
        }
        let inst = after.insts[d.0 as int];
        assert forall|i: int| 0 <= i < inst.inputs.len() implies (
        #[trigger] inst.inputs[i] matches Value::Const(c) ==> c.0 < self.consts.len()) by {
            assert(old_inst.inputs[i] matches Value::Const(c) ==> c.0 < self.consts.len());
        }
    }

    /// `inst` is what may have become of instruction `old`.
    pub open spec fn is_kept(self, old: DataInstView, inst: DataInstView) -> bool {
        &&& inst.attrs == old.attrs
        &&& inst.form.kind == old.form.kind
        &&& inst.form.output_type == old.form.output_type || inst.form.output_type == Some(
            self.u64_ty,
        )
        &&& inst.inputs.len() == old.inputs.len()
    }

    /// How far a body was lowered: the instructions that were not come to are as
    /// they were, and those that are new are conversions of zeros.
    pub open spec fn is_lowering_to(
        self,
        body: BodyView,
        n: nat,
        j: nat,
        s: Lowering,
        n_funcs: int,
    ) -> bool {
        &&& s.insts.len() >= body.insts.len()
        &&& forall|x: DataInst|
            x.0 < body.insts.len() && !#[trigger] body.visits_before(n as int, j as int, x)
                ==> s.insts[x.0 as int] == body.insts[x.0 as int]
        &&& forall|x: int|
            0 <= x < body.insts.len() ==> self.is_kept(body.insts[x], #[trigger] s.insts[x])
        &&& forall|x: int|
            body.insts.len() <= x < s.insts.len() ==> self.is_null_inst(#[trigger] s.insts[x])
        &&& forall|x: int|
            0 <= x < s.insts.len() ==> (#[trigger] s.insts[x]).wf(
                self.types.len() as int,
                self.consts.len() as int,
                n_funcs,
            )
    }

    /// A walk lowers a body as far as it goes.
    pub proof fn lemma_lowered_to(self, body: BodyView, n: nat, j: nat, n_funcs: int)
        requires
            self.wf(),
            body.wf(self.types.len() as int, self.consts.len() as int, n_funcs),
            n <= body.node_order.len(),
            j > 0 ==> n < body.node_order.len() && j <= body.block(n as int).len(),
        ensures
            self.is_lowering_to(body, n, j, self.lowered_to(body, n, j), n_funcs),
        decreases n, j,
    {
        let s = self.lowered_to(body, n, j);
        if j > 0 {
            let before = self.lowered_to(body, n, (j - 1) as nat);
            let d = body.block(n as int)[j - 1];
            assert(body.visits_at(n as int, j - 1, d));
            self.lemma_lowered_to(body, n, (j - 1) as nat, n_funcs);
            self.lemma_lowered_inst(body, before, d, n_funcs);
            body.lemma_visits_step(n as int, j - 1, d);
            assert forall|x: DataInst|
                x.0 < body.insts.len() && !#[trigger] body.visits_before(
                    n as int,
                    j as int,
                    x,
                ) implies s.insts[x.0 as int] == body.insts[x.0 as int] by {
                assert(x != d);
                assert(x.0 != d.0);
                assert(!body.visits_before(n as int, j - 1, x));
            }
            assert forall|x: int| 0 <= x < body.insts.len() implies self.is_kept(
                body.insts[x],
                #[trigger] s.insts[x],
            ) by {
                assert(self.is_kept(body.insts[x], before.insts[x]));
            }
            assert forall|x: int| body.insts.len() <= x < s.insts.len() implies self.is_null_inst(
                #[trigger] s.insts[x],
            ) by {
                if x < before.insts.len() {
                    assert(s.insts[x] == before.insts[x]);
                }
            }
            assert forall|x: int| 0 <= x < s.insts.len() implies (#[trigger] s.insts[x]).wf(
                self.types.len() as int,
                self.consts.len() as int,
                n_funcs,
            ) by {
                if x < before.insts.len() {
                    assert(before.insts[x].wf(
                        self.types.len() as int,
                        self.consts.len() as int,
                        n_funcs,
                    ));
                } else {
                    assert(self.is_null_inst(s.insts[x]));
                }
            }
        } else if n > 0 {
            let len = body.block(n - 1).len();
            self.lemma_lowered_to(body, (n - 1) as nat, len, n_funcs);
            body.lemma_visits_next_node(n - 1);
            assert forall|x: DataInst|
                x.0 < body.insts.len() && !#[trigger] body.visits_before(
                    n as int,
                    0,
                    x,
                ) implies s.insts[x.0 as int] == body.insts[x.0 as int] by {
                assert(!body.visits_before(n - 1, len as int, x));
            }
        }
    }

    /// The instruction converts a `u64` zero to a physical pointer.
    pub open spec fn is_null_inst(self, inst: DataInstView) -> bool {
        exists|ty: Type|
            ty.0 < self.types.len() && is_physical(self.types, ty) && inst == #[trigger] self.null_inst(
                ty,
            )
    }
}

impl Env {
    /// A body never has fewer instructions further on.
    pub proof fn lemma_lowered_len(
        self,
        body: BodyView,
        n: nat,
        j: nat,
        n2: nat,
        j2: nat,
        n_funcs: int,
    )
        requires
            self.wf(),
            body.wf(self.types.len() as int, self.consts.len() as int, n_funcs),
            n < n2 || (n == n2 && j <= j2),
            j <= body.block(n as int).len(),
            n2 <= body.node_order.len(),
            j2 > 0 ==> n2 < body.node_order.len() && j2 <= body.block(n2 as int).len(),
        ensures
            self.lowered_to(body, n, j).insts.len() <= self.lowered_to(body, n2, j2).insts.len(),
        decreases n2, j2,
    {
        if n == n2 && j == j2 {
        } else if j2 > 0 {
            let before = self.lowered_to(body, n2, (j2 - 1) as nat);
            let d = body.block(n2 as int)[j2 - 1];
            assert(body.visits_at(n2 as int, j2 - 1, d));
            self.lemma_lowered_len(body, n, j, n2, (j2 - 1) as nat, n_funcs);
            self.lemma_lowered_to(body, n2, (j2 - 1) as nat, n_funcs);
            self.lemma_lowered_inst(body, before, d, n_funcs);
        } else {
            self.lemma_lowered_len(
                body,
                n,
                j,
                (n2 - 1) as nat,
                body.block(n2 - 1).len(),
                n_funcs,
            );
        }
    }

    /// What the first `j` instructions of a block become: they themselves, and new
    /// ones, none of them twice.
    pub open spec fn is_lowered_block(
        self,
        body: BodyView,
        n: nat,
        j: nat,
        list: Seq<DataInst>,
    ) -> bool {
        let from = self.lowered_to(body, n, 0).insts.len();
        let to = self.lowered_to(body, n, j).insts.len();
        &&& list.no_duplicates()
        &&& forall|p: int|
            0 <= p < list.len() ==> if (#[trigger] list[p]).0 < body.insts.len() {
                body.block(n as int).take(j as int).contains(list[p])
            } else {
                from <= list[p].0 < to
            }
        &&& forall|k: int| 0 <= k < j ==> list.contains(#[trigger] body.block(n as int)[k])
    }

    /// What a block becomes.
    pub proof fn lemma_lowered_block(self, body: BodyView, n: nat, j: nat, n_funcs: int)
        requires
            self.wf(),
            body.wf(self.types.len() as int, self.consts.len() as int, n_funcs),
            n < body.node_order.len(),
            j <= body.block(n as int).len(),
            self.lowered_to(body, n, j).insts.len() <= usize::MAX,
        ensures
            self.is_lowered_block(body, n, j, self.lowered_block(body, n, j)),
        decreases j,
    {
        if j > 0 {
            let i = (j - 1) as nat;
            let block = body.block(n as int);
            let d = block[i as int];
            let before = self.lowered_to(body, n, i);
            let s0 = self.lowered_to(body, n, 0).insts.len();
            let s1 = before.insts.len();
            let s2 = self.lowered_to(body, n, j).insts.len();
            assert(body.visits_at(n as int, i as int, d));
            self.lemma_lowered_len(body, n, 0, n, i, n_funcs);
            self.lemma_lowered_len(body, n, i, n, j, n_funcs);
            self.lemma_lowered_to(body, n, i, n_funcs);
            self.lemma_lowered_block(body, n, i, n_funcs);
            let done = self.lowered_block(body, n, i);
            let fresh = new_insts(s1 as int, s2 as int);
            let list = self.lowered_block(body, n, j);
            assert(list == done + fresh + seq![d]);
            assert forall|k: int| 0 <= k < fresh.len() implies (#[trigger] fresh[k]).0 == s1 + k by {}
            assert forall|p: int| 0 <= p < list.len() implies if (#[trigger] list[p]).0
                < body.insts.len() {
                block.take(j as int).contains(list[p])
            } else {
                s0 <= list[p].0 < s2
            } by {
                if p < done.len() {
                    assert(list[p] == done[p]);
                    if done[p].0 < body.insts.len() {
                        let k = block.take(i as int).index_of(done[p]);
                        assert(block.take(j as int)[k] == done[p]);
                    }
                } else if p < done.len() + fresh.len() {
                    assert(list[p] == fresh[p - done.len()]);
                } else {
                    assert(block.take(j as int)[i as int] == d);
                }
            }
            assert(!done.contains(d)) by {
                if done.contains(d) {
                    let p = done.index_of(d);
                    assert(done[p].0 < body.insts.len());
                    let k = block.take(i as int).index_of(d);
                    assert(body.visits_at(n as int, k, d));
                }
            }
            assert forall|p: int, q: int|
                0 <= p < list.len() && 0 <= q < list.len() && p != q implies list[p] != list[q] by {
                if p < done.len() {
                    assert(list[p] == done[p]);
                }
                if q < done.len() {
                    assert(list[q] == done[q]);
                }
                if done.len() <= p < done.len() + fresh.len() {
                    assert(list[p] == fresh[p - done.len()]);
                }
                if done.len() <= q < done.len() + fresh.len() {
                    assert(list[q] == fresh[q - done.len()]);
                }
            }
            assert forall|k: int| 0 <= k < j implies list.contains(#[trigger] block[k]) by {
                if k < i {
                    let p = done.index_of(block[k]);
                    assert(list[p] == block[k]);
                } else {
                    assert(list[list.len() - 1] == d);
                }
            }
        }
    }

    /// The blocks of a body that was lowered.
    pub proof fn lemma_blocks_of_lowered(self, body: BodyView, n: int)
        requires
            body.walk_wf(),
            body.nodes.len() <= usize::MAX,
            0 <= n < body.node_order.len(),
        ensures
            self.inst_lowered_body(body).block(n) == self.lowered_block(
                body,
                n as nat,
                body.block(n).len(),
            ),
    {
        let c = body.node_order[n];
        assert(body.node_order.contains(c));
        assert(body.node_order.index_of(c) == n);
        assert(ControlNode(c.0) == c);
    }

    /// A body that was lowered is in order.
    pub proof fn lemma_inst_lowered_body_wf(self, body: BodyView, n_funcs: int)
        requires
            self.wf(),
            body.wf(self.types.len() as int, self.consts.len() as int, n_funcs),
            self.inst_lowered_body(body).insts.len() <= usize::MAX,
        ensures
            self.inst_lowered_body(body).wf(
                self.types.len() as int,
                self.consts.len() as int,
                n_funcs,
            ),
    {
        let after = self.inst_lowered_body(body);
        let end = body.node_order.len();
        let base = body.insts.len();
        self.lemma_lowered_to(body, end, 0, n_funcs);
        assert forall|n: int, i: int|
            0 <= n < after.nodes.len() && 0 <= i < after.nodes[n].outputs.len() implies #[trigger] after.nodes[n].outputs[i].0
            < self.types.len() by {
            assert(after.nodes[n].outputs == body.nodes[n].outputs);
            assert(body.nodes[n].outputs[i].0 < self.types.len());
        }
        assert forall|n: int, p: int, d: DataInst| #[trigger] after.visits_at(n, p, d) implies d.0
            < after.insts.len() by {
            self.lemma_visits_in_lowered(body, n, p, d, n_funcs);
        }
        assert forall|n: int, p: int, n2: int, p2: int, d: DataInst|
            #![trigger after.visits_at(n, p, d), after.visits_at(n2, p2, d)]
            after.visits_at(n, p, d) && after.visits_at(n2, p2, d) implies n == n2 && p == p2 by {
            self.lemma_visits_in_lowered(body, n, p, d, n_funcs);
            self.lemma_visits_in_lowered(body, n2, p2, d, n_funcs);
            if d.0 < base {
                let k = body.block(n).index_of(d);
                let k2 = body.block(n2).index_of(d);
                assert(body.visits_at(n, k, d));
                assert(body.visits_at(n2, k2, d));
            } else if n < n2 {
                self.lemma_lowered_len(body, (n + 1) as nat, 0, n2 as nat, 0, n_funcs);
            } else if n2 < n {
                self.lemma_lowered_len(body, (n2 + 1) as nat, 0, n as nat, 0, n_funcs);
            }
        }
    }

    /// What a walk through a body that was lowered reaches.
    pub proof fn lemma_visits_in_lowered(
        self,
        body: BodyView,
        n: int,
        p: int,
        d: DataInst,
        n_funcs: int,
    )
        requires
            self.wf(),
            body.wf(self.types.len() as int, self.consts.len() as int, n_funcs),
            self.inst_lowered_body(body).insts.len() <= usize::MAX,
            self.inst_lowered_body(body).visits_at(n, p, d),
        ensures
            self.is_lowered_block(
                body,
                n as nat,
                body.block(n).len(),
                self.inst_lowered_body(body).block(n),
            ),
            d.0 < self.inst_lowered_body(body).insts.len(),
            d.0 < body.insts.len() ==> body.block(n).contains(d),
            d.0 >= body.insts.len() ==> self.lowered_to(body, n as nat, 0).insts.len() <= d.0
                < self.lowered_to(body, (n + 1) as nat, 0).insts.len(),
    {
        let end = body.node_order.len();
        let len = body.block(n).len();
        self.lemma_blocks_of_lowered(body, n);
        self.lemma_lowered_len(body, n as nat, len, end, 0, n_funcs);
        self.lemma_lowered_block(body, n as nat, len, n_funcs);
        self.lemma_lowered_to(body, end, 0, n_funcs);
        assert(body.block(n).take(len as int) =~= body.block(n));
        let list = self.inst_lowered_body(body).block(n);
        assert(list[p] == d);
    }
}

/// The module after the type `u64` and its zero were interned.
pub open spec fn with_u64(m: ModuleView) -> ModuleView {
    let env = lowering_env(m.cx);
    ModuleView {
        cx: ContextView { types: env.types, consts: env.consts, forms: m.cx.forms },
        ..m
    }
}

/// Interning the type `u64` and its zero keeps a module in order.
pub proof fn lemma_with_u64(m: ModuleView)
    requires
        m.wf(),
        lowering_env(m.cx).types.len() <= usize::MAX,
        lowering_env(m.cx).consts.len() <= usize::MAX,
    ensures
        with_u64(m).wf(),
        lowering_env(m.cx).wf(),
        forall|f: Func| #[trigger] reachable(with_u64(m), f) <==> reachable(m, f),
{
    let env = lowering_env(m.cx);
    let after = with_u64(m);
    let n_funcs = m.funcs.len() as int;
    lemma_interned(m.cx.types, u64_type());
    lemma_interned(m.cx.consts, null_const(env.u64_ty));
    assert(env.types.contains(u64_type()));
    assert(env.consts.contains(null_const(env.u64_ty)));
    assert forall|t: int, i: int|
        0 <= t < env.types.len() && (#[trigger] env.types[t]).kind is SpvInst && 0 <= i
            < env.types[t].kind->inputs.len() implies (
    #[trigger] env.types[t].kind->inputs[i] matches TypeOrConst::Type(c) ==> c.0 < t) by {
        if t < m.cx.types.len() {
            assert(env.types[t] == m.cx.types[t]);
        }
    }
    assert forall|c: int| 0 <= c < env.consts.len() implies (#[trigger] env.consts[c]).ty.0
        < env.types.len() by {
        if c < m.cx.consts.len() {
            assert(env.consts[c] == m.cx.consts[c]);
        }
    }
    assert forall|h: int| 0 <= h < m.cx.forms.len() implies (#[trigger] m.cx.forms[h]).wf(
        env.types.len() as int,
        n_funcs,
    ) by {
        assert(m.cx.forms[h].wf(m.cx.types.len() as int, n_funcs));
    }
    assert forall|f: int| 0 <= f < m.funcs.len() implies (
    #[trigger] m.funcs[f] matches FuncView::Present(body) ==> body.wf(
        env.types.len() as int,
        env.consts.len() as int,
        n_funcs,
    )) by {
        if let FuncView::Present(body) = m.funcs[f] {
            let n_types = m.cx.types.len() as int;
            let n_consts = m.cx.consts.len() as int;
            assert(body.wf(n_types, n_consts, n_funcs));
            assert forall|d: int| 0 <= d < body.insts.len() implies (#[trigger] body.insts[d]).wf(
                env.types.len() as int,
                env.consts.len() as int,
                n_funcs,
            ) by {
                let inst = body.insts[d];
                assert(inst.wf(n_types, n_consts, n_funcs));
                assert forall|i: int| 0 <= i < inst.inputs.len() implies (
                #[trigger] inst.inputs[i] matches Value::Const(c) ==> c.0
                    < env.consts.len()) by {
                    assert(inst.inputs[i] matches Value::Const(c) ==> c.0 < n_consts);
                }
            }
        }
    }
    assert forall|f: Func, g: Func| #[trigger] calls(after, f, g) <==> calls(m, f, g) by {}
    lemma_same_reach(m, after);
}

} // verus!
