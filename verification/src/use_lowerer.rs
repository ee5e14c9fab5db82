//! Lowers physical null pointers that regions hand on and control nodes take.

use crate::context::{lemma_interned_form_wf, Context, ContextView};
use crate::ir::{
    lemma_values_wf_add, values_wf, AttrSet, BodyView, ControlNode, ControlNodeDef,
    ControlNodeKind, ControlRegionDef, DataInst, DataInstDef, DataInstFormDef, DataInstKind,
    DataInstView, FormView, FuncDefBody, Value,
};
use crate::lowerer::{is_form_of_new_inst, Lowerer};
use crate::lowering::{new_insts, Env};
use crate::null_uses::start_block;
use crate::spirv::Inst;
use vstd::prelude::*;

verus! {

/// What these instructions hold, where `forms` are the forms of the module.
spec fn insts_view(insts: Seq<DataInstDef>, forms: Seq<FormView>) -> Seq<DataInstView> {
    Seq::new(insts.len(), |i: int| insts[i].view_in(forms))
}

/// Every instruction has one of the first `n_forms` forms.
spec fn insts_within(insts: Seq<DataInstDef>, n_forms: int) -> bool {
    forall|i: int| 0 <= i < insts.len() ==> (#[trigger] insts[i]).form.0 < n_forms
}

/// Conversions of zeros were added for the physical null pointers among `values`, and
/// their forms were interned.
spec fn adds_null_insts(
    env: Env,
    old_cx: ContextView,
    cx: ContextView,
    old_insts: Seq<DataInstDef>,
    insts: Seq<DataInstDef>,
    values: Seq<Value>,
    n_funcs: int,
) -> bool {
    &&& cx.wf(n_funcs)
    &&& cx.types == old_cx.types
    &&& cx.consts == old_cx.consts
    &&& old_cx.forms.is_prefix_of(cx.forms)
    &&& insts_within(insts, cx.forms.len() as int)
    &&& insts_view(insts, cx.forms) == insts_view(old_insts, old_cx.forms) + env.null_insts(values)
    &&& forall|h: int|
        old_cx.forms.len() <= h < cx.forms.len() ==> is_form_of_new_inst(
            #[trigger] cx.forms[h],
            insts_view(insts, cx.forms),
            old_insts.len() as int,
        )
}

/// At first nothing was added.
proof fn lemma_adds_none(env: Env, cx: ContextView, insts: Seq<DataInstDef>, n_funcs: int)
    requires
        cx.wf(n_funcs),
        insts_within(insts, cx.forms.len() as int),
    ensures
        adds_null_insts(env, cx, cx, insts, insts, Seq::empty(), n_funcs),
{
    assert(cx.forms =~= cx.forms.subrange(0, cx.forms.len() as int));
    assert(insts_view(insts, cx.forms) =~= insts_view(insts, cx.forms) + env.null_insts(
        Seq::empty(),
    ));
}

/// What was added for some values and then for others was added for all of them.
proof fn lemma_adds_more(
    env: Env,
    cx1: ContextView,
    cx2: ContextView,
    cx3: ContextView,
    insts1: Seq<DataInstDef>,
    insts2: Seq<DataInstDef>,
    insts3: Seq<DataInstDef>,
    a: Seq<Value>,
    b: Seq<Value>,
    n_funcs: int,
)
    requires
        adds_null_insts(env, cx1, cx2, insts1, insts2, a, n_funcs),
        adds_null_insts(env, cx2, cx3, insts2, insts3, b, n_funcs),
    ensures
        adds_null_insts(env, cx1, cx3, insts1, insts3, a + b, n_funcs),
        insts3.len() == insts1.len() + env.null_types(a).len() + env.null_types(b).len(),
{
    env.lemma_null_types_add(a, b);
    let v1 = insts_view(insts1, cx1.forms);
    let v2 = insts_view(insts2, cx2.forms);
    let v3 = insts_view(insts3, cx3.forms);
    assert(v3 =~= v1 + env.null_insts(a + b));
    assert(v2.len() == insts2.len());
    assert(v1.len() == insts1.len());
    assert(v3.len() == insts3.len());
    assert(cx1.forms =~= cx3.forms.subrange(0, cx1.forms.len() as int));
    assert forall|h: int| cx1.forms.len() <= h < cx3.forms.len() implies is_form_of_new_inst(
        #[trigger] cx3.forms[h],
        v3,
        insts1.len() as int,
    ) by {
        if h < cx2.forms.len() {
            assert(cx3.forms[h] == cx2.forms[h]);
            let x = choose|x: int|
                insts1.len() <= x < v2.len() && (#[trigger] v2[x]).form == cx2.forms[h];
            assert(v3[x] == v2[x]);
        } else {
            let x = choose|x: int|
                insts2.len() <= x < v3.len() && (#[trigger] v3[x]).form == cx3.forms[h];
            assert(v3[x].form == cx3.forms[h]);
        }
    }
}

impl Lowerer {
    /// Adds a conversion of a zero for a value that is a physical null pointer, and
    /// gives its output in place of the value.
    fn lower_value(
        &mut self,
        cx: &mut Context,
        insts: &mut Vec<DataInstDef>,
        v: Value,
        Ghost(n_funcs): Ghost<int>,
    ) -> (w: Value)
        requires
            old(self).wf(old(cx)@),
            old(cx)@.wf(n_funcs),
            insts_within(old(insts)@, old(cx)@.forms.len() as int),
            v matches Value::Const(c) ==> c.0 < old(cx)@.consts.len(),
        ensures
            final(self).wf(final(cx)@),
            *final(self) == (Lowerer { offending: final(self).offending, ..*old(self) }),
            w == old(self).env(old(cx)@).lowered_value(v, old(insts)@.len() as int),
            adds_null_insts(
                old(self).env(old(cx)@),
                old(cx)@,
                final(cx)@,
                old(insts)@,
                final(insts)@,
                seq![v],
                n_funcs,
            ),
    {
        let ghost env = self.env(cx@);
        let ghost old_cx = cx@;
        let ghost old_insts = insts@;
        proof {
            env.lemma_null_types_one(v);
            lemma_adds_none(env, cx@, insts@, n_funcs);
            assert(env.null_insts(Seq::empty()) =~= Seq::<DataInstView>::empty());
        }
        if let Value::Const(c) = v {
            if let Some(ty) = self.classify(cx, c) {
                let def = DataInstFormDef {
                    kind: DataInstKind::SpvInst(
                        Inst { opcode: self.wk.op_convert_u_to_ptr, imms: Vec::new() },
                    ),
                    output_type: Some(ty),
                };
                let mut inputs: Vec<Value> = Vec::new();
                inputs.push(Value::Const(self.u64_zero));
                let ghost inst = env.null_inst(ty);
                assert(def@ =~= inst.form);
                assert(inputs@ =~= inst.inputs);
                let form = cx.intern_form(def);
                let d = DataInst(insts.len());
                insts.push(DataInstDef { attrs: AttrSet::default(), form, inputs });
                proof {
                    lemma_interned_form_wf(old_cx, cx@, inst.form, n_funcs);
                    let before = insts_view(old_insts, old_cx.forms);
                    let after = insts_view(insts@, cx@.forms);
                    assert(old_cx.forms =~= cx@.forms.subrange(0, old_cx.forms.len() as int));
                    assert forall|i: int| 0 <= i < before.len() implies after[i] == before[i] by {
                        assert(insts@[i] == old_insts[i]);
                        assert(cx@.forms[insts@[i].form.0 as int]
                            == old_cx.forms[insts@[i].form.0 as int]);
                    }
                    assert(after[before.len() as int] == inst);
                    assert(env.null_insts(seq![v]) =~= seq![inst]);
                    assert(after =~= before + env.null_insts(seq![v]));
                    assert forall|h: int|
                        old_cx.forms.len() <= h < cx@.forms.len() implies is_form_of_new_inst(
                        #[trigger] cx@.forms[h],
                        after,
                        old_insts.len() as int,
                    ) by {
                        assert(after[before.len() as int].form == cx@.forms[h]);
                    }
                }
                return Value::DataInstOutput(d);
            }
        }
        assert(env.null_insts(seq![v]) =~= env.null_insts(Seq::empty()));
        v
    }

    /// Adds conversions of zeros for the physical null pointers among `values`, and gives
    /// the values with their outputs in place of these.
    fn lower_values(
        &mut self,
        cx: &mut Context,
        insts: &mut Vec<DataInstDef>,
        values: &Vec<Value>,
        Ghost(n_funcs): Ghost<int>,
    ) -> (lowered: Vec<Value>)
        requires
            old(self).wf(old(cx)@),
            old(cx)@.wf(n_funcs),
            insts_within(old(insts)@, old(cx)@.forms.len() as int),
            values_wf(values@, old(cx)@.consts.len() as int),
        ensures
            final(self).wf(final(cx)@),
            *final(self) == (Lowerer { offending: final(self).offending, ..*old(self) }),
            lowered@ == old(self).env(old(cx)@).without_nulls(
                values@,
                old(insts)@.len() as int,
            ),
            adds_null_insts(
                old(self).env(old(cx)@),
                old(cx)@,
                final(cx)@,
                old(insts)@,
                final(insts)@,
                values@,
                n_funcs,
            ),
    {
        let ghost env = self.env(cx@);
        let ghost old_cx = cx@;
        let ghost old_insts = insts@;
        let ghost goal = env.without_nulls(values@, old_insts.len() as int);
        let mut lowered: Vec<Value> = Vec::new();
        proof {
            lemma_adds_none(env, cx@, insts@, n_funcs);
            assert(values@.take(0) =~= Seq::<Value>::empty());
        }
        let mut i: usize = 0;
        while i < values.len()
            invariant
                self.wf(cx@),
                *self == (Lowerer { offending: self.offending, ..*old(self) }),
                env == self.env(cx@),
                values_wf(values@, old_cx.consts.len() as int),
                goal == env.without_nulls(values@, old_insts.len() as int),
                i <= values@.len(),
                lowered@ == goal.take(i as int),
                adds_null_insts(
                    env,
                    old_cx,
                    cx@,
                    old_insts,
                    insts@,
                    values@.take(i as int),
                    n_funcs,
                ),
                insts@.len() == old_insts.len() + env.null_types(values@.take(i as int)).len(),
            decreases values@.len() - i,
        {
            let ghost cur_cx = cx@;
            let ghost cur_insts = insts@;
            assert(values@[i as int] matches Value::Const(c) ==> c.0 < old_cx.consts.len());
            let w = self.lower_value(cx, insts, values[i], Ghost(n_funcs));
            proof {
                lemma_adds_more(
                    env,
                    old_cx,
                    cur_cx,
                    cx@,
                    old_insts,
                    cur_insts,
                    insts@,
                    values@.take(i as int),
                    seq![values@[i as int]],
                    n_funcs,
                );
                env.lemma_null_types_add(values@.take(i as int), seq![values@[i as int]]);
                assert(values@.take(i as int) + seq![values@[i as int]] =~= values@.take(
                    i as int + 1,
                ));
                assert(goal[i as int] == w);
                assert(goal.take(i as int).push(w) =~= goal.take(i as int + 1));
            }
            lowered.push(w);
            i = i + 1;
        }
        assert(values@.take(i as int) =~= values@);
        assert(goal.take(i as int) =~= goal);
        lowered
    }
}

/// The regions of a body when the first `r` are lowered.
spec fn regions_lowered_to(
    env: Env,
    orig: BodyView,
    regions: Seq<ControlRegionDef>,
    r: int,
) -> bool {
    &&& regions.len() == orig.regions.len()
    &&& forall|q: int|
        0 <= q < r ==> (#[trigger] regions[q])@ == env.regions_without_nulls(orig)[q]
    &&& forall|q: int| r <= q < regions.len() ==> (#[trigger] regions[q])@ == orig.regions[q]
}

/// The nodes of a body when the first `c` are lowered.
spec fn nodes_lowered_to(env: Env, orig: BodyView, nodes: Seq<ControlNodeDef>, c: int) -> bool {
    &&& nodes.len() == orig.nodes.len()
    &&& forall|q: int| 0 <= q < c ==> (#[trigger] nodes[q])@ == env.nodes_without_nulls(orig)[q]
    &&& forall|q: int| c <= q < nodes.len() ==> (#[trigger] nodes[q])@ == orig.nodes[q]
}

impl Lowerer {
    /// Has regions hand on converted zeros in place of physical null pointers.
    fn lower_regions(
        &mut self,
        cx: &mut Context,
        body: &mut FuncDefBody,
        Ghost(n_funcs): Ghost<int>,
    )
        requires
            old(self).wf(old(cx)@),
            old(cx)@.wf(n_funcs),
            old(body).forms_within(old(cx)@.forms.len() as int),
            old(body).view_in(old(cx)@.forms).handles_wf(
                old(cx)@.types.len() as int,
                old(cx)@.consts.len() as int,
                n_funcs,
            ),
        ensures
            final(self).wf(final(cx)@),
            *final(self) == (Lowerer { offending: final(self).offending, ..*old(self) }),
            final(body).control_nodes == old(body).control_nodes,
            final(body).node_order == old(body).node_order,
            final(body).entry == old(body).entry,
            ({
                let env = old(self).env(old(cx)@);
                let orig = old(body).view_in(old(cx)@.forms);
                &&& regions_lowered_to(
                    env,
                    orig,
                    final(body).control_regions@,
                    orig.regions.len() as int,
                )
                &&& adds_null_insts(
                    env,
                    old(cx)@,
                    final(cx)@,
                    old(body).data_insts@,
                    final(body).data_insts@,
                    orig.uses_before_region(orig.regions.len()),
                    n_funcs,
                )
            }),
    {
        let ghost env = self.env(cx@);
        let ghost orig = body.view_in(cx@.forms);
        let ghost old_cx = cx@;
        let ghost old_insts = body.data_insts@;
        let ghost first = orig.insts.len() as int;
        proof {
            lemma_adds_none(env, cx@, body.data_insts@, n_funcs);
        }
        let mut r: usize = 0;
        while r < body.control_regions.len()
            invariant
                self.wf(cx@),
                *self == (Lowerer { offending: self.offending, ..*old(self) }),
                env == self.env(cx@),
                body.control_nodes == old(body).control_nodes,
                body.node_order == old(body).node_order,
                body.entry == old(body).entry,
                orig.handles_wf(
                    old_cx.types.len() as int,
                    old_cx.consts.len() as int,
                    n_funcs,
                ),
                first == orig.insts.len(),
                first == old_insts.len(),
                r <= orig.regions.len(),
                regions_lowered_to(env, orig, body.control_regions@, r as int),
                adds_null_insts(
                    env,
                    old_cx,
                    cx@,
                    old_insts,
                    body.data_insts@,
                    orig.uses_before_region(r as nat),
                    n_funcs,
                ),
                body.data_insts@.len() == first + env.null_types(
                    orig.uses_before_region(r as nat),
                ).len(),
            decreases orig.regions.len() - r,
        {
            let ghost uses = orig.uses_before_region(r as nat);
            let ghost region = orig.regions[r as int];
            let ghost cx1 = cx@;
            let ghost insts1 = body.data_insts@;
            proof {
                assert(body.control_regions@[r as int]@ == region);
                assert(values_wf(region.values(), old_cx.consts.len() as int));
                lemma_values_wf_add(
                    region.outputs,
                    region.exit_inputs,
                    old_cx.consts.len() as int,
                );
            }
            let outputs = self.lower_values(
                cx,
                &mut body.data_insts,
                &body.control_regions[r].outputs,
                Ghost(n_funcs),
            );
            let ghost cx2 = cx@;
            let ghost insts2 = body.data_insts@;
            proof {
                lemma_adds_more(
                    env,
                    old_cx,
                    cx1,
                    cx2,
                    old_insts,
                    insts1,
                    insts2,
                    uses,
                    region.outputs,
                    n_funcs,
                );
                assert(body.control_regions@[r as int]@ == region);
            }
            let exit_inputs = self.lower_values(
                cx,
                &mut body.data_insts,
                &body.control_regions[r].exit_inputs,
                Ghost(n_funcs),
            );
            proof {
                env.lemma_null_types_add(uses, region.outputs);
                env.lemma_null_types_add(uses + region.outputs, region.exit_inputs);
                lemma_adds_more(
                    env,
                    old_cx,
                    cx2,
                    cx@,
                    old_insts,
                    insts2,
                    body.data_insts@,
                    uses + region.outputs,
                    region.exit_inputs,
                    n_funcs,
                );
                assert(uses + region.outputs + region.exit_inputs =~= orig.uses_before_region(
                    (r + 1) as nat,
                ));
            }
            let ghost regions = body.control_regions@;
            body.control_regions[r].outputs = outputs;
            body.control_regions[r].exit_inputs = exit_inputs;
            proof {
                assert(body.control_regions@[r as int]@ =~= env.regions_without_nulls(
                    orig,
                )[r as int]);
                assert forall|q: int| 0 <= q < regions.len() && q != r implies #[trigger]
                    body.control_regions@[q] == regions[q] by {}
            }
            r = r + 1;
        }
    }

    /// Has one node take converted zeros in place of physical null pointers.
    fn lower_node(
        &mut self,
        cx: &mut Context,
        body: &mut FuncDefBody,
        c: usize,
        Ghost(n_funcs): Ghost<int>,
    )
        requires
            old(self).wf(old(cx)@),
            old(cx)@.wf(n_funcs),
            insts_within(old(body).data_insts@, old(cx)@.forms.len() as int),
            c < old(body).control_nodes@.len(),
            values_wf(
                old(body).control_nodes@[c as int]@.values(),
                old(cx)@.consts.len() as int,
            ),
        ensures
            final(self).wf(final(cx)@),
            *final(self) == (Lowerer { offending: final(self).offending, ..*old(self) }),
            final(body).control_regions == old(body).control_regions,
            final(body).node_order == old(body).node_order,
            final(body).entry == old(body).entry,
            final(body).control_nodes@.len() == old(body).control_nodes@.len(),
            forall|q: int|
                0 <= q < old(body).control_nodes@.len() && q != c
                    ==> #[trigger] final(body).control_nodes@[q] == old(body).control_nodes@[q],
            final(body).control_nodes@[c as int]@ == old(self).env(old(cx)@).node_without_nulls(
                old(body).control_nodes@[c as int]@,
                old(body).data_insts@.len() as int,
            ),
            adds_null_insts(
                old(self).env(old(cx)@),
                old(cx)@,
                final(cx)@,
                old(body).data_insts@,
                final(body).data_insts@,
                old(body).control_nodes@[c as int]@.values(),
                n_funcs,
            ),
    {
        let ghost env = self.env(cx@);
        let ghost old_cx = cx@;
        let ghost old_insts = body.data_insts@;
        let ghost node = body.control_nodes@[c as int]@;
        let ghost n_consts = cx@.consts.len() as int;
        match &body.control_nodes[c].kind {
            ControlNodeKind::Block { .. } => {
                proof {
                    lemma_adds_none(env, cx@, body.data_insts@, n_funcs);
                }
            },
            ControlNodeKind::Select { scrutinee } => {
                assert(node.values()[0] == *scrutinee);
                let scrutinee = self.lower_value(
                    cx,
                    &mut body.data_insts,
                    *scrutinee,
                    Ghost(n_funcs),
                );
                body.control_nodes[c].kind = ControlNodeKind::Select { scrutinee };
            },
            ControlNodeKind::Loop { initial_inputs, repeat_condition } => {
                let ghost old_inputs = initial_inputs@;
                let ghost old_condition = *repeat_condition;
                proof {
                    assert(node.values() =~= old_inputs + seq![old_condition]);
                    lemma_values_wf_add(old_inputs, seq![old_condition], n_consts);
                    assert(seq![old_condition][0] == old_condition);
                }
                let condition = *repeat_condition;
                let initial_inputs = self.lower_values(
                    cx,
                    &mut body.data_insts,
                    initial_inputs,
                    Ghost(n_funcs),
                );
                let ghost cx1 = cx@;
                let ghost insts1 = body.data_insts@;
                assert(insts_view(insts1, cx1.forms).len() == insts1.len());
                assert(insts_view(old_insts, old_cx.forms).len() == old_insts.len());
                let repeat_condition = self.lower_value(
                    cx,
                    &mut body.data_insts,
                    condition,
                    Ghost(n_funcs),
                );
                proof {
                    lemma_adds_more(
                        env,
                        old_cx,
                        cx1,
                        cx@,
                        old_insts,
                        insts1,
                        body.data_insts@,
                        old_inputs,
                        seq![old_condition],
                        n_funcs,
                    );
                }
                body.control_nodes[c].kind = ControlNodeKind::Loop {
                    initial_inputs,
                    repeat_condition,
                };
            },
            ControlNodeKind::ExitInvocation { inputs } => {
                let inputs = self.lower_values(cx, &mut body.data_insts, inputs, Ghost(n_funcs));
                body.control_nodes[c].kind = ControlNodeKind::ExitInvocation { inputs };
            },
        }
    }
}

/// The instructions from `first` to before `end`.
fn insts_from(first: usize, end: usize) -> (list: Vec<DataInst>)
    requires
        first <= end,
    ensures
        list@ == new_insts(first as int, end as int),
{
    let mut list: Vec<DataInst> = Vec::new();
    let mut x: usize = first;
    while x < end
        invariant
            first <= x <= end,
            list@ == new_insts(first as int, x as int),
        decreases end - x,
    {
        list.push(DataInst(x));
        x = x + 1;
        assert(list@ =~= new_insts(first as int, x as int));
    }
    list
}

impl Lowerer {
    /// Has regions hand on, and nodes take, converted zeros in place of physical null
    /// pointers.
    pub fn lower_uses(
        &mut self,
        cx: &mut Context,
        body: &mut FuncDefBody,
        Ghost(n_funcs): Ghost<int>,
    )
        requires
            old(self).wf(old(cx)@),
            old(cx)@.wf(n_funcs),
            old(body).view_in(old(cx)@.forms).walk_wf(),
            old(body).forms_within(old(cx)@.forms.len() as int),
            old(body).view_in(old(cx)@.forms).handles_wf(
                old(cx)@.types.len() as int,
                old(cx)@.consts.len() as int,
                n_funcs,
            ),
        ensures
            final(self).wf(final(cx)@),
            *final(self) == (Lowerer { offending: final(self).offending, ..*old(self) }),
            final(cx)@.wf(n_funcs),
            final(cx)@.types == old(cx)@.types,
            final(cx)@.consts == old(cx)@.consts,
            old(cx)@.forms.is_prefix_of(final(cx)@.forms),
            final(body).forms_within(final(cx)@.forms.len() as int),
            final(body).view_in(final(cx)@.forms) == old(self).env(
                old(cx)@,
            ).without_null_uses(old(body).view_in(old(cx)@.forms)),
            forall|h: int|
                old(cx)@.forms.len() <= h < final(cx)@.forms.len() ==> is_form_of_new_inst(
                    #[trigger] final(cx)@.forms[h],
                    final(body).view_in(final(cx)@.forms).insts,
                    old(body).data_insts@.len() as int,
                ),
    {
        let ghost env = self.env(cx@);
        let ghost orig = body.view_in(cx@.forms);
        let ghost old_cx = cx@;
        let ghost old_insts = body.data_insts@;
        let first = body.data_insts.len();
        self.lower_regions(cx, body, Ghost(n_funcs));
        assert(insts_view(body.data_insts@, cx@.forms).len() == body.data_insts@.len());
        assert(insts_view(old_insts, old_cx.forms).len() == first);
        assert forall|q: int| 0 <= q < body.control_nodes@.len() implies (
        #[trigger] body.control_nodes@[q])@ == orig.nodes[q] by {}
        let mut c: usize = 0;
        while c < body.control_nodes.len()
            invariant
                self.wf(cx@),
                *self == (Lowerer { offending: self.offending, ..*old(self) }),
                env == self.env(cx@),
                body.node_order == old(body).node_order,
                body.entry == old(body).entry,
                orig.walk_wf(),
                orig.entry == old(body).entry,
                orig.node_order == old(body).node_order@,
                orig.handles_wf(
                    old_cx.types.len() as int,
                    old_cx.consts.len() as int,
                    n_funcs,
                ),
                first == orig.insts.len(),
                first == old_insts.len(),
                c <= orig.nodes.len(),
                regions_lowered_to(
                    env,
                    orig,
                    body.control_regions@,
                    orig.regions.len() as int,
                ),
                nodes_lowered_to(env, orig, body.control_nodes@, c as int),
                adds_null_insts(
                    env,
                    old_cx,
                    cx@,
                    old_insts,
                    body.data_insts@,
                    orig.uses_before_node(c as nat),
                    n_funcs,
                ),
                body.data_insts@.len() == first + env.null_types(
                    orig.uses_before_node(c as nat),
                ).len(),
            decreases orig.nodes.len() - c,
        {
            let ghost uses = orig.uses_before_node(c as nat);
            let ghost cx1 = cx@;
            let ghost insts1 = body.data_insts@;
            let ghost nodes1 = body.control_nodes@;
            proof {
                assert(body.control_nodes@[c as int]@ == orig.nodes[c as int]);
                assert(values_wf(orig.nodes[c as int].values(), old_cx.consts.len() as int));
            }
            self.lower_node(cx, body, c, Ghost(n_funcs));
            proof {
                env.lemma_null_types_add(uses, orig.nodes[c as int].values());
                lemma_adds_more(
                    env,
                    old_cx,
                    cx1,
                    cx@,
                    old_insts,
                    insts1,
                    body.data_insts@,
                    uses,
                    orig.nodes[c as int].values(),
                    n_funcs,
                );
                assert(body.control_nodes@[c as int]@ == env.nodes_without_nulls(orig)[c as int]);
                assert forall|q: int| 0 <= q < nodes1.len() && q != c implies #[trigger]
                    body.control_nodes@[q] == nodes1[q] by {}
            }
            c = c + 1;
        }
        let end = body.data_insts.len();
        let ghost goal = env.without_null_uses(orig);
        proof {
            let after = body.view_in(cx@.forms);
            assert(after.insts =~= insts_view(body.data_insts@, cx@.forms));
            assert(orig.insts =~= insts_view(old_insts, old_cx.forms));
            assert(after.insts == goal.insts);
            assert(after.regions =~= goal.regions);
            assert(after.nodes =~= env.nodes_without_nulls(orig));
        }
        if end > first {
            let node = ControlNode(body.control_nodes.len());
            let ghost nodes = body.control_nodes@;
            let ghost order = body.node_order@;
            let after_entry = match body.entry {
                Some(entry) => {
                    assert(orig.node_order[0] == entry);
                    assert(nodes[entry.0 as int]@ == env.nodes_without_nulls(
                        orig,
                    )[entry.0 as int]);
                    match &body.control_nodes[entry.0].kind {
                        ControlNodeKind::Block { .. } => true,
                        _ => false,
                    }
                },
                None => false,
            };
            assert(after_entry == (orig.start_place() == 1));
            let insts = insts_from(first, end);
            body.control_nodes.push(
                ControlNodeDef { kind: ControlNodeKind::Block { insts }, outputs: Vec::new() },
            );
            if after_entry {
                body.node_order.insert(1, node);
            } else {
                body.node_order.insert(0, node);
                body.entry = Some(node);
            }
            proof {
                let after = body.view_in(cx@.forms);
                assert(after.insts =~= goal.insts);
                assert(after.regions =~= goal.regions);
                assert(body.control_nodes@[nodes.len() as int]@ =~= start_block(
                    first as int,
                    end as int,
                ));
                assert forall|q: int| 0 <= q < nodes.len() implies #[trigger] after.nodes[q]
                    == env.nodes_without_nulls(orig)[q] by {
                    assert(body.control_nodes@[q] == nodes[q]);
                }
                assert(after.nodes =~= goal.nodes);
                assert(after.node_order =~= goal.node_order);
            }
        }
        assert(body.view_in(cx@.forms).insts =~= insts_view(body.data_insts@, cx@.forms));
    }
}

} // verus!
