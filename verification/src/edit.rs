//! Small changes to function bodies.

use crate::context::{interned, Context};
use crate::ir::{
    lemma_view_in_more_forms, AttrSet, BodyView, ControlNode, ControlNodeKind, DataInst,
    DataInstDef, DataInstFormDef, DataInstView, FormView, FuncDefBody, Value,
};
use vstd::prelude::*;

verus! {

impl BodyView {
    /// The body with `inst` for instruction `d`.
    pub open spec fn with_inst(self, d: DataInst, inst: DataInstView) -> BodyView {
        BodyView { insts: self.insts.update(d.0 as int, inst), ..self }
    }

    /// The body with a new instruction, which stands at place `pos` of block
    /// `node`.
    pub open spec fn with_new_inst(
        self,
        node: ControlNode,
        pos: int,
        inst: DataInstView,
    ) -> BodyView {
        let def = self.nodes[node.0 as int];
        let d = DataInst(self.insts.len() as usize);
        BodyView {
            insts: self.insts.push(inst),
            nodes: self.nodes.update(
                node.0 as int,
                def.with_insts(def.insts().insert(pos, d)),
            ),
            ..self
        }
    }
}

/// A form that was interned is where it was.
proof fn lemma_interned_prefix(forms: Seq<FormView>, form: FormView)
    ensures
        forms.is_prefix_of(interned(forms, form)),
{
    assert(forms =~= interned(forms, form).subrange(0, forms.len() as int));
}

impl FuncDefBody {
    /// Sets one input of an instruction.
    pub fn set_input(&mut self, d: DataInst, idx: usize, v: Value)
        requires
            d.0 < old(self).data_insts@.len(),
            idx < old(self).data_insts@[d.0 as int].inputs@.len(),
        ensures
            forall|n: int| final(self).forms_within(n) == #[trigger] old(self).forms_within(n),
            forall|forms: Seq<FormView>|
                final(self).view_in(forms) == ({
                    let before = #[trigger] old(self).view_in(forms);
                    let inst = before.insts[d.0 as int];
                    before.with_inst(
                        d,
                        DataInstView { inputs: inst.inputs.update(idx as int, v), ..inst },
                    )
                }),
    {
        self.data_insts[d.0].inputs[idx] = v;
        proof {
            assert forall|n: int| self.forms_within(n) == #[trigger] old(self).forms_within(n) by {
                assert forall|i: int| 0 <= i < self.data_insts@.len() implies #[trigger]
                    self.data_insts@[i].form == old(self).data_insts@[i].form by {}
                if self.forms_within(n) {
                    assert forall|i: int| 0 <= i < old(self).data_insts@.len() implies #[trigger]
                        old(self).data_insts@[i].form.0 < n by {
                        assert(self.data_insts@[i].form.0 < n);
                    }
                }
            }
            assert forall|forms: Seq<FormView>|
                self.view_in(forms) == ({
                    let before = #[trigger] old(self).view_in(forms);
                    let inst = before.insts[d.0 as int];
                    before.with_inst(
                        d,
                        DataInstView { inputs: inst.inputs.update(idx as int, v), ..inst },
                    )
                }) by {
                let before = old(self).view_in(forms);
                let inst = before.insts[d.0 as int];
                let after = before.with_inst(
                    d,
                    DataInstView { inputs: inst.inputs.update(idx as int, v), ..inst },
                );
                assert(self.view_in(forms).insts =~= after.insts);
                assert(self.view_in(forms).regions =~= after.regions);
                assert(self.view_in(forms).nodes =~= after.nodes);
            }
        }
    }
}

/// Gives an instruction another form.
pub fn set_form(cx: &mut Context, body: &mut FuncDefBody, d: DataInst, def: DataInstFormDef)
    requires
        old(body).forms_within(old(cx)@.forms.len() as int),
        d.0 < old(body).data_insts@.len(),
    ensures
        final(cx)@.types == old(cx)@.types,
        final(cx)@.consts == old(cx)@.consts,
        final(cx)@.forms == interned(old(cx)@.forms, def@),
        final(body).forms_within(final(cx)@.forms.len() as int),
        final(body).view_in(final(cx)@.forms) == ({
            let before = old(body).view_in(old(cx)@.forms);
            before.with_inst(d, DataInstView { form: def@, ..before.insts[d.0 as int] })
        }),
{
    let ghost before = body.view_in(cx@.forms);
    let ghost old_forms = cx@.forms;
    let ghost new_inst = DataInstView { form: def@, ..before.insts[d.0 as int] };
    proof {
        lemma_interned_prefix(old_forms, def@);
    }
    let new_form = cx.intern_form(def);
    proof {
        lemma_view_in_more_forms(*body, old_forms, cx@.forms);
    }
    let ghost old_body = *body;
    body.data_insts[d.0].form = new_form;
    proof {
        let after = body.view_in(cx@.forms);
        assert forall|i: int| 0 <= i < body.data_insts@.len() implies #[trigger]
            body.data_insts@[i].form.0 < cx@.forms.len() by {
            if i != d.0 {
                assert(old_body.data_insts@[i].form.0 < cx@.forms.len());
            }
        }
        assert(after.insts =~= before.insts.update(d.0 as int, new_inst)) by {
            assert forall|i: int| 0 <= i < after.insts.len() implies after.insts[i]
                == before.insts.update(d.0 as int, new_inst)[i] by {
                assert(after.insts[i] == body.data_insts@[i].view_in(cx@.forms));
            }
        }
        assert(after.regions =~= before.regions);
        assert(after.nodes =~= before.nodes);
    }
}

/// Adds an instruction without attributes to a body, at place `pos` of block
/// `node`.
pub fn insert_inst(
    cx: &mut Context,
    body: &mut FuncDefBody,
    node: ControlNode,
    pos: usize,
    def: DataInstFormDef,
    inputs: Vec<Value>,
) -> (d: DataInst)
    requires
        old(body).forms_within(old(cx)@.forms.len() as int),
        node.0 < old(body).control_nodes@.len(),
        old(body).control_nodes@[node.0 as int].kind is Block,
        pos <= old(body).control_nodes@[node.0 as int]@.insts().len(),
    ensures
        d.0 == old(body).data_insts@.len(),
        final(cx)@.types == old(cx)@.types,
        final(cx)@.consts == old(cx)@.consts,
        final(cx)@.forms == interned(old(cx)@.forms, def@),
        final(body).forms_within(final(cx)@.forms.len() as int),
        final(body).view_in(final(cx)@.forms) == old(body).view_in(old(cx)@.forms).with_new_inst(
            node,
            pos as int,
            DataInstView { attrs: AttrSet(0), form: def@, inputs: inputs@ },
        ),
{
    let ghost before = body.view_in(cx@.forms);
    let ghost old_forms = cx@.forms;
    let ghost inst = DataInstView { attrs: AttrSet(0), form: def@, inputs: inputs@ };
    proof {
        lemma_interned_prefix(old_forms, def@);
    }
    let form = cx.intern_form(def);
    proof {
        lemma_view_in_more_forms(*body, old_forms, cx@.forms);
    }
    let d = DataInst(body.data_insts.len());
    let ghost old_body = *body;
    body.data_insts.push(DataInstDef { attrs: AttrSet::default(), form, inputs });
    match &mut body.control_nodes[node.0].kind {
        ControlNodeKind::Block { insts } => insts.insert(pos, d),
        _ => {},
    }
    proof {
        let after = body.view_in(cx@.forms);
        let goal = before.with_new_inst(node, pos as int, inst);
        assert forall|i: int| 0 <= i < body.data_insts@.len() implies #[trigger]
            body.data_insts@[i].form.0 < cx@.forms.len() by {
            if i < old_body.data_insts@.len() {
                assert(old_body.data_insts@[i].form.0 < cx@.forms.len());
            }
        }
        assert(after.insts =~= goal.insts) by {
            assert forall|i: int| 0 <= i < after.insts.len() implies after.insts[i]
                == goal.insts[i] by {
                assert(after.insts[i] == body.data_insts@[i].view_in(cx@.forms));
            }
        }
        assert(after.regions =~= goal.regions);
        assert(after.nodes[node.0 as int] =~= goal.nodes[node.0 as int]);
        assert(after.nodes =~= goal.nodes);
    }
    d
}

} // verus!
