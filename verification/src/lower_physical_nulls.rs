//! Makes null checks of physical pointers valid.
//!
//! There must be no null constant of a physical pointer type. An instruction that
//! takes one takes a `u64` zero instead, which is converted to a pointer right before
//! it. A region that hands one on, and a control node that takes one, has a zero that is
//! converted in a new block at the start of the function.
//!
//! The address of a physical pointer has 64 bits. A conversion of a physical
//! pointer to another integer is widened to `u64`, and a comparison that comes after
//! it and takes its output has its integer zeros widened to match. Other constants
//! are left alone: to widen them might change what is compared.

use crate::collections::{new_const_notes, new_handle_set};
use crate::context::{lemma_interned, Context, Module, ModuleView};
use crate::ir::{
    AttrSet, BodyView, ConstDef, ConstKind, ControlNode, DataInst, DataInstView, FormView, Func,
    FuncDecl, FuncDefBody, FuncView, TypeDef, TypeKind,
};
use crate::lower_laws::is_lowered;
use crate::lowering::{
    has_typed_source, is_lowerable, is_lowerable_body, lemma_with_u64, lowered_funcs, lowering_env,
    new_insts, null_const, u64_type, with_u64, Env, Lowering,
};
use crate::lowerer::{forms_of_changed_insts, is_form_of_new_inst, lowered_at, Lowerer};
use crate::reach::{reachable, Worklist};
use crate::rewrite::{
    callees_seen, changed_funcs, forms_added, forms_come_from, has_form, is_changed_form,
    is_form_in, is_under_way, lemma_callee_reachable, lemma_callees_all, lemma_callees_next_node,
    lemma_callees_step, lemma_forms_in_use, lemma_func_changed, lemma_funcs_changed,
};
use crate::spirv::{Imm, Inst};
use crate::types::lemma_same_type_of;
use crate::well_known::WellKnown;
use vstd::prelude::*;

verus! {

/// What the instructions of the `n2`-th node are when a walk comes to the `j`-th
/// instruction of the `n`-th.
spec fn partly_lowered_block(env: Env, orig: BodyView, n: nat, j: nat, n2: nat) -> Seq<DataInst> {
    if n2 < n {
        env.lowered_block(orig, n2, orig.block(n2 as int).len())
    } else if n2 == n {
        env.lowered_block(orig, n, j) + orig.block(n as int).skip(j as int)
    } else {
        orig.block(n2 as int)
    }
}

/// `cur` is what `orig` is when a walk comes to the `j`-th instruction of the `n`-th
/// node.
spec fn is_partly_lowered(env: Env, orig: BodyView, cur: BodyView, n: nat, j: nat) -> bool {
    &&& cur.regions == orig.regions
    &&& cur.node_order == orig.node_order
    &&& cur.entry == orig.entry
    &&& cur.insts == env.lowered_to(orig, n, j).insts
    &&& cur.nodes.len() == orig.nodes.len()
    &&& forall|n2: int|
        0 <= n2 < orig.node_order.len() ==> cur.nodes[(#[trigger] orig.node_order[n2]).0 as int]
            == orig.nodes[orig.node_order[n2].0 as int].with_insts(
            partly_lowered_block(env, orig, n, j, n2 as nat),
        )
    &&& forall|c: ControlNode|
        c.0 < orig.nodes.len() && !#[trigger] orig.node_order.contains(c) ==> cur.nodes[c.0 as int]
            == orig.nodes[c.0 as int]
}

/// Every form after the first `first` is that of a new instruction, or of one that a
/// walk comes to before the `j`-th of its `n`-th node.
spec fn forms_come_from_lowered(
    forms: Seq<FormView>,
    first: int,
    orig: BodyView,
    insts: Seq<DataInstView>,
    n: nat,
    j: nat,
) -> bool {
    forall|h: int|
        first <= h < forms.len() ==> is_lowered_form(#[trigger] forms[h], orig, insts, n, j)
}

spec fn is_lowered_form(
    form: FormView,
    orig: BodyView,
    insts: Seq<DataInstView>,
    n: nat,
    j: nat,
) -> bool {
    ||| is_form_of_new_inst(form, insts, orig.insts.len() as int)
    ||| exists|x: DataInst| #[trigger]
        orig.visits_before(n as int, j as int, x) && insts[x.0 as int].form == form
}

/// A walk that has done nothing.
proof fn lemma_lowering_starts(env: Env, orig: BodyView)
    requires
        orig.walk_wf(),
    ensures
        is_partly_lowered(env, orig, orig, 0, 0),
{
    assert forall|n2: int| 0 <= n2 < orig.node_order.len() implies orig.nodes[(
    #[trigger] orig.node_order[n2]).0 as int] == orig.nodes[orig.node_order[n2].0 as int].with_insts(
        partly_lowered_block(env, orig, 0, 0, n2 as nat),
    ) by {
        let block = orig.block(n2);
        assert(Seq::<DataInst>::empty() + block.skip(0) =~= block);
    }
}

/// The same becomes of an instruction in bodies that differ in what their blocks
/// hold.
proof fn lemma_same_lowered_inst(env: Env, a: BodyView, b: BodyView, before: Lowering, d: DataInst)
    requires
        a.regions == b.regions,
        a.nodes.len() == b.nodes.len(),
        forall|n: int|
            0 <= n < a.nodes.len() ==> (#[trigger] a.nodes[n]).outputs == b.nodes[n].outputs,
    ensures
        env.lowered_inst(a, before, d) == env.lowered_inst(b, before, d),
{
    let old_inst = before.insts[d.0 as int];
    let insts = before.insts + env.null_insts(old_inst.inputs);
    let inst = env.without_nulls_inst(old_inst, before.insts.len() as int);
    lemma_same_type_of(
        env.consts,
        BodyView { insts, ..a },
        BodyView { insts, ..b },
        inst.inputs[0],
    );
}

/// Half of a body that was lowered has the outputs and values that it had.
proof fn lemma_same_outputs(env: Env, orig: BodyView, cur: BodyView, n: nat, j: nat)
    requires
        orig.walk_wf(),
        orig.nodes.len() <= usize::MAX,
        is_partly_lowered(env, orig, cur, n, j),
    ensures
        forall|i: int|
            0 <= i < cur.nodes.len() ==> (#[trigger] cur.nodes[i]).outputs == orig.nodes[i].outputs
                && cur.nodes[i].values() == orig.nodes[i].values(),
{
    assert forall|i: int| 0 <= i < cur.nodes.len() implies (#[trigger] cur.nodes[i]).outputs
        == orig.nodes[i].outputs && cur.nodes[i].values() == orig.nodes[i].values() by {
        let c = ControlNode(i as usize);
        if orig.node_order.contains(c) {
            let n2 = orig.node_order.index_of(c);
            assert(orig.node_order[n2] == c);
        }
    }
}

/// What is needed to lower the next instruction.
proof fn lemma_lower_step(
    env: Env,
    orig: BodyView,
    cur: BodyView,
    n: nat,
    j: nat,
    d: DataInst,
    n_funcs: int,
)
    requires
        env.wf(),
        orig.wf(env.types.len() as int, env.consts.len() as int, n_funcs),
        is_lowerable_body(env, orig),
        is_partly_lowered(env, orig, cur, n, j),
        orig.visits_at(n as int, j as int, d),
    ensures
        d.0 < cur.insts.len(),
        d.0 < orig.insts.len(),
        cur.insts[d.0 as int] == orig.insts[d.0 as int],
        cur.handles_wf(env.types.len() as int, env.consts.len() as int, n_funcs),
        has_typed_source(env, cur, cur.insts[d.0 as int]),
        env.lowered_inst(cur, env.lowered_to(orig, n, j), d) == env.lowered_to(orig, n, j + 1),
{
    let s = env.lowered_to(orig, n, j);
    env.lemma_lowered_to(orig, n, j, n_funcs);
    orig.lemma_visits_once(n as int, j as int, d);
    lemma_same_outputs(env, orig, cur, n, j);
    assert forall|i: int, k: int|
        0 <= i < cur.nodes.len() && 0 <= k < cur.nodes[i].outputs.len() implies #[trigger] cur.nodes[i].outputs[k].0
        < env.types.len() by {
        assert(orig.nodes[i].outputs[k].0 < env.types.len());
    }
    let typed = BodyView { insts: s.insts, ..orig };
    lemma_same_type_of(env.consts, cur, typed, cur.insts[d.0 as int].inputs[0]);
    lemma_same_lowered_inst(env, cur, orig, s, d);
}

/// One instruction further.
proof fn lemma_lower_stepped(
    env: Env,
    orig: BodyView,
    cur: BodyView,
    after: BodyView,
    n: nat,
    j: nat,
    d: DataInst,
    n_funcs: int,
)
    requires
        env.wf(),
        orig.wf(env.types.len() as int, env.consts.len() as int, n_funcs),
        is_lowerable_body(env, orig),
        is_partly_lowered(env, orig, cur, n, j),
        orig.visits_at(n as int, j as int, d),
        after == lowered_at(
            env,
            cur,
            env.lowered_to(orig, n, j).widened,
            orig.node_order[n as int],
            env.lowered_block(orig, n, j).len() as int,
            d,
        ),
    ensures
        is_partly_lowered(env, orig, after, n, j + 1),
        env.lowered_block(orig, n, j + 1).len() == env.lowered_block(orig, n, j).len() + (
        after.insts.len() - cur.insts.len()) + 1,
{
    let s = env.lowered_to(orig, n, j);
    let next = env.lowered_to(orig, n, j + 1);
    let node = orig.node_order[n as int];
    let block = orig.block(n as int);
    let done = env.lowered_block(orig, n, j);
    let more = env.lowered_block(orig, n, j + 1);
    lemma_lower_step(env, orig, cur, n, j, d, n_funcs);
    env.lemma_lowered_inst(orig, s, d, n_funcs);
    assert(s =~= (Lowering { insts: cur.insts, widened: s.widened }));
    assert(after.insts == next.insts);
    let list = done + block.skip(j as int);
    assert(cur.nodes[node.0 as int] == orig.nodes[node.0 as int].with_insts(
        partly_lowered_block(env, orig, n, j, n),
    ));
    assert(orig.nodes[node.0 as int].kind is Block);
    let fresh = new_insts(s.insts.len() as int, next.insts.len() as int);
    assert(list.take(done.len() as int) =~= done);
    assert(list.skip(done.len() as int) =~= block.skip(j as int));
    assert(more == done + fresh + seq![d]);
    assert(done + fresh + block.skip(j as int) =~= more + block.skip(j as int + 1));
    assert forall|n2: int| 0 <= n2 < orig.node_order.len() implies after.nodes[(
    #[trigger] orig.node_order[n2]).0 as int] == orig.nodes[orig.node_order[n2].0 as int].with_insts(
        partly_lowered_block(env, orig, n, j + 1, n2 as nat),
    ) by {
        if n2 != n {
            assert(orig.node_order[n2] != node);
            assert(orig.node_order[n2].0 != node.0);
            assert(cur.nodes[orig.node_order[n2].0 as int]
                == orig.nodes[orig.node_order[n2].0 as int].with_insts(
                partly_lowered_block(env, orig, n, j, n2 as nat),
            ));
        }
    }
    assert forall|c: ControlNode|
        c.0 < orig.nodes.len() && !#[trigger] orig.node_order.contains(
            c,
        ) implies after.nodes[c.0 as int] == orig.nodes[c.0 as int] by {
        if c.0 == node.0 {
            assert(c == node);
            assert(orig.node_order[n as int] == c);
        }
    }
}

/// One instruction further.
proof fn lemma_lower_forms_stepped(
    before: Seq<FormView>,
    forms: Seq<FormView>,
    first: int,
    env: Env,
    orig: BodyView,
    n: nat,
    j: nat,
    d: DataInst,
    n_funcs: int,
)
    requires
        env.wf(),
        orig.wf(env.types.len() as int, env.consts.len() as int, n_funcs),
        0 <= first,
        before.is_prefix_of(forms),
        forms_come_from_lowered(before, first, orig, env.lowered_to(orig, n, j).insts, n, j),
        orig.visits_at(n as int, j as int, d),
        forms_of_changed_insts(
            forms,
            before.len() as int,
            env.lowered_to(orig, n, j + 1).insts,
            d,
            env.lowered_to(orig, n, j).insts.len() as int,
        ),
    ensures
        forms_come_from_lowered(
            forms,
            first,
            orig,
            env.lowered_to(orig, n, j + 1).insts,
            n,
            j + 1,
        ),
{
    let old_insts = env.lowered_to(orig, n, j).insts;
    let insts = env.lowered_to(orig, n, j + 1).insts;
    orig.lemma_visits_step(n as int, j as int, d);
    orig.lemma_visits_once(n as int, j as int, d);
    env.lemma_lowered_to(orig, n, j, n_funcs);
    env.lemma_lowered_inst(orig, env.lowered_to(orig, n, j), d, n_funcs);
    assert forall|h: int| first <= h < forms.len() implies is_lowered_form(
        #[trigger] forms[h],
        orig,
        insts,
        n,
        j + 1,
    ) by {
        if h < before.len() {
            assert(forms[h] == before[h]);
            if is_form_of_new_inst(before[h], old_insts, orig.insts.len() as int) {
                let x = choose|x: int|
                    orig.insts.len() <= x < old_insts.len() && (#[trigger] old_insts[x]).form
                        == before[h];
                assert(insts[x] == old_insts[x]);
            } else {
                let x = choose|x: DataInst| #[trigger]
                    orig.visits_before(n as int, j as int, x) && old_insts[x.0 as int].form
                        == before[h];
                let (n2, j2) = choose|n2: int, j2: int| #[trigger]
                    orig.visits_at(n2, j2, x) && (n2 < n || (n2 == n && j2 < j));
                assert(orig.visits_at(n2, j2, x));
                assert(x != d);
                assert(x.0 != d.0);
                assert(insts[x.0 as int] == old_insts[x.0 as int]);
                assert(orig.visits_before(n as int, j as int + 1, x));
            }
        } else if is_form_of_new_inst(forms[h], insts, old_insts.len() as int) {
            let x = choose|x: int|
                old_insts.len() <= x < insts.len() && (#[trigger] insts[x]).form == forms[h];
            assert(orig.insts.len() <= x);
        } else {
            assert(orig.visits_before(n as int, j as int + 1, d));
        }
    }
}

/// One node further.
proof fn lemma_lower_next_node(
    env: Env,
    orig: BodyView,
    cur: BodyView,
    forms: Seq<FormView>,
    first: int,
    n: nat,
)
    requires
        n < orig.node_order.len(),
        is_partly_lowered(env, orig, cur, n, orig.block(n as int).len()),
        forms_come_from_lowered(forms, first, orig, cur.insts, n, orig.block(n as int).len()),
    ensures
        env.lowered_to(orig, n + 1, 0) == env.lowered_to(orig, n, orig.block(n as int).len()),
        is_partly_lowered(env, orig, cur, n + 1, 0),
        forms_come_from_lowered(forms, first, orig, cur.insts, n + 1, 0),
{
    let len = orig.block(n as int).len();
    orig.lemma_visits_next_node(n as int);
    assert forall|n2: int| 0 <= n2 < orig.node_order.len() implies cur.nodes[(
    #[trigger] orig.node_order[n2]).0 as int] == orig.nodes[orig.node_order[n2].0 as int].with_insts(
        partly_lowered_block(env, orig, n + 1, 0, n2 as nat),
    ) by {
        let block = orig.block(n2);
        let done = env.lowered_block(orig, n2 as nat, block.len());
        assert(done + block.skip(block.len() as int) =~= done);
        assert(env.lowered_block(orig, n2 as nat, 0) + block.skip(0) =~= block);
        assert(cur.nodes[orig.node_order[n2].0 as int]
            == orig.nodes[orig.node_order[n2].0 as int].with_insts(
            partly_lowered_block(env, orig, n, len, n2 as nat),
        ));
    }
    assert forall|h: int| first <= h < forms.len() implies is_lowered_form(
        #[trigger] forms[h],
        orig,
        cur.insts,
        n + 1,
        0,
    ) by {
        assert(is_lowered_form(forms[h], orig, cur.insts, n, len));
        if !is_form_of_new_inst(forms[h], cur.insts, orig.insts.len() as int) {
            let x = choose|x: DataInst| #[trigger]
                orig.visits_before(n as int, len as int, x) && cur.insts[x.0 as int].form
                    == forms[h];
            assert(orig.visits_before(n as int + 1, 0, x));
        }
    }
}

/// At the end of a walk, the body is lowered.
proof fn lemma_all_lowered(
    env: Env,
    orig: BodyView,
    cur: BodyView,
    forms: Seq<FormView>,
    first: int,
    n_funcs: int,
)
    requires
        env.wf(),
        orig.wf(env.types.len() as int, env.consts.len() as int, n_funcs),
        is_partly_lowered(env, orig, cur, orig.node_order.len(), 0),
        forms_come_from_lowered(forms, first, orig, cur.insts, orig.node_order.len(), 0),
    ensures
        cur == env.inst_lowered_body(orig),
        forms_come_from(forms, first, FuncView::Present(env.inst_lowered_body(orig))),
{
    let end = orig.node_order.len();
    let goal = env.inst_lowered_body(orig);
    assert forall|i: int| 0 <= i < cur.nodes.len() implies cur.nodes[i] == goal.nodes[i] by {
        let c = ControlNode(i as usize);
        if orig.node_order.contains(c) {
            let n2 = orig.node_order.index_of(c);
            assert(orig.node_order[n2] == c);
            assert(cur.nodes[orig.node_order[n2].0 as int]
                == orig.nodes[orig.node_order[n2].0 as int].with_insts(
                partly_lowered_block(env, orig, end, 0, n2 as nat),
            ));
        }
    }
    assert(cur.nodes =~= goal.nodes);
    env.lemma_lowered_to(orig, end, 0, n_funcs);
    assert forall|h: int| first <= h < forms.len() implies is_form_in(
        #[trigger] forms[h],
        FuncView::Present(goal),
    ) by {
        assert(is_lowered_form(forms[h], orig, cur.insts, end, 0));
        if !is_form_of_new_inst(forms[h], cur.insts, orig.insts.len() as int) {
            let x = choose|x: DataInst| #[trigger]
                orig.visits_before(end as int, 0, x) && cur.insts[x.0 as int].form == forms[h];
            let (n2, j2) = choose|n2: int, j2: int| #[trigger]
                orig.visits_at(n2, j2, x) && (n2 < end || (n2 == end && j2 < 0));
            assert(orig.visits_at(n2, j2, x));
            assert(goal.insts[x.0 as int].form == forms[h]);
        } else {
            let x = choose|x: int|
                orig.insts.len() <= x < cur.insts.len() && (#[trigger] cur.insts[x]).form
                    == forms[h];
            assert(goal.insts[x].form == forms[h]);
        }
    }
}

impl Lowerer {
    /// The pass is on its way through function `func`, which was `orig`, and comes to
    /// the `j`-th instruction of the `n`-th node.
    spec fn is_at(
        self,
        cx: Context,
        body: FuncDefBody,
        m: ModuleView,
        func: Func,
        orig: BodyView,
        old_forms: Seq<FormView>,
        n: nat,
        j: nat,
    ) -> bool {
        let env = self.env(cx@);
        &&& self.wf(cx@)
        &&& self.work.tracks(m, cx@.forms, Some(func))
        &&& callees_seen(orig, self.work, n as int, j as int)
        &&& cx@.wf(m.funcs.len() as int)
        &&& cx@.types == m.cx.types
        &&& cx@.consts == m.cx.consts
        &&& old_forms.is_prefix_of(cx@.forms)
        &&& body.forms_within(cx@.forms.len() as int)
        &&& is_partly_lowered(env, orig, body.view_in(cx@.forms), n, j)
        &&& self.widened_ptr_to_u@ == env.lowered_to(orig, n, j).widened
        &&& forms_come_from_lowered(
            cx@.forms,
            old_forms.len() as int,
            orig,
            body.view_in(cx@.forms).insts,
            n,
            j,
        )
    }

    /// Lowers the instructions of one node, and comes across the functions that they
    /// call.
    fn in_place_transform_control_node_def(
        &mut self,
        cx: &mut Context,
        body: &mut FuncDefBody,
        node: ControlNode,
        Ghost(m): Ghost<ModuleView>,
        Ghost(func): Ghost<Func>,
        Ghost(orig): Ghost<BodyView>,
        Ghost(old_forms): Ghost<Seq<FormView>>,
        Ghost(n): Ghost<nat>,
    )
        requires
            m.wf(),
            func.0 < m.funcs.len(),
            reachable(m, func),
            m.funcs[func.0 as int] == FuncView::Present(orig),
            is_lowerable_body(old(self).env(old(cx)@), orig),
            n < orig.node_order.len(),
            node == orig.node_order[n as int],
            old(self).is_at(*old(cx), *old(body), m, func, orig, old_forms, n, 0),
        ensures
            final(self).is_at(
                *final(cx),
                *final(body),
                m,
                func,
                orig,
                old_forms,
                n,
                orig.block(n as int).len(),
            ),
            final(self).env(final(cx)@) == old(self).env(old(cx)@),
            final(self).work.work_left(m.funcs.len() as int) == old(self).work.work_left(
                m.funcs.len() as int,
            ),
            final(self).work.global_var_queue == old(self).work.global_var_queue,
            forall|f: Func| #[trigger]
                final(self).work.looked_at(f) <==> old(self).work.looked_at(f),
    {
        let ghost n_funcs = m.funcs.len() as int;
        let ghost env = self.env(cx@);
        let ghost block = orig.block(n as int);
        let ghost mut j: nat = 0;
        let mut pos: usize = 0;
        assert(orig.wf(m.cx.types.len() as int, m.cx.consts.len() as int, n_funcs));
        let mut len = body.block_len(node);
        while pos < len
            invariant
                m.wf(),
                n_funcs == m.funcs.len(),
                func.0 < m.funcs.len(),
                reachable(m, func),
                m.funcs[func.0 as int] == FuncView::Present(orig),
                orig.wf(m.cx.types.len() as int, m.cx.consts.len() as int, n_funcs),
                is_lowerable_body(env, orig),
                n < orig.node_order.len(),
                node == orig.node_order[n as int],
                block == orig.block(n as int),
                env == self.env(cx@),
                self.is_at(*cx, *body, m, func, orig, old_forms, n, j),
                j <= block.len(),
                pos == env.lowered_block(orig, n, j).len(),
                len == pos + block.len() - j,
                self.work.work_left(n_funcs) == old(self).work.work_left(n_funcs),
                self.work.global_var_queue == old(self).work.global_var_queue,
                forall|f: Func| #[trigger]
                    self.work.looked_at(f) <==> old(self).work.looked_at(f),
            decreases block.len() - j,
        {
            let ghost cur = body.view_in(cx@.forms);
            let ghost cur_forms = cx@.forms;
            let ghost cur_work = self.work;
            proof {
                assert(cur.nodes.len() == body.control_nodes@.len());
                assert(cur.nodes[node.0 as int] == body.control_nodes@[node.0 as int]@);
                assert(cur.nodes[orig.node_order[n as int].0 as int]
                    == orig.nodes[node.0 as int].with_insts(
                    partly_lowered_block(env, orig, n, j, n),
                ));
                assert(orig.visits_at(n as int, j as int, block[j as int]));
            }
            let d = body.block_inst(node, pos);
            let old_len = body.data_insts.len();
            proof {
                assert(d == block[j as int]);
                assert(orig.visits_at(n as int, j as int, d));
                lemma_lower_step(env, orig, cur, n, j, d, n_funcs);
                lemma_callee_reachable(m, func, orig, n as int, j as int, d);
                assert(env.lowered_to(orig, n, j) =~= (Lowering {
                    insts: cur.insts,
                    widened: self.widened_ptr_to_u@,
                }));
            }
            self.in_place_transform_data_inst_def(
                cx,
                body,
                node,
                pos,
                d,
                Ghost(m),
                Ghost(Some(func)),
            );
            proof {
                let after = body.view_in(cx@.forms);
                lemma_lower_stepped(env, orig, cur, after, n, j, d, n_funcs);
                lemma_callees_step(orig, cur_work, self.work, n as int, j as int, d);
                lemma_lower_forms_stepped(
                    cur_forms,
                    cx@.forms,
                    old_forms.len() as int,
                    env,
                    orig,
                    n,
                    j,
                    d,
                    n_funcs,
                );
                assert(old_forms =~= cx@.forms.subrange(0, old_forms.len() as int));
                assert(after.insts.len() == body.data_insts@.len());
                assert(after.nodes.len() == body.control_nodes@.len());
                assert(after.nodes[node.0 as int] == body.control_nodes@[node.0 as int]@);
                j = j + 1;
                assert(after.nodes[orig.node_order[n as int].0 as int]
                    == orig.nodes[node.0 as int].with_insts(
                    partly_lowered_block(env, orig, n, j, n),
                ));
            }
            len = body.block_len(node);
            pos = pos + (body.data_insts.len() - old_len) + 1;
        }
    }
}

impl Lowerer {
    /// Lowers one function, and comes across the functions that it calls.
    fn in_place_transform_func_decl(
        &mut self,
        cx: &mut Context,
        decl: &mut FuncDecl,
        Ghost(m): Ghost<ModuleView>,
        Ghost(func): Ghost<Func>,
    )
        requires
            m.wf(),
            func.0 < m.funcs.len(),
            reachable(m, func),
            old(self).wf(old(cx)@),
            m.funcs[func.0 as int] matches FuncView::Present(body) ==> is_lowerable_body(
                old(self).env(old(cx)@),
                body,
            ),
            old(self).work.tracks(m, old(cx)@.forms, Some(func)),
            old(cx)@.wf(m.funcs.len() as int),
            old(cx)@.types == m.cx.types,
            old(cx)@.consts == m.cx.consts,
            old(decl).forms_within(old(cx)@.forms.len() as int),
            old(decl).view_in(old(cx)@.forms) == m.funcs[func.0 as int],
        ensures
            final(self).wf(final(cx)@),
            final(self).env(final(cx)@) == old(self).env(old(cx)@),
            final(self).work.tracks(m, final(cx)@.forms, None),
            final(self).work.work_left(m.funcs.len() as int) == old(self).work.work_left(
                m.funcs.len() as int,
            ),
            final(self).work.global_var_queue == old(self).work.global_var_queue,
            forall|f: Func| #[trigger]
                final(self).work.looked_at(f) <==> old(self).work.looked_at(f),
            final(cx)@.wf(m.funcs.len() as int),
            final(cx)@.types == old(cx)@.types,
            final(cx)@.consts == old(cx)@.consts,
            old(cx)@.forms.is_prefix_of(final(cx)@.forms),
            final(decl).forms_within(final(cx)@.forms.len() as int),
            final(decl).view_in(final(cx)@.forms) == old(self).env(old(cx)@).lowered_func(
                m.funcs[func.0 as int],
            ),
            forms_come_from(
                final(cx)@.forms,
                old(cx)@.forms.len() as int,
                old(self).env(old(cx)@).lowered_func(m.funcs[func.0 as int]),
            ),
    {
        let ghost n_funcs = m.funcs.len() as int;
        let ghost env = self.env(cx@);
        let ghost old_forms = cx@.forms;
        assert(old_forms =~= old_forms.subrange(0, old_forms.len() as int));
        match decl {
            FuncDecl::Imported => {
                proof {
                    self.work.lemma_done(m, cx@.forms, func);
                }
            },
            FuncDecl::Present(body) => {
                let ghost orig = body.view_in(cx@.forms);
                assert(m.funcs[func.0 as int] == FuncView::Present(orig));
                assert(orig.wf(m.cx.types.len() as int, m.cx.consts.len() as int, n_funcs));
                self.widened_ptr_to_u = new_handle_set();
                proof {
                    orig.lemma_visits_ends();
                    lemma_lowering_starts(env, orig);
                }
                let mut n: usize = 0;
                while n < body.node_order.len()
                    invariant
                        m.wf(),
                        n_funcs == m.funcs.len(),
                        func.0 < m.funcs.len(),
                        reachable(m, func),
                        m.funcs[func.0 as int] == FuncView::Present(orig),
                        is_lowerable_body(env, orig),
                        env == self.env(cx@),
                        n <= orig.node_order.len(),
                        self.is_at(*cx, *body, m, func, orig, old_forms, n as nat, 0),
                        self.work.work_left(n_funcs) == old(self).work.work_left(n_funcs),
                        self.work.global_var_queue == old(self).work.global_var_queue,
                        forall|f: Func| #[trigger]
                            self.work.looked_at(f) <==> old(self).work.looked_at(f),
                    decreases orig.node_order.len() - n,
                {
                    let node = body.node_order[n];
                    self.in_place_transform_control_node_def(
                        cx,
                        body,
                        node,
                        Ghost(m),
                        Ghost(func),
                        Ghost(orig),
                        Ghost(old_forms),
                        Ghost(n as nat),
                    );
                    proof {
                        lemma_lower_next_node(
                            env,
                            orig,
                            body.view_in(cx@.forms),
                            cx@.forms,
                            old_forms.len() as int,
                            n as nat,
                        );
                        lemma_callees_next_node(orig, self.work, n as int);
                    }
                    n = n + 1;
                }
                proof {
                    lemma_all_lowered(
                        env,
                        orig,
                        body.view_in(cx@.forms),
                        cx@.forms,
                        old_forms.len() as int,
                        n_funcs,
                    );
                    lemma_callees_all(m, func, orig, self.work);
                    self.work.lemma_done(m, cx@.forms, func);
                    assert(env.inst_lowered_body(orig).insts.len() == body.data_insts.len());
                    env.lemma_inst_lowered_body_wf(orig, n_funcs);
                }
                let ghost inst_forms = cx@.forms;
                let ghost inst_lowered = body.view_in(cx@.forms);
                self.lower_uses(cx, body, Ghost(n_funcs));
                proof {
                    self.work.lemma_more_forms(m, inst_forms, cx@.forms, None);
                    assert(old_forms =~= cx@.forms.subrange(0, old_forms.len() as int));
                    lemma_uses_forms(
                        env,
                        inst_lowered,
                        inst_forms,
                        cx@.forms,
                        old_forms.len() as int,
                    );
                }
            },
        }
    }
}

/// Forms that come from the instructions of a body come from it when its other uses of
/// null pointers are lowered.
proof fn lemma_uses_forms(
    env: Env,
    body: BodyView,
    before: Seq<FormView>,
    forms: Seq<FormView>,
    first: int,
)
    requires
        0 <= first,
        before.is_prefix_of(forms),
        forms_come_from(before, first, FuncView::Present(body)),
        forall|h: int|
            before.len() <= h < forms.len() ==> is_form_of_new_inst(
                #[trigger] forms[h],
                env.without_null_uses(body).insts,
                body.insts.len() as int,
            ),
    ensures
        forms_come_from(forms, first, FuncView::Present(env.without_null_uses(body))),
{
    let after = env.without_null_uses(body);
    assert forall|h: int| first <= h < forms.len() implies is_form_in(
        #[trigger] forms[h],
        FuncView::Present(after),
    ) by {
        if h < before.len() {
            assert(forms[h] == before[h]);
            assert(is_form_in(before[h], FuncView::Present(body)));
            let d = choose|d: int|
                0 <= d < body.insts.len() && (#[trigger] body.insts[d]).form == before[h];
            assert(after.insts[d] == body.insts[d]);
        } else {
            let x = choose|x: int|
                body.insts.len() <= x < after.insts.len() && (#[trigger] after.insts[x]).form
                    == forms[h];
            assert(after.insts[x].form == forms[h]);
        }
    }
}

/// A function that was lowered is in order.
proof fn lemma_lowered_module_wf(m: ModuleView, module: Module, work: Worklist)
    requires
        with_u64(m).wf(),
        lowering_env(m.cx).wf(),
        forall|f: Func| #[trigger] reachable(with_u64(m), f) <==> reachable(m, f),
        is_under_way(
            with_u64(m),
            |func: FuncView| lowering_env(m.cx).lowered_func(func),
            module,
            work,
        ),
        work.tracks(with_u64(m), module.cx@.forms, None),
        work.queue().len() == 0,
    ensures
        module.wf(),
        module@.funcs == lowered_funcs(m),
        forms_added(
            m,
            |func: FuncView| lowering_env(m.cx).lowered_func(func),
            module.cx@.forms,
        ),
{
    let env = lowering_env(m.cx);
    let after = with_u64(m);
    let change = |func: FuncView| env.lowered_func(func);
    let n_types = env.types.len() as int;
    let n_consts = env.consts.len() as int;
    let n_funcs = m.funcs.len() as int;
    lemma_funcs_changed(after, change, module, work);
    assert(changed_funcs(after, change) =~= lowered_funcs(m));
    assert forall|h: int| m.cx.forms.len() <= h < module.cx@.forms.len() implies is_changed_form(
        m,
        change,
        #[trigger] module.cx@.forms[h],
    ) by {
        assert(is_changed_form(after, change, module.cx@.forms[h]));
        let f = choose|f: Func| #[trigger]
            reachable(after, f) && f.0 < after.funcs.len() && is_form_in(
                module.cx@.forms[h],
                change(after.funcs[f.0 as int]),
            );
        assert(reachable(m, f));
    }
    assert forall|f: int| 0 <= f < m.funcs.len() implies (
    #[trigger] module@.funcs[f] matches FuncView::Present(body) ==> body.wf(
        n_types,
        n_consts,
        n_funcs,
    )) by {
        let decl = module.funcs@[f];
        assert(module@.funcs[f] == decl.view_in(module.cx@.forms));
        if let FuncView::Present(body) = after.funcs[f] {
            assert(body.wf(n_types, n_consts, n_funcs));
            if reachable(m, Func(f as usize)) {
                if let FuncDecl::Present(def) = decl {
                    let inst_lowered = env.inst_lowered_body(body);
                    assert(def.view_in(module.cx@.forms) == env.lowered_body(body));
                    assert(env.lowered_body(body).insts.len() == def.data_insts.len());
                    assert(env.lowered_body(body).nodes.len() == def.control_nodes.len());
                    env.lemma_inst_lowered_body_wf(body, n_funcs);
                    env.lemma_without_null_uses_wf(inst_lowered, n_funcs);
                }
            }
        }
    }
}

/// In every function that the module can reach, has instructions, control nodes and
/// regions take converted zeros in place of physical null pointers, conversions of
/// physical pointers to integers give a `u64`, and comparisons with these take `u64`
/// zeros.
pub fn lower_physical_nulls(module: &mut Module)
    requires
        old(module).wf(),
        is_lowerable(old(module)@),
    ensures
        final(module).wf(),
        final(module)@.funcs == lowered_funcs(old(module)@),
        final(module)@.exports == old(module)@.exports,
        final(module)@.global_vars == old(module)@.global_vars,
        final(module)@.cx.types == lowering_env(old(module)@.cx).types,
        final(module)@.cx.consts == lowering_env(old(module)@.cx).consts,
        forms_added(
            old(module)@,
            |func: FuncView| lowering_env(old(module)@.cx).lowered_func(func),
            final(module)@.cx.forms,
        ),
        is_lowered(old(module)@, final(module)@),
        old(module)@.cx.forms.is_prefix_of(final(module)@.cx.forms),
        forall|h: int|
            old(module)@.cx.forms.len() <= h < final(module)@.cx.forms.len() ==> has_form(
                final(module)@.funcs,
                #[trigger] final(module)@.cx.forms[h],
            ),
{
    let ghost old_m = module@;
    let ghost env = lowering_env(old_m.cx);
    let wk = WellKnown::get();
    let mut u64_imms: Vec<Imm> = Vec::new();
    u64_imms.push(Imm::Short(wk.literal_integer, 64));
    u64_imms.push(Imm::Short(wk.literal_integer, 0));
    let u64_def = TypeDef {
        attrs: AttrSet::default(),
        kind: TypeKind::SpvInst {
            spv_inst: Inst { opcode: wk.op_type_int, imms: u64_imms },
            type_and_const_inputs: Vec::new(),
        },
    };
    assert(u64_def@ =~= u64_type()) by {
        assert(u64_imms@ =~= u64_type().kind->spv_inst.imms);
    }
    let u64_ty = module.cx.intern_type(u64_def);
    let zero_def = ConstDef {
        attrs: AttrSet::default(),
        ty: u64_ty,
        kind: ConstKind::SpvInst {
            spv_inst: Inst { opcode: wk.op_constant_null, imms: Vec::new() },
            const_inputs: Vec::new(),
        },
    };
    assert(zero_def@ =~= null_const(u64_ty));
    let u64_zero = module.cx.intern_const(zero_def);

    let ghost m = module@;
    let ghost change = |func: FuncView| env.lowered_func(func);
    proof {
        lemma_interned(old_m.cx.types, u64_type());
        assert(u64_ty == env.u64_ty);
        lemma_interned(old_m.cx.consts, null_const(u64_ty));
        assert(u64_zero == env.u64_zero);
        assert(m.funcs =~= old_m.funcs);
        assert(m == with_u64(old_m));
        assert(m.cx.types.len() == module.cx.types.len());
        assert(m.cx.consts.len() == module.cx.consts.len());
        lemma_with_u64(old_m);
        assert(m.cx.forms =~= m.cx.forms.subrange(0, m.cx.forms.len() as int));
    }
    let mut fixer = Lowerer {
        wk,
        u64_ty,
        u64_zero,
        offending: new_const_notes(),
        work: Worklist::new(),
        widened_ptr_to_u: new_handle_set(),
    };
    fixer.work.transform_module(module);
    while fixer.work.global_var_queue.len() > 0 || fixer.work.func_queue.len() > 0
        invariant
            m.wf(),
            m == with_u64(old_m),
            env == lowering_env(old_m.cx),
            forall|f: Func| #[trigger] reachable(m, f) <==> reachable(old_m, f),
            is_lowerable(old_m),
            change == |func: FuncView| env.lowered_func(func),
            fixer.wf(module.cx@),
            fixer.env(module.cx@) == env,
            fixer.work.tracks(m, module.cx@.forms, None),
            is_under_way(m, change, *module, fixer.work),
        decreases
                fixer.work.work_left(m.funcs.len() as int)
                    + fixer.work.global_var_queue@.len(),
    {
        let ghost start = fixer.work;
        while fixer.work.global_var_queue.len() > 0
            invariant
                fixer.wf(module.cx@),
                fixer.env(module.cx@) == env,
                fixer.work.tracks(m, module.cx@.forms, None),
                fixer.work.seen_funcs == start.seen_funcs,
                fixer.work.func_queue == start.func_queue,
                is_under_way(m, change, *module, fixer.work),
            decreases fixer.work.global_var_queue@.len(),
        {
            fixer.work.global_var_queue.pop_front();
        }
        while fixer.work.func_queue.len() > 0
            invariant
                m.wf(),
                m == with_u64(old_m),
                env == lowering_env(old_m.cx),
                forall|f: Func| #[trigger] reachable(m, f) <==> reachable(old_m, f),
                is_lowerable(old_m),
                change == |func: FuncView| env.lowered_func(func),
                fixer.wf(module.cx@),
                fixer.env(module.cx@) == env,
                fixer.work.tracks(m, module.cx@.forms, None),
                is_under_way(m, change, *module, fixer.work),
                fixer.work.global_var_queue@.len() == 0,
                (fixer.work.seen_funcs == start.seen_funcs && fixer.work.func_queue
                    == start.func_queue) || fixer.work.work_left(m.funcs.len() as int)
                    < start.work_left(m.funcs.len() as int),
            decreases fixer.work.work_left(m.funcs.len() as int),
        {
            let ghost before = *module;
            let ghost before_work = fixer.work;
            if let Some(func) = fixer.work.func_queue.pop_front() {
                let ghost popped = fixer.work;
                proof {
                    Worklist::lemma_pop(before_work, popped, m, module.cx@.forms);
                    popped.lemma_work_left(m, module.cx@.forms, Some(func));
                    assert(reachable(old_m, func));
                }
                fixer.in_place_transform_func_decl(
                    &mut module.cx,
                    &mut module.funcs[func.0],
                    Ghost(m),
                    Ghost(func),
                );
                proof {
                    lemma_func_changed(
                        m,
                        change,
                        before,
                        *module,
                        before_work,
                        fixer.work,
                        func,
                    );
                }
            }
        }
        proof {
            fixer.work.lemma_work_left(m, module.cx@.forms, None);
        }
    }
    proof {
        lemma_lowered_module_wf(old_m, *module, fixer.work);
        assert(lowered_funcs(old_m) == changed_funcs(old_m, change));
        lemma_forms_in_use(old_m, change, module@.cx.forms);
    }
}

} // verus!
