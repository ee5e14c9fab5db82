//! Whether a module is fit for a pass.

use crate::context::{Context, Module, ModuleView};
use crate::ir::{
    BodyView, DataInst, DataInstKind, DataInstKindView, DataInstView, FormView, Func, FuncDecl,
    FuncDefBody, FuncView, Value,
};
use crate::lists::lemma_contains_push;
use crate::lowering::{has_typed_source, is_lowerable, is_lowerable_body, lowering_env, Env};
use crate::places::{law_walk, stands_at};
use crate::reach::{lemma_reachable_in_range, reachable};
use crate::strip_logical_alignment::{func_is_accessible, is_accessible, is_strippable};
use crate::types::{has_type, type_of};
use crate::well_known::{spv, WellKnown};
use vstd::prelude::*;

verus! {

/// The loads, stores and copies of all functions are in order.
pub open spec fn is_accessible_module(m: ModuleView) -> bool {
    forall|f: int|
        0 <= f < m.funcs.len() ==> func_is_accessible(m.cx, #[trigger] m.funcs[f])
}

/// A conversion of a pointer to an integer takes a value that has a type.
pub open spec fn is_typed_conversion(m: ModuleView, body: BodyView, inst: DataInstView) -> bool {
    match inst.form.kind {
        DataInstKindView::SpvInst(spv_inst) => spv_inst.opcode == spv().op_convert_ptr_to_u
            && inst.inputs.len() > 0 ==> type_of(m.cx.consts, body, inst.inputs[0]) is Some,
        _ => true,
    }
}

/// The conversions of pointers to integers in `body` take values that have types.
pub open spec fn is_typed_body(m: ModuleView, body: BodyView) -> bool {
    forall|d: DataInst| #[trigger]
        body.visits(d) ==> is_typed_conversion(m, body, body.insts[d.0 as int])
}

/// The conversions of pointers to integers in `func` take values that have types.
pub open spec fn is_typed_func(m: ModuleView, func: FuncView) -> bool {
    func matches FuncView::Present(body) ==> is_typed_body(m, body)
}

/// The conversions of pointers to integers in all functions take values that have
/// types.
pub open spec fn is_typed_module(m: ModuleView) -> bool {
    forall|f: int| 0 <= f < m.funcs.len() ==> is_typed_func(m, #[trigger] m.funcs[f])
}

/// Whether a load, store or copy has the operands that it needs, and they have types.
fn check_access(cx: &Context, wk: &WellKnown, body: &FuncDefBody, d: DataInst) -> (ok: bool)
    requires
        *wk == spv(),
        body.forms_within(cx@.forms.len() as int),
        d.0 < body.data_insts@.len(),
    ensures
        ok == is_accessible(
            cx@,
            body.view_in(cx@.forms),
            body.view_in(cx@.forms).insts[d.0 as int],
        ),
{
    let ghost view = body.view_in(cx@.forms);
    let def = &body.data_insts[d.0];
    assert(view.insts[d.0 as int] == def.view_in(cx@.forms));
    assert(cx@.forms[def.form.0 as int] == cx.forms@[def.form.0 as int]@);
    match &cx.forms[def.form.0].kind {
        DataInstKind::SpvInst(spv_inst) => {
            let opcode = spv_inst.opcode;
            let n_operands: usize = if opcode == wk.op_load {
                1
            } else if opcode == wk.op_store || opcode == wk.op_copy_memory {
                2
            } else {
                0
            };
            def.inputs.len() >= n_operands && (n_operands < 1 || has_type(cx, body, def.inputs[0]))
                && (n_operands < 2 || has_type(cx, body, def.inputs[1]))
        },
        _ => true,
    }
}

/// Whether a conversion of a pointer to an integer takes a value that has a type.
fn check_conversion(
    cx: &Context,
    wk: &WellKnown,
    body: &FuncDefBody,
    d: DataInst,
    Ghost(m): Ghost<ModuleView>,
) -> (ok: bool)
    requires
        *wk == spv(),
        m.cx == cx@,
        body.forms_within(cx@.forms.len() as int),
        d.0 < body.data_insts@.len(),
    ensures
        ok == is_typed_conversion(
            m,
            body.view_in(cx@.forms),
            body.view_in(cx@.forms).insts[d.0 as int],
        ),
{
    let ghost view = body.view_in(cx@.forms);
    let def = &body.data_insts[d.0];
    assert(view.insts[d.0 as int] == def.view_in(cx@.forms));
    assert(cx@.forms[def.form.0 as int] == cx.forms@[def.form.0 as int]@);
    match &cx.forms[def.form.0].kind {
        DataInstKind::SpvInst(spv_inst) => {
            spv_inst.opcode != wk.op_convert_ptr_to_u || def.inputs.len() == 0 || has_type(
                cx,
                body,
                def.inputs[0],
            )
        },
        _ => true,
    }
}

/// The instructions that a walk through a body comes to.
fn walked_insts(body: &FuncDefBody, Ghost(forms): Ghost<Seq<FormView>>) -> (insts: Vec<DataInst>)
    requires
        body.view_in(forms).walk_wf(),
    ensures
        forall|d: DataInst| #[trigger] insts@.contains(d) <==> body.view_in(forms).visits(d),
{
    let ghost view = body.view_in(forms);
    let mut insts: Vec<DataInst> = Vec::new();
    proof {
        view.lemma_visits_ends();
    }
    let mut n: usize = 0;
    while n < body.node_order.len()
        invariant
            view == body.view_in(forms),
            view.walk_wf(),
            n <= view.node_order.len(),
            forall|d: DataInst| #[trigger]
                insts@.contains(d) <==> view.visits_before(n as int, 0, d),
        decreases view.node_order.len() - n,
    {
        let node = body.node_order[n];
        assert(view.node_order[n as int] == node);
        assert(view.nodes[node.0 as int] == body.control_nodes@[node.0 as int]@);
        let len = body.block_len(node);
        let mut j: usize = 0;
        while j < len
            invariant
                view == body.view_in(forms),
                view.walk_wf(),
                n < view.node_order.len(),
                node == view.node_order[n as int],
                j <= len,
                len == view.block(n as int).len(),
                forall|d: DataInst| #[trigger]
                    insts@.contains(d) <==> view.visits_before(n as int, j as int, d),
            decreases len - j,
        {
            assert(node.0 < view.nodes.len());
            assert(view.nodes[node.0 as int] == body.control_nodes@[node.0 as int]@);
            let d = body.block_inst(node, j);
            let ghost before = insts@;
            insts.push(d);
            proof {
                assert(view.visits_at(n as int, j as int, d));
                view.lemma_visits_step(n as int, j as int, d);
                assert forall|x: DataInst| #[trigger]
                    insts@.contains(x) <==> view.visits_before(n as int, j as int + 1, x) by {
                    lemma_contains_push(before, d, x);
                    assert(before.contains(x) <==> view.visits_before(n as int, j as int, x));
                }
            }
            j = j + 1;
        }
        proof {
            view.lemma_visits_next_node(n as int);
            assert forall|x: DataInst| #[trigger]
                insts@.contains(x) <==> view.visits_before(n as int + 1, 0, x) by {
                assert(insts@.contains(x) <==> view.visits_before(n as int, len as int, x));
            }
        }
        n = n + 1;
    }
    insts
}

/// A walk through function `f` comes to instruction `d`.
spec fn is_walked(m: ModuleView, f: Func, d: DataInst) -> bool {
    &&& f.0 < m.funcs.len()
    &&& m.funcs[f.0 as int] matches FuncView::Present(body)
    &&& body.visits(d)
}

/// The instructions that walks through the functions of a module come to.
fn all_walked_insts(module: &Module) -> (list: Vec<(Func, DataInst)>)
    requires
        module.wf(),
    ensures
        forall|f: Func, d: DataInst| #[trigger]
            list@.contains((f, d)) <==> is_walked(module@, f, d),
{
    let ghost m = module@;
    let mut list: Vec<(Func, DataInst)> = Vec::new();
    let mut f: usize = 0;
    while f < module.funcs.len()
        invariant
            m == module@,
            m.wf(),
            f <= module.funcs@.len(),
            forall|g: Func, d: DataInst| #[trigger]
                list@.contains((g, d)) <==> g.0 < f && is_walked(m, g, d),
        decreases module.funcs@.len() - f,
    {
        let ghost func = m.funcs[f as int];
        assert(func == module.funcs@[f as int].view_in(m.cx.forms));
        if let FuncDecl::Present(body) = &module.funcs[f] {
            let ghost view = body.view_in(m.cx.forms);
            assert(func == FuncView::Present(view));
            let insts = walked_insts(body, Ghost(m.cx.forms));
            let mut i: usize = 0;
            while i < insts.len()
                invariant
                    m == module@,
                    f < m.funcs.len(),
                    m.funcs[f as int] == FuncView::Present(view),
                    forall|d: DataInst| #[trigger] insts@.contains(d) <==> view.visits(d),
                    i <= insts@.len(),
                    forall|g: Func, d: DataInst| #[trigger]
                        list@.contains((g, d)) <==> (g.0 < f && is_walked(m, g, d)) || (g.0 == f
                            && insts@.take(i as int).contains(d)),
                decreases insts@.len() - i,
            {
                let ghost before = list@;
                list.push((Func(f), insts[i]));
                proof {
                    let item = (Func(f), insts@[i as int]);
                    assert forall|g: Func, d: DataInst| #[trigger]
                        list@.contains((g, d)) <==> (g.0 < f && is_walked(m, g, d)) || (g.0 == f
                            && insts@.take(i as int + 1).contains(d)) by {
                        lemma_contains_push(before, item, (g, d));
                        lemma_contains_push(insts@.take(i as int), insts@[i as int], d);
                        assert(insts@.take(i as int).push(insts@[i as int]) =~= insts@.take(
                            i as int + 1,
                        ));
                        assert(before.contains((g, d)) <==> (g.0 < f && is_walked(m, g, d)) || (
                        g.0 == f && insts@.take(i as int).contains(d)));
                    }
                }
                i = i + 1;
            }
            assert(insts@.take(i as int) =~= insts@);
        }
        assert forall|g: Func, d: DataInst| #[trigger]
            list@.contains((g, d)) <==> g.0 < f + 1 && is_walked(m, g, d) by {}
        f = f + 1;
    }
    list
}

/// Whether the loads, stores and copies of all functions are in order, and so those
/// that the module can reach.
pub fn has_accesses_in_order(module: &Module) -> (ok: bool)
    requires
        module.wf(),
    ensures
        ok == is_accessible_module(module@),
        ok ==> is_strippable(module@),
{
    let ghost m = module@;
    let wk = WellKnown::get();
    let list = all_walked_insts(module);
    let mut i: usize = 0;
    while i < list.len()
        invariant
            wk == spv(),
            m == module@,
            module.wf(),
            forall|f: Func, d: DataInst| #[trigger]
                list@.contains((f, d)) <==> is_walked(m, f, d),
            i <= list@.len(),
            forall|k: int|
                0 <= k < i ==> {
                    let (f, d) = #[trigger] list@[k];
                    let body = m.funcs[f.0 as int]->Present_0;
                    is_accessible(m.cx, body, body.insts[d.0 as int])
                },
        decreases list@.len() - i,
    {
        let (f, d) = list[i];
        proof {
            assert(list@.contains((f, d)));
            assert(m.funcs[f.0 as int] == module.funcs@[f.0 as int].view_in(m.cx.forms));
            assert(module.funcs@[f.0 as int].forms_within(m.cx.forms.len() as int));
        }
        if let FuncDecl::Present(body) = &module.funcs[f.0] {
            let ghost view = body.view_in(m.cx.forms);
            proof {
                assert(m.funcs[f.0 as int] == FuncView::Present(view));
                view.lemma_visited_in_range(d);
            }
            if !check_access(&module.cx, &wk, body, d) {
                assert(!func_is_accessible(m.cx, m.funcs[f.0 as int]));
                return false;
            }
        }
        i = i + 1;
    }
    assert forall|f: int| 0 <= f < m.funcs.len() implies func_is_accessible(
        m.cx,
        #[trigger] m.funcs[f],
    ) by {
        if let FuncView::Present(body) = m.funcs[f] {
            assert forall|d: DataInst| #[trigger] body.visits(d) implies is_accessible(
                m.cx,
                body,
                body.insts[d.0 as int],
            ) by {
                let item = (Func(f as usize), d);
                assert(is_walked(m, item.0, d));
                assert(list@.contains((item.0, d)));
                assert(list@[list@.index_of(item)] == item);
            }
        }
    }
    assert forall|g: Func| #[trigger] reachable(m, g) implies func_is_accessible(
        m.cx,
        m.funcs[g.0 as int],
    ) by {
        lemma_reachable_in_range(m, g);
    }
    true
}

/// Whether the conversions of pointers to integers in all functions take values that
/// have types, and so those that the module can reach.
pub fn has_typed_conversions(module: &Module) -> (ok: bool)
    requires
        module.wf(),
    ensures
        ok == is_typed_module(module@),
        ok ==> is_lowerable(module@),
{
    let ghost m = module@;
    let wk = WellKnown::get();
    let list = all_walked_insts(module);
    let mut i: usize = 0;
    while i < list.len()
        invariant
            wk == spv(),
            m == module@,
            module.wf(),
            forall|f: Func, d: DataInst| #[trigger]
                list@.contains((f, d)) <==> is_walked(m, f, d),
            i <= list@.len(),
            forall|k: int|
                0 <= k < i ==> {
                    let (f, d) = #[trigger] list@[k];
                    let body = m.funcs[f.0 as int]->Present_0;
                    is_typed_conversion(m, body, body.insts[d.0 as int])
                },
        decreases list@.len() - i,
    {
        let (f, d) = list[i];
        proof {
            assert(list@.contains((f, d)));
            assert(m.funcs[f.0 as int] == module.funcs@[f.0 as int].view_in(m.cx.forms));
            assert(module.funcs@[f.0 as int].forms_within(m.cx.forms.len() as int));
        }
        if let FuncDecl::Present(body) = &module.funcs[f.0] {
            let ghost view = body.view_in(m.cx.forms);
            proof {
                assert(m.funcs[f.0 as int] == FuncView::Present(view));
                view.lemma_visited_in_range(d);
            }
            if !check_conversion(&module.cx, &wk, body, d, Ghost(m)) {
                assert(!is_typed_func(m, m.funcs[f.0 as int]));
                return false;
            }
        }
        i = i + 1;
    }
    assert forall|f: int| 0 <= f < m.funcs.len() implies is_typed_func(
        m,
        #[trigger] m.funcs[f],
    ) by {
        if let FuncView::Present(body) = m.funcs[f] {
            assert forall|d: DataInst| #[trigger] body.visits(d) implies is_typed_conversion(
                m,
                body,
                body.insts[d.0 as int],
            ) by {
                let item = (Func(f as usize), d);
                assert(is_walked(m, item.0, d));
                assert(list@.contains((item.0, d)));
                assert(list@[list@.index_of(item)] == item);
            }
        }
    }
    assert forall|g: Func| #[trigger] reachable(m, g) implies is_typed_func(
        m,
        m.funcs[g.0 as int],
    ) by {
        lemma_reachable_in_range(m, g);
    }
    proof {
        lemma_typed_is_lowerable(m);
    }
    true
}

/// The loads, stores and copies of a module are in order where each that stands in any of
/// its functions has the operands that it needs, and these have types: a pointer, and what
/// is stored or the pointer that is copied from.
pub proof fn law_accesses_in_order(m: ModuleView)
    ensures
        is_accessible_module(m) <==> forall|f: int, n: int, j: int, d: DataInst|
            0 <= f < m.funcs.len() && m.funcs[f] is Present && #[trigger] stands_at(
                m.funcs[f]->0,
                n,
                j,
                d,
            ) ==> {
                let body = m.funcs[f]->0;
                let inst = body.insts[d.0 as int];
                let op = inst.form.kind->SpvInst_0.opcode;
                let is_typed = |i: int|
                    i < inst.inputs.len() && type_of(m.cx.consts, body, inst.inputs[i]) is Some;
                inst.form.kind is SpvInst ==> {
                    &&& op == spv().op_load ==> is_typed(0)
                    &&& op == spv().op_store || op == spv().op_copy_memory ==> is_typed(0)
                        && is_typed(1)
                }
            },
{
    if is_accessible_module(m) {
        assert forall|f: int, n: int, j: int, d: DataInst|
            0 <= f < m.funcs.len() && m.funcs[f] is Present && #[trigger] stands_at(
                m.funcs[f]->0,
                n,
                j,
                d,
            ) implies is_accessible(m.cx, m.funcs[f]->0, m.funcs[f]->0.insts[d.0 as int]) by {
            assert(func_is_accessible(m.cx, m.funcs[f]));
            law_walk(m.funcs[f]->0);
            assert(m.funcs[f]->0.visits(d));
        }
    } else {
        let f = choose|f: int|
            0 <= f < m.funcs.len() && !func_is_accessible(m.cx, #[trigger] m.funcs[f]);
        let body = m.funcs[f]->0;
        let d = choose|d: DataInst| #[trigger]
            body.visits(d) && !is_accessible(m.cx, body, body.insts[d.0 as int]);
        law_walk(body);
        let (n, j) = choose|n: int, j: int| stands_at(body, n, j, d);
        assert(stands_at(m.funcs[f]->0, n, j, d));
    }
}

/// The conversions of a module are in order where each `OpConvertPtrToU` that stands in any
/// of its functions takes a value that has a type.
pub proof fn law_conversions_in_order(m: ModuleView)
    ensures
        is_typed_module(m) <==> forall|f: int, n: int, j: int, d: DataInst|
            0 <= f < m.funcs.len() && m.funcs[f] is Present && #[trigger] stands_at(
                m.funcs[f]->0,
                n,
                j,
                d,
            ) ==> {
                let inst = m.funcs[f]->0.insts[d.0 as int];
                inst.form.kind is SpvInst && inst.form.kind->SpvInst_0.opcode
                    == spv().op_convert_ptr_to_u && inst.inputs.len() > 0 ==> type_of(
                    m.cx.consts,
                    m.funcs[f]->0,
                    inst.inputs[0],
                ) is Some
            },
{
    if is_typed_module(m) {
        assert forall|f: int, n: int, j: int, d: DataInst|
            0 <= f < m.funcs.len() && m.funcs[f] is Present && #[trigger] stands_at(
                m.funcs[f]->0,
                n,
                j,
                d,
            ) implies is_typed_conversion(
            m,
            m.funcs[f]->0,
            m.funcs[f]->0.insts[d.0 as int],
        ) by {
            assert(is_typed_func(m, m.funcs[f]));
            law_walk(m.funcs[f]->0);
            assert(m.funcs[f]->0.visits(d));
        }
    } else {
        let f = choose|f: int|
            0 <= f < m.funcs.len() && !is_typed_func(m, #[trigger] m.funcs[f]);
        let body = m.funcs[f]->0;
        let d = choose|d: DataInst| #[trigger]
            body.visits(d) && !is_typed_conversion(m, body, body.insts[d.0 as int]);
        law_walk(body);
        let (n, j) = choose|n: int, j: int| stands_at(body, n, j, d);
        assert(stands_at(m.funcs[f]->0, n, j, d));
    }
}

/// The lowering takes every module in order in which each `OpConvertPtrToU`, on the walk
/// through a function that the module can reach, takes a value that has a type.
pub proof fn law_what_is_lowerable(m: ModuleView)
    requires
        m.wf(),
        forall|f: Func, n: int, j: int, d: DataInst|
            #![trigger reachable(m, f), stands_at(m.funcs[f.0 as int]->0, n, j, d)]
            reachable(m, f) && m.funcs[f.0 as int] is Present && stands_at(
                m.funcs[f.0 as int]->0,
                n,
                j,
                d,
            ) ==> {
                let inst = m.funcs[f.0 as int]->0.insts[d.0 as int];
                inst.form.kind is SpvInst && inst.form.kind->SpvInst_0.opcode
                    == spv().op_convert_ptr_to_u && inst.inputs.len() > 0 ==> type_of(
                    m.cx.consts,
                    m.funcs[f.0 as int]->0,
                    inst.inputs[0],
                ) is Some
            },
    ensures
        is_lowerable(m),
{
    assert forall|f: Func| #[trigger] reachable(m, f) implies is_typed_func(
        m,
        m.funcs[f.0 as int],
    ) by {
        if let FuncView::Present(body) = m.funcs[f.0 as int] {
            law_walk(body);
            assert forall|d: DataInst| #[trigger] body.visits(d) implies is_typed_conversion(
                m,
                body,
                body.insts[d.0 as int],
            ) by {
                let (n, j) = choose|n: int, j: int| stands_at(body, n, j, d);
                assert(stands_at(m.funcs[f.0 as int]->0, n, j, d));
            }
        }
    }
    lemma_typed_is_lowerable(m);
}

/// Where conversions take values that have types, these have types when a walk comes
/// to the conversions.
proof fn lemma_typed_is_lowerable(m: ModuleView)
    requires
        m.wf(),
        forall|f: Func| #[trigger] reachable(m, f) ==> is_typed_func(m, m.funcs[f.0 as int]),
    ensures
        is_lowerable(m),
{
    let env = lowering_env(m.cx);
    assert forall|f: Func| #[trigger] reachable(m, f) implies (
    m.funcs[f.0 as int] matches FuncView::Present(body) ==> is_lowerable_body(env, body)) by {
        lemma_reachable_in_range(m, f);
        if let FuncView::Present(body) = m.funcs[f.0 as int] {
            assert(is_typed_body(m, body));
            assert forall|n: nat, j: nat, d: DataInst| #[trigger]
                body.visits_at(n as int, j as int, d) implies has_typed_source(
                env,
                BodyView { insts: env.lowered_to(body, n, j).insts, ..body },
                body.insts[d.0 as int],
            ) by {
                assert(body.visits(d));
                assert(is_typed_conversion(m, body, body.insts[d.0 as int]));
                let v = body.insts[d.0 as int].inputs[0];
                if let Value::DataInstOutput(e) = v {
                    if type_of(m.cx.consts, body, v) is Some {
                        lemma_output_kept(env, body, n, j, e);
                    }
                }
            }
        }
    }
}

/// An instruction that has an output keeps one.
proof fn lemma_output_kept(env: Env, body: BodyView, n: nat, j: nat, e: DataInst)
    requires
        body.walk_wf(),
        n <= body.node_order.len(),
        j > 0 ==> n < body.node_order.len() && j <= body.block(n as int).len(),
        e.0 < body.insts.len(),
        body.insts[e.0 as int].form.output_type is Some,
    ensures
        env.lowered_to(body, n, j).insts.len() >= body.insts.len(),
        env.lowered_to(body, n, j).insts[e.0 as int].form.output_type is Some,
    decreases n, j,
{
    if j > 0 {
        let d = body.block(n as int)[j - 1];
        assert(body.visits_at(n as int, j - 1, d));
        lemma_output_kept(env, body, n, (j - 1) as nat, e);
    } else if n > 0 {
        lemma_output_kept(env, body, (n - 1) as nat, body.block(n - 1).len(), e);
    }
}

} // verus!
