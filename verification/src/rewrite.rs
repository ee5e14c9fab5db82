//! How a pass changes the functions that a module can reach, one after the other.

use crate::context::{Module, ModuleView};
use crate::ir::{
    lemma_view_in_more_forms, BodyView, DataInst, DataInstKindView, FormView, Func, FuncDecl,
    FuncView,
};
use crate::reach::{calls, lemma_reachable_call, reachable, Worklist};
use vstd::prelude::*;

verus! {

/// The functions of a module after those that it can reach were changed.
pub open spec fn changed_funcs(
    m: ModuleView,
    change: spec_fn(FuncView) -> FuncView,
) -> Seq<FuncView> {
    Seq::new(
        m.funcs.len(),
        |f: int|
            if reachable(m, Func(f as usize)) {
                change(m.funcs[f])
            } else {
                m.funcs[f]
            },
    )
}

/// `form` is that of an instruction of `func`.
pub open spec fn is_form_in(form: FormView, func: FuncView) -> bool {
    &&& func matches FuncView::Present(body)
    &&& exists|d: int| 0 <= d < body.insts.len() && (#[trigger] body.insts[d]).form == form
}

/// Every form after the first `first` is that of an instruction of `func`.
pub open spec fn forms_come_from(forms: Seq<FormView>, first: int, func: FuncView) -> bool {
    forall|h: int| first <= h < forms.len() ==> is_form_in(#[trigger] forms[h], func)
}

/// `form` is that of an instruction of a function that was changed.
pub open spec fn is_changed_form(
    m: ModuleView,
    change: spec_fn(FuncView) -> FuncView,
    form: FormView,
) -> bool {
    exists|f: Func| #[trigger]
        reachable(m, f) && f.0 < m.funcs.len() && is_form_in(form, change(m.funcs[f.0 as int]))
}

/// The forms of `m` were kept, and those that were added are forms of instructions
/// of functions that were changed.
pub open spec fn forms_added(
    m: ModuleView,
    change: spec_fn(FuncView) -> FuncView,
    forms: Seq<FormView>,
) -> bool {
    &&& m.cx.forms.is_prefix_of(forms)
    &&& forall|h: int|
        m.cx.forms.len() <= h < forms.len() ==> is_changed_form(m, change, #[trigger] forms[h])
}

/// An instruction of some function has this form.
pub open spec fn has_form(funcs: Seq<FuncView>, form: FormView) -> bool {
    exists|f: int, d: int|
        0 <= f < funcs.len() && funcs[f] is Present && 0 <= d < funcs[f]->0.insts.len() && (
        #[trigger] funcs[f]->0.insts[d]).form == form
}

/// Forms that were added are in use.
pub proof fn lemma_forms_in_use(
    m: ModuleView,
    change: spec_fn(FuncView) -> FuncView,
    forms: Seq<FormView>,
)
    requires
        forms_added(m, change, forms),
    ensures
        forall|h: int|
            m.cx.forms.len() <= h < forms.len() ==> has_form(
                changed_funcs(m, change),
                #[trigger] forms[h],
            ),
{
    let funcs = changed_funcs(m, change);
    assert forall|h: int| m.cx.forms.len() <= h < forms.len() implies has_form(
        funcs,
        #[trigger] forms[h],
    ) by {
        assert(is_changed_form(m, change, forms[h]));
        let f = choose|f: Func| #[trigger]
            reachable(m, f) && f.0 < m.funcs.len() && is_form_in(
                forms[h],
                change(m.funcs[f.0 as int]),
            );
        assert(Func(f.0) == f);
        let i = f.0 as int;
        assert(funcs[i] == change(m.funcs[i]));
        let body = funcs[i]->0;
        let d = choose|d: int| 0 <= d < body.insts.len() && (
        #[trigger] body.insts[d]).form == forms[h];
        assert(funcs[i]->0.insts[d].form == forms[h]);
    }
}

/// The pass is on its way through `m`: what it has looked at is changed, and the
/// rest of `module` is as it was.
pub open spec fn is_under_way(
    m: ModuleView,
    change: spec_fn(FuncView) -> FuncView,
    module: Module,
    work: Worklist,
) -> bool {
    let forms = module.cx@.forms;
    &&& module.cx@.wf(m.funcs.len() as int)
    &&& module.cx@.types == m.cx.types
    &&& module.cx@.consts == m.cx.consts
    &&& module@.exports == m.exports
    &&& module@.global_vars == m.global_vars
    &&& forms_added(m, change, forms)
    &&& module.funcs@.len() == m.funcs.len()
    &&& forall|f: int|
        0 <= f < m.funcs.len() ==> (#[trigger] module.funcs@[f]).forms_within(forms.len() as int)
    &&& forall|f: int|
        0 <= f < m.funcs.len() ==> (#[trigger] module.funcs@[f]).view_in(forms) == (
        if work.looked_at(Func(f as usize)) {
            change(m.funcs[f])
        } else {
            m.funcs[f]
        })
}

/// Changing one function keeps the pass on its way.
pub proof fn lemma_func_changed(
    m: ModuleView,
    change: spec_fn(FuncView) -> FuncView,
    before: Module,
    after: Module,
    before_work: Worklist,
    work: Worklist,
    func: Func,
)
    requires
        m.wf(),
        func.0 < m.funcs.len(),
        reachable(m, func),
        is_under_way(m, change, before, before_work),
        forall|f: Func| #[trigger] work.looked_at(f) <==> before_work.looked_at(f) || f == func,
        after.exports == before.exports,
        after.global_vars == before.global_vars,
        after.cx@.wf(m.funcs.len() as int),
        after.cx@.types == before.cx@.types,
        after.cx@.consts == before.cx@.consts,
        before.cx@.forms.is_prefix_of(after.cx@.forms),
        forms_come_from(
            after.cx@.forms,
            before.cx@.forms.len() as int,
            change(m.funcs[func.0 as int]),
        ),
        after.funcs@ == before.funcs@.update(func.0 as int, after.funcs@[func.0 as int]),
        after.funcs@[func.0 as int].forms_within(after.cx@.forms.len() as int),
        after.funcs@[func.0 as int].view_in(after.cx@.forms) == change(m.funcs[func.0 as int]),
    ensures
        is_under_way(m, change, after, work),
{
    let forms = before.cx@.forms;
    let more = after.cx@.forms;
    assert forall|h: int| m.cx.forms.len() <= h < more.len() implies is_changed_form(
        m,
        change,
        #[trigger] more[h],
    ) by {
        if h < forms.len() {
            assert(more[h] == forms[h]);
        } else {
            assert(is_form_in(more[h], change(m.funcs[func.0 as int])));
        }
    }
    assert forall|f: int| 0 <= f < m.funcs.len() implies (#[trigger] after.funcs@[f]).forms_within(
        more.len() as int,
    ) && after.funcs@[f].view_in(more) == (if work.looked_at(Func(f as usize)) {
        change(m.funcs[f])
    } else {
        m.funcs[f]
    }) by {
        if f != func.0 {
            assert(after.funcs@[f] == before.funcs@[f]);
            assert(before.funcs@[f].forms_within(forms.len() as int));
            if let FuncDecl::Present(body) = before.funcs@[f] {
                lemma_view_in_more_forms(body, forms, more);
            }
        }
    }
    assert(m.cx.forms =~= more.subrange(0, m.cx.forms.len() as int));
}

/// Where everything that can be reached was looked at, the pass is done.
pub proof fn lemma_funcs_changed(
    m: ModuleView,
    change: spec_fn(FuncView) -> FuncView,
    module: Module,
    work: Worklist,
)
    requires
        m.wf(),
        is_under_way(m, change, module, work),
        work.tracks(m, module.cx@.forms, None),
        work.queue().len() == 0,
    ensures
        module@.funcs == changed_funcs(m, change),
{
    work.lemma_finished(m, module.cx@.forms);
    assert forall|f: int| 0 <= f < m.funcs.len() implies module@.funcs[f] == changed_funcs(
        m,
        change,
    )[f] by {
        assert(module@.funcs[f] == module.funcs@[f].view_in(module.cx@.forms));
        assert(reachable(m, Func(f as usize)) <==> work.looked_at(Func(f as usize)));
    }
    assert(module@.funcs =~= changed_funcs(m, change));
}

/// The worklist has come across what those instructions of `body` call that a walk
/// comes to before the `j`-th of its `n`-th node.
pub open spec fn callees_seen(body: BodyView, work: Worklist, n: int, j: int) -> bool {
    forall|d: DataInst| #[trigger]
        body.visits_before(n, j, d) ==> (
        body.insts[d.0 as int].form.kind matches DataInstKindView::FuncCall(g)
            ==> work.seen().contains(g.0))
}

/// One instruction further.
pub proof fn lemma_callees_step(
    body: BodyView,
    before: Worklist,
    after: Worklist,
    n: int,
    j: int,
    d: DataInst,
)
    requires
        callees_seen(body, before, n, j),
        before.seen().subset_of(after.seen()),
        body.visits_at(n, j, d),
        body.insts[d.0 as int].form.kind matches DataInstKindView::FuncCall(g)
            ==> after.seen().contains(g.0),
    ensures
        callees_seen(body, after, n, j + 1),
{
    body.lemma_visits_step(n, j, d);
}

/// One node further.
pub proof fn lemma_callees_next_node(body: BodyView, work: Worklist, n: int)
    requires
        callees_seen(body, work, n, body.block(n).len() as int),
    ensures
        callees_seen(body, work, n + 1, 0),
{
    body.lemma_visits_next_node(n);
}

/// At the end of a walk, all callees were come across.
pub proof fn lemma_callees_all(m: ModuleView, func: Func, body: BodyView, work: Worklist)
    requires
        func.0 < m.funcs.len(),
        m.funcs[func.0 as int] == FuncView::Present(body),
        callees_seen(body, work, body.node_order.len() as int, 0),
    ensures
        forall|g: Func| #[trigger] calls(m, func, g) ==> work.seen().contains(g.0),
{
    let end = body.node_order.len() as int;
    body.lemma_visits_ends();
    assert forall|g: Func| #[trigger] calls(m, func, g) implies work.seen().contains(g.0) by {
        let d = choose|d: DataInst| #[trigger]
            body.visits(d) && body.insts[d.0 as int].form.kind == DataInstKindView::FuncCall(g);
        assert(body.visits_before(end, 0, d));
    }
}

/// What an instruction of a reachable function calls is reachable.
pub proof fn lemma_callee_reachable(
    m: ModuleView,
    func: Func,
    body: BodyView,
    n: int,
    j: int,
    d: DataInst,
)
    requires
        func.0 < m.funcs.len(),
        m.funcs[func.0 as int] == FuncView::Present(body),
        reachable(m, func),
        body.visits_at(n, j, d),
    ensures
        body.insts[d.0 as int].form.kind matches DataInstKindView::FuncCall(g) ==> reachable(m, g),
{
    if let DataInstKindView::FuncCall(g) = body.insts[d.0 as int].form.kind {
        assert(body.visits(d));
        assert(body.calls(g));
        assert(calls(m, func, g));
        lemma_reachable_call(m, func, g);
    }
}

} // verus!
