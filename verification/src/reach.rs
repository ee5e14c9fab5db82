//! Which functions a module can reach from its exports, and the worklist that
//! finds them.

use crate::collections::{add_handle, has_handle, new_handle_set};
use crate::context::{Context, Module, ModuleView};
use crate::ir::{
    DataInst, DataInstForm, DataInstKind, DataInstKindView, ExportKey, ExportKeyView, ExportView,
    Exportee, FormView, Func, FuncView, GlobalVar,
};
use crate::lists::{first_uses, lemma_contains_push, lemma_first_uses_push};
use rustc_data_structures::fx::FxHashSet;
use std::collections::VecDeque;
use vstd::prelude::*;

verus! {

/// The module exports `func`.
pub open spec fn exports_func(m: ModuleView, func: Func) -> bool {
    exists|e: int|
        0 <= e < m.exports.len() && (#[trigger] m.exports[e]).exportee == Exportee::Func(func)
}

/// The functions that the first `n` exports export, in order.
pub open spec fn exported_funcs(exports: Seq<ExportView>, n: nat) -> Seq<Func>
    decreases n,
{
    if n == 0 {
        Seq::empty()
    } else {
        let before = exported_funcs(exports, (n - 1) as nat);
        match exports[n - 1].exportee {
            Exportee::Func(func) => before.push(func),
            Exportee::GlobalVar(_) => before,
        }
    }
}

/// The global variables that the first `n` exports export, in order.
pub open spec fn exported_global_vars(exports: Seq<ExportView>, n: nat) -> Seq<GlobalVar>
    decreases n,
{
    if n == 0 {
        Seq::empty()
    } else {
        let before = exported_global_vars(exports, (n - 1) as nat);
        match exports[n - 1].exportee {
            Exportee::Func(_) => before,
            Exportee::GlobalVar(gv) => before.push(gv),
        }
    }
}

/// The global variables of the interfaces of the entry points among the first `n`
/// exports, in order.
pub open spec fn entry_point_vars(exports: Seq<ExportView>, n: nat) -> Seq<GlobalVar>
    decreases n,
{
    if n == 0 {
        Seq::empty()
    } else {
        let before = entry_point_vars(exports, (n - 1) as nat);
        match exports[n - 1].key {
            ExportKeyView::SpvEntryPoint { interface_global_vars } => before
                + interface_global_vars,
            ExportKeyView::LinkName(_) => before,
        }
    }
}

/// The global variables that exports use, in the order in which they are come across.
pub open spec fn global_var_uses(exports: Seq<ExportView>) -> Seq<GlobalVar> {
    exported_global_vars(exports, exports.len()) + entry_point_vars(exports, exports.len())
}

/// `caller` has a body that calls `callee`.
pub open spec fn calls(m: ModuleView, caller: Func, callee: Func) -> bool {
    &&& caller.0 < m.funcs.len()
    &&& m.funcs[caller.0 as int] matches FuncView::Present(body)
    &&& body.calls(callee)
}

/// A chain of `n` calls leads from an exported function to `func`.
pub open spec fn reachable_in(m: ModuleView, func: Func, n: nat) -> bool
    decreases n,
{
    if n == 0 {
        exports_func(m, func)
    } else {
        exists|caller: Func| #[trigger]
            calls(m, caller, func) && reachable_in(m, caller, (n - 1) as nat)
    }
}

/// The module exports `func`, or calls lead to it from an exported function.
pub open spec fn reachable(m: ModuleView, func: Func) -> bool {
    exists|n: nat| reachable_in(m, func, n)
}

/// What a reachable function calls is reachable.
pub proof fn lemma_reachable_call(m: ModuleView, caller: Func, callee: Func)
    requires
        reachable(m, caller),
        calls(m, caller, callee),
    ensures
        reachable(m, callee),
{
    let n = choose|n: nat| reachable_in(m, caller, n);
    assert(reachable_in(m, callee, n + 1));
}

/// What can be reached is one of the module's functions.
pub proof fn lemma_reachable_in_range(m: ModuleView, f: Func)
    requires
        m.wf(),
        reachable(m, f),
    ensures
        f.0 < m.funcs.len(),
{
    let n = choose|n: nat| reachable_in(m, f, n);
    if n == 0 {
        let e = choose|e: int|
            0 <= e < m.exports.len() && (#[trigger] m.exports[e]).exportee == Exportee::Func(f);
        assert(m.exports[e].wf(m.funcs.len() as int, m.global_vars.len() as int));
    } else {
        let caller = choose|caller: Func| #[trigger]
            calls(m, caller, f) && reachable_in(m, caller, (n - 1) as nat);
        let body = m.funcs[caller.0 as int]->0;
        let d = choose|d: DataInst| #[trigger]
            body.visits(d) && body.insts[d.0 as int].form.kind == DataInstKindView::FuncCall(f);
        let (i, j) = choose|i: int, j: int| body.visits_at(i, j, d);
        assert(body.visits_at(i, j, d));
        assert(body.insts[d.0 as int].wf(
            m.cx.types.len() as int,
            m.cx.consts.len() as int,
            m.funcs.len() as int,
        ));
    }
}

/// A module that exports the same and calls the same reaches the same.
pub proof fn lemma_same_reach(m: ModuleView, after: ModuleView)
    requires
        after.exports == m.exports,
        forall|f: Func, g: Func| #[trigger] calls(after, f, g) <==> calls(m, f, g),
    ensures
        forall|f: Func| #[trigger] reachable(after, f) <==> reachable(m, f),
{
    assert forall|f: Func| #[trigger] reachable(after, f) implies reachable(m, f) by {
        let n = choose|n: nat| reachable_in(after, f, n);
        lemma_reachable_in_other(after, m, f, n);
    }
    assert forall|f: Func| reachable(m, f) implies #[trigger] reachable(after, f) by {
        let n = choose|n: nat| reachable_in(m, f, n);
        lemma_reachable_in_other(m, after, f, n);
    }
}

proof fn lemma_reachable_in_other(m: ModuleView, other: ModuleView, f: Func, n: nat)
    requires
        other.exports == m.exports,
        forall|f: Func, g: Func| #[trigger] calls(m, f, g) ==> calls(other, f, g),
        reachable_in(m, f, n),
    ensures
        reachable_in(other, f, n),
    decreases n,
{
    if n > 0 {
        let caller = choose|caller: Func| #[trigger]
            calls(m, caller, f) && reachable_in(m, caller, (n - 1) as nat);
        lemma_reachable_in_other(m, other, caller, (n - 1) as nat);
        assert(calls(other, caller, f));
    }
}

/// The functions and global variables that exports use are those that are exported, and the
/// global variables of the interfaces of entry points.
pub proof fn law_what_exports_use(exports: Seq<ExportView>, func: Func, gv: GlobalVar)
    ensures
        exported_funcs(exports, exports.len()).contains(func) <==> exists|e: int|
            0 <= e < exports.len() && (#[trigger] exports[e]).exportee == Exportee::Func(func),
        global_var_uses(exports).contains(gv) <==> exists|e: int|
            0 <= e < exports.len() && ({
                ||| (#[trigger] exports[e]).exportee == Exportee::GlobalVar(gv)
                ||| {
                    &&& exports[e].key is SpvEntryPoint
                    &&& exports[e].key->interface_global_vars.contains(gv)
                }
            }),
{
    let n = exports.len();
    lemma_exports_used(exports, n, func, gv);
    let a = exported_global_vars(exports, n);
    let b = entry_point_vars(exports, n);
    lemma_contains_add(a, b, gv);
    if a.contains(gv) {
        let e = choose|e: int|
            0 <= e < n && (#[trigger] exports[e]).exportee == Exportee::GlobalVar(gv);
        assert(exports[e].exportee == Exportee::GlobalVar(gv));
    }
    if b.contains(gv) {
        let e = choose|e: int|
            0 <= e < n && (#[trigger] exports[e]).key is SpvEntryPoint
                && exports[e].key->interface_global_vars.contains(gv);
        assert(exports[e].key is SpvEntryPoint);
    }
}

proof fn lemma_contains_add<T>(a: Seq<T>, b: Seq<T>, x: T)
    ensures
        (a + b).contains(x) <==> a.contains(x) || b.contains(x),
{
    if a.contains(x) {
        assert((a + b)[a.index_of(x)] == x);
    }
    if b.contains(x) {
        assert((a + b)[a.len() + b.index_of(x)] == x);
    }
    if (a + b).contains(x) {
        let i = (a + b).index_of(x);
        if i < a.len() {
            assert(a[i] == x);
        } else {
            assert(b[i - a.len()] == x);
        }
    }
}

proof fn lemma_exports_used(exports: Seq<ExportView>, n: nat, func: Func, gv: GlobalVar)
    requires
        n <= exports.len(),
    ensures
        exported_funcs(exports, n).contains(func) <==> exists|e: int|
            0 <= e < n && (#[trigger] exports[e]).exportee == Exportee::Func(func),
        exported_global_vars(exports, n).contains(gv) <==> exists|e: int|
            0 <= e < n && (#[trigger] exports[e]).exportee == Exportee::GlobalVar(gv),
        entry_point_vars(exports, n).contains(gv) <==> exists|e: int|
            0 <= e < n && (#[trigger] exports[e]).key is SpvEntryPoint
                && exports[e].key->interface_global_vars.contains(gv),
    decreases n,
{
    if n > 0 {
        let i = (n - 1) as nat;
        lemma_exports_used(exports, i, func, gv);
        let last = exports[n - 1];
        match last.exportee {
            Exportee::Func(g) => {
                lemma_contains_push(exported_funcs(exports, i), g, func);
            },
            Exportee::GlobalVar(g) => {
                lemma_contains_push(exported_global_vars(exports, i), g, gv);
            },
        }
        if let ExportKeyView::SpvEntryPoint { interface_global_vars } = last.key {
            lemma_contains_add(entry_point_vars(exports, i), interface_global_vars, gv);
        }
        assert forall|e: int| 0 <= e < n implies (#[trigger] exports[e] == last || e < i) by {}
    }
}

/// The `j`-th instruction of the block that is the `n`-th node on the walk through `caller`
/// calls `callee`.
pub open spec fn calls_at(m: ModuleView, caller: Func, n: int, j: int, callee: Func) -> bool {
    let body = m.funcs[caller.0 as int]->0;
    let kind = body.nodes[body.node_order[n].0 as int].kind;
    &&& caller.0 < m.funcs.len()
    &&& m.funcs[caller.0 as int] is Present
    &&& 0 <= n < body.node_order.len()
    &&& kind is Block
    &&& 0 <= j < kind->insts.len()
    &&& body.insts[kind->insts[j].0 as int].form.kind == DataInstKindView::FuncCall(callee)
}

/// The module can reach every function that it exports, and every function that is called
/// anywhere on the walk through one that it can reach.
pub proof fn law_reach_is_closed(m: ModuleView)
    ensures
        forall|e: int|
            0 <= e < m.exports.len() ==> ((#[trigger] m.exports[e]).exportee matches Exportee::Func(
                f,
            ) ==> reachable(m, f)),
        forall|caller: Func, n: int, j: int, callee: Func| #[trigger]
            calls_at(m, caller, n, j, callee) && reachable(m, caller) ==> reachable(m, callee),
{
    assert forall|e: int| 0 <= e < m.exports.len() implies (
    (#[trigger] m.exports[e]).exportee matches Exportee::Func(f) ==> reachable(m, f)) by {
        if let Exportee::Func(f) = m.exports[e].exportee {
            assert(exports_func(m, f));
            assert(reachable_in(m, f, 0));
        }
    }
    assert forall|caller: Func, n: int, j: int, callee: Func| #[trigger]
        calls_at(m, caller, n, j, callee) && reachable(m, caller) implies reachable(m, callee) by {
        lemma_calls_at(m, caller, callee);
        lemma_reachable_call(m, caller, callee);
    }
}

/// The module can reach nothing else: whatever holds of the functions that it exports, and
/// of those that are called on the walk through a function of which it holds, holds of all
/// that it can reach.
pub proof fn law_reach_is_least(m: ModuleView, holds: spec_fn(Func) -> bool)
    requires
        forall|e: int|
            0 <= e < m.exports.len() ==> ((#[trigger] m.exports[e]).exportee matches Exportee::Func(
                f,
            ) ==> holds(f)),
        forall|caller: Func, n: int, j: int, callee: Func| #[trigger]
            calls_at(m, caller, n, j, callee) && holds(caller) ==> holds(callee),
    ensures
        forall|f: Func| #[trigger] reachable(m, f) ==> holds(f),
{
    assert forall|f: Func| #[trigger] reachable(m, f) implies holds(f) by {
        let k = choose|k: nat| reachable_in(m, f, k);
        lemma_reached_holds(m, holds, f, k);
    }
}

proof fn lemma_reached_holds(m: ModuleView, holds: spec_fn(Func) -> bool, f: Func, k: nat)
    requires
        forall|e: int|
            0 <= e < m.exports.len() ==> ((#[trigger] m.exports[e]).exportee matches Exportee::Func(
                f,
            ) ==> holds(f)),
        forall|caller: Func, n: int, j: int, callee: Func| #[trigger]
            calls_at(m, caller, n, j, callee) && holds(caller) ==> holds(callee),
        reachable_in(m, f, k),
    ensures
        holds(f),
    decreases k,
{
    if k == 0 {
        let e = choose|e: int|
            0 <= e < m.exports.len() && (#[trigger] m.exports[e]).exportee == Exportee::Func(f);
        assert(m.exports[e].exportee == Exportee::Func(f));
    } else {
        let caller = choose|caller: Func| #[trigger]
            calls(m, caller, f) && reachable_in(m, caller, (k - 1) as nat);
        lemma_reached_holds(m, holds, caller, (k - 1) as nat);
        lemma_calls_at(m, caller, f);
        let (n, j) = choose|n: int, j: int| calls_at(m, caller, n, j, f);
        assert(calls_at(m, caller, n, j, f));
    }
}

/// A function calls another where an instruction does.
proof fn lemma_calls_at(m: ModuleView, caller: Func, callee: Func)
    ensures
        calls(m, caller, callee) <==> exists|n: int, j: int| calls_at(m, caller, n, j, callee),
{
    let body = m.funcs[caller.0 as int]->0;
    if calls(m, caller, callee) {
        let d = choose|d: DataInst| #[trigger]
            body.visits(d) && body.insts[d.0 as int].form.kind == DataInstKindView::FuncCall(
                callee,
            );
        let (n, j) = choose|n: int, j: int| body.visits_at(n, j, d);
        assert(body.visits_at(n, j, d));
        assert(calls_at(m, caller, n, j, callee));
    }
    if exists|n: int, j: int| calls_at(m, caller, n, j, callee) {
        let (n, j) = choose|n: int, j: int| calls_at(m, caller, n, j, callee);
        let d = body.block(n)[j];
        assert(body.visits_at(n, j, d));
        assert(body.visits(d));
    }
}

/// The functions that remain to be looked at, and those that were come across.
pub struct Worklist {
    pub seen_global_vars: FxHashSet<usize>,
    pub global_var_queue: VecDeque<GlobalVar>,
    pub seen_funcs: FxHashSet<usize>,
    pub func_queue: VecDeque<Func>,
    pub seen_forms: FxHashSet<usize>,
}

/// A set of handles below `n` has at most `n` elements.
proof fn lemma_set_len(s: Set<usize>, n: nat)
    requires
        s.finite(),
        forall|h: usize| s.contains(h) ==> h < n,
    ensures
        s.len() <= n,
    decreases n,
{
    if n == 0 {
        assert(s =~= Set::empty());
    } else if n - 1 > usize::MAX {
        lemma_set_len(s, (n - 1) as nat);
    } else {
        let rest = s.remove((n - 1) as usize);
        lemma_set_len(rest, (n - 1) as nat);
    }
}

impl Worklist {
    /// The functions that were come across.
    pub open spec fn seen(self) -> Set<usize> {
        self.seen_funcs@
    }

    /// The functions that remain to be looked at.
    pub open spec fn queue(self) -> Seq<Func> {
        self.func_queue@
    }

    /// The worklist is on its way through `m`: it has come across every exported
    /// function and nothing that is not reachable; and what it has come across
    /// either waits in the queue, or is `busy`, or calls only what it has come
    /// across. It need not look at a form again.
    pub open spec fn tracks(self, m: ModuleView, forms: Seq<FormView>, busy: Option<Func>) -> bool {
        &&& self.seen().finite()
        &&& forall|f: usize| #[trigger]
            self.seen().contains(f) ==> f < m.funcs.len() && reachable(m, Func(f))
        &&& forall|f: Func| #[trigger] exports_func(m, f) ==> self.seen().contains(f.0)
        &&& self.queue().no_duplicates()
        &&& forall|i: int|
            0 <= i < self.queue().len() ==> self.seen().contains(#[trigger] self.queue()[i].0)
        &&& forall|f: Func, g: Func| #[trigger]
            calls(m, f, g) && self.seen().contains(f.0) && !self.queue().contains(f) && busy
                != Some(f) ==> self.seen().contains(g.0)
        &&& busy matches Some(f) ==> self.seen().contains(f.0) && !self.queue().contains(f)
        &&& forall|h: usize| #[trigger]
            self.seen_forms@.contains(h) ==> h < forms.len() && (
            forms[h as int].kind matches DataInstKindView::FuncCall(f) ==> self.seen().contains(
                f.0,
            ))
        &&& forall|i: int|
            0 <= i < self.global_var_queue@.len() ==> #[trigger] self.global_var_queue@[i].0
                < m.global_vars.len()
    }

    /// `f` was come across and does not wait in the queue any more.
    pub open spec fn looked_at(self, f: Func) -> bool {
        self.seen().contains(f.0) && !self.queue().contains(f)
    }

    /// How many functions of `n` were not looked at yet.
    pub open spec fn work_left(self, n: int) -> int {
        n - self.seen().len() + self.queue().len()
    }

    /// A worklist that has come across nothing.
    pub fn new() -> (work: Worklist)
        ensures
            work.seen_global_vars@ == Set::<usize>::empty(),
            work.global_var_queue@ == Seq::<GlobalVar>::empty(),
            work.seen() == Set::<usize>::empty(),
            work.queue() == Seq::<Func>::empty(),
            work.seen_forms@ == Set::<usize>::empty(),
    {
        Worklist {
            seen_global_vars: new_handle_set(),
            global_var_queue: VecDeque::new(),
            seen_funcs: new_handle_set(),
            func_queue: VecDeque::new(),
            seen_forms: new_handle_set(),
        }
    }

    /// Queues a global variable that was not come across before.
    pub fn transform_global_var_use(&mut self, gv: GlobalVar)
        ensures
            final(self).seen_global_vars@ == old(self).seen_global_vars@.insert(gv.0),
            final(self).global_var_queue@ == (if old(self).seen_global_vars@.contains(
                gv.0,
            ) {
                old(self).global_var_queue@
            } else {
                old(self).global_var_queue@.push(gv)
            }),
            final(self).seen_funcs == old(self).seen_funcs,
            final(self).func_queue == old(self).func_queue,
            final(self).seen_forms == old(self).seen_forms,
    {
        if add_handle(&mut self.seen_global_vars, gv.0) {
            self.global_var_queue.push_back(gv);
        }
    }

    /// Queues a function that was not come across before.
    pub fn transform_func_use(&mut self, func: Func)
        ensures
            final(self).seen() == old(self).seen().insert(func.0),
            final(self).queue() == (if old(self).seen().contains(func.0) {
                old(self).queue()
            } else {
                old(self).queue().push(func)
            }),
            final(self).seen_global_vars == old(self).seen_global_vars,
            final(self).global_var_queue == old(self).global_var_queue,
            final(self).seen_forms == old(self).seen_forms,
    {
        if add_handle(&mut self.seen_funcs, func.0) {
            self.func_queue.push_back(func);
        }
    }

    /// Coming across a reachable function keeps the worklist on its way.
    proof fn lemma_func_use(
        before: Worklist,
        after: Worklist,
        func: Func,
        m: ModuleView,
        forms: Seq<FormView>,
        busy: Option<Func>,
    )
        requires
            before.tracks(m, forms, busy),
            func.0 < m.funcs.len(),
            reachable(m, func),
            after.seen() == before.seen().insert(func.0),
            after.queue() == (if before.seen().contains(func.0) {
                before.queue()
            } else {
                before.queue().push(func)
            }),
            after.global_var_queue == before.global_var_queue,
            after.seen_forms == before.seen_forms,
        ensures
            after.tracks(m, forms, busy),
            after.work_left(m.funcs.len() as int) == before.work_left(m.funcs.len() as int),
            forall|f: Func| #[trigger] after.looked_at(f) <==> before.looked_at(f),
    {
        if before.seen().contains(func.0) {
            assert(after.seen() =~= before.seen());
        } else {
            let q = before.queue();
            let r = q.push(func);
            assert forall|f: Func| #[trigger] after.looked_at(f) <==> before.looked_at(f) by {
                assert(r[q.len() as int] == func);
                if f != func {
                    assert(f.0 != func.0);
                    if q.contains(f) {
                        let i = q.index_of(f);
                        assert(r[i] == f);
                    }
                    if r.contains(f) {
                        let i = r.index_of(f);
                        assert(q[i] == f);
                    }
                }
            }
            assert forall|i: int, j: int| 0 <= i < r.len() && 0 <= j < r.len() && i != j implies r[i]
                != r[j] by {
                if i < q.len() {
                    assert(before.seen().contains(q[i].0));
                }
                if j < q.len() {
                    assert(before.seen().contains(q[j].0));
                }
            }
            assert forall|i: int| 0 <= i < r.len() implies after.seen().contains(
                #[trigger] r[i].0,
            ) by {
                if i < q.len() {
                    assert(before.seen().contains(q[i].0));
                }
            }
            assert forall|f: Func, g: Func| #[trigger]
                calls(m, f, g) && after.seen().contains(f.0) && !r.contains(f) && busy != Some(
                    f,
                ) implies after.seen().contains(g.0) by {
                assert(r[q.len() as int] == func);
                assert(!q.contains(f)) by {
                    if q.contains(f) {
                        let i = q.index_of(f);
                        assert(r[i] == f);
                    }
                }
                assert(f != func);
                assert(f.0 != func.0);
                assert(before.seen().contains(f.0));
            }
            if let Some(f) = busy {
                assert(!r.contains(f)) by {
                    if r.contains(f) {
                        let i = r.index_of(f);
                        if i < q.len() {
                            assert(q[i] == f);
                        }
                    }
                }
            }
        }
    }

    /// Comes across the form of an instruction, and so across the function that
    /// an instruction of that form calls.
    pub fn transform_data_inst_form_use(
        &mut self,
        cx: &Context,
        form: DataInstForm,
        Ghost(m): Ghost<ModuleView>,
        Ghost(busy): Ghost<Option<Func>>,
    )
        requires
            old(self).tracks(m, cx@.forms, busy),
            form.0 < cx@.forms.len(),
            cx@.forms[form.0 as int].kind matches DataInstKindView::FuncCall(f) ==> f.0
                < m.funcs.len() && reachable(m, f),
        ensures
            final(self).tracks(m, cx@.forms, busy),
            final(self).work_left(m.funcs.len() as int) == old(self).work_left(
                m.funcs.len() as int,
            ),
            final(self).global_var_queue == old(self).global_var_queue,
            old(self).seen().subset_of(final(self).seen()),
            forall|f: Func| #[trigger] final(self).looked_at(f) <==> old(self).looked_at(f),
            match cx@.forms[form.0 as int].kind {
                DataInstKindView::FuncCall(f) => {
                    &&& final(self).seen() == old(self).seen().insert(f.0)
                    &&& final(self).queue() == (if old(self).seen().contains(f.0) {
                        old(self).queue()
                    } else {
                        old(self).queue().push(f)
                    })
                },
                _ => {
                    &&& final(self).seen() == old(self).seen()
                    &&& final(self).queue() == old(self).queue()
                },
            },
            final(self).seen_global_vars == old(self).seen_global_vars,
            final(self).seen_forms@ == old(self).seen_forms@.insert(form.0),
    {
        if has_handle(&self.seen_forms, form.0) {
            proof {
                assert(self.seen_forms@ =~= self.seen_forms@.insert(form.0));
                if let DataInstKindView::FuncCall(f) = cx@.forms[form.0 as int].kind {
                    assert(self.seen() =~= self.seen().insert(f.0));
                }
            }
            return;
        }
        assert(cx@.forms[form.0 as int] == cx.forms@[form.0 as int]@);
        if let DataInstKind::FuncCall(func) = &cx.forms[form.0].kind {
            let ghost before = *self;
            self.transform_func_use(*func);
            proof {
                Worklist::lemma_func_use(before, *self, *func, m, cx@.forms, busy);
            }
        }
        let ghost before = *self;
        add_handle(&mut self.seen_forms, form.0);
        assert forall|f: Func| #[trigger] self.looked_at(f) <==> old(self).looked_at(f) by {
            assert(before.looked_at(f) <==> old(self).looked_at(f));
        }
    }

    /// The global variables that were come across are those of `list`, and none was taken
    /// from their queue.
    spec fn has_used(self, list: Seq<GlobalVar>) -> bool {
        &&& self.global_var_queue@ == first_uses(list)
        &&& forall|gv: GlobalVar| #[trigger]
            self.seen_global_vars@.contains(gv.0) <==> list.contains(gv)
    }

    /// One global variable more.
    proof fn lemma_used(before: Worklist, after: Worklist, list: Seq<GlobalVar>, gv: GlobalVar)
        requires
            before.has_used(list),
            after.seen_global_vars@ == before.seen_global_vars@.insert(gv.0),
            after.global_var_queue@ == (if before.seen_global_vars@.contains(gv.0) {
                before.global_var_queue@
            } else {
                before.global_var_queue@.push(gv)
            }),
        ensures
            after.has_used(list.push(gv)),
    {
        lemma_first_uses_push(list, gv);
        assert(before.seen_global_vars@.contains(gv.0) <==> list.contains(gv));
        assert forall|x: GlobalVar| #[trigger]
            after.seen_global_vars@.contains(x.0) <==> list.push(gv).contains(x) by {
            lemma_contains_push(list, gv, x);
            assert(before.seen_global_vars@.contains(x.0) <==> list.contains(x));
            assert(x.0 == gv.0 <==> x == gv);
        }
    }

    /// Comes across everything that the module exports: first what is exported,
    /// then the global variables of the interfaces of entry points. Each is queued where
    /// it is come across first.
    pub fn transform_module(&mut self, module: &Module)
        requires
            module@.wf(),
            old(self).seen_global_vars@ == Set::<usize>::empty(),
            old(self).global_var_queue@ == Seq::<GlobalVar>::empty(),
            old(self).seen() == Set::<usize>::empty(),
            old(self).queue() == Seq::<Func>::empty(),
            old(self).seen_forms@ == Set::<usize>::empty(),
        ensures
            final(self).tracks(module@, module.cx@.forms, None),
            forall|f: Func| !#[trigger] final(self).looked_at(f),
            forall|f: Func| #[trigger]
                final(self).seen().contains(f.0) <==> exports_func(module@, f),
            final(self).queue() == first_uses(
                exported_funcs(module@.exports, module@.exports.len()),
            ),
            forall|gv: GlobalVar| #[trigger]
                final(self).seen_global_vars@.contains(gv.0) <==> global_var_uses(
                    module@.exports,
                ).contains(gv),
            final(self).global_var_queue@ == first_uses(global_var_uses(module@.exports)),
            final(self).seen_forms@ == Set::<usize>::empty(),
    {
        let ghost m = module@;
        let ghost n_exports = m.exports.len();
        let mut e: usize = 0;
        while e < module.exports.len()
            invariant
                m == module@,
                m.wf(),
                e <= module.exports@.len(),
                self.seen().finite(),
                forall|f: usize| #[trigger]
                    self.seen().contains(f) ==> f < m.funcs.len() && exports_func(m, Func(f)),
                forall|f: int|
                    0 <= f < e ==> (#[trigger] m.exports[f].exportee matches Exportee::Func(func)
                        ==> self.seen().contains(func.0)),
                self.queue().no_duplicates(),
                forall|i: int|
                    0 <= i < self.queue().len() ==> self.seen().contains(
                        #[trigger] self.queue()[i].0,
                    ),
                forall|f: usize| #[trigger]
                    self.seen().contains(f) ==> self.queue().contains(Func(f)),
                self.seen_forms@ == Set::<usize>::empty(),
                forall|i: int|
                    0 <= i < self.global_var_queue@.len() ==> #[trigger] self.global_var_queue@[i].0
                        < m.global_vars.len(),
                self.queue() == first_uses(exported_funcs(m.exports, e as nat)),
                forall|f: Func| #[trigger]
                    self.seen().contains(f.0) <==> exported_funcs(m.exports, e as nat).contains(f),
                self.has_used(exported_global_vars(m.exports, e as nat)),
            decreases module.exports@.len() - e,
        {
            let ghost before = *self;
            let ghost old_funcs = exported_funcs(m.exports, e as nat);
            let ghost old_vars = exported_global_vars(m.exports, e as nat);
            assert(m.exports[e as int] == module.exports@[e as int]@);
            assert(m.exports[e as int].wf(m.funcs.len() as int, m.global_vars.len() as int));
            match module.exports[e].exportee {
                Exportee::GlobalVar(gv) => {
                    self.transform_global_var_use(gv);
                    proof {
                        Worklist::lemma_used(before, *self, old_vars, gv);
                    }
                },
                Exportee::Func(func) => {
                    self.transform_func_use(func);
                    assert(exports_func(m, func));
                    proof {
                        lemma_first_uses_push(old_funcs, func);
                        assert forall|f: Func| #[trigger]
                            self.seen().contains(f.0) <==> old_funcs.push(func).contains(f) by {
                            lemma_contains_push(old_funcs, func, f);
                            assert(before.seen().contains(f.0) <==> old_funcs.contains(f));
                            assert(f.0 == func.0 <==> f == func);
                        }
                        assert(before.seen().contains(func.0) <==> old_funcs.contains(func));
                        let q = before.queue();
                        let r = self.queue();
                        if !before.seen().contains(func.0) {
                            assert(r[q.len() as int] == func);
                            assert forall|i: int, j: int|
                                0 <= i < r.len() && 0 <= j < r.len() && i != j implies r[i]
                                != r[j] by {
                                if i < q.len() {
                                    assert(before.seen().contains(q[i].0));
                                }
                                if j < q.len() {
                                    assert(before.seen().contains(q[j].0));
                                }
                            }
                            assert forall|i: int| 0 <= i < r.len() implies self.seen().contains(
                                #[trigger] r[i].0,
                            ) by {
                                if i < q.len() {
                                    assert(before.seen().contains(q[i].0));
                                }
                            }
                        } else {
                            assert(self.seen() =~= before.seen());
                        }
                        assert forall|f: usize| #[trigger] self.seen().contains(f) implies r.contains(
                            Func(f),
                        ) by {
                            if before.seen().contains(f) {
                                let i = q.index_of(Func(f));
                                assert(r[i] == Func(f));
                            }
                        }
                    }
                },
            }
            e = e + 1;
        }
        proof {
            assert forall|f: Func| #[trigger] exports_func(m, f) implies self.seen().contains(
                f.0,
            ) by {
                let e = choose|e: int|
                    0 <= e < m.exports.len() && (#[trigger] m.exports[e]).exportee
                        == Exportee::Func(f);
                assert(m.exports[e].exportee matches Exportee::Func(func) && func == f);
            }
            assert forall|f: usize| #[trigger] self.seen().contains(f) implies reachable(
                m,
                Func(f),
            ) by {
                assert(reachable_in(m, Func(f), 0));
            }
            assert forall|f: Func| !#[trigger] self.looked_at(f) by {
                assert(Func(f.0) == f);
            }
            assert forall|f: Func| #[trigger] self.seen().contains(f.0) implies exports_func(
                m,
                f,
            ) by {
                assert(Func(f.0) == f);
            }
            assert(exported_global_vars(m.exports, n_exports) + entry_point_vars(
                m.exports,
                0,
            ) =~= exported_global_vars(m.exports, n_exports));
        }
        let ghost exported = exported_global_vars(m.exports, n_exports);
        let ghost work = *self;
        let mut e: usize = 0;
        while e < module.exports.len()
            invariant
                m == module@,
                m.wf(),
                n_exports == m.exports.len(),
                e <= module.exports@.len(),
                self.tracks(m, module.cx@.forms, None),
                forall|f: Func| !#[trigger] self.looked_at(f),
                self.seen() == work.seen(),
                self.queue() == work.queue(),
                self.seen_forms@ == Set::<usize>::empty(),
                self.has_used(exported + entry_point_vars(m.exports, e as nat)),
            decreases module.exports@.len() - e,
        {
            let ghost old_vars = exported + entry_point_vars(m.exports, e as nat);
            assert(m.exports[e as int] == module.exports@[e as int]@);
            assert(m.exports[e as int].wf(m.funcs.len() as int, m.global_vars.len() as int));
            if let ExportKey::SpvEntryPoint { interface_global_vars } = &module.exports[e].key {
                let ghost key = m.exports[e as int].key;
                assert(key is SpvEntryPoint);
                assert(key->interface_global_vars == interface_global_vars@);
                assert forall|j: int| 0 <= j < interface_global_vars@.len() implies #[trigger]
                    interface_global_vars@[j].0 < m.global_vars.len() by {
                    assert(key->interface_global_vars[j].0 < m.global_vars.len());
                }
                let mut i: usize = 0;
                assert(old_vars + interface_global_vars@.take(0) =~= old_vars);
                while i < interface_global_vars.len()
                    invariant
                        i <= interface_global_vars@.len(),
                        self.tracks(m, module.cx@.forms, None),
                        forall|f: Func| !#[trigger] self.looked_at(f),
                        self.seen() == work.seen(),
                        self.queue() == work.queue(),
                        self.seen_forms@ == Set::<usize>::empty(),
                        self.has_used(old_vars + interface_global_vars@.take(i as int)),
                        forall|j: int|
                            0 <= j < interface_global_vars@.len()
                                ==> #[trigger] interface_global_vars@[j].0 < m.global_vars.len(),
                    decreases interface_global_vars@.len() - i,
                {
                    let ghost before = *self;
                    self.transform_global_var_use(interface_global_vars[i]);
                    assert forall|f: Func| !#[trigger] self.looked_at(f) by {
                        assert(!before.looked_at(f));
                    }
                    proof {
                        let gv = interface_global_vars@[i as int];
                        let used = old_vars + interface_global_vars@.take(i as int);
                        Worklist::lemma_used(before, *self, used, gv);
                        assert(used.push(gv) =~= old_vars + interface_global_vars@.take(
                            i as int + 1,
                        ));
                    }
                    i = i + 1;
                }
                assert(old_vars + interface_global_vars@.take(i as int) =~= exported
                    + entry_point_vars(m.exports, (e + 1) as nat)) by {
                    assert(interface_global_vars@.take(i as int) =~= interface_global_vars@);
                }
            } else {
                assert(exported + entry_point_vars(m.exports, (e + 1) as nat) =~= old_vars);
            }
            e = e + 1;
        }
    }

    /// Taking a function from the queue makes it the one to look at.
    pub proof fn lemma_pop(
        before: Worklist,
        after: Worklist,
        m: ModuleView,
        forms: Seq<FormView>,
    )
        requires
            before.tracks(m, forms, None),
            before.queue().len() > 0,
            after.seen_funcs == before.seen_funcs,
            after.queue() == before.queue().drop_first(),
            after.global_var_queue == before.global_var_queue,
            after.seen_forms == before.seen_forms,
        ensures
            after.tracks(m, forms, Some(before.queue()[0])),
            before.queue()[0].0 < m.funcs.len(),
            reachable(m, before.queue()[0]),
            after.work_left(m.funcs.len() as int) == before.work_left(m.funcs.len() as int) - 1,
            !before.looked_at(before.queue()[0]),
            forall|f: Func| #[trigger]
                after.looked_at(f) <==> before.looked_at(f) || f == before.queue()[0],
    {
        let q = before.queue();
        let r = after.queue();
        assert(before.seen().contains(q[0].0));
        assert(!r.contains(q[0])) by {
            if r.contains(q[0]) {
                let i = r.index_of(q[0]);
                assert(q[i + 1] == q[0]);
            }
        }
        assert forall|i: int| 0 <= i < r.len() implies after.seen().contains(#[trigger] r[i].0) by {
            assert(r[i] == q[i + 1]);
        }
        assert forall|f: Func| #[trigger] after.looked_at(f) <==> before.looked_at(f) || f
            == q[0] by {
            if q.contains(f) && f != q[0] {
                let i = q.index_of(f);
                assert(r[i - 1] == f);
            }
            if r.contains(f) {
                let i = r.index_of(f);
                assert(q[i + 1] == f);
            }
        }
        assert forall|f: Func, g: Func| #[trigger]
            calls(m, f, g) && after.seen().contains(f.0) && !r.contains(f) && Some(q[0]) != Some(
                f,
            ) implies after.seen().contains(g.0) by {
            assert(!q.contains(f)) by {
                if q.contains(f) {
                    let i = q.index_of(f);
                    assert(r[i - 1] == f);
                }
            }
        }
    }

    /// More forms change nothing for the worklist.
    pub proof fn lemma_more_forms(
        self,
        m: ModuleView,
        forms: Seq<FormView>,
        more: Seq<FormView>,
        busy: Option<Func>,
    )
        requires
            self.tracks(m, forms, busy),
            forms.is_prefix_of(more),
        ensures
            self.tracks(m, more, busy),
    {
        assert forall|h: usize| #[trigger] self.seen_forms@.contains(h) implies h
            < more.len() && (more[h as int].kind matches DataInstKindView::FuncCall(f)
            ==> self.seen().contains(f.0)) by {
            assert(more[h as int] == forms[h as int]);
        }
    }

    /// When everything that the busy function calls was come across, it is busy
    /// no more.
    pub proof fn lemma_done(self, m: ModuleView, forms: Seq<FormView>, f: Func)
        requires
            self.tracks(m, forms, Some(f)),
            forall|g: Func| #[trigger] calls(m, f, g) ==> self.seen().contains(g.0),
        ensures
            self.tracks(m, forms, None),
    {
    }

    /// There is work left, or none.
    pub proof fn lemma_work_left(self, m: ModuleView, forms: Seq<FormView>, busy: Option<Func>)
        requires
            self.tracks(m, forms, busy),
        ensures
            self.work_left(m.funcs.len() as int) >= self.queue().len(),
    {
        lemma_set_len(self.seen(), m.funcs.len());
    }

    proof fn lemma_reachable_seen(self, m: ModuleView, forms: Seq<FormView>, f: Func, n: nat)
        requires
            self.tracks(m, forms, None),
            self.queue().len() == 0,
            reachable_in(m, f, n),
        ensures
            self.seen().contains(f.0),
        decreases n,
    {
        if n > 0 {
            let caller = choose|caller: Func| #[trigger]
                calls(m, caller, f) && reachable_in(m, caller, (n - 1) as nat);
            self.lemma_reachable_seen(m, forms, caller, (n - 1) as nat);
            assert(!self.queue().contains(caller));
        }
    }

    /// When the queue is empty, the worklist has come across the reachable
    /// functions and no others.
    pub proof fn lemma_finished(self, m: ModuleView, forms: Seq<FormView>)
        requires
            self.tracks(m, forms, None),
            self.queue().len() == 0,
        ensures
            forall|f: Func| #[trigger] reachable(m, f) <==> self.seen().contains(f.0),
    {
        assert forall|f: Func| #[trigger] reachable(m, f) implies self.seen().contains(f.0) by {
            let n = choose|n: nat| reachable_in(m, f, n);
            self.lemma_reachable_seen(m, forms, f, n);
        }
        assert forall|f: Func| self.seen().contains(f.0) implies #[trigger] reachable(m, f) by {
            assert(Func(f.0) == f);
        }
    }
}

} // verus!
