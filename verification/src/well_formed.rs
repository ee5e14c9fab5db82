//! Whether a module is in order, for callers that do not know.

use crate::context::{types_wf, Context, Module, ModuleView};
use crate::ir::{
    lemma_values_wf_add, values_wf, BodyView, ControlNodeDef, ControlNodeKind, ControlRegionDef,
    DataInst, DataInstFormDef, DataInstKind, DataInstKindView, Export, ExportKey, Exportee,
    FormView, FuncDecl, FuncDefBody, FuncView, NodeKindView, Type, TypeKind, TypeOrConst, Value,
};
use crate::places::{law_walk, stands_at};
use vstd::prelude::*;

verus! {

/// Whether no type occurs twice, and each is made of earlier ones.
fn are_types_well_formed(cx: &Context) -> (ok: bool)
    ensures
        ok == (cx@.types.no_duplicates() && types_wf(cx@.types)),
{
    let ghost types = cx@.types;
    let mut t: usize = 0;
    while t < cx.types.len()
        invariant
            types == cx@.types,
            t <= cx.types@.len(),
            forall|i: int, j: int| 0 <= i < t && 0 <= j < t && i != j ==> types[i] != types[j],
            types_wf(types.take(t as int)),
        decreases cx.types@.len() - t,
    {
        assert(types[t as int] == cx.types@[t as int]@);
        let mut i: usize = 0;
        while i < t
            invariant
                types == cx@.types,
                i <= t < cx.types@.len(),
                forall|j: int| 0 <= j < i ==> types[j] != types[t as int],
            decreases t - i,
        {
            assert(types[i as int] == cx.types@[i as int]@);
            assert(types[t as int] == cx.types@[t as int]@);
            if cx.types[i].same_as(&cx.types[t]) {
                return false;
            }
            i = i + 1;
        }
        if let TypeKind::SpvInst { type_and_const_inputs, .. } = &cx.types[t].kind {
            let mut i: usize = 0;
            while i < type_and_const_inputs.len()
                invariant
                    types == cx@.types,
                    t < types.len(),
                    types[t as int].kind is SpvInst,
                    types[t as int].kind->inputs == type_and_const_inputs@,
                    i <= type_and_const_inputs@.len(),
                    forall|j: int|
                        0 <= j < i ==> (
                        #[trigger] type_and_const_inputs@[j] matches TypeOrConst::Type(c) ==> c.0
                            < t),
                decreases type_and_const_inputs@.len() - i,
            {
                if let TypeOrConst::Type(c) = type_and_const_inputs[i] {
                    if c.0 >= t {
                        assert(types[t as int].kind->inputs[i as int] == TypeOrConst::Type(c));
                        return false;
                    }
                }
                i = i + 1;
            }
        }
        proof {
            let more = types.take(t as int + 1);
            assert forall|u: int, i: int|
                0 <= u < more.len() && (#[trigger] more[u]).kind is SpvInst && 0 <= i
                    < more[u].kind->inputs.len() implies (
            #[trigger] more[u].kind->inputs[i] matches TypeOrConst::Type(c) ==> c.0 < u) by {
                if u < t {
                    assert(types.take(t as int)[u] == more[u]);
                }
            }
        }
        t = t + 1;
    }
    assert(types.take(t as int) =~= types);
    true
}

/// Whether no constant occurs twice, and each is of one of the types.
fn are_consts_well_formed(cx: &Context) -> (ok: bool)
    ensures
        ok == (cx@.consts.no_duplicates() && forall|c: int|
            0 <= c < cx@.consts.len() ==> (#[trigger] cx@.consts[c]).ty.0 < cx@.types.len()),
{
    let ghost consts = cx@.consts;
    let mut c: usize = 0;
    while c < cx.consts.len()
        invariant
            consts == cx@.consts,
            c <= cx.consts@.len(),
            forall|i: int, j: int| 0 <= i < c && 0 <= j < c && i != j ==> consts[i] != consts[j],
            forall|i: int| 0 <= i < c ==> (#[trigger] consts[i]).ty.0 < cx@.types.len(),
        decreases cx.consts@.len() - c,
    {
        assert(consts[c as int] == cx.consts@[c as int]@);
        let mut i: usize = 0;
        while i < c
            invariant
                consts == cx@.consts,
                i <= c < cx.consts@.len(),
                forall|j: int| 0 <= j < i ==> consts[j] != consts[c as int],
            decreases c - i,
        {
            assert(consts[i as int] == cx.consts@[i as int]@);
            assert(consts[c as int] == cx.consts@[c as int]@);
            if cx.consts[i].same_as(&cx.consts[c]) {
                return false;
            }
            i = i + 1;
        }
        if cx.consts[c].ty.0 >= cx.types.len() {
            return false;
        }
        c = c + 1;
    }
    true
}

/// Whether every handle of a form names a type or one of `n_funcs` functions.
fn is_form_well_formed(form: &DataInstFormDef, n_types: usize, n_funcs: usize) -> (ok: bool)
    ensures
        ok == form@.wf(n_types as int, n_funcs as int),
{
    if let Some(ty) = form.output_type {
        if ty.0 >= n_types {
            return false;
        }
    }
    match &form.kind {
        DataInstKind::FuncCall(func) => func.0 < n_funcs,
        _ => true,
    }
}

/// Whether no form occurs twice, and every handle of one names an entry of its table.
fn are_forms_well_formed(cx: &Context, n_funcs: usize) -> (ok: bool)
    ensures
        ok == (cx@.forms.no_duplicates() && forall|h: int|
            0 <= h < cx@.forms.len() ==> (#[trigger] cx@.forms[h]).wf(
                cx@.types.len() as int,
                n_funcs as int,
            )),
{
    let ghost forms = cx@.forms;
    let mut h: usize = 0;
    while h < cx.forms.len()
        invariant
            forms == cx@.forms,
            h <= cx.forms@.len(),
            forall|i: int, j: int| 0 <= i < h && 0 <= j < h && i != j ==> forms[i] != forms[j],
            forall|i: int|
                0 <= i < h ==> (#[trigger] forms[i]).wf(cx@.types.len() as int, n_funcs as int),
        decreases cx.forms@.len() - h,
    {
        assert(forms[h as int] == cx.forms@[h as int]@);
        let mut i: usize = 0;
        while i < h
            invariant
                forms == cx@.forms,
                i <= h < cx.forms@.len(),
                forall|j: int| 0 <= j < i ==> forms[j] != forms[h as int],
            decreases h - i,
        {
            assert(forms[i as int] == cx.forms@[i as int]@);
            assert(forms[h as int] == cx.forms@[h as int]@);
            if cx.forms[i].same_as(&cx.forms[h]) {
                return false;
            }
            i = i + 1;
        }
        if !is_form_well_formed(&cx.forms[h], cx.types.len(), n_funcs) {
            return false;
        }
        h = h + 1;
    }
    true
}

/// Whether every handle of an export names a function or global variable.
fn is_export_well_formed(export: &Export, n_funcs: usize, n_global_vars: usize) -> (ok: bool)
    ensures
        ok == export@.wf(n_funcs as int, n_global_vars as int),
{
    let in_range = match export.exportee {
        Exportee::GlobalVar(gv) => gv.0 < n_global_vars,
        Exportee::Func(func) => func.0 < n_funcs,
    };
    if !in_range {
        return false;
    }
    match &export.key {
        ExportKey::LinkName(_) => true,
        ExportKey::SpvEntryPoint { interface_global_vars } => {
            let ghost key = export@.key;
            assert(key is SpvEntryPoint);
            assert(key->interface_global_vars == interface_global_vars@);
            let mut i: usize = 0;
            while i < interface_global_vars.len()
                invariant
                    key == export@.key,
                    key is SpvEntryPoint,
                    key->interface_global_vars == interface_global_vars@,
                    i <= interface_global_vars@.len(),
                    forall|j: int|
                        0 <= j < i ==> #[trigger] interface_global_vars@[j].0 < n_global_vars,
                decreases interface_global_vars@.len() - i,
            {
                if interface_global_vars[i].0 >= n_global_vars {
                    assert(key->interface_global_vars[i as int].0 >= n_global_vars);
                    return false;
                }
                i = i + 1;
            }
            true
        },
    }
}

/// Whether every constant among `values` is one of so many.
fn are_values_well_formed(values: &Vec<Value>, n_consts: usize) -> (ok: bool)
    ensures
        ok == values_wf(values@, n_consts as int),
{
    let mut i: usize = 0;
    while i < values.len()
        invariant
            i <= values@.len(),
            forall|j: int|
                0 <= j < i ==> (#[trigger] values@[j] matches Value::Const(c) ==> c.0 < n_consts),
        decreases values@.len() - i,
    {
        if !is_value_well_formed(values[i], n_consts) {
            assert(values@[i as int] is Const);
            return false;
        }
        i = i + 1;
    }
    true
}

/// Whether a value, if it is a constant, is one of so many.
fn is_value_well_formed(v: Value, n_consts: usize) -> (ok: bool)
    ensures
        ok == (v matches Value::Const(c) ==> c.0 < n_consts),
{
    match v {
        Value::Const(c) => c.0 < n_consts,
        _ => true,
    }
}

/// Every type is one of so many.
spec fn types_in_range(types: Seq<Type>, n_types: int) -> bool {
    forall|i: int| 0 <= i < types.len() ==> #[trigger] types[i].0 < n_types
}

/// Whether every type is one of so many.
fn are_types_in_range(types: &Vec<Type>, n_types: usize) -> (ok: bool)
    ensures
        ok == types_in_range(types@, n_types as int),
{
    let mut i: usize = 0;
    while i < types.len()
        invariant
            i <= types@.len(),
            forall|j: int| 0 <= j < i ==> #[trigger] types@[j].0 < n_types,
        decreases types@.len() - i,
    {
        if types[i].0 >= n_types {
            return false;
        }
        i = i + 1;
    }
    true
}

/// Whether every handle of a region names an entry of its table.
fn is_region_well_formed(region: &ControlRegionDef, n_types: usize, n_consts: usize) -> (ok: bool)
    ensures
        ok == (types_in_range(region@.inputs, n_types as int) && values_wf(
            region@.values(),
            n_consts as int,
        )),
{
    proof {
        lemma_values_wf_add(region.outputs@, region.exit_inputs@, n_consts as int);
    }
    are_types_in_range(&region.inputs, n_types) && are_values_well_formed(
        &region.outputs,
        n_consts,
    ) && are_values_well_formed(&region.exit_inputs, n_consts)
}

/// Whether every handle of a node names an entry of its table.
fn is_node_well_formed(node: &ControlNodeDef, n_types: usize, n_consts: usize) -> (ok: bool)
    ensures
        ok == (types_in_range(node@.outputs, n_types as int) && values_wf(
            node@.values(),
            n_consts as int,
        )),
{
    if !are_types_in_range(&node.outputs, n_types) {
        return false;
    }
    match &node.kind {
        ControlNodeKind::Block { .. } => true,
        ControlNodeKind::Select { scrutinee } => {
            assert(node@.values()[0] == *scrutinee);
            is_value_well_formed(*scrutinee, n_consts)
        },
        ControlNodeKind::Loop { initial_inputs, repeat_condition } => {
            proof {
                let last = seq![*repeat_condition];
                assert(node@.values() =~= initial_inputs@ + last);
                lemma_values_wf_add(initial_inputs@, last, n_consts as int);
                assert(last[0] == *repeat_condition);
            }
            are_values_well_formed(initial_inputs, n_consts) && is_value_well_formed(
                *repeat_condition,
                n_consts,
            )
        },
        ControlNodeKind::ExitInvocation { inputs } => are_values_well_formed(inputs, n_consts),
    }
}

/// Whether every handle in a body names an entry of its table, where its forms are in
/// order.
fn are_handles_well_formed(cx: &Context, body: &FuncDefBody, n_funcs: usize) -> (ok: bool)
    requires
        body.forms_within(cx@.forms.len() as int),
        forall|h: int|
            0 <= h < cx@.forms.len() ==> (#[trigger] cx@.forms[h]).wf(
                cx@.types.len() as int,
                n_funcs as int,
            ),
    ensures
        ok == body.view_in(cx@.forms).handles_wf(
            cx@.types.len() as int,
            cx@.consts.len() as int,
            n_funcs as int,
        ),
{
    let ghost view = body.view_in(cx@.forms);
    let n_types = cx.types.len();
    let n_consts = cx.consts.len();
    let mut r: usize = 0;
    while r < body.control_regions.len()
        invariant
            view == body.view_in(cx@.forms),
            n_types == cx@.types.len(),
            n_consts == cx@.consts.len(),
            r <= view.regions.len(),
            forall|q: int, i: int|
                0 <= q < r && 0 <= i < view.regions[q].inputs.len()
                    ==> #[trigger] view.regions[q].inputs[i].0 < n_types,
            forall|q: int|
                0 <= q < r ==> values_wf((#[trigger] view.regions[q]).values(), n_consts as int),
        decreases view.regions.len() - r,
    {
        assert(view.regions[r as int] == body.control_regions@[r as int]@);
        if !is_region_well_formed(&body.control_regions[r], n_types, n_consts) {
            return false;
        }
        r = r + 1;
    }
    let mut c: usize = 0;
    while c < body.control_nodes.len()
        invariant
            view == body.view_in(cx@.forms),
            n_types == cx@.types.len(),
            n_consts == cx@.consts.len(),
            c <= view.nodes.len(),
            forall|q: int, i: int|
                0 <= q < c && 0 <= i < view.nodes[q].outputs.len()
                    ==> #[trigger] view.nodes[q].outputs[i].0 < n_types,
            forall|q: int|
                0 <= q < c ==> values_wf((#[trigger] view.nodes[q]).values(), n_consts as int),
        decreases view.nodes.len() - c,
    {
        assert(view.nodes[c as int] == body.control_nodes@[c as int]@);
        if !is_node_well_formed(&body.control_nodes[c], n_types, n_consts) {
            return false;
        }
        c = c + 1;
    }
    let mut d: usize = 0;
    while d < body.data_insts.len()
        invariant
            view == body.view_in(cx@.forms),
            n_types == cx@.types.len(),
            n_consts == cx@.consts.len(),
            body.forms_within(cx@.forms.len() as int),
            forall|h: int|
                0 <= h < cx@.forms.len() ==> (#[trigger] cx@.forms[h]).wf(
                    cx@.types.len() as int,
                    n_funcs as int,
                ),
            d <= view.insts.len(),
            forall|q: int|
                0 <= q < d ==> (#[trigger] view.insts[q]).wf(
                    n_types as int,
                    n_consts as int,
                    n_funcs as int,
                ),
        decreases view.insts.len() - d,
    {
        assert(view.insts[d as int] == body.data_insts@[d as int].view_in(cx@.forms));
        assert(view.insts[d as int].form.wf(n_types as int, n_funcs as int));
        if !are_values_well_formed(&body.data_insts[d].inputs, n_consts) {
            assert(!view.insts[d as int].wf(n_types as int, n_consts as int, n_funcs as int));
            return false;
        }
        d = d + 1;
    }
    true
}

/// As many times `false`.
fn no_marks(n: usize) -> (marks: Vec<bool>)
    ensures
        marks@.len() == n,
        forall|i: int| 0 <= i < n ==> !#[trigger] marks@[i],
{
    let mut marks: Vec<bool> = Vec::new();
    let mut i: usize = 0;
    while i < n
        invariant
            i <= n,
            marks@.len() == i,
            forall|j: int| 0 <= j < i ==> !#[trigger] marks@[j],
        decreases n - i,
    {
        marks.push(false);
        i = i + 1;
    }
    marks
}

/// Whether a walk reaches nodes of the body, and each once.
fn is_node_order_well_formed(body: &FuncDefBody) -> (ok: bool)
    ensures
        ok == (body.node_order@.no_duplicates() && forall|n: int|
            0 <= n < body.node_order@.len() ==> #[trigger] body.node_order@[n].0
                < body.control_nodes@.len()),
{
    let mut marks = no_marks(body.control_nodes.len());
    let mut n: usize = 0;
    while n < body.node_order.len()
        invariant
            n <= body.node_order@.len(),
            marks@.len() == body.control_nodes@.len(),
            forall|i: int| 0 <= i < n ==> #[trigger] body.node_order@[i].0 < marks@.len(),
            forall|i: int| 0 <= i < n ==> marks@[#[trigger] body.node_order@[i].0 as int],
            forall|c: int|
                0 <= c < marks@.len() && #[trigger] marks@[c] ==> exists|i: int|
                    0 <= i < n && body.node_order@[i].0 == c,
            forall|i: int, j: int|
                0 <= i < n && 0 <= j < n && i != j ==> body.node_order@[i]
                    != body.node_order@[j],
        decreases body.node_order@.len() - n,
    {
        let node = body.node_order[n].0;
        if node >= marks.len() {
            return false;
        }
        if marks[node] {
            proof {
                let i = choose|i: int| 0 <= i < n && body.node_order@[i].0 == node;
                assert(body.node_order@[i] == body.node_order@[n as int]);
            }
            return false;
        }
        let ghost before = marks@;
        marks.set(node, true);
        proof {
            assert forall|i: int, j: int|
                0 <= i < n + 1 && 0 <= j < n + 1 && i != j implies body.node_order@[i]
                != body.node_order@[j] by {
                if i == n {
                    assert(before[body.node_order@[j].0 as int]);
                }
                if j == n {
                    assert(before[body.node_order@[i].0 as int]);
                }
            }
            assert forall|c: int| 0 <= c < marks@.len() && #[trigger] marks@[c] implies exists|
                i: int,
            |
                0 <= i < n + 1 && body.node_order@[i].0 == c by {
                if c == node {
                    assert(body.node_order@[n as int].0 == c);
                } else {
                    assert(before[c]);
                    let i = choose|i: int| 0 <= i < n && body.node_order@[i].0 == c;
                    assert(body.node_order@[i].0 == c);
                }
            }
        }
        n = n + 1;
    }
    true
}

/// Whether a walk reaches nodes and instructions of the body, and each once.
fn is_walk_well_formed(body: &FuncDefBody, Ghost(forms): Ghost<Seq<FormView>>) -> (ok: bool)
    ensures
        ok == body.view_in(forms).walk_wf(),
{
    let ghost view = body.view_in(forms);
    if !is_node_order_well_formed(body) {
        return false;
    }
    if let Some(c) = body.entry {
        if body.node_order.len() == 0 || body.node_order[0] != c {
            return false;
        }
    }
    let mut marks = no_marks(body.data_insts.len());
    proof {
        view.lemma_visits_ends();
    }
    let mut n: usize = 0;
    while n < body.node_order.len()
        invariant
            view == body.view_in(forms),
            view.entry matches Some(c) ==> view.node_order.len() > 0 && view.node_order[0] == c,
            forall|i: int|
                0 <= i < view.node_order.len() ==> #[trigger] view.node_order[i].0
                    < view.nodes.len(),
            n <= view.node_order.len(),
            marks@.len() == view.insts.len(),
            forall|x: DataInst|
                x.0 < marks@.len() ==> (#[trigger] marks@[x.0 as int] <==> view.visits_before(
                    n as int,
                    0,
                    x,
                )),
            forall|n2: int, j2: int, d: DataInst| #[trigger]
                view.visits_at(n2, j2, d) && n2 < n ==> d.0 < view.insts.len(),
            forall|n2: int, j2: int, n3: int, j3: int, d: DataInst|
                #![trigger view.visits_at(n2, j2, d), view.visits_at(n3, j3, d)]
                view.visits_at(n2, j2, d) && view.visits_at(n3, j3, d) && n2 < n && n3 < n ==> n2
                    == n3 && j2 == j3,
        decreases view.node_order.len() - n,
    {
        let node = body.node_order[n];
        assert(view.node_order[n as int] == node);
        assert(view.nodes[node.0 as int] == body.control_nodes@[node.0 as int]@);
        let len = body.block_len(node);
        let mut j: usize = 0;
        while j < len
            invariant
                view == body.view_in(forms),
                n < view.node_order.len(),
                node == view.node_order[n as int],
                node.0 < view.nodes.len(),
                j <= len,
                len == view.block(n as int).len(),
                marks@.len() == view.insts.len(),
                forall|x: DataInst|
                    x.0 < marks@.len() ==> (#[trigger] marks@[x.0 as int] <==> view.visits_before(
                        n as int,
                        j as int,
                        x,
                    )),
                forall|n2: int, j2: int, d: DataInst| #[trigger]
                    view.visits_at(n2, j2, d) && (n2 < n || (n2 == n && j2 < j)) ==> d.0
                        < view.insts.len(),
                forall|n2: int, j2: int, n3: int, j3: int, d: DataInst|
                    #![trigger view.visits_at(n2, j2, d), view.visits_at(n3, j3, d)]
                    view.visits_at(n2, j2, d) && view.visits_at(n3, j3, d) && (n2 < n || (n2 == n
                        && j2 < j)) && (n3 < n || (n3 == n && j3 < j)) ==> n2 == n3 && j2 == j3,
            decreases len - j,
        {
            assert(view.nodes[node.0 as int] == body.control_nodes@[node.0 as int]@);
            let d = body.block_inst(node, j);
            assert(view.visits_at(n as int, j as int, d));
            if d.0 >= marks.len() {
                return false;
            }
            if marks[d.0] {
                proof {
                    assert(view.visits_before(n as int, j as int, d));
                    let (n2, j2) = choose|n2: int, j2: int| #[trigger]
                        view.visits_at(n2, j2, d) && (n2 < n || (n2 == n && j2 < j));
                    assert(view.visits_at(n2, j2, d));
                }
                return false;
            }
            let ghost before = marks@;
            marks.set(d.0, true);
            proof {
                view.lemma_visits_step(n as int, j as int, d);
                assert(!view.visits_before(n as int, j as int, d)) by {
                    assert(!before[d.0 as int]);
                }
                assert forall|x: DataInst| x.0 < marks@.len() implies (
                #[trigger] marks@[x.0 as int] <==> view.visits_before(
                    n as int,
                    j as int + 1,
                    x,
                )) by {
                    if x.0 != d.0 {
                        assert(before[x.0 as int] <==> view.visits_before(n as int, j as int, x));
                        assert(x != d);
                    } else {
                        assert(x == d);
                    }
                }
            }
            j = j + 1;
        }
        proof {
            view.lemma_visits_next_node(n as int);
            assert forall|x: DataInst| x.0 < marks@.len() implies (
            #[trigger] marks@[x.0 as int] <==> view.visits_before(n as int + 1, 0, x)) by {
                assert(marks@[x.0 as int] <==> view.visits_before(n as int, len as int, x));
            }
        }
        n = n + 1;
    }
    true
}

/// Whether every instruction of a body has one of so many forms.
fn are_forms_within(body: &FuncDefBody, n_forms: usize) -> (ok: bool)
    ensures
        ok == body.forms_within(n_forms as int),
{
    let mut d: usize = 0;
    while d < body.data_insts.len()
        invariant
            d <= body.data_insts@.len(),
            forall|i: int| 0 <= i < d ==> #[trigger] body.data_insts@[i].form.0 < n_forms,
        decreases body.data_insts@.len() - d,
    {
        if body.data_insts[d].form.0 >= n_forms {
            return false;
        }
        d = d + 1;
    }
    true
}

/// A body is in order where every handle in it names an entry of its table, every node and
/// instruction stands in one place at most, and the walk starts with the entry.
pub proof fn law_bodies_in_order(body: BodyView, n_types: int, n_consts: int, n_funcs: int)
    requires
        body.nodes.len() <= usize::MAX,
        body.insts.len() <= usize::MAX,
        body.entry is Some ==> body.node_order.len() > 0 && body.node_order[0] == body.entry->0,
        forall|n: int|
            0 <= n < body.node_order.len() ==> #[trigger] body.node_order[n].0 < body.nodes.len(),
        forall|n: int, n2: int|
            0 <= n < n2 < body.node_order.len() ==> #[trigger] body.node_order[n]
                != #[trigger] body.node_order[n2],
        forall|n: int, j: int, d: DataInst| #[trigger]
            stands_at(body, n, j, d) ==> d.0 < body.insts.len(),
        forall|n: int, j: int, n2: int, j2: int, d: DataInst| #[trigger]
            stands_at(body, n, j, d) && #[trigger] stands_at(body, n2, j2, d) ==> n == n2 && j
                == j2,
        forall|r: int, i: int|
            0 <= r < body.regions.len() && 0 <= i < body.regions[r].inputs.len()
                ==> #[trigger] body.regions[r].inputs[i].0 < n_types,
        forall|r: int, i: int|
            0 <= r < body.regions.len() && 0 <= i < body.regions[r].outputs.len() ==> (
            #[trigger] body.regions[r].outputs[i] matches Value::Const(c) ==> c.0 < n_consts),
        forall|r: int, i: int|
            0 <= r < body.regions.len() && 0 <= i < body.regions[r].exit_inputs.len() ==> (
            #[trigger] body.regions[r].exit_inputs[i] matches Value::Const(c) ==> c.0 < n_consts),
        forall|n: int, i: int|
            0 <= n < body.nodes.len() && 0 <= i < body.nodes[n].outputs.len()
                ==> #[trigger] body.nodes[n].outputs[i].0 < n_types,
        forall|n: int|
            0 <= n < body.nodes.len() ==> match (#[trigger] body.nodes[n]).kind {
                NodeKindView::Block { .. } => true,
                NodeKindView::Select { scrutinee } => is_const_among(scrutinee, n_consts),
                NodeKindView::Loop { initial_inputs, repeat_condition } => {
                    &&& forall|i: int|
                        0 <= i < initial_inputs.len() ==> is_const_among(
                            #[trigger] initial_inputs[i],
                            n_consts,
                        )
                    &&& is_const_among(repeat_condition, n_consts)
                },
                NodeKindView::ExitInvocation { inputs } => forall|i: int|
                    0 <= i < inputs.len() ==> is_const_among(#[trigger] inputs[i], n_consts),
            },
        forall|d: int|
            0 <= d < body.insts.len() ==> {
                let inst = #[trigger] body.insts[d];
                &&& inst.form.output_type is Some ==> (inst.form.output_type->0).0 < n_types
                &&& inst.form.kind matches DataInstKindView::FuncCall(f) ==> f.0 < n_funcs
                &&& forall|i: int|
                    0 <= i < inst.inputs.len() ==> is_const_among(
                        #[trigger] inst.inputs[i],
                        n_consts,
                    )
            },
    ensures
        body.wf(n_types, n_consts, n_funcs),
{
    law_walk(body);
    assert forall|n: int, j: int, d: DataInst| #[trigger] body.visits_at(n, j, d) implies d.0
        < body.insts.len() by {
        assert(stands_at(body, n, j, d));
    }
    assert forall|n: int, j: int, n2: int, j2: int, d: DataInst|
        #![trigger body.visits_at(n, j, d), body.visits_at(n2, j2, d)]
        body.visits_at(n, j, d) && body.visits_at(n2, j2, d) implies n == n2 && j == j2 by {
        assert(stands_at(body, n, j, d));
        assert(stands_at(body, n2, j2, d));
    }
    assert forall|r: int| 0 <= r < body.regions.len() implies values_wf(
        (#[trigger] body.regions[r]).values(),
        n_consts,
    ) by {
        let region = body.regions[r];
        assert forall|i: int| 0 <= i < region.values().len() implies (
        #[trigger] region.values()[i] matches Value::Const(c) ==> c.0 < n_consts) by {
            if i < region.outputs.len() {
                assert(region.values()[i] == body.regions[r].outputs[i]);
            } else {
                let k = i - region.outputs.len();
                assert(region.values()[i] == body.regions[r].exit_inputs[k]);
            }
        }
    }
    assert forall|n: int| 0 <= n < body.nodes.len() implies values_wf(
        (#[trigger] body.nodes[n]).values(),
        n_consts,
    ) by {
        let values = body.nodes[n].values();
        assert forall|i: int| 0 <= i < values.len() implies (
        #[trigger] values[i] matches Value::Const(c) ==> c.0 < n_consts) by {
            assert(is_const_among(values[i], n_consts));
        }
    }
    assert forall|d: int| 0 <= d < body.insts.len() implies (#[trigger] body.insts[d]).wf(
        n_types,
        n_consts,
        n_funcs,
    ) by {
        let inst = body.insts[d];
        assert forall|i: int| 0 <= i < inst.inputs.len() implies (
        #[trigger] inst.inputs[i] matches Value::Const(c) ==> c.0 < n_consts) by {
            assert(is_const_among(inst.inputs[i], n_consts));
        }
    }
}

/// The value is no constant, or one of so many.
pub open spec fn is_const_among(v: Value, n_consts: int) -> bool {
    v is Const ==> v->Const_0.0 < n_consts
}

/// A module is in order where no definition occurs twice, types are made of earlier types,
/// every handle names an entry of its table, and the bodies are in order.
pub proof fn law_modules_in_order(m: ModuleView)
    requires
        m.funcs.len() <= usize::MAX,
        m.cx.types.len() <= usize::MAX,
        m.cx.consts.len() <= usize::MAX,
        forall|i: int, k: int|
            0 <= i < k < m.cx.types.len() ==> #[trigger] m.cx.types[i] != #[trigger] m.cx.types[k],
        forall|i: int, k: int|
            0 <= i < k < m.cx.consts.len() ==> #[trigger] m.cx.consts[i]
                != #[trigger] m.cx.consts[k],
        forall|i: int, k: int|
            0 <= i < k < m.cx.forms.len() ==> #[trigger] m.cx.forms[i] != #[trigger] m.cx.forms[k],
        forall|t: int, i: int|
            0 <= t < m.cx.types.len() && m.cx.types[t].kind is SpvInst && 0 <= i
                < m.cx.types[t].kind->inputs.len() ==> (
            #[trigger] m.cx.types[t].kind->inputs[i] matches TypeOrConst::Type(c) ==> c.0 < t),
        forall|c: int|
            0 <= c < m.cx.consts.len() ==> (#[trigger] m.cx.consts[c]).ty.0 < m.cx.types.len(),
        forall|h: int|
            0 <= h < m.cx.forms.len() ==> {
                let form = #[trigger] m.cx.forms[h];
                &&& form.output_type is Some ==> (form.output_type->0).0 < m.cx.types.len()
                &&& form.kind matches DataInstKindView::FuncCall(f) ==> f.0 < m.funcs.len()
            },
        forall|e: int|
            0 <= e < m.exports.len() ==> {
                let export = #[trigger] m.exports[e];
                &&& export.exportee matches Exportee::GlobalVar(gv) ==> gv.0 < m.global_vars.len()
                &&& export.exportee matches Exportee::Func(f) ==> f.0 < m.funcs.len()
                &&& export.key is SpvEntryPoint ==> forall|i: int|
                    0 <= i < export.key->interface_global_vars.len() ==> (
                    #[trigger] export.key->interface_global_vars[i]).0 < m.global_vars.len()
            },
        forall|f: int|
            0 <= f < m.funcs.len() && m.funcs[f] is Present ==> (#[trigger] m.funcs[f])->0.wf(
                m.cx.types.len() as int,
                m.cx.consts.len() as int,
                m.funcs.len() as int,
            ),
    ensures
        m.wf(),
{
    assert forall|t: int, i: int|
        0 <= t < m.cx.types.len() && (#[trigger] m.cx.types[t]).kind is SpvInst && 0 <= i
            < m.cx.types[t].kind->inputs.len() implies (
    #[trigger] m.cx.types[t].kind->inputs[i] matches TypeOrConst::Type(c) ==> c.0 < t) by {}
    assert forall|h: int| 0 <= h < m.cx.forms.len() implies (#[trigger] m.cx.forms[h]).wf(
        m.cx.types.len() as int,
        m.funcs.len() as int,
    ) by {}
    assert forall|e: int| 0 <= e < m.exports.len() implies (#[trigger] m.exports[e]).wf(
        m.funcs.len() as int,
        m.global_vars.len() as int,
    ) by {}
}

/// Of a body in order all of this holds.
pub proof fn law_what_bodies_in_order_are(
    body: BodyView,
    n_types: int,
    n_consts: int,
    n_funcs: int,
)
    requires
        body.wf(n_types, n_consts, n_funcs),
    ensures
        body.nodes.len() <= usize::MAX,
        body.insts.len() <= usize::MAX,
        body.entry is Some ==> body.node_order.len() > 0 && body.node_order[0] == body.entry->0,
        forall|n: int|
            0 <= n < body.node_order.len() ==> #[trigger] body.node_order[n].0 < body.nodes.len(),
        forall|n: int, n2: int|
            0 <= n < n2 < body.node_order.len() ==> #[trigger] body.node_order[n]
                != #[trigger] body.node_order[n2],
        forall|n: int, j: int, d: DataInst| #[trigger]
            stands_at(body, n, j, d) ==> d.0 < body.insts.len(),
        forall|n: int, j: int, n2: int, j2: int, d: DataInst| #[trigger]
            stands_at(body, n, j, d) && #[trigger] stands_at(body, n2, j2, d) ==> n == n2 && j
                == j2,
        forall|r: int, i: int|
            0 <= r < body.regions.len() && 0 <= i < body.regions[r].inputs.len()
                ==> #[trigger] body.regions[r].inputs[i].0 < n_types,
        forall|r: int, i: int|
            0 <= r < body.regions.len() && 0 <= i < body.regions[r].outputs.len() ==> (
            #[trigger] body.regions[r].outputs[i] matches Value::Const(c) ==> c.0 < n_consts),
        forall|r: int, i: int|
            0 <= r < body.regions.len() && 0 <= i < body.regions[r].exit_inputs.len() ==> (
            #[trigger] body.regions[r].exit_inputs[i] matches Value::Const(c) ==> c.0 < n_consts),
        forall|n: int, i: int|
            0 <= n < body.nodes.len() && 0 <= i < body.nodes[n].outputs.len()
                ==> #[trigger] body.nodes[n].outputs[i].0 < n_types,
        forall|n: int|
            0 <= n < body.nodes.len() ==> match (#[trigger] body.nodes[n]).kind {
                NodeKindView::Block { .. } => true,
                NodeKindView::Select { scrutinee } => is_const_among(scrutinee, n_consts),
                NodeKindView::Loop { initial_inputs, repeat_condition } => {
                    &&& forall|i: int|
                        0 <= i < initial_inputs.len() ==> is_const_among(
                            #[trigger] initial_inputs[i],
                            n_consts,
                        )
                    &&& is_const_among(repeat_condition, n_consts)
                },
                NodeKindView::ExitInvocation { inputs } => forall|i: int|
                    0 <= i < inputs.len() ==> is_const_among(#[trigger] inputs[i], n_consts),
            },
        forall|d: int|
            0 <= d < body.insts.len() ==> {
                let inst = #[trigger] body.insts[d];
                &&& inst.form.output_type is Some ==> (inst.form.output_type->0).0 < n_types
                &&& inst.form.kind matches DataInstKindView::FuncCall(f) ==> f.0 < n_funcs
                &&& forall|i: int|
                    0 <= i < inst.inputs.len() ==> is_const_among(
                        #[trigger] inst.inputs[i],
                        n_consts,
                    )
            },
{
    law_walk(body);
    assert forall|n: int, j: int, d: DataInst| #[trigger] stands_at(body, n, j, d) implies d.0
        < body.insts.len() by {
        assert(body.visits_at(n, j, d));
    }
    assert forall|n: int, j: int, n2: int, j2: int, d: DataInst| #[trigger]
        stands_at(body, n, j, d) && #[trigger] stands_at(body, n2, j2, d) implies n == n2 && j
        == j2 by {
        assert(body.visits_at(n, j, d));
        assert(body.visits_at(n2, j2, d));
    }
    assert forall|r: int, i: int|
        0 <= r < body.regions.len() && 0 <= i < body.regions[r].outputs.len() implies (
    #[trigger] body.regions[r].outputs[i] matches Value::Const(c) ==> c.0 < n_consts) by {
        assert(values_wf(body.regions[r].values(), n_consts));
        assert(body.regions[r].values()[i] == body.regions[r].outputs[i]);
    }
    assert forall|r: int, i: int|
        0 <= r < body.regions.len() && 0 <= i < body.regions[r].exit_inputs.len() implies (
    #[trigger] body.regions[r].exit_inputs[i] matches Value::Const(c) ==> c.0 < n_consts) by {
        assert(values_wf(body.regions[r].values(), n_consts));
        let k = body.regions[r].outputs.len() + i;
        assert(body.regions[r].values()[k] == body.regions[r].exit_inputs[i]);
    }
    assert forall|n: int| 0 <= n < body.nodes.len() implies match (#[trigger] body.nodes[n]).kind {
        NodeKindView::Block { .. } => true,
        NodeKindView::Select { scrutinee } => is_const_among(scrutinee, n_consts),
        NodeKindView::Loop { initial_inputs, repeat_condition } => {
            &&& forall|i: int|
                0 <= i < initial_inputs.len() ==> is_const_among(
                    #[trigger] initial_inputs[i],
                    n_consts,
                )
            &&& is_const_among(repeat_condition, n_consts)
        },
        NodeKindView::ExitInvocation { inputs } => forall|i: int|
            0 <= i < inputs.len() ==> is_const_among(#[trigger] inputs[i], n_consts),
    } by {
        let values = body.nodes[n].values();
        assert(values_wf(values, n_consts));
        match body.nodes[n].kind {
            NodeKindView::Select { scrutinee } => {
                assert(values[0] == scrutinee);
            },
            NodeKindView::Loop { initial_inputs, repeat_condition } => {
                assert(values[initial_inputs.len() as int] == repeat_condition);
                assert forall|i: int| 0 <= i < initial_inputs.len() implies is_const_among(
                    #[trigger] initial_inputs[i],
                    n_consts,
                ) by {
                    assert(values[i] == initial_inputs[i]);
                }
            },
            _ => {},
        }
    }
    assert forall|d: int| 0 <= d < body.insts.len() implies {
        let inst = #[trigger] body.insts[d];
        &&& inst.form.output_type is Some ==> (inst.form.output_type->0).0 < n_types
        &&& inst.form.kind matches DataInstKindView::FuncCall(f) ==> f.0 < n_funcs
        &&& forall|i: int|
            0 <= i < inst.inputs.len() ==> is_const_among(#[trigger] inst.inputs[i], n_consts)
    } by {
        assert(body.insts[d].wf(n_types, n_consts, n_funcs));
    }
}

/// Of a module in order all of this holds.
pub proof fn law_what_modules_in_order_are(m: ModuleView)
    requires
        m.wf(),
    ensures
        m.funcs.len() <= usize::MAX,
        m.cx.types.len() <= usize::MAX,
        m.cx.consts.len() <= usize::MAX,
        forall|i: int, k: int|
            0 <= i < k < m.cx.types.len() ==> #[trigger] m.cx.types[i] != #[trigger] m.cx.types[k],
        forall|i: int, k: int|
            0 <= i < k < m.cx.consts.len() ==> #[trigger] m.cx.consts[i]
                != #[trigger] m.cx.consts[k],
        forall|i: int, k: int|
            0 <= i < k < m.cx.forms.len() ==> #[trigger] m.cx.forms[i] != #[trigger] m.cx.forms[k],
        forall|t: int, i: int|
            0 <= t < m.cx.types.len() && m.cx.types[t].kind is SpvInst && 0 <= i
                < m.cx.types[t].kind->inputs.len() ==> (
            #[trigger] m.cx.types[t].kind->inputs[i] matches TypeOrConst::Type(c) ==> c.0 < t),
        forall|c: int|
            0 <= c < m.cx.consts.len() ==> (#[trigger] m.cx.consts[c]).ty.0 < m.cx.types.len(),
        forall|h: int|
            0 <= h < m.cx.forms.len() ==> {
                let form = #[trigger] m.cx.forms[h];
                &&& form.output_type is Some ==> (form.output_type->0).0 < m.cx.types.len()
                &&& form.kind matches DataInstKindView::FuncCall(f) ==> f.0 < m.funcs.len()
            },
        forall|e: int|
            0 <= e < m.exports.len() ==> {
                let export = #[trigger] m.exports[e];
                &&& export.exportee matches Exportee::GlobalVar(gv) ==> gv.0 < m.global_vars.len()
                &&& export.exportee matches Exportee::Func(f) ==> f.0 < m.funcs.len()
                &&& export.key is SpvEntryPoint ==> forall|i: int|
                    0 <= i < export.key->interface_global_vars.len() ==> (
                    #[trigger] export.key->interface_global_vars[i]).0 < m.global_vars.len()
            },
        forall|f: int|
            0 <= f < m.funcs.len() && m.funcs[f] is Present ==> (#[trigger] m.funcs[f])->0.wf(
                m.cx.types.len() as int,
                m.cx.consts.len() as int,
                m.funcs.len() as int,
            ),
{
    assert forall|h: int| 0 <= h < m.cx.forms.len() implies {
        let form = #[trigger] m.cx.forms[h];
        &&& form.output_type is Some ==> (form.output_type->0).0 < m.cx.types.len()
        &&& form.kind matches DataInstKindView::FuncCall(f) ==> f.0 < m.funcs.len()
    } by {
        assert(m.cx.forms[h].wf(m.cx.types.len() as int, m.funcs.len() as int));
    }
    assert forall|e: int| 0 <= e < m.exports.len() implies {
        let export = #[trigger] m.exports[e];
        &&& export.exportee matches Exportee::GlobalVar(gv) ==> gv.0 < m.global_vars.len()
        &&& export.exportee matches Exportee::Func(f) ==> f.0 < m.funcs.len()
        &&& export.key is SpvEntryPoint ==> forall|i: int|
            0 <= i < export.key->interface_global_vars.len() ==> (
            #[trigger] export.key->interface_global_vars[i]).0 < m.global_vars.len()
    } by {
        assert(m.exports[e].wf(m.funcs.len() as int, m.global_vars.len() as int));
    }
}

/// Whether a module is in order.
pub fn is_well_formed(module: &Module) -> (ok: bool)
    ensures
        ok == module.wf(),
{
    let ghost m = module@;
    let n_funcs = module.funcs.len();
    let n_global_vars = module.global_vars.len();
    assert(m.cx.types.len() == module.cx.types.len());
    assert(m.cx.consts.len() == module.cx.consts.len());
    if !are_types_well_formed(&module.cx) || !are_consts_well_formed(&module.cx)
        || !are_forms_well_formed(&module.cx, n_funcs) {
        return false;
    }
    let mut e: usize = 0;
    while e < module.exports.len()
        invariant
            m == module@,
            n_funcs == m.funcs.len(),
            n_global_vars == m.global_vars.len(),
            e <= m.exports.len(),
            forall|i: int|
                0 <= i < e ==> (#[trigger] m.exports[i]).wf(n_funcs as int, n_global_vars as int),
        decreases m.exports.len() - e,
    {
        assert(m.exports[e as int] == module.exports@[e as int]@);
        if !is_export_well_formed(&module.exports[e], n_funcs, n_global_vars) {
            return false;
        }
        e = e + 1;
    }
    let mut f: usize = 0;
    while f < module.funcs.len()
        invariant
            m == module@,
            m.cx.wf(n_funcs as int),
            n_funcs == m.funcs.len(),
            f <= m.funcs.len(),
            forall|i: int|
                0 <= i < f ==> (#[trigger] m.funcs[i] matches FuncView::Present(body) ==> body.wf(
                    m.cx.types.len() as int,
                    m.cx.consts.len() as int,
                    n_funcs as int,
                )),
            forall|i: int|
                0 <= i < f ==> (#[trigger] module.funcs@[i]).forms_within(m.cx.forms.len() as int),
        decreases m.funcs.len() - f,
    {
        assert(m.funcs[f as int] == module.funcs@[f as int].view_in(m.cx.forms));
        if let FuncDecl::Present(body) = &module.funcs[f] {
            let ghost view = body.view_in(m.cx.forms);
            assert(m.funcs[f as int] == FuncView::Present(view));
            assert(view.nodes.len() == body.control_nodes.len());
            assert(view.insts.len() == body.data_insts.len());
            if !are_forms_within(body, module.cx.forms.len()) {
                assert(!module.funcs@[f as int].forms_within(m.cx.forms.len() as int));
                return false;
            }
            if !are_handles_well_formed(&module.cx, body, n_funcs) || !is_walk_well_formed(
                body,
                Ghost(m.cx.forms),
            ) {
                assert(!view.wf(
                    m.cx.types.len() as int,
                    m.cx.consts.len() as int,
                    n_funcs as int,
                ));
                return false;
            }
        }
        f = f + 1;
    }
    true
}

} // verus!
