//! Tables of interned definitions, and modules built on them.

use crate::ir::{
    Const, ConstDef, ConstDefView, ConstKind, DataInstForm, DataInstFormDef, DataInstKind, Export,
    ExportKeyView, ExportView, Exportee, FormView, Func, FuncDecl, FuncView, GlobalVar,
    GlobalVarDecl, Type, TypeDef, TypeDefView, TypeKind, TypeOrConst,
};
use vstd::prelude::*;

verus! {

/// The interned definitions of a module. No definition occurs twice, so that
/// equal handles and equal definitions are the same thing.
#[derive(Debug)]
pub struct Context {
    pub types: Vec<TypeDef>,
    pub consts: Vec<ConstDef>,
    pub forms: Vec<DataInstFormDef>,
}

/// What a [`Context`] holds.
#[verifier::ext_equal]
pub struct ContextView {
    pub types: Seq<TypeDefView>,
    pub consts: Seq<ConstDefView>,
    pub forms: Seq<FormView>,
}

impl View for Context {
    type V = ContextView;

    open spec fn view(&self) -> ContextView {
        ContextView {
            types: Seq::new(self.types@.len(), |i: int| self.types@[i]@),
            consts: Seq::new(self.consts@.len(), |i: int| self.consts@[i]@),
            forms: Seq::new(self.forms@.len(), |i: int| self.forms@[i]@),
        }
    }
}

/// Types are interned after the types that they are made of.
pub open spec fn types_wf(types: Seq<TypeDefView>) -> bool {
    forall|t: int, i: int|
        0 <= t < types.len() && (#[trigger] types[t]).kind is SpvInst && 0 <= i
            < types[t].kind->inputs.len() ==> (#[trigger] types[t].kind->inputs[i] matches TypeOrConst::Type(
            c,
        ) ==> c.0 < t)
}

impl ContextView {
    /// No definition occurs twice, every handle names an earlier type, a type, or
    /// one of `n_funcs` functions, and there are no more types and constants than
    /// there are handles for.
    pub open spec fn wf(self, n_funcs: int) -> bool {
        &&& self.types.len() <= usize::MAX
        &&& self.consts.len() <= usize::MAX
        &&& self.types.no_duplicates()
        &&& self.consts.no_duplicates()
        &&& self.forms.no_duplicates()
        &&& types_wf(self.types)
        &&& forall|c: int|
            0 <= c < self.consts.len() ==> (#[trigger] self.consts[c]).ty.0 < self.types.len()
        &&& forall|h: int|
            0 <= h < self.forms.len() ==> (#[trigger] self.forms[h]).wf(
                self.types.len() as int,
                n_funcs,
            )
    }
}

/// The table after `def` was interned in it: `table` itself where that has
/// `def`, and else with `def` added at its end.
pub open spec fn interned<T>(table: Seq<T>, def: T) -> Seq<T> {
    if table.contains(def) {
        table
    } else {
        table.push(def)
    }
}

/// Interning keeps every handle, and gives a table without duplicates that has
/// the definition.
pub proof fn lemma_interned<T>(table: Seq<T>, def: T)
    requires
        table.no_duplicates(),
    ensures
        interned(table, def).no_duplicates(),
        interned(table, def).contains(def),
        table.is_prefix_of(interned(table, def)),
        interned(interned(table, def), def) == interned(table, def),
{
    if !table.contains(def) {
        let t = table.push(def);
        assert(t[table.len() as int] == def);
        assert forall|i: int, j: int| 0 <= i < t.len() && 0 <= j < t.len() && i != j implies t[i]
            != t[j] by {
            if i < table.len() && j < table.len() {
                assert(table[i] != table[j]);
            } else if i < table.len() {
                assert(table.contains(table[i]));
            } else {
                assert(table.contains(table[j]));
            }
        }
        assert(table =~= t.subrange(0, table.len() as int));
    } else {
        assert(table =~= table.subrange(0, table.len() as int));
    }
}

/// Interning adds at most one definition, and only one that was not there. Every handle
/// goes on to name what it named, and some handle names the definition.
pub proof fn law_interned<T>(table: Seq<T>, def: T)
    ensures
        table.len() <= interned(table, def).len() <= table.len() + 1,
        forall|i: int| 0 <= i < table.len() ==> #[trigger] interned(table, def)[i] == table[i],
        exists|i: int| 0 <= i < interned(table, def).len() && interned(table, def)[i] == def,
        (exists|i: int| 0 <= i < table.len() && table[i] == def) ==> interned(table, def).len()
            == table.len(),
{
    if table.contains(def) {
        let i = table.index_of(def);
        assert(interned(table, def)[i] == def);
    } else {
        assert(interned(table, def)[table.len() as int] == def);
        if exists|i: int| 0 <= i < table.len() && table[i] == def {
            let i = choose|i: int| 0 <= i < table.len() && table[i] == def;
            assert(table.contains(table[i]));
        }
    }
}

/// Interning a form that is in order keeps everything in order.
pub proof fn lemma_interned_form_wf(
    before: ContextView,
    after: ContextView,
    form: FormView,
    n_funcs: int,
)
    requires
        before.wf(n_funcs),
        form.wf(before.types.len() as int, n_funcs),
        after.types == before.types,
        after.consts == before.consts,
        after.forms == interned(before.forms, form),
    ensures
        after.wf(n_funcs),
        before.forms.is_prefix_of(after.forms),
{
    lemma_interned(before.forms, form);
    assert forall|h: int| 0 <= h < after.forms.len() implies (#[trigger] after.forms[h]).wf(
        after.types.len() as int,
        n_funcs,
    ) by {
        if h < before.forms.len() {
            assert(after.forms[h] == before.forms[h]);
        }
    }
}

fn same_type_inputs(a: &Vec<TypeOrConst>, b: &Vec<TypeOrConst>) -> (same: bool)
    ensures
        same == (a@ == b@),
{
    if a.len() != b.len() {
        return false;
    }
    let mut i: usize = 0;
    while i < a.len()
        invariant
            a@.len() == b@.len(),
            i <= a@.len(),
            forall|j: int| 0 <= j < i ==> a@[j] == b@[j],
        decreases a@.len() - i,
    {
        if a[i] != b[i] {
            return false;
        }
        i = i + 1;
    }
    assert(a@ =~= b@);
    true
}

fn same_const_inputs(a: &Vec<Const>, b: &Vec<Const>) -> (same: bool)
    ensures
        same == (a@ == b@),
{
    if a.len() != b.len() {
        return false;
    }
    let mut i: usize = 0;
    while i < a.len()
        invariant
            a@.len() == b@.len(),
            i <= a@.len(),
            forall|j: int| 0 <= j < i ==> a@[j] == b@[j],
        decreases a@.len() - i,
    {
        if a[i] != b[i] {
            return false;
        }
        i = i + 1;
    }
    assert(a@ =~= b@);
    true
}

/// Whether two optional types are the same.
pub fn same_output_type(a: Option<Type>, b: Option<Type>) -> (same: bool)
    ensures
        same == (a == b),
{
    match (a, b) {
        (Some(a), Some(b)) => a == b,
        (None, None) => true,
        _ => false,
    }
}

impl TypeDef {
    /// Whether two definitions are the same.
    pub fn same_as(&self, other: &TypeDef) -> (same: bool)
        ensures
            same == (self@ == other@),
    {
        if self.attrs != other.attrs {
            return false;
        }
        match (&self.kind, &other.kind) {
            (TypeKind::QPtr, TypeKind::QPtr) => true,
            (
                TypeKind::SpvInst { spv_inst: a, type_and_const_inputs: a_inputs },
                TypeKind::SpvInst { spv_inst: b, type_and_const_inputs: b_inputs },
            ) => a.same_as(b) && same_type_inputs(a_inputs, b_inputs),
            (TypeKind::SpvStringLiteralForExtInst, TypeKind::SpvStringLiteralForExtInst) => true,
            _ => false,
        }
    }
}

impl ConstDef {
    /// Whether two definitions are the same.
    pub fn same_as(&self, other: &ConstDef) -> (same: bool)
        ensures
            same == (self@ == other@),
    {
        if self.attrs != other.attrs || self.ty != other.ty {
            return false;
        }
        match (&self.kind, &other.kind) {
            (ConstKind::PtrToGlobalVar(a), ConstKind::PtrToGlobalVar(b)) => *a == *b,
            (
                ConstKind::SpvInst { spv_inst: a, const_inputs: a_inputs },
                ConstKind::SpvInst { spv_inst: b, const_inputs: b_inputs },
            ) => a.same_as(b) && same_const_inputs(a_inputs, b_inputs),
            (
                ConstKind::SpvStringLiteralForExtInst(a),
                ConstKind::SpvStringLiteralForExtInst(b),
            ) => *a == *b,
            _ => false,
        }
    }
}

impl DataInstFormDef {
    /// Whether two definitions are the same.
    pub fn same_as(&self, other: &DataInstFormDef) -> (same: bool)
        ensures
            same == (self@ == other@),
    {
        if !same_output_type(self.output_type, other.output_type) {
            return false;
        }
        match (&self.kind, &other.kind) {
            (DataInstKind::FuncCall(a), DataInstKind::FuncCall(b)) => *a == *b,
            (DataInstKind::QPtr(a), DataInstKind::QPtr(b)) => *a == *b,
            (DataInstKind::SpvInst(a), DataInstKind::SpvInst(b)) => a.same_as(b),
            (
                DataInstKind::SpvExtInst { ext_set: a_set, inst: a },
                DataInstKind::SpvExtInst { ext_set: b_set, inst: b },
            ) => *a_set == *b_set && *a == *b,
            _ => false,
        }
    }
}

impl Context {
    /// The handle of `def`, which is added to the types where it is not yet one
    /// of them.
    pub fn intern_type(&mut self, def: TypeDef) -> (ty: Type)
        ensures
            final(self)@.types == interned(old(self)@.types, def@),
            final(self)@.consts == old(self)@.consts,
            final(self)@.forms == old(self)@.forms,
            ty.0 < final(self)@.types.len(),
            final(self)@.types[ty.0 as int] == def@,
    {
        let mut i: usize = 0;
        while i < self.types.len()
            invariant
                *self == *old(self),
                i <= self.types@.len(),
                forall|j: int| 0 <= j < i ==> self.types@[j]@ != def@,
            decreases self.types@.len() - i,
        {
            if self.types[i].same_as(&def) {
                assert(self@.types[i as int] == def@);
                return Type(i);
            }
            i = i + 1;
        }
        assert(!self@.types.contains(def@));
        self.types.push(def);
        assert(self@.types =~= old(self)@.types.push(def@));
        Type(i)
    }

    /// The handle of `def`, which is added to the constants where it is not yet
    /// one of them.
    pub fn intern_const(&mut self, def: ConstDef) -> (c: Const)
        ensures
            final(self)@.types == old(self)@.types,
            final(self)@.consts == interned(old(self)@.consts, def@),
            final(self)@.forms == old(self)@.forms,
            c.0 < final(self)@.consts.len(),
            final(self)@.consts[c.0 as int] == def@,
    {
        let mut i: usize = 0;
        while i < self.consts.len()
            invariant
                *self == *old(self),
                i <= self.consts@.len(),
                forall|j: int| 0 <= j < i ==> self.consts@[j]@ != def@,
            decreases self.consts@.len() - i,
        {
            if self.consts[i].same_as(&def) {
                assert(self@.consts[i as int] == def@);
                return Const(i);
            }
            i = i + 1;
        }
        assert(!self@.consts.contains(def@));
        self.consts.push(def);
        assert(self@.consts =~= old(self)@.consts.push(def@));
        Const(i)
    }

    /// The handle of `def`, which is added to the forms where it is not yet one
    /// of them.
    pub fn intern_form(&mut self, def: DataInstFormDef) -> (form: DataInstForm)
        ensures
            final(self)@.types == old(self)@.types,
            final(self)@.consts == old(self)@.consts,
            final(self)@.forms == interned(old(self)@.forms, def@),
            form.0 < final(self)@.forms.len(),
            final(self)@.forms[form.0 as int] == def@,
    {
        let mut i: usize = 0;
        while i < self.forms.len()
            invariant
                *self == *old(self),
                i <= self.forms@.len(),
                forall|j: int| 0 <= j < i ==> self.forms@[j]@ != def@,
            decreases self.forms@.len() - i,
        {
            if self.forms[i].same_as(&def) {
                assert(self@.forms[i as int] == def@);
                return DataInstForm(i);
            }
            i = i + 1;
        }
        assert(!self@.forms.contains(def@));
        self.forms.push(def);
        assert(self@.forms =~= old(self)@.forms.push(def@));
        DataInstForm(i)
    }
}

/// A shader module.
#[derive(Debug)]
pub struct Module {
    pub cx: Context,
    pub exports: Vec<Export>,
    pub global_vars: Vec<GlobalVarDecl>,
    pub funcs: Vec<FuncDecl>,
}

/// What a [`Module`] holds, the forms of its instructions resolved.
#[verifier::ext_equal]
pub struct ModuleView {
    pub cx: ContextView,
    pub exports: Seq<ExportView>,
    pub global_vars: Seq<GlobalVarDecl>,
    pub funcs: Seq<FuncView>,
}

impl View for Module {
    type V = ModuleView;

    open spec fn view(&self) -> ModuleView {
        ModuleView {
            cx: self.cx@,
            exports: Seq::new(self.exports@.len(), |i: int| self.exports@[i]@),
            global_vars: self.global_vars@,
            funcs: Seq::new(
                self.funcs@.len(),
                |f: int| self.funcs@[f].view_in(self.cx@.forms),
            ),
        }
    }
}

impl ExportView {
    /// Every handle names one of the functions or global variables.
    pub open spec fn wf(self, n_funcs: int, n_global_vars: int) -> bool {
        &&& match self.exportee {
            Exportee::GlobalVar(gv) => gv.0 < n_global_vars,
            Exportee::Func(func) => func.0 < n_funcs,
        }
        &&& self.key matches ExportKeyView::SpvEntryPoint { interface_global_vars } ==> (forall|
            i: int,
        |
            0 <= i < interface_global_vars.len() ==> #[trigger] interface_global_vars[i].0
                < n_global_vars)
    }
}

impl ModuleView {
    /// Every handle names an entry of its table, which is no longer than there are
    /// handles, and every function body is in order.
    pub open spec fn wf(self) -> bool {
        &&& self.funcs.len() <= usize::MAX
        &&& self.cx.wf(self.funcs.len() as int)
        &&& forall|e: int|
            0 <= e < self.exports.len() ==> (#[trigger] self.exports[e]).wf(
                self.funcs.len() as int,
                self.global_vars.len() as int,
            )
        &&& forall|f: int|
            0 <= f < self.funcs.len() ==> (#[trigger] self.funcs[f] matches FuncView::Present(body)
                ==> body.wf(
                self.cx.types.len() as int,
                self.cx.consts.len() as int,
                self.funcs.len() as int,
            ))
    }
}

impl Module {
    /// The module is in order, and so is every handle of a form.
    pub open spec fn wf(&self) -> bool {
        &&& self@.wf()
        &&& forall|f: int|
            0 <= f < self.funcs@.len() ==> (#[trigger] self.funcs@[f]).forms_within(
                self.cx@.forms.len() as int,
            )
    }
}

} // verus!
