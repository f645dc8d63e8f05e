//! Name resolution: what a name means at a point of a function body.
//!
//! A scope is a snapshot of the chain of bindings visible at one point: the
//! frame slots of the function being compiled, then the functions callable
//! from it, nearest first.

use crate::chars::{lemma_mangle_injective, lemma_mangle_no_dot, mangle};
use crate::lower::{bind_names, binds_wf, has_name};
use crate::program::{strs, ExprV};
use vstd::prelude::*;

verus! {

/// Mathematical value of a callable function in scope.
pub struct FnEntryV {
    pub name: Seq<char>,
    pub label: Seq<char>,
    pub arity: nat,
}

/// A callable function in scope: its name, the label of its code, and the
/// number of its parameters.
#[derive(Debug, PartialEq)]
pub struct FnEntry {
    pub name: String,
    pub label: String,
    pub arity: usize,
}

impl View for FnEntry {
    type V = FnEntryV;

    open spec fn view(&self) -> FnEntryV {
        FnEntryV { name: self.name@, label: self.label@, arity: self.arity as nat }
    }
}

/// The views of a sequence of function entries.
pub open spec fn entryvs(v: Seq<FnEntry>) -> Seq<FnEntryV> {
    Seq::new(v.len(), |i: int| v[i]@)
}

/// Mathematical value of a scope.
pub struct ScopeV {
    /// The names of the frame slots, slot 0 first.
    pub locals: Seq<Seq<char>>,
    /// The functions in scope, nearest first.
    pub funcs: Seq<FnEntryV>,
}

/// The bindings visible at one point of a function body. The parameters
/// and the value bindings made so far name the frame slots in order; the
/// functions are the sibling definitions, then those of the enclosing
/// scopes outward, then the program's functions.
#[derive(Debug, PartialEq)]
pub struct Scope {
    pub locals: Vec<String>,
    pub funcs: Vec<FnEntry>,
}

impl View for Scope {
    type V = ScopeV;

    open spec fn view(&self) -> ScopeV {
        ScopeV { locals: strs(self.locals@), funcs: entryvs(self.funcs@) }
    }
}

/// Mathematical value of what a name resolves to.
pub enum PlaceV {
    /// The frame slot with this index.
    Slot(nat),
    /// The function with this label and this number of parameters.
    Code(Seq<char>, nat),
}

/// What a name resolves to.
#[derive(Debug, PartialEq)]
pub enum Place {
    Slot(usize),
    Code(String, usize),
}

impl View for Place {
    type V = PlaceV;

    open spec fn view(&self) -> PlaceV {
        match self {
            Place::Slot(k) => PlaceV::Slot(*k as nat),
            Place::Code(label, arity) => PlaceV::Code(label@, *arity as nat),
        }
    }
}

/// The first slot from `from` on that has the name.
pub open spec fn find_local(locals: Seq<Seq<char>>, name: Seq<char>, from: int) -> Option<int>
    decreases locals.len() - from,
{
    if from < 0 || from >= locals.len() {
        None
    } else if locals[from] == name {
        Some(from)
    } else {
        find_local(locals, name, from + 1)
    }
}

/// The first function from `from` on that has the name.
pub open spec fn find_func(funcs: Seq<FnEntryV>, name: Seq<char>, from: int) -> Option<FnEntryV>
    decreases funcs.len() - from,
{
    if from < 0 || from >= funcs.len() {
        None
    } else if funcs[from].name == name {
        Some(funcs[from])
    } else {
        find_func(funcs, name, from + 1)
    }
}

/// What `name` means in scope `s`: the first frame slot of that name, else
/// the nearest function of that name, else nothing.
pub open spec fn resolve(s: ScopeV, name: Seq<char>) -> Option<PlaceV> {
    match find_local(s.locals, name, 0) {
        Some(k) => Some(PlaceV::Slot(k as nat)),
        None => match find_func(s.funcs, name, 0) {
            Some(e) => Some(PlaceV::Code(e.label, e.arity)),
            None => None,
        },
    }
}

impl Scope {
    /// Resolves a name in this scope.
    pub fn resolve(&self, name: &String) -> (r: Option<Place>)
        ensures
            match r {
                Some(p) => resolve(self@, name@) == Some(p@),
                None => resolve(self@, name@) is None,
            },
    {
        let mut i: usize = 0;
        while i < self.locals.len()
            invariant
                i <= self.locals.len(),
                find_local(self@.locals, name@, 0) == find_local(self@.locals, name@, i as int),
            decreases self.locals.len() - i,
        {
            if self.locals[i] == *name {
                return Some(Place::Slot(i));
            }
            i += 1;
        }
        let mut j: usize = 0;
        while j < self.funcs.len()
            invariant
                j <= self.funcs.len(),
                find_local(self@.locals, name@, 0) is None,
                find_func(self@.funcs, name@, 0) == find_func(self@.funcs, name@, j as int),
            decreases self.funcs.len() - j,
        {
            if self.funcs[j].name == *name {
                return Some(Place::Code(self.funcs[j].label.clone(), self.funcs[j].arity));
            }
            j += 1;
        }
        None
    }
}

/// The label of the function `name` defined inside the function labelled
/// `parent`.
pub open spec fn child_label(parent: Seq<char>, name: Seq<char>) -> Seq<char> {
    parent + "."@ + mangle(name)
}

/// The names of the value bindings among the first `n` bindings, in order.
pub open spec fn values(bs: Seq<(Seq<char>, ExprV)>, n: nat) -> Seq<Seq<char>>
    decreases n,
{
    if n == 0 || n > bs.len() {
        Seq::empty()
    } else if bs[n - 1].1 is Func {
        values(bs, (n - 1) as nat)
    } else {
        values(bs, (n - 1) as nat).push(bs[n - 1].0)
    }
}

/// The functions defined among the first `n` bindings of the function
/// labelled `label`, in order.
pub open spec fn sibling_fns(bs: Seq<(Seq<char>, ExprV)>, n: nat, label: Seq<char>) -> Seq<
    FnEntryV,
>
    decreases n,
{
    if n == 0 || n > bs.len() {
        Seq::empty()
    } else {
        match bs[n - 1].1 {
            ExprV::Func(g) => sibling_fns(bs, (n - 1) as nat, label).push(
                FnEntryV {
                    name: bs[n - 1].0,
                    label: child_label(label, bs[n - 1].0),
                    arity: g.params.len(),
                },
            ),
            _ => sibling_fns(bs, (n - 1) as nat, label),
        }
    }
}

/// The scope in which binding `j` of a function is evaluated (`j` is the
/// number of bindings for the trailing expression): the parameters and the
/// value bindings before `j` are the frame slots; the functions are all the
/// function's own nested definitions, then `outer`.
pub open spec fn scope_at(
    params: Seq<Seq<char>>,
    bs: Seq<(Seq<char>, ExprV)>,
    j: nat,
    label: Seq<char>,
    outer: Seq<FnEntryV>,
) -> ScopeV {
    ScopeV { locals: params + values(bs, j), funcs: sibling_fns(bs, bs.len(), label) + outer }
}

proof fn lemma_find_local_first(locals: Seq<Seq<char>>, name: Seq<char>, from: int)
    requires
        0 <= from,
    ensures
        match find_local(locals, name, from) {
            Some(k) => from <= k < locals.len() && locals[k] == name && forall|i: int|
                from <= i < k ==> locals[i] != name,
            None => forall|i: int| from <= i < locals.len() ==> locals[i] != name,
        },
    decreases locals.len() - from,
{
    if from < locals.len() && locals[from] != name {
        lemma_find_local_first(locals, name, from + 1);
    }
}

proof fn lemma_find_func_first(funcs: Seq<FnEntryV>, name: Seq<char>, from: int)
    requires
        0 <= from,
    ensures
        match find_func(funcs, name, from) {
            Some(e) => exists|k: int|
                from <= k < funcs.len() && funcs[k] == e && e.name == name && forall|i: int|
                    from <= i < k ==> funcs[i].name != name,
            None => forall|i: int| from <= i < funcs.len() ==> funcs[i].name != name,
        },
    decreases funcs.len() - from,
{
    if from < funcs.len() && funcs[from].name != name {
        lemma_find_func_first(funcs, name, from + 1);
        if let Some(e) = find_func(funcs, name, from + 1) {
            let k = choose|k: int|
                from + 1 <= k < funcs.len() && funcs[k] == e && e.name == name && forall|i: int|
                    from + 1 <= i < k ==> funcs[i].name != name;
            assert(from <= k < funcs.len() && funcs[k] == e && e.name == name && forall|i: int|
                from <= i < k ==> funcs[i].name != name);
        }
    } else if from < funcs.len() {
        assert(from <= from < funcs.len() && funcs[from] == funcs[from] && forall|i: int|
            from <= i < from ==> funcs[i].name != name);
    }
}

/// A name resolves to the nearest binding of that name: the first frame
/// slot that has it, parameters before value bindings; failing that, the
/// first function that has it, inner definitions before outer ones; and to
/// nothing only if nothing in scope has the name.
pub proof fn lemma_resolve_nearest(s: ScopeV, name: Seq<char>)
    ensures
        match resolve(s, name) {
            Some(PlaceV::Slot(k)) => {
                &&& k < s.locals.len()
                &&& s.locals[k as int] == name
                &&& forall|i: int| 0 <= i < k ==> s.locals[i] != name
            },
            Some(PlaceV::Code(label, arity)) => {
                &&& forall|i: int| 0 <= i < s.locals.len() ==> s.locals[i] != name
                &&& exists|k: int|
                    {
                        &&& 0 <= k < s.funcs.len()
                        &&& s.funcs[k] == (FnEntryV { name, label, arity })
                        &&& forall|i: int| 0 <= i < k ==> s.funcs[i].name != name
                    }
            },
            None => {
                &&& forall|i: int| 0 <= i < s.locals.len() ==> s.locals[i] != name
                &&& forall|i: int| 0 <= i < s.funcs.len() ==> s.funcs[i].name != name
            },
        },
{
    lemma_find_local_first(s.locals, name, 0);
    lemma_find_func_first(s.funcs, name, 0);
    if find_local(s.locals, name, 0) is None {
        if let Some(e) = find_func(s.funcs, name, 0) {
            let k = choose|k: int|
                0 <= k < s.funcs.len() && s.funcs[k] == e && e.name == name && forall|i: int|
                    0 <= i < k ==> s.funcs[i].name != name;
            assert(s.funcs[k] == (FnEntryV { name, label: e.label, arity: e.arity }));
        }
    }
}

proof fn lemma_values_insert(bs: Seq<(Seq<char>, ExprV)>, k: int, b: (Seq<char>, ExprV), n: nat)
    requires
        0 <= n <= k <= bs.len(),
    ensures
        values(bs.insert(k, b), n) == values(bs, n),
    decreases n,
{
    if n > 0 {
        lemma_values_insert(bs, k, b, (n - 1) as nat);
        assert(bs.insert(k, b)[n - 1] == bs[n - 1]);
    }
}

proof fn lemma_siblings_insert(
    bs: Seq<(Seq<char>, ExprV)>,
    k: int,
    b: (Seq<char>, ExprV),
    n: nat,
    label: Seq<char>,
)
    requires
        0 <= k <= bs.len(),
        n <= bs.len(),
        !(b.1 is Func),
    ensures
        sibling_fns(bs.insert(k, b), if n < k {
            n
        } else {
            n + 1
        }, label) == sibling_fns(bs, n, label),
    decreases n,
{
    let bs2 = bs.insert(k, b);
    if n == 0 {
        if k == 0 {
            assert(bs2[0] == b);
            assert(sibling_fns(bs2, 1, label) == sibling_fns(bs2, 0, label));
        }
    } else {
        lemma_siblings_insert(bs, k, b, (n - 1) as nat, label);
        if n <= k {
            assert(bs2[n - 1] == bs[n - 1]);
            if n == k {
                assert(bs2[n as int] == b);
                assert(sibling_fns(bs2, (n + 1) as nat, label) == sibling_fns(bs2, n, label));
            }
        } else {
            assert(bs2[n as int] == bs[n - 1]);
        }
    }
}

/// A value binding made later does not change what a name means earlier:
/// putting a value binding at position `k` of a body leaves the scope of
/// every point `j <= k` as it was. So a name that is rebound further down,
/// or inside a nested function, still resolves as before where it was used
/// above.
pub proof fn lemma_later_binding_invisible(
    params: Seq<Seq<char>>,
    bs: Seq<(Seq<char>, ExprV)>,
    j: nat,
    k: int,
    b: (Seq<char>, ExprV),
    label: Seq<char>,
    outer: Seq<FnEntryV>,
    name: Seq<char>,
)
    requires
        j <= k <= bs.len(),
        !(b.1 is Func),
    ensures
        scope_at(params, bs.insert(k, b), j, label, outer) == scope_at(params, bs, j, label, outer),
        resolve(scope_at(params, bs.insert(k, b), j, label, outer), name) == resolve(
            scope_at(params, bs, j, label, outer),
            name,
        ),
{
    lemma_values_insert(bs, k, b, j);
    lemma_siblings_insert(bs, k, b, bs.len(), label);
}


/// Labels do not collide: two nested functions have the same label only if
/// they have the same name and their parents the same label. So functions
/// of different scopes, and differently named functions of one scope, get
/// different labels.
pub proof fn lemma_child_label_injective(
    parent: Seq<char>,
    name: Seq<char>,
    other_parent: Seq<char>,
    other_name: Seq<char>,
)
    requires
        child_label(parent, name) == child_label(other_parent, other_name),
    ensures
        parent == other_parent,
        name == other_name,
{
    reveal_strlit(".");
    assert("."@ =~= seq!['.']);
    let l = child_label(parent, name);
    let r = child_label(other_parent, other_name);
    assert(l =~= parent + seq!['.'] + mangle(name));
    assert(r =~= other_parent + seq!['.'] + mangle(other_name));
    assert(l.len() == parent.len() + 1 + mangle(name).len());
    assert(r.len() == other_parent.len() + 1 + mangle(other_name).len());
    lemma_mangle_no_dot(name, 0);
    lemma_mangle_no_dot(other_name, 0);
    let p = parent.len() as int;
    let q = other_parent.len() as int;
    assert(l[p] == '.');
    assert(r[q] == '.');
    if p < q {
        assert(l[q] == mangle(name)[q - p - 1]);
        assert(false);
    }
    if q < p {
        assert(r[p] == mangle(other_name)[p - q - 1]);
        assert(false);
    }
    assert(parent =~= l.take(p));
    assert(other_parent =~= r.take(q));
    assert(mangle(name) =~= l.skip(p + 1));
    assert(mangle(other_name) =~= r.skip(q + 1));
    lemma_mangle_injective(name, other_name);
}


proof fn lemma_sibling_names(bs: Seq<(Seq<char>, ExprV)>, n: nat, label: Seq<char>)
    requires
        n <= bs.len(),
    ensures
        forall|i: int|
            0 <= i < sibling_fns(bs, n, label).len() ==> {
                &&& has_name(bind_names(bs).take(n as int), 0, (#[trigger] sibling_fns(
                    bs,
                    n,
                    label,
                )[i]).name)
                &&& sibling_fns(bs, n, label)[i].label == child_label(
                    label,
                    sibling_fns(bs, n, label)[i].name,
                )
            },
    decreases n,
{
    if n > 0 {
        lemma_sibling_names(bs, (n - 1) as nat, label);
        let prev = sibling_fns(bs, (n - 1) as nat, label);
        let names = bind_names(bs);
        assert forall|i: int| 0 <= i < sibling_fns(bs, n, label).len() implies has_name(
            names.take(n as int),
            0,
            (#[trigger] sibling_fns(bs, n, label)[i]).name,
        ) by {
            let e = sibling_fns(bs, n, label)[i];
            if i < prev.len() {
                assert(e == prev[i]);
                let k = choose|k: int|
                    0 <= k < names.take(n - 1).len() && #[trigger] names.take(n - 1)[k] == e.name;
                assert(names.take(n as int)[k] == e.name);
            } else {
                assert(names.take(n as int)[n - 1] == e.name);
            }
        }
    }
}

/// The functions nested in a well-formed function get different labels.
pub proof fn lemma_sibling_labels_distinct(bs: Seq<(Seq<char>, ExprV)>, n: nat, label: Seq<char>)
    requires
        n <= bs.len(),
        binds_wf(bs, n),
    ensures
        forall|i: int, j: int|
            0 <= i < j < sibling_fns(bs, n, label).len() ==> sibling_fns(bs, n, label)[i].label
                != sibling_fns(bs, n, label)[j].label,
    decreases n,
{
    if n > 0 {
        lemma_sibling_labels_distinct(bs, (n - 1) as nat, label);
        lemma_sibling_names(bs, (n - 1) as nat, label);
        lemma_sibling_names(bs, n, label);
        let prev = sibling_fns(bs, (n - 1) as nat, label);
        let all = sibling_fns(bs, n, label);
        assert forall|i: int, j: int| 0 <= i < j < all.len() implies all[i].label
            != all[j].label by {
            assert(all[i] == prev[i]);
            if j < prev.len() {
                assert(all[j] == prev[j]);
            } else {
                assert(all[j].name == bs[n - 1].0);
                assert(has_name(bind_names(bs).take(n - 1), 0, prev[i].name));
                if all[i].label == all[j].label {
                    lemma_child_label_injective(label, all[i].name, label, all[j].name);
                }
            }
        }
    }
}

proof fn lemma_find_func_outer(
    inner: Seq<FnEntryV>,
    outer: Seq<FnEntryV>,
    name: Seq<char>,
    j: int,
)
    requires
        0 <= j,
    ensures
        find_func(inner + outer, name, inner.len() + j) == find_func(outer, name, j),
    decreases outer.len() - j,
{
    if j < outer.len() {
        assert((inner + outer)[inner.len() + j] == outer[j]);
        lemma_find_func_outer(inner, outer, name, j + 1);
    }
}

proof fn lemma_find_func_inner(
    inner: Seq<FnEntryV>,
    outer: Seq<FnEntryV>,
    name: Seq<char>,
    i: int,
)
    requires
        0 <= i <= inner.len(),
    ensures
        find_func(inner + outer, name, i) == (match find_func(inner, name, i) {
            Some(e) => Some(e),
            None => find_func(outer, name, 0),
        }),
    decreases inner.len() - i,
{
    if i < inner.len() {
        assert((inner + outer)[i] == inner[i]);
        lemma_find_func_inner(inner, outer, name, i + 1);
    } else {
        lemma_find_func_outer(inner, outer, name, 0);
    }
}

/// Inner definitions come before outer ones: among the functions of a
/// scope followed by those of the scopes around it, a name means the inner
/// function if there is one, else what it means outside.
pub proof fn lemma_find_func_chain(inner: Seq<FnEntryV>, outer: Seq<FnEntryV>, name: Seq<char>)
    ensures
        find_func(inner + outer, name, 0) == (match find_func(inner, name, 0) {
            Some(e) => Some(e),
            None => find_func(outer, name, 0),
        }),
{
    lemma_find_func_inner(inner, outer, name, 0);
}

} // verus!
