//! The rules that turn a syntax tree into the program model, stated over
//! the mathematical values of both.

use crate::parse::{default_src, Ast, Sexp};
use crate::program::{ExprV, FuncV, ProgramV};
use vstd::prelude::*;

verus! {

/// Why a syntax tree could not be lowered.
#[derive(Clone, Copy, Debug, PartialEq, Eq)]
pub enum LowerKind {
    /// A body with no expression in it.
    EmptyBlock,
    /// Something that is not a list stands before the last element of a body.
    EarlyExpr,
    /// A binding list that does not start with `let` or `def`.
    BadBinding,
    /// A `let` list that does not have exactly three elements, as a binding
    /// or at the end of a body.
    LetArity,
    /// The name of a `let` is not a symbol.
    LetName,
    /// A `def` without a non-empty list of name and parameters.
    DefHeader,
    /// An element of a `def` header is not a symbol.
    ParamNotSymbol,
    /// A parameter name occurs twice in one header.
    DuplicateParam,
    /// A binding takes a name that a sibling binding or the entry function
    /// already has.
    DuplicateName,
    /// A `def` list where an expression is expected.
    DefNotExpr,
    /// A list whose first element is not a symbol.
    NonSymbolHead,
    /// An empty list where an expression is expected.
    EmptyApp,
    /// A float or string literal, which cannot be compiled.
    Unsupported,
}

/// Mathematical value of a lowering failure.
pub struct LowerErrorV {
    pub kind: LowerKind,
    pub node: Option<Sexp>,
}

/// A lowering failure: what went wrong and the construct at fault.
#[derive(Debug, PartialEq)]
pub struct LowerError {
    pub kind: LowerKind,
    pub node: Option<Ast>,
}

impl View for LowerError {
    type V = LowerErrorV;

    open spec fn view(&self) -> LowerErrorV {
        LowerErrorV {
            kind: self.kind,
            node: match self.node {
                Some(a) => Some(a@),
                None => None,
            },
        }
    }
}

/// The failure of the given kind at the given construct.
pub open spec fn fail(kind: LowerKind, node: Sexp) -> LowerErrorV {
    LowerErrorV { kind, node: Some(node) }
}

/// The name of the entry function.
pub open spec fn entry_name() -> Seq<char> {
    "main"@
}

/// Whether one of the names `names[from..]` is `s`.
pub open spec fn has_name(names: Seq<Seq<char>>, from: int, s: Seq<char>) -> bool {
    exists|k: int| from <= k < names.len() && #[trigger] names[k] == s
}

/// Whether one of the bindings `bs` has the name `s`.
pub open spec fn bound(bs: Seq<(Seq<char>, ExprV)>, s: Seq<char>) -> bool {
    exists|k: int| 0 <= k < bs.len() && (#[trigger] bs[k]).0 == s
}

/// The names that the first `n` elements of a `def` header give: the
/// function's name, then its parameters. Every element must be a symbol and
/// no parameter may occur twice.
pub open spec fn header_names(hs: Seq<Sexp>, n: nat) -> Result<Seq<Seq<char>>, LowerErrorV>
    decreases n,
{
    if n == 0 || n > hs.len() {
        Ok(Seq::empty())
    } else {
        match header_names(hs, (n - 1) as nat) {
            Err(e) => Err(e),
            Ok(names) => match hs[n - 1] {
                Sexp::Sym(s, _) => if has_name(names, 1, s) {
                    Err(fail(LowerKind::DuplicateParam, hs[n - 1]))
                } else {
                    Ok(names.push(s))
                },
                _ => Err(fail(LowerKind::ParamNotSymbol, hs[n - 1])),
            },
        }
    }
}

/// Lowers a tree in expression position: an integer literal is a constant,
/// a symbol a variable reference, and a list headed by a symbol other than
/// `def` a call of that symbol on the rest of the list.
pub open spec fn lower_expr(a: Sexp) -> Result<ExprV, LowerErrorV>
    decreases a, 0nat, 0nat,
{
    match a {
        Sexp::Int(n, _) => Ok(ExprV::I64(n)),
        Sexp::Sym(s, _) => Ok(ExprV::Var(s)),
        Sexp::Float(_, _) => Err(fail(LowerKind::Unsupported, a)),
        Sexp::Str(_, _) => Err(fail(LowerKind::Unsupported, a)),
        Sexp::List(items) => if items.len() == 0 {
            Err(fail(LowerKind::EmptyApp, a))
        } else {
            match items[0] {
                Sexp::Sym(name, _) => if name == "def"@ {
                    Err(fail(LowerKind::DefNotExpr, a))
                } else {
                    match lower_args(items, items.len()) {
                        Ok(args) => Ok(ExprV::Call(name, args)),
                        Err(e) => Err(e),
                    }
                },
                _ => Err(fail(LowerKind::NonSymbolHead, items[0])),
            }
        },
    }
}

/// Lowers the arguments `items[1..n]` of a call, left to right.
pub open spec fn lower_args(items: Seq<Sexp>, n: nat) -> Result<Seq<ExprV>, LowerErrorV>
    decreases items, 0nat, n,
{
    if n <= 1 || n > items.len() {
        Ok(Seq::empty())
    } else {
        match lower_args(items, (n - 1) as nat) {
            Err(e) => Err(e),
            Ok(args) => match lower_expr(items[n - 1]) {
                Err(e) => Err(e),
                Ok(x) => Ok(args.push(x)),
            },
        }
    }
}

/// Lowers the elements of one binding list: `let name expr`, or
/// `def (name params...) body...`.
pub open spec fn lower_bind(inner: Seq<Sexp>) -> Result<(Seq<char>, ExprV), LowerErrorV>
    decreases inner, 3nat, 0nat,
{
    let whole = Sexp::List(inner);
    if inner.len() == 0 {
        Err(fail(LowerKind::BadBinding, whole))
    } else {
        match inner[0] {
            Sexp::Sym(head, _) => if head == "let"@ {
                if inner.len() != 3 {
                    Err(fail(LowerKind::LetArity, whole))
                } else {
                    match inner[1] {
                        Sexp::Sym(name, _) => match lower_expr(inner[2]) {
                            Ok(e) => Ok((name, e)),
                            Err(e) => Err(e),
                        },
                        _ => Err(fail(LowerKind::LetName, inner[1])),
                    }
                }
            } else if head == "def"@ {
                match lower_func_at(inner, 1) {
                    Ok(f) => Ok((f.name->Some_0, ExprV::Func(Box::new(f)))),
                    Err(e) => Err(e),
                }
            } else {
                Err(fail(LowerKind::BadBinding, whole))
            },
            _ => Err(fail(LowerKind::BadBinding, whole)),
        }
    }
}

/// Lowers a function whose header is `items[h]` and whose body is the
/// elements after it.
pub open spec fn lower_func_at(items: Seq<Sexp>, h: nat) -> Result<FuncV, LowerErrorV>
    decreases items, 2nat, 0nat,
{
    if h >= items.len() {
        Err(fail(LowerKind::DefHeader, Sexp::List(items)))
    } else {
        match items[h as int] {
            Sexp::List(hs) => if hs.len() == 0 {
                Err(fail(LowerKind::DefHeader, items[h as int]))
            } else {
                match header_names(hs, hs.len()) {
                    Err(e) => Err(e),
                    Ok(names) => match lower_block(items, h + 1, None) {
                        Err(e) => Err(e),
                        Ok((binds, ret)) => Ok(
                            FuncV { name: Some(names[0]), params: names.skip(1), binds, ret },
                        ),
                    },
                }
            },
            _ => Err(fail(LowerKind::DefHeader, items[h as int])),
        }
    }
}

/// Whether `a` is a list headed by `let` that does not have exactly three
/// elements.
pub open spec fn misshapen_let(a: Sexp) -> bool {
    &&& a matches Sexp::List(items)
    &&& items.len() > 0
    &&& items.len() != 3
    &&& items[0] matches Sexp::Sym(head, _)
    &&& head == "let"@
}

/// Lowers the body `items[from..]`: bindings, then one trailing expression.
/// No binding may take the name `reserved`, and a body may not end with a
/// `let` list of the wrong length.
pub open spec fn lower_block(items: Seq<Sexp>, from: nat, reserved: Option<Seq<char>>) -> Result<
    (Seq<(Seq<char>, ExprV)>, ExprV),
    LowerErrorV,
>
    decreases items, 1nat, 0nat,
{
    if from >= items.len() {
        Err(LowerErrorV { kind: LowerKind::EmptyBlock, node: None })
    } else {
        match lower_binds(items, from, (items.len() - 1) as nat, reserved) {
            Err(e) => Err(e),
            Ok(binds) => if misshapen_let(items.last()) {
                Err(fail(LowerKind::LetArity, items.last()))
            } else {
                match lower_expr(items.last()) {
                    Err(e) => Err(e),
                    Ok(ret) => Ok((binds, ret)),
                }
            },
        }
    }
}

/// Lowers the bindings `items[from..n]`, in order.
pub open spec fn lower_binds(
    items: Seq<Sexp>,
    from: nat,
    n: nat,
    reserved: Option<Seq<char>>,
) -> Result<Seq<(Seq<char>, ExprV)>, LowerErrorV>
    decreases items, 0nat, n,
{
    if n <= from || n > items.len() {
        Ok(Seq::empty())
    } else {
        match lower_binds(items, from, (n - 1) as nat, reserved) {
            Err(e) => Err(e),
            Ok(bs) => match items[n - 1] {
                Sexp::List(inner) => match lower_bind(inner) {
                    Err(e) => Err(e),
                    Ok(b) => if reserved == Some(b.0) || bound(bs, b.0) {
                        Err(fail(LowerKind::DuplicateName, items[n - 1]))
                    } else {
                        Ok(bs.push(b))
                    },
                },
                _ => Err(fail(LowerKind::EarlyExpr, items[n - 1])),
            },
        }
    }
}

/// Lowers the top-level sequence of trees: the body of the entry function,
/// which takes no parameters.
pub open spec fn lower_program(tree: Seq<Sexp>) -> Result<ProgramV, LowerErrorV> {
    match lower_block(tree, 0, Some(entry_name())) {
        Err(e) => Err(e),
        Ok((binds, ret)) => Ok(
            ProgramV {
                entry: entry_name(),
                mods: seq![
                    (
                        entry_name(),
                        FuncV { name: Some(entry_name()), params: Seq::empty(), binds, ret },
                    ),
                ],
            },
        ),
    }
}

/// Once a header element fails, the header fails the same way however far
/// it is read.
pub proof fn lemma_header_err_stable(hs: Seq<Sexp>, n: nat, m: nat)
    requires
        n <= m <= hs.len(),
        header_names(hs, n) is Err,
    ensures
        header_names(hs, m) == header_names(hs, n),
    decreases m,
{
    if n < m {
        lemma_header_err_stable(hs, n, (m - 1) as nat);
    }
}

/// Once an argument fails, the call fails the same way.
pub proof fn lemma_args_err_stable(items: Seq<Sexp>, n: nat, m: nat)
    requires
        n <= m <= items.len(),
        lower_args(items, n) is Err,
    ensures
        lower_args(items, m) == lower_args(items, n),
    decreases m,
{
    if n < m {
        lemma_args_err_stable(items, n, (m - 1) as nat);
    }
}

/// Once a binding fails, the body fails the same way.
pub proof fn lemma_binds_err_stable(
    items: Seq<Sexp>,
    from: nat,
    n: nat,
    m: nat,
    reserved: Option<Seq<char>>,
)
    requires
        n <= m <= items.len(),
        lower_binds(items, from, n, reserved) is Err,
    ensures
        lower_binds(items, from, m, reserved) == lower_binds(items, from, n, reserved),
    decreases m,
{
    if n < m {
        lemma_binds_err_stable(items, from, n, (m - 1) as nat, reserved);
    }
}

/// Lowering is a function of the tree: two outcomes of lowering the same
/// tree are the same program, or the same failure.
pub proof fn lemma_lowering_deterministic(
    tree: Seq<Sexp>,
    first: Result<ProgramV, LowerErrorV>,
    second: Result<ProgramV, LowerErrorV>,
)
    requires
        first == lower_program(tree),
        second == lower_program(tree),
    ensures
        first == second,
{
}


/// Whether no name occurs twice.
pub open spec fn distinct(names: Seq<Seq<char>>) -> bool {
    forall|i: int, j: int| 0 <= i < j < names.len() ==> names[i] != names[j]
}

/// The names that a sequence of bindings binds.
pub open spec fn bind_names(bs: Seq<(Seq<char>, ExprV)>) -> Seq<Seq<char>> {
    Seq::new(bs.len(), |i: int| bs[i].0)
}

/// Whether a function is well formed: it has a name, no parameter occurs
/// twice, no two of its bindings have the same name, and every function
/// nested in it is well formed and bound to its own name.
pub open spec fn func_wf(f: FuncV) -> bool
    decreases f,
{
    &&& f.name is Some
    &&& distinct(f.params)
    &&& binds_wf(f.binds, f.binds.len())
}

/// The part of well-formedness that concerns the first `n` bindings.
pub open spec fn binds_wf(bs: Seq<(Seq<char>, ExprV)>, n: nat) -> bool
    decreases bs, n,
{
    if n == 0 || n > bs.len() {
        true
    } else {
        &&& binds_wf(bs, (n - 1) as nat)
        &&& !has_name(bind_names(bs).take(n - 1), 0, bs[n - 1].0)
        &&& match bs[n - 1].1 {
            ExprV::Func(g) => func_wf(*g) && g.name == Some(bs[n - 1].0),
            _ => true,
        }
    }
}

/// Whether a program is well formed: it has its entry function, which takes
/// no parameters, no two of its functions have the same name, and each of
/// them is well formed.
pub open spec fn program_wf(p: ProgramV) -> bool {
    &&& exists|k: int|
        0 <= k < p.mods.len() && (#[trigger] p.mods[k]).0 == p.entry && p.mods[k].1.params.len()
            == 0
    &&& forall|i: int, j: int| 0 <= i < j < p.mods.len() ==> p.mods[i].0 != p.mods[j].0
    &&& forall|i: int| 0 <= i < p.mods.len() ==> func_wf((#[trigger] p.mods[i]).1)
}

proof fn lemma_header_distinct(hs: Seq<Sexp>, n: nat)
    requires
        n <= hs.len(),
    ensures
        header_names(hs, n) matches Ok(names) ==> names.len() == n && (n >= 1 ==> distinct(
            names.skip(1),
        )),
    decreases n,
{
    if n > 0 {
        lemma_header_distinct(hs, (n - 1) as nat);
        if let Ok(prev) = header_names(hs, (n - 1) as nat) {
            if let Ok(names) = header_names(hs, n) {
                let s = names.last();
                assert(names == prev.push(s));
                assert(!has_name(prev, 1, s));
                assert forall|i: int, j: int| 0 <= i < j < names.skip(1).len() implies names.skip(
                    1,
                )[i] != names.skip(1)[j] by {
                    if j + 1 < prev.len() {
                        assert(prev.skip(1)[i] == names.skip(1)[i]);
                        assert(prev.skip(1)[j] == names.skip(1)[j]);
                    } else {
                        assert(prev[i + 1] == names.skip(1)[i]);
                    }
                }
            }
        }
    }
}

proof fn lemma_binds_wf_prefix(
    a: Seq<(Seq<char>, ExprV)>,
    b: Seq<(Seq<char>, ExprV)>,
    n: nat,
)
    requires
        n <= a.len(),
        n <= b.len(),
        forall|k: int| 0 <= k < n ==> a[k] == b[k],
    ensures
        binds_wf(a, n) == binds_wf(b, n),
    decreases n,
{
    if n > 0 {
        lemma_binds_wf_prefix(a, b, (n - 1) as nat);
        assert(bind_names(a).take(n - 1) =~= bind_names(b).take(n - 1));
    }
}

proof fn lemma_lower_bind_wf(inner: Seq<Sexp>)
    ensures
        lower_bind(inner) matches Ok(b) ==> match b.1 {
            ExprV::Func(g) => func_wf(*g) && g.name == Some(b.0),
            _ => true,
        },
    decreases inner, 3nat, 0nat,
{
    if inner.len() > 0 {
        if let Sexp::Sym(head, _) = inner[0] {
            if head == "let"@ {
                if inner.len() == 3 {
                    lemma_lower_expr_ok(inner[2]);
                }
            } else if head == "def"@ {
                lemma_lower_func_wf(inner, 1);
            }
        }
    }
}

proof fn lemma_lower_func_wf(items: Seq<Sexp>, h: nat)
    ensures
        lower_func_at(items, h) matches Ok(f) ==> func_wf(f),
    decreases items, 2nat, 0nat,
{
    if h < items.len() {
        if let Sexp::List(hs) = items[h as int] {
            if hs.len() > 0 {
                lemma_header_distinct(hs, hs.len());
                lemma_lower_block_wf(items, h + 1, None);
            }
        }
    }
}

proof fn lemma_lower_block_wf(items: Seq<Sexp>, from: nat, reserved: Option<Seq<char>>)
    ensures
        lower_block(items, from, reserved) matches Ok(b) ==> {
            &&& binds_wf(b.0, b.0.len())
            &&& reserved matches Some(r) ==> !has_name(bind_names(b.0), 0, r)
        },
    decreases items, 1nat, 0nat,
{
    if from < items.len() {
        lemma_lower_binds_wf(items, from, (items.len() - 1) as nat, reserved);
    }
}

proof fn lemma_lower_binds_wf(items: Seq<Sexp>, from: nat, n: nat, reserved: Option<Seq<char>>)
    requires
        n <= items.len(),
    ensures
        lower_binds(items, from, n, reserved) matches Ok(bs) ==> {
            &&& binds_wf(bs, bs.len())
            &&& reserved matches Some(r) ==> !has_name(bind_names(bs), 0, r)
        },
    decreases items, 0nat, n,
{
    if n > from {
        lemma_lower_binds_wf(items, from, (n - 1) as nat, reserved);
        if let Ok(prev) = lower_binds(items, from, (n - 1) as nat, reserved) {
            if let Sexp::List(inner) = items[n - 1] {
                lemma_lower_bind_wf(inner);
                if let Ok(b) = lower_bind(inner) {
                    if let Ok(bs) = lower_binds(items, from, n, reserved) {
                        assert(bs == prev.push(b));
                        lemma_binds_wf_prefix(bs, prev, prev.len());
                        assert(bind_names(bs).take(prev.len() as int) =~= bind_names(prev));
                        assert(!bound(prev, b.0));
                        if has_name(bind_names(prev), 0, b.0) {
                            let k = choose|k: int|
                                0 <= k < bind_names(prev).len() && #[trigger] bind_names(prev)[k]
                                    == b.0;
                            assert(prev[k].0 == b.0);
                        }
                        if let Some(r) = reserved {
                            if has_name(bind_names(bs), 0, r) {
                                let k = choose|k: int|
                                    0 <= k < bind_names(bs).len() && #[trigger] bind_names(bs)[k]
                                        == r;
                                if k < prev.len() {
                                    assert(bind_names(prev)[k] == r);
                                }
                            }
                        }
                    }
                }
            }
        }
    }
}

/// What lowering builds is well formed: every function has a name, no
/// parameter and no sibling binding occurs twice, and no top-level binding
/// takes the entry function's name.
pub proof fn lemma_lowered_program_wf(tree: Seq<Sexp>)
    ensures
        lower_program(tree) matches Ok(p) ==> program_wf(p),
{
    lemma_lower_block_wf(tree, 0, Some(entry_name()));
    if let Ok(p) = lower_program(tree) {
        assert(p.mods[0].0 == p.entry);
        assert(distinct(p.mods[0].1.params));
    }
}

/// What lowering builds from a header and a body is a well-formed function.
pub proof fn lemma_lowered_func_wf(items: Seq<Sexp>)
    ensures
        lower_func_at(items, 0) matches Ok(f) ==> func_wf(f),
{
    lemma_lower_func_wf(items, 0);
}


/// The tree `a` with every position in it replaced by the default position.
pub open spec fn unplaced(a: Sexp) -> Sexp
    decreases a, 0nat,
{
    match a {
        Sexp::Int(n, _) => Sexp::Int(n, default_src()),
        Sexp::Float(t, _) => Sexp::Float(t, default_src()),
        Sexp::Str(t, _) => Sexp::Str(t, default_src()),
        Sexp::Sym(t, _) => Sexp::Sym(t, default_src()),
        Sexp::List(items) => Sexp::List(unplaced_all(items, items.len())),
    }
}

/// The first `n` trees of `items`, each without its positions.
pub open spec fn unplaced_all(items: Seq<Sexp>, n: nat) -> Seq<Sexp>
    decreases items, n,
{
    if n == 0 || n > items.len() {
        Seq::empty()
    } else {
        unplaced_all(items, (n - 1) as nat).push(unplaced(items[n - 1]))
    }
}

/// The trees of `items` without their positions.
pub open spec fn unplace(items: Seq<Sexp>) -> Seq<Sexp> {
    unplaced_all(items, items.len())
}

/// An outcome of lowering with the positions taken out of the construct
/// that a failure reports.
pub open spec fn unplaced_failure<T>(r: Result<T, LowerErrorV>) -> Result<T, LowerErrorV> {
    match r {
        Ok(x) => Ok(x),
        Err(e) => Err(
            LowerErrorV {
                kind: e.kind,
                node: match e.node {
                    Some(a) => Some(unplaced(a)),
                    None => None,
                },
            },
        ),
    }
}

proof fn lemma_unplaced_all_index(items: Seq<Sexp>, n: nat)
    requires
        n <= items.len(),
    ensures
        unplaced_all(items, n).len() == n,
        forall|k: int| 0 <= k < n ==> #[trigger] unplaced_all(items, n)[k] == unplaced(items[k]),
    decreases n,
{
    if n > 0 {
        lemma_unplaced_all_index(items, (n - 1) as nat);
    }
}

proof fn lemma_header_unplaced(hs: Seq<Sexp>, n: nat)
    requires
        n <= hs.len(),
    ensures
        header_names(unplace(hs), n) == unplaced_failure(header_names(hs, n)),
    decreases n,
{
    lemma_unplaced_all_index(hs, hs.len());
    if n > 0 {
        lemma_header_unplaced(hs, (n - 1) as nat);
    }
}

proof fn lemma_expr_unplaced(a: Sexp)
    ensures
        lower_expr(unplaced(a)) == unplaced_failure(lower_expr(a)),
    decreases a, 0nat, 0nat,
{
    if let Sexp::List(items) = a {
        lemma_unplaced_all_index(items, items.len());
        if items.len() > 0 {
            lemma_args_unplaced(items, items.len());
        }
    }
}

proof fn lemma_args_unplaced(items: Seq<Sexp>, n: nat)
    requires
        n <= items.len(),
    ensures
        lower_args(unplace(items), n) == unplaced_failure(lower_args(items, n)),
    decreases items, 0nat, n,
{
    lemma_unplaced_all_index(items, items.len());
    if n > 1 {
        lemma_args_unplaced(items, (n - 1) as nat);
        lemma_expr_unplaced(items[n - 1]);
    }
}

proof fn lemma_bind_unplaced(inner: Seq<Sexp>)
    ensures
        lower_bind(unplace(inner)) == unplaced_failure(lower_bind(inner)),
    decreases inner, 3nat, 0nat,
{
    lemma_unplaced_all_index(inner, inner.len());
    if inner.len() > 0 {
        if let Sexp::Sym(head, _) = inner[0] {
            if head == "let"@ {
                if inner.len() == 3 {
                    lemma_expr_unplaced(inner[2]);
                }
            } else if head == "def"@ {
                lemma_func_unplaced(inner, 1);
            }
        }
    }
}

proof fn lemma_func_unplaced(items: Seq<Sexp>, h: nat)
    ensures
        lower_func_at(unplace(items), h) == unplaced_failure(lower_func_at(items, h)),
    decreases items, 2nat, 0nat,
{
    lemma_unplaced_all_index(items, items.len());
    if h < items.len() {
        if let Sexp::List(hs) = items[h as int] {
            lemma_unplaced_all_index(hs, hs.len());
            if hs.len() > 0 {
                lemma_header_unplaced(hs, hs.len());
                lemma_block_unplaced(items, h + 1, None);
            }
        }
    }
}

proof fn lemma_block_unplaced(items: Seq<Sexp>, from: nat, reserved: Option<Seq<char>>)
    ensures
        lower_block(unplace(items), from, reserved) == unplaced_failure(
            lower_block(items, from, reserved),
        ),
    decreases items, 1nat, 0nat,
{
    lemma_unplaced_all_index(items, items.len());
    if from < items.len() {
        lemma_binds_unplaced(items, from, (items.len() - 1) as nat, reserved);
        lemma_expr_unplaced(items.last());
        if let Sexp::List(inner) = items.last() {
            lemma_unplaced_all_index(inner, inner.len());
        }
        assert(misshapen_let(unplaced(items.last())) == misshapen_let(items.last()));
    }
}

proof fn lemma_binds_unplaced(items: Seq<Sexp>, from: nat, n: nat, reserved: Option<Seq<char>>)
    requires
        n <= items.len(),
    ensures
        lower_binds(unplace(items), from, n, reserved) == unplaced_failure(
            lower_binds(items, from, n, reserved),
        ),
    decreases items, 0nat, n,
{
    lemma_unplaced_all_index(items, items.len());
    if n > from {
        lemma_binds_unplaced(items, from, (n - 1) as nat, reserved);
        if let Sexp::List(inner) = items[n - 1] {
            lemma_bind_unplaced(inner);
        }
    }
}

/// Positions do not matter to lowering: a tree without its positions is
/// lowered to the same program, or fails in the same way at the same
/// construct, as the tree with them.
pub proof fn lemma_lowering_ignores_positions(tree: Seq<Sexp>)
    ensures
        lower_program(unplace(tree)) == unplaced_failure(lower_program(tree)),
{
    lemma_block_unplaced(tree, 0, Some(entry_name()));
}


/// Whether a tree can stand as an expression: an integer literal, a symbol,
/// or a non-empty list whose head is a symbol other than `def` and whose
/// other elements can stand as expressions.
pub open spec fn admits(a: Sexp) -> bool
    decreases a, 0nat,
{
    match a {
        Sexp::Int(_, _) => true,
        Sexp::Sym(_, _) => true,
        Sexp::Float(_, _) => false,
        Sexp::Str(_, _) => false,
        Sexp::List(items) => {
            &&& items.len() > 0
            &&& items[0] matches Sexp::Sym(name, _)
            &&& name != "def"@
            &&& admits_args(items, items.len())
        },
    }
}

/// Whether the elements `items[1..n]` can stand as expressions.
pub open spec fn admits_args(items: Seq<Sexp>, n: nat) -> bool
    decreases items, n,
{
    if n <= 1 || n > items.len() {
        true
    } else {
        admits_args(items, (n - 1) as nat) && admits(items[n - 1])
    }
}

/// Lowering an expression succeeds exactly on the trees that can stand as
/// expressions, and never yields a conditional or a nested function.
pub proof fn lemma_lower_expr_ok(a: Sexp)
    ensures
        lower_expr(a) is Ok <==> admits(a),
        lower_expr(a) matches Ok(e) ==> e is I64 || e is Var || e is Call,
    decreases a, 0nat,
{
    if let Sexp::List(items) = a {
        if items.len() > 0 {
            lemma_lower_args_ok(items, items.len());
        }
    }
}

/// The arguments of a call are lowered one for one, in source order.
pub proof fn lemma_lower_args_ok(items: Seq<Sexp>, n: nat)
    requires
        n <= items.len(),
    ensures
        lower_args(items, n) is Ok <==> admits_args(items, n),
        lower_args(items, n) matches Ok(args) ==> {
            &&& args.len() == (if n <= 1 {
                0
            } else {
                n - 1
            })
            &&& forall|k: int|
                0 <= k < args.len() ==> lower_expr(items[k + 1]) == Ok::<ExprV, LowerErrorV>(
                    #[trigger] args[k],
                )
        },
    decreases items, n,
{
    if n > 1 {
        lemma_lower_args_ok(items, (n - 1) as nat);
        lemma_lower_expr_ok(items[n - 1]);
    }
}

/// A list headed by a symbol other than `def` is lowered to a call of that
/// symbol, with one argument for each further element, in source order,
/// whenever those elements can be lowered.
pub proof fn lemma_lower_call(items: Seq<Sexp>, name: Seq<char>)
    requires
        items.len() > 0,
        items[0] matches Sexp::Sym(n, _) && n == name,
        name != "def"@,
        forall|i: int| 1 <= i < items.len() ==> lower_expr(#[trigger] items[i]) is Ok,
    ensures
        lower_expr(Sexp::List(items)) matches Ok(ExprV::Call(callee, args)) && {
            &&& callee == name
            &&& args.len() == items.len() - 1
            &&& forall|k: int|
                0 <= k < args.len() ==> lower_expr(items[k + 1]) == Ok::<ExprV, LowerErrorV>(
                    #[trigger] args[k],
                )
        },
{
    lemma_lower_args_ok(items, items.len());
    lemma_all_admitted(items, items.len());
}

proof fn lemma_all_admitted(items: Seq<Sexp>, n: nat)
    requires
        n <= items.len(),
        forall|i: int| 1 <= i < items.len() ==> lower_expr(#[trigger] items[i]) is Ok,
    ensures
        admits_args(items, n),
    decreases n,
{
    if n > 1 {
        lemma_all_admitted(items, (n - 1) as nat);
        lemma_lower_expr_ok(items[n - 1]);
    }
}

} // verus!
