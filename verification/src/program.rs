//! The program model that the syntax tree is lowered to and that code is
//! generated from: named functions with parameters, local bindings and one
//! trailing result expression.

use crate::lower::{
    admits, bound, entry_name, fail, func_wf, has_name, header_names, lemma_args_err_stable,
    lemma_binds_err_stable, lemma_header_err_stable, lemma_lower_expr_ok, lemma_lowered_func_wf,
    lemma_lowered_program_wf, lower_args, lower_bind, lower_binds, lower_block, lower_expr,
    lower_func_at, lower_program, misshapen_let, program_wf, LowerError, LowerErrorV, LowerKind,
};
use crate::parse::{lemma_app_view, sexps, Ast, Sexp};
use vstd::prelude::*;

verus! {

/// Mathematical value of an expression.
pub enum ExprV {
    I64(int),
    Var(Seq<char>),
    Call(Seq<char>, Seq<ExprV>),
    Cond(Seq<(ExprV, ExprV)>),
    Func(Box<FuncV>),
}

/// Mathematical value of a function.
pub struct FuncV {
    pub name: Option<Seq<char>>,
    pub params: Seq<Seq<char>>,
    pub binds: Seq<(Seq<char>, ExprV)>,
    pub ret: ExprV,
}

/// Mathematical value of a program.
pub struct ProgramV {
    pub entry: Seq<char>,
    pub mods: Seq<(Seq<char>, FuncV)>,
}

/// An expression: an integer constant, a variable reference, a call, a
/// conditional of (test, result) clauses, or a nested function.
#[derive(Debug, PartialEq, PartialOrd)]
pub enum Expr {
    I64(i64),
    Var(String),
    Call(String, Vec<Expr>),
    Cond(Vec<(Expr, Expr)>),
    Func(Box<Func>),
}

/// A function: its name, its parameters, its local bindings in order, and
/// the expression whose value it returns. A binding whose value is
/// `Expr::Func` defines a nested function; any other binding holds a value.
#[derive(Debug, PartialEq, PartialOrd)]
pub struct Func {
    pub name: Option<String>,
    pub params: Vec<String>,
    pub binds: Vec<(String, Expr)>,
    pub ret: Expr,
}

/// A program: its functions by name, and the name of the one that runs
/// first. The functions stand in the order in which their code is emitted;
/// in a well-formed program no two have the same name.
#[derive(Debug, PartialEq, PartialOrd)]
pub struct Program {
    pub entry: String,
    pub mods: Vec<(String, Func)>,
}

/// The views of a sequence of strings.
pub open spec fn strs(v: Seq<String>) -> Seq<Seq<char>> {
    Seq::new(v.len(), |i: int| v[i]@)
}

/// The views of a sequence of expressions.
pub open spec fn exprvs(v: Seq<Expr>) -> Seq<ExprV> {
    Seq::new(v.len(), |i: int| v[i]@)
}

/// The views of a sequence of conditional clauses.
pub open spec fn clausevs(v: Seq<(Expr, Expr)>) -> Seq<(ExprV, ExprV)> {
    Seq::new(v.len(), |i: int| (v[i].0@, v[i].1@))
}

/// The views of a sequence of bindings.
pub open spec fn bindvs(v: Seq<(String, Expr)>) -> Seq<(Seq<char>, ExprV)> {
    Seq::new(v.len(), |i: int| (v[i].0@, v[i].1@))
}

/// The views of a sequence of named functions.
pub open spec fn modvs(v: Seq<(String, Func)>) -> Seq<(Seq<char>, FuncV)> {
    Seq::new(v.len(), |i: int| (v[i].0@, v[i].1@))
}

/// The mathematical value of an expression.
pub open spec fn expr_view(e: Expr) -> ExprV
    decreases e,
{
    match e {
        Expr::I64(n) => ExprV::I64(n as int),
        Expr::Var(name) => ExprV::Var(name@),
        Expr::Call(name, args) => ExprV::Call(
            name@,
            Seq::new(
                args@.len(),
                |i: int|
                    if 0 <= i < args@.len() {
                        expr_view(args@[i])
                    } else {
                        ExprV::I64(0)
                    },
            ),
        ),
        Expr::Cond(clauses) => ExprV::Cond(
            Seq::new(
                clauses@.len(),
                |i: int|
                    if 0 <= i < clauses@.len() {
                        (expr_view(clauses@[i].0), expr_view(clauses@[i].1))
                    } else {
                        (ExprV::I64(0), ExprV::I64(0))
                    },
            ),
        ),
        Expr::Func(f) => ExprV::Func(Box::new(func_view(*f))),
    }
}

/// The mathematical value of a function.
pub open spec fn func_view(f: Func) -> FuncV
    decreases f,
{
    FuncV {
        name: match f.name {
            Some(n) => Some(n@),
            None => None,
        },
        params: strs(f.params@),
        binds: Seq::new(
            f.binds@.len(),
            |i: int|
                if 0 <= i < f.binds@.len() {
                    (f.binds@[i].0@, expr_view(f.binds@[i].1))
                } else {
                    (Seq::empty(), ExprV::I64(0))
                },
        ),
        ret: expr_view(f.ret),
    }
}

impl View for Expr {
    type V = ExprV;

    open spec fn view(&self) -> ExprV {
        expr_view(*self)
    }
}

impl View for Func {
    type V = FuncV;

    open spec fn view(&self) -> FuncV {
        func_view(*self)
    }
}

impl View for Program {
    type V = ProgramV;

    open spec fn view(&self) -> ProgramV {
        ProgramV { entry: self.entry@, mods: modvs(self.mods@) }
    }
}

/// The view of a call is the callee's name and the views of the arguments.
pub proof fn lemma_call_view(e: Expr)
    requires
        e is Call,
    ensures
        e@ == ExprV::Call(e->Call_0@, exprvs(e->Call_1@)),
{
    reveal_with_fuel(expr_view, 2);
    assert(e@->Call_1 =~= exprvs(e->Call_1@));
}

/// The view of a conditional is the views of its clauses.
pub proof fn lemma_cond_view(e: Expr)
    requires
        e is Cond,
    ensures
        e@ == ExprV::Cond(clausevs(e->Cond_0@)),
{
    reveal_with_fuel(expr_view, 2);
    assert(e@->Cond_0 =~= clausevs(e->Cond_0@));
}

/// The view of a nested function value is the view of the function.
pub proof fn lemma_func_expr_view(e: Expr)
    requires
        e is Func,
    ensures
        e@ == ExprV::Func(Box::new((*e->Func_0)@)),
{
    reveal_with_fuel(expr_view, 2);
}

/// The view of a function is the views of its parts.
pub proof fn lemma_func_view(f: Func)
    ensures
        f@.name == (match f.name {
            Some(n) => Some(n@),
            None => None,
        }),
        f@.params == strs(f.params@),
        f@.binds == bindvs(f.binds@),
        f@.ret == f.ret@,
{
    reveal_with_fuel(func_view, 2);
    assert(f@.binds =~= bindvs(f.binds@));
}


pub(crate) fn clone_strings(v: &Vec<String>) -> (r: Vec<String>)
    ensures
        strs(r@) == strs(v@),
{
    let mut out: Vec<String> = Vec::new();
    let mut i: usize = 0;
    while i < v.len()
        invariant
            i <= v.len(),
            out@.len() == i,
            forall|k: int| 0 <= k < i ==> out@[k]@ == v@[k]@,
        decreases v.len() - i,
    {
        out.push(v[i].clone());
        i += 1;
    }
    assert(strs(out@) =~= strs(v@));
    out
}

fn clone_expr(e: &Expr) -> (r: Expr)
    ensures
        r@ == e@,
    decreases e,
{
    match e {
        Expr::I64(n) => Expr::I64(*n),
        Expr::Var(name) => Expr::Var(name.clone()),
        Expr::Call(name, args) => {
            let mut out: Vec<Expr> = Vec::new();
            let mut i: usize = 0;
            while i < args.len()
                invariant
                    i <= args.len(),
                    e is Call,
                    e->Call_1 == *args,
                    out@.len() == i,
                    forall|k: int| 0 <= k < i ==> out@[k]@ == args@[k]@,
                decreases args.len() - i,
            {
                out.push(clone_expr(&args[i]));
                i += 1;
            }
            let r = Expr::Call(name.clone(), out);
            proof {
                lemma_call_view(r);
                lemma_call_view(*e);
                assert(exprvs(out@) =~= exprvs(args@));
            }
            r
        },
        Expr::Cond(clauses) => {
            let mut out: Vec<(Expr, Expr)> = Vec::new();
            let mut i: usize = 0;
            while i < clauses.len()
                invariant
                    i <= clauses.len(),
                    e is Cond,
                    e->Cond_0 == *clauses,
                    out@.len() == i,
                    forall|k: int|
                        0 <= k < i ==> out@[k].0@ == clauses@[k].0@ && out@[k].1@ == clauses@[k].1@,
                decreases clauses.len() - i,
            {
                let test = clone_expr(&clauses[i].0);
                let result = clone_expr(&clauses[i].1);
                out.push((test, result));
                i += 1;
            }
            let r = Expr::Cond(out);
            proof {
                lemma_cond_view(r);
                lemma_cond_view(*e);
                assert(clausevs(out@) =~= clausevs(clauses@));
            }
            r
        },
        Expr::Func(f) => {
            let r = Expr::Func(Box::new(clone_func(f)));
            proof {
                lemma_func_expr_view(r);
                lemma_func_expr_view(*e);
            }
            r
        },
    }
}

fn clone_func(f: &Func) -> (r: Func)
    ensures
        r@ == f@,
    decreases f,
{
    let name = match &f.name {
        Some(n) => Some(n.clone()),
        None => None,
    };
    let params = clone_strings(&f.params);
    let mut binds: Vec<(String, Expr)> = Vec::new();
    let mut i: usize = 0;
    while i < f.binds.len()
        invariant
            i <= f.binds.len(),
            binds@.len() == i,
            forall|k: int|
                0 <= k < i ==> binds@[k].0@ == f.binds@[k].0@ && binds@[k].1@ == f.binds@[k].1@,
        decreases f.binds.len() - i,
    {
        let value = clone_expr(&f.binds[i].1);
        binds.push((f.binds[i].0.clone(), value));
        i += 1;
    }
    let ret = clone_expr(&f.ret);
    let r = Func { name, params, binds, ret };
    proof {
        lemma_func_view(r);
        lemma_func_view(*f);
        assert(bindvs(r.binds@) =~= bindvs(f.binds@));
        assert(r@.name == f@.name);
        assert(r@.params == f@.params);
        assert(r@.binds == f@.binds);
        assert(r@.ret == f@.ret);
    }
    r
}

impl Clone for Expr {
    fn clone(&self) -> (r: Self)
        ensures
            r@ == self@,
    {
        clone_expr(self)
    }
}

impl Clone for Func {
    fn clone(&self) -> (r: Self)
        ensures
            r@ == self@,
    {
        clone_func(self)
    }
}

impl Clone for Program {
    fn clone(&self) -> (r: Self)
        ensures
            r@ == self@,
    {
        let mut mods: Vec<(String, Func)> = Vec::new();
        let mut i: usize = 0;
        while i < self.mods.len()
            invariant
                i <= self.mods.len(),
                mods@.len() == i,
                forall|k: int|
                    0 <= k < i ==> mods@[k].0@ == self.mods@[k].0@ && mods@[k].1@
                        == self.mods@[k].1@,
            decreases self.mods.len() - i,
        {
            let f = clone_func(&self.mods[i].1);
            mods.push((self.mods[i].0.clone(), f));
            i += 1;
        }
        assert(modvs(mods@) =~= modvs(self.mods@));
        Program { entry: self.entry.clone(), mods }
    }
}

/// The outcome of lowering an expression, as a mathematical value.
pub open spec fn expr_res(r: Result<Expr, LowerError>) -> Result<ExprV, LowerErrorV> {
    match r {
        Ok(e) => Ok(e@),
        Err(e) => Err(e@),
    }
}

/// The outcome of lowering a binding, as a mathematical value.
pub open spec fn bind_res(r: Result<(String, Expr), LowerError>) -> Result<
    (Seq<char>, ExprV),
    LowerErrorV,
> {
    match r {
        Ok(b) => Ok((b.0@, b.1@)),
        Err(e) => Err(e@),
    }
}

/// The outcome of lowering a function, as a mathematical value.
pub open spec fn func_res(r: Result<Func, LowerError>) -> Result<FuncV, LowerErrorV> {
    match r {
        Ok(f) => Ok(f@),
        Err(e) => Err(e@),
    }
}

/// The outcome of lowering a body, as a mathematical value.
pub open spec fn block_res(r: Result<(Vec<(String, Expr)>, Expr), LowerError>) -> Result<
    (Seq<(Seq<char>, ExprV)>, ExprV),
    LowerErrorV,
> {
    match r {
        Ok(b) => Ok((bindvs(b.0@), b.1@)),
        Err(e) => Err(e@),
    }
}

/// The outcome of lowering a program, as a mathematical value.
pub open spec fn program_res(r: Result<Program, LowerError>) -> Result<ProgramV, LowerErrorV> {
    match r {
        Ok(p) => Ok(p@),
        Err(e) => Err(e@),
    }
}

fn is_word(s: &String, w: &str) -> (b: bool)
    ensures
        b == (s@ == w@),
{
    let t = String::from_str(w);
    *s == t
}

fn clone_items(items: &Vec<Ast>) -> (r: Vec<Ast>)
    ensures
        sexps(r@) == sexps(items@),
{
    let mut out: Vec<Ast> = Vec::new();
    let mut i: usize = 0;
    while i < items.len()
        invariant
            i <= items.len(),
            out@.len() == i,
            forall|k: int| 0 <= k < i ==> out@[k]@ == items@[k]@,
        decreases items.len() - i,
    {
        out.push(items[i].clone());
        i += 1;
    }
    assert(sexps(out@) =~= sexps(items@));
    out
}

fn err_at(kind: LowerKind, node: &Ast) -> (e: LowerError)
    ensures
        e@ == fail(kind, node@),
{
    LowerError { kind, node: Some(node.clone()) }
}

fn err_list(kind: LowerKind, items: &Vec<Ast>) -> (e: LowerError)
    ensures
        e@ == fail(kind, Sexp::List(sexps(items@))),
{
    let node = Ast::App(clone_items(items));
    proof {
        lemma_app_view(node);
    }
    LowerError { kind, node: Some(node) }
}

fn has_param(params: &Vec<String>, s: &String) -> (b: bool)
    ensures
        b == exists|k: int| 0 <= k < params@.len() && #[trigger] params@[k]@ == s@,
{
    let mut i: usize = 0;
    while i < params.len()
        invariant
            i <= params.len(),
            forall|k: int| 0 <= k < i ==> #[trigger] params@[k]@ != s@,
        decreases params.len() - i,
    {
        if params[i] == *s {
            return true;
        }
        i += 1;
    }
    false
}

fn is_bound(bs: &Vec<(String, Expr)>, s: &String) -> (b: bool)
    ensures
        b == bound(bindvs(bs@), s@),
{
    let mut i: usize = 0;
    while i < bs.len()
        invariant
            i <= bs.len(),
            forall|k: int| 0 <= k < i ==> (#[trigger] bindvs(bs@)[k]).0 != s@,
        decreases bs.len() - i,
    {
        if bs[i].0 == *s {
            assert(bindvs(bs@)[i as int].0 == s@);
            return true;
        }
        i += 1;
    }
    false
}

/// Reads a `def` header: the function's name and its parameters.
fn read_header(hs: &Vec<Ast>) -> (r: Result<(String, Vec<String>), LowerError>)
    requires
        hs@.len() > 0,
    ensures
        match r {
            Ok((name, params)) => header_names(sexps(hs@), hs@.len()) == Ok::<
                Seq<Seq<char>>,
                LowerErrorV,
            >(seq![name@] + strs(params@)),
            Err(e) => header_names(sexps(hs@), hs@.len()) == Err::<Seq<Seq<char>>, LowerErrorV>(
                e@,
            ),
        },
{
    let ghost sv = sexps(hs@);
    let name = match &hs[0] {
        Ast::Sym(s, _) => s.clone(),
        _ => {
            proof {
                assert(header_names(sv, 0) == Ok::<Seq<Seq<char>>, LowerErrorV>(Seq::empty()));
                lemma_header_err_stable(sv, 1, sv.len());
            }
            return Err(err_at(LowerKind::ParamNotSymbol, &hs[0]));
        },
    };
    let mut params: Vec<String> = Vec::new();
    let mut i: usize = 1;
    proof {
        assert(header_names(sv, 0) == Ok::<Seq<Seq<char>>, LowerErrorV>(Seq::empty()));
        assert(!has_name(Seq::<Seq<char>>::empty(), 1, name@));
        assert(Seq::<Seq<char>>::empty().push(name@) =~= seq![name@] + strs(params@));
    }
    while i < hs.len()
        invariant
            1 <= i <= hs.len(),
            sv == sexps(hs@),
            header_names(sv, i as nat) == Ok::<Seq<Seq<char>>, LowerErrorV>(
                seq![name@] + strs(params@),
            ),
        decreases hs.len() - i,
    {
        let ghost names = seq![name@] + strs(params@);
        match &hs[i] {
            Ast::Sym(s, _) => {
                let dup = has_param(&params, s);
                proof {
                    if dup {
                        let k = choose|k: int| 0 <= k < params@.len() && #[trigger] params@[k]@ == s@;
                        assert(names[k + 1] == s@);
                    }
                    if has_name(names, 1, s@) {
                        let k = choose|k: int| 1 <= k < names.len() && #[trigger] names[k] == s@;
                        assert(params@[k - 1]@ == s@);
                    }
                }
                if dup {
                    proof {
                        lemma_header_err_stable(sv, (i + 1) as nat, sv.len());
                    }
                    return Err(err_at(LowerKind::DuplicateParam, &hs[i]));
                }
                params.push(s.clone());
                assert(names.push(s@) =~= seq![name@] + strs(params@));
            },
            _ => {
                proof {
                    lemma_header_err_stable(sv, (i + 1) as nat, sv.len());
                }
                return Err(err_at(LowerKind::ParamNotSymbol, &hs[i]));
            },
        }
        i += 1;
    }
    Ok((name, params))
}

impl Expr {
    /// Lowers a tree in expression position: an integer literal is a
    /// constant, a symbol a variable reference, a list headed by a symbol
    /// other than `def` a call of that symbol.
    pub fn new(ast: &Ast) -> (r: Result<Expr, LowerError>)
        ensures
            expr_res(r) == lower_expr(ast@),
            r is Ok <==> admits(ast@),
        decreases ast, 0nat,
    {
        proof {
            lemma_lower_expr_ok(ast@);
        }
        match ast {
            Ast::I64(n, _) => Ok(Expr::I64(*n)),
            Ast::Sym(s, _) => Ok(Expr::Var(s.clone())),
            Ast::F64(_, _) => Err(err_at(LowerKind::Unsupported, ast)),
            Ast::Str(_, _) => Err(err_at(LowerKind::Unsupported, ast)),
            Ast::App(items) => {
                proof {
                    lemma_app_view(*ast);
                }
                let ghost sv = sexps(items@);
                if items.len() == 0 {
                    return Err(err_at(LowerKind::EmptyApp, ast));
                }
                match &items[0] {
                    Ast::Sym(name, _) => {
                        if is_word(name, "def") {
                            return Err(err_at(LowerKind::DefNotExpr, ast));
                        }
                        let mut args: Vec<Expr> = Vec::new();
                        let mut i: usize = 1;
                        assert(exprvs(args@) =~= Seq::<ExprV>::empty());
                        while i < items.len()
                            invariant
                                1 <= i <= items.len(),
                                ast is App,
                                ast->App_0 == *items,
                                sv == sexps(items@),
                                lower_expr(ast@) is Ok <==> admits(ast@),
                                lower_expr(ast@) == (match lower_args(sv, sv.len()) {
                                    Ok(args) => Ok::<ExprV, LowerErrorV>(ExprV::Call(name@, args)),
                                    Err(e) => Err(e),
                                }),
                                lower_args(sv, i as nat) == Ok::<Seq<ExprV>, LowerErrorV>(
                                    exprvs(args@),
                                ),
                            decreases items.len() - i,
                        {
                            let ghost before = exprvs(args@);
                            match Expr::new(&items[i]) {
                                Err(e) => {
                                    proof {
                                        lemma_args_err_stable(sv, (i + 1) as nat, sv.len());
                                    }
                                    return Err(e);
                                },
                                Ok(x) => {
                                    args.push(x);
                                    assert(exprvs(args@) =~= before.push(x@));
                                    i += 1;
                                },
                            }
                        }
                        let r = Expr::Call(name.clone(), args);
                        proof {
                            lemma_call_view(r);
                        }
                        Ok(r)
                    },
                    _ => Err(err_at(LowerKind::NonSymbolHead, &items[0])),
                }
            },
        }
    }
}

/// Lowers the elements of one binding list to the name it binds and the
/// value: `let name expr` binds a value, `def (name params...) body...`
/// binds a nested function.
pub fn ast2var(ast: &Vec<Ast>) -> (r: Result<(String, Expr), LowerError>)
    ensures
        bind_res(r) == lower_bind(sexps(ast@)),
    decreases ast, 3nat,
{
    let ghost sv = sexps(ast@);
    if ast.len() == 0 {
        return Err(err_list(LowerKind::BadBinding, ast));
    }
    match &ast[0] {
        Ast::Sym(head, _) => {
            if is_word(head, "let") {
                if ast.len() != 3 {
                    return Err(err_list(LowerKind::LetArity, ast));
                }
                match &ast[1] {
                    Ast::Sym(name, _) => match Expr::new(&ast[2]) {
                        Ok(e) => Ok((name.clone(), e)),
                        Err(e) => Err(e),
                    },
                    _ => Err(err_at(LowerKind::LetName, &ast[1])),
                }
            } else if is_word(head, "def") {
                match func_at(ast, 1) {
                    Ok((name, f)) => {
                        let e = Expr::Func(Box::new(f));
                        proof {
                            lemma_func_expr_view(e);
                        }
                        Ok((name, e))
                    },
                    Err(e) => Err(e),
                }
            } else {
                Err(err_list(LowerKind::BadBinding, ast))
            }
        },
        _ => Err(err_list(LowerKind::BadBinding, ast)),
    }
}

/// Lowers the function whose header is `items[h]` and whose body follows,
/// and hands it out together with its name.
fn func_at(items: &Vec<Ast>, h: usize) -> (r: Result<(String, Func), LowerError>)
    ensures
        match r {
            Ok((name, f)) => {
                &&& lower_func_at(sexps(items@), h as nat) == Ok::<FuncV, LowerErrorV>(f@)
                &&& f@.name == Some(name@)
            },
            Err(e) => lower_func_at(sexps(items@), h as nat) == Err::<FuncV, LowerErrorV>(e@),
        },
    decreases items, 2nat,
{
    if h >= items.len() {
        return Err(err_list(LowerKind::DefHeader, items));
    }
    match &items[h] {
        Ast::App(hs) => {
            proof {
                lemma_app_view(items@[h as int]);
            }
            if hs.len() == 0 {
                return Err(err_at(LowerKind::DefHeader, &items[h]));
            }
            match read_header(hs) {
                Err(e) => Err(e),
                Ok((name, params)) => match lower_body(items, h + 1, &None) {
                    Err(e) => Err(e),
                    Ok((binds, ret)) => {
                        let f = Func { name: Some(name.clone()), params, binds, ret };
                        proof {
                            lemma_func_view(f);
                            let names = seq![name@] + strs(params@);
                            assert(names.skip(1) =~= strs(params@));
                        }
                        Ok((name, f))
                    },
                },
            }
        },
        _ => Err(err_at(LowerKind::DefHeader, &items[h])),
    }
}

/// The view of an optional string.
pub open spec fn opt_str(r: Option<String>) -> Option<Seq<char>> {
    match r {
        Some(s) => Some(s@),
        None => None,
    }
}

fn is_misshapen_let(a: &Ast) -> (b: bool)
    ensures
        b == misshapen_let(a@),
{
    match a {
        Ast::App(items) => {
            proof {
                lemma_app_view(*a);
            }
            if items.len() == 0 || items.len() == 3 {
                false
            } else {
                match &items[0] {
                    Ast::Sym(head, _) => is_word(head, "let"),
                    _ => false,
                }
            }
        },
        _ => false,
    }
}

/// Lowers the body `items[from..]`: bindings, then one trailing expression.
fn lower_body(items: &Vec<Ast>, from: usize, reserved: &Option<String>) -> (r: Result<
    (Vec<(String, Expr)>, Expr),
    LowerError,
>)
    ensures
        block_res(r) == lower_block(sexps(items@), from as nat, opt_str(*reserved)),
    decreases items, 1nat,
{
    let ghost sv = sexps(items@);
    let ghost rv = opt_str(*reserved);
    if from >= items.len() {
        return Err(LowerError { kind: LowerKind::EmptyBlock, node: None });
    }
    let last = items.len() - 1;
    let mut binds: Vec<(String, Expr)> = Vec::new();
    let mut i: usize = from;
    assert(bindvs(binds@) =~= Seq::<(Seq<char>, ExprV)>::empty());
    while i < last
        invariant
            from <= i <= last,
            last == items.len() - 1,
            sv == sexps(items@),
            rv == opt_str(*reserved),
            lower_binds(sv, from as nat, i as nat, rv) == Ok::<
                Seq<(Seq<char>, ExprV)>,
                LowerErrorV,
            >(bindvs(binds@)),
        decreases last - i,
    {
        let ghost before = bindvs(binds@);
        match &items[i] {
            Ast::App(inner) => {
                proof {
                    lemma_app_view(items@[i as int]);
                }
                match ast2var(inner) {
                    Err(e) => {
                        proof {
                            lemma_binds_err_stable(sv, from as nat, (i + 1) as nat, last as nat, rv);
                        }
                        return Err(e);
                    },
                    Ok(b) => {
                        let taken = match reserved {
                            Some(own) => *own == b.0,
                            None => false,
                        };
                        if taken || is_bound(&binds, &b.0) {
                            proof {
                                lemma_binds_err_stable(
                                    sv,
                                    from as nat,
                                    (i + 1) as nat,
                                    last as nat,
                                    rv,
                                );
                            }
                            return Err(err_at(LowerKind::DuplicateName, &items[i]));
                        }
                        binds.push(b);
                        assert(bindvs(binds@) =~= before.push((b.0@, b.1@)));
                    },
                }
            },
            _ => {
                proof {
                    lemma_binds_err_stable(sv, from as nat, (i + 1) as nat, last as nat, rv);
                }
                return Err(err_at(LowerKind::EarlyExpr, &items[i]));
            },
        }
        i += 1;
    }
    assert(sv.last() == items@[last as int]@);
    if is_misshapen_let(&items[last]) {
        return Err(err_at(LowerKind::LetArity, &items[last]));
    }
    match Expr::new(&items[last]) {
        Err(e) => Err(e),
        Ok(ret) => Ok((binds, ret)),
    }
}

impl Func {
    /// Lowers a function from its header list, `ast[0]`, and its body, the
    /// elements after it.
    pub fn new(ast: &Vec<Ast>) -> (r: Result<Func, LowerError>)
        ensures
            func_res(r) == lower_func_at(sexps(ast@), 0),
            r matches Ok(f) ==> func_wf(f@),
    {
        proof {
            lemma_lowered_func_wf(sexps(ast@));
        }
        match func_at(ast, 0) {
            Ok((_, f)) => Ok(f),
            Err(e) => Err(e),
        }
    }
}

impl Program {
    /// Lowers the top-level sequence of trees to a program whose one
    /// function, the entry function, has them as its body.
    pub fn new(ast: &Vec<Ast>) -> (r: Result<Program, LowerError>)
        ensures
            program_res(r) == lower_program(sexps(ast@)),
            r matches Ok(p) ==> program_wf(p@),
    {
        proof {
            lemma_lowered_program_wf(sexps(ast@));
        }
        let own = Some(String::from_str("main"));
        match lower_body(ast, 0, &own) {
            Err(e) => Err(e),
            Ok((binds, ret)) => {
                let main = Func {
                    name: Some(String::from_str("main")),
                    params: Vec::new(),
                    binds,
                    ret,
                };
                proof {
                    lemma_func_view(main);
                    assert(main@.params =~= Seq::<Seq<char>>::empty());
                }
                let mut mods: Vec<(String, Func)> = Vec::new();
                mods.push((String::from_str("main"), main));
                let prgm = Program { entry: String::from_str("main"), mods };
                assert(prgm@.mods =~= seq![(entry_name(), main@)]);
                Ok(prgm)
            },
        }
    }
}

} // verus!
