//! The code generator: from the program model to assembly text.

use crate::amd64::{block_text, inst_line, label_line, Inst, InstV, BB};
use crate::chars::{dec, push_dec, push_int, push_mangled};
use crate::emit::{
    add_block, arg_reg, builtins, call_close, call_open, chain, clause_done,
    clause_test, data_text, emit_args, emit_binds, emit_clauses, emit_expr, emit_func, emit_mods,
    emit_nested, emit_program, end_label, epilogue, find_dup, find_mod, head_text, imm, incoming,
    ins0, ins1, ins2, lemma_chain_assoc, lemma_chain_ok, load_regs, mod_entries, next_label, pad,
    prologue, ret_tag, slot, slot_count, start_block, store_params, table, temp,
    top_label, trap_text, Code, CodegenErrV, TRAP_STATUS,
};
use crate::program::{
    bindvs, clausevs, clone_strings, exprvs, lemma_call_view, lemma_cond_view, lemma_func_expr_view,
    lemma_func_view, modvs, strs, Expr, Func, Program,
};
use crate::scope::{
    child_label, entryvs, scope_at, sibling_fns, values, FnEntry, Place, Scope,
};
use vstd::prelude::*;
use vstd::string::StringExecFns;

verus! {

/// Why code generation failed.
#[derive(Debug, PartialEq)]
pub enum CodegenError {
    /// A name that nothing in scope binds.
    Unresolved(String),
    /// A call of a name that is bound to a value.
    NotAFunction(String),
    /// A call with a number of arguments other than the callee's number of
    /// parameters.
    Arity { name: String, expected: usize, got: usize },
    /// A nested function where a value is expected.
    FuncValue,
    /// The program has no function with the entry name.
    MissingEntry(String),
    /// Two functions of the program have this name.
    DuplicateFunction(String),
}

impl View for CodegenError {
    type V = CodegenErrV;

    open spec fn view(&self) -> CodegenErrV {
        match self {
            CodegenError::Unresolved(n) => CodegenErrV::Unresolved(n@),
            CodegenError::NotAFunction(n) => CodegenErrV::NotAFunction(n@),
            CodegenError::Arity { name, expected, got } => CodegenErrV::Arity {
                name: name@,
                expected: *expected as nat,
                got: *got as nat,
            },
            CodegenError::FuncValue => CodegenErrV::FuncValue,
            CodegenError::MissingEntry(n) => CodegenErrV::MissingEntry(n@),
            CodegenError::DuplicateFunction(n) => CodegenErrV::DuplicateFunction(n@),
        }
    }
}

/// The outcome of code generation, as a mathematical value.
pub open spec fn code_res(r: Result<String, CodegenError>) -> Code {
    match r {
        Ok(t) => Ok(t@),
        Err(e) => Err(e@),
    }
}

proof fn lemma_chain_step(pre: Seq<char>, t: Seq<char>, mid: Seq<char>, r: Code, tail: Code)
    ensures
        chain(Ok(pre), chain(chain(Ok(t), chain(Ok(mid), r)), tail)) == chain(
            Ok(pre + t + mid),
            chain(r, tail),
        ),
{
    lemma_chain_assoc(Ok(t), chain(Ok(mid), r), tail);
    lemma_chain_assoc(Ok(mid), r, tail);
    lemma_chain_ok(pre, t, chain(Ok(mid), chain(r, tail)));
    lemma_chain_ok(pre + t, mid, chain(r, tail));
}

fn inst0(name: &str) -> (r: Inst)
    ensures
        r@ == (InstV { name: name@, args: seq![] }),
{
    let r = Inst::new(String::from_str(name), Vec::new());
    assert(strs(r.args@) =~= seq![]);
    r
}

fn inst1(name: &str, a: &str) -> (r: Inst)
    ensures
        r@ == (InstV { name: name@, args: seq![a@] }),
{
    let mut args: Vec<String> = Vec::new();
    args.push(String::from_str(a));
    let r = Inst::new(String::from_str(name), args);
    assert(strs(r.args@) =~= seq![a@]);
    r
}

fn inst2(name: &str, a: &str, b: &str) -> (r: Inst)
    ensures
        r@ == (InstV { name: name@, args: seq![a@, b@] }),
{
    let mut args: Vec<String> = Vec::new();
    args.push(String::from_str(a));
    args.push(String::from_str(b));
    let r = Inst::new(String::from_str(name), args);
    assert(strs(r.args@) =~= seq![a@, b@]);
    r
}

fn put(out: &mut String, inst: Inst)
    ensures
        final(out)@ == old(out)@ + inst_line(inst@),
{
    let t = inst.to_string();
    out.append(t.as_str());
    out.append("\n");
    assert(final(out)@ =~= old(out)@ + inst_line(inst@));
}

fn put0(out: &mut String, name: &str)
    ensures
        final(out)@ == old(out)@ + ins0(name@),
{
    put(out, inst0(name));
}

fn put1(out: &mut String, name: &str, a: &str)
    ensures
        final(out)@ == old(out)@ + ins1(name@, a@),
{
    put(out, inst1(name, a));
}

fn put2(out: &mut String, name: &str, a: &str, b: &str)
    ensures
        final(out)@ == old(out)@ + ins2(name@, a@, b@),
{
    put(out, inst2(name, a, b));
}

fn put_label(out: &mut String, label: &str)
    ensures
        final(out)@ == old(out)@ + label_line(label@),
{
    out.append(label);
    out.append(":\n");
    assert(final(out)@ =~= old(out)@ + label_line(label@));
}

fn imm_int(n: i64) -> (s: String)
    ensures
        s@ == imm(n as int),
{
    let mut s = String::from_str("$");
    push_int(&mut s, n);
    s
}

fn imm_nat(n: u128) -> (s: String)
    ensures
        s@ == imm(n as int),
{
    let mut s = String::from_str("$");
    push_dec(&mut s, n);
    s
}

fn slot_ref(k: usize) -> (s: String)
    ensures
        s@ == slot(k as nat),
{
    let mut s = String::from_str("-");
    push_dec(&mut s, 8 * (k as u128 + 1));
    s.append("(%rbp)");
    s
}

fn temp_ref(i: usize) -> (s: String)
    ensures
        s@ == temp(i as nat),
{
    let mut s = String::new();
    push_dec(&mut s, 8 * (i as u128));
    s.append("(%rsp)");
    assert(s@ =~= temp(i as nat));
    s
}

fn incoming_ref(i: usize) -> (s: String)
    requires
        i >= 6,
    ensures
        s@ == incoming(i as nat),
{
    let mut s = String::new();
    push_dec(&mut s, 16 + 8 * (i as u128 - 6));
    s.append("(%rbp)");
    assert(s@ =~= incoming(i as nat));
    s
}

fn reg_name(i: usize) -> (r: &'static str)
    ensures
        r@ == arg_reg(i as nat),
{
    if i == 0 {
        "%rdi"
    } else if i == 1 {
        "%rsi"
    } else if i == 2 {
        "%rdx"
    } else if i == 3 {
        "%rcx"
    } else if i == 4 {
        "%r8"
    } else {
        "%r9"
    }
}

fn pad_of(n: u128) -> (r: u128)
    requires
        n <= 2 * usize::MAX,
    ensures
        r == pad(n as nat),
{
    n + n % 2
}

/// `tag`, the letter `mark`, the number `i` and a dot.
fn tagged(tag: &str, mark: &str, i: usize) -> (s: String)
    ensures
        s@ == tag@ + mark@ + dec(i as nat) + "."@,
{
    let mut s = String::from_str(tag);
    s.append(mark);
    push_dec(&mut s, i as u128);
    s.append(".");
    s
}

fn next_label_of(tag: &str, i: usize) -> (s: String)
    ensures
        s@ == next_label(tag@, i as nat),
{
    let mut s = String::from_str(".L");
    s.append(tag);
    s.append("N");
    push_dec(&mut s, i as u128);
    s
}

fn end_label_of(tag: &str) -> (s: String)
    ensures
        s@ == end_label(tag@),
{
    let mut s = String::from_str(".L");
    s.append(tag);
    s.append("E");
    s
}

fn child_label_of(parent: &str, name: &str) -> (s: String)
    ensures
        s@ == child_label(parent@, name@),
{
    let mut s = String::from_str(parent);
    s.append(".");
    push_mangled(&mut s, name);
    s
}

fn load_regs_text(n: usize) -> (s: String)
    ensures
        s@ == load_regs(n as nat, 0),
{
    let mut s = String::new();
    let mut i: usize = 0;
    assert(Seq::<char>::empty() + load_regs(n as nat, 0) =~= load_regs(n as nat, 0));
    while i < n && i < 6
        invariant
            i <= 6,
            load_regs(n as nat, 0) == s@ + load_regs(n as nat, i as nat),
        decreases 6 - i,
    {
        let ghost before = s@;
        let t = temp_ref(i);
        put2(&mut s, "mov", t.as_str(), reg_name(i));
        assert(before + (ins2("mov"@, temp(i as nat), arg_reg(i as nat)) + load_regs(
            n as nat,
            (i + 1) as nat,
        )) =~= s@ + load_regs(n as nat, (i + 1) as nat));
        i += 1;
    }
    assert(s@ + Seq::<char>::empty() =~= s@);
    s
}

fn call_close_text(n: usize, label: &str) -> (s: String)
    ensures
        s@ == call_close(n as nat, label@),
{
    if n == 0 {
        let mut s = String::new();
        put1(&mut s, "call", label);
        assert(s@ =~= call_close(n as nat, label@));
        s
    } else {
        let room: u128 = 8 * pad_of(n as u128);
        let mut s = load_regs_text(n);
        if n <= 6 {
            put1(&mut s, "call", label);
            let back = imm_nat(room);
            put2(&mut s, "add", back.as_str(), "%rsp");
        } else {
            put2(&mut s, "add", "$48", "%rsp");
            put1(&mut s, "call", label);
            let back = imm_nat(room - 48);
            put2(&mut s, "add", back.as_str(), "%rsp");
            proof {
                reveal_strlit("$48");
                reveal_strlit("$");
                assert(imm(48) =~= "$48"@) by {
                    reveal_with_fuel(dec, 3);
                }
            }
        }
        s
    }
}

fn store_params_text(np: usize) -> (s: String)
    ensures
        s@ == store_params(np as nat, 0),
{
    let mut s = String::new();
    let mut i: usize = 0;
    assert(Seq::<char>::empty() + store_params(np as nat, 0) =~= store_params(np as nat, 0));
    while i < np
        invariant
            i <= np,
            store_params(np as nat, 0) == s@ + store_params(np as nat, i as nat),
        decreases np - i,
    {
        let ghost before = s@;
        let home = slot_ref(i);
        if i < 6 {
            put2(&mut s, "mov", reg_name(i), home.as_str());
            assert(before + (ins2("mov"@, arg_reg(i as nat), slot(i as nat)) + store_params(
                np as nat,
                (i + 1) as nat,
            )) =~= s@ + store_params(np as nat, (i + 1) as nat));
        } else {
            let from = incoming_ref(i);
            put2(&mut s, "mov", from.as_str(), "%rax");
            put2(&mut s, "mov", "%rax", home.as_str());
            assert(before + (ins2("mov"@, incoming(i as nat), "%rax"@) + ins2(
                "mov"@,
                "%rax"@,
                slot(i as nat),
            ) + store_params(np as nat, (i + 1) as nat)) =~= s@ + store_params(
                np as nat,
                (i + 1) as nat,
            ));
        }
        i += 1;
    }
    assert(s@ + Seq::<char>::empty() =~= s@);
    s
}

impl Expr {
    /// Generates the code that leaves the value of this expression in
    /// `%rax`. Names are resolved in `scope`; `tag` makes the local labels
    /// of this expression its own.
    pub fn code(&self, scope: &Scope, tag: &str) -> (r: Result<String, CodegenError>)
        ensures
            code_res(r) == emit_expr(self@, scope@, tag@),
        decreases self,
    {
        match self {
            Expr::I64(n) => {
                let mut out = String::new();
                let v = imm_int(*n);
                put2(&mut out, "mov", v.as_str(), "%rax");
                assert(out@ =~= ins2("mov"@, imm(*n as int), "%rax"@));
                Ok(out)
            },
            Expr::Var(name) => match scope.resolve(name) {
                Some(Place::Slot(k)) => {
                    let mut out = String::new();
                    let home = slot_ref(k);
                    put2(&mut out, "mov", home.as_str(), "%rax");
                    assert(out@ =~= ins2("mov"@, slot(k as nat), "%rax"@));
                    Ok(out)
                },
                Some(Place::Code(label, _)) => {
                    let mut out = String::new();
                    let mut addr = String::from_str("$");
                    addr.append(label.as_str());
                    put2(&mut out, "mov", addr.as_str(), "%rax");
                    assert(out@ =~= ins2("mov"@, "$"@ + label@, "%rax"@));
                    Ok(out)
                },
                None => Err(CodegenError::Unresolved(name.clone())),
            },
            Expr::Call(name, args) => {
                proof {
                    lemma_call_view(*self);
                }
                match scope.resolve(name) {
                    None => Err(CodegenError::Unresolved(name.clone())),
                    Some(Place::Slot(_)) => Err(CodegenError::NotAFunction(name.clone())),
                    Some(Place::Code(label, arity)) => {
                        let n = args.len();
                        if arity != n {
                            return Err(
                                CodegenError::Arity { name: name.clone(), expected: arity, got: n },
                            );
                        }
                        let ghost av = exprvs(args@);
                        let ghost tail: Code = Ok(call_close(n as nat, label@));
                        let mut out = String::new();
                        if n > 0 {
                            let room = imm_nat(8 * pad_of(n as u128));
                            put2(&mut out, "sub", room.as_str(), "%rsp");
                        }
                        assert(out@ =~= call_open(n as nat));
                        let mut i: usize = 0;
                        while i < n
                            invariant
                                i <= n,
                                n == args.len(),
                                self is Call,
                                self->Call_1 == *args,
                                av == exprvs(args@),
                                emit_expr(self@, scope@, tag@) == chain(
                                    Ok(out@),
                                    chain(emit_args(av, i as nat, scope@, tag@), tail),
                                ),
                            decreases n - i,
                        {
                            let ghost before = out@;
                            let t = tagged(tag, "A", i);
                            match args[i].code(scope, t.as_str()) {
                                Err(e) => {
                                    return Err(e);
                                },
                                Ok(text) => {
                                    out.append(text.as_str());
                                    let wait = temp_ref(i);
                                    put2(&mut out, "mov", "%rax", wait.as_str());
                                    proof {
                                        lemma_chain_step(
                                            before,
                                            text@,
                                            ins2("mov"@, "%rax"@, temp(i as nat)),
                                            emit_args(av, (i + 1) as nat, scope@, tag@),
                                            tail,
                                        );
                                    }
                                },
                            }
                            i += 1;
                        }
                        let close = call_close_text(n, label.as_str());
                        proof {
                            lemma_chain_empty(tail);
                        }
                        out.append(close.as_str());
                        Ok(out)
                    },
                }
            },
            Expr::Cond(clauses) => {
                proof {
                    lemma_cond_view(*self);
                }
                let ghost cv = clausevs(clauses@);
                let stop = end_label_of(tag);
                let ghost tail: Code = Ok(trap_text() + label_line(end_label(tag@)));
                let mut out = String::new();
                let mut i: usize = 0;
                proof {
                    lemma_chain_empty(chain(emit_clauses(cv, 0, scope@, tag@), tail));
                }
                while i < clauses.len()
                    invariant
                        i <= clauses.len(),
                        self is Cond,
                        self->Cond_0 == *clauses,
                        cv == clausevs(clauses@),
                        stop@ == end_label(tag@),
                        emit_expr(self@, scope@, tag@) == chain(
                            Ok(out@),
                            chain(emit_clauses(cv, i as nat, scope@, tag@), tail),
                        ),
                    decreases clauses.len() - i,
                {
                    let ghost before = out@;
                    let skip = next_label_of(tag, i);
                    let t1 = tagged(tag, "T", i);
                    let t2 = tagged(tag, "R", i);
                    let ghost rest = emit_clauses(cv, (i + 1) as nat, scope@, tag@);
                    match clauses[i].0.code(scope, t1.as_str()) {
                        Err(e) => {
                            return Err(e);
                        },
                        Ok(test) => {
                            out.append(test.as_str());
                            put2(&mut out, "cmp", "$0", "%rax");
                            put1(&mut out, "je", skip.as_str());
                            let ghost mid = out@;
                            assert(mid =~= before + test@ + clause_test(tag@, i as nat));
                            match clauses[i].1.code(scope, t2.as_str()) {
                                Err(e) => {
                                    return Err(e);
                                },
                                Ok(result) => {
                                    out.append(result.as_str());
                                    put1(&mut out, "jmp", stop.as_str());
                                    put_label(&mut out, skip.as_str());
                                    proof {
                                        assert(out@ =~= mid + result@ + clause_done(
                                            tag@,
                                            i as nat,
                                        ));
                                        let inner = chain(
                                            Ok(result@),
                                            chain(Ok(clause_done(tag@, i as nat)), rest),
                                        );
                                        lemma_chain_step(
                                            before,
                                            test@,
                                            clause_test(tag@, i as nat),
                                            inner,
                                            tail,
                                        );
                                        lemma_chain_step(
                                            mid,
                                            result@,
                                            clause_done(tag@, i as nat),
                                            rest,
                                            tail,
                                        );
                                    }
                                },
                            }
                        },
                    }
                    i += 1;
                }
                let ghost body = out@;
                put2(&mut out, "mov", "$3", "%rdi");
                put1(&mut out, "call", "exit");
                put_label(&mut out, stop.as_str());
                proof {
                    reveal_strlit("$3");
                    reveal_strlit("$");
                    assert(imm(TRAP_STATUS as int) =~= "$3"@);
                    let last = trap_text() + label_line(end_label(tag@));
                    assert(out@ =~= body + last);
                    lemma_chain_empty(tail);
                }
                Ok(out)
            },
            Expr::Func(_) => Err(CodegenError::FuncValue),
        }
    }
}

proof fn lemma_chain_empty(c: Code)
    ensures
        chain(Ok(Seq::empty()), c) == c,
{
    if let Ok(x) = c {
        assert(Seq::<char>::empty() + x =~= x);
    }
}


/// The functions that the body of a function labelled `label` can call:
/// its own nested definitions, then `outer`.
fn inner_fns(binds: &Vec<(String, Expr)>, label: &str, outer: &Vec<FnEntry>) -> (v: Vec<FnEntry>)
    ensures
        entryvs(v@) == sibling_fns(bindvs(binds@), binds@.len(), label@) + entryvs(outer@),
{
    let ghost bv = bindvs(binds@);
    let mut v: Vec<FnEntry> = Vec::new();
    let mut i: usize = 0;
    assert(entryvs(v@) =~= sibling_fns(bv, 0, label@));
    while i < binds.len()
        invariant
            i <= binds.len(),
            bv == bindvs(binds@),
            entryvs(v@) == sibling_fns(bv, i as nat, label@),
        decreases binds.len() - i,
    {
        let ghost before = entryvs(v@);
        match &binds[i].1 {
            Expr::Func(g) => {
                proof {
                    lemma_func_expr_view(binds@[i as int].1);
                    lemma_func_view(**g);
                }
                let entry = FnEntry {
                    name: binds[i].0.clone(),
                    label: child_label_of(label, binds[i].0.as_str()),
                    arity: g.params.len(),
                };
                v.push(entry);
                assert(entryvs(v@) =~= before.push(entry@));
            },
            _ => {},
        }
        i += 1;
    }
    let ghost sibs = entryvs(v@);
    let mut k: usize = 0;
    assert(entryvs(v@) =~= sibs + entryvs(outer@).take(0));
    while k < outer.len()
        invariant
            k <= outer.len(),
            entryvs(v@) == sibs + entryvs(outer@).take(k as int),
        decreases outer.len() - k,
    {
        let ghost before = entryvs(v@);
        let entry = FnEntry {
            name: outer[k].name.clone(),
            label: outer[k].label.clone(),
            arity: outer[k].arity,
        };
        v.push(entry);
        assert(entryvs(v@) =~= before.push(entry@));
        assert(entryvs(outer@).take(k + 1) =~= entryvs(outer@).take(k as int).push(entry@));
        assert(sibs + entryvs(outer@).take(k + 1) =~= (sibs + entryvs(outer@).take(k as int)).push(
            entry@,
        ));
        k += 1;
    }
    assert(entryvs(outer@).take(outer@.len() as int) =~= entryvs(outer@));
    v
}

fn count_values(binds: &Vec<(String, Expr)>) -> (n: usize)
    ensures
        n == values(bindvs(binds@), binds@.len()).len(),
{
    let ghost bv = bindvs(binds@);
    let mut n: usize = 0;
    let mut i: usize = 0;
    while i < binds.len()
        invariant
            i <= binds.len(),
            n <= i,
            bv == bindvs(binds@),
            n == values(bv, i as nat).len(),
        decreases binds.len() - i,
    {
        match &binds[i].1 {
            Expr::Func(_) => {
                proof {
                    lemma_func_expr_view(binds@[i as int].1);
                }
            },
            _ => {
                n += 1;
            },
        }
        i += 1;
    }
    n
}

impl Func {
    /// Generates the code of this function under the label `label`, and
    /// after it the code of the functions nested in it. `outer` holds the
    /// functions of the enclosing scopes that the body may call.
    pub fn code(&self, label: &str, outer: &Vec<FnEntry>) -> (r: Result<String, CodegenError>)
        ensures
            code_res(r) == emit_func(self@, label@, entryvs(outer@)),
        decreases self,
    {
        proof {
            lemma_func_view(*self);
        }
        let ghost fv = self@;
        let ghost ps = strs(self.params@);
        let ghost bv = bindvs(self.binds@);
        let ghost ov = entryvs(outer@);
        let inner = inner_fns(&self.binds, label, outer);
        let ghost iv = entryvs(inner@);
        let np = self.params.len();
        let nb = self.binds.len();
        let nslots: u128 = np as u128 + count_values(&self.binds) as u128;
        let ghost ret_code = emit_expr(
            fv.ret,
            scope_at(ps, bv, bv.len(), label@, ov),
            ret_tag(label@),
        );
        let ghost nested = emit_nested(bv, 0, label@, iv);
        let ghost tail: Code = chain(ret_code, chain(Ok(epilogue()), nested));
        let ghost total: Code = emit_func(fv, label@, ov);

        let mut out = String::new();
        put_label(&mut out, label);
        put1(&mut out, "push", "%rbp");
        put2(&mut out, "mov", "%rsp", "%rbp");
        let room = imm_nat(8 * pad_of(nslots));
        put2(&mut out, "sub", room.as_str(), "%rsp");
        let stores = store_params_text(np);
        out.append(stores.as_str());
        assert(out@ =~= prologue(label@, np as nat, slot_count(fv)));

        let mut locals = clone_strings(&self.params);
        let mut scope = Scope { locals, funcs: inner };
        let mut j: usize = 0;
        assert(strs(scope.locals@) =~= ps + values(bv, 0));
        while j < nb
            invariant
                j <= nb,
                nb == self.binds.len(),
                ps == strs(self.params@),
                bv == bindvs(self.binds@),
                iv == sibling_fns(bv, bv.len(), label@) + ov,
                scope@.locals == ps + values(bv, j as nat),
                scope@.funcs == iv,
                total == emit_func(self@, label@, entryvs(outer@)),
                ov == entryvs(outer@),
                total == chain(Ok(out@), chain(emit_binds(ps, bv, j as nat, label@, ov), tail)),
            decreases nb - j,
        {
            let ghost before = out@;
            match &self.binds[j].1 {
                Expr::Func(_) => {
                    proof {
                        lemma_func_expr_view(self.binds@[j as int].1);
                    }
                },
                e => {
                    assert(!(bv[j as int].1 is Func));
                    assert(scope@ == scope_at(ps, bv, j as nat, label@, ov));
                    let t = tagged(label, ".B", j);
                    match e.code(&scope, t.as_str()) {
                        Err(err) => {
                            return Err(err);
                        },
                        Ok(text) => {
                            out.append(text.as_str());
                            let home = slot_ref(scope.locals.len());
                            put2(&mut out, "mov", "%rax", home.as_str());
                            proof {
                                lemma_chain_step(
                                    before,
                                    text@,
                                    ins2("mov"@, "%rax"@, slot(ps.len() + values(bv, j as nat).len())),
                                    emit_binds(ps, bv, (j + 1) as nat, label@, ov),
                                    tail,
                                );
                            }
                            let ghost old_locals = strs(scope.locals@);
                            scope.locals.push(self.binds[j].0.clone());
                            assert(strs(scope.locals@) =~= old_locals.push(bv[j as int].0));
                            assert(old_locals.push(bv[j as int].0) =~= ps + values(
                                bv,
                                (j + 1) as nat,
                            ));
                        },
                    }
                },
            }
            j += 1;
        }
        let ghost body = out@;
        proof {
            lemma_chain_empty(tail);
            assert(scope@ == scope_at(ps, bv, bv.len(), label@, ov));
        }
        let mut rt = String::from_str(label);
        rt.append(".V.");
        match self.ret.code(&scope, rt.as_str()) {
            Err(err) => {
                return Err(err);
            },
            Ok(text) => {
                out.append(text.as_str());
                put2(&mut out, "mov", "%rbp", "%rsp");
                put1(&mut out, "pop", "%rbp");
                put0(&mut out, "ret");
                proof {
                    assert(out@ =~= body + text@ + epilogue());
                    lemma_chain_assoc(Ok(text@), Ok(epilogue()), nested);
                    lemma_chain_ok(text@, epilogue(), nested);
                    lemma_chain_ok(body, text@ + epilogue(), nested);
                    assert(body + (text@ + epilogue()) =~= out@);
                }
            },
        }
        let mut i: usize = 0;
        while i < nb
            invariant
                i <= nb,
                nb == self.binds.len(),
                bv == bindvs(self.binds@),
                scope@.funcs == iv,
                total == emit_func(self@, label@, entryvs(outer@)),
                total == chain(Ok(out@), emit_nested(bv, i as nat, label@, iv)),
            decreases nb - i,
        {
            let ghost before = out@;
            match &self.binds[i].1 {
                Expr::Func(g) => {
                    proof {
                        lemma_func_expr_view(self.binds@[i as int].1);
                    }
                    let l = child_label_of(label, self.binds[i].0.as_str());
                    match g.code(l.as_str(), &scope.funcs) {
                        Err(err) => {
                            return Err(err);
                        },
                        Ok(text) => {
                            out.append(text.as_str());
                            proof {
                                lemma_chain_ok(
                                    before,
                                    text@,
                                    emit_nested(bv, (i + 1) as nat, label@, iv),
                                );
                            }
                        },
                    }
                },
                _ => {},
            }
            i += 1;
        }
        proof {
            lemma_chain_ok(out@, Seq::empty(), Ok(Seq::empty()));
        }
        Ok(out)
    }
}


fn find_mod_from(mods: &Vec<(String, Func)>, name: &String, from: usize) -> (r: Option<usize>)
    ensures
        match r {
            Some(k) => find_mod(modvs(mods@), name@, from as int) == Some(k as int) && k
                < mods@.len(),
            None => find_mod(modvs(mods@), name@, from as int) is None,
        },
{
    let mut i: usize = from;
    while i < mods.len()
        invariant
            from <= i,
            find_mod(modvs(mods@), name@, from as int) == find_mod(modvs(mods@), name@, i as int),
        decreases mods.len() - i,
    {
        if mods[i].0 == *name {
            return Some(i);
        }
        i += 1;
    }
    None
}

fn start_bb(entry_label: &str) -> (b: BB)
    ensures
        b@ == start_block(entry_label@),
{
    let mut insts: Vec<Inst> = Vec::new();
    insts.push(inst1("push", "%rbp"));
    insts.push(inst2("mov", "%rsp", "%rbp"));
    insts.push(inst1("call", entry_label));
    insts.push(inst2("mov", "%rax", "%rsi"));
    insts.push(inst2("mov", "$_mb_main_result", "%rdi"));
    insts.push(inst2("mov", "$0", "%al"));
    insts.push(inst1("call", "printf"));
    insts.push(inst2("mov", "$0", "%eax"));
    insts.push(inst1("pop", "%rbp"));
    insts.push(inst0("ret"));
    let b = BB { label: String::from_str("main"), insts };
    assert(b@.insts =~= start_block(entry_label@).insts);
    b
}

fn add_bb() -> (b: BB)
    ensures
        b@ == add_block(),
{
    let mut insts: Vec<Inst> = Vec::new();
    insts.push(inst2("mov", "%rdi", "%rax"));
    insts.push(inst2("add", "%rsi", "%rax"));
    insts.push(inst0("ret"));
    let b = BB { label: String::from_str("_mb_add"), insts };
    assert(b@.insts =~= add_block().insts);
    b
}

/// The outermost scope of a program: its functions, then the built-ins.
fn table_of(mods: &Vec<(String, Func)>) -> (v: Vec<FnEntry>)
    ensures
        entryvs(v@) == table(modvs(mods@)),
{
    let ghost mv = modvs(mods@);
    let mut v: Vec<FnEntry> = Vec::new();
    let mut i: usize = 0;
    assert(entryvs(v@) =~= mod_entries(mv, 0));
    while i < mods.len()
        invariant
            i <= mods.len(),
            mv == modvs(mods@),
            entryvs(v@) == mod_entries(mv, i as nat),
        decreases mods.len() - i,
    {
        let ghost before = entryvs(v@);
        proof {
            lemma_func_view(mods@[i as int].1);
        }
        let entry = FnEntry {
            name: mods[i].0.clone(),
            label: child_label_of("_mb", mods[i].0.as_str()),
            arity: mods[i].1.params.len(),
        };
        v.push(entry);
        assert(entryvs(v@) =~= before.push(entry@));
        i += 1;
    }
    let ghost before = entryvs(v@);
    let plus = FnEntry { name: String::from_str("+"), label: String::from_str("_mb_add"), arity: 2 };
    v.push(plus);
    assert(entryvs(v@) =~= before + builtins());
    v
}

impl Program {
    /// Generates the assembly document of this program.
    pub fn code(&self) -> (r: Result<String, CodegenError>)
        ensures
            code_res(r) == emit_program(self@),
    {
        let ghost mv = modvs(self.mods@);
        let k = match find_mod_from(&self.mods, &self.entry, 0) {
            None => {
                return Err(CodegenError::MissingEntry(self.entry.clone()));
            },
            Some(k) => k,
        };
        let mut i: usize = 0;
        while i < self.mods.len()
            invariant
                i <= self.mods.len(),
                mv == modvs(self.mods@),
                find_dup(mv, 0) == find_dup(mv, i as int),
                find_mod(mv, self.entry@, 0) == Some(k as int),
            decreases self.mods.len() - i,
        {
            if find_mod_from(&self.mods, &self.mods[i].0, i + 1).is_some() {
                return Err(CodegenError::DuplicateFunction(self.mods[i].0.clone()));
            }
            i += 1;
        }
        proof {
            lemma_func_view(self.mods@[k as int].1);
        }
        let arity = self.mods[k].1.params.len();
        if arity != 0 {
            return Err(CodegenError::Arity { name: self.entry.clone(), expected: arity, got: 0 });
        }
        let outer = table_of(&self.mods);
        let ghost tv = entryvs(outer@);
        let entry_label = child_label_of("_mb", self.entry.as_str());
        let mut out = String::from_str("\n  .global main\n\n  .text\n");
        let start = start_bb(entry_label.as_str()).to_string();
        out.append(start.as_str());
        let ghost tail: Code = Ok(block_text(add_block()) + data_text());
        let ghost total = emit_program(self@);
        assert(out@ =~= head_text() + block_text(start_block(top_label(self.entry@))));
        let mut j: usize = 0;
        while j < self.mods.len()
            invariant
                j <= self.mods.len(),
                mv == modvs(self.mods@),
                tv == entryvs(outer@),
                total == emit_program(self@),
                total == chain(Ok(out@), chain(emit_mods(mv, j as nat, tv), tail)),
            decreases self.mods.len() - j,
        {
            let ghost before = out@;
            let l = child_label_of("_mb", self.mods[j].0.as_str());
            match self.mods[j].1.code(l.as_str(), &outer) {
                Err(e) => {
                    return Err(e);
                },
                Ok(text) => {
                    out.append(text.as_str());
                    proof {
                        let rest = emit_mods(mv, (j + 1) as nat, tv);
                        lemma_chain_assoc(Ok(text@), rest, tail);
                        lemma_chain_ok(before, text@, chain(rest, tail));
                    }
                },
            }
            j += 1;
        }
        let ghost body = out@;
        let adder = add_bb().to_string();
        out.append(adder.as_str());
        out.append("\n  .data\n_mb_main_result: .string \"result = %ld\\n\"\n");
        proof {
            lemma_chain_empty(tail);
            assert(out@ =~= body + (block_text(add_block()) + data_text()));
        }
        Ok(out)
    }
}

} // verus!
