//! What the code generator emits, stated over the mathematical values of
//! the program model.
//!
//! Calling convention: the first six arguments travel in `%rdi`, `%rsi`,
//! `%rdx`, `%rcx`, `%r8`, `%r9`, the others on the stack with the seventh
//! at the lowest address; the result comes back in `%rax`. Every function
//! keeps its parameters and value bindings in 8-byte slots below `%rbp`,
//! in a frame that is a multiple of 16 bytes.

use crate::amd64::{block_text, inst_line, label_line, InstV, BBV};
use crate::chars::{dec, dec_int};
use crate::lower::program_wf;
use crate::program::{ExprV, FuncV, ProgramV};
use crate::scope::{
    child_label, find_func, lemma_child_label_injective, lemma_find_func_chain, resolve, scope_at,
    sibling_fns, values, FnEntryV, PlaceV, ScopeV,
};
use vstd::prelude::*;

verus! {

/// Mathematical value of a code generation failure.
pub enum CodegenErrV {
    /// A name that nothing in scope binds.
    Unresolved(Seq<char>),
    /// A call of a name that is bound to a value.
    NotAFunction(Seq<char>),
    /// A call with a number of arguments other than the callee's number of
    /// parameters.
    Arity { name: Seq<char>, expected: nat, got: nat },
    /// A nested function where a value is expected.
    FuncValue,
    /// The program has no function with the entry name.
    MissingEntry(Seq<char>),
    /// Two functions of the program have this name.
    DuplicateFunction(Seq<char>),
}

/// Emitted text, or the failure that stopped code generation.
pub type Code = Result<Seq<char>, CodegenErrV>;

/// The text of `a` followed by the text of `b`; the first failure wins.
pub open spec fn chain(a: Code, b: Code) -> Code {
    match a {
        Err(e) => Err(e),
        Ok(x) => match b {
            Err(e) => Err(e),
            Ok(y) => Ok(x + y),
        },
    }
}

/// Chaining is associative.
pub proof fn lemma_chain_assoc(a: Code, b: Code, c: Code)
    ensures
        chain(chain(a, b), c) == chain(a, chain(b, c)),
{
    if let Ok(x) = a {
        if let Ok(y) = b {
            if let Ok(z) = c {
                assert((x + y) + z =~= x + (y + z));
            }
        }
    }
}

/// Chaining emitted texts is concatenation.
pub proof fn lemma_chain_ok(x: Seq<char>, y: Seq<char>, c: Code)
    ensures
        chain(Ok(x), chain(Ok(y), c)) == chain(Ok(x + y), c),
        chain(Ok(x), Ok(y)) == Ok::<Seq<char>, CodegenErrV>(x + y),
        chain(Ok(x), Ok(Seq::empty())) == Ok::<Seq<char>, CodegenErrV>(x),
{
    lemma_chain_assoc(Ok(x), Ok(y), c);
    assert(x + Seq::<char>::empty() =~= x);
}

/// The line of an instruction without operands.
pub open spec fn ins0(name: Seq<char>) -> Seq<char> {
    inst_line(InstV { name, args: seq![] })
}

/// The line of an instruction with one operand.
pub open spec fn ins1(name: Seq<char>, a: Seq<char>) -> Seq<char> {
    inst_line(InstV { name, args: seq![a] })
}

/// The line of an instruction with two operands.
pub open spec fn ins2(name: Seq<char>, a: Seq<char>, b: Seq<char>) -> Seq<char> {
    inst_line(InstV { name, args: seq![a, b] })
}

/// An immediate operand.
pub open spec fn imm(n: int) -> Seq<char> {
    "$"@ + dec_int(n)
}

/// The frame slot with index `k`, below the frame pointer.
pub open spec fn slot(k: nat) -> Seq<char> {
    "-"@ + dec(8 * (k + 1)) + "(%rbp)"@
}

/// The place where argument `i` of a call waits until all are evaluated.
pub open spec fn temp(i: nat) -> Seq<char> {
    dec(8 * i) + "(%rsp)"@
}

/// The place where a callee finds argument `i`, for `i >= 6`.
pub open spec fn incoming(i: nat) -> Seq<char> {
    dec((16 + 8 * (i - 6)) as nat) + "(%rbp)"@
}

/// The register that carries argument `i`, for `i < 6`.
pub open spec fn arg_reg(i: nat) -> Seq<char> {
    if i == 0 {
        "%rdi"@
    } else if i == 1 {
        "%rsi"@
    } else if i == 2 {
        "%rdx"@
    } else if i == 3 {
        "%rcx"@
    } else if i == 4 {
        "%r8"@
    } else {
        "%r9"@
    }
}

/// `n` rounded up to an even number: 8-byte slots come in pairs, so that
/// the stack pointer stays a multiple of 16.
pub open spec fn pad(n: nat) -> nat {
    n + n % 2
}

/// The tag of argument `i` of a call tagged `tag`. Tags make local labels
/// unique: every subexpression of a function has its own.
pub open spec fn arg_tag(tag: Seq<char>, i: nat) -> Seq<char> {
    tag + "A"@ + dec(i) + "."@
}

/// The tag of the test of clause `i` of a conditional tagged `tag`.
pub open spec fn test_tag(tag: Seq<char>, i: nat) -> Seq<char> {
    tag + "T"@ + dec(i) + "."@
}

/// The tag of the result of clause `i` of a conditional tagged `tag`.
pub open spec fn result_tag(tag: Seq<char>, i: nat) -> Seq<char> {
    tag + "R"@ + dec(i) + "."@
}

/// The label that clause `i` of a conditional jumps to when its test is
/// zero.
pub open spec fn next_label(tag: Seq<char>, i: nat) -> Seq<char> {
    ".L"@ + tag + "N"@ + dec(i)
}

/// The label after a conditional.
pub open spec fn end_label(tag: Seq<char>) -> Seq<char> {
    ".L"@ + tag + "E"@
}

/// The tag of binding `j` of the function labelled `label`.
pub open spec fn bind_tag(label: Seq<char>, j: nat) -> Seq<char> {
    label + ".B"@ + dec(j) + "."@
}

/// The tag of the trailing expression of the function labelled `label`.
pub open spec fn ret_tag(label: Seq<char>) -> Seq<char> {
    label + ".V."@
}

/// The exit status of a compiled program whose conditional had no clause
/// with a non-zero test.
pub const TRAP_STATUS: i64 = 3;

/// What runs when no clause of a conditional applies: the program exits
/// with the trap status.
pub open spec fn trap_text() -> Seq<char> {
    ins2("mov"@, imm(TRAP_STATUS as int), "%rdi"@) + ins1("call"@, "exit"@)
}

/// Moves the waiting arguments `i..n` that travel in registers to their
/// registers.
pub open spec fn load_regs(n: nat, i: nat) -> Seq<char>
    decreases 6 - i,
{
    if i >= n || i >= 6 {
        Seq::empty()
    } else {
        ins2("mov"@, temp(i), arg_reg(i)) + load_regs(n, i + 1)
    }
}

/// Before the arguments of a call with `n` arguments: room for them.
pub open spec fn call_open(n: nat) -> Seq<char> {
    if n == 0 {
        Seq::empty()
    } else {
        ins2("sub"@, imm((8 * pad(n)) as int), "%rsp"@)
    }
}

/// After the arguments of a call: the first six go to their registers, the
/// stack pointer moves up to the seventh, control passes to the callee, and
/// the room is given back.
pub open spec fn call_close(n: nat, label: Seq<char>) -> Seq<char> {
    if n == 0 {
        ins1("call"@, label)
    } else if n <= 6 {
        load_regs(n, 0) + ins1("call"@, label) + ins2("add"@, imm((8 * pad(n)) as int), "%rsp"@)
    } else {
        load_regs(n, 0) + ins2("add"@, imm(48), "%rsp"@) + ins1("call"@, label) + ins2(
            "add"@,
            imm(8 * pad(n) - 48),
            "%rsp"@,
        )
    }
}

/// The code that leaves the value of `e` in `%rax`.
pub open spec fn emit_expr(e: ExprV, s: ScopeV, tag: Seq<char>) -> Code
    decreases e, 0nat,
{
    match e {
        ExprV::I64(n) => Ok(ins2("mov"@, imm(n), "%rax"@)),
        ExprV::Var(name) => match resolve(s, name) {
            Some(PlaceV::Slot(k)) => Ok(ins2("mov"@, slot(k), "%rax"@)),
            Some(PlaceV::Code(label, _)) => Ok(ins2("mov"@, "$"@ + label, "%rax"@)),
            None => Err(CodegenErrV::Unresolved(name)),
        },
        ExprV::Call(name, args) => match resolve(s, name) {
            None => Err(CodegenErrV::Unresolved(name)),
            Some(PlaceV::Slot(_)) => Err(CodegenErrV::NotAFunction(name)),
            Some(PlaceV::Code(label, arity)) => if arity != args.len() {
                Err(CodegenErrV::Arity { name, expected: arity, got: args.len() })
            } else {
                chain(
                    Ok(call_open(args.len())),
                    chain(emit_args(args, 0, s, tag), Ok(call_close(args.len(), label))),
                )
            },
        },
        ExprV::Cond(clauses) => chain(
            emit_clauses(clauses, 0, s, tag),
            Ok(trap_text() + label_line(end_label(tag))),
        ),
        ExprV::Func(_) => Err(CodegenErrV::FuncValue),
    }
}

/// The code that evaluates the arguments `args[i..]` left to right and
/// stores each where it waits for the call.
pub open spec fn emit_args(args: Seq<ExprV>, i: nat, s: ScopeV, tag: Seq<char>) -> Code
    decreases args, args.len() - i,
{
    if i >= args.len() {
        Ok(Seq::empty())
    } else {
        chain(
            emit_expr(args[i as int], s, arg_tag(tag, i)),
            chain(Ok(ins2("mov"@, "%rax"@, temp(i))), emit_args(args, i + 1, s, tag)),
        )
    }
}

/// After the test of clause `i`: skip the clause if the test is zero.
pub open spec fn clause_test(tag: Seq<char>, i: nat) -> Seq<char> {
    ins2("cmp"@, "$0"@, "%rax"@) + ins1("je"@, next_label(tag, i))
}

/// After the result of clause `i`: leave the conditional.
pub open spec fn clause_done(tag: Seq<char>, i: nat) -> Seq<char> {
    ins1("jmp"@, end_label(tag)) + label_line(next_label(tag, i))
}

/// The code of the clauses `clauses[i..]`: each test in order, and after
/// the first that is not zero its result, which ends the conditional.
pub open spec fn emit_clauses(clauses: Seq<(ExprV, ExprV)>, i: nat, s: ScopeV, tag: Seq<char>) -> Code
    decreases clauses, clauses.len() - i,
{
    if i >= clauses.len() {
        Ok(Seq::empty())
    } else {
        chain(
            emit_expr(clauses[i as int].0, s, test_tag(tag, i)),
            chain(
                Ok(clause_test(tag, i)),
                chain(
                    emit_expr(clauses[i as int].1, s, result_tag(tag, i)),
                    chain(Ok(clause_done(tag, i)), emit_clauses(clauses, i + 1, s, tag)),
                ),
            ),
        )
    }
}

/// Stores the incoming arguments `i..np` in their frame slots.
pub open spec fn store_params(np: nat, i: nat) -> Seq<char>
    decreases np - i,
{
    if i >= np {
        Seq::empty()
    } else if i < 6 {
        ins2("mov"@, arg_reg(i), slot(i)) + store_params(np, i + 1)
    } else {
        ins2("mov"@, incoming(i), "%rax"@) + ins2("mov"@, "%rax"@, slot(i)) + store_params(
            np,
            i + 1,
        )
    }
}

/// The entry of a function: its label, a frame of `nslots` slots rounded
/// up to a multiple of 16 bytes, and the parameters stored in their slots.
pub open spec fn prologue(label: Seq<char>, np: nat, nslots: nat) -> Seq<char> {
    label_line(label) + ins1("push"@, "%rbp"@) + ins2("mov"@, "%rsp"@, "%rbp"@) + ins2(
        "sub"@,
        imm((8 * pad(nslots)) as int),
        "%rsp"@,
    ) + store_params(np, 0)
}

/// The exit of a function: the frame is released and control returns.
pub open spec fn epilogue() -> Seq<char> {
    ins2("mov"@, "%rbp"@, "%rsp"@) + ins1("pop"@, "%rbp"@) + ins0("ret"@)
}

/// The number of frame slots of a function.
pub open spec fn slot_count(f: FuncV) -> nat {
    f.params.len() + values(f.binds, f.binds.len()).len()
}

/// The code of a function and, after it, of the functions nested in it.
pub open spec fn emit_func(f: FuncV, label: Seq<char>, outer: Seq<FnEntryV>) -> Code
    decreases f, 0nat,
{
    chain(
        Ok(prologue(label, f.params.len(), slot_count(f))),
        chain(
            emit_binds(f.params, f.binds, 0, label, outer),
            chain(
                emit_expr(
                    f.ret,
                    scope_at(f.params, f.binds, f.binds.len(), label, outer),
                    ret_tag(label),
                ),
                chain(
                    Ok(epilogue()),
                    emit_nested(
                        f.binds,
                        0,
                        label,
                        sibling_fns(f.binds, f.binds.len(), label) + outer,
                    ),
                ),
            ),
        ),
    )
}

/// The code of the value bindings `bs[j..]`: each initializer is evaluated
/// in the scope of its place and stored in the binding's slot.
pub open spec fn emit_binds(
    params: Seq<Seq<char>>,
    bs: Seq<(Seq<char>, ExprV)>,
    j: nat,
    label: Seq<char>,
    outer: Seq<FnEntryV>,
) -> Code
    decreases bs, bs.len() - j,
{
    if j >= bs.len() {
        Ok(Seq::empty())
    } else if bs[j as int].1 is Func {
        emit_binds(params, bs, j + 1, label, outer)
    } else {
        chain(
            emit_expr(bs[j as int].1, scope_at(params, bs, j, label, outer), bind_tag(label, j)),
            chain(
                Ok(ins2("mov"@, "%rax"@, slot(params.len() + values(bs, j).len()))),
                emit_binds(params, bs, j + 1, label, outer),
            ),
        )
    }
}

/// The code of the functions defined among the bindings `bs[i..]`.
pub open spec fn emit_nested(
    bs: Seq<(Seq<char>, ExprV)>,
    i: nat,
    label: Seq<char>,
    inner: Seq<FnEntryV>,
) -> Code
    decreases bs, bs.len() - i,
{
    if i >= bs.len() {
        Ok(Seq::empty())
    } else {
        match bs[i as int].1 {
            ExprV::Func(g) => chain(
                emit_func(*g, child_label(label, bs[i as int].0), inner),
                emit_nested(bs, i + 1, label, inner),
            ),
            _ => emit_nested(bs, i + 1, label, inner),
        }
    }
}

/// The label of the program function `name`.
pub open spec fn top_label(name: Seq<char>) -> Seq<char> {
    child_label("_mb"@, name)
}

/// The label of the built-in addition.
pub open spec fn add_label() -> Seq<char> {
    "_mb_add"@
}

/// The functions that every program can call: `+`, which adds two
/// integers.
pub open spec fn builtins() -> Seq<FnEntryV> {
    seq![FnEntryV { name: "+"@, label: add_label(), arity: 2 }]
}

/// The entries of the first `n` functions of a program.
pub open spec fn mod_entries(mods: Seq<(Seq<char>, FuncV)>, n: nat) -> Seq<FnEntryV>
    decreases n,
{
    if n == 0 || n > mods.len() {
        Seq::empty()
    } else {
        mod_entries(mods, (n - 1) as nat).push(
            FnEntryV {
                name: mods[n - 1].0,
                label: top_label(mods[n - 1].0),
                arity: mods[n - 1].1.params.len(),
            },
        )
    }
}

/// The outermost scope: the program's functions, then the built-ins.
pub open spec fn table(mods: Seq<(Seq<char>, FuncV)>) -> Seq<FnEntryV> {
    mod_entries(mods, mods.len()) + builtins()
}

/// The first function from `from` on that has the name.
pub open spec fn find_mod(mods: Seq<(Seq<char>, FuncV)>, name: Seq<char>, from: int) -> Option<
    int,
>
    decreases mods.len() - from,
{
    if from < 0 || from >= mods.len() {
        None
    } else if mods[from].0 == name {
        Some(from)
    } else {
        find_mod(mods, name, from + 1)
    }
}

/// The first function from `i` on whose name a later function has too.
pub open spec fn find_dup(mods: Seq<(Seq<char>, FuncV)>, i: int) -> Option<Seq<char>>
    decreases mods.len() - i,
{
    if i < 0 || i >= mods.len() {
        None
    } else if find_mod(mods, mods[i].0, i + 1) is Some {
        Some(mods[i].0)
    } else {
        find_dup(mods, i + 1)
    }
}

/// The code of the program functions `mods[i..]`.
pub open spec fn emit_mods(mods: Seq<(Seq<char>, FuncV)>, i: nat, outer: Seq<FnEntryV>) -> Code
    decreases mods.len() - i,
{
    if i >= mods.len() {
        Ok(Seq::empty())
    } else {
        chain(
            emit_func(mods[i as int].1, top_label(mods[i as int].0), outer),
            emit_mods(mods, i + 1, outer),
        )
    }
}

/// The process entry point: calls the entry function, prints its result
/// with `printf` and the format string, and returns 0.
pub open spec fn start_block(entry_label: Seq<char>) -> BBV {
    BBV {
        label: "main"@,
        insts: seq![
            InstV { name: "push"@, args: seq!["%rbp"@] },
            InstV { name: "mov"@, args: seq!["%rsp"@, "%rbp"@] },
            InstV { name: "call"@, args: seq![entry_label] },
            InstV { name: "mov"@, args: seq!["%rax"@, "%rsi"@] },
            InstV { name: "mov"@, args: seq!["$_mb_main_result"@, "%rdi"@] },
            InstV { name: "mov"@, args: seq!["$0"@, "%al"@] },
            InstV { name: "call"@, args: seq!["printf"@] },
            InstV { name: "mov"@, args: seq!["$0"@, "%eax"@] },
            InstV { name: "pop"@, args: seq!["%rbp"@] },
            InstV { name: "ret"@, args: seq![] },
        ],
    }
}

/// The built-in addition: the sum of its two arguments.
pub open spec fn add_block() -> BBV {
    BBV {
        label: add_label(),
        insts: seq![
            InstV { name: "mov"@, args: seq!["%rdi"@, "%rax"@] },
            InstV { name: "add"@, args: seq!["%rsi"@, "%rax"@] },
            InstV { name: "ret"@, args: seq![] },
        ],
    }
}

/// The start of the document: the entry directive and the text section.
pub open spec fn head_text() -> Seq<char> {
    "\n  .global main\n\n  .text\n"@
}

/// The end of the document: the data section with the format string.
pub open spec fn data_text() -> Seq<char> {
    "\n  .data\n_mb_main_result: .string \"result = %ld\\n\"\n"@
}

/// The assembly document of a program: the entry point, every function,
/// the built-ins and the data section. Fails if the entry function is
/// missing or takes parameters, or if two functions share a name.
pub open spec fn emit_program(p: ProgramV) -> Code {
    match find_mod(p.mods, p.entry, 0) {
        None => Err(CodegenErrV::MissingEntry(p.entry)),
        Some(k) => match find_dup(p.mods, 0) {
            Some(name) => Err(CodegenErrV::DuplicateFunction(name)),
            None => if p.mods[k].1.params.len() != 0 {
                Err(
                    CodegenErrV::Arity {
                        name: p.entry,
                        expected: p.mods[k].1.params.len(),
                        got: 0,
                    },
                )
            } else {
                chain(
                    Ok(head_text() + block_text(start_block(top_label(p.entry)))),
                    chain(
                        emit_mods(p.mods, 0, table(p.mods)),
                        Ok(block_text(add_block()) + data_text()),
                    ),
                )
            },
        },
    }
}


proof fn lemma_find_mod_none(mods: Seq<(Seq<char>, FuncV)>, name: Seq<char>, from: int)
    requires
        0 <= from,
        forall|i: int| from <= i < mods.len() ==> (#[trigger] mods[i]).0 != name,
    ensures
        find_mod(mods, name, from) is None,
    decreases mods.len() - from,
{
    if from < mods.len() {
        lemma_find_mod_none(mods, name, from + 1);
    }
}

proof fn lemma_find_mod_first(mods: Seq<(Seq<char>, FuncV)>, name: Seq<char>, from: int, k: int)
    requires
        0 <= from <= k < mods.len(),
        mods[k].0 == name,
        forall|i: int| from <= i < k ==> (#[trigger] mods[i]).0 != name,
    ensures
        find_mod(mods, name, from) == Some(k),
    decreases k - from,
{
    if from < k {
        lemma_find_mod_first(mods, name, from + 1, k);
    }
}

proof fn lemma_find_dup_none(mods: Seq<(Seq<char>, FuncV)>, i: int)
    requires
        0 <= i,
        forall|a: int, b: int| 0 <= a < b < mods.len() ==> mods[a].0 != mods[b].0,
    ensures
        find_dup(mods, i) is None,
    decreases mods.len() - i,
{
    if i < mods.len() {
        lemma_find_mod_none(mods, mods[i].0, i + 1);
        lemma_find_dup_none(mods, i + 1);
    }
}

/// A well-formed program gets past the checks on its function table: code
/// generation can then only fail inside one of its functions.
pub proof fn lemma_wf_program_emits(p: ProgramV)
    requires
        program_wf(p),
    ensures
        emit_program(p) == chain(
            Ok(head_text() + block_text(start_block(top_label(p.entry)))),
            chain(emit_mods(p.mods, 0, table(p.mods)), Ok(block_text(add_block()) + data_text())),
        ),
{
    let k = choose|k: int|
        0 <= k < p.mods.len() && (#[trigger] p.mods[k]).0 == p.entry && p.mods[k].1.params.len()
            == 0;
    lemma_find_mod_first(p.mods, p.entry, 0, k);
    lemma_find_dup_none(p.mods, 0);
}


/// Frame layout: the room for `nslots` slots is a multiple of 16 bytes,
/// holds every slot, and is at most one slot larger than needed. The same
/// holds of the room in which the arguments of a call wait.
pub proof fn lemma_frame_layout(nslots: nat, k: nat)
    requires
        k < nslots,
    ensures
        (8 * pad(nslots)) % 16 == 0,
        8 * (k + 1) <= 8 * pad(nslots),
        8 * nslots <= 8 * pad(nslots) <= 8 * nslots + 8,
{
}

/// A call with more than six arguments leaves exactly the arguments from
/// the seventh on above the stack pointer, in a room that is still a
/// multiple of 16 bytes.
pub proof fn lemma_stack_arguments(n: nat)
    requires
        n > 6,
    ensures
        8 * pad(n) - 48 >= 8 * (n - 6),
        (8 * pad(n) - 48) % 16 == 0,
{
}


/// The functions of a program get different labels, none of which is the
/// label of the built-in addition.
pub proof fn lemma_top_labels_distinct(name: Seq<char>, other: Seq<char>)
    ensures
        top_label(name) == top_label(other) ==> name == other,
        top_label(name) != add_label(),
{
    if top_label(name) == top_label(other) {
        lemma_child_label_injective("_mb"@, name, "_mb"@, other);
    }
    reveal_strlit("_mb");
    reveal_strlit(".");
    reveal_strlit("_mb_add");
    assert(top_label(name)[3] == '.');
    assert(add_label()[3] == '_');
}


/// The entry of the program function at index `k`.
pub open spec fn mod_entry(mods: Seq<(Seq<char>, FuncV)>, k: int) -> FnEntryV {
    FnEntryV { name: mods[k].0, label: top_label(mods[k].0), arity: mods[k].1.params.len() }
}

proof fn lemma_mod_entries_index(mods: Seq<(Seq<char>, FuncV)>, n: nat)
    requires
        n <= mods.len(),
    ensures
        mod_entries(mods, n).len() == n,
        forall|k: int| 0 <= k < n ==> #[trigger] mod_entries(mods, n)[k] == mod_entry(mods, k),
    decreases n,
{
    if n > 0 {
        lemma_mod_entries_index(mods, (n - 1) as nat);
    }
}

proof fn lemma_find_in_mod_entries(mods: Seq<(Seq<char>, FuncV)>, name: Seq<char>, i: int)
    requires
        0 <= i,
    ensures
        find_func(mod_entries(mods, mods.len()), name, i) == (match find_mod(mods, name, i) {
            Some(k) => Some(mod_entry(mods, k)),
            None => None,
        }),
    decreases mods.len() - i,
{
    lemma_mod_entries_index(mods, mods.len());
    if i < mods.len() {
        lemma_find_in_mod_entries(mods, name, i + 1);
    }
}

/// What a name means in the outermost scope: the program's first function
/// of that name; failing that, the built-in addition if the name is `+`;
/// else nothing.
pub proof fn lemma_table_lookup(mods: Seq<(Seq<char>, FuncV)>, name: Seq<char>)
    ensures
        find_func(table(mods), name, 0) == (match find_mod(mods, name, 0) {
            Some(k) => Some(mod_entry(mods, k)),
            None => if name == "+"@ {
                Some(builtins()[0])
            } else {
                None
            },
        }),
{
    lemma_find_func_chain(mod_entries(mods, mods.len()), builtins(), name);
    lemma_find_in_mod_entries(mods, name, 0);
    assert(find_func(builtins(), name, 1) is None);
}

} // verus!
