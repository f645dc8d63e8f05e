//! The lexer: source text to tokens.
//!
//! The token grammar is stated as spec functions over the characters of the
//! text and the kind of each character: whether it is whitespace, a digit,
//! a letter, a number. The kinds come from the `regex` crate's Unicode
//! classes; the grammar itself works for any assignment of kinds.

use crate::chars::{byte_len, byte_offsets, chars_of, text_of};
use crate::parse::{share, tokvs, Ast, Sexp, Src, SrcV, Tok, TokV};
use regex::Regex;
use std::rc::Rc;
use vstd::prelude::*;

verus! {

/// Whether the regular expression `pattern`, compiled by the `regex` crate
/// with its default settings, finds a match in the text that consists of the
/// single character `c`. False for a pattern that does not compile.
pub uninterp spec fn regex_class_has(pattern: Seq<char>, c: char) -> bool;

/// Compiles `pattern` with `Regex::new` and asks `Regex::is_match` about the
/// one-character text `c`. The contract only names the answer.
#[verifier::external_body]
fn class_has(pattern: &str, c: char) -> (b: bool)
    ensures
        b == regex_class_has(pattern@, c),
{
    match Regex::new(pattern) {
        Ok(re) => re.is_match(c.encode_utf8(&mut [0u8; 4])),
        Err(_) => false,
    }
}

/// The character classes of the token grammar.
#[derive(Clone, Copy, Debug, PartialEq, Eq)]
pub enum CharClass {
    /// Whitespace between tokens.
    Space,
    /// A digit of a numeric literal.
    Digit,
    /// A character that may continue a symbol.
    SymCont,
}

/// What the Unicode classes say about one character.
#[derive(Clone, Copy, Debug, PartialEq, Eq)]
pub struct CharKind {
    /// White space (`\s`).
    pub space: bool,
    /// A decimal digit (`\d`).
    pub digit: bool,
    /// A letter (`\p{L}`).
    pub letter: bool,
    /// A number of any sort (`\p{N}`).
    pub number: bool,
}

/// The kind of a character that is in no class.
pub open spec fn no_kind() -> CharKind {
    CharKind { space: false, digit: false, letter: false, number: false }
}

/// The kind of the character `c`, as the `regex` crate sees it.
pub open spec fn kind_of(c: char) -> CharKind {
    CharKind {
        space: regex_class_has("\\s"@, c),
        digit: regex_class_has("\\d"@, c),
        letter: regex_class_has("\\p{L}"@, c),
        number: regex_class_has("\\p{N}"@, c),
    }
}

/// The kinds of the characters of a text.
pub open spec fn kinds_of(s: Seq<char>) -> Seq<CharKind> {
    Seq::new(s.len(), |i: int| kind_of(s[i]))
}

/// The kind recorded for position `i`; no kind where none is recorded.
pub open spec fn kind_at(kinds: Seq<CharKind>, i: int) -> CharKind {
    if 0 <= i < kinds.len() {
        kinds[i]
    } else {
        no_kind()
    }
}

/// An opening bracket, round or square.
pub open spec fn is_open(c: char) -> bool {
    c == '(' || c == '['
}

/// A closing bracket, round or square.
pub open spec fn is_close(c: char) -> bool {
    c == ')' || c == ']'
}

/// A punctuation character that a symbol may hold.
pub open spec fn sym_punct(c: char) -> bool {
    c == '_' || c == '+' || c == '-' || c == '!' || c == '?'
}

/// A character that may start a symbol.
pub open spec fn sym_start(c: char, kd: CharKind) -> bool {
    sym_punct(c) || kd.letter
}

/// A character that may continue a symbol.
pub open spec fn sym_cont(c: char, kd: CharKind) -> bool {
    sym_start(c, kd) || kd.number
}

/// Whether the character `c` of kind `kd` is in the class `k`.
pub open spec fn in_class(k: CharClass, c: char, kd: CharKind) -> bool {
    match k {
        CharClass::Space => kd.space,
        CharClass::Digit => kd.digit,
        CharClass::SymCont => sym_cont(c, kd),
    }
}

/// The end of the longest run of characters of class `k` that starts at `i`.
pub open spec fn run_end(s: Seq<char>, kinds: Seq<CharKind>, i: int, k: CharClass) -> int
    decreases s.len() - i,
{
    if 0 <= i < s.len() && in_class(k, s[i], kind_at(kinds, i)) {
        run_end(s, kinds, i + 1, k)
    } else {
        i
    }
}

/// One of the digits `0` to `9`.
pub open spec fn ascii_digit(c: char) -> bool {
    '0' <= c <= '9'
}

/// The value of a digit `0` to `9`; zero for any other character.
pub open spec fn digit_val(c: char) -> nat {
    if ascii_digit(c) {
        (c as u32 - 48) as nat
    } else {
        0
    }
}

/// Whether every character of `t` is one of the digits `0` to `9`.
pub open spec fn all_ascii_digits(t: Seq<char>) -> bool {
    forall|k: int| 0 <= k < t.len() ==> ascii_digit(#[trigger] t[k])
}

/// The number that a text of decimal digits denotes.
pub open spec fn dec_value(t: Seq<char>) -> nat
    decreases t.len(),
{
    if t.len() == 0 {
        0
    } else {
        10 * dec_value(t.drop_last()) + digit_val(t.last())
    }
}

/// The character that an escape sequence `\c` stands for.
pub open spec fn unescape(c: char) -> Option<char> {
    if c == '"' {
        Some('"')
    } else if c == 'n' {
        Some('\n')
    } else if c == 't' {
        Some('\t')
    } else if c == '\\' {
        Some('\\')
    } else {
        None
    }
}

/// Outcome of reading a string literal, as a mathematical value.
pub enum StrScan {
    /// The text does not start with a double quote.
    NotString,
    /// The decoded contents and the position after the closing quote.
    Done(Seq<char>, int),
    /// The text ended before the closing quote.
    Unterminated,
    /// A backslash was followed by an unsupported character.
    BadEscape,
}

/// Reads the body of a string literal from position `j`, with `acc` decoded
/// so far.
pub open spec fn scan_str(s: Seq<char>, j: int, acc: Seq<char>) -> StrScan
    decreases s.len() - j,
{
    if j < 0 || j >= s.len() {
        StrScan::Unterminated
    } else if s[j] == '"' {
        StrScan::Done(acc, j + 1)
    } else if s[j] == '\\' {
        if j + 1 >= s.len() {
            StrScan::Unterminated
        } else {
            match unescape(s[j + 1]) {
                Some(x) => scan_str(s, j + 2, acc.push(x)),
                None => StrScan::BadEscape,
            }
        }
    } else {
        scan_str(s, j + 1, acc.push(s[j]))
    }
}

/// Reads a string literal that starts at `start`.
pub open spec fn read_str(s: Seq<char>, start: int) -> StrScan {
    if 0 <= start < s.len() && s[start] == '"' {
        scan_str(s, start + 1, Seq::empty())
    } else {
        StrScan::NotString
    }
}

/// Why lexing failed.
#[derive(Clone, Copy, Debug, PartialEq, Eq)]
pub enum LexKind {
    /// No token rule applies, or a numeric literal holds a digit outside
    /// `0`..`9`.
    InvalidToken,
    /// The text ends inside a string literal.
    UnterminatedString,
    /// A backslash in a string literal is followed by a character other
    /// than `"`, `n`, `t` and `\`.
    BadEscape,
    /// An integer literal does not fit in 64 bits.
    IntOverflow,
}

/// The token that starts at position `i` of `s`, and the position after it.
///
/// The rules are tried in this order: a bracket is a token of its own,
/// without a value; a digit starts a numeric literal, which is the longest
/// run of digits, and a float if a dot follows the run, with the digits
/// after the dot; a symbol character starts a symbol, which goes on as far
/// as symbol characters and numbers do; a double quote starts a string
/// literal. A numeric literal must be written with the digits `0` to `9`,
/// and an integer must fit in 64 bits.
pub open spec fn token_at(s: Seq<char>, kinds: Seq<CharKind>, i: int, at: SrcV) -> Result<
    (TokV, int),
    LexKind,
> {
    if i < 0 || i >= s.len() {
        Err(LexKind::InvalidToken)
    } else {
        let c = s[i];
        if is_open(c) || is_close(c) {
            Ok((TokV { val: None, txt: seq![c], src: at }, i + 1))
        } else if kind_at(kinds, i).digit {
            let d = run_end(s, kinds, i + 1, CharClass::Digit);
            if d < s.len() && s[d] == '.' {
                let e = run_end(s, kinds, d + 1, CharClass::Digit);
                let txt = s.subrange(i, e);
                if all_ascii_digits(s.subrange(i, d)) && all_ascii_digits(
                    s.subrange(d + 1, e),
                ) {
                    Ok((TokV { val: Some(Sexp::Float(txt, at)), txt, src: at }, e))
                } else {
                    Err(LexKind::InvalidToken)
                }
            } else {
                let txt = s.subrange(i, d);
                if !all_ascii_digits(txt) {
                    Err(LexKind::InvalidToken)
                } else if dec_value(txt) > i64::MAX {
                    Err(LexKind::IntOverflow)
                } else {
                    Ok((TokV { val: Some(Sexp::Int(dec_value(txt) as int, at)), txt, src: at }, d))
                }
            }
        } else if sym_start(c, kind_at(kinds, i)) {
            let e = run_end(s, kinds, i + 1, CharClass::SymCont);
            let txt = s.subrange(i, e);
            Ok((TokV { val: Some(Sexp::Sym(txt, at)), txt, src: at }, e))
        } else {
            match read_str(s, i) {
                StrScan::Done(decoded, e) => Ok(
                    (
                        TokV {
                            val: Some(Sexp::Str(decoded, at)),
                            txt: s.subrange(i, e),
                            src: at,
                        },
                        e,
                    ),
                ),
                StrScan::Unterminated => Err(LexKind::UnterminatedString),
                StrScan::BadEscape => Err(LexKind::BadEscape),
                StrScan::NotString => Err(LexKind::InvalidToken),
            }
        }
    }
}

/// A run ends inside the text, holds only characters of its class, and is
/// followed by a character of another class or by nothing.
pub proof fn lemma_run_end_bounds(s: Seq<char>, kinds: Seq<CharKind>, i: int, k: CharClass)
    requires
        0 <= i <= s.len(),
    ensures
        i <= run_end(s, kinds, i, k) <= s.len(),
        forall|j: int|
            i <= j < run_end(s, kinds, i, k) ==> in_class(k, #[trigger] s[j], kind_at(kinds, j)),
        run_end(s, kinds, i, k) < s.len() ==> !in_class(
            k,
            s[run_end(s, kinds, i, k)],
            kind_at(kinds, run_end(s, kinds, i, k)),
        ),
    decreases s.len() - i,
{
    if i < s.len() && in_class(k, s[i], kind_at(kinds, i)) {
        lemma_run_end_bounds(s, kinds, i + 1, k);
    }
}

/// A string literal that ends does so after at least one more character,
/// inside the text.
pub proof fn lemma_scan_str_bounds(s: Seq<char>, j: int, acc: Seq<char>)
    requires
        0 <= j <= s.len(),
    ensures
        scan_str(s, j, acc) matches StrScan::Done(_, e) ==> j < e <= s.len(),
        !(scan_str(s, j, acc) is NotString),
    decreases s.len() - j,
{
    if j >= s.len() {
    } else if s[j] == '"' {
    } else if s[j] == '\\' {
        if j + 1 < s.len() {
            if let Some(x) = unescape(s[j + 1]) {
                lemma_scan_str_bounds(s, j + 2, acc.push(x));
            }
        }
    } else {
        lemma_scan_str_bounds(s, j + 1, acc.push(s[j]));
    }
}

/// A token is never empty, ends inside the text, and its text is the part of
/// the source that it covers.
pub proof fn lemma_token_span(s: Seq<char>, kinds: Seq<CharKind>, i: int, at: SrcV)
    ensures
        token_at(s, kinds, i, at) matches Ok((t, e)) ==> {
            &&& i < e <= s.len()
            &&& t.txt == s.subrange(i, e)
            &&& t.src == at
        },
{
    if 0 <= i < s.len() {
        let c = s[i];
        lemma_run_end_bounds(s, kinds, i + 1, CharClass::Digit);
        lemma_run_end_bounds(s, kinds, i + 1, CharClass::SymCont);
        let d = run_end(s, kinds, i + 1, CharClass::Digit);
        if d < s.len() {
            lemma_run_end_bounds(s, kinds, d + 1, CharClass::Digit);
        }
        if c == '"' {
            lemma_scan_str_bounds(s, i + 1, Seq::empty());
        }
        if is_open(c) || is_close(c) {
            assert(seq![c] =~= s.subrange(i, i + 1));
        }
    }
}


/// Asks the `regex` crate for the kind of a character.
pub fn classify(c: char) -> (kd: CharKind)
    ensures
        kd == kind_of(c),
{
    CharKind {
        space: class_has("\\s", c),
        digit: class_has("\\d", c),
        letter: class_has("\\p{L}", c),
        number: class_has("\\p{N}", c),
    }
}

/// The kinds of all the characters of a text.
pub fn classify_all(chars: &Vec<char>) -> (kinds: Vec<CharKind>)
    ensures
        kinds@ == kinds_of(chars@),
{
    let mut kinds: Vec<CharKind> = Vec::new();
    let mut i: usize = 0;
    while i < chars.len()
        invariant
            i <= chars.len(),
            kinds@.len() == i,
            forall|k: int| 0 <= k < i ==> kinds@[k] == kind_of(chars@[k]),
        decreases chars.len() - i,
    {
        kinds.push(classify(chars[i]));
        i += 1;
    }
    assert(kinds@ =~= kinds_of(chars@));
    kinds
}

fn kind_in(kinds: &Vec<CharKind>, i: usize) -> (kd: CharKind)
    ensures
        kd == kind_at(kinds@, i as int),
{
    if i < kinds.len() {
        kinds[i]
    } else {
        CharKind { space: false, digit: false, letter: false, number: false }
    }
}

fn is_sym_start(c: char, kd: CharKind) -> (b: bool)
    ensures
        b == sym_start(c, kd),
{
    c == '_' || c == '+' || c == '-' || c == '!' || c == '?' || kd.letter
}

fn class_of(k: CharClass, c: char, kd: CharKind) -> (b: bool)
    ensures
        b == in_class(k, c, kd),
{
    match k {
        CharClass::Space => kd.space,
        CharClass::Digit => kd.digit,
        CharClass::SymCont => is_sym_start(c, kd) || kd.number,
    }
}

/// Finds the end of the run of class `k` that starts at `i`.
fn run_to(chars: &Vec<char>, kinds: &Vec<CharKind>, i: usize, k: CharClass) -> (e: usize)
    requires
        i <= chars.len(),
    ensures
        e == run_end(chars@, kinds@, i as int, k),
        i <= e <= chars.len(),
{
    let mut j: usize = i;
    while j < chars.len() && class_of(k, chars[j], kind_in(kinds, j))
        invariant
            i <= j <= chars.len(),
            run_end(chars@, kinds@, i as int, k) == run_end(chars@, kinds@, j as int, k),
        decreases chars.len() - j,
    {
        j += 1;
    }
    j
}

/// Maps the character after a backslash to the character it stands for.
pub fn unescape_char(cc: char) -> (r: Option<char>)
    ensures
        r == unescape(cc),
{
    if cc == '"' {
        Some('"')
    } else if cc == 'n' {
        Some('\n')
    } else if cc == 't' {
        Some('\t')
    } else if cc == '\\' {
        Some('\\')
    } else {
        None
    }
}

/// Outcome of reading a string literal.
#[derive(Debug, PartialEq)]
pub enum StrLit {
    NotString,
    Done(String, usize),
    Unterminated,
    BadEscape,
}

impl View for StrLit {
    type V = StrScan;

    open spec fn view(&self) -> StrScan {
        match self {
            StrLit::NotString => StrScan::NotString,
            StrLit::Done(t, e) => StrScan::Done(t@, *e as int),
            StrLit::Unterminated => StrScan::Unterminated,
            StrLit::BadEscape => StrScan::BadEscape,
        }
    }
}

/// Reads the string literal that starts at `start`: the decoded contents and
/// the position after the closing quote.
pub fn read_string(chars: &Vec<char>, start: usize) -> (r: StrLit)
    ensures
        r@ == read_str(chars@, start as int),
{
    if start >= chars.len() || chars[start] != '"' {
        return StrLit::NotString;
    }
    let mut out = String::new();
    let mut j: usize = start + 1;
    loop
        invariant
            start < chars.len(),
            start < j <= chars.len(),
            read_str(chars@, start as int) == scan_str(chars@, j as int, out@),
        decreases chars.len() - j,
    {
        if j >= chars.len() {
            return StrLit::Unterminated;
        }
        let c = chars[j];
        if c == '"' {
            return StrLit::Done(out, j + 1);
        }
        if c == '\\' {
            if j + 1 >= chars.len() {
                return StrLit::Unterminated;
            }
            match unescape_char(chars[j + 1]) {
                Some(x) => {
                    out.push(x);
                    j += 2;
                },
                None => {
                    return StrLit::BadEscape;
                },
            }
        } else {
            out.push(c);
            j += 1;
        }
    }
}

fn all_digits(chars: &Vec<char>, a: usize, b: usize) -> (r: bool)
    requires
        a <= b <= chars.len(),
    ensures
        r == all_ascii_digits(chars@.subrange(a as int, b as int)),
{
    let mut k: usize = a;
    while k < b
        invariant
            a <= k <= b <= chars.len(),
            all_ascii_digits(chars@.subrange(a as int, k as int)),
        decreases b - k,
    {
        let c = chars[k];
        if !('0' <= c && c <= '9') {
            assert(chars@.subrange(a as int, b as int)[k - a] == c);
            return false;
        }
        k += 1;
        assert forall|m: int| 0 <= m < k - a implies ascii_digit(
            #[trigger] chars@.subrange(a as int, k as int)[m],
        ) by {
            if m < k - a - 1 {
                assert(chars@.subrange(a as int, k - 1)[m] == chars@[a + m]);
            }
        }
    }
    true
}

proof fn lemma_dec_prefix(t: Seq<char>, k: int)
    requires
        0 <= k <= t.len(),
    ensures
        dec_value(t.take(k)) <= dec_value(t),
    decreases t.len(),
{
    if k < t.len() {
        lemma_dec_prefix(t.drop_last(), k);
        assert(t.drop_last().take(k) =~= t.take(k));
    } else {
        assert(t.take(k) =~= t);
    }
}

/// Decodes the decimal digits `chars[a..b]`, or reports that the number does
/// not fit in a signed 64-bit integer.
fn decode_int(chars: &Vec<char>, a: usize, b: usize) -> (r: Option<i64>)
    requires
        a <= b <= chars.len(),
        all_ascii_digits(chars@.subrange(a as int, b as int)),
    ensures
        match r {
            Some(v) => v == dec_value(chars@.subrange(a as int, b as int)),
            None => dec_value(chars@.subrange(a as int, b as int)) > i64::MAX,
        },
{
    let ghost t = chars@.subrange(a as int, b as int);
    let mut acc: u128 = 0;
    let mut k: usize = a;
    assert(t.take(0) =~= Seq::<char>::empty());
    while k < b
        invariant
            a <= k <= b <= chars.len(),
            t == chars@.subrange(a as int, b as int),
            all_ascii_digits(t),
            acc == dec_value(t.take(k - a)),
            acc <= i64::MAX,
        decreases b - k,
    {
        let c = chars[k];
        assert(t[k - a] == c);
        let dv: u128 = (c as u32 - 48) as u128;
        let next: u128 = acc * 10 + dv;
        proof {
            assert(t.take(k - a + 1).drop_last() =~= t.take(k - a));
            assert(t.take(k - a + 1).last() == c);
            assert(next == dec_value(t.take(k - a + 1)));
        }
        if next > 0x7fff_ffff_ffff_ffff {
            proof {
                lemma_dec_prefix(t, k - a + 1);
            }
            return None;
        }
        acc = next;
        k += 1;
    }
    assert(t.take(b - a) =~= t);
    Some(acc as i64)
}

/// Reads the token that starts at position `i` of the characters `chars`,
/// whose kinds are `kinds`. `at` is the position to record in the token.
pub fn next_token(chars: &Vec<char>, kinds: &Vec<CharKind>, i: usize, at: Src) -> (r: Result<
    (Tok, usize),
    LexKind,
>)
    ensures
        match r {
            Ok((t, e)) => token_at(chars@, kinds@, i as int, at@) == Ok::<(TokV, int), LexKind>(
                (t@, e as int),
            ),
            Err(k) => token_at(chars@, kinds@, i as int, at@) == Err::<(TokV, int), LexKind>(k),
        },
{
    if i >= chars.len() {
        return Err(LexKind::InvalidToken);
    }
    let c = chars[i];
    if c == '(' || c == '[' || c == ')' || c == ']' {
        let txt = text_of(chars, i, i + 1);
        assert(txt@ =~= seq![c]);
        return Ok((Tok { val: None, txt, src: at }, i + 1));
    }
    if kind_in(kinds, i).digit {
        let d = run_to(chars, kinds, i + 1, CharClass::Digit);
        if d < chars.len() && chars[d] == '.' {
            let e = run_to(chars, kinds, d + 1, CharClass::Digit);
            if all_digits(chars, i, d) && all_digits(chars, d + 1, e) {
                let txt = text_of(chars, i, e);
                let val = Ast::F64(txt.clone(), at.clone());
                return Ok((Tok { val: Some(val), txt, src: at }, e));
            } else {
                return Err(LexKind::InvalidToken);
            }
        } else {
            if !all_digits(chars, i, d) {
                return Err(LexKind::InvalidToken);
            }
            match decode_int(chars, i, d) {
                None => {
                    return Err(LexKind::IntOverflow);
                },
                Some(v) => {
                    let txt = text_of(chars, i, d);
                    let val = Ast::I64(v, at.clone());
                    return Ok((Tok { val: Some(val), txt, src: at }, d));
                },
            }
        }
    }
    if is_sym_start(c, kind_in(kinds, i)) {
        let e = run_to(chars, kinds, i + 1, CharClass::SymCont);
        let txt = text_of(chars, i, e);
        let val = Ast::Sym(txt.clone(), at.clone());
        return Ok((Tok { val: Some(val), txt, src: at }, e));
    }
    match read_string(chars, i) {
        StrLit::Done(decoded, e) => {
            proof {
                lemma_scan_str_bounds(chars@, i + 1, Seq::empty());
            }
            let txt = text_of(chars, i, e);
            let val = Ast::Str(decoded, at.clone());
            Ok((Tok { val: Some(val), txt, src: at }, e))
        },
        StrLit::Unterminated => Err(LexKind::UnterminatedString),
        StrLit::BadEscape => Err(LexKind::BadEscape),
        StrLit::NotString => Err(LexKind::InvalidToken),
    }
}


/// Up to twenty characters of the text from position `i` on.
pub open spec fn preview(s: Seq<char>, i: int) -> Seq<char> {
    s.subrange(
        i,
        if i + 20 <= s.len() {
            i + 20
        } else {
            s.len() as int
        },
    )
}

/// Mathematical value of a lexing failure.
pub struct LexErrorV {
    pub kind: LexKind,
    pub offs: nat,
    pub near: Seq<char>,
}

/// A lexing failure: what went wrong, the byte offset of the offending
/// token, and the text that follows.
#[derive(Debug, PartialEq)]
pub struct LexError {
    pub kind: LexKind,
    pub offs: usize,
    pub near: String,
}

impl View for LexError {
    type V = LexErrorV;

    open spec fn view(&self) -> LexErrorV {
        LexErrorV { kind: self.kind, offs: self.offs as nat, near: self.near@ }
    }
}

/// Lexes `s` from position `i` on, with the tokens `acc` already read.
/// Whitespace is skipped; the first token that cannot be read ends lexing.
pub open spec fn lex_from(s: Seq<char>, kinds: Seq<CharKind>, i: int, acc: Seq<TokV>) -> Result<
    Seq<TokV>,
    LexErrorV,
>
    decreases s.len() - i,
{
    if i < 0 || i >= s.len() {
        Ok(acc)
    } else if kind_at(kinds, i).space {
        lex_from(s, kinds, i + 1, acc)
    } else {
        let at = SrcV { file: s, offs: byte_len(s, i as nat) };
        match token_at(s, kinds, i, at) {
            Err(kind) => Err(LexErrorV { kind, offs: at.offs, near: preview(s, i) }),
            Ok((t, e)) => {
                proof {
                    lemma_token_span(s, kinds, i, at);
                }
                lex_from(s, kinds, e, acc.push(t))
            },
        }
    }
}

/// The tokens of the text `s` whose characters have the kinds `kinds`.
pub open spec fn lex_with(s: Seq<char>, kinds: Seq<CharKind>) -> Result<Seq<TokV>, LexErrorV> {
    lex_from(s, kinds, 0, Seq::empty())
}

/// The tokens of the text `s`.
pub open spec fn lex(s: Seq<char>) -> Result<Seq<TokV>, LexErrorV> {
    lex_with(s, kinds_of(s))
}

/// Splits source text into tokens, given the kind of each of its
/// characters. A character without a recorded kind is in no class.
pub fn lex_chars(text: String, kinds: &Vec<CharKind>) -> (r: Result<Vec<Tok>, LexError>)
    ensures
        match r {
            Ok(toks) => lex_with(text@, kinds@) == Ok::<Seq<TokV>, LexErrorV>(tokvs(toks@)),
            Err(e) => lex_with(text@, kinds@) == Err::<Seq<TokV>, LexErrorV>(e@),
        },
{
    let ghost s = text@;
    let chars = chars_of(text.as_str());
    let offsets = byte_offsets(text.as_str(), &chars);
    let file = Rc::new(text);
    let mut toks: Vec<Tok> = Vec::new();
    let mut i: usize = 0;
    assert(tokvs(toks@) =~= Seq::<TokV>::empty());
    while i < chars.len()
        invariant
            i <= chars.len(),
            s == text@,
            chars@ == s,
            (*file)@ == s,
            offsets@.len() == chars@.len() + 1,
            forall|k: int| 0 <= k <= chars@.len() ==> offsets@[k] == byte_len(chars@, k as nat),
            lex_with(s, kinds@) == lex_from(s, kinds@, i as int, tokvs(toks@)),
        decreases chars.len() - i,
    {
        if kind_in(kinds, i).space {
            i += 1;
        } else {
            let at = Src { file: share(&file), offs: offsets[i] };
            proof {
                lemma_token_span(s, kinds@, i as int, at@);
            }
            match next_token(&chars, kinds, i, at) {
                Err(kind) => {
                    let stop = if chars.len() - i > 20 {
                        i + 20
                    } else {
                        chars.len()
                    };
                    let near = text_of(&chars, i, stop);
                    return Err(LexError { kind, offs: offsets[i], near });
                },
                Ok((t, e)) => {
                    assert(tokvs(toks@.push(t)) =~= tokvs(toks@).push(t@));
                    toks.push(t);
                    i = e;
                },
            }
        }
    }
    Ok(toks)
}

/// Splits source text into tokens.
pub fn tokenize(text: String) -> (r: Result<Vec<Tok>, LexError>)
    ensures
        match r {
            Ok(toks) => lex(text@) == Ok::<Seq<TokV>, LexErrorV>(tokvs(toks@)),
            Err(e) => lex(text@) == Err::<Seq<TokV>, LexErrorV>(e@),
        },
{
    let chars = chars_of(text.as_str());
    let kinds = classify_all(&chars);
    lex_chars(text, &kinds)
}

/// Whether the text `s`, from position `at` on, consists of the texts of
/// `toks` in order, each preceded by a run of whitespace and starting at the
/// byte offset it records, with only whitespace after the last.
pub open spec fn rebuilds(s: Seq<char>, kinds: Seq<CharKind>, at: int, toks: Seq<TokV>) -> bool
    decreases toks.len(),
{
    let b = run_end(s, kinds, at, CharClass::Space);
    if toks.len() == 0 {
        b == s.len()
    } else {
        let t = toks[0];
        &&& t.src.offs == byte_len(s, b as nat)
        &&& t.txt.len() > 0
        &&& b + t.txt.len() <= s.len()
        &&& s.subrange(b, b + t.txt.len()) == t.txt
        &&& rebuilds(s, kinds, b + t.txt.len(), toks.drop_first())
    }
}

proof fn lemma_lex_from_rebuilds(
    s: Seq<char>,
    kinds: Seq<CharKind>,
    i: int,
    acc: Seq<TokV>,
    toks: Seq<TokV>,
)
    requires
        0 <= i <= s.len(),
        lex_from(s, kinds, i, acc) == Ok::<Seq<TokV>, LexErrorV>(toks),
    ensures
        acc.len() <= toks.len(),
        toks.take(acc.len() as int) == acc,
        rebuilds(s, kinds, i, toks.skip(acc.len() as int)),
    decreases s.len() - i,
{
    if i >= s.len() {
        assert(toks.take(acc.len() as int) =~= acc);
    } else if kind_at(kinds, i).space {
        lemma_lex_from_rebuilds(s, kinds, i + 1, acc, toks);
    } else {
        let at = SrcV { file: s, offs: byte_len(s, i as nat) };
        lemma_token_span(s, kinds, i, at);
        let (t, e) = token_at(s, kinds, i, at)->Ok_0;
        lemma_lex_from_rebuilds(s, kinds, e, acc.push(t), toks);
        let n = acc.len() as int;
        assert(toks.take(n) =~= toks.take(n + 1).drop_last());
        assert(toks.take(n) =~= acc);
        let rest = toks.skip(n);
        assert(rest[0] == toks.take(n + 1)[n]);
        assert(rest.drop_first() =~= toks.skip(n + 1));
    }
}

/// Round trip: when lexing succeeds, the source is exactly the token texts
/// in order, separated by the whitespace that the lexer skipped, and every
/// token records the byte offset at which its text starts. This holds
/// whatever the kinds of the characters are.
pub proof fn lemma_lex_round_trip(s: Seq<char>, kinds: Seq<CharKind>, toks: Seq<TokV>)
    requires
        lex_with(s, kinds) == Ok::<Seq<TokV>, LexErrorV>(toks),
    ensures
        rebuilds(s, kinds, 0, toks),
{
    lemma_lex_from_rebuilds(s, kinds, 0, Seq::empty(), toks);
    assert(toks.skip(0) =~= toks);
}

} // verus!
