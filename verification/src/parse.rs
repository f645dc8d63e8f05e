//! Source positions, syntax trees and tokens, with their mathematical views,
//! and the parser that builds trees from tokens.

use crate::chars::byte_len;
use crate::lex::{
    is_close, is_open, kind_at, kinds_of, lemma_token_span, lex, lex_from, lex_with, token_at,
    tokenize, CharKind, LexError, LexErrorV,
};
use std::rc::Rc;
use vstd::prelude::*;
use vstd::string::StrSliceExecFns;

verus! {

/// Mathematical value of a source position: the text of the file and a byte
/// offset into it.
pub struct SrcV {
    pub file: Seq<char>,
    pub offs: nat,
}

/// A position in a source file. The file text is shared by every position
/// that points into it.
#[derive(Debug, PartialEq, PartialOrd)]
pub struct Src {
    pub file: Rc<String>,
    pub offs: usize,
}

impl View for Src {
    type V = SrcV;

    open spec fn view(&self) -> SrcV {
        SrcV { file: (*self.file)@, offs: self.offs as nat }
    }
}

/// The position that stands for "no particular place".
pub open spec fn default_src() -> SrcV {
    SrcV { file: "<default>"@, offs: 0 }
}

/// `Rc::clone` hands back a second handle to the same shared value.
#[verifier::external_body]
pub(crate) fn share(rc: &Rc<String>) -> (res: Rc<String>)
    ensures
        res == *rc,
{
    rc.clone()
}

impl Default for Src {
    fn default() -> (r: Self)
        ensures
            r@ == default_src(),
    {
        Src { file: Rc::new(String::from_str("<default>")), offs: 0 }
    }
}

impl Clone for Src {
    fn clone(&self) -> (r: Self)
        ensures
            r == *self,
    {
        Src { file: share(&self.file), offs: self.offs }
    }
}

/// Mathematical value of a syntax tree node.
pub enum Sexp {
    Int(int, SrcV),
    Float(Seq<char>, SrcV),
    Str(Seq<char>, SrcV),
    Sym(Seq<char>, SrcV),
    List(Seq<Sexp>),
}

/// A node of the generic syntax tree. A float literal keeps the digits as
/// they were written.
#[derive(Debug, PartialEq, PartialOrd)]
pub enum Ast {
    I64(i64, Src),
    F64(String, Src),
    Str(String, Src),
    Sym(String, Src),
    App(Vec<Ast>),
}

impl View for Ast {
    type V = Sexp;

    open spec fn view(&self) -> Sexp
        decreases self,
    {
        match self {
            Ast::I64(n, at) => Sexp::Int(*n as int, at@),
            Ast::F64(t, at) => Sexp::Float(t@, at@),
            Ast::Str(t, at) => Sexp::Str(t@, at@),
            Ast::Sym(t, at) => Sexp::Sym(t@, at@),
            Ast::App(items) => Sexp::List(
                Seq::new(
                    items@.len(),
                    |i: int|
                        if 0 <= i < items@.len() {
                            items@[i].view()
                        } else {
                            Sexp::List(Seq::empty())
                        },
                ),
            ),
        }
    }
}

/// The views of a sequence of nodes.
pub open spec fn sexps(items: Seq<Ast>) -> Seq<Sexp> {
    Seq::new(items.len(), |i: int| items[i]@)
}

/// The view of a list node is the list of its children's views.
pub proof fn lemma_app_view(a: Ast)
    requires
        a is App,
    ensures
        a@ == Sexp::List(sexps(a->App_0@)),
{
    reveal_with_fuel(<Ast as View>::view, 2);
    assert(a@->List_0 =~= sexps(a->App_0@));
}

impl Clone for Ast {
    fn clone(&self) -> (r: Self)
        ensures
            r@ == self@,
        decreases self,
    {
        match self {
            Ast::I64(n, at) => Ast::I64(*n, at.clone()),
            Ast::F64(t, at) => Ast::F64(t.clone(), at.clone()),
            Ast::Str(t, at) => Ast::Str(t.clone(), at.clone()),
            Ast::Sym(t, at) => Ast::Sym(t.clone(), at.clone()),
            Ast::App(items) => {
                let mut out: Vec<Ast> = Vec::new();
                let mut i: usize = 0;
                while i < items.len()
                    invariant
                        i <= items.len(),
                        self is App,
                        self->App_0 == *items,
                        out@.len() == i,
                        forall|k: int| 0 <= k < i ==> out@[k]@ == items@[k]@,
                    decreases items.len() - i,
                {
                    let c = items[i].clone();
                    out.push(c);
                    i += 1;
                }
                let r = Ast::App(out);
                proof {
                    lemma_app_view(r);
                    lemma_app_view(*self);
                    assert(sexps(out@) =~= sexps(items@));
                }
                r
            },
        }
    }
}

/// Mathematical value of a token.
pub struct TokV {
    pub val: Option<Sexp>,
    pub txt: Seq<char>,
    pub src: SrcV,
}

/// A token: the text it was read from, the literal or symbol it denotes (none
/// for a bracket), and where it starts.
#[derive(Debug, PartialEq, PartialOrd)]
pub struct Tok {
    pub val: Option<Ast>,
    pub txt: String,
    pub src: Src,
}

impl View for Tok {
    type V = TokV;

    open spec fn view(&self) -> TokV {
        TokV {
            val: match self.val {
                Some(a) => Some(a@),
                None => None,
            },
            txt: self.txt@,
            src: self.src@,
        }
    }
}

impl Clone for Tok {
    fn clone(&self) -> (r: Self)
        ensures
            r@ == self@,
    {
        let val = match &self.val {
            Some(a) => Some(a.clone()),
            None => None,
        };
        Tok { val, txt: self.txt.clone(), src: self.src.clone() }
    }
}

/// The views of a sequence of tokens.
pub open spec fn tokvs(toks: Seq<Tok>) -> Seq<TokV> {
    Seq::new(toks.len(), |i: int| toks[i]@)
}

/// The integer literal zero at the default position.
pub fn zero_expr() -> (r: Ast)
    ensures
        r@ == Sexp::Int(0, default_src()),
{
    Ast::I64(0, Src::default())
}

/// What one token contributes to the bracket structure of a token sequence.
pub enum Piece {
    Open,
    Close,
    /// A literal or a symbol.
    Leaf(Sexp),
    /// A token that is neither a bracket nor a literal nor a symbol.
    Unknown,
}

/// The piece that a token is: a token with a value is a leaf, unless the
/// value is a list; a token without a value is a bracket if its text is
/// one bracket character.
pub open spec fn piece_of(t: TokV) -> Piece {
    match t.val {
        Some(Sexp::List(_)) => Piece::Unknown,
        Some(v) => Piece::Leaf(v),
        None => if t.txt.len() == 1 && is_open(t.txt[0]) {
            Piece::Open
        } else if t.txt.len() == 1 && is_close(t.txt[0]) {
            Piece::Close
        } else {
            Piece::Unknown
        },
    }
}

/// The pieces of a token sequence.
pub open spec fn pieces(toks: Seq<TokV>) -> Seq<Piece> {
    Seq::new(toks.len(), |i: int| piece_of(toks[i]))
}

/// The pieces that a tree is written with: a leaf is itself, a list is its
/// children between an opening and a closing bracket.
pub open spec fn flatten(a: Sexp) -> Seq<Piece>
    decreases a,
{
    match a {
        Sexp::List(items) => seq![Piece::Open] + flatten_all(items, items.len()) + seq![
            Piece::Close,
        ],
        _ => seq![Piece::Leaf(a)],
    }
}

/// The pieces of the first `n` trees of `items`, one after the other.
pub open spec fn flatten_all(items: Seq<Sexp>, n: nat) -> Seq<Piece>
    decreases items, n,
{
    if n == 0 || n > items.len() {
        Seq::empty()
    } else {
        flatten_all(items, (n - 1) as nat) + flatten(items[n - 1])
    }
}

/// What a left-to-right count of brackets finds.
pub enum Shape {
    /// Every bracket is matched and every token is known.
    Balanced,
    /// The token at this index closes a bracket that was never opened.
    ExtraClose(int),
    /// The token at this index is not known.
    Unknown(int),
    /// The sequence ends with this many brackets still open.
    Unclosed(int),
}

/// Counts brackets from position `i` on, with `depth` brackets open, and
/// stops at the first token that cannot be accepted.
pub open spec fn scan(p: Seq<Piece>, i: int, depth: int) -> Shape
    decreases p.len() - i,
{
    if i < 0 || i >= p.len() {
        if depth == 0 {
            Shape::Balanced
        } else {
            Shape::Unclosed(depth)
        }
    } else {
        match p[i] {
            Piece::Unknown => Shape::Unknown(i),
            Piece::Leaf(_) => scan(p, i + 1, depth),
            Piece::Open => scan(p, i + 1, depth + 1),
            Piece::Close => if depth == 0 {
                Shape::ExtraClose(i)
            } else {
                scan(p, i + 1, depth - 1)
            },
        }
    }
}

/// The bracket structure of a whole token sequence.
pub open spec fn shape_of(p: Seq<Piece>) -> Shape {
    scan(p, 0, 0)
}

/// Why parsing failed.
#[derive(Clone, Copy, Debug, PartialEq, Eq)]
pub enum ParseError {
    /// A closing bracket at top level: `ate` tokens were consumed before it,
    /// out of `total`.
    Leftover { ate: usize, total: usize },
    /// The token at `index` is not a bracket, a literal or a symbol.
    UnknownToken { index: usize },
    /// The input ended with `depth` lists still open.
    Unclosed { depth: usize },
}

proof fn lemma_flatten_all_prefix(a: Seq<Sexp>, b: Seq<Sexp>, n: nat)
    requires
        n <= a.len(),
        n <= b.len(),
        forall|k: int| 0 <= k < n ==> a[k] == b[k],
    ensures
        flatten_all(a, n) == flatten_all(b, n),
    decreases n,
{
    if n > 0 {
        lemma_flatten_all_prefix(a, b, (n - 1) as nat);
    }
}

/// What the parser sees in one token; a leaf comes with its node.
enum Kind {
    Open,
    Close,
    Leaf(Ast),
    Unknown,
}

fn kind_of(t: &Tok) -> (k: Kind)
    ensures
        match k {
            Kind::Open => piece_of(t@) is Open,
            Kind::Close => piece_of(t@) is Close,
            Kind::Leaf(node) => piece_of(t@) == Piece::Leaf(node@),
            Kind::Unknown => piece_of(t@) is Unknown,
        },
{
    match &t.val {
        Some(Ast::App(_)) => {
            proof {
                lemma_app_view(t.val->Some_0);
            }
            Kind::Unknown
        },
        Some(node) => Kind::Leaf(node.clone()),
        None => {
            let s = t.txt.as_str();
            if s.unicode_len() != 1 {
                Kind::Unknown
            } else {
                let c = s.get_char(0);
                if c == '(' || c == '[' {
                    Kind::Open
                } else if c == ')' || c == ']' {
                    Kind::Close
                } else {
                    Kind::Unknown
                }
            }
        },
    }
}

/// Why the items of a list could not be parsed.
#[derive(Clone, Copy, Debug, PartialEq, Eq)]
pub enum ListError {
    /// The token at `index` is not a bracket, a literal or a symbol.
    UnknownToken { index: usize },
    /// The input ended with `depth` lists still open.
    Unclosed { depth: usize },
}

/// Parses the items of one list, from position `start` up to the closing
/// bracket that ends the list or to the end of the tokens. Returns the items
/// and the position where it stopped; the closing bracket is not consumed.
pub fn parse_list(toks: &Vec<Tok>, start: usize) -> (r: Result<(Vec<Ast>, usize), ListError>)
    requires
        start <= toks.len(),
    ensures
        match r {
            Ok((items, end)) => {
                &&& start <= end <= toks.len()
                &&& end < toks.len() ==> pieces(tokvs(toks@))[end as int] is Close
                &&& pieces(tokvs(toks@)).subrange(start as int, end as int) == flatten_all(
                    sexps(items@),
                    items@.len(),
                )
                &&& forall|d: int|
                    d >= 0 ==> #[trigger] scan(pieces(tokvs(toks@)), start as int, d) == scan(
                        pieces(tokvs(toks@)),
                        end as int,
                        d,
                    )
            },
            Err(ListError::UnknownToken { index }) => forall|d: int|
                d >= 0 ==> #[trigger] scan(pieces(tokvs(toks@)), start as int, d) == Shape::Unknown(
                    index as int,
                ),
            Err(ListError::Unclosed { depth }) => {
                &&& 1 <= depth <= toks.len() - start
                &&& forall|d: int|
                    d >= 0 ==> #[trigger] scan(pieces(tokvs(toks@)), start as int, d)
                        == Shape::Unclosed(d + depth)
            },
        },
    decreases toks.len() - start,
{
    let ghost p = pieces(tokvs(toks@));
    let mut ys: Vec<Ast> = Vec::new();
    let mut i: usize = start;
    assert(p.subrange(start as int, i as int) =~= flatten_all(sexps(ys@), 0));
    while i < toks.len()
        invariant
            start <= i <= toks.len(),
            p == pieces(tokvs(toks@)),
            p.subrange(start as int, i as int) == flatten_all(sexps(ys@), ys@.len()),
            forall|d: int| d >= 0 ==> #[trigger] scan(p, start as int, d) == scan(p, i as int, d),
        decreases toks.len() - i,
    {
        let ghost old_ys = ys@;
        assert(p[i as int] == piece_of(toks@[i as int]@));
        match kind_of(&toks[i]) {
            Kind::Unknown => {
                return Err(ListError::UnknownToken { index: i });
            },
            Kind::Close => {
                return Ok((ys, i));
            },
            Kind::Leaf(node) => {
                ys.push(node);
                proof {
                    let n = old_ys.len();
                    lemma_flatten_all_prefix(sexps(ys@), sexps(old_ys), n);
                    assert(flatten(node@) =~= seq![p[i as int]]);
                    assert(p.subrange(start as int, i + 1) =~= p.subrange(start as int, i as int)
                        + seq![p[i as int]]);
                }
                i += 1;
            },
            Kind::Open => {
                match parse_list(toks, i + 1) {
                    Err(ListError::Unclosed { depth }) => {
                        assert forall|d: int| d >= 0 implies #[trigger] scan(p, start as int, d)
                            == Shape::Unclosed(d + depth + 1) by {
                            assert(scan(p, i as int, d) == scan(p, i + 1, d + 1));
                        }
                        return Err(ListError::Unclosed { depth: depth + 1 });
                    },
                    Err(ListError::UnknownToken { index }) => {
                        assert forall|d: int| d >= 0 implies #[trigger] scan(p, start as int, d)
                            == Shape::Unknown(index as int) by {
                            assert(scan(p, i as int, d) == scan(p, i + 1, d + 1));
                        }
                        return Err(ListError::UnknownToken { index });
                    },
                    Ok((inner, end)) => {
                        if end >= toks.len() {
                            assert forall|d: int| d >= 0 implies #[trigger] scan(
                                p,
                                start as int,
                                d,
                            ) == Shape::Unclosed(d + 1) by {
                                assert(scan(p, i as int, d) == scan(p, i + 1, d + 1));
                                assert(scan(p, i + 1, d + 1) == scan(p, end as int, d + 1));
                            }
                            return Err(ListError::Unclosed { depth: 1 });
                        }
                        let ghost inner_v = sexps(inner@);
                        let node = Ast::App(inner);
                        proof {
                            lemma_app_view(node);
                        }
                        ys.push(node);
                        proof {
                            let n = old_ys.len();
                            lemma_flatten_all_prefix(sexps(ys@), sexps(old_ys), n);
                            assert(flatten(node@) =~= seq![Piece::Open] + p.subrange(
                                i + 1,
                                end as int,
                            ) + seq![Piece::Close]);
                            assert(p.subrange(start as int, end + 1) =~= p.subrange(
                                start as int,
                                i as int,
                            ) + flatten(node@));
                            assert forall|d: int| d >= 0 implies #[trigger] scan(
                                p,
                                start as int,
                                d,
                            ) == scan(p, end + 1, d) by {
                                assert(scan(p, i as int, d) == scan(p, i + 1, d + 1));
                                assert(scan(p, i + 1, d + 1) == scan(p, end as int, d + 1));
                            }
                        }
                        i = end + 1;
                    },
                }
            },
        }
    }
    Ok((ys, i))
}

/// Whether `r` is the outcome of parsing the tokens `toks`.
///
/// Parsing succeeds exactly when the brackets are balanced and every token
/// is known; the trees are then the ones whose pieces, written one after
/// the other, are the tokens. Otherwise the error tells what a bracket
/// count finds first.
pub open spec fn parses_to(toks: Seq<TokV>, r: Result<Seq<Sexp>, ParseError>) -> bool {
    match r {
        Ok(tree) => {
            &&& shape_of(pieces(toks)) == Shape::Balanced
            &&& pieces(toks) == flatten_all(tree, tree.len())
        },
        Err(ParseError::Leftover { ate, total }) => {
            &&& shape_of(pieces(toks)) == Shape::ExtraClose(ate as int)
            &&& total == toks.len()
            &&& ate < total
        },
        Err(ParseError::UnknownToken { index }) => shape_of(pieces(toks)) == Shape::Unknown(
            index as int,
        ),
        Err(ParseError::Unclosed { depth }) => shape_of(pieces(toks)) == Shape::Unclosed(
            depth as int,
        ),
    }
}

proof fn lemma_flatten_last(a: Sexp)
    ensures
        flatten(a).len() > 0,
        a is List ==> flatten(a).last() is Close,
        !(a is List) ==> flatten(a) == seq![Piece::Leaf(a)],
{
}

proof fn lemma_split_last(u: Seq<Piece>, x: Piece, w: Seq<Piece>, y: Piece)
    requires
        u.push(x) == w.push(y),
    ensures
        u == w,
        x == y,
{
    assert(u.push(x).last() == x);
    assert(w.push(y).last() == y);
    assert(u.push(x).drop_last() =~= u);
    assert(w.push(y).drop_last() =~= w);
}

/// No tree's pieces end another tree's pieces: if two texts end with the
/// pieces of a tree each and are equal, the trees are equal and so is what
/// stands before them.
proof fn lemma_flatten_suffix(r: Seq<Piece>, x: Sexp, q: Seq<Piece>, y: Sexp)
    requires
        r + flatten(x) == q + flatten(y),
    ensures
        x == y,
        r == q,
    decreases x, 0nat,
{
    lemma_flatten_last(x);
    lemma_flatten_last(y);
    let lhs = r + flatten(x);
    let rhs = q + flatten(y);
    assert(lhs.last() == flatten(x).last());
    assert(rhs.last() == flatten(y).last());
    match x {
        Sexp::List(xs) => {
            assert(flatten(x).last() is Close);
            match y {
                Sexp::List(ys) => {
                    let hx = r.push(Piece::Open);
                    let hy = q.push(Piece::Open);
                    let fx = flatten_all(xs, xs.len());
                    let fy = flatten_all(ys, ys.len());
                    assert(lhs =~= (hx + fx).push(Piece::Close));
                    assert(rhs =~= (hy + fy).push(Piece::Close));
                    lemma_split_last(hx + fx, Piece::Close, hy + fy, Piece::Close);
                    lemma_flatten_all_suffix(hx, xs, xs.len(), hy, ys, ys.len());
                    assert(xs =~= xs.take(xs.len() as int));
                    assert(ys =~= ys.take(ys.len() as int));
                    lemma_split_last(r, Piece::Open, q, Piece::Open);
                },
                _ => {
                    assert(false);
                },
            }
        },
        _ => {
            assert(flatten(x).last() == Piece::Leaf(x));
            if y is List {
                assert(false);
            } else {
                assert(lhs =~= r.push(Piece::Leaf(x)));
                assert(rhs =~= q.push(Piece::Leaf(y)));
                lemma_split_last(r, Piece::Leaf(x), q, Piece::Leaf(y));
            }
        },
    }
}

/// The same for sequences of trees behind a head that is empty or ends with
/// an opening bracket.
proof fn lemma_flatten_all_suffix(
    h: Seq<Piece>,
    a: Seq<Sexp>,
    n: nat,
    g: Seq<Piece>,
    b: Seq<Sexp>,
    m: nat,
)
    requires
        n <= a.len(),
        m <= b.len(),
        h + flatten_all(a, n) == g + flatten_all(b, m),
        h.len() == 0 || h.last() is Open,
        g.len() == 0 || g.last() is Open,
        (h.len() == 0) == (g.len() == 0),
    ensures
        n == m,
        a.take(n as int) == b.take(m as int),
        h == g,
    decreases a, n,
{
    if n == 0 && m == 0 {
        assert(h + flatten_all(a, n) =~= h);
        assert(g + flatten_all(b, m) =~= g);
        assert(a.take(0) =~= b.take(0));
    } else if n == 0 {
        lemma_flatten_last(b[m - 1]);
        let rhs = g + flatten_all(b, m);
        assert(h + flatten_all(a, n) =~= h);
        assert(rhs.last() == flatten(b[m - 1]).last());
        assert(false);
    } else if m == 0 {
        lemma_flatten_last(a[n - 1]);
        let lhs = h + flatten_all(a, n);
        assert(g + flatten_all(b, m) =~= g);
        assert(lhs.last() == flatten(a[n - 1]).last());
        assert(false);
    } else {
        let r = h + flatten_all(a, (n - 1) as nat);
        let q = g + flatten_all(b, (m - 1) as nat);
        assert(h + flatten_all(a, n) =~= r + flatten(a[n - 1]));
        assert(g + flatten_all(b, m) =~= q + flatten(b[m - 1]));
        lemma_flatten_suffix(r, a[n - 1], q, b[m - 1]);
        lemma_flatten_all_suffix(h, a, (n - 1) as nat, g, b, (m - 1) as nat);
        assert(a.take(n as int) =~= a.take(n - 1).push(a[n - 1]));
        assert(b.take(m as int) =~= b.take(m - 1).push(b[m - 1]));
    }
}

/// Different sequences of trees are written with different pieces.
pub proof fn lemma_flatten_all_injective(a: Seq<Sexp>, b: Seq<Sexp>)
    requires
        flatten_all(a, a.len()) == flatten_all(b, b.len()),
    ensures
        a == b,
{
    let e = Seq::<Piece>::empty();
    assert(e + flatten_all(a, a.len()) =~= flatten_all(a, a.len()));
    assert(e + flatten_all(b, b.len()) =~= flatten_all(b, b.len()));
    lemma_flatten_all_suffix(e, a, a.len(), e, b, b.len());
    assert(a =~= a.take(a.len() as int));
    assert(b =~= b.take(b.len() as int));
}

/// Parsing has one outcome: two results that both answer to the same tokens
/// are the same trees, or the same error.
pub proof fn lemma_parse_outcome_unique(
    toks: Seq<TokV>,
    first: Result<Seq<Sexp>, ParseError>,
    second: Result<Seq<Sexp>, ParseError>,
)
    requires
        parses_to(toks, first),
        parses_to(toks, second),
    ensures
        first == second,
{
    if let Ok(a) = first {
        if let Ok(b) = second {
            lemma_flatten_all_injective(a, b);
        }
    }
}

/// What a piece adds to the number of open brackets.
pub open spec fn step(x: Piece) -> int {
    match x {
        Piece::Open => 1,
        Piece::Close => -1,
        _ => 0,
    }
}

/// Opening brackets minus closing brackets among the first `n` pieces.
pub open spec fn depth(p: Seq<Piece>, n: int) -> int
    decreases n,
{
    if n <= 0 || n > p.len() {
        0
    } else {
        depth(p, n - 1) + step(p[n - 1])
    }
}

/// Balanced brackets: every token is a bracket, a literal or a symbol; in
/// no prefix do the closing brackets outnumber the opening ones; and over
/// the whole sequence there are as many of one as of the other.
pub open spec fn balanced(p: Seq<Piece>) -> bool {
    &&& forall|k: int| 0 <= k < p.len() ==> !(#[trigger] p[k] is Unknown)
    &&& forall|n: int| 0 <= n <= p.len() ==> #[trigger] depth(p, n) >= 0
    &&& depth(p, p.len() as int) == 0
}

proof fn lemma_scan_depth(p: Seq<Piece>, i: int)
    requires
        0 <= i <= p.len(),
        forall|k: int| 0 <= k < i ==> !(#[trigger] p[k] is Unknown),
        forall|n: int| 0 <= n <= i ==> #[trigger] depth(p, n) >= 0,
    ensures
        scan(p, 0, 0) == scan(p, i, depth(p, i)),
    decreases i,
{
    if i > 0 {
        lemma_scan_depth(p, i - 1);
        assert(depth(p, i - 1) >= 0);
        assert(depth(p, i) >= 0);
        assert(!(p[i - 1] is Unknown));
    }
}

proof fn lemma_scan_balanced(p: Seq<Piece>, i: int, d: int)
    requires
        0 <= i <= p.len(),
        d >= 0,
        scan(p, i, d) is Balanced,
    ensures
        forall|k: int| i <= k < p.len() ==> !(#[trigger] p[k] is Unknown),
        forall|n: int| i <= n <= p.len() ==> d + #[trigger] depth(p, n) - depth(p, i) >= 0,
        d + depth(p, p.len() as int) - depth(p, i) == 0,
    decreases p.len() - i,
{
    if i < p.len() {
        let next = d + step(p[i]);
        assert(depth(p, i + 1) == depth(p, i) + step(p[i]));
        lemma_scan_balanced(p, i + 1, next);
        assert forall|n: int| i <= n <= p.len() implies d + #[trigger] depth(p, n) - depth(p, i)
            >= 0 by {
            if n > i {
                assert(next + depth(p, n) - depth(p, i + 1) >= 0);
            }
        }
    }
}

/// A count of brackets finds a sequence balanced exactly when its brackets
/// are balanced.
pub proof fn lemma_balanced_shape(p: Seq<Piece>)
    ensures
        balanced(p) <==> shape_of(p) is Balanced,
{
    if balanced(p) {
        lemma_scan_depth(p, p.len() as int);
    }
    if shape_of(p) is Balanced {
        lemma_scan_balanced(p, 0, 0);
        assert(depth(p, 0) == 0);
    }
}

/// A count of brackets stops at the first closing bracket that has no
/// partner: the one before which opening and closing brackets are equal in
/// number, when no prefix before it had more closing than opening ones.
pub proof fn lemma_extra_close_shape(p: Seq<Piece>, j: int)
    requires
        0 <= j < p.len(),
        forall|k: int| 0 <= k < j ==> !(#[trigger] p[k] is Unknown),
        forall|n: int| 0 <= n <= j ==> #[trigger] depth(p, n) >= 0,
        depth(p, j + 1) < 0,
    ensures
        shape_of(p) == Shape::ExtraClose(j),
{
    lemma_scan_depth(p, j);
    assert(depth(p, j) >= 0);
    assert(depth(p, j + 1) == depth(p, j) + step(p[j]));
}

/// Parsing is total over bracket structure: on a balanced sequence of known
/// tokens it succeeds, having consumed every token; where a closing bracket
/// has no partner it fails with the number of tokens before that bracket
/// and the total, so that at least one token is left over.
pub proof fn lemma_parse_total(toks: Seq<TokV>, r: Result<Seq<Sexp>, ParseError>)
    requires
        parses_to(toks, r),
    ensures
        balanced(pieces(toks)) <==> r is Ok,
        shape_of(pieces(toks)) is Balanced <==> r is Ok,
        r matches Ok(tree) ==> flatten_all(tree, tree.len()).len() == toks.len(),
        shape_of(pieces(toks)) matches Shape::ExtraClose(j) ==> {
            &&& r == Err::<Seq<Sexp>, ParseError>(
                ParseError::Leftover { ate: j as usize, total: toks.len() as usize },
            )
            &&& 0 <= j < toks.len()
            &&& toks.len() - j > 0
        },
{
    lemma_balanced_shape(pieces(toks));
}

/// Parses a whole token sequence into the top-level sequence of trees. It
/// succeeds exactly on the sequences with balanced brackets, and then every
/// token is consumed.
pub fn parse_toks(toks: &Vec<Tok>) -> (r: Result<Vec<Ast>, ParseError>)
    ensures
        parses_to(
            tokvs(toks@),
            match r {
                Ok(tree) => Ok(sexps(tree@)),
                Err(e) => Err(e),
            },
        ),
        r is Ok <==> balanced(pieces(tokvs(toks@))),
{
    let ghost p = pieces(tokvs(toks@));
    proof {
        lemma_balanced_shape(p);
    }
    match parse_list(toks, 0) {
        Err(ListError::UnknownToken { index }) => {
            assert(shape_of(p) == scan(p, 0, 0));
            Err(ParseError::UnknownToken { index })
        },
        Err(ListError::Unclosed { depth }) => {
            assert(shape_of(p) == scan(p, 0, 0));
            Err(ParseError::Unclosed { depth })
        },
        Ok((tree, end)) => {
            assert(shape_of(p) == scan(p, end as int, 0));
            if end != toks.len() {
                Err(ParseError::Leftover { ate: end, total: toks.len() })
            } else {
                assert(p.subrange(0, end as int) =~= p);
                Ok(tree)
            }
        },
    }
}

proof fn lemma_lex_from_known(
    s: Seq<char>,
    kinds: Seq<CharKind>,
    i: int,
    acc: Seq<TokV>,
    toks: Seq<TokV>,
)
    requires
        0 <= i <= s.len(),
        lex_from(s, kinds, i, acc) == Ok::<Seq<TokV>, LexErrorV>(toks),
        forall|k: int| 0 <= k < acc.len() ==> !(piece_of(#[trigger] acc[k]) is Unknown),
    ensures
        forall|k: int| 0 <= k < toks.len() ==> !(piece_of(#[trigger] toks[k]) is Unknown),
    decreases s.len() - i,
{
    if i >= s.len() {
    } else if kind_at(kinds, i).space {
        lemma_lex_from_known(s, kinds, i + 1, acc, toks);
    } else {
        let at = SrcV { file: s, offs: byte_len(s, i as nat) };
        lemma_token_span(s, kinds, i, at);
        let (t, e) = token_at(s, kinds, i, at)->Ok_0;
        assert(!(piece_of(t) is Unknown));
        lemma_lex_from_known(s, kinds, e, acc.push(t), toks);
    }
}

/// Every token that the lexer produces is a bracket, a literal or a symbol:
/// parsing what was lexed cannot fail on an unknown token.
pub proof fn lemma_lexed_tokens_known(s: Seq<char>, kinds: Seq<CharKind>, toks: Seq<TokV>)
    requires
        lex_with(s, kinds) == Ok::<Seq<TokV>, LexErrorV>(toks),
    ensures
        forall|k: int| 0 <= k < toks.len() ==> !(piece_of(#[trigger] toks[k]) is Unknown),
        !(shape_of(pieces(toks)) is Unknown),
{
    lemma_lex_from_known(s, kinds, 0, Seq::empty(), toks);
    lemma_scan_known(pieces(toks), 0, 0);
}

proof fn lemma_scan_known(p: Seq<Piece>, i: int, depth: int)
    requires
        0 <= i,
        forall|k: int| 0 <= k < p.len() ==> !(#[trigger] p[k] is Unknown),
    ensures
        !(scan(p, i, depth) is Unknown),
    decreases p.len() - i,
{
    if i < p.len() {
        match p[i] {
            Piece::Unknown => {},
            Piece::Leaf(_) => lemma_scan_known(p, i + 1, depth),
            Piece::Open => lemma_scan_known(p, i + 1, depth + 1),
            Piece::Close => if depth != 0 {
                lemma_scan_known(p, i + 1, depth - 1)
            },
        }
    }
}

/// Why source text could not be turned into trees.
#[derive(Debug, PartialEq)]
pub enum SyntaxError {
    Lex(LexError),
    Parse(ParseError),
}

/// Lexes and parses source text into its top-level sequence of trees.
pub fn parse(text: String) -> (r: Result<Vec<Ast>, SyntaxError>)
    ensures
        match r {
            Ok(tree) => lex(text@) matches Ok(toks) && parses_to(
                toks,
                Ok(sexps(tree@)),
            ),
            Err(SyntaxError::Lex(e)) => lex(text@) == Err::<Seq<TokV>, LexErrorV>(e@),
            Err(SyntaxError::Parse(e)) => {
                &&& lex(text@) matches Ok(toks) && parses_to(toks, Err(e))
                &&& !(e is UnknownToken)
            },
        },
{
    match tokenize(text) {
        Err(e) => Err(SyntaxError::Lex(e)),
        Ok(toks) => {
            proof {
                lemma_lexed_tokens_known(text@, kinds_of(text@), tokvs(toks@));
            }
            match parse_toks(&toks) {
                Ok(tree) => Ok(tree),
                Err(e) => Err(SyntaxError::Parse(e)),
            }
        },
    }
}

} // verus!
