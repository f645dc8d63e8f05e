use sexpc::lex::{tokenize, LexKind};
use sexpc::parse::{
    parse, parse_list, parse_toks, zero_expr, Ast, ListError, ParseError, Src, SyntaxError, Tok,
};
use std::rc::Rc;

fn toks(text: &str) -> Vec<Tok> {
    tokenize(String::from(text)).unwrap()
}

/// Writes a tree back as text, with round brackets.
fn show(a: &Ast) -> String {
    match a {
        Ast::I64(n, _) => n.to_string(),
        Ast::F64(t, _) => t.clone(),
        Ast::Str(t, _) => format!("{:?}", t),
        Ast::Sym(t, _) => t.clone(),
        Ast::App(items) => {
            let inner: Vec<String> = items.iter().map(show).collect();
            format!("({})", inner.join(" "))
        }
    }
}

fn show_all(items: &[Ast]) -> Vec<String> {
    items.iter().map(show).collect()
}

fn bare(txt: &str) -> Tok {
    Tok { val: None, txt: String::from(txt), src: Src::default() }
}

#[test]
fn zero_expr_is_zero_at_default_position() {
    match zero_expr() {
        Ast::I64(0, at) => {
            assert_eq!(at.offs, 0);
            assert_eq!(*at.file, "<default>");
        }
        other => panic!("unexpected {:?}", other),
    }
    assert_eq!(Src::default(), Src { file: Rc::new(String::from("<default>")), offs: 0 });
}

#[test]
fn parse_flat_sequence() {
    let tree = parse_toks(&toks("a 1 \"s\" 2.5")).unwrap();
    assert_eq!(show_all(&tree), vec!["a", "1", "\"s\"", "2.5"]);
}

#[test]
fn parse_no_tokens() {
    assert_eq!(parse_toks(&Vec::new()).unwrap().len(), 0);
    assert_eq!(parse(String::from("  \n")).unwrap().len(), 0);
}

#[test]
fn parse_nested_lists() {
    let tree = parse_toks(&toks("(a (b (c)) ()) d")).unwrap();
    assert_eq!(show_all(&tree), vec!["(a (b (c)) ())", "d"]);
    match &tree[0] {
        Ast::App(items) => {
            assert_eq!(items.len(), 3);
            assert!(matches!(&items[2], Ast::App(v) if v.is_empty()));
        }
        other => panic!("unexpected {:?}", other),
    }
}

#[test]
fn parse_bracket_flavor_is_ignored() {
    let tree = parse_toks(&toks("(a [b c) d]")).unwrap();
    assert_eq!(show_all(&tree), vec!["(a (b c) d)"]);
}

#[test]
fn parse_keeps_leaf_positions() {
    let tree = parse(String::from("(f  17)")).unwrap();
    match &tree[0] {
        Ast::App(items) => match &items[1] {
            Ast::I64(17, at) => {
                assert_eq!(at.offs, 4);
                assert_eq!(*at.file, "(f  17)");
            }
            other => panic!("unexpected {:?}", other),
        },
        other => panic!("unexpected {:?}", other),
    }
}

#[test]
fn parse_balanced_input_consumes_every_token() {
    for text in ["", "a", "()", "(a)(b)", "((()))", "[a (b) [c d]] e", "1 (2 (3 (4)))"] {
        let tokens = toks(text);
        let tree = parse_toks(&tokens).unwrap();
        let mut written = String::new();
        for t in &tree {
            written.push_str(&show(t));
        }
        let count = written.chars().filter(|c| *c == '(' || *c == ')').count();
        let brackets = tokens.iter().filter(|t| t.val.is_none()).count();
        assert_eq!(count, brackets);
    }
}

#[test]
fn parse_extra_close_reports_leftover() {
    assert_eq!(
        parse_toks(&toks("a ) b")).unwrap_err(),
        ParseError::Leftover { ate: 1, total: 3 }
    );
    assert_eq!(
        parse_toks(&toks("(a) (b)) c d")).unwrap_err(),
        ParseError::Leftover { ate: 6, total: 9 }
    );
    assert_eq!(parse_toks(&toks(")")).unwrap_err(), ParseError::Leftover { ate: 0, total: 1 });
}

#[test]
fn parse_extra_close_at_the_very_end() {
    let err = parse_toks(&toks("(a b) )")).unwrap_err();
    assert_eq!(err, ParseError::Leftover { ate: 4, total: 5 });
    match err {
        ParseError::Leftover { ate, total } => assert!(total - ate > 0),
        _ => unreachable!(),
    }
}

#[test]
fn parse_unclosed_list() {
    assert_eq!(parse_toks(&toks("(a b")).unwrap_err(), ParseError::Unclosed { depth: 1 });
    assert_eq!(parse_toks(&toks("(a (b [c) d")).unwrap_err(), ParseError::Unclosed { depth: 2 });
    assert_eq!(parse_toks(&toks("(")).unwrap_err(), ParseError::Unclosed { depth: 1 });
    assert_eq!(parse_toks(&toks("x ((( y")).unwrap_err(), ParseError::Unclosed { depth: 3 });
}

#[test]
fn parse_first_problem_wins() {
    assert_eq!(parse_toks(&toks(") (")).unwrap_err(), ParseError::Leftover { ate: 0, total: 2 });
    let mut tokens = toks("(a b");
    tokens.push(bare("?!"));
    assert_eq!(parse_toks(&tokens).unwrap_err(), ParseError::UnknownToken { index: 3 });
    let mut tokens = vec![bare("junk")];
    tokens.extend(toks(")"));
    assert_eq!(parse_toks(&tokens).unwrap_err(), ParseError::UnknownToken { index: 0 });
}

#[test]
fn parse_unknown_tokens() {
    assert_eq!(parse_toks(&vec![bare("")]).unwrap_err(), ParseError::UnknownToken { index: 0 });
    assert_eq!(parse_toks(&vec![bare("{")]).unwrap_err(), ParseError::UnknownToken { index: 0 });
}

#[test]
fn parse_token_holding_a_list_is_unknown() {
    let odd = Tok { val: Some(Ast::App(vec![])), txt: String::from("x"), src: Src::default() };
    let tokens = vec![bare("("), odd, bare(")")];
    assert_eq!(parse_toks(&tokens).unwrap_err(), ParseError::UnknownToken { index: 1 });
    let long = vec![bare("(("), bare("))")];
    assert_eq!(parse_toks(&long).unwrap_err(), ParseError::UnknownToken { index: 0 });
}

#[test]
fn parse_list_stops_before_the_close() {
    let tokens = toks("a (b c) d) e");
    let (items, end) = parse_list(&tokens, 1).unwrap();
    assert_eq!(show_all(&items), vec!["(b c)", "d"]);
    assert_eq!(end, 6);
    let (items, end) = parse_list(&tokens, 7).unwrap();
    assert_eq!(show_all(&items), vec!["e"]);
    assert_eq!(end, 8);
    let (items, end) = parse_list(&tokens, 8).unwrap();
    assert!(items.is_empty());
    assert_eq!(end, 8);
    assert_eq!(parse_list(&toks("a (b"), 0).unwrap_err(), ListError::Unclosed { depth: 1 });
    assert_eq!(parse_list(&toks("a ((b"), 1).unwrap_err(), ListError::Unclosed { depth: 2 });
    let odd = vec![bare("("), bare("junk")];
    assert_eq!(parse_list(&odd, 0).unwrap_err(), ListError::UnknownToken { index: 1 });
}

#[test]
fn parse_text_reports_the_failing_stage() {
    match parse(String::from("(a \"b")).unwrap_err() {
        SyntaxError::Lex(e) => {
            assert_eq!(e.kind, LexKind::UnterminatedString);
            assert_eq!(e.offs, 3);
        }
        other => panic!("unexpected {:?}", other),
    }
    assert_eq!(
        parse(String::from("(a))")).unwrap_err(),
        SyntaxError::Parse(ParseError::Leftover { ate: 3, total: 4 })
    );
    assert_eq!(
        parse(String::from("((a)")).unwrap_err(),
        SyntaxError::Parse(ParseError::Unclosed { depth: 1 })
    );
}

#[test]
fn clone_of_a_tree_is_equal() {
    let tree = parse(String::from("(a (b 1 2.0 \"s\") ())")).unwrap();
    let copy = tree[0].clone();
    assert_eq!(copy, tree[0]);
    let at = Src { file: Rc::new(String::from("f")), offs: 9 };
    let twin = at.clone();
    assert_eq!(twin, at);
    assert!(Rc::ptr_eq(&twin.file, &at.file));
}

#[test]
fn parse_of_lexed_text_never_meets_an_unknown_token() {
    for text in ["(", ")", "a b)", "((x", "[1 2.5 \"s\" y]", "", "_ + - ! ?"] {
        match parse(String::from(text)) {
            Err(SyntaxError::Parse(ParseError::UnknownToken { .. })) => panic!("{}", text),
            _ => {}
        }
    }
}
