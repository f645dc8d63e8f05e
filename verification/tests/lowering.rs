use sexpc::lower::{LowerError, LowerKind};
use sexpc::parse::{parse, Ast, Src};
use sexpc::program::{ast2var, Expr, Func, Program};

fn tree(text: &str) -> Vec<Ast> {
    parse(String::from(text)).unwrap()
}

fn lower(text: &str) -> Result<Program, LowerError> {
    Program::new(&tree(text))
}

fn main_of(text: &str) -> Func {
    let mut prog = lower(text).unwrap();
    assert_eq!(prog.mods.len(), 1);
    prog.mods.pop().unwrap().1
}

fn kind_of(text: &str) -> LowerKind {
    lower(text).unwrap_err().kind
}

fn show(a: &Ast) -> String {
    match a {
        Ast::I64(n, _) => n.to_string(),
        Ast::F64(t, _) => t.clone(),
        Ast::Str(t, _) => format!("{:?}", t),
        Ast::Sym(t, _) => t.clone(),
        Ast::App(items) => {
            let inner: Vec<String> = items.iter().map(show).collect();
            format!("({})", inner.join(" "))
        }
    }
}

fn node_of(text: &str) -> String {
    show(&lower(text).unwrap_err().node.unwrap())
}

fn var(name: &str) -> Expr {
    Expr::Var(String::from(name))
}

fn call(name: &str, args: Vec<Expr>) -> Expr {
    Expr::Call(String::from(name), args)
}

fn items(text: &str) -> Vec<Ast> {
    match tree(text).pop().unwrap() {
        Ast::App(items) => items,
        other => panic!("not a list: {:?}", other),
    }
}

#[test]
fn lower_literal_program() {
    let prog = lower("42").unwrap();
    assert_eq!(prog.entry, "main");
    assert_eq!(prog.mods.len(), 1);
    assert_eq!(prog.mods[0].0, "main");
    let main = &prog.mods[0].1;
    assert_eq!(main.name, Some(String::from("main")));
    assert!(main.params.is_empty());
    assert!(main.binds.is_empty());
    assert_eq!(main.ret, Expr::I64(42));
}

#[test]
fn lower_let_bindings_and_call() {
    let main = main_of("(let x 5) (let y 2) (+ x y)");
    assert_eq!(
        main.binds,
        vec![(String::from("x"), Expr::I64(5)), (String::from("y"), Expr::I64(2))]
    );
    assert_eq!(main.ret, call("+", vec![var("x"), var("y")]));
}

#[test]
fn lower_def_binding() {
    let main = main_of("(def (f a b) (+ a b)) (f 3 4)");
    assert_eq!(main.binds.len(), 1);
    assert_eq!(main.binds[0].0, "f");
    match &main.binds[0].1 {
        Expr::Func(f) => {
            assert_eq!(f.name, Some(String::from("f")));
            assert_eq!(f.params, vec!["a", "b"]);
            assert!(f.binds.is_empty());
            assert_eq!(f.ret, call("+", vec![var("a"), var("b")]));
        }
        other => panic!("unexpected {:?}", other),
    }
    assert_eq!(main.ret, call("f", vec![Expr::I64(3), Expr::I64(4)]));
}

#[test]
fn lower_def_without_parameters_and_with_bindings() {
    let main = main_of("(def (g) (let t 1) (def (h x) x) (h t)) (g)");
    match &main.binds[0].1 {
        Expr::Func(g) => {
            assert_eq!(g.name, Some(String::from("g")));
            assert!(g.params.is_empty());
            assert_eq!(g.binds.len(), 2);
            assert_eq!(g.binds[0], (String::from("t"), Expr::I64(1)));
            assert!(matches!(&g.binds[1].1, Expr::Func(h) if h.params == vec!["x"]));
            assert_eq!(g.ret, call("h", vec![var("t")]));
        }
        other => panic!("unexpected {:?}", other),
    }
    assert_eq!(main.ret, call("g", vec![]));
}

#[test]
fn lower_nested_calls_and_brackets() {
    let main = main_of("[f (g 1) [h]]");
    assert_eq!(
        main.ret,
        call("f", vec![call("g", vec![Expr::I64(1)]), call("h", vec![])])
    );
}

#[test]
fn lower_let_of_three_elements_in_expression_position_is_a_call() {
    let main = main_of("(let x 5)");
    assert!(main.binds.is_empty());
    assert_eq!(main.ret, call("let", vec![var("x"), Expr::I64(5)]));
}

#[test]
fn lower_same_tree_twice_gives_equal_programs() {
    let source = "(let a 1) (def (f x) (let y (+ x a)) (f y)) (f (f a))";
    let ast = tree(source);
    assert_eq!(Program::new(&ast), Program::new(&ast));
    assert_eq!(Program::new(&ast), Program::new(&tree(source)));
    let bad = tree("(let a 1) (let a 2) a");
    assert_eq!(Program::new(&bad), Program::new(&bad));
}

#[test]
fn lower_ignores_positions() {
    assert_eq!(lower("(let x 1)   (f   x)"), lower("(let x 1)\n(f x)"));
}

#[test]
fn lower_empty_block() {
    let err = lower("").unwrap_err();
    assert_eq!(err.kind, LowerKind::EmptyBlock);
    assert_eq!(err.node, None);
    assert_eq!(kind_of("(def (f)) 1"), LowerKind::EmptyBlock);
    assert_eq!(kind_of("(def (f a b)) 1"), LowerKind::EmptyBlock);
}

#[test]
fn lower_early_expression() {
    assert_eq!(kind_of("1 2"), LowerKind::EarlyExpr);
    assert_eq!(node_of("(let x 1) y (f x)"), "y");
    assert_eq!(kind_of("(def (f a) a a) 1"), LowerKind::EarlyExpr);
}

#[test]
fn lower_bad_binding() {
    assert_eq!(kind_of("(f 1) 2"), LowerKind::BadBinding);
    assert_eq!(node_of("(f 1) 2"), "(f 1)");
    assert_eq!(kind_of("() 2"), LowerKind::BadBinding);
    assert_eq!(kind_of("((let x 1)) 2"), LowerKind::BadBinding);
    assert_eq!(kind_of("(1 x 2) 2"), LowerKind::BadBinding);
}

#[test]
fn lower_let_with_wrong_arity() {
    assert_eq!(kind_of("(let x)"), LowerKind::LetArity);
    assert_eq!(node_of("(let x)"), "(let x)");
    assert_eq!(kind_of("(let x) 1"), LowerKind::LetArity);
    assert_eq!(kind_of("(let) 1"), LowerKind::LetArity);
    assert_eq!(kind_of("(let x 1 2) x"), LowerKind::LetArity);
    assert_eq!(kind_of("(let a 1) (let x 1 2)"), LowerKind::LetArity);
    assert_eq!(kind_of("(def (f) (let y)) (f)"), LowerKind::LetArity);
    assert_eq!(node_of("(def (f) 1 2) (let x 1 2)"), "1");
}

#[test]
fn lower_let_list_inside_an_expression_is_a_call() {
    assert_eq!(
        main_of("(f (let x 1 2))").ret,
        call("f", vec![call("let", vec![var("x"), Expr::I64(1), Expr::I64(2)])])
    );
    assert_eq!(main_of("(g (let x))").ret, call("g", vec![call("let", vec![var("x")])]));
    assert_eq!(main_of("(g (let))").ret, call("g", vec![call("let", vec![])]));
    assert_eq!(
        main_of("(let y (let x)) y").binds,
        vec![(String::from("y"), call("let", vec![var("x")]))]
    );
    let list = tree("(let x)").pop().unwrap();
    assert_eq!(Expr::new(&list), Ok(call("let", vec![var("x")])));
    let list = tree("(let x 1 2)").pop().unwrap();
    assert_eq!(
        Expr::new(&list),
        Ok(call("let", vec![var("x"), Expr::I64(1), Expr::I64(2)]))
    );
}

#[test]
fn lower_call_has_one_argument_for_each_element() {
    for n in 0..5 {
        let mut text = String::from("(f");
        for i in 0..n {
            text.push_str(&format!(" {}", i));
        }
        text.push(')');
        let args: Vec<Expr> = (0..n).map(Expr::I64).collect();
        assert_eq!(main_of(&text).ret, call("f", args));
    }
}

#[test]
fn lower_let_name_must_be_a_symbol() {
    assert_eq!(kind_of("(let 1 2) 3"), LowerKind::LetName);
    assert_eq!(node_of("(let (x) 2) 3"), "(x)");
}

#[test]
fn lower_def_header() {
    assert_eq!(kind_of("(def) 1"), LowerKind::DefHeader);
    assert_eq!(node_of("(def) 1"), "(def)");
    assert_eq!(kind_of("(def f 1) 1"), LowerKind::DefHeader);
    assert_eq!(node_of("(def f 1) 1"), "f");
    assert_eq!(kind_of("(def () 1) 1"), LowerKind::DefHeader);
    assert_eq!(node_of("(def () 1) 1"), "()");
}

#[test]
fn lower_def_header_elements_must_be_symbols() {
    assert_eq!(kind_of("(def (f 1) 1) 1"), LowerKind::ParamNotSymbol);
    assert_eq!(node_of("(def (f a (b)) 1) 1"), "(b)");
    assert_eq!(kind_of("(def (\"f\" a) 1) 1"), LowerKind::ParamNotSymbol);
}

#[test]
fn lower_duplicate_parameter() {
    assert_eq!(kind_of("(def (f a b a) 1) 1"), LowerKind::DuplicateParam);
    assert_eq!(node_of("(def (f a b a) 1) 1"), "a");
    assert!(lower("(def (f f) f) 1").is_ok());
}

#[test]
fn lower_duplicate_sibling_names() {
    assert_eq!(kind_of("(let x 1) (let x 2) x"), LowerKind::DuplicateName);
    assert_eq!(node_of("(let x 1) (let y 1) (let x 2) x"), "(let x 2)");
    assert_eq!(kind_of("(let f 1) (def (f a) a) 1"), LowerKind::DuplicateName);
    assert_eq!(kind_of("(def (f a) a) (def (f b) b) 1"), LowerKind::DuplicateName);
    assert_eq!(kind_of("(def (g) (let t 1) (let t 2) t) 1"), LowerKind::DuplicateName);
}

#[test]
fn lower_binding_named_like_the_entry_function() {
    assert_eq!(kind_of("(let main 1) main"), LowerKind::DuplicateName);
    assert_eq!(node_of("(def (main) 1) 2"), "(def (main) 1)");
    assert!(lower("(def (f) (let main 1) main) (f)").is_ok());
}

#[test]
fn lower_shadowing_in_an_inner_scope_is_allowed() {
    assert!(lower("(let x 1) (def (f x) (let y x) y) (f x)").is_ok());
    assert!(lower("(def (f a) (def (f b) b) (f a)) (f 1)").is_ok());
}

#[test]
fn lower_def_is_no_expression() {
    assert_eq!(kind_of("(def (f a) a)"), LowerKind::DefNotExpr);
    assert_eq!(node_of("(f (def (g) 1))"), "(def (g) 1)");
    assert_eq!(kind_of("(let x (def (g) 1)) x"), LowerKind::DefNotExpr);
}

#[test]
fn lower_non_symbol_head() {
    let parsed = tree("((1 2) 3)");
    assert_eq!(parsed.len(), 1);
    assert!(matches!(&parsed[0], Ast::App(items) if items.len() == 2));
    let err = lower("((1 2) 3)").unwrap_err();
    assert_eq!(err.kind, LowerKind::NonSymbolHead);
    assert_eq!(show(&err.node.unwrap()), "(1 2)");
    assert_eq!(kind_of("(1 2)"), LowerKind::NonSymbolHead);
    assert_eq!(kind_of("(\"f\" 2)"), LowerKind::NonSymbolHead);
}

#[test]
fn lower_empty_list_expression() {
    assert_eq!(kind_of("()"), LowerKind::EmptyApp);
    assert_eq!(kind_of("(f ())"), LowerKind::EmptyApp);
}

#[test]
fn lower_float_and_string_are_not_supported() {
    assert_eq!(kind_of("1.5"), LowerKind::Unsupported);
    assert_eq!(node_of("(f 1 2.5)"), "2.5");
    assert_eq!(kind_of("\"text\""), LowerKind::Unsupported);
    assert_eq!(kind_of("(let s \"text\") s"), LowerKind::Unsupported);
}

#[test]
fn lower_first_error_wins() {
    assert_eq!(kind_of("(let x 1.5) (let x) y z"), LowerKind::Unsupported);
    assert_eq!(kind_of("(f (g ()) 1.5)"), LowerKind::EmptyApp);
    assert_eq!(kind_of("(let a 1) b (let c)"), LowerKind::EarlyExpr);
}

#[test]
fn expr_new_on_leaves() {
    assert_eq!(Expr::new(&Ast::I64(-7, Src::default())), Ok(Expr::I64(-7)));
    assert_eq!(Expr::new(&Ast::Sym(String::from("v"), Src::default())), Ok(var("v")));
    let f = Ast::F64(String::from("1."), Src::default());
    let err = Expr::new(&f).unwrap_err();
    assert_eq!(err.kind, LowerKind::Unsupported);
    assert_eq!(err.node, Some(f));
}

#[test]
fn ast2var_lowers_one_binding() {
    assert_eq!(ast2var(&items("(let x (f 1))")), Ok((String::from("x"), call("f", vec![Expr::I64(1)]))));
    let (name, value) = ast2var(&items("(def (sq n) (mul n n))")).unwrap();
    assert_eq!(name, "sq");
    assert!(matches!(value, Expr::Func(f) if f.params == vec!["n"]));
    assert_eq!(ast2var(&Vec::new()).unwrap_err().kind, LowerKind::BadBinding);
    assert_eq!(ast2var(&items("(set x 1)")).unwrap_err().kind, LowerKind::BadBinding);
}

#[test]
fn func_new_reads_header_then_body() {
    let f = Func::new(&items("((add3 a b c) (let s (+ a b)) (+ s c))")).unwrap();
    assert_eq!(f.name, Some(String::from("add3")));
    assert_eq!(f.params, vec!["a", "b", "c"]);
    assert_eq!(f.binds, vec![(String::from("s"), call("+", vec![var("a"), var("b")]))]);
    assert_eq!(f.ret, call("+", vec![var("s"), var("c")]));
    let err = Func::new(&Vec::new()).unwrap_err();
    assert_eq!(err.kind, LowerKind::DefHeader);
    assert_eq!(err.node, Some(Ast::App(vec![])));
    assert_eq!(Func::new(&items("(f 1)")).unwrap_err().kind, LowerKind::DefHeader);
    assert_eq!(Func::new(&items("((f))")).unwrap_err().kind, LowerKind::EmptyBlock);
}

#[test]
fn clone_of_a_program_is_equal() {
    let prog = lower("(let a 1) (def (f x) (def (g) x) (+ x a)) (f (f a))").unwrap();
    let copy = prog.clone();
    assert_eq!(copy, prog);
    let cond = Expr::Cond(vec![(var("a"), call("f", vec![Expr::I64(1)]))]);
    assert_eq!(cond.clone(), cond);
    let main = &prog.mods[0].1;
    assert_eq!(main.clone(), *main);
}

#[test]
fn lowered_names_are_distinct() {
    let main = main_of("(let a 1) (def (f x y) (let b 2) (def (g) 1) (g)) (let c 3) (f a c)");
    let names: Vec<&String> = main.binds.iter().map(|b| &b.0).collect();
    assert_eq!(names, vec!["a", "f", "c"]);
    match &main.binds[1].1 {
        Expr::Func(f) => {
            assert_eq!(f.name.as_ref(), Some(&main.binds[1].0));
            assert_eq!(f.params, vec!["x", "y"]);
        }
        other => panic!("unexpected {:?}", other),
    }
}
