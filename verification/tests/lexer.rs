use sexpc::lex::{
    classify, classify_all, lex_chars, next_token, read_string, tokenize, unescape_char, CharKind,
    LexKind, StrLit,
};
use sexpc::parse::{Ast, Src, Tok};
use std::rc::Rc;

fn texts(toks: &[Tok]) -> Vec<String> {
    toks.iter().map(|t| t.txt.clone()).collect()
}

fn offsets(toks: &[Tok]) -> Vec<usize> {
    toks.iter().map(|t| t.src.offs).collect()
}

fn chars(s: &str) -> Vec<char> {
    s.chars().collect()
}

fn here() -> Src {
    Src { file: Rc::new(String::from("t")), offs: 0 }
}

#[test]
fn lex_simple_call() {
    let toks = tokenize(String::from("(+ x 12)")).unwrap();
    assert_eq!(texts(&toks), vec!["(", "+", "x", "12", ")"]);
    assert_eq!(offsets(&toks), vec![0, 1, 3, 5, 7]);
    assert_eq!(toks[0].val, None);
    assert_eq!(toks[4].val, None);
    assert!(matches!(&toks[1].val, Some(Ast::Sym(s, _)) if s == "+"));
    assert!(matches!(&toks[2].val, Some(Ast::Sym(s, _)) if s == "x"));
    assert!(matches!(&toks[3].val, Some(Ast::I64(12, _))));
}

#[test]
fn lex_empty_and_blank_text() {
    assert_eq!(tokenize(String::new()).unwrap().len(), 0);
    assert_eq!(tokenize(String::from(" \t\n\r ")).unwrap().len(), 0);
}

#[test]
fn lex_records_file_and_position_in_values() {
    let toks = tokenize(String::from("ab 7")).unwrap();
    assert_eq!(*toks[1].src.file, "ab 7");
    match &toks[1].val {
        Some(Ast::I64(7, at)) => {
            assert_eq!(at.offs, 3);
            assert_eq!(*at.file, "ab 7");
        }
        other => panic!("unexpected value {:?}", other),
    }
}

#[test]
fn lex_brackets_of_both_flavors() {
    let toks = tokenize(String::from("([)]")).unwrap();
    assert_eq!(texts(&toks), vec!["(", "[", ")", "]"]);
    assert!(toks.iter().all(|t| t.val.is_none()));
}

#[test]
fn lex_float_keeps_its_digits() {
    let toks = tokenize(String::from("12. 1.5 3")).unwrap();
    assert_eq!(texts(&toks), vec!["12.", "1.5", "3"]);
    assert!(matches!(&toks[0].val, Some(Ast::F64(s, _)) if s == "12."));
    assert!(matches!(&toks[1].val, Some(Ast::F64(s, _)) if s == "1.5"));
    assert!(matches!(&toks[2].val, Some(Ast::I64(3, _))));
    let parsed: f64 = texts(&toks)[1].parse().unwrap();
    assert_eq!(parsed, 1.5);
}

#[test]
fn lex_float_wins_over_integer() {
    let toks = tokenize(String::from("1.2 3.x")).unwrap();
    assert_eq!(texts(&toks), vec!["1.2", "3.", "x"]);
    let err = tokenize(String::from("1.2.3")).unwrap_err();
    assert_eq!(err.kind, LexKind::InvalidToken);
    assert_eq!(err.offs, 3);
    assert_eq!(err.near, ".3");
    let err = tokenize(String::from("1..2")).unwrap_err();
    assert_eq!(err.kind, LexKind::InvalidToken);
    assert_eq!(err.offs, 2);
}

#[test]
fn lex_largest_integer() {
    let toks = tokenize(String::from("9223372036854775807 007")).unwrap();
    assert!(matches!(&toks[0].val, Some(Ast::I64(i64::MAX, _))));
    assert!(matches!(&toks[1].val, Some(Ast::I64(7, _))));
    assert_eq!(toks[1].txt, "007");
}

#[test]
fn lex_integer_overflow() {
    let err = tokenize(String::from("(f 9223372036854775808)")).unwrap_err();
    assert_eq!(err.kind, LexKind::IntOverflow);
    assert_eq!(err.offs, 3);
    assert_eq!(err.near, "9223372036854775808)");
}

#[test]
fn lex_symbol_characters() {
    let toks = tokenize(String::from("a-b? _x1 + -! \u{3bb}y")).unwrap();
    assert_eq!(texts(&toks), vec!["a-b?", "_x1", "+", "-!", "\u{3bb}y"]);
    assert_eq!(offsets(&toks), vec![0, 5, 9, 11, 14]);
}

#[test]
fn lex_symbol_stops_at_other_characters() {
    let toks = tokenize(String::from("ab(cd)")).unwrap();
    assert_eq!(texts(&toks), vec!["ab", "(", "cd", ")"]);
    let toks = tokenize(String::from("x\"s\"")).unwrap();
    assert_eq!(texts(&toks), vec!["x", "\"s\""]);
}

#[test]
fn lex_digits_then_letters_are_two_tokens() {
    let toks = tokenize(String::from("12ab")).unwrap();
    assert_eq!(texts(&toks), vec!["12", "ab"]);
}

#[test]
fn lex_unicode_number_continues_symbol() {
    let toks = tokenize(String::from("x\u{663} y\u{2167}")).unwrap();
    assert_eq!(texts(&toks), vec!["x\u{663}", "y\u{2167}"]);
}

#[test]
fn lex_non_ascii_digit_is_no_number() {
    let err = tokenize(String::from("\u{663}")).unwrap_err();
    assert_eq!(err.kind, LexKind::InvalidToken);
    let err = tokenize(String::from("1\u{663}")).unwrap_err();
    assert_eq!(err.kind, LexKind::InvalidToken);
    assert_eq!(err.offs, 0);
    let err = tokenize(String::from("1.\u{663}")).unwrap_err();
    assert_eq!(err.kind, LexKind::InvalidToken);
}

#[test]
fn lex_unicode_whitespace_is_skipped() {
    let toks = tokenize(String::from("a\u{a0}b\u{2003}c")).unwrap();
    assert_eq!(texts(&toks), vec!["a", "b", "c"]);
    assert_eq!(offsets(&toks), vec![0, 3, 7]);
}

#[test]
fn lex_byte_offsets_count_utf8_bytes() {
    let toks = tokenize(String::from("\u{e9} \u{4e2d} \u{1d400} z")).unwrap();
    assert_eq!(offsets(&toks), vec![0, 3, 7, 12]);
}

#[test]
fn lex_string_with_escapes() {
    let toks = tokenize(String::from("\"a\\\"b\\n\\t\\\\\" x")).unwrap();
    assert_eq!(toks.len(), 2);
    assert_eq!(toks[0].txt, "\"a\\\"b\\n\\t\\\\\"");
    assert!(matches!(&toks[0].val, Some(Ast::Str(s, _)) if s == "a\"b\n\t\\"));
    assert_eq!(toks[1].src.offs, 13);
}

#[test]
fn lex_empty_string() {
    let toks = tokenize(String::from("\"\"")).unwrap();
    assert_eq!(toks[0].txt, "\"\"");
    assert!(matches!(&toks[0].val, Some(Ast::Str(s, _)) if s.is_empty()));
}

#[test]
fn lex_string_may_hold_any_character() {
    let toks = tokenize(String::from("\"( 1 \u{e9}\n)\"")).unwrap();
    assert_eq!(toks.len(), 1);
    assert!(matches!(&toks[0].val, Some(Ast::Str(s, _)) if s == "( 1 \u{e9}\n)"));
}

#[test]
fn lex_unterminated_string() {
    let err = tokenize(String::from("\"abc")).unwrap_err();
    assert_eq!(err.kind, LexKind::UnterminatedString);
    assert_eq!(err.offs, 0);
    assert_eq!(err.near, "\"abc");
    let err = tokenize(String::from("x \"abc\\")).unwrap_err();
    assert_eq!(err.kind, LexKind::UnterminatedString);
    assert_eq!(err.offs, 2);
    let err = tokenize(String::from("\"abc\\\"")).unwrap_err();
    assert_eq!(err.kind, LexKind::UnterminatedString);
}

#[test]
fn lex_unsupported_escape() {
    let err = tokenize(String::from("(\"a\\qb\")")).unwrap_err();
    assert_eq!(err.kind, LexKind::BadEscape);
    assert_eq!(err.offs, 1);
    assert_eq!(err.near, "\"a\\qb\")");
}

#[test]
fn lex_invalid_character_reports_twenty_characters() {
    let err = tokenize(String::from("(a #0123456789012345678901234)")).unwrap_err();
    assert_eq!(err.kind, LexKind::InvalidToken);
    assert_eq!(err.offs, 3);
    assert_eq!(err.near, "#0123456789012345678");
    assert_eq!(err.near.chars().count(), 20);
}

#[test]
fn lex_stops_at_first_error() {
    let err = tokenize(String::from("a * \"open")).unwrap_err();
    assert_eq!(err.kind, LexKind::InvalidToken);
    assert_eq!(err.offs, 2);
    assert_eq!(err.near, "* \"open");
}

#[test]
fn lex_round_trip_rebuilds_source() {
    let source = "  (def (f a\tb)\n    (+ a 1.5 \"s p\\n\"))\r\n [f 3 \u{3bb}]  ";
    let toks = tokenize(String::from(source)).unwrap();
    let mut rebuilt = String::new();
    let mut at = 0;
    for t in &toks {
        let gap = &source[at..t.src.offs];
        assert!(gap.chars().all(|c| c.is_whitespace()));
        rebuilt.push_str(gap);
        rebuilt.push_str(&t.txt);
        at = t.src.offs + t.txt.len();
    }
    let rest = &source[at..];
    assert!(rest.chars().all(|c| c.is_whitespace()));
    rebuilt.push_str(rest);
    assert_eq!(rebuilt, source);
}

const PLAIN: CharKind = CharKind { space: false, digit: false, letter: false, number: false };
const SPACE: CharKind = CharKind { space: true, digit: false, letter: false, number: false };
const DIGIT: CharKind = CharKind { space: false, digit: true, letter: false, number: true };
const LETTER: CharKind = CharKind { space: false, digit: false, letter: true, number: false };

#[test]
fn classify_asks_the_unicode_classes() {
    assert_eq!(classify(' '), SPACE);
    assert_eq!(classify('\n'), SPACE);
    assert_eq!(classify('\u{2003}'), SPACE);
    assert_eq!(classify('7'), DIGIT);
    assert_eq!(classify('\u{663}'), DIGIT);
    assert_eq!(classify('\u{2167}'), CharKind { number: true, ..PLAIN });
    assert_eq!(classify('a'), LETTER);
    assert_eq!(classify('Z'), LETTER);
    assert_eq!(classify('\u{3bb}'), LETTER);
    assert_eq!(classify('\u{4e2d}'), LETTER);
    for c in ['(', ')', '[', ']', '_', '+', '-', '!', '?', '"', '.', '*', '#', '\\'] {
        assert_eq!(classify(c), PLAIN, "{}", c);
    }
    assert_eq!(classify_all(&chars("a 1")), vec![LETTER, SPACE, DIGIT]);
    assert_eq!(classify_all(&chars("")), vec![]);
}

#[test]
fn lex_chars_goes_by_the_kinds_it_is_given() {
    let toks = lex_chars(String::from("ab 12"), &vec![LETTER, LETTER, SPACE, DIGIT, DIGIT]).unwrap();
    assert_eq!(texts(&toks), vec!["ab", "12"]);
    let toks = lex_chars(String::from("ab 12"), &vec![LETTER, SPACE, LETTER, DIGIT, SPACE]).unwrap();
    assert_eq!(texts(&toks), vec!["a", " 1"]);
    assert!(matches!(&toks[1].val, Some(Ast::Sym(s, _)) if s == " 1"));
    assert_eq!(offsets(&toks), vec![0, 2]);
    let toks = lex_chars(String::from("ab 12"), &vec![LETTER, SPACE, SPACE, DIGIT, SPACE]).unwrap();
    assert_eq!(texts(&toks), vec!["a", "1"]);
    assert!(matches!(&toks[1].val, Some(Ast::I64(1, _))));
    assert_eq!(offsets(&toks), vec![0, 3]);
    let toks = lex_chars(String::from("x+y"), &vec![DIGIT, DIGIT, DIGIT]);
    assert_eq!(toks.unwrap_err().kind, LexKind::InvalidToken);
    let toks = lex_chars(String::from("(_)"), &vec![SPACE, PLAIN, PLAIN]).unwrap();
    assert_eq!(texts(&toks), vec!["_", ")"]);
}

#[test]
fn lex_chars_without_kinds_knows_no_class() {
    let toks = lex_chars(String::from("(+)"), &vec![]).unwrap();
    assert_eq!(texts(&toks), vec!["(", "+", ")"]);
    let err = lex_chars(String::from("a"), &vec![]).unwrap_err();
    assert_eq!(err.kind, LexKind::InvalidToken);
    let err = lex_chars(String::from("+ 1"), &vec![PLAIN]).unwrap_err();
    assert_eq!(err.kind, LexKind::InvalidToken);
    assert_eq!(err.offs, 1);
    assert_eq!(err.near, " 1");
}

#[test]
fn next_token_reads_one_token() {
    let text = chars("foo(bar");
    let kinds = classify_all(&text);
    let (tok, end) = next_token(&text, &kinds, 0, here()).unwrap();
    assert_eq!(tok.txt, "foo");
    assert_eq!(end, 3);
    let (tok, end) = next_token(&text, &kinds, 3, here()).unwrap();
    assert_eq!(tok.txt, "(");
    assert_eq!(tok.val, None);
    assert_eq!(end, 4);
    assert_eq!(tok.src, here());
}

#[test]
fn next_token_past_the_end() {
    let text = chars("ab");
    let kinds = classify_all(&text);
    assert_eq!(next_token(&text, &kinds, 2, here()).unwrap_err(), LexKind::InvalidToken);
    assert_eq!(next_token(&text, &kinds, 9, here()).unwrap_err(), LexKind::InvalidToken);
}

#[test]
fn next_token_does_not_skip_whitespace() {
    let text = chars(" a");
    let kinds = classify_all(&text);
    assert_eq!(next_token(&text, &kinds, 0, here()).unwrap_err(), LexKind::InvalidToken);
    assert_eq!(next_token(&text, &kinds, 1, here()).unwrap().0.txt, "a");
}

#[test]
fn read_string_outcomes() {
    assert_eq!(read_string(&chars("abc"), 0), StrLit::NotString);
    assert_eq!(read_string(&chars("\"ab\" c"), 0), StrLit::Done(String::from("ab"), 4));
    assert_eq!(read_string(&chars("x\"a\\tb\""), 1), StrLit::Done(String::from("a\tb"), 7));
    assert_eq!(read_string(&chars("\"ab"), 0), StrLit::Unterminated);
    assert_eq!(read_string(&chars("\"a\\"), 0), StrLit::Unterminated);
    assert_eq!(read_string(&chars("\"a\\x\""), 0), StrLit::BadEscape);
    assert_eq!(read_string(&chars("\""), 1), StrLit::NotString);
}

#[test]
fn unescape_char_table() {
    assert_eq!(unescape_char('"'), Some('"'));
    assert_eq!(unescape_char('n'), Some('\n'));
    assert_eq!(unescape_char('t'), Some('\t'));
    assert_eq!(unescape_char('\\'), Some('\\'));
    assert_eq!(unescape_char('r'), None);
    assert_eq!(unescape_char('0'), None);
}
