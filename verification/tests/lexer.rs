use pup::ast::lexer::{Lexer, Pos, Token, Ty};
use pup::compiler::context::Context;
use pup::compiler::str_store::StrStore;

fn kinds(source: &str) -> Vec<Ty> {
    let mut store = StrStore::new();
    let mut lexer = Lexer::new(&mut store, source);
    let mut out = Vec::new();
    loop {
        let token = lexer.next(&mut store);
        out.push(token.ty);
        if token.ty == Ty::Eof {
            break;
        }
    }
    out
}

fn texts(source: &str) -> Vec<String> {
    let mut store = StrStore::new();
    let mut lexer = Lexer::new(&mut store, source);
    let mut out = Vec::new();
    loop {
        let token = lexer.next(&mut store);
        if token.ty == Ty::Eof {
            break;
        }
        out.push(store.get_str(token.lexeme).to_string());
    }
    out
}

#[test]
fn interning_gives_one_id_per_string() {
    let mut ctx = Context::new();
    let a = ctx.get_mstr("main");
    let b = ctx.get_mstr("other");
    let c = ctx.get_mstr("main");
    assert_eq!(a, c);
    assert_ne!(a, b);
    assert_eq!(ctx.str_store.get_str(a), "main");
    assert_eq!(ctx.str_store.get_str(b), "other");
    assert_eq!(ctx.str_store.len(), 2);
}

#[test]
fn lexes_keywords_and_identifiers() {
    assert_eq!(
        kinds("fn true false if loop break type in mod use return name"),
        vec![
            Ty::FnKeyword,
            Ty::TrueKeyword,
            Ty::FalseKeyword,
            Ty::IfKeyword,
            Ty::LoopKeyword,
            Ty::BreakKeyword,
            Ty::TypeKeyword,
            Ty::InKeyword,
            Ty::ModKeyword,
            Ty::UseKeyword,
            Ty::ReturnKeyword,
            Ty::Identifier,
            Ty::Eof,
        ]
    );
}

#[test]
fn lexes_punctuation() {
    assert_eq!(
        kinds("( ) { } + - * / < ; , = == .. ::"),
        vec![
            Ty::OpenParen,
            Ty::CloseParen,
            Ty::OpenBrace,
            Ty::CloseBrace,
            Ty::Plus,
            Ty::Minus,
            Ty::Multiply,
            Ty::Divide,
            Ty::LessThan,
            Ty::Semicolon,
            Ty::Comma,
            Ty::Equal,
            Ty::EqualEqual,
            Ty::RangeOperator,
            Ty::ModuleOperator,
            Ty::Eof,
        ]
    );
}

#[test]
fn lexes_numbers() {
    assert_eq!(kinds("12 1_000 3.25"), vec![Ty::Int, Ty::Int, Ty::Float, Ty::Eof]);
    assert_eq!(texts("12 1_000 3.25"), vec!["12", "1_000", "3.25"]);
    assert_eq!(kinds("1..2"), vec![Ty::Float, Ty::Unknown, Ty::Int, Ty::Eof]);
    assert_eq!(texts("1..2"), vec!["1.", ".", "2"]);
    assert_eq!(kinds("a..b"), vec![Ty::Identifier, Ty::RangeOperator, Ty::Identifier, Ty::Eof]);
}

#[test]
fn a_second_dot_ends_a_float() {
    assert_eq!(kinds("1.2.3"), vec![Ty::Float, Ty::Unknown, Ty::Int, Ty::Eof]);
    assert_eq!(texts("1.2.3"), vec!["1.2", ".", "3"]);
}

#[test]
fn lexes_module_paths() {
    assert_eq!(kinds("a::b"), vec![Ty::Identifier, Ty::ModuleOperator, Ty::Identifier, Ty::Eof]);
    assert_eq!(texts("a::b"), vec!["a", "::", "b"]);
}

#[test]
fn identifiers_take_letters_digits_and_underscores() {
    assert_eq!(texts("ab_1 c2"), vec!["ab_1", "c2"]);
    assert_eq!(kinds("fnx"), vec![Ty::Identifier, Ty::Eof]);
}

#[test]
fn unknown_characters_run_until_a_token_could_start() {
    assert_eq!(kinds("@#a"), vec![Ty::Unknown, Ty::Identifier, Ty::Eof]);
    assert_eq!(texts("@#a"), vec!["@#", "a"]);
    assert_eq!(texts(": x"), vec![":", "x"]);
}

#[test]
fn skips_whitespace_and_comments() {
    assert_eq!(kinds("  // a comment\n\tfn // more\n x"), vec![Ty::FnKeyword, Ty::Identifier, Ty::Eof]);
    assert_eq!(kinds("\u{2003}fn\u{a0}"), vec![Ty::FnKeyword, Ty::Eof]);
    assert_eq!(kinds(""), vec![Ty::Eof]);
    assert_eq!(kinds("// only a comment"), vec![Ty::Eof]);
}

#[test]
fn new_lines_do_not_become_semicolons() {
    assert_eq!(kinds("x\ny"), vec![Ty::Identifier, Ty::Identifier, Ty::Eof]);
}

#[test]
fn token_positions() {
    let mut store = StrStore::new();
    let mut lexer = Lexer::new(&mut store, "ab (é");
    let a = lexer.next(&mut store);
    assert_eq!(a.pos, Pos::from(0));
    let paren = lexer.next(&mut store);
    assert_eq!(paren.pos, Pos::from(4));
    let e = lexer.next(&mut store);
    assert_eq!(e.ty, Ty::Unknown);
    assert_eq!(e.pos, Pos::from(4));
    let eof = lexer.next(&mut store);
    assert_eq!(eof.ty, Ty::Eof);
    assert_eq!(eof.pos, Pos::from(6));
}

#[test]
fn peek_shows_the_next_token() {
    let mut store = StrStore::new();
    let mut lexer = Lexer::new(&mut store, "a b");
    assert_eq!(lexer.peek().ty, Ty::Identifier);
    let first = lexer.next(&mut store);
    assert_eq!(store.get_str(first.lexeme), "a");
    assert_eq!(store.get_str(lexer.peek().lexeme), "b");
    lexer.next(&mut store);
    assert_eq!(lexer.peek().ty, Ty::Eof);
    assert_eq!(lexer.next(&mut store).ty, Ty::Eof);
    assert_eq!(lexer.next(&mut store).ty, Ty::Eof);
}

#[test]
fn recover_until_decl_stops_at_a_keyword() {
    let mut store = StrStore::new();
    let mut lexer = Lexer::new(&mut store, "x y fn z");
    assert!(lexer.recover_until_decl(&mut store));
    assert_eq!(lexer.peek().ty, Ty::FnKeyword);
    let kw = lexer.next(&mut store);
    assert_eq!(store.get_str(kw.lexeme), "fn");
    assert_eq!(store.get_str(lexer.peek().lexeme), "z");
    let mut lexer = Lexer::new(&mut store, "type t");
    assert!(lexer.recover_until_decl(&mut store));
    assert_eq!(lexer.peek().ty, Ty::TypeKeyword);
    let mut lexer = Lexer::new(&mut store, "x y");
    assert!(!lexer.recover_until_decl(&mut store));
    assert_eq!(lexer.peek().ty, Ty::Eof);
}

#[test]
fn recover_until_expr_stops_after_the_end_of_a_statement() {
    let mut store = StrStore::new();
    let mut lexer = Lexer::new(&mut store, "x ; y z");
    assert!(lexer.recover_until_expr(&mut store));
    assert_eq!(store.get_str(lexer.peek().lexeme), "y");
    let mut lexer = Lexer::new(&mut store, "x } w");
    assert!(lexer.recover_until_expr(&mut store));
    assert_eq!(store.get_str(lexer.peek().lexeme), "w");
    let mut lexer = Lexer::new(&mut store, "x y");
    assert!(!lexer.recover_until_expr(&mut store));
    assert_eq!(lexer.peek().ty, Ty::Eof);
}

#[test]
fn token_constructors_intern_their_text() {
    let mut store = StrStore::new();
    let cases: Vec<(Token, &str, Ty)> = vec![
        (Token::new_open_paren(&mut store, 1), "(", Ty::OpenParen),
        (Token::new_close_paren(&mut store, 1), ")", Ty::CloseParen),
        (Token::new_open_brace(&mut store, 1), "{", Ty::OpenBrace),
        (Token::new_close_brace(&mut store, 1), "}", Ty::CloseBrace),
        (Token::new_range(&mut store, 1), "..", Ty::RangeOperator),
        (Token::new_module(&mut store, 1), "::", Ty::ModuleOperator),
        (Token::new_plus(&mut store, 1), "+", Ty::Plus),
        (Token::new_minus(&mut store, 1), "-", Ty::Minus),
        (Token::new_multiply(&mut store, 1), "*", Ty::Multiply),
        (Token::new_divide(&mut store, 1), "/", Ty::Divide),
        (Token::new_equal(&mut store, 1), "=", Ty::Equal),
        (Token::new_equal_equal(&mut store, 1), "==", Ty::EqualEqual),
        (Token::new_less_than(&mut store, 1), "<", Ty::LessThan),
        (Token::new_semicolon(&mut store, 1), ";", Ty::Semicolon),
        (Token::new_comma(&mut store, 1), ",", Ty::Comma),
        (Token::new_eof(&mut store, 1), "", Ty::Eof),
    ];
    for (token, text, ty) in cases {
        assert_eq!(token.ty, ty);
        assert_eq!(token.pos, Pos::from(1));
        assert_eq!(store.get_str(token.lexeme), text);
    }
}
