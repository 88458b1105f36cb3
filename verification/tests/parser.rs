use pup::ast::ast::{Decl, DeclValue, Expr, ExprValue, Operator};
use pup::ast::parser::infix_expr::{expr_infix_parselets, InfixParselet, Precedence};
use pup::ast::parser::literal::{is_f64_text, parse_i64, strip_underscores_exec};
use pup::ast::parser::{ParseHalt, Parser};
use pup::ast::lexer::{Pos, Ty};
use pup::compiler::context::Context;
use pup::compiler::module::Module;
use pup::index_vec::Indexer;
use pup::types::unchecked_ty::UncheckedTyValue;

fn parse(source: &str) -> (Context, Module, Result<(), ParseHalt>) {
    let mut ctx = Context::new();
    let path = ctx.get_mstr("main");
    let module = ctx.create_module(path);
    let parser = Parser::new(&ctx, module);
    let r = parser.parse(&mut ctx, source);
    (ctx, module, r)
}

fn decls(ctx: &Context, module: Module) -> Vec<Decl> {
    ctx.get_module_value(module).ast.clone()
}

fn invalid_msg(ctx: &Context, d: Decl) -> &'static str {
    match ctx.ast_store.get_decl_value(d) {
        DeclValue::Invalid(m) => m,
        _ => "not invalid",
    }
}

fn body(ctx: &Context, d: Decl) -> Vec<Expr> {
    match ctx.ast_store.get_decl_value(d) {
        DeclValue::Func(f) => f.body.exprs.clone(),
        _ => panic!("not a function"),
    }
}

fn text(ctx: &Context, s: pup::compiler::str_store::MStr) -> String {
    ctx.str_store.get_str(s).to_string()
}

#[test]
fn parse_sets_the_module_name() {
    let (ctx, module, r) = parse("mod app;");
    assert!(r.is_ok());
    let ds = decls(&ctx, module);
    assert_eq!(ds.len(), 1);
    assert!(matches!(ctx.ast_store.get_decl_value(ds[0]), DeclValue::Mod(_)));
    assert_eq!(text(&ctx, ctx.get_module_value(module).name), "app");
}

#[test]
fn the_first_declaration_must_name_the_module() {
    let (ctx, module, r) = parse("fn f() {};");
    assert!(r.is_ok());
    let ds = decls(&ctx, module);
    assert_eq!(
        invalid_msg(&ctx, ds[0]),
        "missing module name, first declaration in a file must be a module name decl"
    );
    assert_eq!(text(&ctx, ctx.get_module_value(module).name), "main");
}

#[test]
fn mod_and_use_after_the_second_declaration_are_invalid() {
    let (ctx, module, r) = parse("mod a; mod b; mod c; use ( x; );");
    assert!(r.is_ok());
    let ds = decls(&ctx, module);
    assert_eq!(ds.len(), 4);
    assert!(matches!(ctx.ast_store.get_decl_value(ds[1]), DeclValue::Mod(_)));
    assert_eq!(invalid_msg(&ctx, ds[2]), "module name can only appear as the first decl in a file");
    assert_eq!(
        invalid_msg(&ctx, ds[3]),
        "the use block can only appear directly after the module name in a file"
    );
}

#[test]
fn an_empty_source_has_no_declarations() {
    let (ctx, module, r) = parse("");
    assert!(r.is_ok());
    assert_eq!(decls(&ctx, module).len(), 0);
    assert_eq!(invalid_msg(&ctx, Decl::from_index(0)), "missing module name");
}

#[test]
fn an_empty_source_stores_one_missing_module_name_at_its_start() {
    let mut ctx = Context::new();
    let path = ctx.get_mstr("main");
    let module = ctx.create_module(path);
    let name_before = ctx.get_module_value(module).name;
    Parser::new(&ctx, module).parse(&mut ctx, "").unwrap();
    assert_eq!(invalid_msg(&ctx, Decl::from_index(0)), "missing module name");
    assert_eq!(ctx.ast_store.get_decl_start(Decl::from_index(0)), Pos::from(0));
    assert_eq!(ctx.get_module_value(module).name, name_before);
}

#[test]
fn parses_a_use_block() {
    let (ctx, module, r) = parse("mod a; use ( b; c; );");
    assert!(r.is_ok());
    let ds = decls(&ctx, module);
    match ctx.ast_store.get_decl_value(ds[1]) {
        DeclValue::Use(u) => {
            let names: Vec<String> = u.deps.iter().map(|d| text(&ctx, *d)).collect();
            assert_eq!(names, vec!["b", "c"]);
        }
        _ => panic!("expected a use declaration"),
    }
}

#[test]
fn use_block_errors() {
    let (ctx, module, _) = parse("mod a; use b;");
    assert_eq!(invalid_msg(&ctx, decls(&ctx, module)[1]), "missing opening paren in use decl");
    let (ctx, module, _) = parse("mod a; use ( 1 );");
    assert_eq!(invalid_msg(&ctx, decls(&ctx, module)[1]), "invalid token inside use block");
    let (ctx, module, _) = parse("mod a; use ( b c );");
    assert_eq!(invalid_msg(&ctx, decls(&ctx, module)[1]), "missing semicolon/new line after module name");
}

#[test]
fn a_missing_semicolon_adds_an_invalid_declaration() {
    let (ctx, module, r) = parse("mod a fn f() {};");
    assert!(r.is_ok());
    let ds = decls(&ctx, module);
    assert_eq!(ds.len(), 2);
    assert_eq!(invalid_msg(&ctx, ds[1]), "missing semicolon/new line after declaration");
}

#[test]
fn mod_without_a_name() {
    let (ctx, module, _) = parse("mod 1;");
    assert_eq!(
        invalid_msg(&ctx, decls(&ctx, module)[0]),
        "missing module name, first declaration in a file must be a module name decl"
    );
    let (ctx, module, _) = parse("mod a; mod 1;");
    assert_eq!(invalid_msg(&ctx, decls(&ctx, module)[1]), "function is missing a body");
}

#[test]
fn parses_a_function() {
    let (ctx, module, r) = parse("mod a; fn f(x i64, y bool) i64 { 1 };");
    assert!(r.is_ok());
    let ds = decls(&ctx, module);
    match ctx.ast_store.get_decl_value(ds[1]) {
        DeclValue::Func(f) => {
            assert_eq!(text(&ctx, f.name), "f");
            let params: Vec<String> = f.params.iter().map(|p| text(&ctx, *p)).collect();
            assert_eq!(params, vec!["x"]);
            assert_eq!(f.body.exprs.len(), 1);
            match ctx.unchecked_ty_store.get_ty_value(f.ty) {
                UncheckedTyValue::Func(t) => {
                    assert_eq!(t.params.len(), 1);
                    assert!(matches!(ctx.unchecked_ty_store.get_ty_value(t.params[0]), UncheckedTyValue::I64));
                    assert!(matches!(ctx.unchecked_ty_store.get_ty_value(t.return_ty), UncheckedTyValue::I64));
                }
                _ => panic!("expected a function type"),
            }
        }
        _ => panic!("expected a function"),
    }
}

#[test]
fn a_function_without_a_return_type_returns_none() {
    let (ctx, module, _) = parse("mod a; fn f() {};");
    match ctx.ast_store.get_decl_value(decls(&ctx, module)[1]) {
        DeclValue::Func(f) => match ctx.unchecked_ty_store.get_ty_value(f.ty) {
            UncheckedTyValue::Func(t) => {
                assert!(matches!(ctx.unchecked_ty_store.get_ty_value(t.return_ty), UncheckedTyValue::Unit))
            }
            _ => panic!("expected a function type"),
        },
        _ => panic!("expected a function"),
    }
}

#[test]
fn function_header_errors() {
    let cases = vec![
        ("mod a; fn 1;", "function decl is missing a name"),
        ("mod a; fn f;", "function decl is missing an open paren"),
        ("mod a; fn f(", "function decl is missing a closing paren"),
        ("mod a; fn f(1) {};", "function param needs an identifer for a name"),
        ("mod a; fn f(x 1) {};", "expecting paramater type spec"),
        ("mod a; fn f(x i64 y) {};", "paramaters must be separated by commas"),
        ("mod a; fn f() 1 {};", "expecting return type"),
        ("mod a; fn f() i64;", "function is missing a body"),
    ];
    for (source, msg) in cases {
        let (ctx, module, r) = parse(source);
        assert!(r.is_ok(), "{}", source);
        assert_eq!(invalid_msg(&ctx, decls(&ctx, module)[1]), msg, "{}", source);
    }
}

#[test]
fn parses_type_declarations() {
    let (ctx, module, _) = parse("mod a; type t i64;");
    match ctx.ast_store.get_decl_value(decls(&ctx, module)[1]) {
        DeclValue::Ty(t) => {
            assert_eq!(text(&ctx, t.name), "t");
            assert!(matches!(ctx.unchecked_ty_store.get_ty_value(t.ty), UncheckedTyValue::I64));
        }
        _ => panic!("expected a type declaration"),
    }
    let (ctx, module, _) = parse("mod a; type t b::c;");
    match ctx.ast_store.get_decl_value(decls(&ctx, module)[1]) {
        DeclValue::Ty(t) => match ctx.unchecked_ty_store.get_ty_value(t.ty) {
            UncheckedTyValue::Named(n) => {
                assert_eq!(text(&ctx, n.module.unwrap()), "b");
                assert_eq!(text(&ctx, n.name), "c");
            }
            _ => panic!("expected a named type"),
        },
        _ => panic!("expected a type declaration"),
    }
    let (ctx, module, _) = parse("mod a; type 1;");
    assert_eq!(invalid_msg(&ctx, decls(&ctx, module)[1]), "missing name for type decl");
}

#[test]
fn builtin_type_names() {
    let (ctx, module, _) = parse("mod a; type t f64; type u none; type v bool; type w x;");
    let ds = decls(&ctx, module);
    let kinds: Vec<bool> = ds[1..]
        .iter()
        .map(|d| match ctx.ast_store.get_decl_value(*d) {
            DeclValue::Ty(t) => match ctx.unchecked_ty_store.get_ty_value(t.ty) {
                UncheckedTyValue::F64 | UncheckedTyValue::Unit | UncheckedTyValue::Bool => true,
                UncheckedTyValue::Named(n) => n.module.is_none(),
                _ => false,
            },
            _ => false,
        })
        .collect();
    assert_eq!(kinds, vec![true, true, true, true]);
}

#[test]
fn an_unknown_declaration_is_invalid() {
    let (ctx, module, _) = parse("mod a; x;");
    assert_eq!(invalid_msg(&ctx, decls(&ctx, module)[1]), "unknown declaration type");
}

#[test]
fn binary_operators_follow_precedence() {
    let (ctx, module, r) = parse("mod a; fn f() { 1 + 2 * 3 };");
    assert!(r.is_ok());
    let b = body(&ctx, decls(&ctx, module)[1]);
    match ctx.ast_store.get_expr_value(b[0]) {
        ExprValue::Binary(plus) => {
            assert_eq!(plus.operator, Operator::Plus);
            assert!(matches!(ctx.ast_store.get_expr_value(plus.left), ExprValue::IntLiteral(1)));
            match ctx.ast_store.get_expr_value(plus.right) {
                ExprValue::Binary(times) => assert_eq!(times.operator, Operator::Multiply),
                _ => panic!("expected a product"),
            }
        }
        _ => panic!("expected a sum"),
    }
    let (ctx, module, _) = parse("mod a; fn f() { 1 * 2 + 3 };");
    let b = body(&ctx, decls(&ctx, module)[1]);
    match ctx.ast_store.get_expr_value(b[0]) {
        ExprValue::Binary(plus) => {
            assert_eq!(plus.operator, Operator::Plus);
            match ctx.ast_store.get_expr_value(plus.left) {
                ExprValue::Binary(times) => {
                    assert_eq!(times.operator, Operator::Multiply);
                    assert!(matches!(ctx.ast_store.get_expr_value(times.left), ExprValue::IntLiteral(1)));
                    assert!(matches!(ctx.ast_store.get_expr_value(times.right), ExprValue::IntLiteral(2)));
                }
                _ => panic!("expected a product"),
            }
            assert!(matches!(ctx.ast_store.get_expr_value(plus.right), ExprValue::IntLiteral(3)));
        }
        _ => panic!("expected a sum"),
    }
    let (ctx, module, _) = parse("mod a; fn f() { 1 - 2 - 3 };");
    let b = body(&ctx, decls(&ctx, module)[1]);
    match ctx.ast_store.get_expr_value(b[0]) {
        ExprValue::Binary(outer) => {
            assert_eq!(outer.operator, Operator::Minus);
            assert!(matches!(ctx.ast_store.get_expr_value(outer.left), ExprValue::Binary(_)));
            assert!(matches!(ctx.ast_store.get_expr_value(outer.right), ExprValue::IntLiteral(3)));
        }
        _ => panic!("expected a difference"),
    }
}

#[test]
fn comparison_and_equality_operators() {
    let (_, _, r) = parse("mod a; fn f() { a == b; };");
    assert!(matches!(r, Err(ParseHalt::UnexpectedToken)));
    let (ctx, module, _) = parse("mod a; fn f() { a == b };");
    let b = body(&ctx, decls(&ctx, module)[1]);
    match ctx.ast_store.get_expr_value(b[0]) {
        ExprValue::Binary(e) => assert_eq!(e.operator, Operator::Equal),
        _ => panic!("expected a comparison"),
    }
    let (ctx, module, _) = parse("mod a; fn f() { a < b - c / d };");
    let b = body(&ctx, decls(&ctx, module)[1]);
    match ctx.ast_store.get_expr_value(b[0]) {
        ExprValue::Binary(e) => assert_eq!(e.operator, Operator::LessThan),
        _ => panic!("expected a comparison"),
    }
}

#[test]
fn parses_calls_and_ranges() {
    let (ctx, module, _) = parse("mod a; fn f() { g(1, x) };");
    let b = body(&ctx, decls(&ctx, module)[1]);
    match ctx.ast_store.get_expr_value(b[0]) {
        ExprValue::Call(c) => {
            assert_eq!(c.args.len(), 2);
            assert!(matches!(ctx.ast_store.get_expr_value(c.func), ExprValue::Identifier(_)));
        }
        _ => panic!("expected a call"),
    }
    let (ctx, module, _) = parse("mod a; fn f() { g() };");
    let b = body(&ctx, decls(&ctx, module)[1]);
    assert!(matches!(ctx.ast_store.get_expr_value(b[0]), ExprValue::Call(c) if c.args.is_empty()));
    let (ctx, module, _) = parse("mod a; fn f() { a..b };");
    let b = body(&ctx, decls(&ctx, module)[1]);
    assert!(matches!(ctx.ast_store.get_expr_value(b[0]), ExprValue::Range(_)));
}

#[test]
fn argument_list_errors() {
    let (ctx, module, _) = parse("mod a; fn f() { g(1 } };");
    let b = body(&ctx, decls(&ctx, module)[1]);
    assert!(matches!(
        ctx.ast_store.get_expr_value(b[0]),
        ExprValue::Invalid("expected ',' or ')' in argument list")
    ));
    let (ctx, module, _) = parse("mod a; fn f() { g(");
    let b = body(&ctx, decls(&ctx, module)[1]);
    assert!(matches!(ctx.ast_store.get_expr_value(b[0]), ExprValue::Invalid("unclosed argument list")));
}

#[test]
fn parses_statements() {
    let (ctx, module, _) = parse("mod a; fn f() { if true { 1 } };");
    let b = body(&ctx, decls(&ctx, module)[1]);
    match ctx.ast_store.get_expr_value(b[0]) {
        ExprValue::If(i) => {
            assert!(matches!(ctx.ast_store.get_expr_value(i.check), ExprValue::BoolLiteral(true)));
            assert_eq!(i.success.exprs.len(), 1);
        }
        _ => panic!("expected an if"),
    }
    let (ctx, module, _) = parse("mod a; fn f() { loop { break } };");
    let b = body(&ctx, decls(&ctx, module)[1]);
    match ctx.ast_store.get_expr_value(b[0]) {
        ExprValue::Loop(l) => assert!(matches!(ctx.ast_store.get_expr_value(l.body.exprs[0]), ExprValue::Break)),
        _ => panic!("expected a loop"),
    }
    let (ctx, module, _) = parse("mod a; fn f() { return false };");
    let b = body(&ctx, decls(&ctx, module)[1]);
    assert!(matches!(ctx.ast_store.get_expr_value(b[0]), ExprValue::Return(r) if r.value.is_some()));
    let (ctx, module, _) = parse("mod a; fn f() { { 1 } };");
    let b = body(&ctx, decls(&ctx, module)[1]);
    assert!(matches!(ctx.ast_store.get_expr_value(b[0]), ExprValue::Block(_)));
}

#[test]
fn statement_body_errors() {
    let (ctx, module, _) = parse("mod a; fn f() { if true 1 } };");
    let b = body(&ctx, decls(&ctx, module)[1]);
    assert!(matches!(ctx.ast_store.get_expr_value(b[0]), ExprValue::Invalid("if expression is missing a body")));
    let (ctx, module, _) = parse("mod a; fn f() { loop 1 } };");
    let b = body(&ctx, decls(&ctx, module)[1]);
    assert!(matches!(ctx.ast_store.get_expr_value(b[0]), ExprValue::Invalid("loop expression is missing a body")));
    let (ctx, module, _) = parse("mod a; fn f() { 1");
    let b = body(&ctx, decls(&ctx, module)[1]);
    assert_eq!(b.len(), 2);
    assert!(matches!(ctx.ast_store.get_expr_value(b[1]), ExprValue::Invalid("unclosed block expression")));
}

#[test]
fn an_unclosed_block_ends_with_an_invalid_expression_at_the_end_of_input() {
    let source = "mod a; fn f() { 1 ";
    let (ctx, module, _) = parse(source);
    let b = body(&ctx, decls(&ctx, module)[1]);
    assert_eq!(ctx.ast_store.get_expr_start(b[1]), Pos::from(source.len()));
}

#[test]
fn a_qualified_name_starts_at_its_module_alias() {
    let (ctx, module, _) = parse("mod a; fn f() { b::c };");
    let b = body(&ctx, decls(&ctx, module)[1]);
    assert_eq!(ctx.ast_store.get_expr_start(b[0]), Pos::from(16));
}

#[test]
fn parses_names_and_literals() {
    let (ctx, module, _) = parse("mod a; fn f() { b::c };");
    let b = body(&ctx, decls(&ctx, module)[1]);
    match ctx.ast_store.get_expr_value(b[0]) {
        ExprValue::Identifier(i) => {
            assert_eq!(text(&ctx, i.module.unwrap()), "b");
            assert_eq!(text(&ctx, i.name), "c");
        }
        _ => panic!("expected a name"),
    }
    let (ctx, module, _) = parse("mod a; fn f() { b::1 } };");
    let b = body(&ctx, decls(&ctx, module)[1]);
    assert!(matches!(ctx.ast_store.get_expr_value(b[0]), ExprValue::Invalid("")));
    let (ctx, module, _) = parse("mod a; fn f() { 1_000 };");
    let b = body(&ctx, decls(&ctx, module)[1]);
    assert!(matches!(ctx.ast_store.get_expr_value(b[0]), ExprValue::IntLiteral(1000)));
    let (ctx, module, _) = parse("mod a; fn f() { 99999999999999999999 };");
    let b = body(&ctx, decls(&ctx, module)[1]);
    assert!(matches!(ctx.ast_store.get_expr_value(b[0]), ExprValue::Invalid("invalid integer literal")));
    let (ctx, module, _) = parse("mod a; fn f() { 1_2.5 };");
    let b = body(&ctx, decls(&ctx, module)[1]);
    match ctx.ast_store.get_expr_value(b[0]) {
        ExprValue::FloatLiteral(s) => assert_eq!(text(&ctx, *s), "1_2.5"),
        _ => panic!("expected a float"),
    }
    let (ctx, module, _) = parse("mod a; fn f() { false };");
    let b = body(&ctx, decls(&ctx, module)[1]);
    assert!(matches!(ctx.ast_store.get_expr_value(b[0]), ExprValue::BoolLiteral(false)));
}

#[test]
fn unsupported_forms_stop_parsing() {
    let (_, _, r) = parse("mod a; fn f() { ; };");
    assert_eq!(r, Err(ParseHalt::UnexpectedToken));
    let (_, _, r) = parse("mod a; fn f() { 1; 2 };");
    assert_eq!(r, Err(ParseHalt::UnexpectedToken));
    let (_, _, r) = parse("mod a; type t b::1;");
    assert_eq!(r, Err(ParseHalt::InvalidModuleType));
}

#[test]
fn set_deps_maps_used_modules() {
    let mut ctx = Context::new();
    let p1 = ctx.get_mstr("main");
    let m1 = ctx.create_module(p1);
    let p2 = ctx.get_mstr("other.pup");
    let m2 = ctx.create_module(p2);
    Parser::new(&ctx, m1).parse(&mut ctx, "mod main; use ( b; );").unwrap();
    Parser::new(&ctx, m2).parse(&mut ctx, "mod b;").unwrap();
    let map = ctx.module_map();
    Parser::new(&ctx, m1).set_deps(&mut ctx, &map);
    Parser::new(&ctx, m2).set_deps(&mut ctx, &map);
    let b = ctx.get_mstr("b");
    assert_eq!(ctx.get_module_value(m1).get_dep(b), m2);
    assert_eq!(ctx.get_module_value(m1).deps.len(), 1);
    assert_eq!(ctx.get_module_value(m2).deps.len(), 0);
}

#[test]
fn the_infix_table() {
    let table = expr_infix_parselets();
    assert_eq!(table.len(), 8);
    let ranks: Vec<(Ty, u8)> = table.iter().map(|(t, p)| (*t, p.precedence().rank())).collect();
    assert_eq!(
        ranks,
        vec![
            (Ty::OpenParen, 6),
            (Ty::RangeOperator, 2),
            (Ty::Plus, 4),
            (Ty::Minus, 4),
            (Ty::Multiply, 5),
            (Ty::Divide, 5),
            (Ty::EqualEqual, 1),
            (Ty::LessThan, 3),
        ]
    );
    assert!(matches!(table[0].1, InfixParselet::Call(_)));
    assert_eq!(Precedence::Base.rank(), 0);
}

#[test]
fn reads_integers_as_str_parse_does() {
    let chars = |s: &str| s.chars().collect::<Vec<char>>();
    assert_eq!(parse_i64(&chars("42")), Some(42));
    assert_eq!(parse_i64(&chars("+5")), Some(5));
    assert_eq!(parse_i64(&chars("-17")), Some(-17));
    assert_eq!(parse_i64(&chars("9223372036854775807")), Some(i64::MAX));
    assert_eq!(parse_i64(&chars("-9223372036854775808")), Some(i64::MIN));
    assert_eq!(parse_i64(&chars("9223372036854775808")), None);
    assert_eq!(parse_i64(&chars("")), None);
    assert_eq!(parse_i64(&chars("-")), None);
    assert_eq!(parse_i64(&chars("1a")), None);
    assert_eq!(parse_i64(&chars("1_0")), None);
    for s in ["0", "7", "-0", "123456789"] {
        assert_eq!(parse_i64(&chars(s)), s.parse::<i64>().ok());
    }
}

#[test]
fn reads_floats_as_str_parse_does() {
    let chars = |s: &str| s.chars().collect::<Vec<char>>();
    for s in [
        "1.", ".5", "1.5", "1e5", "1.5E-3", "+2e+2", "inf", "NaN", "-Infinity", ".", "e5", "1e", "1_0", "",
        "--1", "1.2.3", "infinit", "0",
    ] {
        assert_eq!(is_f64_text(&chars(s)), s.parse::<f64>().is_ok(), "{}", s);
    }
}

#[test]
fn strips_underscores() {
    assert_eq!(strip_underscores_exec("1_000_"), vec!['1', '0', '0', '0']);
    assert_eq!(strip_underscores_exec("__"), Vec::<char>::new());
}

#[test]
fn function_types_take_module_aliases() {
    let (ctx, module, r) = parse("mod a; fn f(x b::c, y i64,) d::e { 1 };");
    assert!(r.is_ok());
    match ctx.ast_store.get_decl_value(decls(&ctx, module)[1]) {
        DeclValue::Func(f) => {
            let params: Vec<String> = f.params.iter().map(|p| text(&ctx, *p)).collect();
            assert_eq!(params, vec!["x", "y"]);
            match ctx.unchecked_ty_store.get_ty_value(f.ty) {
                UncheckedTyValue::Func(t) => {
                    assert_eq!(t.params.len(), 2);
                    match ctx.unchecked_ty_store.get_ty_value(t.params[0]) {
                        UncheckedTyValue::Named(n) => {
                            assert_eq!(text(&ctx, n.module.unwrap()), "b");
                            assert_eq!(text(&ctx, n.name), "c");
                        }
                        _ => panic!("expected a named type"),
                    }
                    assert!(matches!(ctx.unchecked_ty_store.get_ty_value(t.params[1]), UncheckedTyValue::I64));
                    match ctx.unchecked_ty_store.get_ty_value(t.return_ty) {
                        UncheckedTyValue::Named(n) => {
                            assert_eq!(text(&ctx, n.module.unwrap()), "d");
                            assert_eq!(text(&ctx, n.name), "e");
                        }
                        _ => panic!("expected a named type"),
                    }
                }
                _ => panic!("expected a function type"),
            }
        }
        _ => panic!("expected a function"),
    }
}

#[test]
fn a_type_alias_without_a_name_after_the_module_stops_parsing() {
    let (_, _, r) = parse("mod a; fn f(x b::1) {};");
    assert_eq!(r, Err(ParseHalt::InvalidModuleType));
    let (_, _, r) = parse("mod a; fn f() b::1 {};");
    assert_eq!(r, Err(ParseHalt::InvalidModuleType));
}

#[test]
fn a_type_declaration_takes_any_token_as_its_type() {
    let (ctx, module, r) = parse("mod a; type t ;");
    assert!(r.is_ok());
    let ds = decls(&ctx, module);
    match ctx.ast_store.get_decl_value(ds[1]) {
        DeclValue::Ty(t) => match ctx.unchecked_ty_store.get_ty_value(t.ty) {
            UncheckedTyValue::Named(n) => {
                assert!(n.module.is_none());
                assert_eq!(text(&ctx, n.name), ";");
            }
            _ => panic!("expected a named type"),
        },
        _ => panic!("expected a type declaration"),
    }
    assert_eq!(invalid_msg(&ctx, ds[2]), "missing semicolon/new line after declaration");
}

#[test]
fn use_names_keep_their_order() {
    let (ctx, module, r) = parse("mod a; use ( x; y; z; );");
    assert!(r.is_ok());
    match ctx.ast_store.get_decl_value(decls(&ctx, module)[1]) {
        DeclValue::Use(u) => {
            let names: Vec<String> = u.deps.iter().map(|d| text(&ctx, *d)).collect();
            assert_eq!(names, vec!["x", "y", "z"]);
        }
        _ => panic!("expected a use declaration"),
    }
}

#[test]
fn a_small_parse_keeps_ids_in_32_bits() {
    let (ctx, _, r) = parse("mod a; fn f() { 1 + 2 };");
    assert!(r.is_ok());
    assert!(pup::ast::parser::expr_text::ids_fit_in(&ctx));
}
