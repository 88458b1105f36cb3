use pup::ast::parser::Parser;
use pup::compiler::builder::{Builder, File};
use pup::compiler::context::Context;
use pup::compiler::module::Module;
use pup::hir::hir::{DeclValue, ExprValue};
use pup::hir::noder::{NodeHalt, Noder};
use pup::mir::grapher::{GraphHalt, Grapher};
use pup::types::checked_ty::{CheckedTy, CheckedTyValue};

fn node(source: &str) -> (Context, Module, Result<(), NodeHalt>) {
    let mut ctx = Context::new();
    let path = ctx.get_mstr("main");
    let module = ctx.create_module(path);
    let parser = Parser::new(&ctx, module);
    parser.parse(&mut ctx, source).unwrap();
    let noder = Noder::new(&ctx, module);
    let r = noder.node(&mut ctx);
    (ctx, module, r)
}

fn ty(ctx: &Context, t: CheckedTy) -> &CheckedTyValue {
    ctx.checked_ty_store.get_ty_value(t)
}

/// The types of the expressions in the body of the `n`th named declaration.
fn body_tys(ctx: &Context, module: Module, n: usize) -> Vec<&CheckedTyValue> {
    let d = ctx.get_module_value(module).hir[n];
    match ctx.hir_store.get_decl_value(d) {
        DeclValue::Func(f) => {
            f.body.exprs.iter().map(|e| ty(ctx, ctx.hir_store.get_expr_ty(*e))).collect()
        }
        _ => panic!("not a function"),
    }
}

#[test]
fn literals_get_their_types() {
    let (ctx, m, r) = node("mod main; fn f() { 1 true 2.5 };");
    assert_eq!(r, Ok(()));
    let tys = body_tys(&ctx, m, 0);
    assert_eq!(tys.len(), 3);
    assert!(matches!(tys[0], CheckedTyValue::I64));
    assert!(matches!(tys[1], CheckedTyValue::Bool));
    assert!(matches!(tys[2], CheckedTyValue::F64));
}

#[test]
fn module_and_use_declarations_are_dropped() {
    let (ctx, m, r) = node("mod main; fn f() { 1 };");
    assert_eq!(r, Ok(()));
    assert_eq!(ctx.get_module_value(m).hir.len(), 1);
    assert_eq!(ctx.get_module_value(m).ast.len(), 2);
}

#[test]
fn a_binary_expression_has_the_type_of_equal_operands() {
    let (ctx, m, r) = node("mod main; fn f() { 1 + 2 true == false };");
    assert_eq!(r, Ok(()));
    let tys = body_tys(&ctx, m, 0);
    assert!(matches!(tys[0], CheckedTyValue::I64));
    assert!(matches!(tys[1], CheckedTyValue::Bool));
}

#[test]
fn mismatched_operands_make_every_part_panic() {
    let (ctx, m, r) = node("mod main; fn f() { 1 + true };");
    assert_eq!(r, Ok(()));
    let d = ctx.get_module_value(m).hir[0];
    let e = match ctx.hir_store.get_decl_value(d) {
        DeclValue::Func(f) => f.body.exprs[0],
        _ => panic!("not a function"),
    };
    assert!(matches!(ty(&ctx, ctx.hir_store.get_expr_ty(e)), CheckedTyValue::Panic));
    match ctx.hir_store.get_expr_value(e) {
        ExprValue::Binary(b) => {
            assert!(matches!(ty(&ctx, ctx.hir_store.get_expr_ty(b.left)), CheckedTyValue::Panic));
            assert!(matches!(ty(&ctx, ctx.hir_store.get_expr_ty(b.right)), CheckedTyValue::Panic));
        }
        _ => panic!("expected a binary expression"),
    }
}

#[test]
fn ranges_need_equal_ends() {
    let (ctx, m, r) = node("mod main; fn f() { 1 .. 2 };");
    assert_eq!(r, Ok(()));
    assert!(matches!(body_tys(&ctx, m, 0)[0], CheckedTyValue::Range));
    let (ctx, m, r) = node("mod main; fn f() { 1 .. true };");
    assert_eq!(r, Ok(()));
    assert!(matches!(body_tys(&ctx, m, 0)[0], CheckedTyValue::Panic));
}

#[test]
fn blocks_ifs_loops_and_breaks_are_unit() {
    let (ctx, m, r) = node("mod main; fn f() { { 1 } if true { 1 } loop { break } break };");
    assert_eq!(r, Ok(()));
    let tys = body_tys(&ctx, m, 0);
    assert_eq!(tys.len(), 4);
    for t in tys {
        assert!(matches!(t, CheckedTyValue::Unit));
    }
}

#[test]
fn a_call_has_the_return_type_of_its_function() {
    let (ctx, m, r) = node("mod main; fn g(x i64,) bool { true }; fn f() { g(1) };");
    assert_eq!(r, Ok(()));
    assert!(matches!(body_tys(&ctx, m, 1)[0], CheckedTyValue::Bool));
}

#[test]
fn a_function_gets_a_checked_function_type() {
    let (ctx, m, r) = node("mod main; fn g(x i64, y bool,) f64 { 1.0 };");
    assert_eq!(r, Ok(()));
    let d = ctx.get_module_value(m).hir[0];
    match ctx.hir_store.get_decl_value(d) {
        DeclValue::Func(f) => {
            assert_eq!(ctx.str_store.get_str(f.name), "g");
            assert_eq!(f.params.len(), 2);
            match ty(&ctx, f.ty) {
                CheckedTyValue::Func(ft) => {
                    assert_eq!(ft.params.len(), 2);
                    assert!(matches!(ty(&ctx, ft.params[0]), CheckedTyValue::I64));
                    assert!(matches!(ty(&ctx, ft.params[1]), CheckedTyValue::Bool));
                    assert!(matches!(ty(&ctx, ft.return_ty), CheckedTyValue::F64));
                }
                _ => panic!("expected a function type"),
            }
        }
        _ => panic!("not a function"),
    }
}

#[test]
fn a_type_declaration_names_a_type_of_this_module() {
    let (ctx, m, r) = node("mod main; type t thing;");
    assert_eq!(r, Ok(()));
    let d = ctx.get_module_value(m).hir[0];
    match ctx.hir_store.get_decl_value(d) {
        DeclValue::Type(t) => match ty(&ctx, t.ty) {
            CheckedTyValue::Named(n) => {
                assert_eq!(n.module, m);
                assert_eq!(ctx.str_store.get_str(n.name), "thing");
            }
            _ => panic!("expected a named type"),
        },
        _ => panic!("not a type declaration"),
    }
}

#[test]
fn a_qualified_type_names_the_imported_module() {
    let mut ctx = Context::new();
    let files = vec![
        File { path: "main".to_string(), source: "mod main; use ( lib; ); type t lib::thing;".to_string() },
        File { path: "lib".to_string(), source: "mod lib;".to_string() },
    ];
    let modules = Builder::new().get_all_modules(&mut ctx, &files).unwrap();
    let r = Noder::new(&ctx, modules[0]).node(&mut ctx);
    assert_eq!(r, Ok(()));
    let d = ctx.get_module_value(modules[0]).hir[0];
    match ctx.hir_store.get_decl_value(d) {
        DeclValue::Type(t) => match ty(&ctx, t.ty) {
            CheckedTyValue::Named(n) => assert_eq!(n.module, modules[1]),
            _ => panic!("expected a named type"),
        },
        _ => panic!("not a type declaration"),
    }
}

#[test]
fn a_type_from_a_module_not_used_halts() {
    let (_, _, r) = node("mod main; type t other::thing;");
    assert_eq!(r, Err(NodeHalt::UnknownModule));
}

#[test]
fn a_qualified_name_in_a_body_halts() {
    let (_, _, r) = node("mod main; fn f() { a::b };");
    assert_eq!(r, Err(NodeHalt::QualifiedName));
}

#[test]
fn the_type_of_a_name_is_not_worked_out() {
    let (_, _, r) = node("mod main; fn f() { f };");
    assert_eq!(r, Err(NodeHalt::IdentifierType));
}

#[test]
fn an_unknown_name_halts() {
    let (_, _, r) = node("mod main; fn f() { x };");
    assert_eq!(r, Err(NodeHalt::UnboundIdentifier));
}

#[test]
fn a_function_declared_later_is_not_in_scope() {
    let (_, _, r) = node("mod main; fn f() { g() }; fn g() { 1 };");
    assert_eq!(r, Err(NodeHalt::UnboundIdentifier));
    let (_, _, r) = node("mod main; fn g() { 1 }; fn f() { g() };");
    assert_eq!(r, Ok(()));
}

#[test]
fn calling_a_type_halts() {
    let (_, _, r) = node("mod main; type t i64; fn f() { t() };");
    assert_eq!(r, Err(NodeHalt::CallOfNonFunction));
}

#[test]
fn a_call_with_the_wrong_number_of_arguments_halts() {
    let (_, _, r) = node("mod main; fn g(x i64,) i64 { 1 }; fn f() { g() };");
    assert_eq!(r, Err(NodeHalt::ArgumentCount));
}

#[test]
fn a_call_with_a_wrong_argument_type_halts() {
    let (_, _, r) = node("mod main; fn g(x i64,) i64 { 1 }; fn f() { g(true) };");
    assert_eq!(r, Err(NodeHalt::ArgumentType));
}

#[test]
fn a_return_gets_no_type() {
    let (_, _, r) = node("mod main; fn f() { return 1 };");
    assert_eq!(r, Err(NodeHalt::UntypedExpression));
}

#[test]
fn invalid_declarations_are_kept_and_stop_graphing() {
    let (mut ctx, m, r) = node("mod main; fn;");
    assert_eq!(r, Ok(()));
    let hir = ctx.get_module_value(m).hir.clone();
    assert!(!hir.is_empty());
    match ctx.hir_store.get_decl_value(hir[0]) {
        DeclValue::Invalid(msg) => assert_eq!(*msg, "function decl is missing a name"),
        _ => panic!("expected an invalid declaration"),
    }
    let r = Grapher::new(&ctx, m).graph(&mut ctx);
    assert_eq!(r, Err(GraphHalt::InvalidDecl));
}

#[test]
fn valid_declarations_graph() {
    let (mut ctx, m, r) = node("mod main; type t i64; fn f() { 1 };");
    assert_eq!(r, Ok(()));
    let r = Grapher::new(&ctx, m).graph(&mut ctx);
    assert_eq!(r, Ok(()));
}

#[test]
fn the_named_declarations_follow_the_tree_in_order() {
    let (ctx, m, r) = node("mod main; type t i64; fn f() { 1 };");
    assert_eq!(r, Ok(()));
    let hir = ctx.get_module_value(m).hir.clone();
    assert_eq!(hir.len(), 2);
    match ctx.hir_store.get_decl_value(hir[0]) {
        DeclValue::Type(t) => assert_eq!(ctx.str_store.get_str(t.name), "t"),
        _ => panic!("expected a type declaration first"),
    }
    match ctx.hir_store.get_decl_value(hir[1]) {
        DeclValue::Func(f) => {
            assert_eq!(ctx.str_store.get_str(f.name), "f");
            assert_eq!(f.body.exprs.len(), 1);
            match ctx.hir_store.get_expr_value(f.body.exprs[0]) {
                ExprValue::IntLiteral(n) => assert_eq!(*n, 1),
                _ => panic!("expected the literal 1"),
            }
        }
        _ => panic!("expected a function second"),
    }
}

#[test]
fn a_binary_expression_keeps_its_operands_in_order() {
    let (ctx, m, r) = node("mod main; fn f() { 1 - 2 };");
    assert_eq!(r, Ok(()));
    let d = ctx.get_module_value(m).hir[0];
    let e = match ctx.hir_store.get_decl_value(d) {
        DeclValue::Func(f) => f.body.exprs[0],
        _ => panic!("not a function"),
    };
    match ctx.hir_store.get_expr_value(e) {
        ExprValue::Binary(b) => {
            assert!(matches!(ctx.hir_store.get_expr_value(b.left), ExprValue::IntLiteral(1)));
            assert!(matches!(ctx.hir_store.get_expr_value(b.right), ExprValue::IntLiteral(2)));
        }
        _ => panic!("expected a binary expression"),
    }
}

#[test]
fn a_nested_mismatch_makes_the_outer_operation_panic() {
    let (ctx, m, r) = node("mod main; fn f() { 1 + 2 + true };");
    assert_eq!(r, Ok(()));
    assert!(matches!(body_tys(&ctx, m, 0)[0], CheckedTyValue::Panic));
}

#[test]
fn a_well_typed_call_succeeds_with_several_arguments() {
    let (ctx, m, r) = node("mod main; fn g(x i64, y bool,) f64 { 1.0 }; fn f() { g(1, true) };");
    assert_eq!(r, Ok(()));
    assert!(matches!(body_tys(&ctx, m, 1)[0], CheckedTyValue::F64));
    let (_, _, r) = node("mod main; fn g(x i64, y bool,) f64 { 1.0 }; fn f() { g(1, 2) };");
    assert_eq!(r, Err(NodeHalt::ArgumentType));
}

#[test]
fn a_function_body_binds_known_names_and_records_unknown_ones() {
    let mut ctx = Context::new();
    let path = ctx.get_mstr("main");
    let module = ctx.create_module(path);
    Parser::new(&ctx, module).parse(&mut ctx, "mod main; fn f() { f { x } };").unwrap();
    let decls = ctx.get_module_value(module).ast.clone();
    let mut table = pup::hir::noder::sym_table::SymTable::new();
    for d in &decls {
        assert!(table.add_decl(&ctx.ast_store, *d).is_ok());
    }
    let body = match ctx.ast_store.get_decl_value(decls[1]) {
        pup::ast::ast::DeclValue::Func(f) => f.body.exprs.clone(),
        _ => panic!("not a function"),
    };
    assert!(!table.is_unknown_identifier(body[0]));
    let inner = match ctx.ast_store.get_expr_value(body[1]) {
        pup::ast::ast::ExprValue::Block(b) => b.exprs[0],
        _ => panic!("not a block"),
    };
    assert!(table.is_unknown_identifier(inner));
}
