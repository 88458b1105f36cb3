use pup::ast::parser::ParseHalt;
use pup::codegen::generator::{GenHalt, Generator};
use pup::compiler::builder::{has_main_module, source_fits, BuildHalt, Builder, File};
use pup::compiler::context::Context;
use pup::hir::noder::NodeHalt;
use pup::mir::grapher::GraphHalt;

fn file(path: &str, source: &str) -> File {
    File { path: path.to_string(), source: source.to_string() }
}

fn compile(files: Vec<File>) -> Result<(), BuildHalt> {
    let mut ctx = Context::new();
    let mut builder = ctx.create_builder();
    builder.compile(&mut ctx, &files)
}

#[test]
fn a_project_without_main_has_no_root() {
    assert!(matches!(compile(vec![]), Err(BuildHalt::NoRootModule)));
    assert!(matches!(compile(vec![file("lib", "mod lib;")]), Err(BuildHalt::NoRootModule)));
}

#[test]
fn a_parse_halt_stops_the_build() {
    let r = compile(vec![file("main", "mod main; fn f() { ; };")]);
    assert!(matches!(r, Err(BuildHalt::Parse(ParseHalt::UnexpectedToken))));
}

#[test]
fn an_unknown_import_stops_the_build() {
    let r = compile(vec![file("main", "mod main; use ( nowhere; );")]);
    assert!(matches!(r, Err(BuildHalt::UnknownModule)));
}

#[test]
fn import_cycles_stop_the_build() {
    let r = compile(vec![file("main", "mod main; use ( b; );"), file("b", "mod b; use ( main; );")]);
    match r {
        Err(BuildHalt::ImportCycles(cycles)) => {
            assert_eq!(cycles.len(), 1);
            assert_eq!(
                format!("{:?}", cycles[0]),
                "ImportList { path: [Module(0), Module(1), Module(0)] }"
            );
        }
        other => panic!("expected import cycles, got {:?}", other),
    }
}

#[test]
fn a_naming_halt_stops_the_build() {
    let r = compile(vec![file("main", "mod main; fn f() { f };")]);
    assert!(matches!(r, Err(BuildHalt::Node(NodeHalt::IdentifierType))));
}

#[test]
fn an_invalid_declaration_stops_graphing() {
    let r = compile(vec![file("main", "mod main; fn;")]);
    assert!(matches!(r, Err(BuildHalt::Graph(GraphHalt::InvalidDecl))));
}

#[test]
fn a_valid_project_reaches_code_generation() {
    let r = compile(vec![
        file("main", "mod main; use ( lib; ); fn f() { 1 + 2 };"),
        file("lib", "mod lib; fn g() { true };"),
    ]);
    assert!(matches!(r, Err(BuildHalt::Codegen(GenHalt::NotImplemented))));
}

#[test]
fn modules_below_the_root_are_checked_first() {
    let r = compile(vec![
        file("main", "mod main; use ( lib; ); fn f() { 1 };"),
        file("lib", "mod lib; fn g() { x };"),
    ]);
    assert!(matches!(r, Err(BuildHalt::Node(NodeHalt::UnboundIdentifier))));
    let r = compile(vec![
        file("main", "mod main; use ( lib; ); fn f() { x };"),
        file("lib", "mod lib; fn g() { 1 };"),
    ]);
    assert!(matches!(r, Err(BuildHalt::Codegen(GenHalt::NotImplemented))));
}

#[test]
fn the_root_is_found_by_path() {
    let mut ctx = Context::new();
    let files = vec![file("a", "mod main;"), file("main", "mod b;")];
    let modules = Builder::new().get_all_modules(&mut ctx, &files).unwrap();
    assert!(has_main_module(&ctx, &modules));
    let mut ctx = Context::new();
    let files = vec![file("a", "mod main;")];
    let modules = Builder::new().get_all_modules(&mut ctx, &files).unwrap();
    assert!(!has_main_module(&ctx, &modules));
}

#[test]
fn ordinary_sources_fit() {
    assert!(source_fits(""));
    assert!(source_fits("mod main; // é"));
}

#[test]
fn code_generation_is_not_written_yet() {
    let mut ctx = Context::new();
    let path = ctx.get_mstr("main");
    let m = ctx.create_module(path);
    let mut generator = ctx.create_generator(m);
    assert_eq!(generator.codegen(), Err(GenHalt::NotImplemented));
    let mut generator = Generator::new(&ctx, m);
    assert_eq!(generator.codegen(), Err(GenHalt::NotImplemented));
}

#[test]
fn the_first_file_that_halts_gives_the_error() {
    let r = compile(vec![
        file("main", "mod main;"),
        file("a", "mod a; type t b::1;"),
        file("b", "mod b; fn f() { ; };"),
    ]);
    assert!(matches!(r, Err(BuildHalt::Parse(ParseHalt::InvalidModuleType))));
    let r = compile(vec![
        file("main", "mod main;"),
        file("b", "mod b; fn f() { ; };"),
        file("a", "mod a; type t b::1;"),
    ]);
    assert!(matches!(r, Err(BuildHalt::Parse(ParseHalt::UnexpectedToken))));
}
