use pup::compiler::builder::{BuildHalt, Builder, File};
use pup::compiler::context::Context;
use pup::compiler::module::{Module, ModuleDag, ModuleValue};
use pup::compiler::str_store::MStr;
use pup::index_vec::{IdMap, IndexVec, Indexer};

fn file(path: &str, source: &str) -> File {
    File { path: path.to_string(), source: source.to_string() }
}

fn load(files: Vec<File>) -> (Context, Vec<Module>) {
    let mut ctx = Context::new();
    let mut builder = Builder::new();
    let modules = builder.get_all_modules(&mut ctx, &files).unwrap();
    (ctx, modules)
}

fn order(ctx: &Context, dag: &ModuleDag) -> Vec<Module> {
    let mut iter = dag.iter(ctx);
    let mut out = vec![];
    while let Some(m) = iter.next() {
        out.push(m);
    }
    out
}

#[test]
fn the_root_is_the_module_whose_path_is_main() {
    let (mut ctx, modules) = load(vec![file("lib", "mod lib;"), file("main", "mod main; use ( lib; );")]);
    let dag = ModuleDag::new(&mut ctx, &modules);
    let seen = order(&ctx, &dag);
    assert_eq!(seen, vec![modules[0], modules[1]]);
    assert_eq!(*seen.last().unwrap(), modules[1]);
}

#[test]
fn a_module_without_imports_has_no_cycles() {
    let (mut ctx, modules) = load(vec![file("main", "mod main;")]);
    let dag = ModuleDag::new(&mut ctx, &modules);
    assert!(dag.validate(&ctx).is_empty());
    assert_eq!(order(&ctx, &dag), vec![modules[0]]);
}

#[test]
fn two_modules_importing_each_other_form_a_cycle() {
    let (mut ctx, modules) =
        load(vec![file("main", "mod main; use ( b; );"), file("b", "mod b; use ( main; );")]);
    let dag = ModuleDag::new(&mut ctx, &modules);
    let cycles = dag.validate(&ctx);
    assert_eq!(cycles.len(), 1);
    assert_eq!(
        format!("{:?}", cycles[0]),
        "ImportList { path: [Module(0), Module(1), Module(0)] }"
    );
    let seen = order(&ctx, &dag);
    assert_eq!(seen, vec![modules[1], modules[0]]);
}

#[test]
fn a_module_importing_itself_is_a_cycle() {
    let (mut ctx, modules) = load(vec![file("main", "mod main; use ( main; );")]);
    let dag = ModuleDag::new(&mut ctx, &modules);
    let cycles = dag.validate(&ctx);
    assert_eq!(cycles.len(), 1);
    assert_eq!(format!("{:?}", cycles[0]), "ImportList { path: [Module(0), Module(0)] }");
    assert_eq!(order(&ctx, &dag), vec![modules[0]]);
}

#[test]
fn a_cycle_below_the_root_is_found() {
    let (mut ctx, modules) = load(vec![
        file("main", "mod main; use ( a; );"),
        file("a", "mod a; use ( b; );"),
        file("b", "mod b; use ( a; );"),
    ]);
    let dag = ModuleDag::new(&mut ctx, &modules);
    let cycles = dag.validate(&ctx);
    assert_eq!(cycles.len(), 1);
    assert_eq!(
        format!("{:?}", cycles[0]),
        "ImportList { path: [Module(0), Module(1), Module(2), Module(1)] }"
    );
}

#[test]
fn a_shared_import_is_visited_once() {
    let (mut ctx, modules) = load(vec![
        file("main", "mod main; use ( a; b; );"),
        file("a", "mod a; use ( c; );"),
        file("b", "mod b; use ( c; );"),
        file("c", "mod c;"),
        file("unused", "mod unused;"),
    ]);
    let dag = ModuleDag::new(&mut ctx, &modules);
    assert!(dag.validate(&ctx).is_empty());
    let seen = order(&ctx, &dag);
    assert_eq!(seen.len(), 4);
    assert_eq!(*seen.last().unwrap(), modules[0]);
    for m in &modules[..4] {
        assert_eq!(seen.iter().filter(|s| *s == m).count(), 1);
    }
    assert!(!seen.contains(&modules[4]));
    assert_eq!(seen, vec![modules[2], modules[3], modules[1], modules[0]]);
}

#[test]
fn the_first_module_with_path_main_is_the_root() {
    let (mut ctx, modules) = load(vec![
        file("x", "mod x;"),
        file("main", "mod first;"),
        file("main", "mod second;"),
    ]);
    let dag = ModuleDag::new(&mut ctx, &modules);
    assert_eq!(order(&ctx, &dag), vec![modules[1]]);
}

#[test]
fn dependencies_are_keyed_by_module_name() {
    let (ctx, modules) =
        load(vec![file("main", "mod main; use ( util; );"), file("src/util.pup", "mod util;")]);
    let main = ctx.get_module_value(modules[0]);
    assert_eq!(main.deps.len(), 1);
    let (alias, dep) = main.deps.entry(0);
    assert_eq!(ctx.str_store.get_str(alias), "util");
    assert_eq!(*dep, modules[1]);
    assert_eq!(main.get_dep(alias), modules[1]);
    let util = ctx.get_module_value(modules[1]);
    assert_eq!(ctx.str_store.get_str(util.get_import_path()), "src/util.pup");
    assert_eq!(ctx.str_store.get_str(util.name), "util");
}

#[test]
fn an_unknown_import_is_refused() {
    let mut ctx = Context::new();
    let mut builder = Builder::new();
    let files = vec![file("main", "mod main; use ( missing; );")];
    let r = builder.get_all_modules(&mut ctx, &files);
    assert!(matches!(r, Err(BuildHalt::UnknownModule)));
}

#[test]
fn the_module_map_keeps_the_last_module_of_a_name() {
    let (ctx, modules) = load(vec![
        file("one", "mod same;"),
        file("two", "mod same;"),
        file("three", "mod other;"),
    ]);
    let map = ctx.module_map();
    assert_eq!(map.len(), 2);
    let (name, m) = map.entry(0);
    assert_eq!(ctx.str_store.get_str(name), "same");
    assert_eq!(*m, modules[1]);
    let (name, m) = map.entry(1);
    assert_eq!(ctx.str_store.get_str(name), "other");
    assert_eq!(*m, modules[2]);
}

#[test]
fn a_module_without_a_name_declaration_is_named_after_its_path() {
    let mut ctx = Context::new();
    let path = ctx.get_mstr("lib/x");
    let m = ctx.create_module(path);
    assert_eq!(ctx.get_module_value(m).name, path);
    assert_eq!(ctx.get_module_value(m).get_import_path(), path);
    assert_eq!(ctx.get_module_value(m).get_object_path(), "tmp");
    assert!(ctx.get_module_value(m).ast.is_empty());
    assert!(ctx.get_module_value(m).hir.is_empty());
    let v = ModuleValue::new(path);
    assert_eq!(v.deps.len(), 0);
}

#[test]
fn every_module_has_an_object_file() {
    let (ctx, _) = load(vec![file("main", "mod main;"), file("b", "mod b;")]);
    assert_eq!(ctx.get_object_files(), vec!["tmp", "tmp"]);
}

#[test]
fn index_vec_hands_out_ids_in_order() {
    let mut v: IndexVec<Module, &str> = IndexVec::new();
    assert!(v.is_empty());
    let a = v.push("a");
    let b = v.push("b");
    assert_eq!(a.index(), 0);
    assert_eq!(b.index(), 1);
    assert_eq!(v.len(), 2);
    assert_eq!(v.get(b), Some(&"b"));
    assert_eq!(v.get(Module::from_index(7)), None);
    *v.get_mut(a).unwrap() = "z";
    let all: Vec<(Module, &&str)> = v.iter_enumerated();
    assert_eq!(all, vec![(a, &"z"), (b, &"b")]);
    assert_eq!(v.iter().count(), 2);
}

#[test]
fn id_map_insert_replaces_and_keeps_order() {
    let mut map: IdMap<MStr, u32> = IdMap::new();
    let k1 = MStr::from_index(4);
    let k2 = MStr::from_index(2);
    map.insert(k1, 10);
    map.insert(k2, 20);
    map.insert(k1, 30);
    assert_eq!(map.len(), 2);
    assert_eq!(map.get(&k1), Some(&30));
    assert_eq!(map.get(&k2), Some(&20));
    assert!(map.contains_key(&k2));
    assert!(!map.contains_key(&MStr::from_index(3)));
    assert_eq!(map.get(&MStr::from_index(3)), None);
    assert_eq!(map.entry(0), (k1, &30));
    assert_eq!(map.entry(1), (k2, &20));
}

#[test]
fn ids_wrap_to_32_bits() {
    let m = Module::from_index(5);
    assert_eq!(m.index(), 5);
    let big = Module::from_index((u32::MAX as usize) + 3);
    assert_eq!(big.index(), 2);
}
