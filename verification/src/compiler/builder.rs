use vstd::prelude::*;
use vstd::string::StrSliceExecFns;

use crate::ast::parser::decl::DeclText;
use crate::ast::parser::expr_text::{ids_fit, Reading};
use crate::ast::parser::{lemma_module_reads_kept, module_reads, read_decls, start_state, use_deps, ParseHalt, Parser};
use crate::codegen::generator::{GenHalt, Generator};
use crate::compiler::context::Context;
use crate::compiler::module::{
    is_import_cycle, is_walk, lemma_same_deps_same_cycles, lemma_walk_valid, reachable, ImportList, Module, ModuleDag,
};
use crate::compiler::str_store::MStr;
use crate::hir::noder::{NodeHalt, Noder};
use crate::index_vec::{IdMap, Indexer};
use crate::mir::grapher::{func_sigs, made_funcs, GraphHalt, Grapher};
use crate::mir::mir::FuncValue;
use crate::unicode::{char_len_utf8, utf8_len};

verus! {

/// A source file: its path and its text.
pub struct File {
    pub path: String,
    pub source: String,
}

/// Why building stopped.
#[derive(Debug)]
pub enum BuildHalt {
    /// A file uses a form the parser does not handle yet.
    Parse(ParseHalt),
    /// A file is longer than a byte offset can count.
    SourceTooLong,
    /// More modules than 32-bit ids can name.
    TooManyModules,
    /// More strings than 32-bit ids can name.
    TooManyStrings,
    /// A `use` names a module that no file declares.
    UnknownModule,
    /// No file is the root module, `main`.
    NoRootModule,
    /// Following imports from the root comes back to a module: these paths do.
    ImportCycles(Vec<ImportList>),
    /// A module uses a form that naming or checking does not handle yet.
    Node(NodeHalt),
    /// A module uses a form that graphing does not handle yet.
    Graph(GraphHalt),
    /// Code generation stopped.
    Codegen(GenHalt),
}

/// Compiles a project: parses its files into modules, orders the modules, and names, checks,
/// graphs and generates each.
pub struct Builder {}

/// Whether the UTF-8 length of `s` fits in a `usize`.
pub fn source_fits(s: &str) -> (r: bool)
    ensures
        r == (utf8_len(s@) <= usize::MAX),
{
    let n = s.unicode_len();
    let mut total: usize = 0;
    let mut i: usize = 0;
    while i < n
        invariant
            n == s@.len(),
            i <= n,
            total == utf8_len(s@.take(i as int)),
        decreases n - i,
    {
        let c = s.get_char(i);
        let w = char_len_utf8(c);
        assert(s@.take(i + 1).drop_last() =~= s@.take(i as int));
        assert(s@.take(i + 1).last() == c);
        match total.checked_add(w) {
            Some(t) => {
                total = t;
            },
            None => {
                proof {
                    lemma_utf8_len_mono(s@, i + 1, n as int);
                    assert(s@.take(n as int) =~= s@);
                }
                return false;
            },
        }
        i = i + 1;
    }
    assert(s@.take(n as int) =~= s@);
    true
}

proof fn lemma_utf8_len_mono(s: Seq<char>, i: int, j: int)
    requires
        0 <= i <= j <= s.len(),
    ensures
        utf8_len(s.take(i)) <= utf8_len(s.take(j)),
    decreases j - i,
{
    if i < j {
        lemma_utf8_len_mono(s, i, j - 1);
        assert(s.take(j).drop_last() =~= s.take(j - 1));
    }
}

/// Whether every module the `use` declaration of `module` names is in `module_map`.
pub fn deps_known(ctx: &Context, module: Module, module_map: &IdMap<MStr, Module>) -> (r: bool)
    requires
        ctx.wf(),
        ctx.has_module(module),
        module_map.wf(),
    ensures
        r == forall|d: MStr| #[trigger] use_deps(ctx, module).contains(d) ==> module_map.as_map().contains_key(d),
{
    let mv = ctx.get_module_value(module);
    proof {
        assert(ctx.module_wf(ctx.modules()[module.id() as int]));
    }
    if mv.ast.len() < 2 {
        return true;
    }
    let decl = mv.ast[1];
    match ctx.ast_store.get_decl_value(decl) {
        crate::ast::ast::DeclValue::Use(u) => {
            let mut i: usize = 0;
            while i < u.deps.len()
                invariant
                    module_map.wf(),
                    u.deps@ == use_deps(ctx, module),
                    i <= u.deps@.len(),
                    forall|k: int| 0 <= k < i ==> module_map.as_map().contains_key(#[trigger] u.deps@[k]),
                decreases u.deps@.len() - i,
            {
                if !module_map.contains_key(&u.deps[i]) {
                    assert(use_deps(ctx, module).contains(u.deps@[i as int]));
                    return false;
                }
                i = i + 1;
            }
            proof {
                assert forall|d: MStr| #[trigger] use_deps(ctx, module).contains(d) implies module_map.as_map().contains_key(d) by {
                    let k = choose|k: int| 0 <= k < u.deps@.len() && u.deps@[k] == d;
                    assert(module_map.as_map().contains_key(u.deps@[k]));
                }
            }
            true
        },
        _ => true,
    }
}

/// Whether one of `modules` was imported from the path `main`.
pub fn has_main_module(ctx: &Context, modules: &Vec<Module>) -> (r: bool)
    requires
        ctx.wf(),
        forall|i: int| 0 <= i < modules@.len() ==> ctx.has_module(#[trigger] modules@[i]),
    ensures
        r == exists|i: int| 0 <= i < modules@.len() && ctx.is_main(#[trigger] modules@[i]),
{
    let mut i: usize = 0;
    proof {
        reveal_strlit("main");
    }
    while i < modules.len()
        invariant
            ctx.wf(),
            forall|k: int| 0 <= k < modules@.len() ==> ctx.has_module(#[trigger] modules@[k]),
            i <= modules@.len(),
            forall|k: int| 0 <= k < i ==> !ctx.is_main(#[trigger] modules@[k]),
        decreases modules@.len() - i,
    {
        let import_path = ctx.get_module_value(modules[i]).get_import_path();
        proof {
            ctx.lemma_import_path_valid(modules@[i as int]);
        }
        if crate::unicode::str_equal(ctx.str_store.get_str(import_path), "main") {
            assert(ctx.is_main(modules@[i as int]));
            return true;
        }
        i = i + 1;
    }
    false
}

/// An error that reading the files into modules can give.
pub open spec fn is_load_error(e: BuildHalt) -> bool {
    ||| e is Parse
    ||| e is SourceTooLong
    ||| e is TooManyModules
    ||| e is TooManyStrings
    ||| e is UnknownModule
}

/// Some module of `ctx` uses, by its `use` declaration, a name that no module of `ctx` has.
pub open spec fn uses_unknown_module(ctx: &Context) -> bool {
    exists|m: Module, d: MStr|
        ctx.has_module(m) && #[trigger] use_deps(ctx, m).contains(d) && !exists|k: int|
            0 <= k < ctx.modules().len() && #[trigger] ctx.modules()[k].name == d
}

/// The facts behind each error of reading the files into modules, in the context left behind.
pub open spec fn load_error_facts(ctx: &Context, files: Seq<File>, e: BuildHalt) -> bool {
    match e {
        BuildHalt::TooManyModules => ctx.modules().len() >= u32::MAX,
        BuildHalt::TooManyStrings => ctx.str_store@.len() >= u32::MAX,
        BuildHalt::SourceTooLong => exists|i: int| 0 <= i < files.len() && utf8_len(#[trigger] files[i].source@) > usize::MAX,
        BuildHalt::UnknownModule => uses_unknown_module(ctx) && (ids_fit(ctx) ==> all_read(files)),
        BuildHalt::Parse(h) => ids_fit(ctx) ==> exists|k: int|
            0 <= k < files.len() && file_reads(#[trigger] files[k]) == Reading::<Seq<DeclText>>::Halt(h)
                && forall|j: int| 0 <= j < k ==> file_reads(#[trigger] files[j]) is Done,
        _ => true,
    }
}

/// What reading the declarations of the file's source to its end gives.
pub open spec fn file_reads(f: File) -> Reading<Seq<DeclText>> {
    read_decls(f.source@, start_state(f.source@), Seq::empty())
}

/// The declarations of every file read to the end of its source.
pub open spec fn all_read(files: Seq<File>) -> bool {
    forall|k: int| 0 <= k < files.len() ==> file_reads(#[trigger] files[k]) is Done
}

/// The module `m` holds, in `c`, the declarations read from the file's source.
pub open spec fn module_holds(c: &Context, m: Module, f: File) -> bool {
    file_reads(f) matches Reading::Done(ts, _) && module_reads(c, m, ts)
}

/// `ms` are the modules made from `files` in `c1`, one for each file in order, each new since
/// `c0` and imported from the file's path.
pub open spec fn made_from(c0: &Context, c1: &Context, files: Seq<File>, ms: Seq<Module>) -> bool {
    &&& ms.len() == files.len()
    &&& c1.modules().len() == c0.modules().len() + files.len()
    &&& forall|i: int| 0 <= i < ms.len() ==> (#[trigger] ms[i]).id() == c0.modules().len() + i
    &&& forall|i: int|
        0 <= i < ms.len() ==> c1.str_store@[c1.modules()[(#[trigger] ms[i]).id() as int].import_path_of().id() as int]
            == files[i].path@
}

/// One of the files has the path `main`.
pub open spec fn has_main_file(files: Seq<File>) -> bool {
    exists|i: int| 0 <= i < files.len() && (#[trigger] files[i]).path@ == "main"@
}

/// `root` is the module made from the first file whose path is `main`, when the modules made
/// from `files` were numbered from `first`.
pub open spec fn is_root(first: nat, files: Seq<File>, root: Module) -> bool {
    exists|i: int|
        0 <= i < files.len() && (#[trigger] files[i]).path@ == "main"@ && root.id() == first + i
            && forall|j: int| 0 <= j < i ==> files[j].path@ != "main"@
}

/// Reads one file into a new module named after its path, and parses its source.
#[verifier::rlimit(80)]
fn load_file(ctx: &mut Context, file: &File) -> (r: Result<Module, BuildHalt>)
    requires
        old(ctx).wf(),
    ensures
        final(ctx).wf(),
        old(ctx).str_store@.is_prefix_of(final(ctx).str_store@),
        old(ctx).ast_store.exprs().len() <= final(ctx).ast_store.exprs().len(),
        old(ctx).ast_store.decls().len() <= final(ctx).ast_store.decls().len(),
        old(ctx).ast_store.exprs().is_prefix_of(final(ctx).ast_store.exprs()),
        old(ctx).unchecked_ty_store@.is_prefix_of(final(ctx).unchecked_ty_store@),
        ids_fit(final(ctx)) ==> old(ctx).ast_store.decls().is_prefix_of(final(ctx).ast_store.decls()),
        r matches Ok(m) ==> {
            &&& m.id() == old(ctx).modules().len()
            &&& final(ctx).modules().len() == old(ctx).modules().len() + 1
            &&& forall|k: int| 0 <= k < old(ctx).modules().len() ==> #[trigger] final(ctx).modules()[k] == old(ctx).modules()[k]
            &&& final(ctx).str_store@[final(ctx).modules()[m.id() as int].import_path_of().id() as int] == file.path@
            &&& ids_fit(final(ctx)) ==> module_holds(final(ctx), m, *file)
        },
        r matches Err(e) ==> is_load_error(e) && !(e is UnknownModule) && match e {
            BuildHalt::TooManyModules => final(ctx).modules().len() >= u32::MAX,
            BuildHalt::TooManyStrings => final(ctx).str_store@.len() >= u32::MAX,
            BuildHalt::SourceTooLong => utf8_len(file.source@) > usize::MAX,
            _ => true,
        },
        ids_fit(final(ctx)) ==> match r {
            Ok(_) => file_reads(*file) is Done,
            Err(BuildHalt::Parse(h)) => file_reads(*file) == Reading::<Seq<DeclText>>::Halt(h),
            _ => true,
        },
{
    if ctx.module_store.len() >= 4294967295usize {
        return Err(BuildHalt::TooManyModules);
    }
    if ctx.str_store.len() >= 4294967295usize {
        return Err(BuildHalt::TooManyStrings);
    }
    let ghost ca = *ctx;
    let import_path = ctx.get_mstr(file.path.as_str());
    proof {
        crate::compiler::str_store::lemma_interned_lookup(ca.str_store@, file.path@);
        assert(ctx.str_store@[import_path.id() as int] == file.path@);
        crate::compiler::str_store::lemma_interned_prefix(ca.str_store@, file.path@);
    }
    let ghost cb = *ctx;
    let module = ctx.create_module(import_path);
    let ghost cc = *ctx;
    let parser = Parser::new(ctx, module);
    if !source_fits(file.source.as_str()) {
        return Err(BuildHalt::SourceTooLong);
    }
    let res = parser.parse(ctx, file.source.as_str());
    proof {
        assert forall|k: int| 0 <= k < ca.modules().len() implies #[trigger] ctx.modules()[k] == ca.modules()[k] by {
            assert(cb.modules()[k] == ca.modules()[k]);
            assert(cc.modules()[k] == cb.modules()[k]) by {
                assert(cb.modules()[k] == cc.modules().subrange(0, cb.modules().len() as int)[k]);
            }
            assert(ctx.modules()[k] == cc.modules()[k]);
        }
        cc.lemma_import_path_valid(module);
        let id = cc.modules()[module.id() as int].import_path_of().id() as int;
        assert(cc.str_store@[id] == ctx.str_store@.subrange(0, cc.str_store@.len() as int)[id]);
    }
    match res {
        Ok(()) => Ok(module),
        Err(h) => Err(BuildHalt::Parse(h)),
    }
}

impl Builder {
    pub fn new() -> (r: Self) {
        Builder {}
    }

    /// Compiles the project made of `files`: parses each into a module, sets their
    /// dependencies, finds the root module, refuses import cycles, then names, checks, graphs
    /// and generates each module reachable from the root, the root last. Code generation is not
    /// written yet, so building stops at the first module it reaches.
    #[verifier::rlimit(60)]
    pub fn compile(&mut self, ctx: &mut Context, files: &Vec<File>) -> (r: Result<(), BuildHalt>)
        requires
            old(ctx).wf(),
        ensures
            final(ctx).wf(),
            r is Err,
            r matches Err(BuildHalt::NoRootModule) ==> !has_main_file(files@),
            r matches Err(e) ==> (is_load_error(e) ==> load_error_facts(final(ctx), files@, e)),
            r matches Err(e) ==> (!is_load_error(e) && ids_fit(final(ctx)) ==> all_read(files@)),
            !has_main_file(files@) ==> (r matches Err(e) && (e is NoRootModule || is_load_error(e))),
            r matches Err(BuildHalt::ImportCycles(cycles)) ==> {
                &&& cycles@.len() > 0
                &&& exists|root: Module| {
                    &&& is_root(old(ctx).modules().len(), files@, root)
                    &&& forall|i: int|
                        0 <= i < cycles@.len() ==> is_import_cycle(final(ctx).modules(), root, #[trigger] cycles@[i]@)
                    &&& forall|q: Seq<Module>|
                        is_import_cycle(final(ctx).modules(), root, q) ==> exists|i: int|
                            0 <= i < cycles@.len() && #[trigger] cycles@[i]@ == q
                }
            },
            r matches Err(BuildHalt::Node(h)) ==> exists|m: Module| #[trigger] final(ctx).has_module(m) && naming_halts(final(ctx), m),
            r matches Err(e) ==> ((e is Node || e is Graph || e is Codegen) ==> exists|root: Module, m: Module|
                is_root(old(ctx).modules().len(), files@, root) && #[trigger] reachable(final(ctx).modules(), root, m)
                && module_built_to(final(ctx), m, e)),
            r matches Err(e) && (e is Node || e is Graph || e is Codegen) ==> exists|root: Module|
                is_root(old(ctx).modules().len(), files@, root) && forall|q: Seq<Module>|
                    !is_import_cycle(final(ctx).modules(), root, q),
    {
        let ghost c0 = *ctx;
        let modules = match self.get_all_modules(ctx, files) {
            Ok(ms) => ms,
            Err(e) => {
                return Err(e);
            },
        };
        let ghost c1 = *ctx;
        proof {
            assert forall|i: int| 0 <= i < modules@.len() implies (#[trigger] ctx.is_main(modules@[i])) == (files@[i].path@ == "main"@) by {
            }
        }
        if !has_main_module(ctx, &modules) {
            proof {
                assert forall|i: int| 0 <= i < files@.len() implies (#[trigger] files@[i]).path@ != "main"@ by {
                    assert(!ctx.is_main(modules@[i]));
                }
            }
            return Err(BuildHalt::NoRootModule);
        }
        if ctx.str_store.len() >= 4294967295usize {
            return Err(BuildHalt::TooManyStrings);
        }
        let module_dag = ModuleDag::new(ctx, modules.as_slice());
        let ghost root = module_dag.root();
        proof {
            crate::compiler::str_store::lemma_interned_prefix(c1.str_store@, "main"@);
            assert forall|i: int| 0 <= i < modules@.len() implies (#[trigger] ctx.is_main(modules@[i])) == (files@[i].path@ == "main"@) by {
                c1.lemma_import_path_valid(modules@[i]);
                assert(ctx.str_store@[c1.modules()[modules@[i].id() as int].import_path_of().id() as int]
                    == c1.str_store@[c1.modules()[modules@[i].id() as int].import_path_of().id() as int]);
            }
            let k = choose|k: int|
                0 <= k < modules@.len() && root == modules@[k] && ctx.is_main(#[trigger] modules@[k])
                    && forall|j: int| 0 <= j < k ==> !ctx.is_main(#[trigger] modules@[j]);
            assert forall|j: int| 0 <= j < k implies files@[j].path@ != "main"@ by {
                assert(!ctx.is_main(modules@[j]));
            }
            assert(files@[k].path@ == "main"@);
            assert(is_root(c0.modules().len(), files@, root));
        }
        let import_cycles = module_dag.validate(ctx);
        if import_cycles.len() > 0 {
            proof {
                assert(is_root(old(ctx).modules().len(), files@, root));
                assert(forall|i: int|
                    0 <= i < import_cycles@.len() ==> is_import_cycle(ctx.modules(), root, #[trigger] import_cycles@[i]@));
                assert(forall|q: Seq<Module>|
                    is_import_cycle(ctx.modules(), root, q) ==> exists|i: int|
                        0 <= i < import_cycles@.len() && #[trigger] import_cycles@[i]@ == q);
            }
            return Err(BuildHalt::ImportCycles(import_cycles));
        }
        let ghost cv = *ctx;
        proof {
            assert forall|q: Seq<Module>| !is_import_cycle(cv.modules(), root, q) by {
                if is_import_cycle(cv.modules(), root, q) {
                    let i = choose|i: int| 0 <= i < import_cycles@.len() && #[trigger] import_cycles@[i]@ == q;
                }
            }
        }
        let mut iter = module_dag.iter(ctx);
        proof {
            assert forall|k: int| 0 <= k < iter.stack().len() implies reachable(cv.modules(), root, #[trigger] iter.stack()[k]) by {
                assert(iter.stack().contains(iter.stack()[k]));
            }
        }
        // Code generation is not written and always stops, so the loop is only left by a return:
        // a module is still to be visited at the start of every turn.
        loop
            invariant
                ctx.wf(),
                cv.wf(),
                root.id() < cv.modules().len(),
                is_root(old(ctx).modules().len(), files@, root),
                forall|q: Seq<Module>| !is_import_cycle(cv.modules(), root, q),
                ctx.modules().len() == cv.modules().len(),
                forall|k: int| 0 <= k < cv.modules().len() ==> #[trigger] ctx.modules()[k].deps == cv.modules()[k].deps,
                forall|k: int| 0 <= k < iter.stack().len() ==> ctx.has_module(#[trigger] iter.stack()[k]),
                forall|k: int| 0 <= k < iter.stack().len() ==> reachable(cv.modules(), root, #[trigger] iter.stack()[k]),
                iter.stack().len() > 0,
                c1.str_store@.len() <= ctx.str_store@.len(),
                ctx.ast_store == c1.ast_store,
                ids_fit(&c1) ==> all_read(files@),
            ensures
                iter.stack().len() == 0,
            decreases iter.stack().len(),
        {
            let module = match iter.next() {
                Some(m) => m,
                None => {
                    break;
                },
            };
            let ghost cn = *ctx;
            let noder = Noder::new(ctx, module);
            let noded = noder.node(ctx);
            proof {
                assert forall|k: int| 0 <= k < cv.modules().len() implies #[trigger] ctx.modules()[k].deps == cv.modules()[k].deps by {
                    assert(cn.modules()[k].deps == cv.modules()[k].deps);
                }
            }
            match noded {
                Ok(()) => {},
                Err(h) => {
                    proof {
                        lemma_no_cycles_kept(&cv, ctx, root);
                        assert(is_root(old(ctx).modules().len(), files@, root));
                        assert(naming_halts(ctx, module));
                        assert(ctx.has_module(module));
                        lemma_reachable_kept(&cv, ctx, root, module);
                        assert(module_built_to(ctx, module, BuildHalt::Node(h)));
                    }
                    return Err(BuildHalt::Node(h));
                },
            }
            let ghost cg = *ctx;
            proof {
                assert(named_and_checked(&cg, module));
            }
            let grapher = Grapher::new(ctx, module);
            let graphed = grapher.graph(ctx);
            proof {
                lemma_named_and_checked_kept(&cg, ctx, module);
                assert forall|k: int| 0 <= k < cv.modules().len() implies #[trigger] ctx.modules()[k].deps == cv.modules()[k].deps by {
                    assert(cg.modules()[k].deps == cv.modules()[k].deps);
                }
                lemma_reachable_kept(&cv, ctx, root, module);
            }
            match graphed {
                Ok(()) => {},
                Err(h) => {
                    proof {
                        lemma_no_cycles_kept(&cv, ctx, root);
                        assert(is_root(old(ctx).modules().len(), files@, root));
                        assert(module_built_to(ctx, module, BuildHalt::Graph(h)));
                    }
                    return Err(BuildHalt::Graph(h));
                },
            }
            let mut generator = Generator::new(ctx, module);
            match generator.codegen() {
                Ok(()) => {},
                Err(h) => {
                    proof {
                        lemma_no_cycles_kept(&cv, ctx, root);
                        assert(is_root(old(ctx).modules().len(), files@, root));
                        assert(made_funcs(cg.mir_store.funcs(), ctx.mir_store.funcs(), func_sigs(ctx.hir_store.decls(), ctx.modules()[module.id() as int].hir@)));
                        assert(module_built_to(ctx, module, BuildHalt::Codegen(h)));
                    }
                    return Err(BuildHalt::Codegen(h));
                },
            }
        }
        Ok(())
    }

    /// Parses each file into a module named after its path (so that a file's `mod`
    /// declaration renames it), then sets each module's dependencies from its `use`
    /// declaration.
    #[verifier::rlimit(40)]
    pub fn get_all_modules(&mut self, ctx: &mut Context, files: &Vec<File>) -> (r: Result<Vec<Module>, BuildHalt>)
        requires
            old(ctx).wf(),
        ensures
            final(ctx).wf(),
            r matches Ok(ms) ==> made_from(old(ctx), final(ctx), files@, ms@),
            r is Ok && ids_fit(final(ctx)) ==> all_read(files@),
            ids_fit(final(ctx)) ==> (r matches Ok(ms) ==> forall|k: int|
                0 <= k < files@.len() ==> module_holds(final(ctx), ms@[k], #[trigger] files@[k])),
            r matches Err(e) ==> is_load_error(e) && load_error_facts(final(ctx), files@, e),
            r matches Ok(ms) ==> forall|k: int, d: MStr| 0 <= k < ms@.len() && #[trigger] use_deps(final(ctx), ms@[k]).contains(d)
                ==> deps_set(final(ctx), ms@[k], d),
    {
        let mut modules: Vec<Module> = Vec::new();
        let ghost n0 = ctx.modules().len();
        let mut i: usize = 0;
        while i < files.len()
            invariant
                ctx.wf(),
                n0 == old(ctx).modules().len(),
                i <= files@.len(),
                modules@.len() == i,
                ctx.modules().len() == n0 + i,
                forall|k: int| 0 <= k < i ==> (#[trigger] modules@[k]).id() == n0 + k,
                forall|k: int|
                    0 <= k < i ==> ctx.str_store@[ctx.modules()[(#[trigger] modules@[k]).id() as int].import_path_of().id() as int]
                        == files@[k].path@,
                ids_fit(ctx) ==> forall|k: int| 0 <= k < i ==> file_reads(#[trigger] files@[k]) is Done,
                ids_fit(ctx) ==> forall|k: int| 0 <= k < i ==> module_holds(ctx, modules@[k], #[trigger] files@[k]),
            decreases files@.len() - i,
        {
            let file = &files[i];
            let ghost ca = *ctx;
            let module = match load_file(ctx, file) {
                Ok(m) => m,
                Err(e) => {
                    proof {
                        if e is SourceTooLong {
                            assert(utf8_len(files@[i as int].source@) > usize::MAX);
                        }
                        if e is Parse && ids_fit(ctx) {
                            assert(file_reads(files@[i as int]) == Reading::<Seq<DeclText>>::Halt(e->Parse_0));
                            assert forall|j: int| 0 <= j < i implies file_reads(#[trigger] files@[j]) is Done by {
                            }
                        }
                    }
                    return Err(e);
                },
            };
            modules.push(module);
            proof {
                assert forall|k: int|
                    0 <= k < i + 1 implies ctx.str_store@[ctx.modules()[(#[trigger] modules@[k]).id() as int].import_path_of().id() as int]
                        == files@[k].path@ by {
                    let m = modules@[k];
                    if k < i {
                        ca.lemma_import_path_valid(m);
                        assert(ctx.modules()[m.id() as int].import_path == ca.modules()[m.id() as int].import_path);
                        assert(ctx.str_store@[ca.modules()[m.id() as int].import_path_of().id() as int]
                            == ca.str_store@[ca.modules()[m.id() as int].import_path_of().id() as int]) by {
                            let id = ca.modules()[m.id() as int].import_path_of().id() as int;
                            assert(ca.str_store@[id] == ctx.str_store@.subrange(0, ca.str_store@.len() as int)[id]);
                        }
                    }
                }
                if ids_fit(ctx) {
                    assert forall|k: int| 0 <= k < i + 1 implies file_reads(#[trigger] files@[k]) is Done by {
                    }
                    assert forall|k: int| 0 <= k < i + 1 implies module_holds(ctx, modules@[k], #[trigger] files@[k]) by {
                        if k < i {
                            assert(module_holds(&ca, modules@[k], files@[k]));
                            let ts = file_reads(files@[k])->Done_0;
                            lemma_module_reads_kept(&ca, ctx, modules@[k], ts);
                        }
                    }
                }
            }
            i = i + 1;
        }
        let ghost c1 = *ctx;
        let module_map = ctx.module_map();
        let mut j: usize = 0;
        while j < modules.len()
            invariant
                ctx.wf(),
                modules@.len() == files@.len(),
                ctx.modules().len() == c1.modules().len(),
                forall|k: int| 0 <= k < modules@.len() ==> ctx.has_module(#[trigger] modules@[k]),
                ctx.str_store == c1.str_store,
                ctx.ast_store == c1.ast_store,
                ids_fit(&c1) ==> all_read(files@),
                ids_fit(&c1) ==> forall|k: int| 0 <= k < files@.len() ==> module_holds(ctx, modules@[k], #[trigger] files@[k]),
                forall|k: int| 0 <= k < c1.modules().len() ==> #[trigger] ctx.modules()[k].import_path == c1.modules()[k].import_path,
                forall|k: int| 0 <= k < c1.modules().len() ==> #[trigger] ctx.modules()[k].name == c1.modules()[k].name,
                forall|name: MStr|
                    #[trigger] module_map.as_map().contains_key(name) <==> exists|m: int|
                        0 <= m < c1.modules().len() && #[trigger] c1.modules()[m].name == name,
                module_map.wf(),
                forall|k: int| 0 <= k < module_map.vals().len() ==> ctx.has_module(#[trigger] module_map.vals()[k]),
                j <= modules@.len(),
                n0 + files@.len() == c1.modules().len(),
                forall|k: int| 0 <= k < modules@.len() ==> (#[trigger] modules@[k]).id() == n0 + k,
                forall|name: MStr| #[trigger] module_map.as_map().contains_key(name) ==> c1.modules()[module_map.as_map()[name].id() as int].name == name
                    && module_map.as_map()[name].id() < c1.modules().len(),
                forall|k: int, d: MStr| 0 <= k < j && #[trigger] use_deps(ctx, modules@[k]).contains(d) ==> deps_set(ctx, modules@[k], d),
            decreases modules@.len() - j,
        {
            let module = modules[j];
            let ghost cd = *ctx;
            let parser = Parser::new(ctx, module);
            if !deps_known(ctx, module, &module_map) {
                proof {
                    let d = choose|d: MStr| #[trigger] use_deps(ctx, module).contains(d) && !module_map.as_map().contains_key(d);
                    assert(use_deps(ctx, module).contains(d));
                    assert(!exists|k: int| 0 <= k < ctx.modules().len() && #[trigger] ctx.modules()[k].name == d) by {
                        if exists|k: int| 0 <= k < ctx.modules().len() && #[trigger] ctx.modules()[k].name == d {
                            let k = choose|k: int| 0 <= k < ctx.modules().len() && #[trigger] ctx.modules()[k].name == d;
                            assert(c1.modules()[k].name == d);
                            assert(module_map.as_map().contains_key(d));
                        }
                    }
                    assert(uses_unknown_module(ctx));
                }
                return Err(BuildHalt::UnknownModule);
            }
            parser.set_deps(ctx, &module_map);
            proof {
                if ids_fit(&c1) {
                    assert(cd.str_store@.is_prefix_of(ctx.str_store@)) by {
                        assert(cd.str_store@ =~= ctx.str_store@.subrange(0, cd.str_store@.len() as int));
                    }
                    assert(cd.unchecked_ty_store@.is_prefix_of(ctx.unchecked_ty_store@)) by {
                        assert(cd.unchecked_ty_store@ =~= ctx.unchecked_ty_store@.subrange(0, cd.unchecked_ty_store@.len() as int));
                    }
                    assert(cd.ast_store.exprs().is_prefix_of(ctx.ast_store.exprs())) by {
                        assert(cd.ast_store.exprs() =~= ctx.ast_store.exprs().subrange(0, cd.ast_store.exprs().len() as int));
                    }
                    assert(cd.ast_store.decls().is_prefix_of(ctx.ast_store.decls())) by {
                        assert(cd.ast_store.decls() =~= ctx.ast_store.decls().subrange(0, cd.ast_store.decls().len() as int));
                    }
                    assert forall|k: int| 0 <= k < files@.len() implies module_holds(ctx, modules@[k], #[trigger] files@[k]) by {
                        assert(module_holds(&cd, modules@[k], files@[k]));
                        let ts = file_reads(files@[k])->Done_0;
                        lemma_module_reads_kept(&cd, ctx, modules@[k], ts);
                    }
                }
                assert forall|k: int| 0 <= k < c1.modules().len() implies #[trigger] ctx.modules()[k].import_path == c1.modules()[k].import_path by {
                    assert(cd.modules()[k].import_path == c1.modules()[k].import_path);
                }
                assert forall|k: int| 0 <= k < c1.modules().len() implies #[trigger] ctx.modules()[k].name == c1.modules()[k].name by {
                    assert(cd.modules()[k].name == c1.modules()[k].name);
                }
                assert forall|k: int, d: MStr| 0 <= k < j + 1 && #[trigger] use_deps(ctx, modules@[k]).contains(d)
                    implies deps_set(ctx, modules@[k], d) by {
                    if k < j {
                        assert(modules@[k].id() != module.id());
                        assert(ctx.modules()[modules@[k].id() as int] == cd.modules()[modules@[k].id() as int]);
                        assert(use_deps(&cd, modules@[k]).contains(d));
                        let t = cd.modules()[modules@[k].id() as int].deps.as_map()[d];
                        assert(ctx.modules()[t.id() as int].name == c1.modules()[t.id() as int].name);
                    } else {
                        assert(use_deps(&cd, module) == use_deps(ctx, module));
                        assert(use_deps(&cd, module).to_set().contains(d));
                        let t = module_map.as_map()[d];
                        assert(ctx.modules()[t.id() as int].name == c1.modules()[t.id() as int].name);
                    }
                }
            }
            j = j + 1;
        }
        proof {
            assert forall|k: int|
                0 <= k < modules@.len() implies ctx.str_store@[ctx.modules()[(#[trigger] modules@[k]).id() as int].import_path_of().id() as int]
                    == files@[k].path@ by {
                assert(ctx.modules()[modules@[k].id() as int].import_path == c1.modules()[modules@[k].id() as int].import_path);
            }
        }
        Ok(modules)
    }
}

/// The module `m` was named and checked: no name in a function is taken from another module, no
/// type names an alias the module does not use, its named declarations are, in order, the named
/// forms of its declarations other than `mod` and `use`, and each function's body has its types
/// recorded.
pub open spec fn named_and_checked(c: &Context, m: Module) -> bool {
    let hs = c.modules()[m.id() as int].hir@;
    let nds = crate::hir::noder::named_decls(c.ast_store.decls(), c.modules()[m.id() as int].ast@);
    &&& !crate::hir::noder::module_qualified(c, m)
    &&& !crate::hir::noder::module_alias_unknown(c, m)
    &&& crate::hir::noder::typed_module(c, m)
    &&& hs.len() == nds.len()
    &&& c.hir_store.decls().len() <= u32::MAX ==> crate::hir::noder::decls_named(c, m, c.ast_store.decls(), nds, hs)
}

/// How far building the module `m` went before it stopped with `e`: naming stopped (`Node`); or
/// it was named and checked and graphing stopped at an invalid declaration (`Graph`); or it was
/// named, checked and graphed, its functions made in order with their names and types, and code
/// generation stopped (`Codegen`).
pub open spec fn module_built_to(c: &Context, m: Module, e: BuildHalt) -> bool {
    let hs = c.modules()[m.id() as int].hir@;
    match e {
        BuildHalt::Node(_) => naming_halts(c, m),
        BuildHalt::Graph(_) => named_and_checked(c, m) && exists|k: int|
            0 <= k < hs.len() && (#[trigger] c.hir_store.decls()[hs[k].id() as int]) is Invalid,
        BuildHalt::Codegen(_) => {
            &&& named_and_checked(c, m)
            &&& forall|k: int| 0 <= k < hs.len() ==> !((#[trigger] c.hir_store.decls()[hs[k].id() as int]) is Invalid)
            &&& exists|before: Seq<FuncValue>| #[trigger] made_funcs(before, c.mir_store.funcs(), func_sigs(c.hir_store.decls(), hs))
        },
        _ => true,
    }
}

/// Graphing keeps a module named and checked.
proof fn lemma_named_and_checked_kept(c1: &Context, c2: &Context, m: Module)
    requires
        c2.wf(),
        named_and_checked(c1, m),
        c2.module_store == c1.module_store,
        c2.ast_store == c1.ast_store,
        c2.hir_store == c1.hir_store,
        c2.checked_ty_store == c1.checked_ty_store,
        c2.unchecked_ty_store == c1.unchecked_ty_store,
    ensures
        named_and_checked(c2, m),
{
    let hs = c1.modules()[m.id() as int].hir@;
    let nds = crate::hir::noder::named_decls(c1.ast_store.decls(), c1.modules()[m.id() as int].ast@);
    assert(c2.modules() == c1.modules());
    assert(c1.checked_ty_store@.is_prefix_of(c2.checked_ty_store@));
    assert(c1.hir_store.exprs().is_prefix_of(c2.hir_store.exprs()));
    if c2.hir_store.decls().len() <= u32::MAX {
        assert forall|k: int| 0 <= k < hs.len() implies #[trigger] crate::hir::noder::decl::decl_named(
            c2,
            m,
            c2.ast_store.decls()[nds[k].id() as int],
            c2.hir_store.decls()[hs[k].id() as int],
        ) by {
            crate::hir::noder::decl::lemma_decl_named_grow(
                c1,
                c2,
                m,
                c1.ast_store.decls()[nds[k].id() as int],
                c1.hir_store.decls()[hs[k].id() as int],
            );
        }
    }
    assert forall|k: int| 0 <= k < hs.len() implies #[trigger] crate::hir::noder::func_typed(c2, hs[k]) by {
        assert(crate::hir::noder::func_typed(c1, hs[k]));
    }
}

/// Following imports leads to the same modules while the modules keep their imports.
proof fn lemma_reachable_kept(cv: &Context, c: &Context, root: Module, m: Module)
    requires
        cv.wf(),
        root.id() < cv.modules().len(),
        c.modules().len() == cv.modules().len(),
        forall|k: int| 0 <= k < cv.modules().len() ==> #[trigger] c.modules()[k].deps == cv.modules()[k].deps,
        reachable(cv.modules(), root, m),
    ensures
        reachable(c.modules(), root, m),
{
    let s1 = cv.modules();
    let s2 = c.modules();
    assert forall|k: int, j: int|
        0 <= k < s1.len() && 0 <= j < s1[k].deps.vals().len() implies (#[trigger] s1[k].deps.vals()[j]).id() < s1.len() by {
        assert(cv.module_wf(s1[k]));
    }
    let p = choose|p: Seq<Module>| #[trigger] is_walk(s1, p) && p[0] == root && p.last() == m;
    assert forall|i: int| 0 <= i < p.len() - 1 implies crate::compiler::module::deps_of(s2, #[trigger] p[i]).contains(p[i + 1]) by {
        lemma_walk_valid(s1, p, i);
        assert(s1[p[i].id() as int].deps == s2[p[i].id() as int].deps);
    }
    assert(is_walk(s2, p));
}

/// Naming and checking the module `m` cannot succeed: a name in a function is taken from another
/// module, a type names an alias the module does not use, a function's type or body cannot be
/// checked, or the checked types outgrow their 32-bit ids.
pub open spec fn naming_halts(c: &Context, m: Module) -> bool {
    ||| crate::hir::noder::module_qualified(c, m)
    ||| crate::hir::noder::module_alias_unknown(c, m)
    ||| !crate::hir::noder::module_checkable(c, m)
    ||| c.checked_ty_store@.len() > u32::MAX
}

/// The module `m` depends, under the alias `d`, on a module named `d`.
pub open spec fn deps_set(c: &Context, m: Module, d: MStr) -> bool {
    let deps = c.modules()[m.id() as int].deps.as_map();
    &&& deps.contains_key(d)
    &&& c.modules()[deps[d].id() as int].name == d
}

/// Naming, checking and graphing keep each module's imports, so the root's import cycles stay
/// as they were.
proof fn lemma_no_cycles_kept(cv: &Context, c: &Context, root: Module)
    requires
        cv.wf(),
        root.id() < cv.modules().len(),
        forall|q: Seq<Module>| !is_import_cycle(cv.modules(), root, q),
        c.modules().len() == cv.modules().len(),
        forall|k: int| 0 <= k < cv.modules().len() ==> #[trigger] c.modules()[k].deps == cv.modules()[k].deps,
    ensures
        forall|q: Seq<Module>| !is_import_cycle(c.modules(), root, q),
{
    assert forall|k: int, j: int|
        0 <= k < cv.modules().len() && 0 <= j < cv.modules()[k].deps.vals().len() implies (#[trigger] cv.modules()[k].deps.vals()[j]).id()
        < cv.modules().len() by {
        assert(cv.module_wf(cv.modules()[k]));
    }
    assert forall|q: Seq<Module>| !is_import_cycle(c.modules(), root, q) by {
        lemma_same_deps_same_cycles(cv.modules(), c.modules(), root, q);
    }
}

} // verus!
