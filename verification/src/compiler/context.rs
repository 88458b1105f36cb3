use vstd::prelude::*;

use crate::compiler::ast_store::AstStore;
use crate::compiler::hir_store::HirStore;
use crate::compiler::mir_store::MirStore;
use crate::compiler::module::{deps_of, Module, ModuleValue};
use crate::compiler::str_store::{interned, MStr, StrStore};
use crate::compiler::ty_store::{CheckedTyStore, UncheckedTyStore};
use crate::index_vec::{IdMap, IndexVec, Indexer};

verus! {

/// Everything the compiler knows: the interned strings and types, the trees of every module, and
/// the modules themselves.
pub struct Context {
    pub str_store: StrStore,
    pub checked_ty_store: CheckedTyStore,
    pub unchecked_ty_store: UncheckedTyStore,
    pub ast_store: AstStore,
    pub hir_store: HirStore,
    pub mir_store: MirStore,
    pub module_store: IndexVec<Module, ModuleValue>,
}

impl Context {
    /// The modules, in the order they were created.
    pub open spec fn modules(&self) -> Seq<ModuleValue> {
        self.module_store@
    }

    /// `m` names a module.
    pub open spec fn has_module(&self, m: Module) -> bool {
        m.id() < self.modules().len()
    }

    /// `m` was imported from the path `main`.
    pub open spec fn is_main(&self, m: Module) -> bool {
        self.str_store@[self.modules()[m.id() as int].import_path_of().id() as int] == "main"@
    }

    /// One module is consistent with the stores: its import path is an interned string, it uses
    /// only modules that exist, and its declarations are stored.
    pub open spec fn module_wf(&self, v: ModuleValue) -> bool {
        &&& v.deps.wf()
        &&& forall|j: int|
            0 <= j < v.deps.vals().len() ==> (#[trigger] v.deps.vals()[j]).id() < self.modules().len()
        &&& v.import_path_of().id() < self.str_store@.len()
        &&& forall|j: int| 0 <= j < v.ast@.len() ==> (#[trigger] v.ast@[j]).id() < self.ast_store.decls().len()
        &&& forall|j: int| 0 <= j < v.hir@.len() ==> (#[trigger] v.hir@[j]).id() < self.hir_store.decls().len()
    }

    /// Each store is consistent, and so is each module.
    pub open spec fn wf(&self) -> bool {
        &&& self.str_store.wf()
        &&& self.checked_ty_store.wf()
        &&& self.unchecked_ty_store.wf()
        &&& self.ast_store.wf()
        &&& self.ast_store.types_below(self.unchecked_ty_store@.len())
        &&& self.hir_store.wf()
        &&& self.mir_store.wf()
        &&& self.modules().len() <= u32::MAX
        &&& forall|m: int| 0 <= m < self.modules().len() ==> self.module_wf(#[trigger] self.modules()[m])
    }

    /// Nothing but the string store differs from `old`.
    pub open spec fn same_except_strs(&self, old: &Context) -> bool {
        &&& self.checked_ty_store == old.checked_ty_store
        &&& self.unchecked_ty_store == old.unchecked_ty_store
        &&& self.ast_store == old.ast_store
        &&& self.hir_store == old.hir_store
        &&& self.module_store == old.module_store
    }

    /// Stores that only grew keep the context consistent.
    pub proof fn lemma_grown_wf(old: &Context, new: &Context)
        requires
            old.wf(),
            new.str_store.wf(),
            new.checked_ty_store.wf(),
            new.unchecked_ty_store.wf(),
            new.ast_store.wf(),
            new.hir_store.wf(),
            new.mir_store.wf(),
            new.module_store == old.module_store,
            old.str_store@.len() <= new.str_store@.len(),
            old.ast_store.decls().len() <= new.ast_store.decls().len(),
            old.hir_store.decls().len() <= new.hir_store.decls().len(),
            old.unchecked_ty_store@.len() <= new.unchecked_ty_store@.len(),
            new.ast_store.types_below(old.unchecked_ty_store@.len()),
        ensures
            new.wf(),
    {
        assert forall|p: int| 0 <= p < new.ast_store.decls().len() implies crate::compiler::ast_store::decl_ty_below(
            #[trigger] new.ast_store.decls()[p],
            new.unchecked_ty_store@.len(),
        ) by {
            assert(crate::compiler::ast_store::decl_ty_below(new.ast_store.decls()[p], old.unchecked_ty_store@.len()));
        }
        assert forall|m: int| 0 <= m < new.modules().len() implies new.module_wf(
            #[trigger] new.modules()[m],
        ) by {
            assert(old.module_wf(old.modules()[m]));
        }
    }

    pub proof fn lemma_main_kept(&self, old: &Context)
        requires
            old.wf(),
            self.module_store == old.module_store,
            old.str_store@.is_prefix_of(self.str_store@),
        ensures
            forall|m: Module| #[trigger] old.has_module(m) ==> self.is_main(m) == old.is_main(m),
    {
        assert forall|m: Module| #[trigger] old.has_module(m) implies self.is_main(m) == old.is_main(m) by {
            assert(old.module_wf(old.modules()[m.id() as int]));
        }
    }

    pub proof fn lemma_import_path_valid(&self, m: Module)
        requires
            self.wf(),
            self.has_module(m),
        ensures
            self.modules()[m.id() as int].import_path_of().id() < self.str_store@.len(),
    {
        assert(self.module_wf(self.modules()[m.id() as int]));
    }

    pub proof fn lemma_dep_valid(&self, m: Module, j: int)
        requires
            self.wf(),
            self.has_module(m),
            0 <= j < deps_of(self.modules(), m).len(),
        ensures
            deps_of(self.modules(), m)[j].id() < self.modules().len(),
            self.modules()[m.id() as int].deps.wf(),
    {
        assert(self.module_wf(self.modules()[m.id() as int]));
    }

    /// A context with empty stores and no modules.
    pub fn new() -> (r: Self)
        ensures
            r.wf(),
            r.str_store@ == Seq::<Seq<char>>::empty(),
            r.modules() == Seq::<ModuleValue>::empty(),
            r.ast_store.decls().len() == 0,
            r.ast_store.exprs().len() == 0,
    {
        Context {
            str_store: StrStore::new(),
            checked_ty_store: CheckedTyStore::new(),
            unchecked_ty_store: UncheckedTyStore::new(),
            ast_store: AstStore::new(),
            hir_store: HirStore::new(),
            mir_store: MirStore::new(),
            module_store: IndexVec::new(),
        }
    }

    /// Interns `s`.
    pub fn get_mstr(&mut self, s: &str) -> (r: MStr)
        requires
            old(self).wf(),
        ensures
            final(self).wf(),
            final(self).same_except_strs(old(self)),
            final(self).str_store@ == interned(old(self).str_store@, s@),
            final(self).str_store@.contains(s@),
            r.id() == (final(self).str_store@.index_of(s@) as u32) as nat,
    {
        let r = self.str_store.get_mstr(s);
        proof {
            assert(old(self).str_store@.is_prefix_of(self.str_store@));
            assert forall|m: int| 0 <= m < self.modules().len() implies self.module_wf(
                #[trigger] self.modules()[m],
            ) by {
                assert(old(self).module_wf(old(self).modules()[m]));
            }
        }
        r
    }

    /// A builder for this context.
    pub fn create_builder(&self) -> (r: crate::compiler::builder::Builder) {
        crate::compiler::builder::Builder::new()
    }

    /// A parser for `module`.
    pub fn create_parser(&self, module: Module) -> (r: crate::ast::parser::Parser)
        requires
            self.has_module(module),
        ensures
            r.wf(),
            r.module() == module,
    {
        crate::ast::parser::Parser::new(self, module)
    }

    /// A noder for `module`.
    pub fn create_noder(&self, module: Module) -> (r: crate::hir::noder::Noder)
        requires
            self.has_module(module),
        ensures
            r.module() == module,
    {
        crate::hir::noder::Noder::new(self, module)
    }

    /// A grapher for `module`.
    pub fn create_grapher(&self, module: Module) -> (r: crate::mir::grapher::Grapher)
        requires
            self.has_module(module),
        ensures
            r.module() == module,
    {
        crate::mir::grapher::Grapher::new(self, module)
    }

    /// A code generator for `module`.
    pub fn create_generator(&self, module: Module) -> (r: crate::codegen::generator::Generator)
        requires
            self.has_module(module),
        ensures
            r.module() == module,
    {
        crate::codegen::generator::Generator::new(self, module)
    }

    /// The module `module` names.
    pub fn get_module_value(&self, module: Module) -> (r: &ModuleValue)
        requires
            self.has_module(module),
        ensures
            *r == self.modules()[module.id() as int],
    {
        match self.module_store.get(module) {
            Some(v) => v,
            None => {
                assert(false);
                self.module_store.get(module).unwrap()
            },
        }
    }

    /// Adds a module imported from `import_path` (see `ModuleValue::new`) and gives its id.
    pub fn create_module(&mut self, import_path: MStr) -> (r: Module)
        requires
            old(self).wf(),
            import_path.id() < old(self).str_store@.len(),
            old(self).modules().len() < u32::MAX,
        ensures
            final(self).wf(),
            r.id() == old(self).modules().len(),
            final(self).modules().len() == old(self).modules().len() + 1,
            old(self).modules().is_prefix_of(final(self).modules()),
            final(self).modules().last().name == import_path,
            final(self).modules().last().import_path_of() == import_path,
            final(self).modules().last().deps.keys() == Seq::<MStr>::empty(),
            final(self).modules().last().ast@ == Seq::<crate::ast::ast::Decl>::empty(),
            final(self).modules().last().hir@ == Seq::<crate::hir::hir::Decl>::empty(),
            final(self).str_store == old(self).str_store,
            final(self).checked_ty_store == old(self).checked_ty_store,
            final(self).unchecked_ty_store == old(self).unchecked_ty_store,
            final(self).ast_store == old(self).ast_store,
            final(self).hir_store == old(self).hir_store,
    {
        let module_value = ModuleValue::new(import_path);
        let r = self.module_store.push(module_value);
        proof {
            assert(old(self).modules().is_prefix_of(self.modules()));
            assert forall|m: int| 0 <= m < self.modules().len() implies self.module_wf(
                #[trigger] self.modules()[m],
            ) by {
                if m < old(self).modules().len() {
                    assert(old(self).module_wf(old(self).modules()[m]));
                }
            }
        }
        r
    }

    /// Each module's name, mapped to the last module with that name.
    pub fn module_map(&self) -> (r: IdMap<MStr, Module>)
        requires
            self.wf(),
        ensures
            r.wf(),
            forall|k: int| 0 <= k < r.vals().len() ==> self.has_module(#[trigger] r.vals()[k]),
            forall|name: MStr|
                #[trigger] r.as_map().contains_key(name) <==> exists|m: int|
                    0 <= m < self.modules().len() && #[trigger] self.modules()[m].name == name,
            forall|name: MStr|
                #[trigger] r.as_map().contains_key(name) ==> {
                    let m = r.as_map()[name];
                    &&& self.has_module(m)
                    &&& self.modules()[m.id() as int].name == name
                    &&& forall|k: int|
                        m.id() < k < self.modules().len() ==> #[trigger] self.modules()[k].name
                            != name
                },
    {
        let mut map: IdMap<MStr, Module> = IdMap::new();
        let n = self.module_store.len();
        let mut i: usize = 0;
        while i < n
            invariant
                n == self.modules().len(),
                n <= u32::MAX,
                i <= n,
                map.wf(),
                forall|k: int| 0 <= k < map.vals().len() ==> (#[trigger] map.vals()[k]).id() < i,
                forall|name: MStr|
                    #[trigger] map.as_map().contains_key(name) <==> exists|m: int|
                        0 <= m < i && #[trigger] self.modules()[m].name == name,
                forall|name: MStr|
                    #[trigger] map.as_map().contains_key(name) ==> {
                        let m = map.as_map()[name];
                        &&& m.id() < i
                        &&& self.modules()[m.id() as int].name == name
                        &&& forall|k: int| m.id() < k < i ==> #[trigger] self.modules()[k].name != name
                    },
            decreases n - i,
        {
            let module = Module::from_index(i);
            let module_value = self.get_module_value(module);
            map.insert(module_value.name, module);
            proof {
                let nm = self.modules()[i as int].name;
                assert forall|name: MStr|
                    #[trigger] map.as_map().contains_key(name) <==> exists|m: int|
                        0 <= m < i + 1 && #[trigger] self.modules()[m].name == name by {
                    if name != nm && exists|m: int| 0 <= m < i + 1 && #[trigger] self.modules()[m].name == name {
                        let m = choose|m: int| 0 <= m < i + 1 && #[trigger] self.modules()[m].name == name;
                        assert(m < i);
                    }
                }
            }
            i = i + 1;
        }
        map
    }

    /// The object file of each module, in the order the modules were created.
    pub fn get_object_files(&self) -> (r: Vec<&str>)
        requires
            self.wf(),
        ensures
            r@.len() == self.modules().len(),
            forall|i: int| 0 <= i < r@.len() ==> (#[trigger] r@[i])@ == self.modules()[i].object_path_of(),
    {
        let mut paths: Vec<&str> = Vec::new();
        let n = self.module_store.len();
        let mut i: usize = 0;
        while i < n
            invariant
                n == self.modules().len(),
                n <= u32::MAX,
                i <= n,
                paths@.len() == i,
                forall|k: int| 0 <= k < i ==> (#[trigger] paths@[k])@ == self.modules()[k].object_path_of(),
            decreases n - i,
        {
            let module = Module::from_index(i);
            paths.push(self.get_module_value(module).get_object_path());
            i = i + 1;
        }
        paths
    }
}

} // verus!
