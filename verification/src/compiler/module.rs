use vstd::prelude::*;
use vstd::set_lib::{lemma_int_range, lemma_len_subset, set_int_range};

use crate::ast::ast;
use crate::compiler::context::Context;
use crate::compiler::str_store::MStr;
use crate::hir::hir;
use crate::index_vec::{IdMap, Indexer};

verus! {

/// The id of a module.
#[derive(Debug, Clone, Copy, PartialEq, Eq, Hash, Structural)]
pub struct Module(u32);

impl Indexer for Module {
    closed spec fn id(&self) -> nat {
        self.0 as nat
    }

    proof fn lemma_id(a: Self, b: Self) {
    }

    fn index(&self) -> (r: usize) {
        self.0 as usize
    }

    fn from_index(value: usize) -> (r: Self) {
        proof {
            crate::index_vec::lemma_u32_wrap(value);
        }
        Module(value as u32)
    }
}

/// One module: its name, the modules it uses (by the alias it uses them under), where its source
/// and object code are, and the declarations of its trees.
pub struct ModuleValue {
    pub name: MStr,
    pub deps: IdMap<MStr, Module>,
    pub import_path: MStr,
    pub object_path: String,
    pub ast: Vec<ast::Decl>,
    pub hir: Vec<hir::Decl>,
}

impl ModuleValue {
    /// The path the module was imported from.
    pub open spec fn import_path_of(&self) -> MStr {
        self.import_path
    }

    /// The path of the module's object file.
    pub open spec fn object_path_of(&self) -> Seq<char> {
        self.object_path@
    }

    /// A module imported from `import_path`, named after it, with no dependencies and empty
    /// trees; its object file is `tmp`.
    pub fn new(import_path: MStr) -> (r: Self)
        ensures
            r.name == import_path,
            r.import_path_of() == import_path,
            r.deps.wf(),
            r.deps.keys() == Seq::<MStr>::empty(),
            r.deps.as_map() == Map::<MStr, Module>::empty(),
            r.ast@ == Seq::<ast::Decl>::empty(),
            r.hir@ == Seq::<hir::Decl>::empty(),
            r.object_path_of() == "tmp"@,
    {
        ModuleValue {
            name: import_path,
            import_path,
            deps: IdMap::new(),
            object_path: "tmp".to_owned(),
            ast: Vec::new(),
            hir: Vec::new(),
        }
    }

    /// The module used under `alias`.
    pub fn get_dep(&self, alias: MStr) -> (r: Module)
        requires
            self.deps.wf(),
            self.deps.as_map().contains_key(alias),
        ensures
            r == self.deps.as_map()[alias],
    {
        match self.deps.get(&alias) {
            Some(m) => *m,
            None => {
                assert(false);
                Module(0)
            },
        }
    }

    /// The path the module was imported from.
    pub fn get_import_path(&self) -> (r: MStr)
        ensures
            r == self.import_path_of(),
    {
        self.import_path
    }

    /// The path of the module's object file.
    pub fn get_object_path(&self) -> (r: &str)
        ensures
            r@ == self.object_path_of(),
    {
        self.object_path.as_str()
    }
}

/// The modules `m` uses, in the order they were added.
pub open spec fn deps_of(store: Seq<ModuleValue>, m: Module) -> Seq<Module> {
    store[m.id() as int].deps.vals()
}

/// `p` is a path of imports: each module uses the next.
pub open spec fn is_walk(store: Seq<ModuleValue>, p: Seq<Module>) -> bool {
    &&& p.len() > 0
    &&& forall|i: int| 0 <= i < p.len() - 1 ==> deps_of(store, #[trigger] p[i]).contains(p[i + 1])
}

/// Following imports from `a` leads to `b`.
pub open spec fn reachable(store: Seq<ModuleValue>, a: Module, b: Module) -> bool {
    exists|p: Seq<Module>| #[trigger] is_walk(store, p) && p[0] == a && p.last() == b
}

/// The last module of `p` occurs earlier in `p`.
pub open spec fn is_cycle_path(p: Seq<Module>) -> bool {
    p.len() > 0 && p.drop_last().contains(p.last())
}

/// `q` is a path of imports from `root` that comes back to a module it passed, and does so only
/// at its end.
pub open spec fn is_import_cycle(store: Seq<ModuleValue>, root: Module, q: Seq<Module>) -> bool {
    &&& is_walk(store, q)
    &&& q[0] == root
    &&& is_cycle_path(q)
    &&& q.drop_last().no_duplicates()
}

/// On a path of imports that starts at a module of the store, every module is in the store,
/// when each module uses only modules of the store.
pub proof fn lemma_walk_valid(store: Seq<ModuleValue>, q: Seq<Module>, i: int)
    requires
        is_walk(store, q),
        q[0].id() < store.len(),
        forall|k: int, j: int|
            0 <= k < store.len() && 0 <= j < store[k].deps.vals().len() ==> (#[trigger] store[k].deps.vals()[j]).id()
                < store.len(),
        0 <= i < q.len(),
    ensures
        q[i].id() < store.len(),
    decreases i,
{
    if i > 0 {
        lemma_walk_valid(store, q, i - 1);
        let p = q[i - 1];
        assert(deps_of(store, p).contains(q[i]));
        let j = choose|j: int| 0 <= j < deps_of(store, p).len() && deps_of(store, p)[j] == q[i];
        assert(store[p.id() as int].deps.vals()[j] == q[i]);
    }
}

/// Two stores in which each module uses the same modules have the same import cycles.
pub proof fn lemma_same_deps_same_cycles(s1: Seq<ModuleValue>, s2: Seq<ModuleValue>, root: Module, q: Seq<Module>)
    requires
        s1.len() == s2.len(),
        forall|k: int| 0 <= k < s1.len() ==> #[trigger] s1[k].deps == s2[k].deps,
        root.id() < s1.len(),
        forall|k: int, j: int|
            0 <= k < s1.len() && 0 <= j < s1[k].deps.vals().len() ==> (#[trigger] s1[k].deps.vals()[j]).id()
                < s1.len(),
    ensures
        is_import_cycle(s1, root, q) == is_import_cycle(s2, root, q),
{
    assert forall|k: int, j: int|
        0 <= k < s2.len() && 0 <= j < s2[k].deps.vals().len() implies (#[trigger] s2[k].deps.vals()[j]).id()
        < s2.len() by {
        assert(s1[k].deps == s2[k].deps);
        assert(s1[k].deps.vals()[j] == s2[k].deps.vals()[j]);
    }
    if q.len() > 0 && q[0] == root {
        if is_walk(s1, q) {
            assert forall|i: int| 0 <= i < q.len() - 1 implies deps_of(s2, #[trigger] q[i]).contains(q[i + 1]) by {
                lemma_walk_valid(s1, q, i);
                assert(deps_of(s1, q[i]).contains(q[i + 1]));
                assert(s1[q[i].id() as int].deps == s2[q[i].id() as int].deps);
            }
        }
        if is_walk(s2, q) {
            assert forall|i: int| 0 <= i < q.len() - 1 implies deps_of(s1, #[trigger] q[i]).contains(q[i + 1]) by {
                lemma_walk_valid(s2, q, i);
                assert(deps_of(s2, q[i]).contains(q[i + 1]));
                assert(s1[q[i].id() as int].deps == s2[q[i].id() as int].deps);
            }
        }
    }
}

/// Every module of `p` is one of the first `n` modules.
pub open spec fn all_valid(p: Seq<Module>, n: nat) -> bool {
    forall|i: int| 0 <= i < p.len() ==> (#[trigger] p[i]).id() < n
}

proof fn lemma_prefix_index(a: Seq<Module>, b: Seq<Module>, i: int)
    requires
        a.is_prefix_of(b),
        0 <= i < a.len(),
    ensures
        a[i] == b[i],
{
    assert(a[i] == b.subrange(0, a.len() as int)[i]);
}

/// Every module that `m` uses is in `s`.
pub open spec fn closed_in(store: Seq<ModuleValue>, s: Seq<Module>, m: Module) -> bool {
    forall|t: int| 0 <= t < deps_of(store, m).len() ==> s.contains(#[trigger] deps_of(store, m)[t])
}

proof fn lemma_closed_grows(store: Seq<ModuleValue>, s: Seq<Module>, s2: Seq<Module>, m: Module)
    requires
        closed_in(store, s, m),
        s.is_prefix_of(s2),
    ensures
        closed_in(store, s2, m),
{
    assert forall|t: int| 0 <= t < deps_of(store, m).len() implies s2.contains(
        #[trigger] deps_of(store, m)[t],
    ) by {
        let x = deps_of(store, m)[t];
        assert(s.contains(x));
        let a = choose|a: int| 0 <= a < s.len() && s[a] == x;
        assert(s2[a] == x);
    }
}

/// A list of modules, each importing the next.
#[derive(Debug)]
pub struct ImportList {
    path: Vec<Module>,
}

impl View for ImportList {
    type V = Seq<Module>;

    closed spec fn view(&self) -> Seq<Module> {
        self.path@
    }
}

impl ImportList {
    fn new(root: Module) -> (r: Self)
        ensures
            r@ == seq![root],
    {
        let r = ImportList { path: vec![root] };
        assert(r@ =~= seq![root]);
        r
    }

    fn push(&mut self, module: Module)
        ensures
            final(self)@ == old(self)@.push(module),
    {
        self.path.push(module)
    }

    fn pop(&mut self)
        ensures
            final(self)@ == if old(self)@.len() > 0 {
                old(self)@.drop_last()
            } else {
                old(self)@
            },
    {
        self.path.pop();
    }

    /// Whether the last module occurs earlier in the list.
    fn is_cycle(&self) -> (r: bool)
        ensures
            r == is_cycle_path(self@),
    {
        let n = self.path.len();
        if n == 0 {
            return false;
        }
        let last = self.path[n - 1];
        let mut i: usize = 0;
        while i < n - 1
            invariant
                n == self@.len(),
                n > 0,
                last == self@.last(),
                i <= n - 1,
                forall|j: int| 0 <= j < i ==> self@[j] != last,
            decreases n - 1 - i,
        {
            if self.path[i] == last {
                assert(self@.drop_last()[i as int] == last);
                return true;
            }
            i = i + 1;
        }
        proof {
            if self@.drop_last().contains(last) {
                let j = choose|j: int| 0 <= j < self@.drop_last().len() && self@.drop_last()[j] == last;
                assert(self@[j] == last);
            }
        }
        false
    }

    /// A copy of the list.
    fn duplicate(&self) -> (r: Self)
        ensures
            r@ == self@,
    {
        ImportList { path: crate::index_vec::copy_vec(&self.path) }
    }
}

/// A list of distinct modules, all among the first `n`, has at most `n` entries.
proof fn lemma_distinct_bound(p: Seq<Module>, n: nat)
    requires
        p.no_duplicates(),
        all_valid(p, n),
    ensures
        p.len() <= n,
{
    let s = p.map_values(|m: Module| m.id() as int);
    assert(s.len() == p.len());
    assert forall|i: int, j: int| 0 <= i < s.len() && 0 <= j < s.len() && i != j implies s[i]
        != s[j] by {
        Module::lemma_id(p[i], p[j]);
        assert(s[i] == p[i].id() as int);
        assert(s[j] == p[j].id() as int);
    }
    assert(s.no_duplicates());
    s.unique_seq_to_set();
    vstd::seq_lib::seq_to_set_is_finite(s);
    assert forall|x: int| s.to_set().contains(x) implies set_int_range(0, n as int).contains(x) by {
        assert(s.contains(x));
        let i = choose|i: int| 0 <= i < s.len() && s[i] == x;
        assert(p[i].id() < n);
        assert(s[i] == p[i].id() as int);
    }
    lemma_int_range(0, n as int);
    lemma_len_subset(s.to_set(), set_int_range(0, n as int));
}

/// A path of imports with one more module in front is a path of imports.
proof fn lemma_reach_prepend(store: Seq<ModuleValue>, a: Module, d: Module, x: Module)
    requires
        deps_of(store, a).contains(d),
        reachable(store, d, x),
    ensures
        reachable(store, a, x),
{
    let p = choose|p: Seq<Module>| #[trigger] is_walk(store, p) && p[0] == d && p.last() == x;
    let q = seq![a] + p;
    assert forall|i: int| 0 <= i < q.len() - 1 implies deps_of(store, #[trigger] q[i]).contains(
        q[i + 1],
    ) by {
        if i > 0 {
            assert(q[i] == p[i - 1]);
            assert(q[i + 1] == p[i]);
            assert(deps_of(store, p[i - 1]).contains(p[i - 1 + 1]));
        }
    }
    assert(is_walk(store, q));
    assert(q.last() == x);
}

/// Every module that `s` holds and every module they use is held: following imports from a
/// module held never leaves `s`.
proof fn lemma_closed_holds_reachable(store: Seq<ModuleValue>, s: Seq<Module>, p: Seq<Module>)
    requires
        forall|k: int| 0 <= k < s.len() ==> closed_in(store, s, #[trigger] s[k]),
        is_walk(store, p),
        s.contains(p[0]),
    ensures
        s.contains(p.last()),
    decreases p.len(),
{
    if p.len() > 1 {
        let q = p.drop_last();
        assert forall|i: int| 0 <= i < q.len() - 1 implies deps_of(store, #[trigger] q[i]).contains(
            q[i + 1],
        ) by {
            assert(q[i] == p[i]);
            assert(q[i + 1] == p[i + 1]);
        }
        lemma_closed_holds_reachable(store, s, q);
        let m = q.last();
        assert(m == p[p.len() - 2]);
        assert(deps_of(store, p[p.len() - 2]).contains(p[p.len() - 2 + 1]));
        let k = choose|k: int| 0 <= k < s.len() && s[k] == m;
        assert(closed_in(store, s, s[k]));
        let j = choose|j: int|
            0 <= j < deps_of(store, m).len() && deps_of(store, m)[j] == p.last();
        assert(s.contains(deps_of(store, s[k])[j]));
    }
}

/// The modules of a program, starting from the root module (the one in `main`).
pub struct ModuleDag {
    root: Module,
}

impl ModuleDag {
    /// The root module.
    pub closed spec fn root(&self) -> Module {
        self.root
    }

    /// The first of `modules` whose import path is `main`.
    pub fn new(ctx: &mut Context, modules: &[Module]) -> (r: Self)
        requires
            old(ctx).wf(),
            old(ctx).str_store@.len() < u32::MAX,
            forall|i: int| 0 <= i < modules@.len() ==> old(ctx).has_module(#[trigger] modules@[i]),
            exists|i: int| 0 <= i < modules@.len() && old(ctx).is_main(#[trigger] modules@[i]),
        ensures
            final(ctx).wf(),
            final(ctx).same_except_strs(old(ctx)),
            final(ctx).str_store@ == crate::compiler::str_store::interned(old(ctx).str_store@, "main"@),
            exists|i: int|
                0 <= i < modules@.len() && r.root() == modules@[i] && final(ctx).is_main(
                    #[trigger] modules@[i],
                ) && forall|j: int| 0 <= j < i ==> !final(ctx).is_main(#[trigger] modules@[j]),
    {
        let ghost strs0 = ctx.str_store@;
        let root_import_path = ctx.get_mstr("main");
        proof {
            crate::compiler::str_store::lemma_interned_lookup(strs0, "main"@);
            ctx.lemma_main_kept(old(ctx));
        }
        let mut i: usize = 0;
        while i < modules.len()
            invariant
                ctx.wf(),
                ctx.same_except_strs(old(ctx)),
                ctx.str_store@ == crate::compiler::str_store::interned(strs0, "main"@),
                ctx.str_store@.len() <= u32::MAX,
                strs0 == old(ctx).str_store@,
                root_import_path.id() < ctx.str_store@.len(),
                ctx.str_store@[root_import_path.id() as int] == "main"@,
                forall|k: int| 0 <= k < modules@.len() ==> ctx.has_module(#[trigger] modules@[k]),
                exists|k: int| 0 <= k < modules@.len() && ctx.is_main(#[trigger] modules@[k]),
                i <= modules@.len(),
                forall|j: int| 0 <= j < i ==> !ctx.is_main(#[trigger] modules@[j]),
            decreases modules@.len() - i,
        {
            let module = modules[i];
            let import_path = ctx.get_module_value(module).get_import_path();
            proof {
                ctx.lemma_import_path_valid(module);
                crate::compiler::str_store::lemma_mstr_eq_iff_str_eq(
                    ctx.str_store@,
                    import_path,
                    root_import_path,
                );
            }
            if import_path == root_import_path {
                return ModuleDag { root: module };
            }
            i = i + 1;
        }
        proof {
            let k = choose|k: int| 0 <= k < modules@.len() && ctx.is_main(#[trigger] modules@[k]);
            assert(!ctx.is_main(modules@[k]));
        }
        ModuleDag { root: modules[0] }
    }

    /// Every path of imports from the root that comes back to a module it passed: each list
    /// given is such a path, and each such path is given.
    pub fn validate(&self, ctx: &Context) -> (r: Vec<ImportList>)
        requires
            ctx.wf(),
            ctx.has_module(self.root()),
        ensures
            forall|i: int|
                0 <= i < r@.len() ==> is_import_cycle(ctx.modules(), self.root(), #[trigger] r@[i]@),
            forall|q: Seq<Module>|
                is_import_cycle(ctx.modules(), self.root(), q) ==> exists|i: int|
                    0 <= i < r@.len() && #[trigger] r@[i]@ == q,
    {
        let mut import_list = ImportList::new(self.root);
        proof {
            assert(is_walk(ctx.modules(), import_list@));
            assert(import_list@.drop_last() =~= Seq::<Module>::empty());
            assert forall|q: Seq<Module>| is_import_cycle(ctx.modules(), self.root(), q) implies
                import_list@.is_prefix_of(q) by {
                assert(q[0] == import_list@[0]);
            }
        }
        let r = self.find_import_cycles(ctx, &mut import_list);
        proof {
            assert forall|i: int| 0 <= i < r@.len() implies is_import_cycle(
                ctx.modules(),
                self.root(),
                #[trigger] r@[i]@,
            ) by {
                assert(seq![self.root()].is_prefix_of(r@[i]@));
                assert(r@[i]@[0] == seq![self.root()][0]);
            }
        }
        r
    }

    fn find_import_cycles(&self, ctx: &Context, import_path: &mut ImportList) -> (r: Vec<ImportList>)
        requires
            ctx.wf(),
            is_walk(ctx.modules(), old(import_path)@),
            all_valid(old(import_path)@, ctx.modules().len()),
            old(import_path)@.drop_last().no_duplicates(),
        ensures
            final(import_path)@ == old(import_path)@,
            forall|i: int|
                0 <= i < r@.len() ==> {
                    let q = #[trigger] r@[i]@;
                    &&& old(import_path)@.is_prefix_of(q)
                    &&& is_walk(ctx.modules(), q)
                    &&& is_cycle_path(q)
                    &&& q.drop_last().no_duplicates()
                },
            forall|q: Seq<Module>|
                old(import_path)@.is_prefix_of(q) && is_walk(ctx.modules(), q) && is_cycle_path(q)
                    && q.drop_last().no_duplicates() ==> exists|i: int|
                    0 <= i < r@.len() && #[trigger] r@[i]@ == q,
        decreases ctx.modules().len() + 1 - old(import_path)@.len(),
    {
        let ghost store = ctx.modules();
        let ghost p0 = import_path@;
        if import_path.is_cycle() {
            let r = vec![import_path.duplicate()];
            proof {
                assert forall|q: Seq<Module>|
                    p0.is_prefix_of(q) && is_walk(store, q) && is_cycle_path(q)
                        && q.drop_last().no_duplicates() implies exists|i: int|
                    0 <= i < r@.len() && #[trigger] r@[i]@ == q by {
                    if q.len() > p0.len() {
                        let k = choose|k: int|
                            0 <= k < p0.drop_last().len() && p0.drop_last()[k] == p0.last();
                        assert(q.drop_last()[k] == q.drop_last()[p0.len() - 1]);
                    }
                    assert(q =~= p0);
                    assert(r@[0]@ == q);
                }
                assert(p0.is_prefix_of(p0));
            }
            return r;
        }
        proof {
            assert(p0.no_duplicates()) by {
                assert forall|i: int, j: int| 0 <= i < p0.len() && 0 <= j < p0.len() && i != j
                    implies p0[i] != p0[j] by {
                    if i == p0.len() - 1 {
                        assert(p0.drop_last()[j] == p0[j]);
                    } else if j == p0.len() - 1 {
                        assert(p0.drop_last()[i] == p0[i]);
                    } else {
                        assert(p0.drop_last()[i] == p0[i]);
                        assert(p0.drop_last()[j] == p0[j]);
                    }
                }
            }
            lemma_distinct_bound(p0, store.len());
        }
        let last = import_path.path[import_path.path.len() - 1];
        let deps = &ctx.get_module_value(last).deps;
        let ghost dvals = deps.vals();
        assert(dvals == deps_of(store, last));
        let mut cycles: Vec<ImportList> = Vec::new();
        let mut j: usize = 0;
        while j < deps.len()
            invariant
                store == ctx.modules(),
                ctx.wf(),
                p0 == old(import_path)@,
                import_path@ == p0,
                is_walk(store, p0),
                all_valid(p0, store.len()),
                p0.no_duplicates(),
                p0.len() <= store.len(),
                !is_cycle_path(p0),
                last == p0.last(),
                dvals == deps_of(store, last),
                dvals == deps.vals(),
                deps.wf(),
                j <= dvals.len(),
                forall|i: int|
                    0 <= i < cycles@.len() ==> {
                        let q = #[trigger] cycles@[i]@;
                        &&& p0.is_prefix_of(q)
                        &&& is_walk(store, q)
                        &&& is_cycle_path(q)
                        &&& q.drop_last().no_duplicates()
                    },
                forall|q: Seq<Module>|
                    p0.is_prefix_of(q) && is_walk(store, q) && is_cycle_path(q)
                        && q.drop_last().no_duplicates() && q.len() > p0.len() && dvals.take(
                        j as int,
                    ).contains(q[p0.len() as int]) ==> exists|i: int|
                        0 <= i < cycles@.len() && #[trigger] cycles@[i]@ == q,
            decreases dvals.len() - j,
        {
            let (_, dep_ref) = deps.entry(j);
            let dep = *dep_ref;
            proof {
                ctx.lemma_dep_valid(last, j as int);
                let p1 = p0.push(dep);
                assert forall|i: int| 0 <= i < p1.len() - 1 implies deps_of(
                    store,
                    #[trigger] p1[i],
                ).contains(p1[i + 1]) by {
                    if i < p0.len() - 1 {
                        assert(p1[i] == p0[i]);
                        assert(p1[i + 1] == p0[i + 1]);
                    } else {
                        assert(p1[i] == last);
                        assert(dvals[j as int] == dep);
                    }
                }
                assert(p1.drop_last() =~= p0);
            }
            import_path.push(dep);
            let ghost p1 = import_path@;
            let mut new_cycles = self.find_import_cycles(ctx, import_path);
            let ghost c0 = cycles@;
            let ghost nc = new_cycles@;
            cycles.append(&mut new_cycles);
            import_path.pop();
            proof {
                assert(import_path@ =~= p0);
                assert forall|i: int| 0 <= i < cycles@.len() implies {
                    let q = #[trigger] cycles@[i]@;
                    &&& p0.is_prefix_of(q)
                    &&& is_walk(store, q)
                    &&& is_cycle_path(q)
                    &&& q.drop_last().no_duplicates()
                } by {
                    if i >= c0.len() {
                        assert(cycles@[i] == nc[i - c0.len()]);
                        let q = nc[i - c0.len()]@;
                        assert(p1.is_prefix_of(q));
                        assert forall|k: int| 0 <= k < p0.len() implies p0[k] == q[k] by {
                            assert(p1[k] == p0[k]);
                        }
                    } else {
                        assert(cycles@[i] == c0[i]);
                    }
                }
                assert forall|q: Seq<Module>|
                    p0.is_prefix_of(q) && is_walk(store, q) && is_cycle_path(q)
                        && q.drop_last().no_duplicates() && q.len() > p0.len() && dvals.take(
                        j + 1,
                    ).contains(q[p0.len() as int]) implies exists|i: int|
                    0 <= i < cycles@.len() && #[trigger] cycles@[i]@ == q by {
                    if dvals.take(j as int).contains(q[p0.len() as int]) {
                        let i = choose|i: int| 0 <= i < c0.len() && #[trigger] c0[i]@ == q;
                        assert(cycles@[i] == c0[i]);
                    } else {
                        let k = choose|k: int|
                            0 <= k < dvals.take(j + 1).len() && #[trigger] dvals.take(j + 1)[k] == q[p0.len() as int];
                        assert(k == j);
                        assert(p1.is_prefix_of(q)) by {
                            assert forall|t: int| 0 <= t < p1.len() implies p1[t] == q[t] by {
                                if t < p0.len() {
                                    assert(p0[t] == q[t]);
                                }
                            }
                        }
                        let i = choose|i: int| 0 <= i < nc.len() && #[trigger] nc[i]@ == q;
                        assert(cycles@[c0.len() + i] == nc[i]);
                    }
                }
            }
            j = j + 1;
        }
        proof {
            assert(dvals.take(dvals.len() as int) =~= dvals);
            assert forall|q: Seq<Module>|
                p0.is_prefix_of(q) && is_walk(store, q) && is_cycle_path(q)
                    && q.drop_last().no_duplicates() implies exists|i: int|
                0 <= i < cycles@.len() && #[trigger] cycles@[i]@ == q by {
                if q.len() <= p0.len() {
                    assert(q =~= p0);
                }
                assert(q[p0.len() - 1] == p0[p0.len() - 1]);
                assert(deps_of(store, q[p0.len() - 1]).contains(q[p0.len() - 1 + 1]));
            }
        }
        cycles
    }

    /// The modules reachable from the root, each once, to be visited so that the root comes
    /// last.
    pub fn iter(&self, ctx: &Context) -> (r: ModuleDagIter)
        requires
            ctx.wf(),
            ctx.has_module(self.root()),
        ensures
            r.stack().no_duplicates(),
            all_valid(r.stack(), ctx.modules().len()),
            r.stack().len() > 0,
            r.stack()[0] == self.root(),
            forall|m: Module| r.stack().contains(m) <==> reachable(ctx.modules(), self.root(), m),
    {
        let mut stack: Vec<Module> = vec![self.root];
        proof {
            assert(stack@ =~= seq![self.root()]);
        }
        self.build_stack(ctx, &mut stack);
        proof {
            let store = ctx.modules();
            let root = self.root();
            assert(stack@[0] == root);
            assert forall|m: Module| stack@.contains(m) implies reachable(store, root, m) by {
                let k = choose|k: int| 0 <= k < stack@.len() && stack@[k] == m;
                if k == 0 {
                    let p = seq![root];
                    assert(is_walk(store, p));
                    assert(p.last() == m);
                }
            }
            assert forall|m: Module| reachable(store, root, m) implies stack@.contains(m) by {
                let p = choose|p: Seq<Module>| #[trigger] is_walk(store, p) && p[0] == root
                    && p.last() == m;
                assert(stack@[0] == p[0]);
                lemma_closed_holds_reachable(store, stack@, p);
            }
        }
        ModuleDagIter { stack }
    }

    fn build_stack(&self, ctx: &Context, stack: &mut Vec<Module>)
        requires
            ctx.wf(),
            old(stack)@.no_duplicates(),
            all_valid(old(stack)@, ctx.modules().len()),
        ensures
            old(stack)@.is_prefix_of(final(stack)@),
            final(stack)@.no_duplicates(),
            all_valid(final(stack)@, ctx.modules().len()),
            old(stack)@.len() == 0 ==> final(stack)@ == old(stack)@,
            old(stack)@.len() > 0 ==> forall|k: int|
                old(stack)@.len() <= k < final(stack)@.len() ==> reachable(
                    ctx.modules(),
                    old(stack)@.last(),
                    #[trigger] final(stack)@[k],
                ),
            old(stack)@.len() > 0 ==> forall|k: int|
                old(stack)@.len() - 1 <= k < final(stack)@.len() ==> closed_in(
                    ctx.modules(),
                    final(stack)@,
                    #[trigger] final(stack)@[k],
                ),
        decreases ctx.modules().len() - old(stack)@.len(),
    {
        let ghost store = ctx.modules();
        let ghost s0 = stack@;
        if stack.len() == 0 {
            return;
        }
        proof {
            lemma_distinct_bound(s0, store.len());
        }
        let last = stack[stack.len() - 1];
        let deps = &ctx.get_module_value(last).deps;
        let ghost dvals = deps.vals();
        let mut j: usize = 0;
        while j < deps.len()
            invariant
                store == ctx.modules(),
                ctx.wf(),
                s0 == old(stack)@,
                s0.len() > 0,
                last == s0.last(),
                dvals == deps_of(store, last),
                dvals == deps.vals(),
                deps.wf(),
                j <= dvals.len(),
                s0.is_prefix_of(stack@),
                stack@.no_duplicates(),
                all_valid(stack@, store.len()),
                forall|t: int| 0 <= t < j ==> stack@.contains(#[trigger] dvals[t]),
                forall|k: int|
                    s0.len() <= k < stack@.len() ==> reachable(store, last, #[trigger] stack@[k]),
                forall|k: int|
                    s0.len() <= k < stack@.len() ==> closed_in(store, stack@, #[trigger] stack@[k]),
            decreases dvals.len() - j,
        {
            let (_, dep_ref) = deps.entry(j);
            let dep = *dep_ref;
            proof {
                ctx.lemma_dep_valid(last, j as int);
            }
            if !contains_module(stack, dep) {
                let ghost s1 = stack@;
                stack.push(dep);
                proof {
                    assert(stack@.no_duplicates()) by {
                        assert forall|a: int, b: int| 0 <= a < stack@.len() && 0 <= b < stack@.len()
                            && a != b implies stack@[a] != stack@[b] by {
                            if a == s1.len() {
                                assert(stack@[b] == s1[b]);
                            } else if b == s1.len() {
                                assert(stack@[a] == s1[a]);
                            } else {
                                assert(stack@[a] == s1[a]);
                                assert(stack@[b] == s1[b]);
                            }
                        }
                    }
                    lemma_distinct_bound(s1, store.len());
                    assert(stack@.last() == dep);
                }
                let ghost s2 = stack@;
                proof {
                    assert(s2.last() == dep);
                    lemma_distinct_bound(s2, store.len());
                }
                self.build_stack(ctx, stack);
                proof {
                    assert(s2[s1.len() as int] == dep);
                    assert(stack@[s1.len() as int] == dep);
                    assert forall|k: int| s0.len() <= k < stack@.len() implies reachable(
                        store,
                        last,
                        #[trigger] stack@[k],
                    ) by {
                        if k < s1.len() {
                            lemma_prefix_index(s2, stack@, k);
                            assert(stack@[k] == s1[k]);
                        } else if k == s1.len() {
                            let p = seq![last, dep];
                            assert(dvals[j as int] == dep);
                            assert(deps_of(store, last).contains(dep));
                            assert(p[0] == last && p[1] == dep);
                            assert(is_walk(store, p));
                            assert(p.last() == dep);
                        } else {
                            assert(reachable(store, dep, stack@[k]));
                            assert(dvals[j as int] == dep);
                            lemma_reach_prepend(store, last, dep, stack@[k]);
                        }
                    }
                    assert forall|k: int| s0.len() <= k < stack@.len() implies closed_in(
                        store,
                        stack@,
                        #[trigger] stack@[k],
                    ) by {
                        if k < s1.len() {
                            lemma_prefix_index(s2, stack@, k);
                            assert(stack@[k] == s1[k]);
                            assert(closed_in(store, s1, s1[k]));
                            lemma_closed_grows(store, s1, stack@, s1[k]);
                        }
                    }
                    assert forall|t: int| 0 <= t < j + 1 implies stack@.contains(#[trigger] dvals[t]) by {
                        if t < j {
                            assert(s1.contains(dvals[t]));
                            let a = choose|a: int| 0 <= a < s1.len() && s1[a] == dvals[t];
                            lemma_prefix_index(s2, stack@, a);
                            assert(stack@[a] == dvals[t]);
                        } else {
                            assert(stack@[s1.len() as int] == dvals[t]);
                        }
                    }
                }
            } else {
                assert(dvals[j as int] == dep);
            }
            j = j + 1;
        }
        proof {
            assert(stack@[s0.len() - 1] == last);
            assert forall|k: int| s0.len() - 1 <= k < stack@.len() implies closed_in(
                store,
                stack@,
                #[trigger] stack@[k],
            ) by {
                if k == s0.len() - 1 {
                    assert forall|t: int| 0 <= t < deps_of(store, last).len() implies stack@.contains(
                        #[trigger] deps_of(store, last)[t],
                    ) by {
                        assert(stack@.contains(dvals[t]));
                    }
                }
            }
        }
    }
}

fn contains_module(v: &Vec<Module>, m: Module) -> (r: bool)
    ensures
        r == v@.contains(m),
{
    let mut i: usize = 0;
    while i < v.len()
        invariant
            i <= v@.len(),
            forall|k: int| 0 <= k < i ==> v@[k] != m,
        decreases v@.len() - i,
    {
        if v[i] == m {
            assert(v@[i as int] == m);
            return true;
        }
        i = i + 1;
    }
    false
}

/// Gives the modules of a `ModuleDag` from the last one found back to the root.
pub struct ModuleDagIter {
    stack: Vec<Module>,
}

impl ModuleDagIter {
    /// The modules still to be given, the next one last.
    pub closed spec fn stack(&self) -> Seq<Module> {
        self.stack@
    }

    /// The next module, if any are left.
    pub fn next(&mut self) -> (r: Option<Module>)
        ensures
            old(self).stack().len() > 0 ==> r == Some(old(self).stack().last()) && final(self).stack()
                == old(self).stack().drop_last(),
            old(self).stack().len() == 0 ==> r is None && final(self).stack() == old(self).stack(),
    {
        self.stack.pop()
    }
}

} // verus!
