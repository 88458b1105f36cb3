use vstd::prelude::*;

use crate::ast::ast;
use crate::compiler::ast_store::AstStore;
use crate::compiler::str_store::MStr;
use crate::hir::hir;
use crate::index_vec::{IdMap, Indexer};

verus! {

/// Why naming stopped: the source uses a form that naming does not handle yet.
#[derive(Debug, Clone, Copy, PartialEq, Eq, Structural)]
pub enum NameHalt {
    /// A name inside a function is taken from another module.
    QualifiedName,
}

/// The position of a scope in the symbol table.
#[derive(Debug, Clone, Copy, PartialEq, Eq, Structural)]
pub struct Scope(usize);

impl Scope {
    /// The position of the scope.
    pub closed spec fn pos(&self) -> nat {
        self.0 as nat
    }
}

/// The names a scope declares, and the scope around it (none for the root).
pub struct ScopeValue {
    pub parent: Option<Scope>,
    pub decls: IdMap<MStr, ast::Decl>,
}

impl ScopeValue {
    /// The root scope: nothing around it, nothing declared.
    pub fn new_root() -> (r: Self)
        ensures
            r.parent is None,
            r.decls.wf(),
            r.decls.keys().len() == 0,
            r.decls.as_map() == Map::<MStr, ast::Decl>::empty(),
    {
        ScopeValue { parent: None, decls: IdMap::new() }
    }

    /// A scope inside `parent`, with nothing declared.
    pub fn new_child(parent: Scope) -> (r: Self)
        ensures
            r.parent == Some(parent),
            r.decls.wf(),
            r.decls.keys().len() == 0,
            r.decls.as_map() == Map::<MStr, ast::Decl>::empty(),
    {
        ScopeValue { parent: Some(parent), decls: IdMap::new() }
    }
}

/// The declaration that `name` means in the scope at `s`: the nearest scope, going outwards,
/// that declares it.
pub open spec fn lookup(scopes: Seq<ScopeValue>, s: nat, name: MStr) -> Option<ast::Decl>
    decreases s,
{
    if s >= scopes.len() {
        None
    } else if scopes[s as int].decls.as_map().contains_key(name) {
        Some(scopes[s as int].decls.as_map()[name])
    } else {
        match scopes[s as int].parent {
            Some(p) => if p.pos() < s {
                lookup(scopes, p.pos(), name)
            } else {
                None
            },
            None => None,
        }
    }
}

/// The scopes of `new` are those of `old`, unchanged, then scopes that declare nothing.
pub open spec fn scopes_grow(old: Seq<ScopeValue>, new: Seq<ScopeValue>) -> bool {
    &&& old.len() <= new.len()
    &&& forall|s: int| 0 <= s < old.len() ==> #[trigger] new[s] == old[s]
    &&& forall|s: int| old.len() <= s < new.len() ==> (#[trigger] new[s]).decls.keys().len() == 0
}

/// `e` is a name used in the tree whose meaning in the scope `s` is `d`.
pub open spec fn resolves(scopes: Seq<ScopeValue>, s: Scope, ast_store: &AstStore, e: ast::Expr, d: Option<ast::Decl>) -> bool {
    &&& ast_store.has_expr(e)
    &&& ast_store.exprs()[e.id() as int] matches ast::ExprValue::Identifier(i)
    &&& lookup(scopes, s.pos(), i.name) == d
}

/// From `old` to `new`, every name bound anew means what the scope `s` declares for it, and
/// every name recorded as unknown anew is declared by no scope around `s`.
pub open spec fn bindings_from(old: &SymTable, new: &SymTable, ast_store: &AstStore, s: Scope) -> bool {
    &&& forall|e: ast::Expr| #[trigger] new.idents().contains_key(e) ==> (old.idents().contains_key(e)
        && new.idents()[e] == old.idents()[e]) || resolves(new.scopes(), s, ast_store, e, Some(new.idents()[e]))
    &&& forall|e: ast::Expr| #[trigger] old.idents().contains_key(e) ==> new.idents().contains_key(e)
    &&& old.unknown().is_prefix_of(new.unknown())
    &&& forall|k: int| old.unknown().len() <= k < new.unknown().len() ==> resolves(new.scopes(), s, ast_store, #[trigger] new.unknown()[k], None)
}

/// `x` is a name that no scope around `s` declares.
pub open spec fn undeclared_name(scopes: Seq<ScopeValue>, s: Scope, store: Seq<ast::ExprValue>, x: ast::Expr) -> bool {
    x.id() < store.len() && match store[x.id() as int] {
        ast::ExprValue::Identifier(i) => lookup(scopes, s.pos(), i.name) is None,
        _ => false,
    }
}

/// What `add_decl` of `d` records as unknown, going from `t0` to `t1`: the names unknown before,
/// and the names in the body of `d` that no scope around the current one declares.
pub open spec fn unknown_step(t0: &SymTable, t1: &SymTable, ast_store: &AstStore, d: ast::Decl) -> bool {
    forall|x: ast::Expr| #[trigger] t1.unknown().contains(x) <==> (t0.unknown().contains(x) || (ast::reaches_any(
        ast_store.exprs(),
        ast::decl_children(ast_store.decls()[d.id() as int]),
        x,
    ) && undeclared_name(t1.scopes(), t0.current(), ast_store.exprs(), x)))
}

/// Starting from a fresh table and declaring `ds` one after another, a name ends up recorded as
/// unknown exactly when one of the declarations has it in its body and, when that declaration
/// was added, no scope around the current one declared it.
pub proof fn lemma_unknown_history(ts: Seq<SymTable>, ds: Seq<ast::Decl>, ast_store: &AstStore, x: ast::Expr)
    requires
        ts.len() == ds.len() + 1,
        ts[0].unknown() == Seq::<ast::Expr>::empty(),
        forall|k: int| 0 <= k < ds.len() ==> #[trigger] unknown_step(&ts[k], &ts[k + 1], ast_store, ds[k]),
    ensures
        ts.last().unknown().contains(x) <==> exists|k: int| 0 <= k < ds.len() && #[trigger] ast::reaches_any(
            ast_store.exprs(),
            ast::decl_children(ast_store.decls()[ds[k].id() as int]),
            x,
        ) && undeclared_name(ts[k + 1].scopes(), ts[k].current(), ast_store.exprs(), x),
    decreases ds.len(),
{
    if ds.len() == 0 {
        assert(!ts[0].unknown().contains(x));
    } else {
        let n = ds.len() - 1;
        let ts0 = ts.drop_last();
        let ds0 = ds.drop_last();
        assert forall|k: int| 0 <= k < ds0.len() implies #[trigger] unknown_step(&ts0[k], &ts0[k + 1], ast_store, ds0[k]) by {
            assert(ts0[k] == ts[k] && ts0[k + 1] == ts[k + 1] && ds0[k] == ds[k]);
            assert(unknown_step(&ts[k], &ts[k + 1], ast_store, ds[k]));
        }
        lemma_unknown_history(ts0, ds0, ast_store, x);
        assert(unknown_step(&ts[n], &ts[n + 1], ast_store, ds[n]));
        assert(ts0.last() == ts[n]);
        if ts.last().unknown().contains(x) {
            if !ts[n].unknown().contains(x) {
                assert(ast::reaches_any(ast_store.exprs(), ast::decl_children(ast_store.decls()[ds[n].id() as int]), x));
            } else {
                let k = choose|k: int| 0 <= k < ds0.len() && #[trigger] ast::reaches_any(
                    ast_store.exprs(),
                    ast::decl_children(ast_store.decls()[ds0[k].id() as int]),
                    x,
                ) && undeclared_name(ts0[k + 1].scopes(), ts0[k].current(), ast_store.exprs(), x);
                assert(ds0[k] == ds[k] && ts0[k + 1] == ts[k + 1] && ts0[k] == ts[k]);
            }
        }
        if exists|k: int| 0 <= k < ds.len() && #[trigger] ast::reaches_any(
            ast_store.exprs(),
            ast::decl_children(ast_store.decls()[ds[k].id() as int]),
            x,
        ) && undeclared_name(ts[k + 1].scopes(), ts[k].current(), ast_store.exprs(), x) {
            let k = choose|k: int| 0 <= k < ds.len() && #[trigger] ast::reaches_any(
                ast_store.exprs(),
                ast::decl_children(ast_store.decls()[ds[k].id() as int]),
                x,
            ) && undeclared_name(ts[k + 1].scopes(), ts[k].current(), ast_store.exprs(), x);
            if k < n {
                assert(ds0[k] == ds[k] && ts0[k + 1] == ts[k + 1] && ts0[k] == ts[k]);
                assert(ts[n].unknown().contains(x));
            }
        }
    }
}

/// If `x` is a name, it is bound to the declaration it means in the scope `s`, or, when no scope
/// around `s` declares it, recorded as unknown.
pub open spec fn settled(t: &SymTable, store: Seq<ast::ExprValue>, s: Scope, x: ast::Expr) -> bool {
    x.id() < store.len() ==> match store[x.id() as int] {
        ast::ExprValue::Identifier(i) => match lookup(t.scopes(), s.pos(), i.name) {
            Some(d) => t.idents().contains_key(x) && t.idents()[x] == d,
            None => t.unknown().contains(x),
        },
        _ => true,
    }
}

/// Each name bound anew from `old` to `new`, and each name recorded anew as unknown, is one of
/// the expressions that `within` holds of.
pub open spec fn new_names_within(old: &SymTable, new: &SymTable, within: spec_fn(ast::Expr) -> bool) -> bool {
    &&& forall|e: ast::Expr| #[trigger] new.idents().contains_key(e) && !old.idents().contains_key(e) ==> within(e)
    &&& forall|k: int| old.unknown().len() <= k < new.unknown().len() ==> within(#[trigger] new.unknown()[k])
}

/// The names recorded as unknown anew are exactly the names of `es`, or inside them, that no
/// scope around `s` declares, when each of those is settled and nothing else was recorded.
proof fn lemma_unknown_exact(t0: &SymTable, t1: &SymTable, ast_store: &AstStore, s: Scope, es: Seq<ast::Expr>)
    requires
        bindings_from(t0, t1, ast_store, s),
        new_names_within(t0, t1, |x: ast::Expr| ast::reaches_any(ast_store.exprs(), es, x)),
        forall|x: ast::Expr| #[trigger] ast::reaches_any(ast_store.exprs(), es, x) ==> settled(t1, ast_store.exprs(), s, x),
    ensures
        forall|x: ast::Expr| #[trigger] t1.unknown().contains(x) <==> (t0.unknown().contains(x) || (ast::reaches_any(
            ast_store.exprs(),
            es,
            x,
        ) && undeclared_name(t1.scopes(), s, ast_store.exprs(), x))),
{
    let store = ast_store.exprs();
    assert forall|x: ast::Expr| #[trigger] t1.unknown().contains(x) implies (t0.unknown().contains(x) || (ast::reaches_any(
        store,
        es,
        x,
    ) && undeclared_name(t1.scopes(), s, store, x))) by {
        let k = choose|k: int| 0 <= k < t1.unknown().len() && t1.unknown()[k] == x;
        if k < t0.unknown().len() {
            assert(t1.unknown().subrange(0, t0.unknown().len() as int)[k] == t1.unknown()[k]);
            assert(t0.unknown()[k] == x);
        } else {
            assert(resolves(t1.scopes(), s, ast_store, t1.unknown()[k], None));
        }
    }
    assert forall|x: ast::Expr| t0.unknown().contains(x) implies #[trigger] t1.unknown().contains(x) by {
        let k = choose|k: int| 0 <= k < t0.unknown().len() && t0.unknown()[k] == x;
        assert(t1.unknown().subrange(0, t0.unknown().len() as int)[k] == t1.unknown()[k]);
    }
}

proof fn lemma_within_trans(
    t0: &SymTable,
    t1: &SymTable,
    t2: &SymTable,
    w1: spec_fn(ast::Expr) -> bool,
    w2: spec_fn(ast::Expr) -> bool,
    w: spec_fn(ast::Expr) -> bool,
)
    requires
        new_names_within(t0, t1, w1),
        new_names_within(t1, t2, w2),
        t0.unknown().is_prefix_of(t1.unknown()),
        t1.unknown().is_prefix_of(t2.unknown()),
        forall|x: ast::Expr| #[trigger] w1(x) ==> w(x),
        forall|x: ast::Expr| #[trigger] w2(x) ==> w(x),
    ensures
        new_names_within(t0, t2, w),
{
    assert forall|k: int| t0.unknown().len() <= k < t2.unknown().len() implies w(#[trigger] t2.unknown()[k]) by {
        if k < t1.unknown().len() {
            assert(t2.unknown().subrange(0, t1.unknown().len() as int)[k] == t2.unknown()[k]);
            assert(w1(t1.unknown()[k]));
        } else {
            assert(w2(t2.unknown()[k]));
        }
    }
    assert forall|e: ast::Expr| #[trigger] t2.idents().contains_key(e) && !t0.idents().contains_key(e) implies w(e) by {
        if t1.idents().contains_key(e) {
            assert(w1(e));
        } else {
            assert(w2(e));
        }
    }
}

/// A name settled stays settled while names are bound in `s` and empty scopes are added.
proof fn lemma_settled_keep(t1: &SymTable, t2: &SymTable, ast_store: &AstStore, s: Scope, x: ast::Expr)
    requires
        settled(t1, ast_store.exprs(), s, x),
        bindings_from(t1, t2, ast_store, s),
        scopes_grow(t1.scopes(), t2.scopes()),
        s.pos() < t1.scopes().len(),
    ensures
        settled(t2, ast_store.exprs(), s, x),
{
    if x.id() < ast_store.exprs().len() {
        if let ast::ExprValue::Identifier(i) = ast_store.exprs()[x.id() as int] {
            lemma_lookup_grow(t1.scopes(), t2.scopes(), s.pos(), i.name);
            match lookup(t1.scopes(), s.pos(), i.name) {
                Some(d) => {
                    assert(t1.idents().contains_key(x));
                    assert(t2.idents().contains_key(x));
                },
                None => {
                    let k = choose|k: int| 0 <= k < t1.unknown().len() && t1.unknown()[k] == x;
                    assert(t2.unknown()[k] == t2.unknown().subrange(0, t1.unknown().len() as int)[k]);
                    assert(t2.unknown()[k] == x);
                },
            }
        }
    }
}

/// In a scope that declares nothing inside `s`, a name is settled exactly when it is settled in `s`.
proof fn lemma_settled_child(t: &SymTable, store: Seq<ast::ExprValue>, c: Scope, s: Scope, x: ast::Expr)
    requires
        c.pos() < t.scopes().len(),
        t.scopes()[c.pos() as int].decls.wf(),
        t.scopes()[c.pos() as int].decls.keys().len() == 0,
        t.scopes()[c.pos() as int].parent == Some(s),
        s.pos() < c.pos(),
    ensures
        settled(t, store, c, x) == settled(t, store, s, x),
{
    if x.id() < store.len() {
        if let ast::ExprValue::Identifier(i) = store[x.id() as int] {
            lemma_lookup_empty(t.scopes(), c.pos(), s, i.name);
        }
    }
}

proof fn lemma_bindings_refl(t: &SymTable, ast_store: &AstStore, s: Scope)
    ensures
        bindings_from(t, t, ast_store, s),
{
    assert(t.unknown().is_prefix_of(t.unknown()));
}

proof fn lemma_scopes_grow_refl(a: Seq<ScopeValue>)
    ensures
        scopes_grow(a, a),
{
}

proof fn lemma_scopes_grow_trans(a: Seq<ScopeValue>, b: Seq<ScopeValue>, c: Seq<ScopeValue>)
    requires
        scopes_grow(a, b),
        scopes_grow(b, c),
    ensures
        scopes_grow(a, c),
{
    assert forall|s: int| a.len() <= s < c.len() implies (#[trigger] c[s]).decls.keys().len() == 0 by {
        if s < b.len() {
            assert(c[s] == b[s]);
        }
    }
}

/// Adding scopes that declare nothing leaves what a name means in an old scope alone.
proof fn lemma_lookup_grow(a: Seq<ScopeValue>, b: Seq<ScopeValue>, s: nat, name: MStr)
    requires
        scopes_grow(a, b),
        s < a.len(),
    ensures
        lookup(b, s, name) == lookup(a, s, name),
    decreases s,
{
    assert(b[s as int] == a[s as int]);
    match a[s as int].parent {
        Some(p) => if p.pos() < s {
            lemma_lookup_grow(a, b, p.pos(), name);
        },
        None => {},
    }
}

/// In a scope that declares nothing, a name means what it means in the scope around it.
proof fn lemma_lookup_empty(b: Seq<ScopeValue>, c: nat, p: Scope, name: MStr)
    requires
        c < b.len(),
        b[c as int].decls.wf(),
        b[c as int].decls.keys().len() == 0,
        b[c as int].parent == Some(p),
        p.pos() < c,
    ensures
        lookup(b, c, name) == lookup(b, p.pos(), name),
{
    assert(!b[c as int].decls.keys().contains(name));
}

proof fn lemma_bindings_trans(t0: &SymTable, t1: &SymTable, t2: &SymTable, ast_store: &AstStore, s: Scope)
    requires
        bindings_from(t0, t1, ast_store, s),
        bindings_from(t1, t2, ast_store, s),
        scopes_grow(t1.scopes(), t2.scopes()),
        s.pos() < t1.scopes().len(),
    ensures
        bindings_from(t0, t2, ast_store, s),
{
    assert forall|e: ast::Expr| #[trigger] t2.idents().contains_key(e) implies (t0.idents().contains_key(e)
        && t2.idents()[e] == t0.idents()[e]) || resolves(t2.scopes(), s, ast_store, e, Some(t2.idents()[e])) by {
        if !resolves(t2.scopes(), s, ast_store, e, Some(t2.idents()[e])) {
            assert(t1.idents().contains_key(e) && t2.idents()[e] == t1.idents()[e]);
            if !(t0.idents().contains_key(e) && t1.idents()[e] == t0.idents()[e]) {
                assert(resolves(t1.scopes(), s, ast_store, e, Some(t1.idents()[e])));
                if let ast::ExprValue::Identifier(i) = ast_store.exprs()[e.id() as int] {
                    lemma_lookup_grow(t1.scopes(), t2.scopes(), s.pos(), i.name);
                }
            }
        }
    }
    crate::compiler::str_store::lemma_seq_prefix_trans(t0.unknown(), t1.unknown(), t2.unknown());
    assert forall|k: int| t0.unknown().len() <= k < t2.unknown().len() implies resolves(t2.scopes(), s, ast_store, #[trigger] t2.unknown()[k], None) by {
        if k < t1.unknown().len() {
            assert(t1.unknown()[k] == t2.unknown().subrange(0, t1.unknown().len() as int)[k]);
            assert(resolves(t1.scopes(), s, ast_store, t1.unknown()[k], None));
            if let ast::ExprValue::Identifier(i) = ast_store.exprs()[t1.unknown()[k].id() as int] {
                lemma_lookup_grow(t1.scopes(), t2.scopes(), s.pos(), i.name);
            }
        }
    }
}

/// Bindings made in a new empty scope inside `s` mean what they mean in `s`.
proof fn lemma_bindings_child(t0: &SymTable, t1: &SymTable, t2: &SymTable, ast_store: &AstStore, s: Scope)
    requires
        t0.wf(),
        t1.wf(),
        t2.wf(),
        s == t0.current(),
        t1.idents() == t0.idents(),
        t1.unknown() == t0.unknown(),
        t1.current().pos() == t0.scopes().len(),
        t1.scopes() == t0.scopes().push(t1.scopes()[t0.scopes().len() as int]),
        t1.scopes()[t0.scopes().len() as int].parent == Some(s),
        t1.scopes()[t0.scopes().len() as int].decls.keys().len() == 0,
        bindings_from(t1, t2, ast_store, t1.current()),
        scopes_grow(t1.scopes(), t2.scopes()),
    ensures
        bindings_from(t0, t2, ast_store, s),
{
    let c = t0.scopes().len();
    assert(t2.scopes()[c as int] == t1.scopes()[c as int]);
    assert forall|name: MStr| lookup(t2.scopes(), c, name) == lookup(t2.scopes(), s.pos(), name) by {
        lemma_lookup_empty(t2.scopes(), c, s, name);
    }
    assert forall|e: ast::Expr| #[trigger] t2.idents().contains_key(e) implies (t0.idents().contains_key(e)
        && t2.idents()[e] == t0.idents()[e]) || resolves(t2.scopes(), s, ast_store, e, Some(t2.idents()[e])) by {
        if !(t0.idents().contains_key(e) && t2.idents()[e] == t0.idents()[e]) {
            assert(resolves(t2.scopes(), t1.current(), ast_store, e, Some(t2.idents()[e])));
        }
    }
    assert forall|k: int| t0.unknown().len() <= k < t2.unknown().len() implies resolves(t2.scopes(), s, ast_store, #[trigger] t2.unknown()[k], None) by {
        assert(resolves(t2.scopes(), t1.current(), ast_store, t2.unknown()[k], None));
    }
}

/// The symbol table of one module: scopes of declarations, what each name used means, and which
/// tree nodes became which named nodes.
pub struct SymTable {
    current_scope: Scope,
    scopes: Vec<ScopeValue>,
    ident_map: IdMap<ast::Expr, ast::Decl>,
    expr_map: IdMap<ast::Expr, hir::Expr>,
    decl_map: IdMap<ast::Decl, hir::Decl>,
    uknown_idents: Vec<ast::Expr>,
}

impl SymTable {
    /// The scope names are declared in now.
    pub closed spec fn current(&self) -> Scope {
        self.current_scope
    }

    /// The scopes, the root first.
    pub closed spec fn scopes(&self) -> Seq<ScopeValue> {
        self.scopes@
    }

    /// The declaration each name used means.
    pub closed spec fn idents(&self) -> Map<ast::Expr, ast::Decl> {
        self.ident_map.as_map()
    }

    /// The named node of each tree node.
    pub closed spec fn exprs(&self) -> Map<ast::Expr, hir::Expr> {
        self.expr_map.as_map()
    }

    /// The named declaration of each declaration.
    pub closed spec fn decls(&self) -> Map<ast::Decl, hir::Decl> {
        self.decl_map.as_map()
    }

    /// The names used that no scope declares.
    pub closed spec fn unknown(&self) -> Seq<ast::Expr> {
        self.uknown_idents@
    }

    /// The names used, in the order they were first bound.
    pub closed spec fn ident_keys(&self) -> Seq<ast::Expr> {
        self.ident_map.keys()
    }

    /// The first scope is the root; every other scope lies inside one before it; the current
    /// scope exists; the maps are consistent.
    pub closed spec fn wf(&self) -> bool {
        &&& self.scopes@.len() > 0
        &&& self.scopes@[0].parent is None
        &&& forall|s: int|
            0 < s < self.scopes@.len() ==> ((#[trigger] self.scopes@[s]).parent matches Some(p) && p.pos() < s)
        &&& forall|s: int| 0 <= s < self.scopes@.len() ==> (#[trigger] self.scopes@[s]).decls.wf()
        &&& self.current_scope.pos() < self.scopes@.len()
        &&& self.ident_map.wf()
        &&& self.expr_map.wf()
        &&& self.decl_map.wf()
    }

    /// The current scope is one of the scopes.
    pub proof fn lemma_current_in(&self)
        requires
            self.wf(),
        ensures
            self.current().pos() < self.scopes().len(),
    {
    }

    /// A table with only the root scope, which is current.
    pub fn new() -> (r: Self)
        ensures
            r.wf(),
            r.current().pos() == 0,
            r.scopes().len() == 1,
            r.scopes()[0].parent is None,
            r.scopes()[0].decls.as_map() == Map::<MStr, ast::Decl>::empty(),
            r.idents() == Map::<ast::Expr, ast::Decl>::empty(),
            r.exprs() == Map::<ast::Expr, hir::Expr>::empty(),
            r.decls() == Map::<ast::Decl, hir::Decl>::empty(),
            r.unknown() == Seq::<ast::Expr>::empty(),
    {
        let mut scopes: Vec<ScopeValue> = Vec::new();
        scopes.push(ScopeValue::new_root());
        SymTable {
            current_scope: Scope(0),
            scopes,
            ident_map: IdMap::new(),
            expr_map: IdMap::new(),
            decl_map: IdMap::new(),
            uknown_idents: Vec::new(),
        }
    }

    /// Declares the type or function `decl` in the current scope, then binds the names used in a
    /// function's body, in a scope of its own inside the current one.
    pub fn add_decl(&mut self, ast_store: &AstStore, decl: ast::Decl) -> (r: Result<(), NameHalt>)
        requires
            old(self).wf(),
            ast_store.wf(),
            ast_store.has_decl(decl),
        ensures
            final(self).wf(),
            r is Ok ==> final(self).current() == old(self).current(),
            final(self).exprs() == old(self).exprs(),
            final(self).decls() == old(self).decls(),
            final(self).scopes().len() >= old(self).scopes().len(),
            r is Ok ==> match ast_store.decls()[decl.id() as int] {
                ast::DeclValue::Ty(t) => final(self).scopes()[old(self).current().pos() as int].decls.as_map()
                    == old(self).scopes()[old(self).current().pos() as int].decls.as_map().insert(t.name, decl),
                ast::DeclValue::Func(f) => final(self).scopes()[old(self).current().pos() as int].decls.as_map()
                    == old(self).scopes()[old(self).current().pos() as int].decls.as_map().insert(f.name, decl),
                _ => final(self).scopes() == old(self).scopes(),
            },
            !(ast_store.decls()[decl.id() as int] is Func) ==> final(self).idents() == old(self).idents()
                && final(self).unknown() == old(self).unknown(),
            r is Ok ==> forall|x: ast::Expr| #[trigger] ast::reaches_any(ast_store.exprs(), ast::decl_children(ast_store.decls()[decl.id() as int]), x)
                ==> settled(final(self), ast_store.exprs(), old(self).current(), x),
            r is Ok ==> forall|s: int| 0 <= s < final(self).scopes().len() && s != old(self).current().pos()
                ==> (#[trigger] final(self).scopes()[s]).decls.as_map() == (if s < old(self).scopes().len() {
                old(self).scopes()[s].decls.as_map()
            } else {
                Map::<MStr, ast::Decl>::empty()
            }),
            r is Ok ==> bindings_from(old(self), final(self), ast_store, old(self).current()),
            r is Ok ==> unknown_step(old(self), final(self), ast_store, decl),
            r is Ok ==> new_names_within(old(self), final(self), |x: ast::Expr| ast::reaches_any(
                ast_store.exprs(),
                ast::decl_children(ast_store.decls()[decl.id() as int]),
                x,
            )),
            r is Err <==> ast::any_qualified(ast_store.exprs(), ast::decl_children(ast_store.decls()[decl.id() as int])),
    {
        match ast_store.get_decl_value(decl) {
            ast::DeclValue::Ty(v) => {
                self.declare(v.name, decl);
                proof {
                    assert(old(self).unknown().is_prefix_of(self.unknown()));
                }
                Ok(())
            },
            ast::DeclValue::Func(v) => {
                self.declare(v.name, decl);
                let ghost t1 = self.scopes();
                let ghost s0 = self.current();
                let ghost td = *self;
                self.open_scope();
                let ghost to = *self;
                proof {
                    lemma_bindings_refl(&to, ast_store, to.current());
                }
                let mut i: usize = 0;
                while i < v.body.exprs.len()
                    invariant
                        self.wf(),
                        ast_store.wf(),
                        ast_store.has_decl(decl),
                        ast_store.decls()[decl.id() as int] == ast::DeclValue::Func(*v),
                        i <= v.body.exprs@.len(),
                        self.current().pos() == t1.len(),
                        self.scopes()[t1.len() as int].parent == Some(s0),
                        scopes_grow(t1, self.scopes()),
                        t1.len() == old(self).scopes().len(),
                        s0.pos() < t1.len(),
                        self.exprs() == old(self).exprs(),
                        self.decls() == old(self).decls(),
                        forall|k: int| 0 <= k < i ==> !(#[trigger] ast::qualified_in(ast_store.exprs(), v.body.exprs@[k])),
                        forall|k: int, x: ast::Expr| 0 <= k < i && #[trigger] ast::reaches(ast_store.exprs(), v.body.exprs@[k], x)
                            ==> settled(self, ast_store.exprs(), self.current(), x),
                        self.current() == to.current(),
                        scopes_grow(to.scopes(), self.scopes()),
                        bindings_from(&to, self, ast_store, to.current()),
                        new_names_within(&to, self, |x: ast::Expr| ast::reaches_any(ast_store.exprs(), v.body.exprs@, x)),
                    decreases v.body.exprs@.len() - i,
                {
                    assert(ast::all_below(ast::decl_children(ast_store.decls()[decl.id() as int]), ast_store.exprs().len()));
                    assert(v.body.exprs@[i as int].id() < ast_store.exprs().len());
                    let ghost tb = *self;
                    let res = self.map_expr_bindings(ast_store, v.body.exprs[i]);
                    proof {
                        lemma_scopes_grow_trans(t1, tb.scopes(), self.scopes());
                    }
                    match res {
                        Ok(()) => {},
                        Err(h) => {
                            return Err(h);
                        },
                    }
                    proof {
                        lemma_scopes_grow_trans(to.scopes(), tb.scopes(), self.scopes());
                        lemma_bindings_trans(&to, &tb, self, ast_store, to.current());
                        assert(to.unknown().is_prefix_of(tb.unknown()));
                        lemma_within_trans(&to, &tb, self, |x: ast::Expr| ast::reaches_any(ast_store.exprs(), v.body.exprs@, x),
                            |x: ast::Expr| ast::reaches(ast_store.exprs(), v.body.exprs@[i as int], x),
                            |x: ast::Expr| ast::reaches_any(ast_store.exprs(), v.body.exprs@, x));
                        assert forall|k: int, x: ast::Expr| 0 <= k < i + 1 && #[trigger] ast::reaches(ast_store.exprs(), v.body.exprs@[k], x)
                            implies settled(self, ast_store.exprs(), self.current(), x) by {
                            if k < i {
                                lemma_settled_keep(&tb, self, ast_store, self.current(), x);
                            }
                        }
                    }
                    i = i + 1;
                }
                let ghost t2 = *self;
                proof {
                    lemma_bindings_child(&td, &to, &t2, ast_store, s0);
                    assert forall|s: int| 0 <= s < t2.scopes().len() && s != s0.pos()
                        implies (#[trigger] t2.scopes()[s]).decls.as_map() == (if s < old(self).scopes().len() {
                        old(self).scopes()[s].decls.as_map()
                    } else {
                        Map::<MStr, ast::Decl>::empty()
                    }) by {
                        if s < t1.len() {
                            assert(t2.scopes()[s] == t1[s]);
                        } else {
                            assert(t2.scopes()[s].decls.keys().len() == 0);
                            assert(t2.scopes()[s].decls.as_map() =~= Map::<MStr, ast::Decl>::empty());
                        }
                    }
                }
                self.close_scope();
                proof {
                    assert(ast::decl_children(ast_store.decls()[decl.id() as int]) == v.body.exprs@);
                    assert forall|x: ast::Expr| #[trigger] ast::reaches_any(ast_store.exprs(), v.body.exprs@, x)
                        implies settled(self, ast_store.exprs(), s0, x) by {
                        let k = choose|k: int| 0 <= k < v.body.exprs@.len() && #[trigger] ast::reaches(ast_store.exprs(), v.body.exprs@[k], x);
                        lemma_settled_child(&t2, ast_store.exprs(), t2.current(), s0, x);
                    }
                    assert(bindings_from(old(self), self, ast_store, s0));
                    assert(new_names_within(old(self), self, |x: ast::Expr| ast::reaches_any(ast_store.exprs(), v.body.exprs@, x)));
                    lemma_unknown_exact(old(self), self, ast_store, s0, v.body.exprs@);
                }
                Ok(())
            },
            _ => {
                proof {
                    assert(old(self).unknown().is_prefix_of(self.unknown()));
                }
                Ok(())
            },
        }
    }

    /// Binds each name used in `expr` to the declaration it means in the current scope, or
    /// records it as unknown; a block gets a scope of its own inside the current one. Names
    /// taken from another module stop naming.
    fn map_expr_bindings(&mut self, ast_store: &AstStore, expr: ast::Expr) -> (r: Result<(), NameHalt>)
        requires
            old(self).wf(),
            ast_store.wf(),
            ast_store.has_expr(expr),
        ensures
            final(self).wf(),
            final(self).exprs() == old(self).exprs(),
            final(self).decls() == old(self).decls(),
            scopes_grow(old(self).scopes(), final(self).scopes()),
            r is Ok ==> final(self).current() == old(self).current(),
            r is Ok ==> bindings_from(old(self), final(self), ast_store, old(self).current()),
            r is Ok ==> forall|x: ast::Expr| #[trigger] ast::reaches(ast_store.exprs(), expr, x)
                ==> settled(final(self), ast_store.exprs(), old(self).current(), x),
            r is Ok ==> new_names_within(old(self), final(self), |x: ast::Expr| ast::reaches(ast_store.exprs(), expr, x)),
            r is Err <==> ast::qualified_in(ast_store.exprs(), expr),
        decreases expr.id(),
    {
        let ghost e0 = ast_store.exprs()[expr.id() as int];
        proof {
            assert(ast::all_below(ast::children(e0), expr.id()));
            lemma_bindings_refl(self, ast_store, self.current());
            lemma_scopes_grow_refl(self.scopes());
            if !(e0 is Identifier) {
                ast::lemma_qualified_children(ast_store.exprs(), expr);
            }
            ast::lemma_children_qualified(ast_store.exprs(), e0);
        }
        let ghost store = ast_store.exprs();
        let ghost s0 = self.current();
        match ast_store.get_expr_value(expr) {
            ast::ExprValue::Identifier(v) => {
                let res = self.map_binding(ast_store, expr, v);
                proof {
                    if res.is_ok() {
                        assert(old(self).unknown().is_prefix_of(old(self).unknown()));
                        lemma_within_trans(old(self), old(self), self, |x: ast::Expr| false, |x: ast::Expr| x == expr, |x: ast::Expr| ast::reaches(ast_store.exprs(), expr, x));
                        assert forall|x: ast::Expr| #[trigger] ast::reaches(store, expr, x) implies settled(self, store, s0, x) by {
                            ast::lemma_reaches_unfold(store, expr, x);
                            ast::lemma_children_reach(store, e0, x);
                        }
                    }
                }
                res
            },
            ast::ExprValue::Call(v) => {
                assert(ast::children(e0)[0] == v.func);
                let res = self.map_expr_bindings(ast_store, v.func);
                if res.is_err() {
                    return res;
                }
                assert forall|i: int| 0 <= i < v.args@.len() implies (#[trigger] v.args@[i]).id() < expr.id() by {
                    assert(ast::children(e0)[i + 1] == v.args@[i]);
                }
                let ghost t1 = *self;
                let res2 = self.map_all(ast_store, &v.args, Ghost(expr.id()));
                proof {
                    lemma_scopes_grow_trans(old(self).scopes(), t1.scopes(), self.scopes());
                    if res2.is_ok() {
                        lemma_bindings_trans(old(self), &t1, self, ast_store, old(self).current());
                        assert forall|x: ast::Expr| #[trigger] ast::reaches(ast_store.exprs(), v.func, x) implies ast::reaches(ast_store.exprs(), expr, x) by {
                            ast::lemma_reaches_unfold(store, expr, x);
                            ast::lemma_children_reach(store, e0, x);
                        }
                        assert forall|x: ast::Expr| #[trigger] ast::reaches_any(ast_store.exprs(), v.args@, x) implies ast::reaches(ast_store.exprs(), expr, x) by {
                            ast::lemma_reaches_unfold(store, expr, x);
                            ast::lemma_children_reach(store, e0, x);
                        }
                        lemma_within_trans(old(self), &t1, self, |x: ast::Expr| ast::reaches(ast_store.exprs(), v.func, x),
                            |x: ast::Expr| ast::reaches_any(ast_store.exprs(), v.args@, x), |x: ast::Expr| ast::reaches(ast_store.exprs(), expr, x));
                        assert forall|x: ast::Expr| #[trigger] ast::reaches(store, expr, x) implies settled(self, store, s0, x) by {
                            ast::lemma_reaches_unfold(store, expr, x);
                            ast::lemma_children_reach(store, e0, x);
                            if ast::reaches(store, v.func, x) {
                                lemma_settled_keep(&t1, self, ast_store, s0, x);
                            }
                        }
                    }
                }
                res2
            },
            ast::ExprValue::Block(v) => {
                let ghost t0 = *self;
                self.open_scope();
                let ghost t1 = *self;
                let res = self.map_all(ast_store, &v.exprs, Ghost(expr.id()));
                if res.is_err() {
                    proof {
                        lemma_scopes_grow_trans(t0.scopes(), t1.scopes(), self.scopes());
                    }
                    return res;
                }
                let ghost t2 = *self;
                proof {
                    lemma_scopes_grow_trans(t0.scopes(), t1.scopes(), self.scopes());
                    lemma_bindings_child(&t0, &t1, self, ast_store, s0);
                    assert(self.scopes()[t1.current().pos() as int] == t1.scopes()[t1.current().pos() as int]);
                }
                self.close_scope();
                proof {
                    assert forall|x: ast::Expr| #[trigger] ast::reaches(store, expr, x) implies settled(self, store, s0, x) by {
                        ast::lemma_reaches_unfold(store, expr, x);
                        ast::lemma_children_reach(store, e0, x);
                        lemma_settled_child(&t2, store, t1.current(), s0, x);
                    }
                    assert forall|x: ast::Expr| #[trigger] ast::reaches_any(ast_store.exprs(), v.exprs@, x) implies ast::reaches(ast_store.exprs(), expr, x) by {
                        ast::lemma_reaches_unfold(store, expr, x);
                        ast::lemma_children_reach(store, e0, x);
                    }
                    assert(t0.unknown().is_prefix_of(t1.unknown()));
                    lemma_within_trans(&t0, &t1, &t2, |x: ast::Expr| false, |x: ast::Expr| ast::reaches_any(ast_store.exprs(), v.exprs@, x), |x: ast::Expr| ast::reaches(ast_store.exprs(), expr, x));
                    assert(new_names_within(old(self), self, |x: ast::Expr| ast::reaches(ast_store.exprs(), expr, x)));
                }
                Ok(())
            },
            ast::ExprValue::Return(v) => match v.value {
                Some(value) => {
                    assert(ast::children(e0)[0] == value);
                    let res = self.map_expr_bindings(ast_store, value);
                    proof {
                        if res.is_ok() {
                            assert forall|x: ast::Expr| #[trigger] ast::reaches(ast_store.exprs(), value, x) implies ast::reaches(ast_store.exprs(), expr, x) by {
                                ast::lemma_reaches_unfold(store, expr, x);
                                ast::lemma_children_reach(store, e0, x);
                            }
                            assert(old(self).unknown().is_prefix_of(old(self).unknown()));
                            lemma_within_trans(old(self), old(self), self, |x: ast::Expr| false, |x: ast::Expr| ast::reaches(ast_store.exprs(), value, x), |x: ast::Expr| ast::reaches(ast_store.exprs(), expr, x));
                            assert forall|x: ast::Expr| #[trigger] ast::reaches(store, expr, x) implies settled(self, store, s0, x) by {
                                ast::lemma_reaches_unfold(store, expr, x);
                                ast::lemma_children_reach(store, e0, x);
                            }
                        }
                    }
                    res
                },
                None => {
                    proof {
                        assert forall|x: ast::Expr| #[trigger] ast::reaches(store, expr, x) implies settled(self, store, s0, x) by {
                            ast::lemma_reaches_unfold(store, expr, x);
                            ast::lemma_children_reach(store, e0, x);
                        }
                    }
                    Ok(())
                },
            },
            ast::ExprValue::If(v) => {
                assert(ast::children(e0)[0] == v.check);
                let ghost t0 = *self;
                let res = self.map_expr_bindings(ast_store, v.check);
                if res.is_err() {
                    return res;
                }
                let ghost t1 = *self;
                assert forall|i: int| 0 <= i < v.success.exprs@.len() implies (#[trigger] v.success.exprs@[i]).id() < expr.id() by {
                    assert(ast::children(e0)[i + 1] == v.success.exprs@[i]);
                }
                let res2 = self.map_all_tail(ast_store, &v.success.exprs, Ghost(expr.id()), Ghost(e0));
                proof {
                    lemma_scopes_grow_trans(t0.scopes(), t1.scopes(), self.scopes());
                    if res2.is_ok() {
                        lemma_bindings_trans(&t0, &t1, self, ast_store, t0.current());
                        assert forall|x: ast::Expr| #[trigger] ast::reaches(ast_store.exprs(), v.check, x) implies ast::reaches(ast_store.exprs(), expr, x) by {
                            ast::lemma_reaches_unfold(store, expr, x);
                            ast::lemma_children_reach(store, e0, x);
                        }
                        assert forall|x: ast::Expr| #[trigger] ast::reaches_any(ast_store.exprs(), v.success.exprs@, x) implies ast::reaches(ast_store.exprs(), expr, x) by {
                            ast::lemma_reaches_unfold(store, expr, x);
                            ast::lemma_children_reach(store, e0, x);
                        }
                        lemma_within_trans(&t0, &t1, self, |x: ast::Expr| ast::reaches(ast_store.exprs(), v.check, x),
                            |x: ast::Expr| ast::reaches_any(ast_store.exprs(), v.success.exprs@, x), |x: ast::Expr| ast::reaches(ast_store.exprs(), expr, x));
                        assert forall|x: ast::Expr| #[trigger] ast::reaches(store, expr, x) implies settled(self, store, s0, x) by {
                            ast::lemma_reaches_unfold(store, expr, x);
                            ast::lemma_children_reach(store, e0, x);
                            if ast::reaches(store, v.check, x) {
                                lemma_settled_keep(&t1, self, ast_store, s0, x);
                            }
                        }
                    }
                }
                res2
            },
            ast::ExprValue::Loop(v) => {
                let res = self.map_all(ast_store, &v.body.exprs, Ghost(expr.id()));
                proof {
                    if res.is_ok() {
                        assert forall|x: ast::Expr| #[trigger] ast::reaches_any(ast_store.exprs(), v.body.exprs@, x) implies ast::reaches(ast_store.exprs(), expr, x) by {
                            ast::lemma_reaches_unfold(store, expr, x);
                            ast::lemma_children_reach(store, e0, x);
                        }
                        assert(old(self).unknown().is_prefix_of(old(self).unknown()));
                        lemma_within_trans(old(self), old(self), self, |x: ast::Expr| false, |x: ast::Expr| ast::reaches_any(ast_store.exprs(), v.body.exprs@, x), |x: ast::Expr| ast::reaches(ast_store.exprs(), expr, x));
                        assert forall|x: ast::Expr| #[trigger] ast::reaches(store, expr, x) implies settled(self, store, s0, x) by {
                            ast::lemma_reaches_unfold(store, expr, x);
                            ast::lemma_children_reach(store, e0, x);
                        }
                    }
                }
                res
            },
            ast::ExprValue::Range(v) => {
                assert(ast::children(e0)[0] == v.start);
                assert(ast::children(e0)[1] == v.end);
                let res = self.map_two(ast_store, v.start, v.end, Ghost(expr.id()));
                proof {
                    if res.is_ok() {
                        assert forall|x: ast::Expr| #[trigger] ast::reaches(ast_store.exprs(), v.start, x) || ast::reaches(ast_store.exprs(), v.end, x) implies ast::reaches(ast_store.exprs(), expr, x) by {
                            ast::lemma_reaches_unfold(store, expr, x);
                            ast::lemma_children_reach(store, e0, x);
                        }
                        assert(old(self).unknown().is_prefix_of(old(self).unknown()));
                        lemma_within_trans(old(self), old(self), self, |x: ast::Expr| false, |x: ast::Expr| ast::reaches(ast_store.exprs(), v.start, x) || ast::reaches(ast_store.exprs(), v.end, x), |x: ast::Expr| ast::reaches(ast_store.exprs(), expr, x));
                        assert forall|x: ast::Expr| #[trigger] ast::reaches(store, expr, x) implies settled(self, store, s0, x) by {
                            ast::lemma_reaches_unfold(store, expr, x);
                            ast::lemma_children_reach(store, e0, x);
                        }
                    }
                }
                res
            },
            ast::ExprValue::Binary(v) => {
                assert(ast::children(e0)[0] == v.left);
                assert(ast::children(e0)[1] == v.right);
                let res = self.map_two(ast_store, v.left, v.right, Ghost(expr.id()));
                proof {
                    if res.is_ok() {
                        assert forall|x: ast::Expr| #[trigger] ast::reaches(ast_store.exprs(), v.left, x) || ast::reaches(ast_store.exprs(), v.right, x) implies ast::reaches(ast_store.exprs(), expr, x) by {
                            ast::lemma_reaches_unfold(store, expr, x);
                            ast::lemma_children_reach(store, e0, x);
                        }
                        assert(old(self).unknown().is_prefix_of(old(self).unknown()));
                        lemma_within_trans(old(self), old(self), self, |x: ast::Expr| false, |x: ast::Expr| ast::reaches(ast_store.exprs(), v.left, x) || ast::reaches(ast_store.exprs(), v.right, x), |x: ast::Expr| ast::reaches(ast_store.exprs(), expr, x));
                        assert forall|x: ast::Expr| #[trigger] ast::reaches(store, expr, x) implies settled(self, store, s0, x) by {
                            ast::lemma_reaches_unfold(store, expr, x);
                            ast::lemma_children_reach(store, e0, x);
                        }
                    }
                }
                res
            },
            _ => {
                proof {
                    assert forall|x: ast::Expr| #[trigger] ast::reaches(store, expr, x) implies settled(self, store, s0, x) by {
                        ast::lemma_reaches_unfold(store, expr, x);
                        ast::lemma_children_reach(store, e0, x);
                    }
                }
                Ok(())
            },
        }
    }

    /// Binds the names used in `a`, then in `b`.
    fn map_two(&mut self, ast_store: &AstStore, a: ast::Expr, b: ast::Expr, Ghost(bound): Ghost<nat>) -> (r: Result<(), NameHalt>)
        requires
            old(self).wf(),
            ast_store.wf(),
            a.id() < bound,
            b.id() < bound,
            bound <= ast_store.exprs().len(),
        ensures
            final(self).wf(),
            final(self).exprs() == old(self).exprs(),
            final(self).decls() == old(self).decls(),
            scopes_grow(old(self).scopes(), final(self).scopes()),
            r is Ok ==> final(self).current() == old(self).current(),
            r is Ok ==> bindings_from(old(self), final(self), ast_store, old(self).current()),
            r is Ok ==> forall|x: ast::Expr| #[trigger] ast::reaches(ast_store.exprs(), a, x)
                ==> settled(final(self), ast_store.exprs(), old(self).current(), x),
            r is Ok ==> forall|x: ast::Expr| #[trigger] ast::reaches(ast_store.exprs(), b, x)
                ==> settled(final(self), ast_store.exprs(), old(self).current(), x),
            r is Ok ==> new_names_within(old(self), final(self), |x: ast::Expr| ast::reaches(ast_store.exprs(), a, x)
                || ast::reaches(ast_store.exprs(), b, x)),
            r is Err <==> (ast::qualified_in(ast_store.exprs(), a) || ast::qualified_in(ast_store.exprs(), b)),
        decreases bound, 0nat,
    {
        let ghost t0 = *self;
        let res = self.map_expr_bindings(ast_store, a);
        if res.is_err() {
            return res;
        }
        let ghost t1 = *self;
        let res2 = self.map_expr_bindings(ast_store, b);
        proof {
            lemma_scopes_grow_trans(t0.scopes(), t1.scopes(), self.scopes());
            if res2.is_ok() {
                lemma_bindings_trans(&t0, &t1, self, ast_store, t0.current());
                assert forall|x: ast::Expr| #[trigger] ast::reaches(ast_store.exprs(), a, x)
                    implies settled(self, ast_store.exprs(), t0.current(), x) by {
                    lemma_settled_keep(&t1, self, ast_store, t0.current(), x);
                }
                lemma_within_trans(&t0, &t1, self, |x: ast::Expr| ast::reaches(ast_store.exprs(), a, x), |x: ast::Expr| ast::reaches(ast_store.exprs(), b, x),
                    |x: ast::Expr| ast::reaches(ast_store.exprs(), a, x) || ast::reaches(ast_store.exprs(), b, x));
            }
        }
        res2
    }

    /// Binds the names used in each expression of `exprs`, in order.
    fn map_all(&mut self, ast_store: &AstStore, exprs: &Vec<ast::Expr>, Ghost(bound): Ghost<nat>) -> (r: Result<(), NameHalt>)
        requires
            old(self).wf(),
            ast_store.wf(),
            ast::all_below(exprs@, bound),
            bound <= ast_store.exprs().len(),
        ensures
            final(self).wf(),
            final(self).exprs() == old(self).exprs(),
            final(self).decls() == old(self).decls(),
            scopes_grow(old(self).scopes(), final(self).scopes()),
            r is Ok ==> final(self).current() == old(self).current(),
            r is Ok ==> bindings_from(old(self), final(self), ast_store, old(self).current()),
            r is Ok ==> forall|x: ast::Expr| #[trigger] ast::reaches_any(ast_store.exprs(), exprs@, x)
                ==> settled(final(self), ast_store.exprs(), old(self).current(), x),
            r is Ok ==> new_names_within(old(self), final(self), |x: ast::Expr| ast::reaches_any(ast_store.exprs(), exprs@, x)),
            r is Err <==> ast::any_qualified(ast_store.exprs(), exprs@),
        decreases bound, 0nat,
    {
        let ghost t0 = *self;
        proof {
            lemma_bindings_refl(self, ast_store, self.current());
            lemma_scopes_grow_refl(self.scopes());
        }
        let mut i: usize = 0;
        while i < exprs.len()
            invariant
                self.wf(),
                ast_store.wf(),
                ast::all_below(exprs@, bound),
                bound <= ast_store.exprs().len(),
                i <= exprs@.len(),
                t0 == *old(self),
                self.exprs() == t0.exprs(),
                self.decls() == t0.decls(),
                scopes_grow(t0.scopes(), self.scopes()),
                self.current() == t0.current(),
                bindings_from(&t0, self, ast_store, t0.current()),
                forall|k: int| 0 <= k < i ==> !(#[trigger] ast::qualified_in(ast_store.exprs(), exprs@[k])),
                forall|k: int, x: ast::Expr| 0 <= k < i && #[trigger] ast::reaches(ast_store.exprs(), exprs@[k], x)
                    ==> settled(self, ast_store.exprs(), t0.current(), x),
                new_names_within(&t0, self, |x: ast::Expr| ast::reaches_any(ast_store.exprs(), exprs@, x)),
            decreases exprs@.len() - i,
        {
            let ghost t1 = *self;
            let res = self.map_expr_bindings(ast_store, exprs[i]);
            proof {
                lemma_scopes_grow_trans(t0.scopes(), t1.scopes(), self.scopes());
            }
            if res.is_err() {
                assert(ast::qualified_in(ast_store.exprs(), exprs@[i as int]));
                return res;
            }
            proof {
                lemma_bindings_trans(&t0, &t1, self, ast_store, t0.current());
                assert(t0.unknown().is_prefix_of(t1.unknown()));
                lemma_within_trans(&t0, &t1, self, |x: ast::Expr| ast::reaches_any(ast_store.exprs(), exprs@, x),
                    |x: ast::Expr| ast::reaches(ast_store.exprs(), exprs@[i as int], x), |x: ast::Expr| ast::reaches_any(ast_store.exprs(), exprs@, x));
                assert forall|k: int, x: ast::Expr| 0 <= k < i + 1 && #[trigger] ast::reaches(ast_store.exprs(), exprs@[k], x)
                    implies settled(self, ast_store.exprs(), t0.current(), x) by {
                    if k < i {
                        lemma_settled_keep(&t1, self, ast_store, t0.current(), x);
                    }
                }
            }
            i = i + 1;
        }
        proof {
            assert forall|x: ast::Expr| #[trigger] ast::reaches_any(ast_store.exprs(), exprs@, x)
                implies settled(self, ast_store.exprs(), t0.current(), x) by {
                let k = choose|k: int| 0 <= k < exprs@.len() && #[trigger] ast::reaches(ast_store.exprs(), exprs@[k], x);
            }
        }
        Ok(())
    }

    /// Binds the names used in each expression of `exprs`, whose ids lie below that of the
    /// expression `e0` holding them.
    fn map_all_tail(&mut self, ast_store: &AstStore, exprs: &Vec<ast::Expr>, Ghost(bound): Ghost<nat>, Ghost(e0): Ghost<ast::ExprValue>) -> (r: Result<(), NameHalt>)
        requires
            old(self).wf(),
            ast_store.wf(),
            ast::all_below(exprs@, bound),
            bound <= ast_store.exprs().len(),
        ensures
            final(self).wf(),
            final(self).exprs() == old(self).exprs(),
            final(self).decls() == old(self).decls(),
            scopes_grow(old(self).scopes(), final(self).scopes()),
            r is Ok ==> final(self).current() == old(self).current(),
            r is Ok ==> bindings_from(old(self), final(self), ast_store, old(self).current()),
            r is Ok ==> forall|x: ast::Expr| #[trigger] ast::reaches_any(ast_store.exprs(), exprs@, x)
                ==> settled(final(self), ast_store.exprs(), old(self).current(), x),
            r is Ok ==> new_names_within(old(self), final(self), |x: ast::Expr| ast::reaches_any(ast_store.exprs(), exprs@, x)),
            r is Err <==> ast::any_qualified(ast_store.exprs(), exprs@),
        decreases bound, 1nat,
    {
        self.map_all(ast_store, exprs, Ghost(bound))
    }

    /// Binds the name `ident` used at `expr` to the declaration it means in the current scope, or
    /// records it as unknown.
    fn map_binding(&mut self, ast_store: &AstStore, expr: ast::Expr, ident: &ast::IdentifierExpr) -> (r: Result<(), NameHalt>)
        requires
            old(self).wf(),
            ast_store.has_expr(expr),
            ast_store.exprs()[expr.id() as int] == ast::ExprValue::Identifier(*ident),
        ensures
            final(self).wf(),
            final(self).exprs() == old(self).exprs(),
            final(self).decls() == old(self).decls(),
            final(self).scopes() == old(self).scopes(),
            final(self).current() == old(self).current(),
            ident.module is Some <==> r is Err,
            r is Ok ==> bindings_from(old(self), final(self), ast_store, old(self).current()),
            r is Ok ==> settled(final(self), ast_store.exprs(), old(self).current(), expr),
            r is Ok ==> new_names_within(old(self), final(self), |x: ast::Expr| x == expr),
    {
        if ident.module.is_some() {
            return Err(NameHalt::QualifiedName);
        }
        match self.search_scope(self.current_scope, expr, ident.name) {
            Some(decl) => {
                self.ident_map.insert(expr, decl);
                proof {
                    assert forall|e: ast::Expr| #[trigger] self.idents().contains_key(e) implies (old(self).idents().contains_key(e)
                        && self.idents()[e] == old(self).idents()[e]) || resolves(self.scopes(), old(self).current(), ast_store, e, Some(self.idents()[e])) by {
                    }
                    assert(old(self).unknown().is_prefix_of(self.unknown()));
                }
            },
            None => {
                self.uknown_idents.push(expr);
                proof {
                    assert(old(self).unknown().is_prefix_of(self.unknown()));
                    assert(self.unknown()[old(self).unknown().len() as int] == expr);
                    assert(self.unknown().contains(expr));
                }
            },
        }
        Ok(())
    }

    /// The declaration `ident` means in the scope `scope`.
    fn search_scope(&self, scope: Scope, expr: ast::Expr, ident: MStr) -> (r: Option<ast::Decl>)
        requires
            self.wf(),
            scope.pos() < self.scopes().len(),
        ensures
            r == lookup(self.scopes(), scope.pos(), ident),
        decreases scope.pos(),
    {
        let scope_value = &self.scopes[scope.0];
        match scope_value.decls.get(&ident) {
            Some(decl) => Some(*decl),
            None => match scope_value.parent {
                Some(parent) => {
                    if scope.0 == 0 {
                        return None;
                    }
                    self.search_scope(parent, expr, ident)
                },
                None => None,
            },
        }
    }

    /// Records that the declaration `ast_decl` became `hir_decl`.
    pub fn map_decl(&mut self, ast_decl: ast::Decl, hir_decl: hir::Decl)
        requires
            old(self).wf(),
        ensures
            final(self).wf(),
            final(self).decls() == old(self).decls().insert(ast_decl, hir_decl),
            final(self).exprs() == old(self).exprs(),
            final(self).idents() == old(self).idents(),
            final(self).ident_keys() == old(self).ident_keys(),
            final(self).unknown() == old(self).unknown(),
            final(self).scopes() == old(self).scopes(),
            final(self).current() == old(self).current(),
    {
        self.decl_map.insert(ast_decl, hir_decl);
    }

    /// Records that the expression `ast_expr` became `hir_expr`.
    pub fn map_expr(&mut self, ast_expr: ast::Expr, hir_expr: hir::Expr)
        requires
            old(self).wf(),
        ensures
            final(self).wf(),
            final(self).exprs() == old(self).exprs().insert(ast_expr, hir_expr),
            final(self).decls() == old(self).decls(),
            final(self).idents() == old(self).idents(),
            final(self).ident_keys() == old(self).ident_keys(),
            final(self).unknown() == old(self).unknown(),
            final(self).scopes() == old(self).scopes(),
            final(self).current() == old(self).current(),
    {
        self.expr_map.insert(ast_expr, hir_expr);
    }

    /// Every name bound, and the declaration it means, became a named node.
    pub open spec fn named_all(&self) -> bool {
        forall|e: ast::Expr| #[trigger] self.idents().contains_key(e) ==> self.exprs().contains_key(e)
            && self.decls().contains_key(self.idents()[e])
    }

    /// Each named node of a name bound, mapped to the named declaration it means.
    pub fn get_ident_map(&self) -> (r: IdMap<hir::Expr, hir::Decl>)
        requires
            self.wf(),
            self.named_all(),
        ensures
            r.wf(),
            forall|e: ast::Expr| #[trigger] self.idents().contains_key(e) ==> r.as_map().contains_key(self.exprs()[e]),
            forall|h: hir::Expr| #[trigger] r.as_map().contains_key(h) ==> exists|e: ast::Expr|
                #[trigger] self.idents().contains_key(e) && self.exprs()[e] == h && r.as_map()[h] == self.decls()[self.idents()[e]],
    {
        let mut ident_map: IdMap<hir::Expr, hir::Decl> = IdMap::new();
        let n = self.ident_map.len();
        let mut i: usize = 0;
        while i < n
            invariant
                self.wf(),
                self.named_all(),
                n == self.ident_map.keys().len(),
                i <= n,
                ident_map.wf(),
                forall|k: int| 0 <= k < i ==> ident_map.as_map().contains_key(self.exprs()[#[trigger] self.ident_map.keys()[k]]),
                forall|h: hir::Expr| #[trigger] ident_map.as_map().contains_key(h) ==> exists|e: ast::Expr|
                    #[trigger] self.idents().contains_key(e) && self.exprs()[e] == h && ident_map.as_map()[h] == self.decls()[self.idents()[e]],
            decreases n - i,
        {
            let (expr, decl) = self.ident_map.entry(i);
            proof {
                assert(self.ident_map.keys().contains(expr)) by {
                    assert(self.ident_map.keys()[i as int] == expr);
                }
                assert(self.ident_map.keys().index_of(expr) == i) by {
                    assert(self.ident_map.keys()[i as int] == expr);
                }
                assert(self.idents().contains_key(expr));
            }
            let hir_decl = match self.decl_map.get(decl) {
                Some(d) => *d,
                None => {
                    assert(false);
                    return ident_map;
                },
            };
            let hir_expr = match self.expr_map.get(&expr) {
                Some(x) => *x,
                None => {
                    assert(false);
                    return ident_map;
                },
            };
            ident_map.insert(hir_expr, hir_decl);
            i = i + 1;
        }
        proof {
            assert forall|e: ast::Expr| #[trigger] self.idents().contains_key(e) implies ident_map.as_map().contains_key(self.exprs()[e]) by {
                let k = self.ident_map.keys().index_of(e);
                assert(self.ident_map.keys().contains(e));
                assert(self.ident_map.keys()[k] == e);
            }
        }
        ident_map
    }

    /// Whether the name used at `expr` is declared by no scope.
    pub fn is_unknown_identifier(&self, expr: ast::Expr) -> (r: bool)
        ensures
            r == self.unknown().contains(expr),
    {
        let mut i: usize = 0;
        while i < self.uknown_idents.len()
            invariant
                i <= self.unknown().len(),
                forall|k: int| 0 <= k < i ==> self.unknown()[k] != expr,
            decreases self.unknown().len() - i,
        {
            if self.uknown_idents[i] == expr {
                assert(self.unknown()[i as int] == expr);
                return true;
            }
            i = i + 1;
        }
        false
    }

    fn declare(&mut self, name: MStr, decl: ast::Decl)
        requires
            old(self).wf(),
        ensures
            final(self).wf(),
            final(self).current() == old(self).current(),
            final(self).idents() == old(self).idents(),
            final(self).exprs() == old(self).exprs(),
            final(self).decls() == old(self).decls(),
            final(self).unknown() == old(self).unknown(),
            final(self).scopes().len() == old(self).scopes().len(),
            forall|s: int| 0 <= s < old(self).scopes().len() && s != old(self).current().pos() ==> #[trigger] final(self).scopes()[s] == old(self).scopes()[s],
            final(self).scopes()[old(self).current().pos() as int].parent == old(self).scopes()[old(self).current().pos() as int].parent,
            final(self).scopes()[old(self).current().pos() as int].decls.as_map()
                == old(self).scopes()[old(self).current().pos() as int].decls.as_map().insert(name, decl),
    {
        let c = self.current_scope.0;
        self.scopes[c].decls.insert(name, decl);
    }

    /// Makes a new scope, inside the current one, current.
    fn open_scope(&mut self)
        requires
            old(self).wf(),
        ensures
            final(self).wf(),
            final(self).current().pos() == old(self).scopes().len(),
            final(self).scopes() == old(self).scopes().push(
                final(self).scopes()[old(self).scopes().len() as int],
            ),
            final(self).scopes()[old(self).scopes().len() as int].parent == Some(old(self).current()),
            final(self).scopes()[old(self).scopes().len() as int].decls.keys().len() == 0,
            final(self).idents() == old(self).idents(),
            final(self).exprs() == old(self).exprs(),
            final(self).decls() == old(self).decls(),
            final(self).unknown() == old(self).unknown(),
    {
        let next_scope_value = ScopeValue::new_child(self.current_scope);
        let scope = Scope(self.scopes.len());
        self.scopes.push(next_scope_value);
        self.current_scope = scope;
    }

    /// The current scope.
    fn get_current_scope_vaue(&self) -> (r: &ScopeValue)
        requires
            self.wf(),
        ensures
            *r == self.scopes()[self.current().pos() as int],
    {
        &self.scopes[self.current_scope.0]
    }

    /// Makes the scope around the current one current.
    fn close_scope(&mut self)
        requires
            old(self).wf(),
            old(self).scopes()[old(self).current().pos() as int].parent is Some,
        ensures
            final(self).wf(),
            final(self).current() == old(self).scopes()[old(self).current().pos() as int].parent->0,
            final(self).scopes() == old(self).scopes(),
            final(self).idents() == old(self).idents(),
            final(self).exprs() == old(self).exprs(),
            final(self).decls() == old(self).decls(),
            final(self).unknown() == old(self).unknown(),
    {
        match self.get_current_scope_vaue().parent {
            Some(parent) => self.current_scope = parent,
            None => {},
        }
    }
}

} // verus!
