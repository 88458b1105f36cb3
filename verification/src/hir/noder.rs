pub mod checker;
pub mod decl;
pub mod expr;
pub mod sym_table;

use vstd::prelude::*;

use crate::ast::ast;
use crate::ast::lexer::Pos;
use crate::compiler::context::Context;
use crate::compiler::module::Module;
use crate::compiler::str_store::{interned, lemma_interned_prefix, lemma_seq_prefix_trans, MStr};
use crate::hir::hir;
use crate::hir::noder::checker::Checker;
use crate::hir::noder::decl::{decl_alias_unknown, decl_named, lemma_decl_named_grow, node_decl};
use crate::hir::noder::sym_table::{lookup, NameHalt, ScopeValue, SymTable};
use crate::index_vec::Indexer;
use crate::types::checked_ty::{CheckedTy, CheckedTyModel, CheckedTyValue};
use crate::types::unchecked_ty::{UncheckedTy, UncheckedTyValue};

verus! {

/// Why naming or checking stopped: the module uses a form that is not handled yet.
#[derive(Debug, Clone, Copy, PartialEq, Eq, Structural)]
pub enum NodeHalt {
    /// A name inside a function is taken from another module.
    QualifiedName,
    /// A module alias names no module the module uses.
    UnknownModule,
    /// A name used was not bound by the symbol table.
    UnboundIdentifier,
    /// The type of a name used is not worked out yet.
    IdentifierType,
    /// Something that is not a function is called.
    CallOfNonFunction,
    /// A function's declared type is not a function type.
    InvalidFunctionType,
    /// A call has a different number of arguments than the function has parameters.
    ArgumentCount,
    /// An argument's type differs from its parameter's.
    ArgumentType,
    /// An expression got no type (a `return`).
    UntypedExpression,
}

/// Some function of the module `m` names, in its body, something taken from another module.
pub open spec fn module_qualified(ctx: &Context, m: Module) -> bool {
    let decls = ctx.modules()[m.id() as int].ast@;
    exists|k: int|
        0 <= k < decls.len() && #[trigger] ast::any_qualified(
            ctx.ast_store.exprs(),
            ast::decl_children(ctx.ast_store.decls()[decls[k].id() as int]),
        )
}

/// The type of some type or function declaration of the module `m` names a module alias that
/// the module does not use.
pub open spec fn module_alias_unknown(ctx: &Context, m: Module) -> bool {
    let decls = ctx.modules()[m.id() as int].ast@;
    exists|k: int|
        0 <= k < decls.len() && #[trigger] decl_alias_unknown(
            ctx.unchecked_ty_store@,
            ctx.ast_store.decls()[decls[k].id() as int],
            ctx.modules()[m.id() as int].deps.as_map(),
        )
}

/// What naming keeps: the context stays consistent; the strings, syntax trees, unchecked types
/// and modules are untouched; the checked types and the named trees only grow.
pub open spec fn node_frame(c0: &Context, c1: &Context) -> bool {
    &&& c1.wf()
    &&& c1.str_store == c0.str_store
    &&& c1.ast_store == c0.ast_store
    &&& c1.unchecked_ty_store == c0.unchecked_ty_store
    &&& c1.module_store == c0.module_store
    &&& c0.checked_ty_store@.is_prefix_of(c1.checked_ty_store@)
    &&& c1.hir_store.extends(&c0.hir_store)
}

/// `t` is the id that `store` gives the checked type `m`.
pub open spec fn names_cty(store: Seq<CheckedTyModel>, t: CheckedTy, m: CheckedTyModel) -> bool {
    &&& store.contains(m)
    &&& t.id() == (store.index_of(m) as u32) as nat
}

pub proof fn lemma_node_frame_refl(c: &Context)
    requires
        c.wf(),
    ensures
        node_frame(c, c),
{
    assert(c.checked_ty_store@.is_prefix_of(c.checked_ty_store@));
    assert(c.hir_store.decls().is_prefix_of(c.hir_store.decls()));
    assert(c.hir_store.decl_starts().is_prefix_of(c.hir_store.decl_starts()));
    assert(c.hir_store.exprs().is_prefix_of(c.hir_store.exprs()));
    assert(c.hir_store.expr_starts().is_prefix_of(c.hir_store.expr_starts()));
}

pub proof fn lemma_node_frame_trans(c0: &Context, c1: &Context, c2: &Context)
    requires
        node_frame(c0, c1),
        node_frame(c1, c2),
    ensures
        node_frame(c0, c2),
{
    lemma_seq_prefix_trans(c0.checked_ty_store@, c1.checked_ty_store@, c2.checked_ty_store@);
    lemma_seq_prefix_trans(c0.hir_store.decls(), c1.hir_store.decls(), c2.hir_store.decls());
    lemma_seq_prefix_trans(c0.hir_store.exprs(), c1.hir_store.exprs(), c2.hir_store.exprs());
    lemma_seq_prefix_trans(c0.hir_store.decl_starts(), c1.hir_store.decl_starts(), c2.hir_store.decl_starts());
    lemma_seq_prefix_trans(c0.hir_store.expr_starts(), c1.hir_store.expr_starts(), c2.hir_store.expr_starts());
}

/// A named declaration that is a function has a type recorded for each expression of its body.
pub open spec fn func_typed(ctx: &Context, d: hir::Decl) -> bool {
    ctx.hir_store.decls()[d.id() as int] matches hir::DeclValue::Func(f) ==> forall|i: int|
        0 <= i < f.body.exprs@.len() ==> ctx.hir_store.types().contains_key(#[trigger] f.body.exprs@[i])
}

/// The named declaration `d`, if it is a function, has a function type.
pub open spec fn func_type_ok(ctx: &Context, d: hir::Decl) -> bool {
    ctx.hir_store.decls()[d.id() as int] matches hir::DeclValue::Func(f) ==> f.ty.id() < ctx.checked_ty_store@.len()
        && ctx.checked_ty_store@[f.ty.id() as int] is Func
}

/// Each named declaration of the module is stored, and each function among them has a type
/// recorded for each expression of its body.
pub open spec fn typed_module(ctx: &Context, m: Module) -> bool {
    let decls = ctx.modules()[m.id() as int].hir@;
    &&& forall|k: int| 0 <= k < decls.len() ==> ctx.hir_store.has_decl(#[trigger] decls[k])
    &&& forall|k: int| 0 <= k < decls.len() ==> func_typed(ctx, #[trigger] decls[k])
}

/// The declarations of `ds` that become named declarations: all but `mod` and `use`, in order.
pub open spec fn named_decls(store: Seq<ast::DeclValue>, ds: Seq<ast::Decl>) -> Seq<ast::Decl>
    decreases ds.len(),
{
    if ds.len() == 0 {
        Seq::empty()
    } else {
        let rest = named_decls(store, ds.drop_last());
        match store[ds.last().id() as int] {
            ast::DeclValue::Mod(_) => rest,
            ast::DeclValue::Use(_) => rest,
            _ => rest.push(ds.last()),
        }
    }
}

/// The named declarations `hs` are, in order, the named forms of the declarations `ds`.
pub open spec fn decls_named(ctx: &Context, m: Module, store: Seq<ast::DeclValue>, ds: Seq<ast::Decl>, hs: Seq<hir::Decl>) -> bool {
    &&& hs.len() == ds.len()
    &&& forall|k: int| 0 <= k < hs.len() ==> #[trigger] decl_named(ctx, m, store[ds[k].id() as int], ctx.hir_store.decls()[hs[k].id() as int])
}

/// `d` is one of the declarations `ds` of the module, a type alias or a function.
pub open spec fn declared_decl(store: Seq<ast::DeclValue>, ds: Seq<ast::Decl>, d: ast::Decl) -> bool {
    exists|j: int| 0 <= j < ds.len() && #[trigger] ds[j] == d && (store[d.id() as int] is Ty || store[d.id() as int] is Func)
}

/// Every declaration the scopes declare is one of `ds`, a type alias or a function.
pub open spec fn scopes_declare(scopes: Seq<ScopeValue>, store: Seq<ast::DeclValue>, ds: Seq<ast::Decl>) -> bool {
    forall|s: int, n: MStr| 0 <= s < scopes.len() && #[trigger] scopes[s].decls.as_map().contains_key(n)
        ==> declared_decl(store, ds, scopes[s].decls.as_map()[n])
}

/// `e` is a function body's expression, or an expression inside one, of the declarations `ds`.
pub open spec fn in_some_body(exprs: Seq<ast::ExprValue>, store: Seq<ast::DeclValue>, ds: Seq<ast::Decl>, e: ast::Expr) -> bool {
    exists|k: int| 0 <= k < ds.len() && #[trigger] ast::reaches_any(exprs, ast::decl_children(store[ds[k].id() as int]), e)
}

/// What a name means in scopes that declare only declarations of `ds` is one of them.
pub proof fn lemma_lookup_declared(scopes: Seq<ScopeValue>, s: nat, name: MStr, store: Seq<ast::DeclValue>, ds: Seq<ast::Decl>)
    requires
        scopes_declare(scopes, store, ds),
    ensures
        lookup(scopes, s, name) matches Some(d) ==> declared_decl(store, ds, d),
    decreases s,
{
    if s < scopes.len() && !scopes[s as int].decls.as_map().contains_key(name) {
        match scopes[s as int].parent {
            Some(p) => if p.pos() < s {
                lemma_lookup_declared(scopes, p.pos(), name, store, ds);
            },
            None => {},
        }
    }
}

/// Declaring one more declaration of `ds` keeps the scopes declaring only declarations of `ds`,
/// and keeps each bound name meaning one of them and lying in some function body.
proof fn lemma_add_decl_kept(ast_store: &crate::compiler::ast_store::AstStore, t0: &SymTable, t1: &SymTable, ds: Seq<ast::Decl>, i: int)
    requires
        t0.wf(),
        t1.wf(),
        0 <= i < ds.len(),
        ds[i].id() < ast_store.decls().len(),
        t0.current().pos() < t0.scopes().len(),
        scopes_declare(t0.scopes(), ast_store.decls(), ds),
        forall|e: ast::Expr| #[trigger] t0.idents().contains_key(e) ==> declared_decl(ast_store.decls(), ds, t0.idents()[e])
            && in_some_body(ast_store.exprs(), ast_store.decls(), ds, e),
        t1.scopes().len() >= t0.scopes().len(),
        match ast_store.decls()[ds[i].id() as int] {
            ast::DeclValue::Ty(t) => t1.scopes()[t0.current().pos() as int].decls.as_map()
                == t0.scopes()[t0.current().pos() as int].decls.as_map().insert(t.name, ds[i]),
            ast::DeclValue::Func(f) => t1.scopes()[t0.current().pos() as int].decls.as_map()
                == t0.scopes()[t0.current().pos() as int].decls.as_map().insert(f.name, ds[i]),
            _ => t1.scopes() == t0.scopes(),
        },
        forall|s: int| 0 <= s < t1.scopes().len() && s != t0.current().pos()
            ==> (#[trigger] t1.scopes()[s]).decls.as_map() == (if s < t0.scopes().len() {
            t0.scopes()[s].decls.as_map()
        } else {
            Map::<MStr, ast::Decl>::empty()
        }),
        crate::hir::noder::sym_table::bindings_from(t0, t1, ast_store, t0.current()),
        crate::hir::noder::sym_table::new_names_within(t0, t1, |x: ast::Expr| ast::reaches_any(
            ast_store.exprs(),
            ast::decl_children(ast_store.decls()[ds[i].id() as int]),
            x,
        )),
    ensures
        scopes_declare(t1.scopes(), ast_store.decls(), ds),
        forall|e: ast::Expr| #[trigger] t1.idents().contains_key(e) ==> declared_decl(ast_store.decls(), ds, t1.idents()[e])
            && in_some_body(ast_store.exprs(), ast_store.decls(), ds, e),
{
    let store = ast_store.decls();
    let c = t0.current().pos() as int;
    assert forall|s: int, n: MStr| 0 <= s < t1.scopes().len() && #[trigger] t1.scopes()[s].decls.as_map().contains_key(n)
        implies declared_decl(store, ds, t1.scopes()[s].decls.as_map()[n]) by {
        if s != c {
            if s < t0.scopes().len() {
                assert(t1.scopes()[s].decls.as_map() == t0.scopes()[s].decls.as_map());
                assert(t0.scopes()[s].decls.as_map().contains_key(n));
                assert(declared_decl(store, ds, t0.scopes()[s].decls.as_map()[n]));
                assert(declared_decl(store, ds, t1.scopes()[s].decls.as_map()[n]));
            } else {
                assert(t1.scopes()[s].decls.as_map() == Map::<MStr, ast::Decl>::empty());
                assert(false);
            }
        } else {
            match store[ds[i].id() as int] {
                ast::DeclValue::Ty(t) => {
                    if n == t.name {
                        assert(t1.scopes()[s].decls.as_map()[n] == ds[i]);
                        assert(declared_decl(store, ds, ds[i]));
                        assert(declared_decl(store, ds, t1.scopes()[s].decls.as_map()[n]));
                    } else {
                        assert(t0.scopes()[s].decls.as_map().contains_key(n));
                        assert(t1.scopes()[s].decls.as_map()[n] == t0.scopes()[s].decls.as_map()[n]);
                        assert(declared_decl(store, ds, t1.scopes()[s].decls.as_map()[n]));
                    }
                },
                ast::DeclValue::Func(f) => {
                    if n == f.name {
                        assert(t1.scopes()[s].decls.as_map()[n] == ds[i]);
                        assert(declared_decl(store, ds, ds[i]));
                        assert(declared_decl(store, ds, t1.scopes()[s].decls.as_map()[n]));
                    } else {
                        assert(t0.scopes()[s].decls.as_map().contains_key(n));
                        assert(t1.scopes()[s].decls.as_map()[n] == t0.scopes()[s].decls.as_map()[n]);
                        assert(declared_decl(store, ds, t1.scopes()[s].decls.as_map()[n]));
                    }
                },
                _ => {
                    assert(t1.scopes()[s] == t0.scopes()[s]);
                    assert(t0.scopes()[s].decls.as_map().contains_key(n));
                    assert(declared_decl(store, ds, t1.scopes()[s].decls.as_map()[n]));
                },
            }
        }
    }
    assert forall|e: ast::Expr| #[trigger] t1.idents().contains_key(e) implies declared_decl(store, ds, t1.idents()[e])
        && in_some_body(ast_store.exprs(), store, ds, e) by {
        if !(t0.idents().contains_key(e) && t1.idents()[e] == t0.idents()[e]) {
            assert(crate::hir::noder::sym_table::resolves(t1.scopes(), t0.current(), ast_store, e, Some(t1.idents()[e])));
            if let ast::ExprValue::Identifier(x) = ast_store.exprs()[e.id() as int] {
                lemma_lookup_declared(t1.scopes(), t0.current().pos(), x.name, store, ds);
            }
        }
        if !t0.idents().contains_key(e) {
            assert(ast::reaches_any(ast_store.exprs(), ast::decl_children(store[ds[i].id() as int]), e));
        }
    }
}

/// The module's named declarations can be checked: each function has a function type, and the
/// expressions of its body hold, where checking looks, no name, call, parameter or `return`.
pub open spec fn module_checkable(ctx: &Context, m: Module) -> bool {
    let hs = ctx.modules()[m.id() as int].hir@;
    forall|k: int| 0 <= k < hs.len() ==> #[trigger] func_type_ok(ctx, hs[k]) && (ctx.hir_store.decls()[hs[k].id() as int]
        matches hir::DeclValue::Func(f) ==> forall|i: int| 0 <= i < f.body.exprs@.len()
        ==> crate::hir::noder::checker::check_simple(ctx.hir_store.exprs(), #[trigger] f.body.exprs@[i]))
}

/// Builds the named tree of one module from its syntax tree, then checks its types.
pub struct Noder {
    module: Module,
}

impl Noder {
    /// The module being named.
    pub closed spec fn module(&self) -> Module {
        self.module
    }

    /// A noder for `module`.
    pub fn new(ctx: &Context, module: Module) -> (r: Self)
        requires
            ctx.has_module(module),
        ensures
            r.module() == module,
    {
        Noder { module }
    }

    /// Stores a named declaration that starts at `start`.
    pub fn get_decl(&self, ctx: &mut Context, start: Pos, decl: hir::DeclValue) -> (r: hir::Decl)
        requires
            old(ctx).wf(),
            hir::all_below(hir::decl_children(decl), old(ctx).hir_store.exprs().len()),
        ensures
            node_frame(old(ctx), final(ctx)),
            final(ctx).checked_ty_store == old(ctx).checked_ty_store,
            final(ctx).hir_store.decls() == old(ctx).hir_store.decls().push(decl),
            final(ctx).hir_store.exprs() == old(ctx).hir_store.exprs(),
            final(ctx).hir_store.types() == old(ctx).hir_store.types(),
            r.id() == (old(ctx).hir_store.decls().len() as u32) as nat,
            r.id() < final(ctx).hir_store.decls().len(),
    {
        let r = ctx.hir_store.get_decl(start, decl);
        proof {
            Context::lemma_grown_wf(old(ctx), ctx);
            assert(old(ctx).checked_ty_store@.is_prefix_of(ctx.checked_ty_store@));
        }
        r
    }

    /// The named declaration `decl` names.
    pub fn get_hir_decl_value<'c>(&self, ctx: &'c Context, decl: hir::Decl) -> (r: &'c hir::DeclValue)
        requires
            ctx.hir_store.has_decl(decl),
        ensures
            *r == ctx.hir_store.decls()[decl.id() as int],
    {
        ctx.hir_store.get_decl_value(decl)
    }

    /// The declaration `decl` names.
    pub fn get_ast_decl_value<'c>(&self, ctx: &'c Context, decl: ast::Decl) -> (r: &'c ast::DeclValue)
        requires
            ctx.ast_store.has_decl(decl),
        ensures
            *r == ctx.ast_store.decls()[decl.id() as int],
    {
        ctx.ast_store.get_decl_value(decl)
    }

    /// Where the declaration `decl` names starts.
    pub fn get_decl_start(&self, ctx: &Context, decl: ast::Decl) -> (r: Pos)
        requires
            ctx.wf(),
            ctx.ast_store.has_decl(decl),
        ensures
            r == ctx.ast_store.decl_starts()[decl.id() as int],
    {
        ctx.ast_store.get_decl_start(decl)
    }

    /// Stores a named expression that starts at `start`.
    pub fn get_expr(&self, ctx: &mut Context, start: Pos, expr: hir::ExprValue) -> (r: hir::Expr)
        requires
            old(ctx).wf(),
            hir::all_below(hir::children(expr), old(ctx).hir_store.exprs().len()),
        ensures
            node_frame(old(ctx), final(ctx)),
            final(ctx).checked_ty_store == old(ctx).checked_ty_store,
            final(ctx).hir_store.exprs() == old(ctx).hir_store.exprs().push(expr),
            final(ctx).hir_store.expr_starts() == old(ctx).hir_store.expr_starts().push(start),
            final(ctx).hir_store.decls() == old(ctx).hir_store.decls(),
            final(ctx).hir_store.types() == old(ctx).hir_store.types(),
            r.id() == (old(ctx).hir_store.exprs().len() as u32) as nat,
            r.id() < final(ctx).hir_store.exprs().len(),
    {
        let r = ctx.hir_store.get_expr(start, expr);
        proof {
            Context::lemma_grown_wf(old(ctx), ctx);
            assert(old(ctx).checked_ty_store@.is_prefix_of(ctx.checked_ty_store@));
        }
        r
    }

    /// The named expression `expr` names.
    pub fn get_hir_expr_value<'c>(&self, ctx: &'c Context, expr: hir::Expr) -> (r: &'c hir::ExprValue)
        requires
            ctx.hir_store.has_expr(expr),
        ensures
            *r == ctx.hir_store.exprs()[expr.id() as int],
    {
        ctx.hir_store.get_expr_value(expr)
    }

    /// The expression `expr` names.
    pub fn get_ast_expr_value<'c>(&self, ctx: &'c Context, expr: ast::Expr) -> (r: &'c ast::ExprValue)
        requires
            ctx.ast_store.has_expr(expr),
        ensures
            *r == ctx.ast_store.exprs()[expr.id() as int],
    {
        ctx.ast_store.get_expr_value(expr)
    }

    /// Where the expression `expr` names starts.
    pub fn get_expr_start(&self, ctx: &Context, expr: ast::Expr) -> (r: Pos)
        requires
            ctx.wf(),
            ctx.ast_store.has_expr(expr),
        ensures
            r == ctx.ast_store.expr_starts()[expr.id() as int],
    {
        ctx.ast_store.get_expr_start(expr)
    }

    /// The type found for `expr`.
    pub fn get_expr_ty(&self, ctx: &Context, expr: hir::Expr) -> (r: CheckedTy)
        requires
            ctx.wf(),
            ctx.hir_store.types().contains_key(expr),
        ensures
            r == ctx.hir_store.types()[expr],
    {
        ctx.hir_store.get_expr_ty(expr)
    }

    /// Interns the checked type `ty`.
    pub fn get_checked_ty(&self, ctx: &mut Context, ty: CheckedTyValue) -> (r: CheckedTy)
        requires
            old(ctx).wf(),
        ensures
            node_frame(old(ctx), final(ctx)),
            final(ctx).hir_store == old(ctx).hir_store,
            final(ctx).checked_ty_store@ == interned(old(ctx).checked_ty_store@, ty@),
            names_cty(final(ctx).checked_ty_store@, r, ty@),
            r.id() < final(ctx).checked_ty_store@.len(),
    {
        let r = ctx.checked_ty_store.get_ty(ty);
        proof {
            lemma_interned_prefix(old(ctx).checked_ty_store@, ty@);
            Context::lemma_grown_wf(old(ctx), ctx);
            lemma_node_frame_refl(old(ctx));
        }
        r
    }

    /// The checked type `ty` names.
    pub fn get_checked_ty_value<'c>(&self, ctx: &'c Context, ty: CheckedTy) -> (r: &'c CheckedTyValue)
        requires
            ty.id() < ctx.checked_ty_store@.len(),
        ensures
            r@ == ctx.checked_ty_store@[ty.id() as int],
    {
        ctx.checked_ty_store.get_ty_value(ty)
    }

    /// The unchecked type `ty` names.
    pub fn get_unchecked_ty_value<'c>(&self, ctx: &'c Context, ty: UncheckedTy) -> (r: &'c UncheckedTyValue)
        requires
            ty.id() < ctx.unchecked_ty_store@.len(),
        ensures
            r@ == ctx.unchecked_ty_store@[ty.id() as int],
    {
        ctx.unchecked_ty_store.get_ty_value(ty)
    }

    /// Records `ty` as the type of `expr`.
    pub fn map_ty(&self, ctx: &mut Context, expr: hir::Expr, ty: CheckedTy)
        requires
            old(ctx).wf(),
        ensures
            node_frame(old(ctx), final(ctx)),
            final(ctx).checked_ty_store == old(ctx).checked_ty_store,
            final(ctx).hir_store.types() == old(ctx).hir_store.types().insert(expr, ty),
            final(ctx).hir_store.exprs() == old(ctx).hir_store.exprs(),
            final(ctx).hir_store.decls() == old(ctx).hir_store.decls(),
    {
        ctx.hir_store.map_ty(expr, ty);
        proof {
            Context::lemma_grown_wf(old(ctx), ctx);
            lemma_node_frame_refl(old(ctx));
        }
    }

    /// Interns the checked type `ty` and records it as the type of `expr`.
    pub fn map_ty_value(&self, ctx: &mut Context, expr: hir::Expr, ty: CheckedTyValue)
        requires
            old(ctx).wf(),
        ensures
            node_frame(old(ctx), final(ctx)),
            final(ctx).checked_ty_store@ == interned(old(ctx).checked_ty_store@, ty@),
            final(ctx).hir_store.types().contains_key(expr),
            names_cty(final(ctx).checked_ty_store@, final(ctx).hir_store.types()[expr], ty@),
            final(ctx).hir_store.types() == old(ctx).hir_store.types().insert(expr, final(ctx).hir_store.types()[expr]),
            final(ctx).hir_store.exprs() == old(ctx).hir_store.exprs(),
            final(ctx).hir_store.decls() == old(ctx).hir_store.decls(),
    {
        let ghost c0 = *ctx;
        let ty = self.get_checked_ty(ctx, ty);
        let ghost c1 = *ctx;
        self.map_ty(ctx, expr, ty);
        proof {
            lemma_node_frame_trans(&c0, &c1, ctx);
        }
    }

    /// The module used under `alias`.
    pub fn find_dep(&self, ctx: &Context, alias: MStr) -> (r: Module)
        requires
            ctx.wf(),
            ctx.has_module(self.module()),
            ctx.modules()[self.module().id() as int].deps.as_map().contains_key(alias),
        ensures
            r == ctx.modules()[self.module().id() as int].deps.as_map()[alias],
            ctx.has_module(r),
    {
        proof {
            assert(ctx.module_wf(ctx.modules()[self.module().id() as int]));
            ctx.modules()[self.module().id() as int].deps.lemma_value_in_vals(alias);
        }
        ctx.get_module_value(self.module).get_dep(alias)
    }

    /// Names the module: builds the symbol table from its declarations, then its named trees
    /// (kept, in order, as the module's named declarations: one for each declaration other than
    /// `mod` and `use`), then checks their types: each function's type must be a function type
    /// and checking must accept its body, or naming stops with the reason.
    pub fn node(&self, ctx: &mut Context) -> (r: Result<(), NodeHalt>)
        requires
            old(ctx).wf(),
            old(ctx).has_module(self.module()),
        ensures
            final(ctx).wf(),
            final(ctx).str_store == old(ctx).str_store,
            final(ctx).ast_store == old(ctx).ast_store,
            final(ctx).unchecked_ty_store == old(ctx).unchecked_ty_store,
            crate::ast::parser::others_kept(old(ctx), final(ctx), self.module()),
            final(ctx).modules()[self.module().id() as int].name == old(ctx).modules()[self.module().id() as int].name,
            final(ctx).modules()[self.module().id() as int].ast == old(ctx).modules()[self.module().id() as int].ast,
            final(ctx).modules()[self.module().id() as int].deps == old(ctx).modules()[self.module().id() as int].deps,
            final(ctx).modules()[self.module().id() as int].import_path == old(ctx).modules()[self.module().id() as int].import_path,
            r is Ok ==> typed_module(final(ctx), self.module()),
            r is Ok ==> final(ctx).modules()[self.module().id() as int].hir@.len() == named_decls(
                old(ctx).ast_store.decls(),
                old(ctx).modules()[self.module().id() as int].ast@,
            ).len(),
            r is Ok && final(ctx).hir_store.decls().len() <= u32::MAX ==> decls_named(
                final(ctx),
                self.module(),
                old(ctx).ast_store.decls(),
                named_decls(old(ctx).ast_store.decls(), old(ctx).modules()[self.module().id() as int].ast@),
                final(ctx).modules()[self.module().id() as int].hir@,
            ),
            r == Err::<(), NodeHalt>(NodeHalt::QualifiedName) <==> module_qualified(old(ctx), self.module()),
            r == Err::<(), NodeHalt>(NodeHalt::UnknownModule) <==> !module_qualified(old(ctx), self.module())
                && module_alias_unknown(old(ctx), self.module()),
            !module_qualified(old(ctx), self.module()) && !module_alias_unknown(old(ctx), self.module())
                && module_checkable(final(ctx), self.module()) && final(ctx).checked_ty_store@.len() <= u32::MAX ==> r is Ok,
    {
        let mut sym_table = SymTable::new();
        let ast = crate::index_vec::copy_vec(&ctx.get_module_value(self.module).ast);
        proof {
            assert(ctx.module_wf(ctx.modules()[self.module().id() as int]));
        }
        let mut i: usize = 0;
        while i < ast.len()
            invariant
                ctx.wf(),
                sym_table.wf(),
                forall|k: int| 0 <= k < ast@.len() ==> ctx.ast_store.has_decl(#[trigger] ast@[k]),
                i <= ast@.len(),
                *ctx == *old(ctx),
                ast@ == old(ctx).modules()[self.module().id() as int].ast@,
                forall|k: int| 0 <= k < i ==> !(#[trigger] ast::any_qualified(
                    ctx.ast_store.exprs(),
                    ast::decl_children(ctx.ast_store.decls()[ast@[k].id() as int]),
                )),
                scopes_declare(sym_table.scopes(), ctx.ast_store.decls(), ast@),
                forall|e: ast::Expr| #[trigger] sym_table.idents().contains_key(e) ==> declared_decl(
                    ctx.ast_store.decls(),
                    ast@,
                    sym_table.idents()[e],
                ) && in_some_body(ctx.ast_store.exprs(), ctx.ast_store.decls(), ast@, e),
            decreases ast@.len() - i,
        {
            let ghost t0 = sym_table;
            match sym_table.add_decl(&ctx.ast_store, ast[i]) {
                Ok(()) => {
                    proof {
                        t0.lemma_current_in();
                        lemma_add_decl_kept(&ctx.ast_store, &t0, &sym_table, ast@, i as int);
                    }
                },
                Err(_) => {
                    proof {
                        crate::ast::parser::lemma_module_store_kept_refl(ctx, self.module());
                        assert(ast::any_qualified(
                            ctx.ast_store.exprs(),
                            ast::decl_children(ctx.ast_store.decls()[ast@[i as int].id() as int]),
                        ));
                    }
                    return Err(NodeHalt::QualifiedName);
                },
            }
            i = i + 1;
        }
        proof {
            assert(!module_qualified(old(ctx), self.module())) by {
                if module_qualified(old(ctx), self.module()) {
                    let k = choose|k: int|
                        0 <= k < ast@.len() && #[trigger] ast::any_qualified(
                            ctx.ast_store.exprs(),
                            ast::decl_children(ctx.ast_store.decls()[ast@[k].id() as int]),
                        );
                }
            }
        }
        let mut decls: Vec<hir::Decl> = Vec::new();
        proof {
            lemma_node_frame_refl(ctx);
        }
        let mut j: usize = 0;
        while j < ast.len()
            invariant
                node_frame(old(ctx), ctx),
                ctx.has_module(self.module()),
                sym_table.wf(),
                forall|k: int| 0 <= k < ast@.len() ==> ctx.ast_store.has_decl(#[trigger] ast@[k]),
                j <= ast@.len(),
                forall|k: int| 0 <= k < decls@.len() ==> ctx.hir_store.has_decl(#[trigger] decls@[k]),
                ast@ == old(ctx).modules()[self.module().id() as int].ast@,
                !module_qualified(old(ctx), self.module()),
                forall|k: int| 0 <= k < j ==> !(#[trigger] decl_alias_unknown(
                    old(ctx).unchecked_ty_store@,
                    old(ctx).ast_store.decls()[ast@[k].id() as int],
                    old(ctx).modules()[self.module().id() as int].deps.as_map(),
                )),
                decls@.len() == named_decls(old(ctx).ast_store.decls(), ast@.subrange(0, j as int)).len(),
                ctx.hir_store.decls().len() <= u32::MAX ==> decls_named(
                    ctx,
                    self.module(),
                    old(ctx).ast_store.decls(),
                    named_decls(old(ctx).ast_store.decls(), ast@.subrange(0, j as int)),
                    decls@,
                ),
                ctx.ast_store == old(ctx).ast_store,
                forall|e: ast::Expr| #[trigger] sym_table.idents().contains_key(e) ==> declared_decl(
                    old(ctx).ast_store.decls(),
                    ast@,
                    sym_table.idents()[e],
                ) && in_some_body(old(ctx).ast_store.exprs(), old(ctx).ast_store.decls(), ast@, e),
                forall|k: int| 0 <= k < j && !(old(ctx).ast_store.decls()[ast@[k].id() as int] is Mod
                    || old(ctx).ast_store.decls()[ast@[k].id() as int] is Use) ==> sym_table.decls().contains_key(#[trigger] ast@[k]),
                forall|k: int, x: ast::Expr| 0 <= k < j && #[trigger] ast::reaches_any(
                    old(ctx).ast_store.exprs(),
                    ast::decl_children(old(ctx).ast_store.decls()[ast@[k].id() as int]),
                    x,
                ) ==> sym_table.exprs().contains_key(x),
            decreases ast@.len() - j,
        {
            let ghost c0 = *ctx;
            let ghost ts0 = sym_table;
            proof {
                assert(!ast::any_qualified(
                    old(ctx).ast_store.exprs(),
                    ast::decl_children(old(ctx).ast_store.decls()[ast@[j as int].id() as int]),
                ));
            }
            let res = node_decl(self, ctx, &mut sym_table, ast[j]);
            proof {
                lemma_node_frame_trans(old(ctx), &c0, ctx);
                if res is Ok {
                    assert forall|k: int, x: ast::Expr| 0 <= k < j + 1 && #[trigger] ast::reaches_any(
                        old(ctx).ast_store.exprs(),
                        ast::decl_children(old(ctx).ast_store.decls()[ast@[k].id() as int]),
                        x,
                    ) implies sym_table.exprs().contains_key(x) by {
                        if k < j {
                            assert(ts0.exprs().contains_key(x));
                        }
                    }
                    assert forall|k: int| 0 <= k < j + 1 && !(old(ctx).ast_store.decls()[ast@[k].id() as int] is Mod
                        || old(ctx).ast_store.decls()[ast@[k].id() as int] is Use) implies sym_table.decls().contains_key(#[trigger] ast@[k]) by {
                        if k < j {
                            assert(ts0.decls().contains_key(ast@[k]));
                        }
                    }
                }
            }
            let ghost store = old(ctx).ast_store.decls();
            let ghost nd0 = named_decls(store, ast@.subrange(0, j as int));
            proof {
                assert(ast@.subrange(0, j as int + 1).drop_last() =~= ast@.subrange(0, j as int));
                assert(ast@.subrange(0, j as int + 1).last() == ast@[j as int]);
                if ctx.hir_store.decls().len() <= u32::MAX {
                    assert forall|k: int| 0 <= k < decls@.len() implies #[trigger] decl_named(ctx, self.module(), store[nd0[k].id() as int],
                        ctx.hir_store.decls()[decls@[k].id() as int]) by {
                        assert(decl_named(&c0, self.module(), store[nd0[k].id() as int], c0.hir_store.decls()[decls@[k].id() as int]));
                        assert(c0.hir_store.decls()[decls@[k].id() as int] == ctx.hir_store.decls()[decls@[k].id() as int]) by {
                            assert(ctx.hir_store.decls().subrange(0, c0.hir_store.decls().len() as int)[decls@[k].id() as int]
                                == ctx.hir_store.decls()[decls@[k].id() as int]);
                        }
                        lemma_decl_named_grow(&c0, ctx, self.module(), store[nd0[k].id() as int], c0.hir_store.decls()[decls@[k].id() as int]);
                    }
                }
            }
            match res {
                Ok(Some(d)) => {
                    let ghost ds0 = decls@;
                    decls.push(d);
                    proof {
                        let nd1 = named_decls(store, ast@.subrange(0, j as int + 1));
                        assert(nd1 == nd0.push(ast@[j as int]));
                        if ctx.hir_store.decls().len() <= u32::MAX {
                            assert forall|k: int| 0 <= k < decls@.len() implies #[trigger] decl_named(ctx, self.module(), store[nd1[k].id() as int],
                                ctx.hir_store.decls()[decls@[k].id() as int]) by {
                                if k < ds0.len() {
                                    assert(decls@[k] == ds0[k] && nd1[k] == nd0[k]);
                                }
                            }
                        }
                    }
                },
                Ok(None) => {
                    proof {
                        let nd1 = named_decls(store, ast@.subrange(0, j as int + 1));
                        assert(nd1 == nd0);
                    }
                },
                Err(h) => {
                    proof {
                        crate::ast::parser::lemma_module_store_kept_refl(ctx, self.module());
                        assert(decl_alias_unknown(
                            old(ctx).unchecked_ty_store@,
                            old(ctx).ast_store.decls()[ast@[j as int].id() as int],
                            old(ctx).modules()[self.module().id() as int].deps.as_map(),
                        ));
                    }
                    return Err(h);
                },
            }
            j = j + 1;
        }
        proof {
            assert(!module_alias_unknown(old(ctx), self.module())) by {
                if module_alias_unknown(old(ctx), self.module()) {
                    let k = choose|k: int|
                        0 <= k < ast@.len() && #[trigger] decl_alias_unknown(
                            old(ctx).unchecked_ty_store@,
                            old(ctx).ast_store.decls()[ast@[k].id() as int],
                            old(ctx).modules()[self.module().id() as int].deps.as_map(),
                        );
                }
            }
        }
        let hir_decls = crate::index_vec::copy_vec(&decls);
        let ghost store = old(ctx).ast_store.decls();
        let ghost nds = named_decls(store, ast@);
        proof {
            assert(ast@.subrange(0, ast@.len() as int) =~= ast@);
        }
        let ghost c1 = *ctx;
        self.set_module_hir(ctx, decls);
        proof {
            if ctx.hir_store.decls().len() <= u32::MAX {
                assert forall|q: int| 0 <= q < hir_decls@.len() implies #[trigger] decl_named(ctx, self.module(), store[nds[q].id() as int],
                    ctx.hir_store.decls()[hir_decls@[q].id() as int]) by {
                    lemma_decl_named_grow(&c1, ctx, self.module(), store[nds[q].id() as int], c1.hir_store.decls()[hir_decls@[q].id() as int]);
                }
            }
        }
        proof {
            assert forall|e: ast::Expr| #[trigger] sym_table.idents().contains_key(e) implies sym_table.exprs().contains_key(e)
                && sym_table.decls().contains_key(sym_table.idents()[e]) by {
                let store = old(ctx).ast_store.decls();
                let k = choose|k: int| 0 <= k < ast@.len() && #[trigger] ast::reaches_any(
                    old(ctx).ast_store.exprs(),
                    ast::decl_children(store[ast@[k].id() as int]),
                    e,
                );
                let jd = choose|jd: int| 0 <= jd < ast@.len() && #[trigger] ast@[jd] == sym_table.idents()[e]
                    && (store[sym_table.idents()[e].id() as int] is Ty || store[sym_table.idents()[e].id() as int] is Func);
                assert(ast@[jd] == sym_table.idents()[e]);
            }
        }
        let mut checker = Checker::new(sym_table);
        let mut k: usize = 0;
        proof {
            crate::hir::noder::checker::lemma_check_frame_refl(ctx);
        }
        let ghost c2 = *ctx;
        while k < hir_decls.len()
            invariant
                crate::hir::noder::checker::check_frame(&c2, ctx),
                c2.str_store == old(ctx).str_store,
                c2.ast_store == old(ctx).ast_store,
                c2.unchecked_ty_store == old(ctx).unchecked_ty_store,
                crate::ast::parser::others_kept(old(ctx), &c2, self.module()),
                c2.modules()[self.module().id() as int].name == old(ctx).modules()[self.module().id() as int].name,
                c2.modules()[self.module().id() as int].ast == old(ctx).modules()[self.module().id() as int].ast,
                c2.modules()[self.module().id() as int].deps == old(ctx).modules()[self.module().id() as int].deps,
                c2.modules()[self.module().id() as int].import_path == old(ctx).modules()[self.module().id() as int].import_path,
                checker.wf(),
                hir_decls@ == ctx.modules()[self.module().id() as int].hir@,
                ctx.has_module(self.module()),
                forall|q: int| 0 <= q < hir_decls@.len() ==> ctx.hir_store.has_decl(#[trigger] hir_decls@[q]),
                k <= hir_decls@.len(),
                forall|q: int| 0 <= q < k ==> func_typed(ctx, #[trigger] hir_decls@[q]),
                !module_qualified(old(ctx), self.module()),
                !module_alias_unknown(old(ctx), self.module()),
                store == old(ctx).ast_store.decls(),
                nds == named_decls(store, old(ctx).modules()[self.module().id() as int].ast@),
                hir_decls@.len() == nds.len(),
                ctx.hir_store.decls().len() <= u32::MAX ==> decls_named(ctx, self.module(), store, nds, hir_decls@),
            decreases hir_decls@.len() - k,
        {
            let ghost c3 = *ctx;
            if !self.has_function_type(ctx, hir_decls[k]) {
                return Err(NodeHalt::InvalidFunctionType);
            }
            match checker.decl_typeable(self, ctx, hir_decls[k]) {
                Ok(()) => {},
                Err(h) => {
                    proof {
                        if module_checkable(ctx, self.module()) {
                            assert(func_type_ok(ctx, hir_decls@[k as int]));
                            if let hir::DeclValue::Func(f) = ctx.hir_store.decls()[hir_decls@[k as int].id() as int] {
                                assert forall|i: int| 0 <= i < f.body.exprs@.len() implies (#[trigger] crate::hir::noder::checker::type_of(
                                    ctx,
                                    checker.idents(),
                                    f.body.exprs@[i],
                                )) is Some by {
                                    crate::hir::noder::checker::lemma_simple_typed(ctx, checker.idents(), f.body.exprs@[i]);
                                }
                            }
                        }
                    }
                    return Err(h);
                },
            }
            let res = checker.check_decl(self, ctx, hir_decls[k]);
            proof {
                crate::hir::noder::checker::lemma_check_frame_trans(&c2, &c3, ctx);
                if ctx.hir_store.decls().len() <= u32::MAX {
                    assert forall|q: int| 0 <= q < hir_decls@.len() implies #[trigger] decl_named(ctx, self.module(), store[nds[q].id() as int],
                        ctx.hir_store.decls()[hir_decls@[q].id() as int]) by {
                        lemma_decl_named_grow(&c3, ctx, self.module(), store[nds[q].id() as int], c3.hir_store.decls()[hir_decls@[q].id() as int]);
                    }
                }
            }
            match res {
                Ok(()) => {},
                Err(h) => {
                    proof {
                        if module_checkable(ctx, self.module()) {
                            assert(func_type_ok(ctx, hir_decls@[k as int]));
                        }
                    }
                    return Err(h);
                },
            }
            k = k + 1;
        }
        Ok(())
    }

    /// Whether the named declaration `d`, if it is a function, has a function type.
    fn has_function_type(&self, ctx: &Context, d: hir::Decl) -> (r: bool)
        requires
            ctx.wf(),
            ctx.hir_store.has_decl(d),
        ensures
            r == func_type_ok(ctx, d),
    {
        match self.get_hir_decl_value(ctx, d) {
            hir::DeclValue::Func(f) => {
                if f.ty.index() >= ctx.checked_ty_store.len() {
                    return false;
                }
                match self.get_checked_ty_value(ctx, f.ty) {
                    CheckedTyValue::Func(_) => true,
                    _ => false,
                }
            },
            _ => true,
        }
    }

    fn set_module_hir(&self, ctx: &mut Context, decls: Vec<hir::Decl>)
        requires
            old(ctx).wf(),
            old(ctx).has_module(self.module()),
            forall|k: int| 0 <= k < decls@.len() ==> old(ctx).hir_store.has_decl(#[trigger] decls@[k]),
        ensures
            final(ctx).wf(),
            final(ctx).str_store == old(ctx).str_store,
            final(ctx).ast_store == old(ctx).ast_store,
            final(ctx).hir_store == old(ctx).hir_store,
            final(ctx).unchecked_ty_store == old(ctx).unchecked_ty_store,
            final(ctx).checked_ty_store == old(ctx).checked_ty_store,
            crate::ast::parser::others_kept(old(ctx), final(ctx), self.module()),
            final(ctx).modules()[self.module().id() as int].name == old(ctx).modules()[self.module().id() as int].name,
            final(ctx).modules()[self.module().id() as int].ast == old(ctx).modules()[self.module().id() as int].ast,
            final(ctx).modules()[self.module().id() as int].hir@ == decls@,
            final(ctx).modules()[self.module().id() as int].deps == old(ctx).modules()[self.module().id() as int].deps,
            final(ctx).modules()[self.module().id() as int].import_path == old(ctx).modules()[self.module().id() as int].import_path,
    {
        match ctx.module_store.get_mut(self.module) {
            Some(mv) => {
                mv.hir = decls;
            },
            None => {},
        }
        proof {
            assert forall|m: int| 0 <= m < ctx.modules().len() implies ctx.module_wf(#[trigger] ctx.modules()[m]) by {
                assert(old(ctx).module_wf(old(ctx).modules()[m]));
            }
        }
    }

    /// The module `alias` names, if the module uses one under it.
    pub fn lookup_dep(&self, ctx: &Context, alias: MStr) -> (r: Option<Module>)
        requires
            ctx.wf(),
            ctx.has_module(self.module()),
        ensures
            ctx.modules()[self.module().id() as int].deps.as_map().contains_key(alias) ==> r == Some(
                ctx.modules()[self.module().id() as int].deps.as_map()[alias],
            ),
            !ctx.modules()[self.module().id() as int].deps.as_map().contains_key(alias) ==> r is None,
            r matches Some(m) ==> ctx.has_module(m),
    {
        proof {
            assert(ctx.module_wf(ctx.modules()[self.module().id() as int]));
        }
        if ctx.get_module_value(self.module).deps.contains_key(&alias) {
            Some(self.find_dep(ctx, alias))
        } else {
            None
        }
    }
}

} // verus!
