use vstd::prelude::*;

use crate::ast::ast;
use crate::ast::lexer::Pos;
use crate::compiler::module::Module;
use crate::compiler::context::Context;
use crate::hir::hir;
use crate::hir::noder::checker::{aliases_known, check_single_type, checks_to, known_aliases, lemma_checks_to_mono};
use crate::hir::noder::expr::{lemma_named_kids_grow, named_kids, node_all, sym_grows};
use crate::hir::noder::sym_table::SymTable;
use crate::hir::noder::{lemma_node_frame_refl, lemma_node_frame_trans, node_frame, NodeHalt, Noder};
use crate::index_vec::Indexer;

verus! {

/// `h` is the named form of the declaration `a` of `module`: an invalid declaration keeps its
/// message; a type alias and a function keep their name (a function its parameters too), and
/// their types check to theirs; a function's body is named expression by expression.
pub open spec fn decl_named(ctx: &Context, module: Module, a: ast::DeclValue, h: hir::DeclValue) -> bool {
    let deps = ctx.modules()[module.id() as int].deps.as_map();
    let cs = ctx.checked_ty_store@;
    let us = ctx.unchecked_ty_store@;
    match a {
        ast::DeclValue::Invalid(m) => h == hir::DeclValue::Invalid(m),
        ast::DeclValue::Ty(t) => h matches hir::DeclValue::Type(ht) && ht.name == t.name && checks_to(cs, us, t.ty, ht.ty, module, deps),
        ast::DeclValue::Func(f) => h matches hir::DeclValue::Func(hf) && hf.name == f.name && hf.params@ == f.params@
            && checks_to(cs, us, f.ty, hf.ty, module, deps) && (ctx.hir_store.exprs().len() <= u32::MAX ==> named_kids(
            ctx.ast_store.exprs(),
            ctx.hir_store.exprs(),
            f.body.exprs@,
            hf.body.exprs@,
            module,
            deps,
        )),
        _ => false,
    }
}

/// A named form stays one while the stores grow.
pub proof fn lemma_decl_named_grow(c1: &Context, c2: &Context, module: Module, a: ast::DeclValue, h: hir::DeclValue)
    requires
        decl_named(c1, module, a, h),
        c2.ast_store.exprs() == c1.ast_store.exprs(),
        c2.unchecked_ty_store@ == c1.unchecked_ty_store@,
        c2.modules()[module.id() as int].deps == c1.modules()[module.id() as int].deps,
        c1.checked_ty_store@.is_prefix_of(c2.checked_ty_store@),
        c2.checked_ty_store@.no_duplicates(),
        c1.hir_store.exprs().is_prefix_of(c2.hir_store.exprs()),
    ensures
        decl_named(c2, module, a, h),
{
    let deps = c1.modules()[module.id() as int].deps.as_map();
    match a {
        ast::DeclValue::Ty(t) => {
            let ht = h->Type_0;
            lemma_checks_to_mono(c1.checked_ty_store@, c2.checked_ty_store@, c1.unchecked_ty_store@, t.ty, ht.ty, module, deps);
        },
        ast::DeclValue::Func(f) => {
            let hf = h->Func_0;
            lemma_checks_to_mono(c1.checked_ty_store@, c2.checked_ty_store@, c1.unchecked_ty_store@, f.ty, hf.ty, module, deps);
            if c2.hir_store.exprs().len() <= u32::MAX {
                lemma_named_kids_grow(c1.ast_store.exprs(), c1.hir_store.exprs(), c2.hir_store.exprs(), f.body.exprs@, hf.body.exprs@, module, deps);
            }
        },
        _ => {},
    }
}

/// An invalid declaration stays invalid, with the same message.
fn node_invalid_decl(noder: &Noder, ctx: &mut Context, start: Pos, msg: &'static str) -> (r: hir::Decl)
    requires
        old(ctx).wf(),
    ensures
        node_frame(old(ctx), final(ctx)),
        final(ctx).hir_store.decls() == old(ctx).hir_store.decls().push(hir::DeclValue::Invalid(msg)),
        final(ctx).hir_store.types() == old(ctx).hir_store.types(),
        r.id() < final(ctx).hir_store.decls().len(),
        r.id() == ((final(ctx).hir_store.decls().len() - 1) as u32) as nat,
{
    noder.get_decl(ctx, start, hir::DeclValue::Invalid(msg))
}

/// A type alias, its type checked.
fn node_type_decl(noder: &Noder, ctx: &mut Context, start: Pos, decl: ast::TyDecl) -> (r: Result<hir::Decl, NodeHalt>)
    requires
        old(ctx).wf(),
        old(ctx).has_module(noder.module()),
        decl.ty.id() < old(ctx).unchecked_ty_store@.len(),
    ensures
        node_frame(old(ctx), final(ctx)),
        final(ctx).hir_store.types() == old(ctx).hir_store.types(),
        r is Ok <==> aliases_known(
            old(ctx).unchecked_ty_store@,
            decl.ty,
            old(ctx).modules()[noder.module().id() as int].deps.as_map(),
        ),
        r is Err ==> r == Err::<hir::Decl, NodeHalt>(NodeHalt::UnknownModule),
        r matches Ok(d) ==> d.id() == ((final(ctx).hir_store.decls().len() - 1) as u32) as nat,
        r matches Ok(d) ==> (d.id() < final(ctx).hir_store.decls().len() && (final(ctx).hir_store.decls().last()
            matches hir::DeclValue::Type(t) && t.name == decl.name && checks_to(
            final(ctx).checked_ty_store@,
            old(ctx).unchecked_ty_store@,
            decl.ty,
            t.ty,
            noder.module(),
            old(ctx).modules()[noder.module().id() as int].deps.as_map(),
        ))),
{
    if !known_aliases(noder, ctx, decl.ty) {
        return Err(NodeHalt::UnknownModule);
    }
    let ty = check_single_type(noder, ctx, decl.ty);
    let ghost c1 = *ctx;
    let d = noder.get_decl(ctx, start, hir::DeclValue::Type(hir::TypeDecl { name: decl.name, ty }));
    proof {
        lemma_node_frame_trans(old(ctx), &c1, ctx);
    }
    Ok(d)
}

/// A function: its body named, its type checked.
fn node_fn_decl(noder: &Noder, ctx: &mut Context, sym_table: &mut SymTable, start: Pos, decl: &ast::FuncDecl) -> (r: Result<hir::Decl, NodeHalt>)
    requires
        old(ctx).wf(),
        old(ctx).has_module(noder.module()),
        decl.ty.id() < old(ctx).unchecked_ty_store@.len(),
        ast::all_below(decl.body.exprs@, old(ctx).ast_store.exprs().len()),
        old(sym_table).wf(),
    ensures
        node_frame(old(ctx), final(ctx)),
        final(ctx).hir_store.types() == old(ctx).hir_store.types(),
        sym_grows(old(sym_table), final(sym_table)),
        r is Ok ==> forall|x: ast::Expr| #[trigger] ast::reaches_any(old(ctx).ast_store.exprs(), decl.body.exprs@, x)
            ==> final(sym_table).exprs().contains_key(x),
        r matches Ok(d) ==> (final(ctx).hir_store.exprs().len() <= u32::MAX ==> (final(ctx).hir_store.decls().last()
            matches hir::DeclValue::Func(f) && named_kids(
            old(ctx).ast_store.exprs(),
            final(ctx).hir_store.exprs(),
            decl.body.exprs@,
            f.body.exprs@,
            noder.module(),
            old(ctx).modules()[noder.module().id() as int].deps.as_map(),
        ))),
        r matches Ok(d) ==> d.id() == ((final(ctx).hir_store.decls().len() - 1) as u32) as nat,
        r matches Ok(d) ==> (d.id() < final(ctx).hir_store.decls().len() && (final(ctx).hir_store.decls().last()
            matches hir::DeclValue::Func(f) && f.name == decl.name && f.params@ == decl.params@
            && f.body.exprs@.len() == decl.body.exprs@.len() && checks_to(
            final(ctx).checked_ty_store@,
            old(ctx).unchecked_ty_store@,
            decl.ty,
            f.ty,
            noder.module(),
            old(ctx).modules()[noder.module().id() as int].deps.as_map(),
        ))),
        r is Err ==> r == Err::<hir::Decl, NodeHalt>(NodeHalt::UnknownModule),
        r is Err ==> (ast::any_qualified(old(ctx).ast_store.exprs(), decl.body.exprs@) || !aliases_known(
            old(ctx).unchecked_ty_store@,
            decl.ty,
            old(ctx).modules()[noder.module().id() as int].deps.as_map(),
        )),
        !ast::any_qualified(old(ctx).ast_store.exprs(), decl.body.exprs@) ==> (r is Err <==> !aliases_known(
            old(ctx).unchecked_ty_store@,
            decl.ty,
            old(ctx).modules()[noder.module().id() as int].deps.as_map(),
        )),
{
    let exprs = match node_all(noder, ctx, sym_table, &decl.body.exprs, Ghost(old(ctx).ast_store.exprs().len())) {
        Ok(v) => v,
        Err(h) => {
            return Err(h);
        },
    };
    let ghost c1 = *ctx;
    if !known_aliases(noder, ctx, decl.ty) {
        proof {
            if ast::any_qualified(old(ctx).ast_store.exprs(), decl.body.exprs@) {
                let k = choose|k: int| 0 <= k < decl.body.exprs@.len() && #[trigger] ast::qualified_in(old(ctx).ast_store.exprs(), decl.body.exprs@[k]);
            }
        }
        return Err(NodeHalt::UnknownModule);
    }
    let ty = check_single_type(noder, ctx, decl.ty);
    proof {
        lemma_node_frame_trans(old(ctx), &c1, ctx);
    }
    let params = crate::index_vec::copy_vec(&decl.params);
    let ghost c2 = *ctx;
    let d = noder.get_decl(
        ctx,
        start,
        hir::DeclValue::Func(hir::FuncDecl { name: decl.name, params, body: hir::BlockExpr { exprs }, ty }),
    );
    proof {
        lemma_node_frame_trans(old(ctx), &c2, ctx);
    }
    Ok(d)
}

/// The type of the declaration (a type alias's, or a function's) names a module alias that the
/// module does not use.
pub open spec fn decl_alias_unknown(
    store: Seq<crate::types::unchecked_ty::UncheckedTyModel>,
    d: ast::DeclValue,
    deps: Map<crate::compiler::str_store::MStr, crate::compiler::module::Module>,
) -> bool {
    match d {
        ast::DeclValue::Ty(t) => !aliases_known(store, t.ty, deps),
        ast::DeclValue::Func(f) => !aliases_known(store, f.ty, deps),
        _ => false,
    }
}

/// Names a declaration of the module's syntax tree: `mod` and `use` declarations give nothing;
/// the symbol table records which named declaration each declaration became.
pub fn node_decl(noder: &Noder, ctx: &mut Context, sym_table: &mut SymTable, decl: ast::Decl) -> (r: Result<Option<hir::Decl>, NodeHalt>)
    requires
        old(ctx).wf(),
        old(ctx).has_module(noder.module()),
        old(ctx).ast_store.has_decl(decl),
        old(sym_table).wf(),
    ensures
        node_frame(old(ctx), final(ctx)),
        final(ctx).hir_store.types() == old(ctx).hir_store.types(),
        final(sym_table).wf(),
        final(sym_table).idents() == old(sym_table).idents(),
        final(sym_table).ident_keys() == old(sym_table).ident_keys(),
        forall|k: ast::Expr| #[trigger] old(sym_table).exprs().contains_key(k) ==> final(sym_table).exprs().contains_key(k),
        forall|k: ast::Decl| #[trigger] old(sym_table).decls().contains_key(k) ==> final(sym_table).decls().contains_key(k),
        r matches Ok(Some(d)) ==> d.id() < final(ctx).hir_store.decls().len() && final(sym_table).decls().contains_key(decl)
            && final(sym_table).decls()[decl] == d,
        r matches Ok(None) ==> old(ctx).ast_store.decls()[decl.id() as int] is Mod || old(ctx).ast_store.decls()[decl.id() as int] is Use,
        (old(ctx).ast_store.decls()[decl.id() as int] is Mod || old(ctx).ast_store.decls()[decl.id() as int] is Use) ==> r == Ok::<Option<hir::Decl>, NodeHalt>(None),
        old(ctx).ast_store.decls()[decl.id() as int] matches ast::DeclValue::Invalid(m) ==> r is Ok
            && final(ctx).hir_store.decls().last() == hir::DeclValue::Invalid(m),
        r is Err ==> r == Err::<Option<hir::Decl>, NodeHalt>(NodeHalt::UnknownModule),
        r is Ok ==> forall|x: ast::Expr| #[trigger] ast::reaches_any(
            old(ctx).ast_store.exprs(),
            ast::decl_children(old(ctx).ast_store.decls()[decl.id() as int]),
            x,
        ) ==> final(sym_table).exprs().contains_key(x),
        r matches Ok(Some(d)) ==> (final(ctx).hir_store.decls().len() <= u32::MAX ==> d.id() + 1 == final(ctx).hir_store.decls().len()
            && decl_named(final(ctx), noder.module(), old(ctx).ast_store.decls()[decl.id() as int], final(ctx).hir_store.decls()[d.id() as int])),
        !ast::any_qualified(old(ctx).ast_store.exprs(), ast::decl_children(old(ctx).ast_store.decls()[decl.id() as int]))
            ==> (r is Err <==> decl_alias_unknown(
            old(ctx).unchecked_ty_store@,
            old(ctx).ast_store.decls()[decl.id() as int],
            old(ctx).modules()[noder.module().id() as int].deps.as_map(),
        )),
{
    let start = noder.get_decl_start(ctx, decl);
    let ghost dv = ctx.ast_store.decls()[decl.id() as int];
    proof {
        assert(ast::all_below(ast::decl_children(dv), ctx.ast_store.exprs().len()));
        assert(crate::compiler::ast_store::decl_ty_below(dv, ctx.unchecked_ty_store@.len()));
        lemma_node_frame_refl(ctx);
    }
    let hir_decl = match noder.get_ast_decl_value(ctx, decl) {
        ast::DeclValue::Invalid(v) => {
            let v = *v;
            node_invalid_decl(noder, ctx, start, v)
        },
        ast::DeclValue::Mod(_) => {
            return Ok(None);
        },
        ast::DeclValue::Use(_) => {
            return Ok(None);
        },
        ast::DeclValue::Ty(v) => {
            let v = *v;
            node_type_decl(noder, ctx, start, v)?
        },
        ast::DeclValue::Func(v) => {
            let name = v.name;
            let f = ast::FuncDecl {
                name,
                params: crate::index_vec::copy_vec(&v.params),
                body: ast::BlockExpr { exprs: crate::index_vec::copy_vec(&v.body.exprs) },
                ty: v.ty,
            };
            node_fn_decl(noder, ctx, sym_table, start, &f)?
        },
    };
    sym_table.map_decl(decl, hir_decl);
    Ok(Some(hir_decl))
}

} // verus!
