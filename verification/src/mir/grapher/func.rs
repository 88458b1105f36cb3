use vstd::prelude::*;

use crate::compiler::context::Context;
use crate::hir::hir::FuncDecl;
use crate::mir::grapher::Grapher;

verus! {

/// Makes the graph of a named function: for now, the function itself.
pub fn graph_func(grapher: &Grapher, ctx: &mut Context, decl: FuncDecl)
    requires
        old(ctx).wf(),
    ensures
        final(ctx).wf(),
        final(ctx).mir_store.funcs() == old(ctx).mir_store.funcs().push(final(ctx).mir_store.funcs().last()),
        final(ctx).mir_store.funcs().last().name == decl.name,
        final(ctx).mir_store.funcs().last().ty == decl.ty,
        final(ctx).str_store == old(ctx).str_store,
        final(ctx).hir_store == old(ctx).hir_store,
        final(ctx).module_store == old(ctx).module_store,
        final(ctx).ast_store == old(ctx).ast_store,
        final(ctx).checked_ty_store == old(ctx).checked_ty_store,
        final(ctx).unchecked_ty_store == old(ctx).unchecked_ty_store,
{
    let _func = grapher.create_func(ctx, decl);
}

} // verus!
