pub mod func;

use vstd::prelude::*;

use crate::compiler::context::Context;
use crate::compiler::module::Module;
use crate::hir::hir::{BlockExpr, DeclValue, FuncDecl};
use crate::index_vec::Indexer;
use crate::mir::grapher::func::graph_func;
use crate::compiler::str_store::MStr;
use crate::mir::mir::{Func, FuncValue};
use crate::types::checked_ty::CheckedTy;

verus! {

/// Why graphing stopped: a module's top level holds an invalid declaration, which is not handled
/// yet.
#[derive(Debug, Clone, Copy, PartialEq, Eq, Structural)]
pub enum GraphHalt {
    InvalidDecl,
}

/// Builds the control flow graphs of one module's named trees.
pub struct Grapher {
    module: Module,
}

impl Grapher {
    /// The module being graphed.
    pub closed spec fn module(&self) -> Module {
        self.module
    }

    /// A grapher for `module`.
    pub fn new(ctx: &Context, module: Module) -> (r: Self)
        requires
            ctx.has_module(module),
        ensures
            r.module() == module,
    {
        Grapher { module }
    }

    /// Makes a function of the graph for each function the module declares, in order; an
    /// invalid declaration stops graphing, and type declarations make nothing.
    pub fn graph(&self, ctx: &mut Context) -> (r: Result<(), GraphHalt>)
        requires
            old(ctx).wf(),
            old(ctx).has_module(self.module()),
        ensures
            final(ctx).wf(),
            final(ctx).str_store == old(ctx).str_store,
            final(ctx).hir_store == old(ctx).hir_store,
            final(ctx).module_store == old(ctx).module_store,
            final(ctx).ast_store == old(ctx).ast_store,
            final(ctx).checked_ty_store == old(ctx).checked_ty_store,
            final(ctx).unchecked_ty_store == old(ctx).unchecked_ty_store,
            old(ctx).mir_store.funcs().is_prefix_of(final(ctx).mir_store.funcs()),
            r is Ok <==> forall|k: int| 0 <= k < old(ctx).modules()[self.module().id() as int].hir@.len()
                ==> !(old(ctx).hir_store.decls()[(#[trigger] old(ctx).modules()[self.module().id() as int].hir@[k]).id() as int] is Invalid),
            r is Ok ==> made_funcs(
                old(ctx).mir_store.funcs(),
                final(ctx).mir_store.funcs(),
                func_sigs(old(ctx).hir_store.decls(), old(ctx).modules()[self.module().id() as int].hir@),
            ),
    {
        let decls = crate::index_vec::copy_vec(&ctx.get_module_value(self.module).hir);
        proof {
            assert(ctx.module_wf(ctx.modules()[self.module().id() as int]));
        }
        let mut i: usize = 0;
        while i < decls.len()
            invariant
                ctx.wf(),
                decls@ == old(ctx).modules()[self.module().id() as int].hir@,
                forall|k: int| 0 <= k < decls@.len() ==> ctx.hir_store.has_decl(#[trigger] decls@[k]),
                ctx.str_store == old(ctx).str_store,
                ctx.hir_store == old(ctx).hir_store,
                ctx.module_store == old(ctx).module_store,
                ctx.ast_store == old(ctx).ast_store,
                ctx.checked_ty_store == old(ctx).checked_ty_store,
                ctx.unchecked_ty_store == old(ctx).unchecked_ty_store,
                old(ctx).mir_store.funcs().is_prefix_of(ctx.mir_store.funcs()),
                i <= decls@.len(),
                forall|k: int| 0 <= k < i ==> !(old(ctx).hir_store.decls()[(#[trigger] decls@[k]).id() as int] is Invalid),
                made_funcs(old(ctx).mir_store.funcs(), ctx.mir_store.funcs(), func_sigs(old(ctx).hir_store.decls(), decls@.take(i as int))),
            decreases decls@.len() - i,
        {
            let decl = decls[i];
            proof {
                assert(decls@.take(i + 1).drop_last() =~= decls@.take(i as int));
                assert(decls@.take(i + 1).last() == decl);
            }
            let func: Option<FuncDecl> = match ctx.hir_store.get_decl_value(decl) {
                DeclValue::Invalid(_) => {
                    return Err(GraphHalt::InvalidDecl);
                },
                DeclValue::Type(_) => None,
                DeclValue::Func(v) => Some(
                    FuncDecl {
                        name: v.name,
                        params: crate::index_vec::copy_vec(&v.params),
                        body: BlockExpr { exprs: crate::index_vec::copy_vec(&v.body.exprs) },
                        ty: v.ty,
                    },
                ),
            };
            match func {
                Some(f) => {
                    let ghost before = ctx.mir_store.funcs();
                    let ghost sig = (f.name, f.ty);
                    graph_func(self, ctx, f);
                    proof {
                        crate::compiler::str_store::lemma_seq_prefix_trans(old(ctx).mir_store.funcs(), before, ctx.mir_store.funcs());
                        let s0 = func_sigs(old(ctx).hir_store.decls(), decls@.take(i as int));
                        let s1 = func_sigs(old(ctx).hir_store.decls(), decls@.take(i + 1));
                        assert(s1 == s0.push(sig));
                        let n0 = old(ctx).mir_store.funcs().len();
                        assert forall|k: int| 0 <= k < s1.len() implies (#[trigger] ctx.mir_store.funcs()[n0 + k]).name == s1[k].0
                            && ctx.mir_store.funcs()[n0 + k].ty == s1[k].1 by {
                            if k < s0.len() {
                                assert(ctx.mir_store.funcs()[n0 + k] == before[n0 + k]);
                            }
                        }
                    }
                },
                None => {},
            }
            i = i + 1;
        }
        proof {
            assert(decls@.take(decls@.len() as int) =~= decls@);
        }
        Ok(())
    }

    /// Makes the function of a named function declaration.
    pub fn create_func(&self, ctx: &mut Context, decl: FuncDecl) -> (r: Func)
        requires
            old(ctx).wf(),
        ensures
            final(ctx).wf(),
            final(ctx).mir_store.funcs() == old(ctx).mir_store.funcs().push(final(ctx).mir_store.funcs().last()),
            final(ctx).mir_store.funcs().last().name == decl.name,
            final(ctx).mir_store.funcs().last().ty == decl.ty,
            final(ctx).str_store == old(ctx).str_store,
            final(ctx).hir_store == old(ctx).hir_store,
            final(ctx).module_store == old(ctx).module_store,
            final(ctx).ast_store == old(ctx).ast_store,
            final(ctx).checked_ty_store == old(ctx).checked_ty_store,
            final(ctx).unchecked_ty_store == old(ctx).unchecked_ty_store,
            r.id() == (old(ctx).mir_store.funcs().len() as u32) as nat,
    {
        let r = ctx.mir_store.create_func(decl);
        proof {
            assert(ctx.mir_store.funcs() =~= old(ctx).mir_store.funcs().push(ctx.mir_store.funcs().last()));
            Context::lemma_grown_wf(old(ctx), ctx);
        }
        r
    }
}

/// The name and type of each function declaration among `decls`, in order.
pub open spec fn func_sigs(store: Seq<DeclValue>, decls: Seq<crate::hir::hir::Decl>) -> Seq<(MStr, CheckedTy)>
    decreases decls.len(),
{
    if decls.len() == 0 {
        Seq::empty()
    } else {
        let rest = func_sigs(store, decls.drop_last());
        match store[decls.last().id() as int] {
            DeclValue::Func(f) => rest.push((f.name, f.ty)),
            _ => rest,
        }
    }
}

/// `after` is `before` followed by one function for each of `sigs`, in order, with its name and
/// type.
pub open spec fn made_funcs(before: Seq<FuncValue>, after: Seq<FuncValue>, sigs: Seq<(MStr, CheckedTy)>) -> bool {
    &&& before.is_prefix_of(after)
    &&& after.len() == before.len() + sigs.len()
    &&& forall|k: int| 0 <= k < sigs.len() ==> (#[trigger] after[before.len() + k]).name == sigs[k].0
        && after[before.len() + k].ty == sigs[k].1
}

} // verus!
