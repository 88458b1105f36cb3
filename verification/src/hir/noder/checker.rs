use vstd::prelude::*;

use crate::compiler::context::Context;
use crate::compiler::module::Module;
use crate::compiler::str_store::MStr;
use crate::hir::hir::{Decl, DeclValue, Expr, ExprValue};
use crate::hir::noder::sym_table::SymTable;
use crate::hir::noder::{
    lemma_node_frame_refl, lemma_node_frame_trans, names_cty, node_frame, NodeHalt, Noder,
};
use crate::index_vec::{IdMap, Indexer};
use crate::types::checked_ty::{CheckedTy, CheckedTyModel, CheckedTyValue, FuncTy, NamedTy};
use crate::types::unchecked_ty::{UncheckedTy, UncheckedTyModel, UncheckedTyValue};

verus! {

/// Checking a type keeps its kind: the unit type (`none`, or a missing return type) checks to
/// the unit type, the panic type to the panic type, and `i64`, `f64` and `bool` each to
/// themselves; an integer literal type checks to `i64` and a float literal type to `f64`; a
/// name checks to the same name in the module its alias stands for (or in the module itself when
/// it has none); and a function type checks to a function type with as many parameters, each
/// parameter and the return type checked in turn.
pub proof fn lemma_checked_type_kinds(
    cstore: Seq<CheckedTyModel>,
    ustore: Seq<UncheckedTyModel>,
    u: UncheckedTy,
    c: CheckedTy,
    module: Module,
    deps: Map<MStr, Module>,
)
    requires
        checks_to(cstore, ustore, u, c, module, deps),
        cstore.len() <= u32::MAX,
    ensures
        u.id() < ustore.len(),
        c.id() < cstore.len(),
        ustore[u.id() as int] == UncheckedTyModel::Unit ==> cstore[c.id() as int] == CheckedTyModel::Unit,
        ustore[u.id() as int] == UncheckedTyModel::Panic ==> cstore[c.id() as int] == CheckedTyModel::Panic,
        ustore[u.id() as int] == UncheckedTyModel::I64 ==> cstore[c.id() as int] == CheckedTyModel::I64,
        ustore[u.id() as int] == UncheckedTyModel::F64 ==> cstore[c.id() as int] == CheckedTyModel::F64,
        ustore[u.id() as int] == UncheckedTyModel::Bool ==> cstore[c.id() as int] == CheckedTyModel::Bool,
        ustore[u.id() as int] == UncheckedTyModel::ILiteral ==> cstore[c.id() as int] == CheckedTyModel::I64,
        ustore[u.id() as int] == UncheckedTyModel::FLiteral ==> cstore[c.id() as int] == CheckedTyModel::F64,
        ustore[u.id() as int] matches UncheckedTyModel::Named(None, n) ==> cstore[c.id() as int]
            == CheckedTyModel::Named(module, n),
        ustore[u.id() as int] matches UncheckedTyModel::Named(Some(a), n) ==> cstore[c.id() as int]
            == CheckedTyModel::Named(deps[a], n),
        ustore[u.id() as int] matches UncheckedTyModel::Func(ps, r) ==> (cstore[c.id() as int] matches CheckedTyModel::Func(
            cps,
            cr,
        ) && cps.len() == ps.len() && (forall|i: int|
            0 <= i < ps.len() ==> checks_to(cstore, ustore, #[trigger] ps[i], cps[i], module, deps))
            && checks_to(cstore, ustore, r, cr, module, deps)),
{
    match ustore[u.id() as int] {
        UncheckedTyModel::Panic => lemma_names_cty_at(cstore, c, CheckedTyModel::Panic),
        UncheckedTyModel::Unit => lemma_names_cty_at(cstore, c, CheckedTyModel::Unit),
        UncheckedTyModel::ILiteral => lemma_names_cty_at(cstore, c, CheckedTyModel::I64),
        UncheckedTyModel::I64 => lemma_names_cty_at(cstore, c, CheckedTyModel::I64),
        UncheckedTyModel::FLiteral => lemma_names_cty_at(cstore, c, CheckedTyModel::F64),
        UncheckedTyModel::F64 => lemma_names_cty_at(cstore, c, CheckedTyModel::F64),
        UncheckedTyModel::Bool => lemma_names_cty_at(cstore, c, CheckedTyModel::Bool),
        UncheckedTyModel::Named(m, n) => lemma_names_cty_at(
            cstore,
            c,
            CheckedTyModel::Named(
                match m {
                    Some(alias) => deps[alias],
                    None => module,
                },
                n,
            ),
        ),
        UncheckedTyModel::Func(ps, r) => {
            let (cps, cr) = choose|cps: Seq<CheckedTy>, cr: CheckedTy|
                #[trigger] names_cty(cstore, c, CheckedTyModel::Func(cps, cr)) && cps.len() == ps.len()
                    && (forall|i: int|
                    0 <= i < ps.len() ==> (#[trigger] ps[i]).id() < u.id() && checks_to(
                        cstore,
                        ustore,
                        ps[i],
                        cps[i],
                        module,
                        deps,
                    )) && r.id() < u.id() && checks_to(cstore, ustore, r, cr, module, deps);
            lemma_names_cty_at(cstore, c, CheckedTyModel::Func(cps, cr));
        },
    }
}

/// Every module alias in the unchecked type `u` is one the module uses.
pub open spec fn aliases_known(ustore: Seq<UncheckedTyModel>, u: UncheckedTy, deps: Map<MStr, Module>) -> bool
    decreases u.id(),
{
    if u.id() >= ustore.len() {
        false
    } else {
        match ustore[u.id() as int] {
            UncheckedTyModel::Named(Some(alias), _) => deps.contains_key(alias),
            UncheckedTyModel::Func(ps, r) => (forall|i: int|
                0 <= i < ps.len() ==> (#[trigger] ps[i]).id() < u.id() && aliases_known(ustore, ps[i], deps))
                && r.id() < u.id() && aliases_known(ustore, r, deps),
            _ => true,
        }
    }
}

/// `c` names, in `cstore`, the checked form of the unchecked type `u`: literal types become
/// `i64` and `f64`, and a name's module alias is resolved (a name without one is in `module`).
pub open spec fn checks_to(
    cstore: Seq<CheckedTyModel>,
    ustore: Seq<UncheckedTyModel>,
    u: UncheckedTy,
    c: CheckedTy,
    module: Module,
    deps: Map<MStr, Module>,
) -> bool
    decreases u.id(),
{
    if u.id() >= ustore.len() {
        false
    } else {
        match ustore[u.id() as int] {
            UncheckedTyModel::Panic => names_cty(cstore, c, CheckedTyModel::Panic),
            UncheckedTyModel::Unit => names_cty(cstore, c, CheckedTyModel::Unit),
            UncheckedTyModel::ILiteral => names_cty(cstore, c, CheckedTyModel::I64),
            UncheckedTyModel::I64 => names_cty(cstore, c, CheckedTyModel::I64),
            UncheckedTyModel::FLiteral => names_cty(cstore, c, CheckedTyModel::F64),
            UncheckedTyModel::F64 => names_cty(cstore, c, CheckedTyModel::F64),
            UncheckedTyModel::Bool => names_cty(cstore, c, CheckedTyModel::Bool),
            UncheckedTyModel::Named(m, n) => names_cty(
                cstore,
                c,
                CheckedTyModel::Named(
                    match m {
                        Some(alias) => deps[alias],
                        None => module,
                    },
                    n,
                ),
            ),
            UncheckedTyModel::Func(ps, r) => exists|cps: Seq<CheckedTy>, cr: CheckedTy|
                #[trigger] names_cty(cstore, c, CheckedTyModel::Func(cps, cr)) && cps.len() == ps.len()
                    && (forall|i: int|
                    0 <= i < ps.len() ==> (#[trigger] ps[i]).id() < u.id() && checks_to(
                        cstore,
                        ustore,
                        ps[i],
                        cps[i],
                        module,
                        deps,
                    )) && r.id() < u.id() && checks_to(cstore, ustore, r, cr, module, deps),
        }
    }
}

/// A type the store gave an id keeps it while the store grows.
pub proof fn lemma_names_cty_prefix(s1: Seq<CheckedTyModel>, s2: Seq<CheckedTyModel>, c: CheckedTy, m: CheckedTyModel)
    requires
        s1.is_prefix_of(s2),
        s2.no_duplicates(),
        names_cty(s1, c, m),
    ensures
        names_cty(s2, c, m),
{
    let j = s1.index_of(m);
    assert(s1[j] == m);
    assert(s2[j] == s1[j]) by {
        assert(s1[j] == s2.subrange(0, s1.len() as int)[j]);
    }
    assert(s2.contains(m));
    let k = s2.index_of(m);
    assert(s2[k] == m);
    assert(k == j);
}

/// A checked form stays one while the checked store grows.
pub proof fn lemma_checks_to_mono(
    s1: Seq<CheckedTyModel>,
    s2: Seq<CheckedTyModel>,
    ustore: Seq<UncheckedTyModel>,
    u: UncheckedTy,
    c: CheckedTy,
    module: Module,
    deps: Map<MStr, Module>,
)
    requires
        s1.is_prefix_of(s2),
        s2.no_duplicates(),
        checks_to(s1, ustore, u, c, module, deps),
    ensures
        checks_to(s2, ustore, u, c, module, deps),
    decreases u.id(),
{
    match ustore[u.id() as int] {
        UncheckedTyModel::Panic => lemma_names_cty_prefix(s1, s2, c, CheckedTyModel::Panic),
        UncheckedTyModel::Unit => lemma_names_cty_prefix(s1, s2, c, CheckedTyModel::Unit),
        UncheckedTyModel::ILiteral => lemma_names_cty_prefix(s1, s2, c, CheckedTyModel::I64),
        UncheckedTyModel::I64 => lemma_names_cty_prefix(s1, s2, c, CheckedTyModel::I64),
        UncheckedTyModel::FLiteral => lemma_names_cty_prefix(s1, s2, c, CheckedTyModel::F64),
        UncheckedTyModel::F64 => lemma_names_cty_prefix(s1, s2, c, CheckedTyModel::F64),
        UncheckedTyModel::Bool => lemma_names_cty_prefix(s1, s2, c, CheckedTyModel::Bool),
        UncheckedTyModel::Named(m, n) => lemma_names_cty_prefix(
            s1,
            s2,
            c,
            CheckedTyModel::Named(
                match m {
                    Some(alias) => deps[alias],
                    None => module,
                },
                n,
            ),
        ),
        UncheckedTyModel::Func(ps, r) => {
            let (cps, cr) = choose|cps: Seq<CheckedTy>, cr: CheckedTy|
                #[trigger] names_cty(s1, c, CheckedTyModel::Func(cps, cr)) && cps.len() == ps.len()
                    && (forall|i: int|
                    0 <= i < ps.len() ==> (#[trigger] ps[i]).id() < u.id() && checks_to(
                        s1,
                        ustore,
                        ps[i],
                        cps[i],
                        module,
                        deps,
                    )) && r.id() < u.id() && checks_to(s1, ustore, r, cr, module, deps);
            lemma_names_cty_prefix(s1, s2, c, CheckedTyModel::Func(cps, cr));
            assert forall|i: int| 0 <= i < ps.len() implies (#[trigger] ps[i]).id() < u.id() && checks_to(
                s2,
                ustore,
                ps[i],
                cps[i],
                module,
                deps,
            ) by {
                lemma_checks_to_mono(s1, s2, ustore, ps[i], cps[i], module, deps);
            }
            lemma_checks_to_mono(s1, s2, ustore, r, cr, module, deps);
        },
    }
}

/// Whether every module alias in the unchecked type `ty` is one the module uses.
pub fn known_aliases(noder: &Noder, ctx: &Context, ty: UncheckedTy) -> (r: bool)
    requires
        ctx.wf(),
        ctx.has_module(noder.module()),
        ty.id() < ctx.unchecked_ty_store@.len(),
    ensures
        r == aliases_known(ctx.unchecked_ty_store@, ty, ctx.modules()[noder.module().id() as int].deps.as_map()),
    decreases ty.id(),
{
    let ghost ustore = ctx.unchecked_ty_store@;
    let ghost deps = ctx.modules()[noder.module().id() as int].deps.as_map();
    proof {
        assert(crate::compiler::ty_store::ty_children_below(ustore[ty.id() as int], ty.id()));
    }
    match noder.get_unchecked_ty_value(ctx, ty) {
        UncheckedTyValue::Named(named) => match named.module {
            Some(name) => noder.lookup_dep(ctx, name).is_some(),
            None => true,
        },
        UncheckedTyValue::Func(func) => {
            let mut i: usize = 0;
            while i < func.params.len()
                invariant
                    ctx.wf(),
                    ctx.has_module(noder.module()),
                    ustore == ctx.unchecked_ty_store@,
                    deps == ctx.modules()[noder.module().id() as int].deps.as_map(),
                    ustore[ty.id() as int] == UncheckedTyModel::Func(func.params@, func.return_ty),
                    crate::compiler::ty_store::ty_children_below(ustore[ty.id() as int], ty.id()),
                    ty.id() < ustore.len(),
                    i <= func.params@.len(),
                    forall|k: int| 0 <= k < i ==> aliases_known(ustore, #[trigger] func.params@[k], deps),
                decreases func.params@.len() - i,
            {
                if !known_aliases(noder, ctx, func.params[i]) {
                    return false;
                }
                i = i + 1;
            }
            known_aliases(noder, ctx, func.return_ty)
        },
        _ => true,
    }
}

/// Checks the unchecked type `ty` of the module: the checked type, interned, with literal
/// types made `i64` and `f64` and module aliases resolved. Every alias in `ty` must be one the
/// module uses.
pub fn check_single_type(noder: &Noder, ctx: &mut Context, ty: UncheckedTy) -> (r: CheckedTy)
    requires
        old(ctx).wf(),
        old(ctx).has_module(noder.module()),
        ty.id() < old(ctx).unchecked_ty_store@.len(),
        aliases_known(
            old(ctx).unchecked_ty_store@,
            ty,
            old(ctx).modules()[noder.module().id() as int].deps.as_map(),
        ),
    ensures
        node_frame(old(ctx), final(ctx)),
        final(ctx).hir_store == old(ctx).hir_store,
        checks_to(
            final(ctx).checked_ty_store@,
            old(ctx).unchecked_ty_store@,
            ty,
            r,
            noder.module(),
            old(ctx).modules()[noder.module().id() as int].deps.as_map(),
        ),
    decreases ty.id(),
{
    let ghost ustore = ctx.unchecked_ty_store@;
    let ghost deps = ctx.modules()[noder.module().id() as int].deps.as_map();
    proof {
        lemma_node_frame_refl(ctx);
        assert(crate::compiler::ty_store::ty_children_below(ustore[ty.id() as int], ty.id()));
    }
    let checked_ty: CheckedTyValue = match noder.get_unchecked_ty_value(ctx, ty) {
        UncheckedTyValue::Panic => CheckedTyValue::Panic,
        UncheckedTyValue::Unit => CheckedTyValue::Unit,
        UncheckedTyValue::ILiteral => CheckedTyValue::I64,
        UncheckedTyValue::I64 => CheckedTyValue::I64,
        UncheckedTyValue::FLiteral => CheckedTyValue::F64,
        UncheckedTyValue::F64 => CheckedTyValue::F64,
        UncheckedTyValue::Bool => CheckedTyValue::Bool,
        UncheckedTyValue::Named(named) => {
            let named = *named;
            let module = match named.module {
                Some(name) => noder.find_dep(ctx, name),
                None => noder.module,
            };
            CheckedTyValue::Named(NamedTy { module, name: named.name })
        },
        UncheckedTyValue::Func(func) => {
            let ps = crate::index_vec::copy_vec(&func.params);
            let ret = func.return_ty;
            let mut params: Vec<CheckedTy> = Vec::new();
            let mut i: usize = 0;
            while i < ps.len()
                invariant
                    node_frame(old(ctx), ctx),
                    ctx.hir_store == old(ctx).hir_store,
                    ctx.has_module(noder.module()),
                    ustore == old(ctx).unchecked_ty_store@,
                    deps == old(ctx).modules()[noder.module().id() as int].deps.as_map(),
                    ustore[ty.id() as int] == UncheckedTyModel::Func(ps@, ret),
                    crate::compiler::ty_store::ty_children_below(ustore[ty.id() as int], ty.id()),
                    aliases_known(ustore, ty, deps),
                    ty.id() < ustore.len(),
                    i <= ps@.len(),
                    params@.len() == i,
                    forall|k: int| 0 <= k < i ==> checks_to(ctx.checked_ty_store@, ustore, #[trigger] ps@[k], params@[k], noder.module(), deps),
                decreases ps@.len() - i,
            {
                let ghost c0 = *ctx;
                let checked = check_single_type(noder, ctx, ps[i]);
                proof {
                    lemma_node_frame_trans(old(ctx), &c0, ctx);
                    assert forall|k: int| 0 <= k < i implies checks_to(ctx.checked_ty_store@, ustore, #[trigger] ps@[k], params@[k], noder.module(), deps) by {
                        lemma_checks_to_mono(c0.checked_ty_store@, ctx.checked_ty_store@, ustore, ps@[k], params@[k], noder.module(), deps);
                    }
                }
                params.push(checked);
                i = i + 1;
            }
            let ghost c1 = *ctx;
            let return_ty = check_single_type(noder, ctx, ret);
            proof {
                lemma_node_frame_trans(old(ctx), &c1, ctx);
                assert forall|k: int| 0 <= k < ps@.len() implies checks_to(ctx.checked_ty_store@, ustore, #[trigger] ps@[k], params@[k], noder.module(), deps) by {
                    lemma_checks_to_mono(c1.checked_ty_store@, ctx.checked_ty_store@, ustore, ps@[k], params@[k], noder.module(), deps);
                }
            }
            CheckedTyValue::Func(FuncTy { params, return_ty })
        },
    };
    let ghost c2 = *ctx;
    let ghost m = checked_ty@;
    let r = noder.get_checked_ty(ctx, checked_ty);
    proof {
        lemma_node_frame_trans(old(ctx), &c2, ctx);
        crate::compiler::str_store::lemma_interned_prefix(c2.checked_ty_store@, m);
        match ustore[ty.id() as int] {
            UncheckedTyModel::Func(ps, rt) => {
                assert forall|k: int| 0 <= k < ps.len() implies checks_to(ctx.checked_ty_store@, ustore, #[trigger] ps[k], m->Func_0[k], noder.module(), deps) by {
                    lemma_checks_to_mono(c2.checked_ty_store@, ctx.checked_ty_store@, ustore, ps[k], m->Func_0[k], noder.module(), deps);
                }
                lemma_checks_to_mono(c2.checked_ty_store@, ctx.checked_ty_store@, ustore, rt, m->Func_1, noder.module(), deps);
                assert(names_cty(ctx.checked_ty_store@, r, CheckedTyModel::Func(m->Func_0, m->Func_1)));
            },
            _ => {},
        }
    }
    r
}

/// The parameter and return types of the function that `func` calls, if `func` is a name bound
/// to a function declaration whose type is a function type.
pub open spec fn callee_type(ctx: &Context, idents: Map<Expr, Decl>, func: Expr) -> Option<(Seq<CheckedTy>, CheckedTy)> {
    if idents.contains_key(func) && idents[func].id() < ctx.hir_store.decls().len() {
        match ctx.hir_store.decls()[idents[func].id() as int] {
            DeclValue::Func(f) => if f.ty.id() < ctx.checked_ty_store@.len() {
                match ctx.checked_ty_store@[f.ty.id() as int] {
                    CheckedTyModel::Func(ps, r) => Some((ps, r)),
                    _ => None,
                }
            } else {
                None
            },
            _ => None,
        }
    } else {
        None
    }
}

/// `t` is the type checking gives the expression `e`: literals and statements have their fixed
/// types, invalid expressions the panic type, a call the return type of the function it calls,
/// a range the range type (or the panic type when its ends differ, which both get too), and a
/// binary operation the type its right operand ends up with.
pub open spec fn expr_typed(ctx: &Context, idents: Map<Expr, Decl>, e: ExprValue, t: CheckedTy) -> bool {
    let cs = ctx.checked_ty_store@;
    let types = ctx.hir_store.types();
    match e {
        ExprValue::Invalid(_) => names_cty(cs, t, CheckedTyModel::Panic),
        ExprValue::Call(c) => callee_type(ctx, idents, c.func) matches Some((ps, rt)) && t == rt && ps.len()
            == c.args@.len(),
        ExprValue::Param(p) => t == p.ty,
        ExprValue::Block(_) => names_cty(cs, t, CheckedTyModel::Unit),
        ExprValue::If(_) => names_cty(cs, t, CheckedTyModel::Unit),
        ExprValue::Loop(_) => names_cty(cs, t, CheckedTyModel::Unit),
        ExprValue::Break => names_cty(cs, t, CheckedTyModel::Unit),
        ExprValue::Range(r) => names_cty(cs, t, CheckedTyModel::Range) || (names_cty(cs, t, CheckedTyModel::Panic)
            && names_cty(cs, types[r.start], CheckedTyModel::Panic) && names_cty(cs, types[r.end], CheckedTyModel::Panic)),
        ExprValue::Binary(b) => t == types[b.right],
        ExprValue::IntLiteral(_) => names_cty(cs, t, CheckedTyModel::I64),
        ExprValue::FloatLiteral(_) => names_cty(cs, t, CheckedTyModel::F64),
        ExprValue::BoolLiteral(_) => names_cty(cs, t, CheckedTyModel::Bool),
        _ => false,
    }
}

/// The type checking gives the expression `e`, if checking accepts it: literals and statements
/// have their fixed types, invalid expressions the panic type, a parameter its declared type, a
/// call the return type of the function it calls when each argument has the type of its
/// parameter, a range the range type and a binary operation the type of its operands when both
/// have one type, and the panic type when they differ. Names used as values and `return` are
/// not accepted.
pub open spec fn type_of(ctx: &Context, idents: Map<Expr, Decl>, e: Expr) -> Option<CheckedTyModel>
    decreases e.id(), 1nat, 0nat,
{
    let exprs = ctx.hir_store.exprs();
    let cs = ctx.checked_ty_store@;
    if e.id() >= exprs.len() {
        None
    } else {
        match exprs[e.id() as int] {
            ExprValue::Invalid(_) => Some(CheckedTyModel::Panic),
            ExprValue::Identifier(_) => None,
            ExprValue::Return(_) => None,
            ExprValue::Param(p) => if p.ty.id() < cs.len() {
                Some(cs[p.ty.id() as int])
            } else {
                None
            },
            ExprValue::Block(_) => Some(CheckedTyModel::Unit),
            ExprValue::If(_) => Some(CheckedTyModel::Unit),
            ExprValue::Loop(_) => Some(CheckedTyModel::Unit),
            ExprValue::Break => Some(CheckedTyModel::Unit),
            ExprValue::IntLiteral(_) => Some(CheckedTyModel::I64),
            ExprValue::FloatLiteral(_) => Some(CheckedTyModel::F64),
            ExprValue::BoolLiteral(_) => Some(CheckedTyModel::Bool),
            ExprValue::Range(r) => if r.start.id() < e.id() && r.end.id() < e.id() {
                match (type_of(ctx, idents, r.start), type_of(ctx, idents, r.end)) {
                    (Some(a), Some(b)) => Some(if a == b { CheckedTyModel::Range } else { CheckedTyModel::Panic }),
                    _ => None,
                }
            } else {
                None
            },
            ExprValue::Binary(b) => if b.left.id() < e.id() && b.right.id() < e.id() {
                match (type_of(ctx, idents, b.left), type_of(ctx, idents, b.right)) {
                    (Some(x), Some(y)) => Some(if x == y { x } else { CheckedTyModel::Panic }),
                    _ => None,
                }
            } else {
                None
            },
            ExprValue::Call(c) => match callee_type(ctx, idents, c.func) {
                Some((ps, rt)) => if rt.id() < cs.len() && ps.len() == c.args@.len() && args_typed(ctx, idents, c.args@, ps, e.id()) {
                    Some(cs[rt.id() as int])
                } else {
                    None
                },
                None => None,
            },
        }
    }
}

/// Checking gives `e` a type, and `t` is its id.
pub open spec fn gives(ctx: &Context, idents: Map<Expr, Decl>, e: Expr, t: CheckedTy) -> bool {
    type_of(ctx, idents, e) matches Some(m) && names_cty(ctx.checked_ty_store@, t, m)
}

/// Each argument of `args` with an id below `bound` has, as checking gives it, the type that
/// the parameter of `ps` at its place names.
pub open spec fn args_typed(ctx: &Context, idents: Map<Expr, Decl>, args: Seq<Expr>, ps: Seq<CheckedTy>, bound: nat) -> bool
    decreases bound, 0nat, args.len(),
{
    if args.len() == 0 {
        true
    } else {
        &&& args[0].id() < bound
        &&& ps.len() > 0
        &&& ps[0].id() < ctx.checked_ty_store@.len()
        &&& type_of(ctx, idents, args[0]) == Some(ctx.checked_ty_store@[ps[0].id() as int])
        &&& args_typed(ctx, idents, args.drop_first(), ps.drop_first(), bound)
    }
}

/// `args_typed`, argument by argument.
pub proof fn lemma_args_typed(ctx: &Context, idents: Map<Expr, Decl>, args: Seq<Expr>, ps: Seq<CheckedTy>, bound: nat)
    requires
        crate::hir::hir::all_below(args, bound),
        args.len() == ps.len(),
    ensures
        args_typed(ctx, idents, args, ps, bound) == forall|k: int| 0 <= k < args.len() ==> (#[trigger] ps[k]).id()
            < ctx.checked_ty_store@.len() && type_of(ctx, idents, args[k]) == Some(ctx.checked_ty_store@[ps[k].id() as int]),
    decreases args.len(),
{
    if args.len() > 0 {
        let (a1, p1) = (args.drop_first(), ps.drop_first());
        assert(crate::hir::hir::all_below(a1, bound)) by {
            assert forall|i: int| 0 <= i < a1.len() implies (#[trigger] a1[i]).id() < bound by {
                assert(a1[i] == args[i + 1]);
            }
        }
        lemma_args_typed(ctx, idents, a1, p1, bound);
        let cs = ctx.checked_ty_store@;
        if args_typed(ctx, idents, args, ps, bound) {
            assert forall|k: int| 0 <= k < args.len() implies (#[trigger] ps[k]).id() < cs.len() && type_of(ctx, idents, args[k])
                == Some(cs[ps[k].id() as int]) by {
                if k > 0 {
                    assert(a1[k - 1] == args[k] && p1[k - 1] == ps[k]);
                }
            }
        }
        if forall|k: int| 0 <= k < args.len() ==> (#[trigger] ps[k]).id() < cs.len() && type_of(ctx, idents, args[k])
            == Some(cs[ps[k].id() as int]) {
            assert forall|k: int| 0 <= k < a1.len() implies (#[trigger] p1[k]).id() < cs.len() && type_of(ctx, idents, a1[k])
                == Some(cs[p1[k].id() as int]) by {
                assert(a1[k] == args[k + 1] && p1[k] == ps[k + 1]);
            }
            assert(ps[0].id() < cs.len());
        }
    }
}

/// The type checking gives an expression stays the same as checking goes on.
pub proof fn lemma_type_of_grow(c1: &Context, c2: &Context, idents: Map<Expr, Decl>, e: Expr)
    requires
        check_frame(c1, c2),
        type_of(c1, idents, e) is Some,
    ensures
        type_of(c2, idents, e) == type_of(c1, idents, e),
    decreases e.id(), 1nat, 0nat,
{
    let cs1 = c1.checked_ty_store@;
    let cs2 = c2.checked_ty_store@;
    assert forall|i: int| 0 <= i < cs1.len() implies #[trigger] cs2[i] == cs1[i] by {
        assert(cs2.subrange(0, cs1.len() as int)[i] == cs2[i]);
    }
    match c1.hir_store.exprs()[e.id() as int] {
        ExprValue::Range(r) => {
            lemma_type_of_grow(c1, c2, idents, r.start);
            lemma_type_of_grow(c1, c2, idents, r.end);
        },
        ExprValue::Binary(b) => {
            lemma_type_of_grow(c1, c2, idents, b.left);
            lemma_type_of_grow(c1, c2, idents, b.right);
        },
        ExprValue::Call(c) => {
            lemma_callee_kept(c1, c2, idents, c.func);
            let (ps, rt) = callee_type(c1, idents, c.func)->0;
            lemma_args_typed_grow(c1, c2, idents, c.args@, ps, e.id());
        },
        _ => {},
    }
}

proof fn lemma_args_typed_grow(c1: &Context, c2: &Context, idents: Map<Expr, Decl>, args: Seq<Expr>, ps: Seq<CheckedTy>, bound: nat)
    requires
        check_frame(c1, c2),
        args_typed(c1, idents, args, ps, bound),
    ensures
        args_typed(c2, idents, args, ps, bound),
    decreases bound, 0nat, args.len(),
{
    if args.len() > 0 {
        let cs1 = c1.checked_ty_store@;
        let cs2 = c2.checked_ty_store@;
        assert(cs2.subrange(0, cs1.len() as int)[ps[0].id() as int] == cs2[ps[0].id() as int]);
        lemma_type_of_grow(c1, c2, idents, args[0]);
        lemma_args_typed_grow(c1, c2, idents, args.drop_first(), ps.drop_first(), bound);
    }
}

/// Where the store holds no more types than ids can name, the id of a type is its place.
pub proof fn lemma_names_cty_at(cs: Seq<CheckedTyModel>, t: CheckedTy, m: CheckedTyModel)
    requires
        names_cty(cs, t, m),
        cs.len() <= u32::MAX,
    ensures
        t.id() < cs.len(),
        cs[t.id() as int] == m,
{
    assert(cs[cs.index_of(m)] == m);
}

/// In a store without repeats, the id of the type at a place is that place.
pub proof fn lemma_names_cty_of(cs: Seq<CheckedTyModel>, t: CheckedTy)
    requires
        t.id() < cs.len(),
        cs.no_duplicates(),
    ensures
        names_cty(cs, t, cs[t.id() as int]),
{
    let m = cs[t.id() as int];
    assert(cs.contains(m));
    let j = cs.index_of(m);
    assert(cs[j] == m);
    assert(j == t.id());
    assert(t.id() < 0x1_0000_0000) by {
        CheckedTy::lemma_id(t, t);
    }
}

/// Checking accepts an expression that holds, where checking looks, no name, call, parameter or
/// `return`.
pub proof fn lemma_simple_typed(ctx: &Context, idents: Map<Expr, Decl>, e: Expr)
    requires
        check_simple(ctx.hir_store.exprs(), e),
    ensures
        type_of(ctx, idents, e) is Some,
    decreases e.id(),
{
    match ctx.hir_store.exprs()[e.id() as int] {
        ExprValue::Range(r) => {
            lemma_simple_typed(ctx, idents, r.start);
            lemma_simple_typed(ctx, idents, r.end);
        },
        ExprValue::Binary(b) => {
            lemma_simple_typed(ctx, idents, b.left);
            lemma_simple_typed(ctx, idents, b.right);
        },
        _ => {},
    }
}

/// Two operands checked one after the other: once both are checked, their types are those
/// checking gives them, and their ids are equal exactly when the types are.
proof fn lemma_pair_typed(c1: &Context, c2: &Context, idents: Map<Expr, Decl>, a: Expr, b: Expr, ta: CheckedTy, tb: CheckedTy)
    requires
        check_frame(c1, c2),
        c1.checked_ty_store@.len() <= u32::MAX ==> gives(c1, idents, a, ta),
        c2.checked_ty_store@.len() <= u32::MAX ==> gives(c2, idents, b, tb),
    ensures
        c2.checked_ty_store@.len() <= u32::MAX ==> {
            &&& gives(c2, idents, a, ta)
            &&& (ta == tb <==> type_of(c2, idents, a) == type_of(c2, idents, b))
        },
{
    let (cs1, cs2) = (c1.checked_ty_store@, c2.checked_ty_store@);
    if cs2.len() <= u32::MAX {
        let ma = type_of(c1, idents, a)->0;
        let mb = type_of(c2, idents, b)->0;
        lemma_type_of_grow(c1, c2, idents, a);
        lemma_names_cty_prefix(cs1, cs2, ta, ma);
        lemma_names_cty_at(cs2, ta, ma);
        lemma_names_cty_at(cs2, tb, mb);
        CheckedTy::lemma_id(ta, tb);
    }
}

/// Two checked operands keep their types to the end of checking.
proof fn lemma_pair_final(c2: &Context, c3: &Context, idents: Map<Expr, Decl>, a: Expr, b: Expr, ta: CheckedTy, tb: CheckedTy)
    requires
        check_frame(c2, c3),
        c2.checked_ty_store@.len() <= u32::MAX ==> gives(c2, idents, a, ta),
        c2.checked_ty_store@.len() <= u32::MAX ==> gives(c2, idents, b, tb),
        c2.checked_ty_store@.len() <= u32::MAX ==> (ta == tb <==> type_of(c2, idents, a) == type_of(c2, idents, b)),
    ensures
        c3.checked_ty_store@.len() <= u32::MAX ==> {
            &&& type_of(c3, idents, a) == type_of(c2, idents, a)
            &&& type_of(c3, idents, b) == type_of(c2, idents, b)
            &&& gives(c3, idents, a, ta)
            &&& gives(c3, idents, b, tb)
            &&& (ta == tb <==> type_of(c3, idents, a) == type_of(c3, idents, b))
        },
{
    if c3.checked_ty_store@.len() <= u32::MAX {
        lemma_typed_kept(c2, c3, idents, a, ta);
        lemma_typed_kept(c2, c3, idents, b, tb);
        lemma_type_of_grow(c2, c3, idents, a);
        lemma_type_of_grow(c2, c3, idents, b);
    }
}

/// What checking gives stays given as checking goes on.
proof fn lemma_typed_kept(c1: &Context, c2: &Context, idents: Map<Expr, Decl>, a: Expr, ta: CheckedTy)
    requires
        check_frame(c1, c2),
        c1.checked_ty_store@.len() <= u32::MAX ==> gives(c1, idents, a, ta),
    ensures
        c2.checked_ty_store@.len() <= u32::MAX ==> gives(c2, idents, a, ta),
{
    if c2.checked_ty_store@.len() <= u32::MAX {
        let ma = type_of(c1, idents, a)->0;
        lemma_type_of_grow(c1, c2, idents, a);
        lemma_names_cty_prefix(c1.checked_ty_store@, c2.checked_ty_store@, ta, ma);
    }
}

proof fn lemma_callee_kept(c0: &Context, c1: &Context, idents: Map<Expr, Decl>, func: Expr)
    requires
        check_frame(c0, c1),
        callee_type(c0, idents, func) is Some,
    ensures
        callee_type(c1, idents, func) == callee_type(c0, idents, func),
{
    let d = idents[func];
    if let DeclValue::Func(f) = c0.hir_store.decls()[d.id() as int] {
        assert(c0.checked_ty_store@[f.ty.id() as int] == c1.checked_ty_store@[f.ty.id() as int]) by {
            assert(c0.checked_ty_store@[f.ty.id() as int] == c1.checked_ty_store@.subrange(0, c0.checked_ty_store@.len() as int)[f.ty.id() as int]);
        }
    }
}

/// The checker accepts `e` without looking a name up: where the checker looks (through ranges
/// and binary operations), `e` holds no name, call, parameter or `return`.
pub open spec fn check_simple(store: Seq<ExprValue>, e: Expr) -> bool
    decreases e.id(),
{
    if e.id() < store.len() {
        match store[e.id() as int] {
            ExprValue::Identifier(_) => false,
            ExprValue::Return(_) => false,
            ExprValue::Call(_) => false,
            ExprValue::Param(_) => false,
            ExprValue::Range(r) => r.start.id() < e.id() && r.end.id() < e.id() && check_simple(store, r.start)
                && check_simple(store, r.end),
            ExprValue::Binary(b) => b.left.id() < e.id() && b.right.id() < e.id() && check_simple(store, b.left)
                && check_simple(store, b.right),
            _ => true,
        }
    } else {
        false
    }
}

/// What checking keeps: the named trees are untouched and only types are recorded, each
/// recorded type staying recorded.
pub open spec fn check_frame(c0: &Context, c1: &Context) -> bool {
    &&& node_frame(c0, c1)
    &&& c1.hir_store.decls() == c0.hir_store.decls()
    &&& c1.hir_store.exprs() == c0.hir_store.exprs()
    &&& forall|k: Expr| #[trigger] c0.hir_store.types().contains_key(k) ==> c1.hir_store.types().contains_key(k)
}

pub proof fn lemma_check_frame_trans(c0: &Context, c1: &Context, c2: &Context)
    requires
        check_frame(c0, c1),
        check_frame(c1, c2),
    ensures
        check_frame(c0, c2),
{
    lemma_node_frame_trans(c0, c1, c2);
}

pub proof fn lemma_check_frame_refl(c: &Context)
    requires
        c.wf(),
    ensures
        check_frame(c, c),
{
    lemma_node_frame_refl(c);
}

/// A type as checking works it out before recording it: a type with no parts, or a type the
/// store holds.
pub enum TyDesc {
    Base(CheckedTyValue),
    Stored(CheckedTy),
}

/// The type `d` stands for.
pub open spec fn desc_model(cs: Seq<CheckedTyModel>, d: TyDesc) -> CheckedTyModel {
    match d {
        TyDesc::Base(v) => v@,
        TyDesc::Stored(t) => cs[t.id() as int],
    }
}

/// A stored type `d` names is held by the store.
pub open spec fn desc_ok(cs: Seq<CheckedTyModel>, d: TyDesc) -> bool {
    match d {
        TyDesc::Base(_) => true,
        TyDesc::Stored(t) => t.id() < cs.len(),
    }
}

/// Whether `a` and `b` stand for the same type.
fn same_desc(ctx: &Context, a: &TyDesc, b: &TyDesc) -> (r: bool)
    requires
        ctx.wf(),
        desc_ok(ctx.checked_ty_store@, *a),
        desc_ok(ctx.checked_ty_store@, *b),
    ensures
        r == (desc_model(ctx.checked_ty_store@, *a) == desc_model(ctx.checked_ty_store@, *b)),
{
    let ghost cs = ctx.checked_ty_store@;
    match (a, b) {
        (TyDesc::Base(v), TyDesc::Base(w)) => v.same_as(w),
        (TyDesc::Base(v), TyDesc::Stored(t)) => v.same_as(ctx.checked_ty_store.get_ty_value(*t)),
        (TyDesc::Stored(t), TyDesc::Base(w)) => ctx.checked_ty_store.get_ty_value(*t).same_as(w),
        (TyDesc::Stored(t), TyDesc::Stored(u)) => {
            proof {
                CheckedTy::lemma_id(*t, *u);
                if cs[t.id() as int] == cs[u.id() as int] && t.id() != u.id() {
                    assert(cs.no_duplicates());
                }
            }
            t.index() == u.index()
        },
    }
}

/// Checks the types of the named trees of a module.
pub struct Checker {
    ident_map: IdMap<Expr, Decl>,
    return_ty: CheckedTy,
}

impl Checker {
    /// The declaration each name used means.
    pub closed spec fn idents(&self) -> Map<Expr, Decl> {
        self.ident_map.as_map()
    }

    /// The return type of the function being checked.
    pub closed spec fn return_type(&self) -> CheckedTy {
        self.return_ty
    }

    pub closed spec fn wf(&self) -> bool {
        self.ident_map.wf()
    }

    /// A checker that knows what each name of the symbol table means.
    pub fn new(sym_table: SymTable) -> (r: Self)
        requires
            sym_table.wf(),
            sym_table.named_all(),
        ensures
            r.wf(),
            forall|e: crate::ast::ast::Expr| #[trigger] sym_table.idents().contains_key(e) ==> r.idents().contains_key(sym_table.exprs()[e]),
            forall|h: Expr| #[trigger] r.idents().contains_key(h) ==> exists|e: crate::ast::ast::Expr|
                #[trigger] sym_table.idents().contains_key(e) && sym_table.exprs()[e] == h && r.idents()[h] == sym_table.decls()[sym_table.idents()[e]],
    {
        let ident_map = sym_table.get_ident_map();
        Checker { ident_map, return_ty: CheckedTy(0) }
    }

    /// Works out, without recording anything, the type checking gives `expr`, or why checking
    /// does not accept it.
    pub fn type_desc(&self, noder: &Noder, ctx: &Context, expr: Expr) -> (r: Result<TyDesc, NodeHalt>)
        requires
            ctx.wf(),
            self.wf(),
            ctx.hir_store.has_expr(expr),
        ensures
            r matches Ok(d) ==> desc_ok(ctx.checked_ty_store@, d) && type_of(ctx, self.idents(), expr) == Some(
                desc_model(ctx.checked_ty_store@, d),
            ),
            r is Err ==> type_of(ctx, self.idents(), expr) is None,
            r matches Err(h) ==> !(h is QualifiedName) && !(h is UnknownModule),
        decreases expr.id(),
    {
        let ghost e0 = ctx.hir_store.exprs()[expr.id() as int];
        let ghost cs = ctx.checked_ty_store@;
        proof {
            assert(crate::hir::hir::all_below(crate::hir::hir::children(e0), expr.id()));
        }
        match noder.get_hir_expr_value(ctx, expr) {
            ExprValue::Invalid(_) => Ok(TyDesc::Base(CheckedTyValue::Panic)),
            ExprValue::Identifier(_) => match self.ident_map.get(&expr) {
                Some(_) => Err(NodeHalt::IdentifierType),
                None => Err(NodeHalt::UnboundIdentifier),
            },
            ExprValue::Call(v) => {
                let func = v.func;
                assert(crate::hir::hir::children(e0)[0] == func);
                assert forall|i: int| 0 <= i < v.args@.len() implies (#[trigger] v.args@[i]).id() < expr.id() by {
                    assert(crate::hir::hir::children(e0)[i + 1] == v.args@[i]);
                }
                let decl = match self.ident_map.get(&func) {
                    Some(d) => *d,
                    None => {
                        return Err(NodeHalt::UnboundIdentifier);
                    },
                };
                if decl.index() >= ctx.hir_store.decl_count() {
                    return Err(NodeHalt::UnboundIdentifier);
                }
                let func_ty = match noder.get_hir_decl_value(ctx, decl) {
                    DeclValue::Func(f) => f.ty,
                    _ => {
                        return Err(NodeHalt::CallOfNonFunction);
                    },
                };
                if func_ty.index() >= ctx.checked_ty_store.len() {
                    return Err(NodeHalt::InvalidFunctionType);
                }
                let (params, return_ty) = match noder.get_checked_ty_value(ctx, func_ty) {
                    CheckedTyValue::Func(f) => (&f.params, f.return_ty),
                    _ => {
                        return Err(NodeHalt::InvalidFunctionType);
                    },
                };
                assert(callee_type(ctx, self.idents(), func) == Some((params@, return_ty)));
                if return_ty.index() >= ctx.checked_ty_store.len() {
                    return Err(NodeHalt::InvalidFunctionType);
                }
                if params.len() != v.args.len() {
                    return Err(NodeHalt::ArgumentCount);
                }
                proof {
                    lemma_args_typed(ctx, self.idents(), v.args@, params@, expr.id());
                }
                let mut descs: Vec<TyDesc> = Vec::new();
                let mut i: usize = 0;
                while i < v.args.len()
                    invariant
                        ctx.wf(),
                        self.wf(),
                        forall|k: int| 0 <= k < v.args@.len() ==> (#[trigger] v.args@[k]).id() < expr.id(),
                        expr.id() < ctx.hir_store.exprs().len(),
                        i <= v.args@.len(),
                        descs@.len() == i,
                        params@.len() == v.args@.len(),
                        forall|k: int| 0 <= k < i ==> desc_ok(cs, #[trigger] descs@[k])
                            && type_of(ctx, self.idents(), v.args@[k]) == Some(desc_model(cs, descs@[k])),
                        cs == ctx.checked_ty_store@,
                        e0 == ctx.hir_store.exprs()[expr.id() as int],
                        e0 is Call && e0->Call_0.args@ == v.args@ && e0->Call_0.func == func,
                        callee_type(ctx, self.idents(), func) == Some((params@, return_ty)),
                        return_ty.id() < cs.len(),
                        args_typed(ctx, self.idents(), v.args@, params@, expr.id()) == forall|k: int| 0 <= k < v.args@.len()
                            ==> (#[trigger] params@[k]).id() < cs.len() && type_of(ctx, self.idents(), v.args@[k])
                            == Some(cs[params@[k].id() as int]),
                    decreases v.args@.len() - i,
                {
                    let d = match self.type_desc(noder, ctx, v.args[i]) {
                        Ok(d) => d,
                        Err(h) => {
                            proof {
                                let p = params@[i as int];
                            }
                            return Err(h);
                        },
                    };
                    descs.push(d);
                    i = i + 1;
                }
                let mut k: usize = 0;
                while k < params.len()
                    invariant
                        ctx.wf(),
                        params@.len() == descs@.len(),
                        params@.len() == v.args@.len(),
                        k <= params@.len(),
                        cs == ctx.checked_ty_store@,
                        e0 == ctx.hir_store.exprs()[expr.id() as int],
                        e0 is Call && e0->Call_0.args@ == v.args@ && e0->Call_0.func == func,
                        callee_type(ctx, self.idents(), func) == Some((params@, return_ty)),
                        return_ty.id() < cs.len(),
                        forall|j: int| 0 <= j < descs@.len() ==> desc_ok(cs, #[trigger] descs@[j])
                            && type_of(ctx, self.idents(), v.args@[j]) == Some(desc_model(cs, descs@[j])),
                        forall|j: int| 0 <= j < k ==> (#[trigger] params@[j]).id() < cs.len()
                            && desc_model(cs, descs@[j]) == cs[params@[j].id() as int],
                        args_typed(ctx, self.idents(), v.args@, params@, expr.id()) == forall|j: int| 0 <= j < v.args@.len()
                            ==> (#[trigger] params@[j]).id() < cs.len() && type_of(ctx, self.idents(), v.args@[j])
                            == Some(cs[params@[j].id() as int]),
                    decreases params@.len() - k,
                {
                    let p = params[k];
                    if p.index() >= ctx.checked_ty_store.len() {
                        proof {
                            assert(!args_typed(ctx, self.idents(), v.args@, params@, expr.id())) by {
                                let q = params@[k as int];
                            }
                        }
                        return Err(NodeHalt::ArgumentType);
                    }
                    if !same_desc(ctx, &descs[k], &TyDesc::Stored(p)) {
                        proof {
                            assert(!args_typed(ctx, self.idents(), v.args@, params@, expr.id())) by {
                                let q = params@[k as int];
                                let dk = descs@[k as int];
                            }
                        }
                        return Err(NodeHalt::ArgumentType);
                    }
                    k = k + 1;
                }
                Ok(TyDesc::Stored(return_ty))
            },
            ExprValue::Param(p) => {
                if p.ty.index() >= ctx.checked_ty_store.len() {
                    return Err(NodeHalt::UntypedExpression);
                }
                Ok(TyDesc::Stored(p.ty))
            },
            ExprValue::Block(_) => Ok(TyDesc::Base(CheckedTyValue::Unit)),
            ExprValue::Return(v) => {
                if let Some(e) = v.value {
                    assert(crate::hir::hir::children(e0)[0] == e);
                    let res = self.type_desc(noder, ctx, e);
                    if res.is_err() {
                        return res;
                    }
                }
                Err(NodeHalt::UntypedExpression)
            },
            ExprValue::If(_) => Ok(TyDesc::Base(CheckedTyValue::Unit)),
            ExprValue::Loop(_) => Ok(TyDesc::Base(CheckedTyValue::Unit)),
            ExprValue::Break => Ok(TyDesc::Base(CheckedTyValue::Unit)),
            ExprValue::Range(v) => {
                assert(crate::hir::hir::children(e0)[0] == v.start);
                assert(crate::hir::hir::children(e0)[1] == v.end);
                let a = self.type_desc(noder, ctx, v.start)?;
                let b = self.type_desc(noder, ctx, v.end)?;
                if same_desc(ctx, &a, &b) {
                    Ok(TyDesc::Base(CheckedTyValue::Range))
                } else {
                    Ok(TyDesc::Base(CheckedTyValue::Panic))
                }
            },
            ExprValue::Binary(v) => {
                assert(crate::hir::hir::children(e0)[0] == v.left);
                assert(crate::hir::hir::children(e0)[1] == v.right);
                let a = self.type_desc(noder, ctx, v.left)?;
                let b = self.type_desc(noder, ctx, v.right)?;
                if same_desc(ctx, &a, &b) {
                    Ok(a)
                } else {
                    Ok(TyDesc::Base(CheckedTyValue::Panic))
                }
            },
            ExprValue::IntLiteral(_) => Ok(TyDesc::Base(CheckedTyValue::I64)),
            ExprValue::FloatLiteral(_) => Ok(TyDesc::Base(CheckedTyValue::F64)),
            ExprValue::BoolLiteral(_) => Ok(TyDesc::Base(CheckedTyValue::Bool)),
        }
    }

    /// Whether checking accepts each expression of the body of `decl`, if it is a function; if
    /// not, why not.
    pub fn decl_typeable(&self, noder: &Noder, ctx: &Context, decl: Decl) -> (r: Result<(), NodeHalt>)
        requires
            ctx.wf(),
            self.wf(),
            ctx.hir_store.has_decl(decl),
        ensures
            r is Ok <==> (ctx.hir_store.decls()[decl.id() as int] matches DeclValue::Func(f) ==> forall|i: int|
                0 <= i < f.body.exprs@.len() ==> (#[trigger] type_of(ctx, self.idents(), f.body.exprs@[i])) is Some),
            r matches Err(h) ==> !(h is QualifiedName) && !(h is UnknownModule),
    {
        let ghost dv = ctx.hir_store.decls()[decl.id() as int];
        proof {
            assert(crate::hir::hir::all_below(crate::hir::hir::decl_children(dv), ctx.hir_store.exprs().len()));
        }
        match noder.get_hir_decl_value(ctx, decl) {
            DeclValue::Func(f) => {
                let mut i: usize = 0;
                while i < f.body.exprs.len()
                    invariant
                        ctx.wf(),
                        self.wf(),
                        dv == DeclValue::Func(*f),
                        dv == ctx.hir_store.decls()[decl.id() as int],
                        crate::hir::hir::all_below(f.body.exprs@, ctx.hir_store.exprs().len()),
                        i <= f.body.exprs@.len(),
                        forall|k: int| 0 <= k < i ==> (#[trigger] type_of(ctx, self.idents(), f.body.exprs@[k])) is Some,
                    decreases f.body.exprs@.len() - i,
                {
                    match self.type_desc(noder, ctx, f.body.exprs[i]) {
                        Ok(_) => {},
                        Err(h) => {
                            proof {
                                assert(type_of(ctx, self.idents(), f.body.exprs@[i as int]) is None);
                            }
                            return Err(h);
                        },
                    }
                    i = i + 1;
                }
                Ok(())
            },
            _ => Ok(()),
        }
    }

    /// Checks a declaration: the expressions of a function's body, whose return type it keeps. A
    /// function's type must be a function type, and checking must accept each expression of its
    /// body (`decl_typeable` tells); it fails only when the checked types outgrow their 32-bit ids.
    pub fn check_decl(&mut self, noder: &Noder, ctx: &mut Context, decl: Decl) -> (r: Result<(), NodeHalt>)
        requires
            old(ctx).wf(),
            old(self).wf(),
            old(ctx).hir_store.has_decl(decl),
            old(ctx).hir_store.decls()[decl.id() as int] matches DeclValue::Func(f) ==> f.ty.id() < old(ctx).checked_ty_store@.len()
                && old(ctx).checked_ty_store@[f.ty.id() as int] is Func,
            old(ctx).hir_store.decls()[decl.id() as int] matches DeclValue::Func(f) ==> forall|i: int| 0 <= i < f.body.exprs@.len()
                ==> (#[trigger] type_of(old(ctx), old(self).idents(), f.body.exprs@[i])) is Some,
        ensures
            r is Err ==> final(ctx).checked_ty_store@.len() > u32::MAX,
            check_frame(old(ctx), final(ctx)),
            !(old(ctx).hir_store.decls()[decl.id() as int] is Func) ==> *final(ctx) == *old(ctx),
            final(self).wf(),
            final(self).idents() == old(self).idents(),
            r is Ok ==> (old(ctx).hir_store.decls()[decl.id() as int] matches DeclValue::Func(f) ==> forall|i: int|
                0 <= i < f.body.exprs@.len() ==> final(ctx).hir_store.types().contains_key(#[trigger] f.body.exprs@[i])),
            r matches Err(h) ==> !(h is QualifiedName) && !(h is UnknownModule),
            !(old(ctx).hir_store.decls()[decl.id() as int] is Func) ==> r is Ok && final(self).return_type() == old(self).return_type(),
            r is Ok ==> (old(ctx).hir_store.decls()[decl.id() as int] matches DeclValue::Func(f) ==> final(self).return_type()
                == old(ctx).checked_ty_store@[f.ty.id() as int]->Func_1),
            r is Ok ==> (old(ctx).hir_store.decls()[decl.id() as int] matches DeclValue::Func(f) ==> (final(ctx).checked_ty_store@.len()
                <= u32::MAX ==> forall|i: int| 0 <= i < f.body.exprs@.len() ==> (#[trigger] type_of(
                final(ctx),
                old(self).idents(),
                f.body.exprs@[i],
            )) is Some)),
            old(ctx).hir_store.decls()[decl.id() as int] matches DeclValue::Func(f) ==> ((final(ctx).checked_ty_store@.len()
                <= u32::MAX && forall|i: int| 0 <= i < f.body.exprs@.len()
                ==> (#[trigger] type_of(old(ctx), old(self).idents(), f.body.exprs@[i])) is Some) ==> r is Ok),
            old(ctx).hir_store.decls()[decl.id() as int] matches DeclValue::Func(f) ==> ((forall|i: int| 0 <= i < f.body.exprs@.len() ==> #[trigger] check_simple(
                old(ctx).hir_store.exprs(),
                f.body.exprs@[i],
            )) ==> r is Ok),
    {
        let ghost dv = ctx.hir_store.decls()[decl.id() as int];
        proof {
            lemma_check_frame_refl(ctx);
            assert(crate::hir::hir::all_below(crate::hir::hir::decl_children(dv), ctx.hir_store.exprs().len()));
        }
        match noder.get_hir_decl_value(ctx, decl) {
            DeclValue::Invalid(_) => Ok(()),
            DeclValue::Type(_) => Ok(()),
            DeclValue::Func(v) => {
                let fty = v.ty;
                let body = crate::index_vec::copy_vec(&v.body.exprs);
                let return_ty = match noder.get_checked_ty_value(ctx, fty) {
                    CheckedTyValue::Func(ty) => ty.return_ty,
                    _ => {
                        proof {
                            assert(false);
                        }
                        return Ok(());
                    },
                };
                self.return_ty = return_ty;
                let mut i: usize = 0;
                while i < body.len()
                    invariant
                        check_frame(old(ctx), ctx),
                        self.wf(),
                        self.idents() == old(self).idents(),
                        self.return_type() == old(ctx).checked_ty_store@[fty.id() as int]->Func_1,
                        fty.id() < old(ctx).checked_ty_store@.len(),
                        old(ctx).checked_ty_store@[fty.id() as int] is Func,
                        (dv matches DeclValue::Func(f) && f.body.exprs@ == body@ && f.ty == fty),
                        forall|k: int| 0 <= k < body@.len() ==> (#[trigger] type_of(old(ctx), old(self).idents(), body@[k])) is Some,
                        dv == old(ctx).hir_store.decls()[decl.id() as int],
                        crate::hir::hir::all_below(body@, ctx.hir_store.exprs().len()),
                        ctx.hir_store.exprs() == old(ctx).hir_store.exprs(),
                        i <= body@.len(),
                        forall|k: int| 0 <= k < i ==> ctx.hir_store.types().contains_key(#[trigger] body@[k]),
                        ctx.checked_ty_store@.len() <= u32::MAX ==> forall|k: int| 0 <= k < i ==> (#[trigger] type_of(
                            ctx,
                            self.idents(),
                            body@[k],
                        )) is Some,
                    decreases body@.len() - i,
                {
                    let ghost c0 = *ctx;
                    proof {
                        assert(type_of(old(ctx), self.idents(), body@[i as int]) is Some);
                        lemma_type_of_grow(old(ctx), ctx, self.idents(), body@[i as int]);
                    }
                    let res = self.check_expr(noder, ctx, body[i]);
                    proof {
                        lemma_check_frame_trans(old(ctx), &c0, ctx);
                        if type_of(old(ctx), self.idents(), body@[i as int]) is Some {
                            lemma_type_of_grow(old(ctx), &c0, self.idents(), body@[i as int]);
                        }
                    }
                    match res {
                        Ok(_) => {},
                        Err(h) => {
                            proof {
                                assert(!check_simple(old(ctx).hir_store.exprs(), body@[i as int]));
                            }
                            return Err(h);
                        },
                    }
                    proof {
                        if ctx.checked_ty_store@.len() <= u32::MAX {
                            assert forall|k: int| 0 <= k < i + 1 implies (#[trigger] type_of(ctx, self.idents(), body@[k])) is Some by {
                                if k < i {
                                    lemma_type_of_grow(&c0, ctx, self.idents(), body@[k]);
                                }
                            }
                        }
                    }
                    i = i + 1;
                }
                Ok(())
            },
        }
    }

    /// Checks the expression `expr`, which checking accepts: records its type (and the types of
    /// the parts it checks) and gives it. When the operands of a binary operation or the ends of
    /// a range differ in type, they and the whole get the panic type. It fails only when the
    /// checked types outgrow their 32-bit ids.
    fn check_expr(&self, noder: &Noder, ctx: &mut Context, expr: Expr) -> (r: Result<CheckedTy, NodeHalt>)
        requires
            old(ctx).wf(),
            self.wf(),
            old(ctx).hir_store.has_expr(expr),
            type_of(old(ctx), self.idents(), expr) is Some,
        ensures
            r is Err ==> final(ctx).checked_ty_store@.len() > u32::MAX,
            check_frame(old(ctx), final(ctx)),
            r matches Ok(t) ==> final(ctx).hir_store.types().contains_key(expr) && final(ctx).hir_store.types()[expr]
                == t && expr_typed(final(ctx), self.idents(), old(ctx).hir_store.exprs()[expr.id() as int], t),
            old(ctx).hir_store.exprs()[expr.id() as int] is Identifier ==> r is Err,
            old(ctx).hir_store.exprs()[expr.id() as int] is Return ==> r is Err,
            !(old(ctx).hir_store.exprs()[expr.id() as int] is Identifier || old(ctx).hir_store.exprs()[expr.id() as int] is Return
                || old(ctx).hir_store.exprs()[expr.id() as int] is Call || old(ctx).hir_store.exprs()[expr.id() as int] is Range
                || old(ctx).hir_store.exprs()[expr.id() as int] is Binary || old(ctx).hir_store.exprs()[expr.id() as int] is Param) ==> r is Ok,
            check_simple(old(ctx).hir_store.exprs(), expr) ==> r is Ok,
            r matches Ok(t) ==> (final(ctx).checked_ty_store@.len() <= u32::MAX ==> gives(final(ctx), self.idents(), expr, t)),
            r is Err ==> (final(ctx).checked_ty_store@.len() <= u32::MAX ==> type_of(old(ctx), self.idents(), expr) is None),
            r is Ok && final(ctx).checked_ty_store@.len() <= u32::MAX ==> (old(ctx).hir_store.exprs()[expr.id() as int] matches ExprValue::Binary(b)
                ==> (type_of(final(ctx), self.idents(), b.left) != type_of(final(ctx), self.idents(), b.right) ==> names_cty(
                final(ctx).checked_ty_store@,
                final(ctx).hir_store.types()[b.left],
                CheckedTyModel::Panic,
            ) && names_cty(final(ctx).checked_ty_store@, final(ctx).hir_store.types()[b.right], CheckedTyModel::Panic))),
            r matches Err(h) ==> !(h is QualifiedName) && !(h is UnknownModule),
        decreases expr.id(),
    {
        let ghost e0 = ctx.hir_store.exprs()[expr.id() as int];
        proof {
            lemma_check_frame_refl(ctx);
            assert(crate::hir::hir::all_below(crate::hir::hir::children(e0), expr.id()));
        }
        let value = noder.get_hir_expr_value(ctx, expr);
        match value {
            ExprValue::Invalid(_) => {
                noder.map_ty_value(ctx, expr, CheckedTyValue::Panic);
                proof {
                    lemma_check_frame_trans(old(ctx), old(ctx), ctx);
                }
            },
            ExprValue::Identifier(_) => {
                return match self.ident_map.get(&expr) {
                    Some(_) => Err(NodeHalt::IdentifierType),
                    None => Err(NodeHalt::UnboundIdentifier),
                };
            },
            ExprValue::Call(v) => {
                let func = v.func;
                let args = crate::index_vec::copy_vec(&v.args);
                assert(crate::hir::hir::children(e0)[0] == func);
                assert forall|i: int| 0 <= i < args@.len() implies (#[trigger] args@[i]).id() < expr.id() by {
                    assert(crate::hir::hir::children(e0)[i + 1] == args@[i]);
                }
                let decl = match self.ident_map.get(&func) {
                    Some(d) => *d,
                    None => {
                        return Err(NodeHalt::UnboundIdentifier);
                    },
                };
                if decl.index() >= ctx.hir_store.decl_count() {
                    return Err(NodeHalt::UnboundIdentifier);
                }
                let func_ty = match noder.get_hir_decl_value(ctx, decl) {
                    DeclValue::Func(f) => f.ty,
                    _ => {
                        return Err(NodeHalt::CallOfNonFunction);
                    },
                };
                if func_ty.index() >= ctx.checked_ty_store.len() {
                    return Err(NodeHalt::InvalidFunctionType);
                }
                let (params, return_ty) = match noder.get_checked_ty_value(ctx, func_ty) {
                    CheckedTyValue::Func(f) => (crate::index_vec::copy_vec(&f.params), f.return_ty),
                    _ => {
                        return Err(NodeHalt::InvalidFunctionType);
                    },
                };
                let ghost callee = (params@, return_ty);
                assert(callee_type(ctx, self.idents(), func) == Some(callee));
                if return_ty.index() >= ctx.checked_ty_store.len() {
                    return Err(NodeHalt::InvalidFunctionType);
                }
                if params.len() != args.len() {
                    return Err(NodeHalt::ArgumentCount);
                }
                proof {
                    lemma_args_typed(old(ctx), self.idents(), args@, params@, expr.id());
                }
                let mut arg_ty: Vec<CheckedTy> = Vec::new();
                let mut i: usize = 0;
                while i < args.len()
                    invariant
                        check_frame(old(ctx), ctx),
                        self.wf(),
                        forall|k: int| 0 <= k < args@.len() ==> (#[trigger] args@[k]).id() < expr.id(),
                        expr.id() < ctx.hir_store.exprs().len(),
                        i <= args@.len(),
                        arg_ty@.len() == i,
                        params@.len() == args@.len(),
                        callee_type(ctx, self.idents(), func) == Some(callee),
                        e0 == old(ctx).hir_store.exprs()[expr.id() as int],
                        e0 is Call,
                        args@ == e0->Call_0.args@,
                        func == e0->Call_0.func,
                        callee_type(old(ctx), self.idents(), func) == Some(callee),
                        callee == (params@, return_ty),
                        return_ty.id() < old(ctx).checked_ty_store@.len(),
                        args_typed(old(ctx), self.idents(), args@, params@, expr.id()),
                        args_typed(old(ctx), self.idents(), args@, params@, expr.id()) == forall|k: int| 0 <= k < args@.len()
                            ==> (#[trigger] params@[k]).id() < old(ctx).checked_ty_store@.len() && type_of(old(ctx), self.idents(), args@[k])
                            == Some(old(ctx).checked_ty_store@[params@[k].id() as int]),
                        ctx.checked_ty_store@.len() <= u32::MAX ==> forall|k: int| 0 <= k < i ==> #[trigger] gives(ctx, self.idents(), args@[k], arg_ty@[k]),
                    decreases args@.len() - i,
                {
                    let ghost c0 = *ctx;
                    proof {
                        let p = params@[i as int];
                        lemma_type_of_grow(old(ctx), ctx, self.idents(), args@[i as int]);
                    }
                    let res = self.check_expr(noder, ctx, args[i]);
                    proof {
                        lemma_check_frame_trans(old(ctx), &c0, ctx);
                        lemma_callee_kept(&c0, ctx, self.idents(), func);
                        if type_of(old(ctx), self.idents(), args@[i as int]) is Some {
                            lemma_type_of_grow(old(ctx), &c0, self.idents(), args@[i as int]);
                        }
                    }
                    let t = match res {
                        Ok(t) => t,
                        Err(h) => {
                            proof {
                                if ctx.checked_ty_store@.len() <= u32::MAX {
                                    assert(type_of(old(ctx), self.idents(), args@[i as int]) is None);
                                    if args_typed(old(ctx), self.idents(), args@, params@, expr.id()) {
                                        let p = params@[i as int];
                                        assert(type_of(old(ctx), self.idents(), args@[i as int]) is Some);
                                    }
                                    assert(type_of(old(ctx), self.idents(), expr) is None);
                                }
                            }
                            return Err(h);
                        },
                    };
                    proof {
                        if ctx.checked_ty_store@.len() <= u32::MAX {
                            assert forall|k: int| 0 <= k < i implies #[trigger] gives(ctx, self.idents(), args@[k], arg_ty@[k]) by {
                                lemma_typed_kept(&c0, ctx, self.idents(), args@[k], arg_ty@[k]);
                            }
                        }
                    }
                    arg_ty.push(t);
                    i = i + 1;
                }
                let mut k: usize = 0;
                while k < params.len()
                    invariant
                        params@.len() == arg_ty@.len(),
                        params@.len() == args@.len(),
                        k <= params@.len(),
                        check_frame(old(ctx), ctx),
                        self.wf(),
                        expr.id() < ctx.hir_store.exprs().len(),
                        callee_type(ctx, self.idents(), func) == Some(callee),
                        e0 == old(ctx).hir_store.exprs()[expr.id() as int],
                        e0 is Call,
                        args@ == e0->Call_0.args@,
                        func == e0->Call_0.func,
                        callee_type(old(ctx), self.idents(), func) == Some(callee),
                        callee == (params@, return_ty),
                        return_ty.id() < old(ctx).checked_ty_store@.len(),
                        args_typed(old(ctx), self.idents(), args@, params@, expr.id()),
                        args_typed(old(ctx), self.idents(), args@, params@, expr.id()) == forall|j: int| 0 <= j < args@.len()
                            ==> (#[trigger] params@[j]).id() < old(ctx).checked_ty_store@.len() && type_of(old(ctx), self.idents(), args@[j])
                            == Some(old(ctx).checked_ty_store@[params@[j].id() as int]),
                        ctx.checked_ty_store@.len() <= u32::MAX ==> forall|j: int| 0 <= j < args@.len() ==> #[trigger] gives(ctx, self.idents(), args@[j], arg_ty@[j]),
                        forall|j: int| 0 <= j < k ==> #[trigger] params@[j] == arg_ty@[j],
                    decreases params@.len() - k,
                {
                    if params[k] != arg_ty[k] {
                        proof {
                            if ctx.checked_ty_store@.len() <= u32::MAX && args_typed(old(ctx), self.idents(), args@, params@, expr.id()) {
                                let j = k as int;
                                assert(params@[j].id() < old(ctx).checked_ty_store@.len());
                                lemma_type_of_grow(old(ctx), ctx, self.idents(), args@[j]);
                                assert(gives(ctx, self.idents(), args@[j], arg_ty@[j]));
                                let cs = ctx.checked_ty_store@;
                                assert(cs[params@[j].id() as int] == old(ctx).checked_ty_store@[params@[j].id() as int]) by {
                                    assert(cs.subrange(0, old(ctx).checked_ty_store@.len() as int)[params@[j].id() as int] == cs[params@[j].id() as int]);
                                }
                                assert(type_of(ctx, self.idents(), args@[j]) == Some(cs[params@[j].id() as int]));
                                assert(names_cty(cs, arg_ty@[j], cs[params@[j].id() as int]));
                                lemma_names_cty_of(cs, params@[j]);
                                CheckedTy::lemma_id(params@[j], arg_ty@[j]);
                                assert(false);
                            }
                            if ctx.checked_ty_store@.len() <= u32::MAX {
                                assert(!args_typed(old(ctx), self.idents(), args@, params@, expr.id()));
                            }
                        }
                        return Err(NodeHalt::ArgumentType);
                    }
                    k = k + 1;
                }
                let ghost c1 = *ctx;
                noder.map_ty(ctx, expr, return_ty);
                proof {
                    lemma_callee_kept(&c1, ctx, self.idents(), func);
                    lemma_check_frame_trans(old(ctx), &c1, ctx);
                    let cs = ctx.checked_ty_store@;
                    if cs.len() <= u32::MAX {
                        assert forall|j: int| 0 <= j < args@.len() implies (#[trigger] params@[j]).id() < cs.len()
                            && type_of(ctx, self.idents(), args@[j]) == Some(cs[params@[j].id() as int]) by {
                            assert(params@[j] == arg_ty@[j]);
                            assert(gives(&c1, self.idents(), args@[j], arg_ty@[j]));
                            lemma_names_cty_at(cs, arg_ty@[j], type_of(&c1, self.idents(), args@[j])->0);
                            lemma_type_of_grow(&c1, ctx, self.idents(), args@[j]);
                        }
                        lemma_args_typed(ctx, self.idents(), args@, params@, expr.id());
                        lemma_names_cty_of(cs, return_ty);
                    }
                }
            },
            ExprValue::Param(p) => {
                let ty = p.ty;
                if ty.index() >= ctx.checked_ty_store.len() {
                    return Err(NodeHalt::UntypedExpression);
                }
                noder.map_ty(ctx, expr, ty);
                proof {
                    lemma_names_cty_of(ctx.checked_ty_store@, ty);
                }
                proof {
                    lemma_check_frame_trans(old(ctx), old(ctx), ctx);
                }
            },
            ExprValue::Block(_) => {
                noder.map_ty_value(ctx, expr, CheckedTyValue::Unit);
                proof {
                    lemma_check_frame_trans(old(ctx), old(ctx), ctx);
                }
            },
            ExprValue::Return(v) => {
                let value = v.value;
                if let Some(e) = value {
                    assert(crate::hir::hir::children(e0)[0] == e);
                    let ghost c0 = *ctx;
                    let res = self.check_expr(noder, ctx, e);
                    proof {
                        lemma_check_frame_trans(old(ctx), &c0, ctx);
                    }
                    if res.is_err() {
                        return res;
                    }
                }
                return Err(NodeHalt::UntypedExpression);
            },
            ExprValue::If(_) => {
                noder.map_ty_value(ctx, expr, CheckedTyValue::Unit);
                proof {
                    lemma_check_frame_trans(old(ctx), old(ctx), ctx);
                }
            },
            ExprValue::Loop(_) => {
                noder.map_ty_value(ctx, expr, CheckedTyValue::Unit);
                proof {
                    lemma_check_frame_trans(old(ctx), old(ctx), ctx);
                }
            },
            ExprValue::Range(v) => {
                let v = *v;
                assert(crate::hir::hir::children(e0)[0] == v.start);
                assert(crate::hir::hir::children(e0)[1] == v.end);
                let start = match self.check_expr(noder, ctx, v.start) {
                    Ok(t) => t,
                    Err(h) => {
                        return Err(h);
                    },
                };
                let ghost c1 = *ctx;
                proof {
                    lemma_type_of_grow(old(ctx), &c1, self.idents(), v.end);
                }
                let res = self.check_expr(noder, ctx, v.end);
                proof {
                    lemma_check_frame_trans(old(ctx), &c1, ctx);
                    if type_of(old(ctx), self.idents(), v.end) is Some {
                        lemma_type_of_grow(old(ctx), &c1, self.idents(), v.end);
                    }
                }
                let end = match res {
                    Ok(t) => t,
                    Err(h) => {
                        return Err(h);
                    },
                };
                let ghost c2 = *ctx;
                proof {
                    lemma_pair_typed(&c1, &c2, self.idents(), v.start, v.end, start, end);
                }
                if start != end {
                    noder.map_ty_value(ctx, v.start, CheckedTyValue::Panic);
                    let ghost c3 = *ctx;
                    noder.map_ty_value(ctx, v.end, CheckedTyValue::Panic);
                    let ghost c4 = *ctx;
                    noder.map_ty_value(ctx, expr, CheckedTyValue::Panic);
                    proof {
                        lemma_check_frame_trans(old(ctx), &c2, &c3);
                        lemma_check_frame_trans(old(ctx), &c3, &c4);
                        lemma_check_frame_trans(old(ctx), &c4, ctx);
                        assert(c4.checked_ty_store@ == c3.checked_ty_store@);
                        assert(ctx.checked_ty_store@ == c4.checked_ty_store@);
                        lemma_check_frame_trans(&c2, &c3, &c4);
                        lemma_check_frame_trans(&c2, &c4, ctx);
                        lemma_pair_final(&c2, ctx, self.idents(), v.start, v.end, start, end);
                        if ctx.checked_ty_store@.len() <= u32::MAX {
                            assert(gives(ctx, self.idents(), expr, ctx.hir_store.types()[expr]));
                        }
                    }
                } else {
                    noder.map_ty_value(ctx, expr, CheckedTyValue::Range);
                    proof {
                        lemma_check_frame_trans(old(ctx), &c2, ctx);
                        lemma_pair_final(&c2, ctx, self.idents(), v.start, v.end, start, end);
                        if ctx.checked_ty_store@.len() <= u32::MAX {
                            assert(gives(ctx, self.idents(), expr, ctx.hir_store.types()[expr]));
                        }
                    }
                }
            },
            ExprValue::Break => {
                noder.map_ty_value(ctx, expr, CheckedTyValue::Unit);
                proof {
                    lemma_check_frame_trans(old(ctx), old(ctx), ctx);
                }
            },
            ExprValue::Binary(v) => {
                let v = *v;
                assert(crate::hir::hir::children(e0)[0] == v.left);
                assert(crate::hir::hir::children(e0)[1] == v.right);
                let left = match self.check_expr(noder, ctx, v.left) {
                    Ok(t) => t,
                    Err(h) => {
                        return Err(h);
                    },
                };
                let ghost c1 = *ctx;
                proof {
                    lemma_type_of_grow(old(ctx), &c1, self.idents(), v.right);
                }
                let res = self.check_expr(noder, ctx, v.right);
                proof {
                    lemma_check_frame_trans(old(ctx), &c1, ctx);
                    if type_of(old(ctx), self.idents(), v.right) is Some {
                        lemma_type_of_grow(old(ctx), &c1, self.idents(), v.right);
                    }
                }
                let right = match res {
                    Ok(t) => t,
                    Err(h) => {
                        return Err(h);
                    },
                };
                let ghost c2 = *ctx;
                proof {
                    lemma_pair_typed(&c1, &c2, self.idents(), v.left, v.right, left, right);
                }
                if left != right {
                    noder.map_ty_value(ctx, v.left, CheckedTyValue::Panic);
                    let ghost c3 = *ctx;
                    noder.map_ty_value(ctx, v.right, CheckedTyValue::Panic);
                    let ghost c4 = *ctx;
                    noder.map_ty_value(ctx, expr, CheckedTyValue::Panic);
                    proof {
                        lemma_check_frame_trans(old(ctx), &c2, &c3);
                        lemma_check_frame_trans(old(ctx), &c3, &c4);
                        lemma_check_frame_trans(old(ctx), &c4, ctx);
                        assert(c4.checked_ty_store@ == c3.checked_ty_store@);
                        assert(ctx.checked_ty_store@ == c4.checked_ty_store@);
                        CheckedTy::lemma_id(ctx.hir_store.types()[expr], ctx.hir_store.types()[v.right]);
                        lemma_check_frame_trans(&c2, &c3, &c4);
                        lemma_check_frame_trans(&c2, &c4, ctx);
                        lemma_pair_final(&c2, ctx, self.idents(), v.left, v.right, left, right);
                        if ctx.checked_ty_store@.len() <= u32::MAX {
                            assert(gives(ctx, self.idents(), expr, ctx.hir_store.types()[expr]));
                        }
                    }
                } else {
                    noder.map_ty(ctx, expr, left);
                    proof {
                        lemma_check_frame_trans(old(ctx), &c2, ctx);
                        lemma_pair_final(&c2, ctx, self.idents(), v.left, v.right, left, right);
                        if ctx.checked_ty_store@.len() <= u32::MAX {
                            assert(gives(ctx, self.idents(), expr, ctx.hir_store.types()[expr]));
                        }
                    }
                }
            },
            ExprValue::IntLiteral(_) => {
                noder.map_ty_value(ctx, expr, CheckedTyValue::I64);
                proof {
                    lemma_check_frame_trans(old(ctx), old(ctx), ctx);
                }
            },
            ExprValue::FloatLiteral(_) => {
                noder.map_ty_value(ctx, expr, CheckedTyValue::F64);
                proof {
                    lemma_check_frame_trans(old(ctx), old(ctx), ctx);
                }
            },
            ExprValue::BoolLiteral(_) => {
                noder.map_ty_value(ctx, expr, CheckedTyValue::Bool);
                proof {
                    lemma_check_frame_trans(old(ctx), old(ctx), ctx);
                }
            },
        }
        let t = noder.get_expr_ty(ctx, expr);
        Ok(t)
    }
}

} // verus!
