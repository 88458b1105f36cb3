use vstd::prelude::*;

use crate::ast::ast;
use crate::ast::lexer::Pos;
use crate::compiler::context::Context;
use crate::compiler::module::Module;
use crate::compiler::str_store::MStr;
use crate::hir::hir;
use crate::hir::noder::sym_table::SymTable;
use crate::hir::noder::{lemma_node_frame_refl, lemma_node_frame_trans, node_frame, NodeHalt, Noder};
use crate::index_vec::Indexer;

verus! {

/// The named operator of an operator.
pub open spec fn op_of(o: ast::Operator) -> hir::Operator {
    match o {
        ast::Operator::Plus => hir::Operator::Plus,
        ast::Operator::Minus => hir::Operator::Minus,
        ast::Operator::Multiply => hir::Operator::Multiply,
        ast::Operator::Divide => hir::Operator::Divide,
        ast::Operator::Equal => hir::Operator::Equal,
        ast::Operator::LessThan => hir::Operator::LessThan,
    }
}

/// Naming keeps each binary operator: the named form of a sum is a sum, of a difference a
/// difference, of a product a product, of a quotient a quotient, of an equality test an
/// equality test and of a less-than test a less-than test.
pub proof fn lemma_naming_keeps_operator(a: ast::ExprValue, h: hir::ExprValue, module: Module, deps: Map<MStr, Module>)
    requires
        a is Binary,
        node_result(a, h, module, deps),
    ensures
        h is Binary,
        (a->Binary_0.operator == ast::Operator::Plus) <==> (h->Binary_0.operator == hir::Operator::Plus),
        (a->Binary_0.operator == ast::Operator::Minus) <==> (h->Binary_0.operator == hir::Operator::Minus),
        (a->Binary_0.operator == ast::Operator::Multiply) <==> (h->Binary_0.operator == hir::Operator::Multiply),
        (a->Binary_0.operator == ast::Operator::Divide) <==> (h->Binary_0.operator == hir::Operator::Divide),
        (a->Binary_0.operator == ast::Operator::Equal) <==> (h->Binary_0.operator == hir::Operator::Equal),
        (a->Binary_0.operator == ast::Operator::LessThan) <==> (h->Binary_0.operator == hir::Operator::LessThan),
{
}

/// Different operators have different named operators.
pub proof fn lemma_op_of_injective(x: ast::Operator, y: ast::Operator)
    requires
        op_of(x) == op_of(y),
    ensures
        x == y,
{
}

/// `h` is the named form of `a` in `module`, whose dependencies are `deps`: the same kind of
/// expression, with the same literal, operator, name and number of parts, and a name's module
/// resolved.
pub open spec fn node_result(a: ast::ExprValue, h: hir::ExprValue, module: Module, deps: Map<MStr, Module>) -> bool {
    match a {
        ast::ExprValue::Invalid(m) => h == hir::ExprValue::Invalid(m),
        ast::ExprValue::Identifier(i) => h matches hir::ExprValue::Identifier(hi) && hi.name == i.name
            && hi.module == match i.module {
            Some(alias) => deps[alias],
            None => module,
        },
        ast::ExprValue::Call(c) => h matches hir::ExprValue::Call(hc) && hc.args@.len() == c.args@.len(),
        ast::ExprValue::Block(b) => h matches hir::ExprValue::Block(hb) && hb.exprs@.len() == b.exprs@.len(),
        ast::ExprValue::Return(r) => h matches hir::ExprValue::Return(hr) && (hr.value is Some <==> r.value is Some),
        ast::ExprValue::If(i) => h matches hir::ExprValue::If(hi) && hi.success.exprs@.len() == i.success.exprs@.len(),
        ast::ExprValue::Loop(l) => h matches hir::ExprValue::Loop(hl) && hl.body.exprs@.len() == l.body.exprs@.len(),
        ast::ExprValue::Range(_) => h is Range,
        ast::ExprValue::Break => h is Break,
        ast::ExprValue::Binary(b) => h matches hir::ExprValue::Binary(hb) && hb.operator == op_of(b.operator),
        ast::ExprValue::IntLiteral(n) => h == hir::ExprValue::IntLiteral(n),
        ast::ExprValue::FloatLiteral(s) => h == hir::ExprValue::FloatLiteral(s),
        ast::ExprValue::BoolLiteral(b) => h == hir::ExprValue::BoolLiteral(b),
    }
}

/// `h` in the named store is the named form of `a` in the tree, and so, in the same order, is
/// each expression that `h` holds of each expression that `a` holds.
pub open spec fn named_tree(
    ast: Seq<ast::ExprValue>,
    hir: Seq<hir::ExprValue>,
    a: ast::Expr,
    h: hir::Expr,
    module: Module,
    deps: Map<MStr, Module>,
) -> bool
    decreases a.id(), 1nat, 0nat,
{
    &&& a.id() < ast.len()
    &&& h.id() < hir.len()
    &&& node_result(ast[a.id() as int], hir[h.id() as int], module, deps)
    &&& named_among(ast, hir, ast::children(ast[a.id() as int]), hir::children(hir[h.id() as int]), a.id(), module, deps)
}

/// As many named expressions in `hs` as tree expressions in `es`, and each of `hs` whose tree
/// expression has an id below `bound` is its named form.
pub open spec fn named_among(
    ast: Seq<ast::ExprValue>,
    hir: Seq<hir::ExprValue>,
    es: Seq<ast::Expr>,
    hs: Seq<hir::Expr>,
    bound: nat,
    module: Module,
    deps: Map<MStr, Module>,
) -> bool
    decreases bound, 0nat, es.len(),
{
    &&& es.len() == hs.len()
    &&& es.len() > 0 ==> {
        &&& es[0].id() < bound ==> named_tree(ast, hir, es[0], hs[0], module, deps)
        &&& named_among(ast, hir, es.drop_first(), hs.drop_first(), bound, module, deps)
    }
}

/// Each named expression of `hs` is the named form of the tree expression of `es` at its place.
pub open spec fn named_kids(
    ast: Seq<ast::ExprValue>,
    hir: Seq<hir::ExprValue>,
    es: Seq<ast::Expr>,
    hs: Seq<hir::Expr>,
    module: Module,
    deps: Map<MStr, Module>,
) -> bool {
    &&& es.len() == hs.len()
    &&& forall|k: int| 0 <= k < es.len() ==> #[trigger] named_tree(ast, hir, es[k], hs[k], module, deps)
}

/// For tree expressions below the bound, `named_among` is `named_kids`.
pub proof fn lemma_named_among(
    ast: Seq<ast::ExprValue>,
    hir: Seq<hir::ExprValue>,
    es: Seq<ast::Expr>,
    hs: Seq<hir::Expr>,
    bound: nat,
    module: Module,
    deps: Map<MStr, Module>,
)
    requires
        ast::all_below(es, bound),
    ensures
        named_among(ast, hir, es, hs, bound, module, deps) == named_kids(ast, hir, es, hs, module, deps),
    decreases es.len(),
{
    if es.len() > 0 && es.len() == hs.len() {
        let (es1, hs1) = (es.drop_first(), hs.drop_first());
        assert(ast::all_below(es1, bound)) by {
            assert forall|i: int| 0 <= i < es1.len() implies (#[trigger] es1[i]).id() < bound by {
                assert(es1[i] == es[i + 1]);
            }
        }
        lemma_named_among(ast, hir, es1, hs1, bound, module, deps);
        if named_kids(ast, hir, es, hs, module, deps) {
            assert forall|k: int| 0 <= k < es1.len() implies #[trigger] named_tree(ast, hir, es1[k], hs1[k], module, deps) by {
                assert(es1[k] == es[k + 1] && hs1[k] == hs[k + 1]);
            }
            assert(named_tree(ast, hir, es[0], hs[0], module, deps));
        }
        if named_among(ast, hir, es, hs, bound, module, deps) {
            assert forall|k: int| 0 <= k < es.len() implies #[trigger] named_tree(ast, hir, es[k], hs[k], module, deps) by {
                if k > 0 {
                    assert(es1[k - 1] == es[k] && hs1[k - 1] == hs[k]);
                }
            }
        }
    }
}

/// Named expressions stay the named forms of their trees as the named store grows.
pub proof fn lemma_named_tree_grow(
    ast: Seq<ast::ExprValue>,
    hir1: Seq<hir::ExprValue>,
    hir2: Seq<hir::ExprValue>,
    a: ast::Expr,
    h: hir::Expr,
    module: Module,
    deps: Map<MStr, Module>,
)
    requires
        named_tree(ast, hir1, a, h, module, deps),
        hir1.is_prefix_of(hir2),
    ensures
        named_tree(ast, hir2, a, h, module, deps),
    decreases a.id(), 1nat, 0nat,
{
    assert(hir2[h.id() as int] == hir1[h.id() as int]);
    lemma_named_among_grow(ast, hir1, hir2, ast::children(ast[a.id() as int]), hir::children(hir1[h.id() as int]), a.id(), module, deps);
}

proof fn lemma_named_among_grow(
    ast: Seq<ast::ExprValue>,
    hir1: Seq<hir::ExprValue>,
    hir2: Seq<hir::ExprValue>,
    es: Seq<ast::Expr>,
    hs: Seq<hir::Expr>,
    bound: nat,
    module: Module,
    deps: Map<MStr, Module>,
)
    requires
        named_among(ast, hir1, es, hs, bound, module, deps),
        hir1.is_prefix_of(hir2),
    ensures
        named_among(ast, hir2, es, hs, bound, module, deps),
    decreases bound, 0nat, es.len(),
{
    if es.len() > 0 {
        if es[0].id() < bound {
            lemma_named_tree_grow(ast, hir1, hir2, es[0], hs[0], module, deps);
        }
        lemma_named_among_grow(ast, hir1, hir2, es.drop_first(), hs.drop_first(), bound, module, deps);
    }
}

pub proof fn lemma_named_kids_grow(
    ast: Seq<ast::ExprValue>,
    hir1: Seq<hir::ExprValue>,
    hir2: Seq<hir::ExprValue>,
    es: Seq<ast::Expr>,
    hs: Seq<hir::Expr>,
    module: Module,
    deps: Map<MStr, Module>,
)
    requires
        named_kids(ast, hir1, es, hs, module, deps),
        hir1.is_prefix_of(hir2),
    ensures
        named_kids(ast, hir2, es, hs, module, deps),
{
    assert forall|k: int| 0 <= k < es.len() implies #[trigger] named_tree(ast, hir2, es[k], hs[k], module, deps) by {
        lemma_named_tree_grow(ast, hir1, hir2, es[k], hs[k], module, deps);
    }
}

pub proof fn lemma_named_kids_cons(
    ast: Seq<ast::ExprValue>,
    hir: Seq<hir::ExprValue>,
    e: ast::Expr,
    es: Seq<ast::Expr>,
    h: hir::Expr,
    hs: Seq<hir::Expr>,
    module: Module,
    deps: Map<MStr, Module>,
)
    requires
        named_tree(ast, hir, e, h, module, deps),
        named_kids(ast, hir, es, hs, module, deps),
    ensures
        named_kids(ast, hir, seq![e] + es, seq![h] + hs, module, deps),
{
    let xs = seq![e] + es;
    let ys = seq![h] + hs;
    assert forall|k: int| 0 <= k < xs.len() implies #[trigger] named_tree(ast, hir, xs[k], ys[k], module, deps) by {
        if k > 0 {
            assert(xs[k] == es[k - 1]);
            assert(ys[k] == hs[k - 1]);
        }
    }
}

/// A module alias in `e` that the module does not use, if any.
pub open spec fn unknown_alias(a: ast::ExprValue, deps: Map<MStr, Module>) -> bool {
    a matches ast::ExprValue::Identifier(i) && i.module matches Some(alias) && !deps.contains_key(alias)
}

/// The named expressions made from the syntax tree: the context changes as naming does, the
/// symbol table maps more tree nodes, and nothing else in it changes.
pub open spec fn sym_grows(t0: &SymTable, t1: &SymTable) -> bool {
    &&& t1.wf()
    &&& t1.decls() == t0.decls()
    &&& t1.idents() == t0.idents()
    &&& t1.ident_keys() == t0.ident_keys()
    &&& t1.unknown() == t0.unknown()
    &&& t1.scopes() == t0.scopes()
    &&& t1.current() == t0.current()
    &&& forall|k: ast::Expr| #[trigger] t0.exprs().contains_key(k) ==> t1.exprs().contains_key(k)
}

pub proof fn lemma_sym_grows_refl(t: &SymTable)
    requires
        t.wf(),
    ensures
        sym_grows(t, t),
{
}

pub proof fn lemma_sym_grows_trans(t0: &SymTable, t1: &SymTable, t2: &SymTable)
    requires
        sym_grows(t0, t1),
        sym_grows(t1, t2),
    ensures
        sym_grows(t0, t2),
{
}

/// Names each expression of `exprs`, in order.
pub(crate) fn node_all(noder: &Noder, ctx: &mut Context, sym_table: &mut SymTable, exprs: &Vec<ast::Expr>, Ghost(bound): Ghost<nat>) -> (r: Result<Vec<hir::Expr>, NodeHalt>)
    requires
        old(ctx).wf(),
        old(ctx).has_module(noder.module()),
        old(sym_table).wf(),
        ast::all_below(exprs@, bound),
        bound <= old(ctx).ast_store.exprs().len(),
    ensures
        node_frame(old(ctx), final(ctx)),
        final(ctx).checked_ty_store == old(ctx).checked_ty_store,
        final(ctx).hir_store.types() == old(ctx).hir_store.types(),
        sym_grows(old(sym_table), final(sym_table)),
        r matches Ok(v) ==> v@.len() == exprs@.len() && hir::all_below(v@, final(ctx).hir_store.exprs().len()),
        r matches Ok(v) ==> (final(ctx).hir_store.exprs().len() <= u32::MAX ==> named_kids(
            old(ctx).ast_store.exprs(),
            final(ctx).hir_store.exprs(),
            exprs@,
            v@,
            noder.module(),
            old(ctx).modules()[noder.module().id() as int].deps.as_map(),
        )),
        r is Err ==> ast::any_qualified(old(ctx).ast_store.exprs(), exprs@),
        r is Err ==> r == Err::<Vec<hir::Expr>, NodeHalt>(NodeHalt::UnknownModule),
        r is Ok ==> forall|x: ast::Expr| #[trigger] ast::reaches_any(old(ctx).ast_store.exprs(), exprs@, x)
            ==> final(sym_table).exprs().contains_key(x),
    decreases bound, 0nat,
{
    let mut out: Vec<hir::Expr> = Vec::new();
    proof {
        lemma_node_frame_refl(ctx);
        lemma_sym_grows_refl(sym_table);
    }
    let mut i: usize = 0;
    while i < exprs.len()
        invariant
            node_frame(old(ctx), ctx),
            ctx.has_module(noder.module()),
            ctx.checked_ty_store == old(ctx).checked_ty_store,
            ctx.hir_store.types() == old(ctx).hir_store.types(),
            sym_grows(old(sym_table), sym_table),
            ast::all_below(exprs@, bound),
            bound <= ctx.ast_store.exprs().len(),
            i <= exprs@.len(),
            out@.len() == i,
            hir::all_below(out@, ctx.hir_store.exprs().len()),
            forall|k: int, x: ast::Expr| 0 <= k < i && #[trigger] ast::reaches(old(ctx).ast_store.exprs(), exprs@[k], x)
                ==> sym_table.exprs().contains_key(x),
            ctx.hir_store.exprs().len() <= u32::MAX ==> forall|k: int| 0 <= k < i ==> #[trigger] named_tree(
                old(ctx).ast_store.exprs(),
                ctx.hir_store.exprs(),
                exprs@[k],
                out@[k],
                noder.module(),
                old(ctx).modules()[noder.module().id() as int].deps.as_map(),
            ),
        decreases exprs@.len() - i,
    {
        let ghost c0 = *ctx;
        let ghost t0 = *sym_table;
        let e = match node_expr(noder, ctx, sym_table, exprs[i]) {
            Ok(e) => e,
            Err(h) => {
                proof {
                    lemma_node_frame_trans(old(ctx), &c0, ctx);
                    lemma_sym_grows_trans(old(sym_table), &t0, sym_table);
                    assert(ast::qualified_in(old(ctx).ast_store.exprs(), exprs@[i as int]));
                }
                return Err(h);
            },
        };
        proof {
            lemma_node_frame_trans(old(ctx), &c0, ctx);
            lemma_sym_grows_trans(old(sym_table), &t0, sym_table);
        }
        let ghost out0 = out@;
        out.push(e);
        proof {
            assert forall|k: int, x: ast::Expr| 0 <= k < i + 1 && #[trigger] ast::reaches(old(ctx).ast_store.exprs(), exprs@[k], x)
                implies sym_table.exprs().contains_key(x) by {
                if k < i {
                    assert(t0.exprs().contains_key(x));
                }
            }
            if ctx.hir_store.exprs().len() <= u32::MAX {
                let ast0 = old(ctx).ast_store.exprs();
                let deps = old(ctx).modules()[noder.module().id() as int].deps.as_map();
                assert forall|k: int| 0 <= k < i + 1 implies #[trigger] named_tree(ast0, ctx.hir_store.exprs(), exprs@[k], out@[k], noder.module(), deps) by {
                    if k < i {
                        assert(out@[k] == out0[k]);
                        lemma_named_tree_grow(ast0, c0.hir_store.exprs(), ctx.hir_store.exprs(), exprs@[k], out0[k], noder.module(), deps);
                    }
                }
            }
        }
        i = i + 1;
    }
    proof {
        assert forall|x: ast::Expr| #[trigger] ast::reaches_any(old(ctx).ast_store.exprs(), exprs@, x)
            implies sym_table.exprs().contains_key(x) by {
            let k = choose|k: int| 0 <= k < exprs@.len() && #[trigger] ast::reaches(old(ctx).ast_store.exprs(), exprs@[k], x);
        }
    }
    Ok(out)
}

/// Names the expression `expr` of the module's syntax tree, and its parts first; records in the
/// symbol table which named expression each tree node became.
pub fn node_expr(noder: &Noder, ctx: &mut Context, sym_table: &mut SymTable, expr: ast::Expr) -> (r: Result<hir::Expr, NodeHalt>)
    requires
        old(ctx).wf(),
        old(ctx).has_module(noder.module()),
        old(ctx).ast_store.has_expr(expr),
        old(sym_table).wf(),
    ensures
        node_frame(old(ctx), final(ctx)),
        final(ctx).checked_ty_store == old(ctx).checked_ty_store,
        final(ctx).hir_store.types() == old(ctx).hir_store.types(),
        sym_grows(old(sym_table), final(sym_table)),
        r matches Ok(h) ==> {
            &&& final(ctx).hir_store.exprs().len() > old(ctx).hir_store.exprs().len()
            &&& h.id() == ((final(ctx).hir_store.exprs().len() - 1) as u32) as nat
            &&& h.id() < final(ctx).hir_store.exprs().len()
            &&& node_result(
                old(ctx).ast_store.exprs()[expr.id() as int],
                final(ctx).hir_store.exprs().last(),
                noder.module(),
                old(ctx).modules()[noder.module().id() as int].deps.as_map(),
            )
            &&& final(sym_table).exprs().contains_key(expr)
            &&& final(sym_table).exprs()[expr] == h
            &&& forall|x: ast::Expr| #[trigger] ast::reaches(old(ctx).ast_store.exprs(), expr, x)
                ==> final(sym_table).exprs().contains_key(x)
            &&& final(ctx).hir_store.expr_starts().last() == old(ctx).ast_store.expr_starts()[expr.id() as int]
            &&& final(ctx).hir_store.exprs().len() <= u32::MAX ==> named_tree(
                old(ctx).ast_store.exprs(),
                final(ctx).hir_store.exprs(),
                expr,
                h,
                noder.module(),
                old(ctx).modules()[noder.module().id() as int].deps.as_map(),
            )
        },
        r is Err && !unknown_alias(
            old(ctx).ast_store.exprs()[expr.id() as int],
            old(ctx).modules()[noder.module().id() as int].deps.as_map(),
        ) ==> !(old(ctx).ast_store.exprs()[expr.id() as int] is Identifier),
        r is Err ==> ast::qualified_in(old(ctx).ast_store.exprs(), expr),
        r is Err ==> r == Err::<hir::Expr, NodeHalt>(NodeHalt::UnknownModule),
    decreases expr.id(), 1nat,
{
    let start = noder.get_expr_start(ctx, expr);
    let ghost a = ctx.ast_store.exprs()[expr.id() as int];
    let ghost ast0 = ctx.ast_store.exprs();
    let ghost m = noder.module();
    let ghost deps = ctx.modules()[noder.module().id() as int].deps.as_map();
    let ghost c0 = *ctx;
    let ghost t0 = *sym_table;
    proof {
        assert(ast::all_below(ast::children(a), expr.id()));
        lemma_node_frame_refl(ctx);
        lemma_sym_grows_refl(sym_table);
        if !(a is Identifier) {
            ast::lemma_qualified_children(ctx.ast_store.exprs(), expr);
        }
        ast::lemma_children_qualified(ctx.ast_store.exprs(), a);
    }
    let value: hir::ExprValue = match ctx.ast_store.get_expr_value(expr) {
        ast::ExprValue::Invalid(v) => hir::ExprValue::Invalid(*v),
        ast::ExprValue::Identifier(v) => {
            let v = *v;
            let module = match v.module {
                Some(name) => match noder.lookup_dep(ctx, name) {
                    Some(m) => m,
                    None => {
                        return Err(NodeHalt::UnknownModule);
                    },
                },
                None => noder.module,
            };
            hir::ExprValue::Identifier(hir::IdentifierExpr { module, name: v.name })
        },
        ast::ExprValue::Call(v) => {
            assert(ast::children(a)[0] == v.func);
            assert forall|i: int| 0 <= i < v.args@.len() implies (#[trigger] v.args@[i]).id() < expr.id() by {
                assert(ast::children(a)[i + 1] == v.args@[i]);
            }
            let args_src = crate::index_vec::copy_vec(&v.args);
            let func_src = v.func;
            let func = node_expr(noder, ctx, sym_table, func_src)?;
            let ghost c1 = *ctx;
            let ghost t1 = *sym_table;
            let res = node_all(noder, ctx, sym_table, &args_src, Ghost(expr.id()));
            proof {
                lemma_node_frame_trans(&c0, &c1, ctx);
                lemma_sym_grows_trans(&t0, &t1, sym_table);
            }
            let args = res?;
            let value = hir::ExprValue::Call(hir::CallExpr { func, args });
            proof {
                if ctx.hir_store.exprs().len() <= u32::MAX {
                    lemma_named_tree_grow(ast0, c1.hir_store.exprs(), ctx.hir_store.exprs(), func_src, func, m, deps);
                    lemma_named_kids_cons(ast0, ctx.hir_store.exprs(), func_src, args_src@, func, args@, m, deps);
                    assert(ast::children(a) == seq![func_src] + args_src@);
                    assert(hir::children(value) == seq![func] + args@);
                }
            }
            value
        },
        ast::ExprValue::Block(v) => {
            let src = crate::index_vec::copy_vec(&v.exprs);
            let exprs = node_all(noder, ctx, sym_table, &src, Ghost(expr.id()))?;
            hir::ExprValue::Block(hir::BlockExpr { exprs })
        },
        ast::ExprValue::Return(v) => {
            let value = v.value;
            match value {
                Some(e) => {
                    assert(ast::children(a)[0] == e);
                    let h = node_expr(noder, ctx, sym_table, e)?;
                    let value = hir::ExprValue::Return(hir::ReturnExpr { value: Some(h) });
                    proof {
                        if ctx.hir_store.exprs().len() <= u32::MAX {
                            assert(ast::children(a) == seq![e]);
                            assert(hir::children(value) == seq![h]);
                            assert(named_tree(ast0, ctx.hir_store.exprs(), seq![e][0], seq![h][0], m, deps));
                        }
                    }
                    value
                },
                None => hir::ExprValue::Return(hir::ReturnExpr { value: None }),
            }
        },
        ast::ExprValue::If(v) => {
            assert(ast::children(a)[0] == v.check);
            assert forall|i: int| 0 <= i < v.success.exprs@.len() implies (#[trigger] v.success.exprs@[i]).id() < expr.id() by {
                assert(ast::children(a)[i + 1] == v.success.exprs@[i]);
            }
            let src = crate::index_vec::copy_vec(&v.success.exprs);
            let check_src = v.check;
            let check = node_expr(noder, ctx, sym_table, check_src)?;
            let ghost c1 = *ctx;
            let ghost t1 = *sym_table;
            let res = node_all(noder, ctx, sym_table, &src, Ghost(expr.id()));
            proof {
                lemma_node_frame_trans(&c0, &c1, ctx);
                lemma_sym_grows_trans(&t0, &t1, sym_table);
            }
            let exprs = res?;
            let value = hir::ExprValue::If(hir::IfExpr { check, success: hir::BlockExpr { exprs } });
            proof {
                if ctx.hir_store.exprs().len() <= u32::MAX {
                    lemma_named_tree_grow(ast0, c1.hir_store.exprs(), ctx.hir_store.exprs(), check_src, check, m, deps);
                    lemma_named_kids_cons(ast0, ctx.hir_store.exprs(), check_src, src@, check, exprs@, m, deps);
                    assert(ast::children(a) == seq![check_src] + src@);
                    assert(hir::children(value) == seq![check] + exprs@);
                }
            }
            value
        },
        ast::ExprValue::Loop(v) => {
            let src = crate::index_vec::copy_vec(&v.body.exprs);
            let exprs = node_all(noder, ctx, sym_table, &src, Ghost(expr.id()))?;
            hir::ExprValue::Loop(hir::LoopExpr { body: hir::BlockExpr { exprs } })
        },
        ast::ExprValue::Range(v) => {
            let v = *v;
            assert(ast::children(a)[0] == v.start);
            assert(ast::children(a)[1] == v.end);
            let start_expr = node_expr(noder, ctx, sym_table, v.start)?;
            let ghost c1 = *ctx;
            let ghost t1 = *sym_table;
            let res = node_expr(noder, ctx, sym_table, v.end);
            proof {
                lemma_node_frame_trans(&c0, &c1, ctx);
                lemma_sym_grows_trans(&t0, &t1, sym_table);
            }
            let end_expr = res?;
            let value = hir::ExprValue::Range(hir::RangeExpr { start: start_expr, end: end_expr });
            proof {
                if ctx.hir_store.exprs().len() <= u32::MAX {
                    lemma_named_tree_grow(ast0, c1.hir_store.exprs(), ctx.hir_store.exprs(), v.start, start_expr, m, deps);
                    let (xs, ys) = (ast::children(a), hir::children(value));
                    assert(xs == seq![v.start, v.end] && ys == seq![start_expr, end_expr]);
                    assert(named_tree(ast0, ctx.hir_store.exprs(), xs[0], ys[0], m, deps));
                    assert(named_tree(ast0, ctx.hir_store.exprs(), xs[1], ys[1], m, deps));
                }
            }
            value
        },
        ast::ExprValue::Break => hir::ExprValue::Break,
        ast::ExprValue::Binary(v) => {
            let v = *v;
            assert(ast::children(a)[0] == v.left);
            assert(ast::children(a)[1] == v.right);
            let left = node_expr(noder, ctx, sym_table, v.left)?;
            let ghost c1 = *ctx;
            let ghost t1 = *sym_table;
            let res = node_expr(noder, ctx, sym_table, v.right);
            proof {
                lemma_node_frame_trans(&c0, &c1, ctx);
                lemma_sym_grows_trans(&t0, &t1, sym_table);
            }
            let right = res?;
            let operator = match v.operator {
                ast::Operator::Plus => hir::Operator::Plus,
                ast::Operator::Minus => hir::Operator::Minus,
                ast::Operator::Multiply => hir::Operator::Multiply,
                ast::Operator::Divide => hir::Operator::Divide,
                ast::Operator::Equal => hir::Operator::Equal,
                ast::Operator::LessThan => hir::Operator::LessThan,
            };
            let value = hir::ExprValue::Binary(hir::BinaryExpr { left, operator, right });
            proof {
                if ctx.hir_store.exprs().len() <= u32::MAX {
                    lemma_named_tree_grow(ast0, c1.hir_store.exprs(), ctx.hir_store.exprs(), v.left, left, m, deps);
                    let (xs, ys) = (ast::children(a), hir::children(value));
                    assert(xs == seq![v.left, v.right] && ys == seq![left, right]);
                    assert(named_tree(ast0, ctx.hir_store.exprs(), xs[0], ys[0], m, deps));
                    assert(named_tree(ast0, ctx.hir_store.exprs(), xs[1], ys[1], m, deps));
                }
            }
            value
        },
        ast::ExprValue::IntLiteral(v) => hir::ExprValue::IntLiteral(*v),
        ast::ExprValue::FloatLiteral(v) => hir::ExprValue::FloatLiteral(*v),
        ast::ExprValue::BoolLiteral(v) => hir::ExprValue::BoolLiteral(*v),
    };
    proof {
        if ctx.hir_store.exprs().len() < u32::MAX {
            assert(named_kids(ast0, ctx.hir_store.exprs(), ast::children(a), hir::children(value), m, deps));
        }
    }
    let ghost c2 = *ctx;
    let e = noder.get_expr(ctx, start, value);
    let ghost t2 = *sym_table;
    sym_table.map_expr(expr, e);
    proof {
        lemma_node_frame_trans(old(ctx), &c2, ctx);
        assert forall|x: ast::Expr| #[trigger] ast::reaches(ast0, expr, x) implies sym_table.exprs().contains_key(x) by {
            ast::lemma_reaches_unfold(ast0, expr, x);
            ast::lemma_children_reach(ast0, a, x);
            if x != expr {
                assert(t2.exprs().contains_key(x));
            }
        }
        if ctx.hir_store.exprs().len() <= u32::MAX {
            lemma_named_kids_grow(ast0, c2.hir_store.exprs(), ctx.hir_store.exprs(), ast::children(a), hir::children(value), m, deps);
            lemma_named_among(ast0, ctx.hir_store.exprs(), ast::children(a), hir::children(value), expr.id(), m, deps);
            assert(ctx.hir_store.exprs()[e.id() as int] == value);
        }
    }
    Ok(e)
}

} // verus!
