use vstd::prelude::*;

use crate::hir::hir::{all_below, children, decl_children, Decl, DeclValue, Expr, ExprValue};
use crate::ast::lexer::Pos;
use crate::index_vec::{IdMap, IndexVec, Indexer};
use crate::types::checked_ty::CheckedTy;

verus! {

/// The named trees of all modules: declarations and expressions, each with the position it
/// starts at, and the type found for each expression checked. Every expression holds only
/// expressions stored before it, so the trees have no cycles.
pub struct HirStore {
    decls: IndexVec<Decl, DeclValue>,
    decl_start: Vec<Pos>,
    exprs: IndexVec<Expr, ExprValue>,
    expr_start: Vec<Pos>,
    ty_map: IdMap<Expr, CheckedTy>,
}

impl HirStore {
    /// The declarations, in the order they were stored.
    pub closed spec fn decls(&self) -> Seq<DeclValue> {
        self.decls@
    }

    /// Where each declaration starts.
    pub closed spec fn decl_starts(&self) -> Seq<Pos> {
        self.decl_start@
    }

    /// The expressions, in the order they were stored.
    pub closed spec fn exprs(&self) -> Seq<ExprValue> {
        self.exprs@
    }

    /// Where each expression starts.
    pub closed spec fn expr_starts(&self) -> Seq<Pos> {
        self.expr_start@
    }

    /// The table of types is consistent.
    pub closed spec fn types_wf(&self) -> bool {
        self.ty_map.wf()
    }

    /// The type found for each expression checked.
    pub closed spec fn types(&self) -> Map<Expr, CheckedTy> {
        self.ty_map.as_map()
    }

    /// Each declaration and expression has its start, every expression holds only expressions
    /// stored before it, and every declaration holds only stored expressions.
    pub open spec fn wf(&self) -> bool {
        &&& self.decl_starts().len() == self.decls().len()
        &&& self.expr_starts().len() == self.exprs().len()
        &&& self.types_wf()
        &&& forall|p: int|
            0 <= p < self.exprs().len() ==> all_below(children(#[trigger] self.exprs()[p]), p as nat)
        &&& forall|p: int|
            0 <= p < self.decls().len() ==> all_below(
                decl_children(#[trigger] self.decls()[p]),
                self.exprs().len(),
            )
    }

    /// `self` holds what `old` held, at the same places, and perhaps more after it.
    pub open spec fn extends(&self, old: &HirStore) -> bool {
        &&& old.decls().is_prefix_of(self.decls())
        &&& old.decl_starts().is_prefix_of(self.decl_starts())
        &&& old.exprs().is_prefix_of(self.exprs())
        &&& old.expr_starts().is_prefix_of(self.expr_starts())
    }

    /// `e` names a stored expression.
    pub open spec fn has_expr(&self, e: Expr) -> bool {
        e.id() < self.exprs().len()
    }

    /// `d` names a stored declaration.
    pub open spec fn has_decl(&self, d: Decl) -> bool {
        d.id() < self.decls().len()
    }

    pub fn new() -> (r: Self)
        ensures
            r.wf(),
            r.decls().len() == 0,
            r.exprs().len() == 0,
            r.types() == Map::<Expr, CheckedTy>::empty(),
    {
        HirStore {
            decls: IndexVec::new(),
            decl_start: Vec::new(),
            exprs: IndexVec::new(),
            expr_start: Vec::new(),
            ty_map: IdMap::new(),
        }
    }

    /// Stores a declaration that starts at `start` and gives its id.
    pub fn get_decl(&mut self, start: Pos, decl: DeclValue) -> (r: Decl)
        requires
            old(self).wf(),
            all_below(decl_children(decl), old(self).exprs().len()),
        ensures
            final(self).wf(),
            final(self).extends(old(self)),
            final(self).decls() == old(self).decls().push(decl),
            final(self).decl_starts() == old(self).decl_starts().push(start),
            final(self).types() == old(self).types(),
            final(self).exprs() == old(self).exprs(),
            final(self).expr_starts() == old(self).expr_starts(),
            r.id() == (old(self).decls().len() as u32) as nat,
            r.id() <= old(self).decls().len(),
    {
        let r = self.decls.push(decl);
        self.decl_start.push(start);
        proof {
            assert forall|p: int| 0 <= p < self.decls().len() implies all_below(
                decl_children(#[trigger] self.decls()[p]),
                self.exprs().len(),
            ) by {
                if p < old(self).decls().len() {
                    assert(self.decls()[p] == old(self).decls()[p]);
                }
            }
            assert(old(self).decls().is_prefix_of(self.decls()));
            assert(old(self).decl_starts().is_prefix_of(self.decl_starts()));
            assert(old(self).exprs().is_prefix_of(self.exprs()));
            assert(old(self).expr_starts().is_prefix_of(self.expr_starts()));
        }
        r
    }

    /// The declaration `decl` names.
    pub fn get_decl_value(&self, decl: Decl) -> (r: &DeclValue)
        requires
            self.has_decl(decl),
        ensures
            *r == self.decls()[decl.id() as int],
    {
        match self.decls.get(decl) {
            Some(v) => v,
            None => {
                assert(false);
                self.decls.get(decl).unwrap()
            },
        }
    }

    /// Stores an expression that starts at `start` and gives its id.
    pub fn get_expr(&mut self, start: Pos, expr: ExprValue) -> (r: Expr)
        requires
            old(self).wf(),
            all_below(children(expr), old(self).exprs().len()),
        ensures
            final(self).wf(),
            final(self).extends(old(self)),
            final(self).exprs() == old(self).exprs().push(expr),
            final(self).expr_starts() == old(self).expr_starts().push(start),
            final(self).types() == old(self).types(),
            final(self).decls() == old(self).decls(),
            final(self).decl_starts() == old(self).decl_starts(),
            r.id() == (old(self).exprs().len() as u32) as nat,
            r.id() <= old(self).exprs().len(),
    {
        let ghost e = expr;
        let r = self.exprs.push(expr);
        self.expr_start.push(start);
        proof {
            assert forall|p: int| 0 <= p < self.exprs().len() implies all_below(
                children(#[trigger] self.exprs()[p]),
                p as nat,
            ) by {
                if p < old(self).exprs().len() {
                    assert(self.exprs()[p] == old(self).exprs()[p]);
                }
            }
            assert forall|p: int| 0 <= p < self.decls().len() implies all_below(
                decl_children(#[trigger] self.decls()[p]),
                self.exprs().len(),
            ) by {
                assert(all_below(decl_children(old(self).decls()[p]), old(self).exprs().len()));
            }
            assert(old(self).decls().is_prefix_of(self.decls()));
            assert(old(self).decl_starts().is_prefix_of(self.decl_starts()));
            assert(old(self).exprs().is_prefix_of(self.exprs()));
            assert(old(self).expr_starts().is_prefix_of(self.expr_starts()));
        }
        r
    }

    /// The expression `expr` names.
    pub fn get_expr_value(&self, expr: Expr) -> (r: &ExprValue)
        requires
            self.has_expr(expr),
        ensures
            *r == self.exprs()[expr.id() as int],
    {
        match self.exprs.get(expr) {
            Some(v) => v,
            None => {
                assert(false);
                self.exprs.get(expr).unwrap()
            },
        }
    }

    /// The number of declarations stored.
    pub fn decl_count(&self) -> (r: usize)
        ensures
            r == self.decls().len(),
    {
        self.decls.len()
    }

    /// The type found for `expr`.
    pub fn get_expr_ty(&self, expr: Expr) -> (r: CheckedTy)
        requires
            self.wf(),
            self.types().contains_key(expr),
        ensures
            r == self.types()[expr],
    {
        match self.ty_map.get(&expr) {
            Some(t) => *t,
            None => {
                assert(false);
                CheckedTy(0)
            },
        }
    }

    /// Records `ty` as the type of `expr`.
    pub fn map_ty(&mut self, expr: Expr, ty: CheckedTy)
        requires
            old(self).wf(),
        ensures
            final(self).wf(),
            final(self).types() == old(self).types().insert(expr, ty),
            final(self).decls() == old(self).decls(),
            final(self).exprs() == old(self).exprs(),
            final(self).decl_starts() == old(self).decl_starts(),
            final(self).expr_starts() == old(self).expr_starts(),
    {
        self.ty_map.insert(expr, ty);
    }
}

} // verus!
