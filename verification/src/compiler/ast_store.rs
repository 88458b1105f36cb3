use vstd::prelude::*;

use crate::ast::ast::{all_below, children, decl_children, Decl, DeclValue, Expr, ExprValue};
use crate::ast::lexer::{Pos, Token};
use crate::index_vec::{IndexVec, Indexer};

verus! {

/// The type a declaration gives, if any, is an id below `n`.
pub open spec fn decl_ty_below(d: DeclValue, n: nat) -> bool {
    match d {
        DeclValue::Ty(t) => t.ty.id() < n,
        DeclValue::Func(f) => f.ty.id() < n,
        _ => true,
    }
}

/// The syntax trees of all modules: declarations and expressions, each with the position it
/// starts at. Every expression holds only expressions stored before it, so the trees have no
/// cycles.
pub struct AstStore {
    decls: IndexVec<Decl, DeclValue>,
    decl_start: Vec<Pos>,
    exprs: IndexVec<Expr, ExprValue>,
    expr_start: Vec<Pos>,
}

impl AstStore {
    /// The declarations, in the order they were stored.
    pub closed spec fn decls(&self) -> Seq<DeclValue> {
        self.decls@
    }

    /// Where each declaration starts.
    pub closed spec fn decl_starts(&self) -> Seq<Pos> {
        self.decl_start@
    }

    /// The expressions, in the order they were stored.
    pub closed spec fn exprs(&self) -> Seq<ExprValue> {
        self.exprs@
    }

    /// Where each expression starts.
    pub closed spec fn expr_starts(&self) -> Seq<Pos> {
        self.expr_start@
    }

    /// Each declaration and expression has its start, every expression holds only expressions
    /// stored before it, and every declaration holds only stored expressions.
    pub open spec fn wf(&self) -> bool {
        &&& self.decl_starts().len() == self.decls().len()
        &&& self.expr_starts().len() == self.exprs().len()
        &&& forall|p: int|
            0 <= p < self.exprs().len() ==> all_below(children(#[trigger] self.exprs()[p]), p as nat)
        &&& forall|p: int|
            0 <= p < self.decls().len() ==> all_below(
                decl_children(#[trigger] self.decls()[p]),
                self.exprs().len(),
            )
    }

    /// Every type declared or given to a function is an id below `n`.
    pub open spec fn types_below(&self, n: nat) -> bool {
        forall|p: int| 0 <= p < self.decls().len() ==> decl_ty_below(#[trigger] self.decls()[p], n)
    }

    /// `self` holds what `old` held, at the same places, and perhaps more after it.
    pub open spec fn extends(&self, old: &AstStore) -> bool {
        &&& old.decls().is_prefix_of(self.decls())
        &&& old.decl_starts().is_prefix_of(self.decl_starts())
        &&& old.exprs().is_prefix_of(self.exprs())
        &&& old.expr_starts().is_prefix_of(self.expr_starts())
    }

    /// `e` names a stored expression.
    pub open spec fn has_expr(&self, e: Expr) -> bool {
        e.id() < self.exprs().len()
    }

    /// `d` names a stored declaration.
    pub open spec fn has_decl(&self, d: Decl) -> bool {
        d.id() < self.decls().len()
    }

    pub fn new() -> (r: Self)
        ensures
            r.wf(),
            r.decls().len() == 0,
            r.exprs().len() == 0,
    {
        AstStore {
            decls: IndexVec::new(),
            decl_start: Vec::new(),
            exprs: IndexVec::new(),
            expr_start: Vec::new(),
        }
    }

    /// Stores a declaration that starts at `start` and gives its id.
    pub fn get_decl(&mut self, start: Token, decl: DeclValue) -> (r: Decl)
        requires
            old(self).wf(),
            all_below(decl_children(decl), old(self).exprs().len()),
        ensures
            final(self).wf(),
            final(self).extends(old(self)),
            final(self).decls() == old(self).decls().push(decl),
            final(self).decl_starts() == old(self).decl_starts().push(start.pos),
            final(self).exprs() == old(self).exprs(),
            final(self).expr_starts() == old(self).expr_starts(),
            r.id() == (old(self).decls().len() as u32) as nat,
            r.id() <= old(self).decls().len(),
    {
        let r = self.decls.push(decl);
        self.decl_start.push(start.pos);
        proof {
            assert forall|p: int| 0 <= p < self.decls().len() implies all_below(
                decl_children(#[trigger] self.decls()[p]),
                self.exprs().len(),
            ) by {
                if p < old(self).decls().len() {
                    assert(self.decls()[p] == old(self).decls()[p]);
                }
            }
            assert(old(self).decls().is_prefix_of(self.decls()));
            assert(old(self).decl_starts().is_prefix_of(self.decl_starts()));
            assert(old(self).exprs().is_prefix_of(self.exprs()));
            assert(old(self).expr_starts().is_prefix_of(self.expr_starts()));
        }
        r
    }

    /// The declaration `decl` names.
    pub fn get_decl_value(&self, decl: Decl) -> (r: &DeclValue)
        requires
            self.has_decl(decl),
        ensures
            *r == self.decls()[decl.id() as int],
    {
        match self.decls.get(decl) {
            Some(v) => v,
            None => {
                assert(false);
                self.decls.get(decl).unwrap()
            },
        }
    }

    /// Replaces the declaration `decl` names.
    pub fn set_decl_value(&mut self, decl: Decl, value: DeclValue)
        requires
            old(self).wf(),
            old(self).has_decl(decl),
            all_below(decl_children(value), old(self).exprs().len()),
        ensures
            final(self).wf(),
            final(self).decls() == old(self).decls().update(decl.id() as int, value),
            final(self).decl_starts() == old(self).decl_starts(),
            final(self).exprs() == old(self).exprs(),
            final(self).expr_starts() == old(self).expr_starts(),
    {
        let ghost v = value;
        match self.decls.get_mut(decl) {
            Some(d) => {
                *d = value;
            },
            None => {},
        }
        proof {
            assert forall|p: int| 0 <= p < self.decls().len() implies all_below(
                decl_children(#[trigger] self.decls()[p]),
                self.exprs().len(),
            ) by {
                if p != decl.id() {
                    assert(self.decls()[p] == old(self).decls()[p]);
                }
            }
        }
    }

    /// The number of declarations stored.
    pub fn decl_count(&self) -> (r: usize)
        ensures
            r == self.decls().len(),
    {
        self.decls.len()
    }

    /// The number of expressions stored.
    pub fn expr_count(&self) -> (r: usize)
        ensures
            r == self.exprs().len(),
    {
        self.exprs.len()
    }

    /// Where the declaration `decl` names starts.
    pub fn get_decl_start(&self, decl: Decl) -> (r: Pos)
        requires
            self.wf(),
            self.has_decl(decl),
        ensures
            r == self.decl_starts()[decl.id() as int],
    {
        self.decl_start[decl.index()]
    }

    /// Stores an expression that starts at `start` and gives its id.
    pub fn get_expr(&mut self, start: Token, expr: ExprValue) -> (r: Expr)
        requires
            old(self).wf(),
            all_below(children(expr), old(self).exprs().len()),
        ensures
            final(self).wf(),
            final(self).extends(old(self)),
            final(self).exprs() == old(self).exprs().push(expr),
            final(self).expr_starts() == old(self).expr_starts().push(start.pos),
            final(self).decls() == old(self).decls(),
            final(self).decl_starts() == old(self).decl_starts(),
            r.id() == (old(self).exprs().len() as u32) as nat,
            r.id() <= old(self).exprs().len(),
    {
        let ghost e = expr;
        let r = self.exprs.push(expr);
        self.expr_start.push(start.pos);
        proof {
            assert forall|p: int| 0 <= p < self.exprs().len() implies all_below(
                children(#[trigger] self.exprs()[p]),
                p as nat,
            ) by {
                if p < old(self).exprs().len() {
                    assert(self.exprs()[p] == old(self).exprs()[p]);
                }
            }
            assert forall|p: int| 0 <= p < self.decls().len() implies all_below(
                decl_children(#[trigger] self.decls()[p]),
                self.exprs().len(),
            ) by {
                assert(all_below(decl_children(old(self).decls()[p]), old(self).exprs().len()));
            }
            assert(old(self).decls().is_prefix_of(self.decls()));
            assert(old(self).decl_starts().is_prefix_of(self.decl_starts()));
            assert(old(self).exprs().is_prefix_of(self.exprs()));
            assert(old(self).expr_starts().is_prefix_of(self.expr_starts()));
        }
        r
    }

    /// The expression `expr` names.
    pub fn get_expr_value(&self, expr: Expr) -> (r: &ExprValue)
        requires
            self.has_expr(expr),
        ensures
            *r == self.exprs()[expr.id() as int],
    {
        match self.exprs.get(expr) {
            Some(v) => v,
            None => {
                assert(false);
                self.exprs.get(expr).unwrap()
            },
        }
    }

    /// Where the expression `expr` names starts.
    pub fn get_expr_start(&self, expr: Expr) -> (r: Pos)
        requires
            self.wf(),
            self.has_expr(expr),
        ensures
            r == self.expr_starts()[expr.id() as int],
    {
        self.expr_start[expr.index()]
    }
}

} // verus!
