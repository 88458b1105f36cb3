use vstd::prelude::*;

use crate::compiler::str_store::MStr;
use crate::index_vec::Indexer;
use crate::types::unchecked_ty::UncheckedTy;

verus! {

/// The id of a declaration in the syntax tree.
#[derive(Debug, Clone, Copy, PartialEq, Eq, Hash, Structural)]
pub struct Decl(u32);

impl Indexer for Decl {
    closed spec fn id(&self) -> nat {
        self.0 as nat
    }

    proof fn lemma_id(a: Self, b: Self) {
    }

    fn index(&self) -> (r: usize) {
        self.0 as usize
    }

    fn from_index(value: usize) -> (r: Self) {
        proof {
            crate::index_vec::lemma_u32_wrap(value);
        }
        Decl(value as u32)
    }
}

impl Decl {
    /// The position of the declaration in the store.
    pub fn index(&self) -> (r: usize)
        ensures
            r == self.id(),
    {
        self.0 as usize
    }
}

/// A declaration at the top of a file.
pub enum DeclValue {
    Invalid(&'static str),
    Mod(ModDecl),
    Use(UseDecl),
    Ty(TyDecl),
    Func(FuncDecl),
}

/// `mod name`: the name of the file's module.
#[derive(Clone, Copy)]
pub struct ModDecl {
    pub name: MStr,
}

/// `use ( a; b; )`: the modules a file depends on.
pub struct UseDecl {
    pub deps: Vec<MStr>,
}

/// `type name ty`: a type alias.
#[derive(Clone, Copy)]
pub struct TyDecl {
    pub name: MStr,
    pub ty: UncheckedTy,
}

/// `fn name(params) ret { body }`.
pub struct FuncDecl {
    pub name: MStr,
    pub params: Vec<MStr>,
    pub body: BlockExpr,
    pub ty: UncheckedTy,
}

/// The id of an expression in the syntax tree.
#[derive(Debug, Clone, Copy, PartialEq, Eq, Hash, Structural)]
pub struct Expr(u32);

impl Indexer for Expr {
    closed spec fn id(&self) -> nat {
        self.0 as nat
    }

    proof fn lemma_id(a: Self, b: Self) {
    }

    fn index(&self) -> (r: usize) {
        self.0 as usize
    }

    fn from_index(value: usize) -> (r: Self) {
        proof {
            crate::index_vec::lemma_u32_wrap(value);
        }
        Expr(value as u32)
    }
}

/// An expression. A float literal keeps the interned text it was written with.
pub enum ExprValue {
    Invalid(&'static str),
    Identifier(IdentifierExpr),
    Call(CallExpr),
    Block(BlockExpr),
    Return(ReturnExpr),
    If(IfExpr),
    Loop(LoopExpr),
    Range(RangeExpr),
    Break,
    Binary(BinaryExpr),
    IntLiteral(i64),
    FloatLiteral(MStr),
    BoolLiteral(bool),
}

/// A name, with the alias of the module it is taken from, if any.
#[derive(Clone, Copy)]
pub struct IdentifierExpr {
    pub module: Option<MStr>,
    pub name: MStr,
}

pub struct CallExpr {
    pub func: Expr,
    pub args: Vec<Expr>,
}

pub struct BlockExpr {
    pub exprs: Vec<Expr>,
}

pub struct ReturnExpr {
    pub value: Option<Expr>,
}

pub struct IfExpr {
    pub check: Expr,
    pub success: BlockExpr,
}

pub struct LoopExpr {
    pub body: BlockExpr,
}

#[derive(Clone, Copy)]
pub struct RangeExpr {
    pub start: Expr,
    pub end: Expr,
}

#[derive(Clone, Copy)]
pub struct BinaryExpr {
    pub left: Expr,
    pub operator: Operator,
    pub right: Expr,
}

#[derive(Debug, Clone, Copy, PartialEq, Eq, Structural)]
pub enum Operator {
    Plus,
    Minus,
    Multiply,
    Divide,
    Equal,
    LessThan,
}

/// Every id in `exprs` is below `n`.
pub open spec fn all_below(exprs: Seq<Expr>, n: nat) -> bool {
    forall|i: int| 0 <= i < exprs.len() ==> (#[trigger] exprs[i]).id() < n
}

/// The expressions that `e` holds directly, in the order they are written.
pub open spec fn children(e: ExprValue) -> Seq<Expr> {
    match e {
        ExprValue::Call(c) => seq![c.func] + c.args@,
        ExprValue::Block(b) => b.exprs@,
        ExprValue::Return(r) => match r.value {
            Some(v) => seq![v],
            None => Seq::empty(),
        },
        ExprValue::If(i) => seq![i.check] + i.success.exprs@,
        ExprValue::Loop(l) => l.body.exprs@,
        ExprValue::Range(r) => seq![r.start, r.end],
        ExprValue::Binary(b) => seq![b.left, b.right],
        _ => Seq::empty(),
    }
}

/// Some name in the expression `e`, or in an expression inside it, is taken from another module.
pub open spec fn qualified_in(store: Seq<ExprValue>, e: Expr) -> bool
    decreases e.id(), 1nat, 0nat,
{
    if e.id() < store.len() {
        match store[e.id() as int] {
            ExprValue::Identifier(i) => i.module is Some,
            v => qualified_among(store, children(v), e.id()),
        }
    } else {
        false
    }
}

/// Some expression of `es` with an id below `bound`, or an expression inside one, names
/// something taken from another module.
pub open spec fn qualified_among(store: Seq<ExprValue>, es: Seq<Expr>, bound: nat) -> bool
    decreases bound, 0nat, es.len(),
{
    if es.len() == 0 {
        false
    } else {
        (es[0].id() < bound && qualified_in(store, es[0])) || qualified_among(store, es.drop_first(), bound)
    }
}

/// Some expression of `es`, or inside one, names something taken from another module.
pub open spec fn any_qualified(store: Seq<ExprValue>, es: Seq<Expr>) -> bool {
    exists|k: int| 0 <= k < es.len() && #[trigger] qualified_in(store, es[k])
}

/// For expressions below the bound, `qualified_among` is `any_qualified`.
pub proof fn lemma_qualified_among(store: Seq<ExprValue>, es: Seq<Expr>, bound: nat)
    requires
        all_below(es, bound),
    ensures
        qualified_among(store, es, bound) == any_qualified(store, es),
    decreases es.len(),
{
    if es.len() > 0 {
        let rest = es.drop_first();
        assert(all_below(rest, bound)) by {
            assert forall|i: int| 0 <= i < rest.len() implies (#[trigger] rest[i]).id() < bound by {
                assert(rest[i] == es[i + 1]);
            }
        }
        lemma_qualified_among(store, rest, bound);
        assert(es =~= seq![es[0]] + rest);
        lemma_any_qualified_cons(store, es[0], rest);
    }
}

/// An expression other than a name holds a name taken from another module exactly when one of
/// the expressions it holds does.
pub proof fn lemma_qualified_children(store: Seq<ExprValue>, e: Expr)
    requires
        e.id() < store.len(),
        all_below(children(store[e.id() as int]), e.id()),
        !(store[e.id() as int] is Identifier),
    ensures
        qualified_in(store, e) == any_qualified(store, children(store[e.id() as int])),
{
    lemma_qualified_among(store, children(store[e.id() as int]), e.id());
}

/// A sequence with one expression in front holds a qualified name when that expression or the
/// rest does.
pub proof fn lemma_any_qualified_cons(store: Seq<ExprValue>, x: Expr, rest: Seq<Expr>)
    ensures
        any_qualified(store, seq![x] + rest) == (qualified_in(store, x) || any_qualified(store, rest)),
{
    let s = seq![x] + rest;
    assert(s[0] == x);
    if any_qualified(store, rest) {
        let k = choose|k: int| 0 <= k < rest.len() && #[trigger] qualified_in(store, rest[k]);
        assert(s[k + 1] == rest[k]);
    }
    if any_qualified(store, s) {
        let k = choose|k: int| 0 <= k < s.len() && #[trigger] qualified_in(store, s[k]);
        if k > 0 {
            assert(s[k] == rest[k - 1]);
        }
    }
}

/// Which expressions inside an expression may hold a name taken from another module, by the
/// kind of the expression.
pub proof fn lemma_children_qualified(store: Seq<ExprValue>, e: ExprValue)
    ensures
        match e {
            ExprValue::Call(c) => any_qualified(store, children(e)) == (qualified_in(store, c.func)
                || any_qualified(store, c.args@)),
            ExprValue::Block(b) => any_qualified(store, children(e)) == any_qualified(store, b.exprs@),
            ExprValue::Return(r) => any_qualified(store, children(e)) == match r.value {
                Some(v) => qualified_in(store, v),
                None => false,
            },
            ExprValue::If(i) => any_qualified(store, children(e)) == (qualified_in(store, i.check)
                || any_qualified(store, i.success.exprs@)),
            ExprValue::Loop(l) => any_qualified(store, children(e)) == any_qualified(store, l.body.exprs@),
            ExprValue::Range(r) => any_qualified(store, children(e)) == (qualified_in(store, r.start)
                || qualified_in(store, r.end)),
            ExprValue::Binary(b) => any_qualified(store, children(e)) == (qualified_in(store, b.left)
                || qualified_in(store, b.right)),
            ExprValue::Identifier(_) => true,
            _ => !any_qualified(store, children(e)),
        },
{
    match e {
        ExprValue::Call(c) => {
            lemma_any_qualified_cons(store, c.func, c.args@);
        },
        ExprValue::Return(r) => match r.value {
            Some(v) => {
                lemma_any_qualified_cons(store, v, Seq::empty());
                assert(seq![v] + Seq::<Expr>::empty() =~= seq![v]);
            },
            None => {},
        },
        ExprValue::If(i) => {
            lemma_any_qualified_cons(store, i.check, i.success.exprs@);
        },
        ExprValue::Range(r) => {
            lemma_any_qualified_cons(store, r.start, seq![r.end]);
            lemma_any_qualified_cons(store, r.end, Seq::empty());
            assert(seq![r.start] + seq![r.end] =~= seq![r.start, r.end]);
            assert(seq![r.end] + Seq::<Expr>::empty() =~= seq![r.end]);
        },
        ExprValue::Binary(b) => {
            lemma_any_qualified_cons(store, b.left, seq![b.right]);
            lemma_any_qualified_cons(store, b.right, Seq::empty());
            assert(seq![b.left] + seq![b.right] =~= seq![b.left, b.right]);
            assert(seq![b.right] + Seq::<Expr>::empty() =~= seq![b.right]);
        },
        _ => {},
    }
}

/// `x` is the expression `e` or an expression inside it.
pub open spec fn reaches(store: Seq<ExprValue>, e: Expr, x: Expr) -> bool
    decreases e.id(), 1nat, 0nat,
{
    e == x || (e.id() < store.len() && reaches_among(store, children(store[e.id() as int]), e.id(), x))
}

/// `x` is an expression of `es` with an id below `bound`, or an expression inside one.
pub open spec fn reaches_among(store: Seq<ExprValue>, es: Seq<Expr>, bound: nat, x: Expr) -> bool
    decreases bound, 0nat, es.len(),
{
    if es.len() == 0 {
        false
    } else {
        (es[0].id() < bound && reaches(store, es[0], x)) || reaches_among(store, es.drop_first(), bound, x)
    }
}

/// `x` is an expression of `es`, or an expression inside one.
pub open spec fn reaches_any(store: Seq<ExprValue>, es: Seq<Expr>, x: Expr) -> bool {
    exists|k: int| 0 <= k < es.len() && #[trigger] reaches(store, es[k], x)
}

/// For expressions below the bound, `reaches_among` is `reaches_any`.
pub proof fn lemma_reaches_among(store: Seq<ExprValue>, es: Seq<Expr>, bound: nat, x: Expr)
    requires
        all_below(es, bound),
    ensures
        reaches_among(store, es, bound, x) == reaches_any(store, es, x),
    decreases es.len(),
{
    if es.len() > 0 {
        let rest = es.drop_first();
        assert(all_below(rest, bound)) by {
            assert forall|i: int| 0 <= i < rest.len() implies (#[trigger] rest[i]).id() < bound by {
                assert(rest[i] == es[i + 1]);
            }
        }
        lemma_reaches_among(store, rest, bound, x);
        assert(es =~= seq![es[0]] + rest);
        lemma_reaches_any_cons(store, es[0], rest, x);
    }
}

/// What an expression reaches: itself, and what the expressions it holds reach.
pub proof fn lemma_reaches_unfold(store: Seq<ExprValue>, e: Expr, x: Expr)
    requires
        e.id() < store.len(),
        all_below(children(store[e.id() as int]), e.id()),
    ensures
        reaches(store, e, x) == (e == x || reaches_any(store, children(store[e.id() as int]), x)),
{
    lemma_reaches_among(store, children(store[e.id() as int]), e.id(), x);
}

/// A sequence with one expression in front reaches what that expression or the rest reaches.
pub proof fn lemma_reaches_any_cons(store: Seq<ExprValue>, y: Expr, rest: Seq<Expr>, x: Expr)
    ensures
        reaches_any(store, seq![y] + rest, x) == (reaches(store, y, x) || reaches_any(store, rest, x)),
{
    let s = seq![y] + rest;
    assert(s[0] == y);
    if reaches_any(store, rest, x) {
        let k = choose|k: int| 0 <= k < rest.len() && #[trigger] reaches(store, rest[k], x);
        assert(s[k + 1] == rest[k]);
    }
    if reaches_any(store, s, x) {
        let k = choose|k: int| 0 <= k < s.len() && #[trigger] reaches(store, s[k], x);
        if k > 0 {
            assert(s[k] == rest[k - 1]);
        }
    }
}

/// What the expressions an expression holds reach, by the kind of the expression.
pub proof fn lemma_children_reach(store: Seq<ExprValue>, e: ExprValue, x: Expr)
    ensures
        match e {
            ExprValue::Call(c) => reaches_any(store, children(e), x) == (reaches(store, c.func, x)
                || reaches_any(store, c.args@, x)),
            ExprValue::Block(b) => reaches_any(store, children(e), x) == reaches_any(store, b.exprs@, x),
            ExprValue::Return(r) => reaches_any(store, children(e), x) == match r.value {
                Some(v) => reaches(store, v, x),
                None => false,
            },
            ExprValue::If(i) => reaches_any(store, children(e), x) == (reaches(store, i.check, x)
                || reaches_any(store, i.success.exprs@, x)),
            ExprValue::Loop(l) => reaches_any(store, children(e), x) == reaches_any(store, l.body.exprs@, x),
            ExprValue::Range(r) => reaches_any(store, children(e), x) == (reaches(store, r.start, x)
                || reaches(store, r.end, x)),
            ExprValue::Binary(b) => reaches_any(store, children(e), x) == (reaches(store, b.left, x)
                || reaches(store, b.right, x)),
            _ => !reaches_any(store, children(e), x),
        },
{
    match e {
        ExprValue::Call(c) => {
            lemma_reaches_any_cons(store, c.func, c.args@, x);
        },
        ExprValue::Return(r) => match r.value {
            Some(v) => {
                lemma_reaches_any_cons(store, v, Seq::empty(), x);
                assert(seq![v] + Seq::<Expr>::empty() =~= seq![v]);
            },
            None => {},
        },
        ExprValue::If(i) => {
            lemma_reaches_any_cons(store, i.check, i.success.exprs@, x);
        },
        ExprValue::Range(r) => {
            lemma_reaches_any_cons(store, r.start, seq![r.end], x);
            lemma_reaches_any_cons(store, r.end, Seq::empty(), x);
            assert(seq![r.start] + seq![r.end] =~= seq![r.start, r.end]);
            assert(seq![r.end] + Seq::<Expr>::empty() =~= seq![r.end]);
        },
        ExprValue::Binary(b) => {
            lemma_reaches_any_cons(store, b.left, seq![b.right], x);
            lemma_reaches_any_cons(store, b.right, Seq::empty(), x);
            assert(seq![b.left] + seq![b.right] =~= seq![b.left, b.right]);
            assert(seq![b.right] + Seq::<Expr>::empty() =~= seq![b.right]);
        },
        _ => {},
    }
}

/// The expressions that a declaration holds directly: a function's body.
pub open spec fn decl_children(d: DeclValue) -> Seq<Expr> {
    match d {
        DeclValue::Func(f) => f.body.exprs@,
        _ => Seq::empty(),
    }
}

} // verus!
