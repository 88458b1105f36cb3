use vstd::prelude::*;

use crate::compiler::str_store::MStr;
use crate::index_vec::Indexer;
use crate::compiler::module::Module;
use crate::types::checked_ty::CheckedTy;

verus! {

/// The id of a declaration in the checked tree.
#[derive(Debug, Clone, Copy, PartialEq, Eq, Hash, Structural)]
pub struct Decl(u32);

impl Indexer for Decl {
    closed spec fn id(&self) -> nat {
        self.0 as nat
    }

    proof fn lemma_id(a: Self, b: Self) {
    }

    fn index(&self) -> (r: usize) {
        self.0 as usize
    }

    fn from_index(value: usize) -> (r: Self) {
        proof {
            crate::index_vec::lemma_u32_wrap(value);
        }
        Decl(value as u32)
    }
}

/// A declaration after naming: modules and uses are gone, types are checked.
pub enum DeclValue {
    Invalid(&'static str),
    Type(TypeDecl),
    Func(FuncDecl),
}

/// A type alias with its checked type.
#[derive(Clone, Copy)]
pub struct TypeDecl {
    pub name: MStr,
    pub ty: CheckedTy,
}

/// A function with its checked type.
pub struct FuncDecl {
    pub name: MStr,
    pub params: Vec<MStr>,
    pub body: BlockExpr,
    pub ty: CheckedTy,
}

/// The id of an expression in the checked tree.
#[derive(Debug, Clone, Copy, PartialEq, Eq, Hash, Structural)]
pub struct Expr(u32);

impl Indexer for Expr {
    closed spec fn id(&self) -> nat {
        self.0 as nat
    }

    proof fn lemma_id(a: Self, b: Self) {
    }

    fn index(&self) -> (r: usize) {
        self.0 as usize
    }

    fn from_index(value: usize) -> (r: Self) {
        proof {
            crate::index_vec::lemma_u32_wrap(value);
        }
        Expr(value as u32)
    }
}

/// An expression with names resolved to modules. A float literal keeps its interned text.
pub enum ExprValue {
    Invalid(&'static str),
    Identifier(IdentifierExpr),
    Call(CallExpr),
    Param(ParamExpr),
    Block(BlockExpr),
    Return(ReturnExpr),
    If(IfExpr),
    Loop(LoopExpr),
    Range(RangeExpr),
    Break,
    Binary(BinaryExpr),
    IntLiteral(i64),
    FloatLiteral(MStr),
    BoolLiteral(bool),
}

/// A name, with the module it is taken from.
#[derive(Clone, Copy)]
pub struct IdentifierExpr {
    pub module: Module,
    pub name: MStr,
}

/// A function parameter with its checked type.
#[derive(Clone, Copy)]
pub struct ParamExpr {
    pub name: MStr,
    pub ty: CheckedTy,
}

pub struct CallExpr {
    pub func: Expr,
    pub args: Vec<Expr>,
}

pub struct BlockExpr {
    pub exprs: Vec<Expr>,
}

pub struct ReturnExpr {
    pub value: Option<Expr>,
}

pub struct IfExpr {
    pub check: Expr,
    pub success: BlockExpr,
}

pub struct LoopExpr {
    pub body: BlockExpr,
}

#[derive(Clone, Copy)]
pub struct RangeExpr {
    pub start: Expr,
    pub end: Expr,
}

#[derive(Clone, Copy)]
pub struct BinaryExpr {
    pub left: Expr,
    pub operator: Operator,
    pub right: Expr,
}

#[derive(Debug, Clone, Copy, PartialEq, Eq, Structural)]
pub enum Operator {
    Plus,
    Minus,
    Multiply,
    Divide,
    Equal,
    LessThan,
}

/// Every id in `exprs` is below `n`.
pub open spec fn all_below(exprs: Seq<Expr>, n: nat) -> bool {
    forall|i: int| 0 <= i < exprs.len() ==> (#[trigger] exprs[i]).id() < n
}

/// The expressions that `e` holds directly, in the order they are written.
pub open spec fn children(e: ExprValue) -> Seq<Expr> {
    match e {
        ExprValue::Call(c) => seq![c.func] + c.args@,
        ExprValue::Block(b) => b.exprs@,
        ExprValue::Return(r) => match r.value {
            Some(v) => seq![v],
            None => Seq::empty(),
        },
        ExprValue::If(i) => seq![i.check] + i.success.exprs@,
        ExprValue::Loop(l) => l.body.exprs@,
        ExprValue::Range(r) => seq![r.start, r.end],
        ExprValue::Binary(b) => seq![b.left, b.right],
        _ => Seq::empty(),
    }
}

/// The expressions that a declaration holds directly: a function's body.
pub open spec fn decl_children(d: DeclValue) -> Seq<Expr> {
    match d {
        DeclValue::Func(f) => f.body.exprs@,
        _ => Seq::empty(),
    }
}

} // verus!
