use vstd::prelude::*;

use crate::compiler::str_store::MStr;
use crate::index_vec::Indexer;

verus! {

/// The id of an interned unchecked type.
#[derive(Debug, Clone, Copy, PartialEq, Eq, Hash, Structural)]
pub struct UncheckedTy(u32);

impl Indexer for UncheckedTy {
    closed spec fn id(&self) -> nat {
        self.0 as nat
    }

    proof fn lemma_id(a: Self, b: Self) {
    }

    fn index(&self) -> (r: usize) {
        self.0 as usize
    }

    fn from_index(value: usize) -> (r: Self) {
        proof {
            crate::index_vec::lemma_u32_wrap(value);
        }
        UncheckedTy(value as u32)
    }
}

/// A type as the source writes it: names are not resolved yet.
pub enum UncheckedTyValue {
    Panic,
    Unit,
    ILiteral,
    I64,
    FLiteral,
    F64,
    Bool,
    Named(NamedTy),
    Func(FuncTy),
}

/// A type named in the source, with the module alias it was written with, if any.
#[derive(Clone, Copy)]
pub struct NamedTy {
    pub module: Option<MStr>,
    pub name: MStr,
}

/// The type of a function.
pub struct FuncTy {
    pub params: Vec<UncheckedTy>,
    pub return_ty: UncheckedTy,
}

/// What an unchecked type is, with the parameters of a function type as a sequence.
pub ghost enum UncheckedTyModel {
    Panic,
    Unit,
    ILiteral,
    I64,
    FLiteral,
    F64,
    Bool,
    Named(Option<MStr>, MStr),
    Func(Seq<UncheckedTy>, UncheckedTy),
}

impl View for UncheckedTyValue {
    type V = UncheckedTyModel;

    open spec fn view(&self) -> UncheckedTyModel {
        match self {
            UncheckedTyValue::Panic => UncheckedTyModel::Panic,
            UncheckedTyValue::Unit => UncheckedTyModel::Unit,
            UncheckedTyValue::ILiteral => UncheckedTyModel::ILiteral,
            UncheckedTyValue::I64 => UncheckedTyModel::I64,
            UncheckedTyValue::FLiteral => UncheckedTyModel::FLiteral,
            UncheckedTyValue::F64 => UncheckedTyModel::F64,
            UncheckedTyValue::Bool => UncheckedTyModel::Bool,
            UncheckedTyValue::Named(n) => UncheckedTyModel::Named(n.module, n.name),
            UncheckedTyValue::Func(f) => UncheckedTyModel::Func(f.params@, f.return_ty),
        }
    }
}

fn ids_equal(a: &Vec<UncheckedTy>, b: &Vec<UncheckedTy>) -> (r: bool)
    ensures
        r == (a@ == b@),
{
    if a.len() != b.len() {
        return false;
    }
    let mut i: usize = 0;
    while i < a.len()
        invariant
            a@.len() == b@.len(),
            i <= a@.len(),
            forall|k: int| 0 <= k < i ==> a@[k] == b@[k],
        decreases a@.len() - i,
    {
        if a[i] != b[i] {
            return false;
        }
        i = i + 1;
    }
    assert(a@ =~= b@);
    true
}

fn modules_equal(a: Option<MStr>, b: Option<MStr>) -> (r: bool)
    ensures
        r == (a == b),
{
    match (a, b) {
        (Some(x), Some(y)) => x == y,
        (None, None) => true,
        _ => false,
    }
}

impl UncheckedTyValue {
    /// Whether the two values are the same type.
    pub fn same_as(&self, other: &UncheckedTyValue) -> (r: bool)
        ensures
            r == (self@ == other@),
    {
        match (self, other) {
            (UncheckedTyValue::Panic, UncheckedTyValue::Panic) => true,
            (UncheckedTyValue::Unit, UncheckedTyValue::Unit) => true,
            (UncheckedTyValue::ILiteral, UncheckedTyValue::ILiteral) => true,
            (UncheckedTyValue::I64, UncheckedTyValue::I64) => true,
            (UncheckedTyValue::FLiteral, UncheckedTyValue::FLiteral) => true,
            (UncheckedTyValue::F64, UncheckedTyValue::F64) => true,
            (UncheckedTyValue::Bool, UncheckedTyValue::Bool) => true,
            (UncheckedTyValue::Named(a), UncheckedTyValue::Named(b)) => modules_equal(
                a.module,
                b.module,
            ) && a.name == b.name,
            (UncheckedTyValue::Func(a), UncheckedTyValue::Func(b)) => a.return_ty == b.return_ty
                && ids_equal(&a.params, &b.params),
            _ => false,
        }
    }
}

} // verus!
