use vstd::prelude::*;

use crate::compiler::module::Module;
use crate::compiler::str_store::MStr;
use crate::index_vec::Indexer;

verus! {

/// The id of an interned checked type.
#[derive(Debug, Clone, Copy, PartialEq, Eq, Hash, Structural)]
pub struct CheckedTy(pub u32);

impl Indexer for CheckedTy {
    closed spec fn id(&self) -> nat {
        self.0 as nat
    }

    proof fn lemma_id(a: Self, b: Self) {
    }

    fn index(&self) -> (r: usize) {
        self.0 as usize
    }

    fn from_index(value: usize) -> (r: Self) {
        proof {
            crate::index_vec::lemma_u32_wrap(value);
        }
        CheckedTy(value as u32)
    }
}

/// A type after checking: names are resolved to the module that declares them.
pub enum CheckedTyValue {
    Panic,
    Unit,
    I32,
    I64,
    F32,
    F64,
    Bool,
    Range,
    Named(NamedTy),
    Func(FuncTy),
}

/// A type declared by name in a module.
#[derive(Clone, Copy)]
pub struct NamedTy {
    pub module: Module,
    pub name: MStr,
}

/// The type of a function.
pub struct FuncTy {
    pub params: Vec<CheckedTy>,
    pub return_ty: CheckedTy,
}

/// What a checked type is, with the parameters of a function type as a sequence.
pub ghost enum CheckedTyModel {
    Panic,
    Unit,
    I32,
    I64,
    F32,
    F64,
    Bool,
    Range,
    Named(Module, MStr),
    Func(Seq<CheckedTy>, CheckedTy),
}

impl View for CheckedTyValue {
    type V = CheckedTyModel;

    open spec fn view(&self) -> CheckedTyModel {
        match self {
            CheckedTyValue::Panic => CheckedTyModel::Panic,
            CheckedTyValue::Unit => CheckedTyModel::Unit,
            CheckedTyValue::I32 => CheckedTyModel::I32,
            CheckedTyValue::I64 => CheckedTyModel::I64,
            CheckedTyValue::F32 => CheckedTyModel::F32,
            CheckedTyValue::F64 => CheckedTyModel::F64,
            CheckedTyValue::Bool => CheckedTyModel::Bool,
            CheckedTyValue::Range => CheckedTyModel::Range,
            CheckedTyValue::Named(n) => CheckedTyModel::Named(n.module, n.name),
            CheckedTyValue::Func(f) => CheckedTyModel::Func(f.params@, f.return_ty),
        }
    }
}

fn ids_equal(a: &Vec<CheckedTy>, b: &Vec<CheckedTy>) -> (r: bool)
    ensures
        r == (a@ == b@),
{
    if a.len() != b.len() {
        return false;
    }
    let mut i: usize = 0;
    while i < a.len()
        invariant
            a@.len() == b@.len(),
            i <= a@.len(),
            forall|k: int| 0 <= k < i ==> a@[k] == b@[k],
        decreases a@.len() - i,
    {
        if a[i] != b[i] {
            return false;
        }
        i = i + 1;
    }
    assert(a@ =~= b@);
    true
}

impl CheckedTyValue {
    /// Whether the two values are the same type.
    pub fn same_as(&self, other: &CheckedTyValue) -> (r: bool)
        ensures
            r == (self@ == other@),
    {
        match (self, other) {
            (CheckedTyValue::Panic, CheckedTyValue::Panic) => true,
            (CheckedTyValue::Unit, CheckedTyValue::Unit) => true,
            (CheckedTyValue::I32, CheckedTyValue::I32) => true,
            (CheckedTyValue::I64, CheckedTyValue::I64) => true,
            (CheckedTyValue::F32, CheckedTyValue::F32) => true,
            (CheckedTyValue::F64, CheckedTyValue::F64) => true,
            (CheckedTyValue::Bool, CheckedTyValue::Bool) => true,
            (CheckedTyValue::Range, CheckedTyValue::Range) => true,
            (CheckedTyValue::Named(a), CheckedTyValue::Named(b)) => a.module == b.module && a.name
                == b.name,
            (CheckedTyValue::Func(a), CheckedTyValue::Func(b)) => a.return_ty == b.return_ty
                && ids_equal(&a.params, &b.params),
            _ => false,
        }
    }

    /// A copy of the value.
    pub fn duplicate(&self) -> (r: CheckedTyValue)
        ensures
            r@ == self@,
    {
        match self {
            CheckedTyValue::Panic => CheckedTyValue::Panic,
            CheckedTyValue::Unit => CheckedTyValue::Unit,
            CheckedTyValue::I32 => CheckedTyValue::I32,
            CheckedTyValue::I64 => CheckedTyValue::I64,
            CheckedTyValue::F32 => CheckedTyValue::F32,
            CheckedTyValue::F64 => CheckedTyValue::F64,
            CheckedTyValue::Bool => CheckedTyValue::Bool,
            CheckedTyValue::Range => CheckedTyValue::Range,
            CheckedTyValue::Named(n) => CheckedTyValue::Named(*n),
            CheckedTyValue::Func(f) => {
                let mut params: Vec<CheckedTy> = Vec::new();
                let mut i: usize = 0;
                while i < f.params.len()
                    invariant
                        i <= f.params@.len(),
                        params@ == f.params@.take(i as int),
                    decreases f.params@.len() - i,
                {
                    params.push(f.params[i]);
                    i = i + 1;
                    assert(params@ =~= f.params@.take(i as int));
                }
                assert(params@ =~= f.params@);
                CheckedTyValue::Func(FuncTy { params, return_ty: f.return_ty })
            },
        }
    }
}

} // verus!
