use vstd::prelude::*;

use crate::compiler::str_store::{interned, lemma_interned_lookup_dups, MStr};
use crate::index_vec::Indexer;
use crate::types::checked_ty::{CheckedTy, CheckedTyModel, CheckedTyValue};
use crate::types::unchecked_ty::{FuncTy, NamedTy, UncheckedTy, UncheckedTyModel, UncheckedTyValue};

verus! {

/// Interning `t` moved a store from `before` to `after`, and `id` is the id it gave `t`.
pub open spec fn interned_as<T>(before: Seq<T>, after: Seq<T>, t: T, id: nat) -> bool {
    &&& after == interned(before, t)
    &&& after.contains(t)
    &&& id == (after.index_of(t) as u32) as nat
}

/// Interns CheckedTyValue values: each distinct type is held once and named by its CheckedTy id.
pub struct CheckedTyStore {
    vec: Vec<CheckedTyValue>,
}

impl View for CheckedTyStore {
    type V = Seq<CheckedTyModel>;

    closed spec fn view(&self) -> Seq<CheckedTyModel> {
        self.vec@.map_values(|v: CheckedTyValue| v@)
    }
}

impl CheckedTyStore {
    /// Each type is held once.
    pub open spec fn wf(&self) -> bool {
        self@.no_duplicates()
    }

    pub fn new() -> (r: Self)
        ensures
            r.wf(),
            r@ == Seq::<CheckedTyModel>::empty(),
    {
        let r = CheckedTyStore { vec: Vec::new() };
        assert(r@ =~= Seq::<CheckedTyModel>::empty());
        r
    }

    /// Interns `ty`: the id of the type equal to it, added to the store if it was not there.
    pub fn get_ty(&mut self, ty: CheckedTyValue) -> (r: CheckedTy)
        requires
            old(self).wf(),
        ensures
            final(self).wf(),
            interned_as(old(self)@, final(self)@, ty@, r.id()),
            r.id() < final(self)@.len(),
    {
        let n = self.vec.len();
        let mut i: usize = 0;
        while i < n
            invariant
                n == self.vec@.len(),
                i <= n,
                self.wf(),
                forall|k: int| 0 <= k < i ==> self@[k] != ty@,
            decreases n - i,
        {
            if self.vec[i].same_as(&ty) {
                proof {
                    assert(self@[i as int] == ty@);
                    assert(self@.contains(ty@));
                    let j = self@.index_of(ty@);
                    assert(self@[j] == ty@);
                    assert(j == i) by {
                        if j != i {
                            assert(self@[j] != self@[i as int]);
                        }
                    }
                }
                return CheckedTy::from_index(i);
            }
            i = i + 1;
        }
        proof {
            assert(!self@.contains(ty@));
            lemma_interned_lookup_dups(self@, ty@);
        }
        let ghost old_view = self@;
        let ghost tv = ty@;
        self.vec.push(ty);
        proof {
            assert(self@ =~= old_view.push(tv));
            assert(self@[n as int] == tv);
            let j = self@.index_of(tv);
            assert(self@.contains(tv));
            assert(self@[j] == tv);
            assert(j == n);
        }
        CheckedTy::from_index(n)
    }

    /// The number of types held.
    pub fn len(&self) -> (r: usize)
        ensures
            r == self@.len(),
    {
        self.vec.len()
    }

    /// The type that `ty` names.
    pub fn get_ty_value(&self, ty: CheckedTy) -> (r: &CheckedTyValue)
        requires
            ty.id() < self@.len(),
        ensures
            r@ == self@[ty.id() as int],
    {
        &self.vec[ty.index()]
    }
}

/// Interns UncheckedTyValue values: each distinct type is held once and named by its UncheckedTy id.
pub struct UncheckedTyStore {
    vec: Vec<UncheckedTyValue>,
}

impl View for UncheckedTyStore {
    type V = Seq<UncheckedTyModel>;

    closed spec fn view(&self) -> Seq<UncheckedTyModel> {
        self.vec@.map_values(|v: UncheckedTyValue| v@)
    }
}

/// Every type that `t` holds has an id below `n`.
pub open spec fn ty_children_below(t: UncheckedTyModel, n: nat) -> bool {
    match t {
        UncheckedTyModel::Func(ps, r) => r.id() < n && forall|i: int| 0 <= i < ps.len() ==> (#[trigger] ps[i]).id() < n,
        _ => true,
    }
}

impl UncheckedTyStore {
    /// Each type is held once, and holds only types stored before it.
    pub open spec fn wf(&self) -> bool {
        &&& self@.no_duplicates()
        &&& forall|p: int| 0 <= p < self@.len() ==> ty_children_below(#[trigger] self@[p], p as nat)
    }

    pub fn new() -> (r: Self)
        ensures
            r.wf(),
            r@ == Seq::<UncheckedTyModel>::empty(),
    {
        let r = UncheckedTyStore { vec: Vec::new() };
        assert(r@ =~= Seq::<UncheckedTyModel>::empty());
        r
    }

    /// Interns `ty`: the id of the type equal to it, added to the store if it was not there.
    pub fn get_ty(&mut self, ty: UncheckedTyValue) -> (r: UncheckedTy)
        requires
            old(self).wf(),
            ty_children_below(ty@, old(self)@.len()),
        ensures
            final(self).wf(),
            interned_as(old(self)@, final(self)@, ty@, r.id()),
            r.id() < final(self)@.len(),
    {
        let n = self.vec.len();
        let mut i: usize = 0;
        while i < n
            invariant
                n == self.vec@.len(),
                i <= n,
                self.wf(),
                forall|k: int| 0 <= k < i ==> self@[k] != ty@,
            decreases n - i,
        {
            if self.vec[i].same_as(&ty) {
                proof {
                    assert(self@[i as int] == ty@);
                    assert(self@.contains(ty@));
                    let j = self@.index_of(ty@);
                    assert(self@[j] == ty@);
                    assert(j == i) by {
                        if j != i {
                            assert(self@[j] != self@[i as int]);
                        }
                    }
                }
                return UncheckedTy::from_index(i);
            }
            i = i + 1;
        }
        proof {
            assert(!self@.contains(ty@));
            lemma_interned_lookup_dups(self@, ty@);
        }
        let ghost old_view = self@;
        let ghost tv = ty@;
        self.vec.push(ty);
        proof {
            assert(self@ =~= old_view.push(tv));
            assert(self@[n as int] == tv);
            let j = self@.index_of(tv);
            assert(self@.contains(tv));
            assert(self@[j] == tv);
            assert(j == n);
        }
        UncheckedTy::from_index(n)
    }

    /// The type that `ty` names.
    pub fn get_ty_value(&self, ty: UncheckedTy) -> (r: &UncheckedTyValue)
        requires
            ty.id() < self@.len(),
        ensures
            r@ == self@[ty.id() as int],
    {
        &self.vec[ty.index()]
    }

    /// The function type with `params` and `return_ty`, interned.
    pub fn get_fn_type(&mut self, params: Vec<UncheckedTy>, return_ty: UncheckedTy) -> (r: UncheckedTy)
        requires
            old(self).wf(),
            return_ty.id() < old(self)@.len(),
            forall|i: int| 0 <= i < params@.len() ==> (#[trigger] params@[i]).id() < old(self)@.len(),
        ensures
            final(self).wf(),
            interned_as(old(self)@, final(self)@, UncheckedTyModel::Func(params@, return_ty), r.id()),
            r.id() < final(self)@.len(),
    {
        self.get_ty(UncheckedTyValue::Func(FuncTy { params, return_ty }))
    }

    /// The `i64` type, interned.
    pub fn get_i64_ty(&mut self) -> (r: UncheckedTy)
        requires
            old(self).wf(),
        ensures
            final(self).wf(),
            interned_as(old(self)@, final(self)@, UncheckedTyModel::I64, r.id()),
            r.id() < final(self)@.len(),
    {
        self.get_ty(UncheckedTyValue::I64)
    }

    /// The `f64` type, interned.
    pub fn get_f64_ty(&mut self) -> (r: UncheckedTy)
        requires
            old(self).wf(),
        ensures
            final(self).wf(),
            interned_as(old(self)@, final(self)@, UncheckedTyModel::F64, r.id()),
            r.id() < final(self)@.len(),
    {
        self.get_ty(UncheckedTyValue::F64)
    }

    /// The unit type (written `none`), interned.
    pub fn get_none_ty(&mut self) -> (r: UncheckedTy)
        requires
            old(self).wf(),
        ensures
            final(self).wf(),
            interned_as(old(self)@, final(self)@, UncheckedTyModel::Unit, r.id()),
            r.id() < final(self)@.len(),
    {
        self.get_ty(UncheckedTyValue::Unit)
    }

    /// The `bool` type, interned.
    pub fn get_bool_ty(&mut self) -> (r: UncheckedTy)
        requires
            old(self).wf(),
        ensures
            final(self).wf(),
            interned_as(old(self)@, final(self)@, UncheckedTyModel::Bool, r.id()),
            r.id() < final(self)@.len(),
    {
        self.get_ty(UncheckedTyValue::Bool)
    }

    /// The type named `name` (in the module with alias `module`, if given), interned.
    pub fn get_named_ty(&mut self, module: Option<MStr>, name: MStr) -> (r: UncheckedTy)
        requires
            old(self).wf(),
        ensures
            final(self).wf(),
            interned_as(old(self)@, final(self)@, UncheckedTyModel::Named(module, name), r.id()),
            r.id() < final(self)@.len(),
    {
        self.get_ty(UncheckedTyValue::Named(NamedTy { module, name }))
    }
}

} // verus!
