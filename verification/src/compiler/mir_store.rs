use vstd::prelude::*;

use crate::hir::hir::FuncDecl;
use crate::index_vec::{IndexVec, Indexer};
use crate::mir::mir::{
    Block, BlockValue, Func, FuncValue, Inst, Local, LocalValue, Terminator, TerminatorValue, Value,
};
use crate::types::checked_ty::CheckedTy;

verus! {

/// The control flow graphs of all functions: instructions and their types, locals and their
/// types, functions, blocks and block ends. The first block end is `Pending`, shared by every block
/// whose end is not built yet.
pub struct MirStore {
    insts: IndexVec<Value, Inst>,
    inst_ty: IndexVec<Value, CheckedTy>,
    locals: IndexVec<Local, LocalValue>,
    local_ty: IndexVec<Local, CheckedTy>,
    funcs: IndexVec<Func, FuncValue>,
    blocks: IndexVec<Block, BlockValue>,
    terminators: IndexVec<Terminator, TerminatorValue>,
}

impl MirStore {
    /// The functions, in the order they were made.
    pub closed spec fn funcs(&self) -> Seq<FuncValue> {
        self.funcs@
    }

    /// The blocks, in the order they were made.
    pub closed spec fn blocks(&self) -> Seq<BlockValue> {
        self.blocks@
    }

    /// The block ends.
    pub closed spec fn terminators(&self) -> Seq<TerminatorValue> {
        self.terminators@
    }

    /// The first block end is `Pending`.
    pub open spec fn wf(&self) -> bool {
        &&& self.terminators().len() > 0
        &&& self.terminators()[0] is Pending
    }

    /// A store with no functions and the `Pending` block end.
    pub fn new() -> (r: Self)
        ensures
            r.wf(),
            r.funcs().len() == 0,
            r.blocks().len() == 0,
            r.terminators().len() == 1,
    {
        let mut terminators: IndexVec<Terminator, TerminatorValue> = IndexVec::new();
        terminators.push(TerminatorValue::Pending);
        MirStore {
            insts: IndexVec::new(),
            inst_ty: IndexVec::new(),
            locals: IndexVec::new(),
            local_ty: IndexVec::new(),
            funcs: IndexVec::new(),
            blocks: IndexVec::new(),
            terminators,
        }
    }

    /// Makes the function of a named function declaration.
    pub fn create_func(&mut self, decl: FuncDecl) -> (r: Func)
        requires
            old(self).wf(),
        ensures
            final(self).wf(),
            final(self).funcs().len() == old(self).funcs().len() + 1,
            final(self).funcs().drop_last() == old(self).funcs(),
            final(self).funcs().last().name == decl.name,
            final(self).funcs().last().ty == decl.ty,
            final(self).funcs().last().blocks@ == Seq::<Block>::empty(),
            final(self).blocks() == old(self).blocks(),
            r.id() == (old(self).funcs().len() as u32) as nat,
    {
        let func_value = FuncValue::from(decl);
        let r = self.funcs.push(func_value);
        proof {
            assert(self.funcs().drop_last() =~= old(self).funcs());
        }
        r
    }

    /// Makes an empty block, whose end is not built yet, as the last block of `func`.
    pub fn create_block(&mut self, func: Func) -> (r: Block)
        requires
            old(self).wf(),
            func.id() < old(self).funcs().len(),
        ensures
            final(self).wf(),
            final(self).blocks().len() == old(self).blocks().len() + 1,
            final(self).blocks().last().terminator.id() == 0,
            final(self).blocks().last().inst_values@ == Seq::<Value>::empty(),
            r.id() == (old(self).blocks().len() as u32) as nat,
            final(self).funcs() == old(self).funcs().update(
                func.id() as int,
                final(self).funcs()[func.id() as int],
            ),
            final(self).funcs()[func.id() as int].blocks@ == old(self).funcs()[func.id() as int].blocks@.push(r),
    {
        let block_value = BlockValue::new(self);
        let block = self.blocks.push(block_value);
        match self.funcs.get_mut(func) {
            Some(func_value) => {
                func_value.push_block(block);
            },
            None => {},
        }
        block
    }

    /// The block end that stands for an end not built yet.
    pub fn create_none_terminator(&self) -> (r: Terminator)
        ensures
            r.id() == 0,
    {
        Terminator::from_index(0)
    }
}

} // verus!
