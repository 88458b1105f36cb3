use vstd::prelude::*;

use crate::compiler::str_store::MStr;
use crate::hir::hir::FuncDecl;
use crate::index_vec::Indexer;
use crate::types::checked_ty::CheckedTy;

verus! {

/// The id of an instruction, which is the value it computes.
#[derive(Debug, Clone, Copy, PartialEq, Eq, Hash, Structural)]
pub struct Value(u32);

impl Indexer for Value {
    closed spec fn id(&self) -> nat {
        self.0 as nat
    }

    proof fn lemma_id(a: Self, b: Self) {
    }

    fn index(&self) -> (r: usize) {
        self.0 as usize
    }

    fn from_index(value: usize) -> (r: Self) {
        proof {
            crate::index_vec::lemma_u32_wrap(value);
        }
        Value(value as u32)
    }
}

/// The id of a basic block.
#[derive(Debug, Clone, Copy, PartialEq, Eq, Hash, Structural)]
pub struct Block(u32);

impl Indexer for Block {
    closed spec fn id(&self) -> nat {
        self.0 as nat
    }

    proof fn lemma_id(a: Self, b: Self) {
    }

    fn index(&self) -> (r: usize) {
        self.0 as usize
    }

    fn from_index(value: usize) -> (r: Self) {
        proof {
            crate::index_vec::lemma_u32_wrap(value);
        }
        Block(value as u32)
    }
}

/// The id of a local variable.
#[derive(Debug, Clone, Copy, PartialEq, Eq, Hash, Structural)]
pub struct Local(u32);

impl Indexer for Local {
    closed spec fn id(&self) -> nat {
        self.0 as nat
    }

    proof fn lemma_id(a: Self, b: Self) {
    }

    fn index(&self) -> (r: usize) {
        self.0 as usize
    }

    fn from_index(value: usize) -> (r: Self) {
        proof {
            crate::index_vec::lemma_u32_wrap(value);
        }
        Local(value as u32)
    }
}

/// A local variable: its name and the value it starts with.
pub struct LocalValue {
    pub name: MStr,
    pub initializer: Value,
}

/// An instruction.
pub enum Inst {
    Const(ConstValue),
    Call(CallInst),
    Add(AddInst),
    Sub(SubInst),
    Mul(MulInst),
    Div(DivInst),
    Equal(EqualInst),
    LessThan(LessThanInst),
}

/// A constant; a float keeps the interned text it was written with.
pub enum ConstValue {
    Int(i64),
    Float(MStr),
    Bool(bool),
}

pub struct CallInst {
    pub func: MStr,
    pub args: Vec<Value>,
}

#[derive(Clone, Copy)]
pub struct AddInst {
    pub left: Value,
    pub right: Value,
}

#[derive(Clone, Copy)]
pub struct SubInst {
    pub left: Value,
    pub right: Value,
}

#[derive(Clone, Copy)]
pub struct MulInst {
    pub left: Value,
    pub right: Value,
}

#[derive(Clone, Copy)]
pub struct DivInst {
    pub left: Value,
    pub right: Value,
}

#[derive(Clone, Copy)]
pub struct EqualInst {
    pub left: Value,
    pub right: Value,
}

#[derive(Clone, Copy)]
pub struct LessThanInst {
    pub left: Value,
    pub right: Value,
}

/// The id of the instruction that ends a block.
#[derive(Debug, Clone, Copy, PartialEq, Eq, Hash, Structural)]
pub struct Terminator(u32);

impl Indexer for Terminator {
    closed spec fn id(&self) -> nat {
        self.0 as nat
    }

    proof fn lemma_id(a: Self, b: Self) {
    }

    fn index(&self) -> (r: usize) {
        self.0 as usize
    }

    fn from_index(value: usize) -> (r: Self) {
        proof {
            crate::index_vec::lemma_u32_wrap(value);
        }
        Terminator(value as u32)
    }
}

/// How a block ends. `Pending` stands for an end not built yet.
pub enum TerminatorValue {
    Return(Option<Value>),
    Jump(Block),
    Branch(BranchTerminator),
    Panic(MStr),
    Pending,
}

#[derive(Clone, Copy)]
pub struct BranchTerminator {
    pub cond: Value,
    pub true_block: Block,
    pub false_block: Block,
}

/// A basic block: its instructions and how it ends.
pub struct BlockValue {
    pub inst_values: Vec<Value>,
    pub terminator: Terminator,
}

impl BlockValue {
    /// An empty block whose end is the store's `Pending` terminator.
    pub fn new(mir_store: &crate::compiler::mir_store::MirStore) -> (r: Self)
        ensures
            r.inst_values@ == Seq::<Value>::empty(),
            r.terminator.id() == 0,
            mir_store.wf() ==> mir_store.terminators()[r.terminator.id() as int] is Pending,
    {
        let terminator = mir_store.create_none_terminator();
        BlockValue { inst_values: Vec::new(), terminator }
    }
}

/// The id of a function of the graph.
#[derive(Debug, Clone, Copy, PartialEq, Eq, Hash, Structural)]
pub struct Func(u32);

impl Indexer for Func {
    closed spec fn id(&self) -> nat {
        self.0 as nat
    }

    proof fn lemma_id(a: Self, b: Self) {
    }

    fn index(&self) -> (r: usize) {
        self.0 as usize
    }

    fn from_index(value: usize) -> (r: Self) {
        proof {
            crate::index_vec::lemma_u32_wrap(value);
        }
        Func(value as u32)
    }
}

/// A function of the graph: its name, locals, blocks and type.
pub struct FuncValue {
    pub name: MStr,
    pub locals: Vec<Local>,
    pub blocks: Vec<Block>,
    pub ty: CheckedTy,
}

impl FuncValue {
    /// The function of a named function declaration, with no locals and no blocks yet.
    pub fn from(decl: FuncDecl) -> (r: Self)
        ensures
            r.name == decl.name,
            r.ty == decl.ty,
            r.locals@ == Seq::<Local>::empty(),
            r.blocks@ == Seq::<Block>::empty(),
    {
        FuncValue { name: decl.name, locals: Vec::new(), blocks: Vec::new(), ty: decl.ty }
    }

    /// Adds `block` as the function's last block.
    pub fn push_block(&mut self, block: Block)
        ensures
            final(self).blocks@ == old(self).blocks@.push(block),
            final(self).name == old(self).name,
            final(self).ty == old(self).ty,
            final(self).locals == old(self).locals,
    {
        self.blocks.push(block);
    }
}

} // verus!
