//! Labels, basic blocks and functions.

use super::stmt::{Stmt, StmtModel};
use super::value::{Local, LocalModel};
use crate::common::text::{group_text, nat_text, owned, usize_to_text};
use vstd::prelude::*;
use vstd::string::*;

verus! {

broadcast use group_text;

/// A branch target: a numbered block, or the entry of a function.
#[derive(Debug)]
pub enum BlockLabel {
    BasicBlock(usize),
    Function(String),
}

/// The mathematical model of a [`BlockLabel`].
pub enum LabelModel {
    BasicBlock(nat),
    Function(Seq<char>),
}

impl LabelModel {
    /// The label as it is written in the printed representation.
    pub open spec fn text(self) -> Seq<char> {
        match self {
            LabelModel::BasicBlock(n) => "bb"@ + nat_text(n),
            LabelModel::Function(name) => name,
        }
    }
}

impl View for BlockLabel {
    type V = LabelModel;

    open spec fn view(&self) -> LabelModel {
        match *self {
            BlockLabel::BasicBlock(n) => LabelModel::BasicBlock(n as nat),
            BlockLabel::Function(name) => LabelModel::Function(name@),
        }
    }
}

impl Clone for BlockLabel {
    fn clone(&self) -> (copy: Self)
        ensures
            copy == *self,
    {
        match self {
            BlockLabel::BasicBlock(n) => BlockLabel::BasicBlock(*n),
            BlockLabel::Function(name) => BlockLabel::Function(name.clone()),
        }
    }
}

impl BlockLabel {
    /// The text of the label, by which blocks are found.
    pub fn key(&self) -> (s: String)
        ensures
            s@ == self@.text(),
    {
        match self {
            BlockLabel::BasicBlock(n) => {
                let mut s = owned("bb");
                s.append(usize_to_text(*n).as_str());
                s
            },
            BlockLabel::Function(name) => name.clone(),
        }
    }
}

/// A basic block: a label and the statements up to the next one.
#[derive(Debug)]
pub struct BasicBlock {
    pub label: BlockLabel,
    pub stmts: Vec<Stmt>,
}

/// The mathematical model of a [`BasicBlock`].
pub struct BlockModel {
    pub label: LabelModel,
    pub stmts: Seq<StmtModel>,
}

/// The models of a list of statements.
pub open spec fn stmt_models(stmts: Seq<Stmt>) -> Seq<StmtModel> {
    Seq::new(stmts.len(), |i: int| stmts[i]@)
}

impl View for BasicBlock {
    type V = BlockModel;

    open spec fn view(&self) -> BlockModel {
        BlockModel { label: self.label@, stmts: stmt_models(self.stmts@) }
    }
}

/// The models of a list of blocks.
pub open spec fn block_models(blocks: Seq<BasicBlock>) -> Seq<BlockModel> {
    Seq::new(blocks.len(), |i: int| blocks[i]@)
}

/// The models of a list of local values.
pub open spec fn local_models(locals: Seq<Local>) -> Seq<LocalModel> {
    Seq::new(locals.len(), |i: int| locals[i]@)
}

/// The body of a function.
#[derive(Debug)]
pub struct FunctionBody {
    /// The values that carry the arguments.
    pub arguments: Vec<Local>,
    /// The blocks, entry first.
    pub blocks: Vec<BasicBlock>,
    /// The least number that no local value has.
    pub next_vreg: usize,
}

/// The mathematical model of a [`FunctionBody`].
pub struct BodyModel {
    pub arguments: Seq<LocalModel>,
    pub blocks: Seq<BlockModel>,
    pub next_vreg: nat,
}

impl View for FunctionBody {
    type V = BodyModel;

    open spec fn view(&self) -> BodyModel {
        BodyModel {
            arguments: local_models(self.arguments@),
            blocks: block_models(self.blocks@),
            next_vreg: self.next_vreg as nat,
        }
    }
}

/// A function: defined where it has a body, declared where it has none.
#[derive(Debug)]
pub struct Function {
    pub identifier: String,
    pub body: Option<FunctionBody>,
}

/// The mathematical model of a [`Function`].
pub struct FunctionModel {
    pub identifier: Seq<char>,
    pub body: Option<BodyModel>,
}

impl View for Function {
    type V = FunctionModel;

    open spec fn view(&self) -> FunctionModel {
        FunctionModel {
            identifier: self.identifier@,
            body: match self.body {
                Some(b) => Some(b@),
                None => None,
            },
        }
    }
}

} // verus!
