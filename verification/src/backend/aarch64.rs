//! The AArch64 backend.

pub mod aapcs;
pub mod coloring;
pub mod copies;
pub mod entering;
pub mod entry;
pub mod execution;
pub mod frame;
pub mod function_generator;
pub mod generator;
pub mod initial;
pub mod inst;
pub mod limits;
pub mod lines;
pub mod machine;
pub mod passing;
pub mod phi_edges;
pub mod phi_lowering;
pub mod printer;
pub mod register_allocator;
pub mod selected;
pub mod selection;
pub mod simulation;
pub mod types;

use self::inst::{inst_models, InstModel, Instruction};
use vstd::prelude::*;

verus! {

/// A function ready to be printed.
pub struct GeneratedFunction {
    pub symbol: String,
    pub frame_size: i64,
    pub insts: Vec<Instruction>,
    /// Whether the function uses floating-point registers.
    pub uses_fp: bool,
}

/// The mathematical model of a [`GeneratedFunction`].
pub struct ProgramFunction {
    pub symbol: Seq<char>,
    pub frame_size: int,
    pub insts: Seq<InstModel>,
    pub uses_fp: bool,
}

impl View for GeneratedFunction {
    type V = ProgramFunction;

    open spec fn view(&self) -> ProgramFunction {
        ProgramFunction {
            symbol: self.symbol@,
            frame_size: self.frame_size as int,
            insts: inst_models(self.insts@),
            uses_fp: self.uses_fp,
        }
    }
}

/// The models of a list of functions.
pub open spec fn function_models(functions: Seq<GeneratedFunction>) -> Seq<ProgramFunction> {
    Seq::new(functions.len(), |i: int| functions[i]@)
}

/// The initial contents of a global.
pub enum GlobalData {
    Word { value: i64 },
    /// Some words, and zeros behind them.
    Array { words: Vec<i64>, zero_bytes: i64 },
}

/// The mathematical model of a [`GlobalData`].
pub enum GlobalDataModel {
    Word { value: int },
    Array { words: Seq<i64>, zero_bytes: int },
}

impl View for GlobalData {
    type V = GlobalDataModel;

    open spec fn view(&self) -> GlobalDataModel {
        match *self {
            GlobalData::Word { value } => GlobalDataModel::Word { value: value as int },
            GlobalData::Array { words, zero_bytes } => GlobalDataModel::Array {
                words: words@,
                zero_bytes: zero_bytes as int,
            },
        }
    }
}

/// A global ready to be printed.
pub struct GeneratedGlobal {
    pub symbol: String,
    pub data: GlobalData,
}

/// The mathematical model of a [`GeneratedGlobal`].
pub struct GlobalModel {
    pub symbol: Seq<char>,
    pub data: GlobalDataModel,
}

impl View for GeneratedGlobal {
    type V = GlobalModel;

    open spec fn view(&self) -> GlobalModel {
        GlobalModel { symbol: self.symbol@, data: self.data@ }
    }
}

/// The models of a list of globals.
pub open spec fn global_models(globals: Seq<GeneratedGlobal>) -> Seq<GlobalModel> {
    Seq::new(globals.len(), |i: int| globals[i]@)
}

} // verus!
