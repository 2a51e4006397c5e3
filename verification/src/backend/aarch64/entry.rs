//! What a function finds when it is entered, and what a global holds when
//! the program starts.

use super::aapcs::{
    classified, classify_args, dtype_models, lemma_classified, location, ArgumentLocation,
    OUTGOING_ARG_SLOT_BYTES,
};
use super::frame::{frame_addr, incoming_arg_addr, STACK_ARG_FP_BASE};
use super::inst::{inst_models, InstModel, Instruction};
use super::types::{register_size, InstOperand, Register, RegisterSize};
use super::{GlobalData, GlobalDataModel};
use crate::backend::common::layout::{size_align, size_fits, LayoutModel, StructLayouts};
use crate::backend::error::{Error, ErrorModel};
use crate::ir::function::local_models;
use crate::ir::types::{Dtype, DtypeModel};
use crate::ir::value::{GlobalDef, GlobalDefModel, Local, LocalModel};
use vstd::prelude::*;

verus! {

/// The types of a list of values.
pub open spec fn local_types(locals: Seq<LocalModel>) -> Seq<DtypeModel> {
    Seq::new(locals.len(), |i: int| locals[i].dtype)
}

/// The instruction that fetches the argument at position `i`: from the
/// register or the stack slot where the caller left it.
pub open spec fn fetch(argument: LocalModel, size: RegisterSize, i: int) -> InstModel {
    let dst = Register::Virtual(argument.id as usize);
    match location(i) {
        ArgumentLocation::Gpr(n) => InstModel::Mov {
            size,
            dst,
            src: InstOperand::Register(Register::Physical(n)),
        },
        ArgumentLocation::Fpr(n) => InstModel::Mov {
            size,
            dst,
            src: InstOperand::Register(Register::Physical(n)),
        },
        ArgumentLocation::Stack { offset } => InstModel::Ldr {
            size,
            dst,
            addr: frame_addr(offset + STACK_ARG_FP_BASE),
        },
    }
}

/// The instructions that fetch the first `n` arguments, or the first type
/// that no register holds.
pub open spec fn fetches(arguments: Seq<LocalModel>, n: nat) -> Result<Seq<InstModel>, ErrorModel>
    decreases n,
{
    if n == 0 {
        Ok(Seq::empty())
    } else {
        match fetches(arguments, (n - 1) as nat) {
            Err(e) => Err(e),
            Ok(front) => match register_size(arguments[n - 1].dtype) {
                Err(e) => Err(e),
                Ok(size) => Ok(front.push(fetch(arguments[n - 1], size, n - 1))),
            },
        }
    }
}

/// The instructions that fetch all arguments, or the first type that no
/// argument can have.
pub open spec fn fetched(arguments: Seq<LocalModel>) -> Result<Seq<InstModel>, ErrorModel> {
    match classified(local_types(arguments)) {
        Err(e) => Err(e),
        Ok(_) => fetches(arguments, arguments.len()),
    }
}

proof fn lemma_fetches_stop(arguments: Seq<LocalModel>, k: nat, n: nat)
    requires
        k <= n,
        fetches(arguments, k) is Err,
    ensures
        fetches(arguments, n) == fetches(arguments, k),
    decreases n,
{
    if k < n {
        lemma_fetches_stop(arguments, k, (n - 1) as nat);
    }
}

/// Whether the offsets of all arguments can be computed.
pub fn arguments_fit(arguments: &Vec<Local>) -> (b: bool)
    ensures
        b == (arguments.len() * OUTGOING_ARG_SLOT_BYTES + STACK_ARG_FP_BASE <= i64::MAX),
{
    arguments.len() as i128 * (OUTGOING_ARG_SLOT_BYTES as i128) + STACK_ARG_FP_BASE as i128
        <= i64::MAX as i128
}

/// Fetches the arguments of a function.
pub fn fetch_arguments(arguments: &Vec<Local>) -> (r: Result<Vec<Instruction>, Error>)
    requires
        arguments.len() * OUTGOING_ARG_SLOT_BYTES + STACK_ARG_FP_BASE <= i64::MAX,
    ensures
        match r {
            Ok(v) => fetched(local_models(arguments@)) == Ok::<Seq<InstModel>, ErrorModel>(
                inst_models(v@),
            ),
            Err(e) => fetched(local_models(arguments@)) == Err::<Seq<InstModel>, ErrorModel>(e@),
        },
{
    let ghost models = local_models(arguments@);
    let mut dtypes: Vec<&Dtype> = Vec::new();
    let mut k: usize = 0;
    while k < arguments.len()
        invariant
            k <= arguments.len(),
            dtypes.len() == k,
            forall|j: int| 0 <= j < k ==> (#[trigger] dtypes@[j])@ == arguments@[j].dtype@,
        decreases arguments.len() - k,
    {
        dtypes.push(&arguments[k].dtype);
        k = k + 1;
    }
    proof {
        assert(dtype_models(dtypes@) =~= local_types(models));
        lemma_classified(local_types(models));
    }
    let locations = match classify_args(dtypes.as_slice()) {
        Ok(locations) => locations,
        Err(e) => {
            return Err(e);
        },
    };
    let mut insts: Vec<Instruction> = Vec::new();
    assert(inst_models(insts@) =~= Seq::empty());
    let mut i: usize = 0;
    while i < arguments.len()
        invariant
            i <= arguments.len(),
            models == local_models(arguments@),
            arguments.len() * OUTGOING_ARG_SLOT_BYTES + STACK_ARG_FP_BASE <= i64::MAX,
            locations.len() == arguments.len(),
            forall|j: int| 0 <= j < locations.len() ==> #[trigger] locations@[j] == location(j),
            classified(local_types(models)) is Ok,
            fetches(models, i as nat) == Ok::<Seq<InstModel>, ErrorModel>(inst_models(insts@)),
        decreases arguments.len() - i,
    {
        let argument = &arguments[i];
        assert(models[i as int] == argument@);
        let size = match RegisterSize::try_from(&argument.dtype) {
            Ok(size) => size,
            Err(e) => {
                proof {
                    lemma_fetches_stop(models, (i + 1) as nat, models.len());
                }
                return Err(e);
            },
        };
        let dst = Register::Virtual(argument.id.0);
        let inst = match locations[i] {
            ArgumentLocation::Gpr(n) => Instruction::Mov {
                size,
                dst,
                src: InstOperand::Register(Register::Physical(n)),
            },
            ArgumentLocation::Fpr(n) => Instruction::Mov {
                size,
                dst,
                src: InstOperand::Register(Register::Physical(n)),
            },
            ArgumentLocation::Stack { offset } => Instruction::Ldr {
                size,
                dst,
                addr: incoming_arg_addr(offset),
            },
        };
        let ghost before = inst_models(insts@);
        insts.push(inst);
        assert(inst_models(insts@) =~= before.push(inst@));
        i = i + 1;
    }
    Ok(insts)
}

/// The words that a global starts with.
pub open spec fn initial_words(def: GlobalDefModel) -> Seq<i64> {
    match def.initializers {
        Some(vals) => Seq::new(vals.len(), |i: int| vals[i] as i64),
        None => Seq::empty(),
    }
}

/// What a global holds at the start: an integer its first initializer or
/// zero, anything else its initializers and zeros behind them.
pub open spec fn initial_data(def: GlobalDefModel, layouts: Map<Seq<char>, LayoutModel>) -> Result<
    GlobalDataModel,
    ErrorModel,
> {
    let words = initial_words(def);
    if def.dtype is I32 {
        Ok(
            GlobalDataModel::Word {
                value: if words.len() > 0 {
                    words[0] as int
                } else {
                    0
                },
            },
        )
    } else {
        match size_align(def.dtype, layouts) {
            Err(e) => Err(e),
            Ok((size, _)) => Ok(
                GlobalDataModel::Array {
                    words,
                    zero_bytes: if size > 4 * words.len() {
                        size - 4 * words.len()
                    } else {
                        0
                    },
                },
            ),
        }
    }
}

/// Whether the size of a global and of its initial values can be computed.
pub fn global_fits(layouts: &StructLayouts, def: &GlobalDef) -> (b: bool)
    requires
        layouts.wf(),
    ensures
        b == (size_fits(def@.dtype, layouts@) && 4 * initial_words(def@).len() <= i64::MAX),
{
    let count: usize = match &def.initializers {
        Some(vals) => vals.len(),
        None => 0,
    };
    layouts.size_fits_for(&def.dtype) && 4 * (count as i128) <= i64::MAX as i128
}

/// What a global holds at the start.
pub fn global_data(layouts: &StructLayouts, def: &GlobalDef) -> (r: Result<GlobalData, Error>)
    requires
        layouts.wf(),
        size_fits(def@.dtype, layouts@),
        4 * initial_words(def@).len() <= i64::MAX,
    ensures
        match r {
            Ok(d) => initial_data(def@, layouts@) == Ok::<GlobalDataModel, ErrorModel>(d@),
            Err(e) => initial_data(def@, layouts@) == Err::<GlobalDataModel, ErrorModel>(e@),
        },
{
    let ghost wanted = initial_words(def@);
    let mut words: Vec<i64> = Vec::new();
    match &def.initializers {
        Some(vals) => {
            let mut i: usize = 0;
            while i < vals.len()
                invariant
                    i <= vals.len(),
                    words.len() == i,
                    wanted.len() == vals.len(),
                    forall|j: int| 0 <= j < vals.len() ==> #[trigger] wanted[j] == vals@[j] as i64,
                    forall|j: int| 0 <= j < i ==> #[trigger] words@[j] == wanted[j],
                decreases vals.len() - i,
            {
                words.push(vals[i] as i64);
                i = i + 1;
            }
        },
        None => {},
    }
    assert(words@ =~= wanted);
    match &def.dtype {
        Dtype::I32 => {
            let value: i64 = if words.len() > 0 {
                words[0]
            } else {
                0
            };
            Ok(GlobalData::Word { value })
        },
        other => match layouts.size_align_of(other) {
            Err(e) => Err(e),
            Ok((size, _)) => {
                let filled: i64 = 4 * words.len() as i64;
                let zero_bytes: i64 = if size > filled {
                    size - filled
                } else {
                    0
                };
                Ok(GlobalData::Array { words, zero_bytes })
            },
        },
    }
}

} // verus!
