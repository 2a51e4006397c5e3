//! Where arguments are passed.
//!
//! Caller and callee both take the places of arguments from
//! [`classify_args`], so that they agree.

use super::types::{NUM_FP_ARG_REGS, NUM_INT_ARG_REGS};
use crate::backend::error::{Error, ErrorModel};
use crate::ir::types::{Dtype, DtypeModel};
use vstd::prelude::*;

verus! {

/// The width of the place of an argument on the stack.
pub const OUTGOING_ARG_SLOT_BYTES: i64 = 8;

/// The place of an argument.
#[derive(Debug, Clone, Copy, PartialEq, Eq, Structural)]
pub enum ArgumentLocation {
    /// The general-purpose register with the given number.
    Gpr(u8),
    /// The floating-point register with the given number.
    Fpr(u8),
    /// The place on the stack at the given offset from the first.
    Stack { offset: i64 },
}

/// The bank in which an argument is passed.
#[derive(Clone, Copy, PartialEq, Eq, Structural)]
enum ArgumentClass {
    Int,
    Float,
}

/// Whether a value of the type can be an argument.
pub open spec fn passable(d: DtypeModel) -> bool {
    !(d is Void || d is Struct)
}

/// The place of the argument with the given position.
pub open spec fn location(i: int) -> ArgumentLocation {
    if i < NUM_INT_ARG_REGS {
        ArgumentLocation::Gpr(i as u8)
    } else {
        ArgumentLocation::Stack {
            offset: ((i - NUM_INT_ARG_REGS) * OUTGOING_ARG_SLOT_BYTES) as i64,
        }
    }
}

/// The places of arguments of the given types, or the first type that no
/// argument can have.
pub open spec fn classified(dtypes: Seq<DtypeModel>) -> Result<
    Seq<ArgumentLocation>,
    ErrorModel,
>
    decreases dtypes.len(),
{
    if dtypes.len() == 0 {
        Ok(Seq::empty())
    } else {
        match classified(dtypes.drop_last()) {
            Err(e) => Err(e),
            Ok(front) => if passable(dtypes.last()) {
                Ok(front.push(location(dtypes.len() - 1)))
            } else {
                Err(ErrorModel::UnsupportedDtype { dtype: dtypes.last() })
            },
        }
    }
}

/// Arguments that can be passed have the places that belong to their
/// positions.
pub proof fn lemma_classified(dtypes: Seq<DtypeModel>)
    ensures
        classified(dtypes) is Ok <==> forall|i: int|
            0 <= i < dtypes.len() ==> passable(#[trigger] dtypes[i]),
        classified(dtypes) matches Ok(locs) ==> locs.len() == dtypes.len() && forall|i: int|
            0 <= i < locs.len() ==> #[trigger] locs[i] == location(i),
    decreases dtypes.len(),
{
    if dtypes.len() > 0 {
        let front = dtypes.drop_last();
        lemma_classified(front);
        assert(forall|i: int| 0 <= i < front.len() ==> front[i] == dtypes[i]);
        if classified(front) is Err {
            let k = choose|k: int| 0 <= k < front.len() && !passable(#[trigger] front[k]);
            assert(!passable(dtypes[k]));
        }
    }
}

/// No two arguments share a place.
pub proof fn lemma_locations_distinct(i: int, j: int)
    requires
        0 <= i < j,
        (j - NUM_INT_ARG_REGS) * OUTGOING_ARG_SLOT_BYTES <= i64::MAX,
    ensures
        location(i) != location(j),
{
}

impl ArgumentClass {
    fn try_from(dtype: &Dtype) -> (r: Result<ArgumentClass, Error>)
        ensures
            match r {
                Ok(c) => passable(dtype@) && c is Int,
                Err(e) => !passable(dtype@) && e@ == (ErrorModel::UnsupportedDtype {
                    dtype: dtype@,
                }),
            },
    {
        match dtype {
            Dtype::I1 => Ok(ArgumentClass::Int),
            Dtype::I32 => Ok(ArgumentClass::Int),
            Dtype::Pointer { .. } => Ok(ArgumentClass::Int),
            Dtype::Array { .. } => Ok(ArgumentClass::Int),
            _ => Err(Error::UnsupportedDtype { dtype: dtype.clone() }),
        }
    }
}

/// Takes the next register of a class, or the next place on the stack when
/// the registers are used up.
fn take_or_spill(class: ArgumentClass, cursor: &mut u8, cap: u8, stack_off: &mut i64) -> (loc:
    ArgumentLocation)
    requires
        *old(cursor) <= cap,
        *old(stack_off) <= i64::MAX - OUTGOING_ARG_SLOT_BYTES,
    ensures
        if *old(cursor) < cap {
            &&& *final(cursor) == *old(cursor) + 1
            &&& *final(stack_off) == *old(stack_off)
            &&& loc == match class {
                ArgumentClass::Int => ArgumentLocation::Gpr(*old(cursor)),
                ArgumentClass::Float => ArgumentLocation::Fpr(*old(cursor)),
            }
        } else {
            &&& *final(cursor) == *old(cursor)
            &&& *final(stack_off) == *old(stack_off) + OUTGOING_ARG_SLOT_BYTES
            &&& loc == (ArgumentLocation::Stack { offset: *old(stack_off) })
        },
{
    if *cursor < cap {
        let n: u8 = *cursor;
        *cursor = n + 1;
        match class {
            ArgumentClass::Int => ArgumentLocation::Gpr(n),
            ArgumentClass::Float => ArgumentLocation::Fpr(n),
        }
    } else {
        let offset: i64 = *stack_off;
        *stack_off = offset + OUTGOING_ARG_SLOT_BYTES;
        ArgumentLocation::Stack { offset }
    }
}

/// The types of a list, by their models.
pub open spec fn dtype_models(dtypes: Seq<&Dtype>) -> Seq<DtypeModel> {
    Seq::new(dtypes.len(), |i: int| dtypes[i]@)
}

/// The places of arguments of the given types.
pub fn classify_args(dtypes: &[&Dtype]) -> (r: Result<Vec<ArgumentLocation>, Error>)
    requires
        dtypes.len() * OUTGOING_ARG_SLOT_BYTES <= i64::MAX,
    ensures
        match r {
            Ok(locs) => classified(dtype_models(dtypes@)) == Ok::<
                Seq<ArgumentLocation>,
                ErrorModel,
            >(locs@),
            Err(e) => classified(dtype_models(dtypes@)) == Err::<
                Seq<ArgumentLocation>,
                ErrorModel,
            >(e@),
        },
{
    let mut ngrn: u8 = 0;
    let mut nsrn: u8 = 0;
    let mut stack_off: i64 = 0;
    let mut locs: Vec<ArgumentLocation> = Vec::new();
    let ghost models = dtype_models(dtypes@);
    let mut i: usize = 0;
    assert(models.take(0) =~= Seq::empty());
    while i < dtypes.len()
        invariant
            i <= dtypes.len(),
            dtypes.len() * OUTGOING_ARG_SLOT_BYTES <= i64::MAX,
            models == dtype_models(dtypes@),
            ngrn == if i < NUM_INT_ARG_REGS {
                i as int
            } else {
                NUM_INT_ARG_REGS as int
            },
            nsrn == 0,
            stack_off == (i - ngrn) * OUTGOING_ARG_SLOT_BYTES,
            classified(models.take(i as int)) == Ok::<Seq<ArgumentLocation>, ErrorModel>(locs@),
        decreases dtypes.len() - i,
    {
        assert(models.take(i + 1).drop_last() =~= models.take(i as int));
        assert(models.take(i + 1).last() == models[i as int]);
        match ArgumentClass::try_from(dtypes[i]) {
            Ok(class) => {
                let loc = match class {
                    ArgumentClass::Int => take_or_spill(
                        class,
                        &mut ngrn,
                        NUM_INT_ARG_REGS,
                        &mut stack_off,
                    ),
                    ArgumentClass::Float => take_or_spill(
                        class,
                        &mut nsrn,
                        NUM_FP_ARG_REGS,
                        &mut stack_off,
                    ),
                };
                locs.push(loc);
            },
            Err(e) => {
                proof {
                    lemma_classified_stops(models, i + 1);
                }
                return Err(e);
            },
        }
        i = i + 1;
    }
    assert(models.take(i as int) =~= models);
    Ok(locs)
}

proof fn lemma_classified_stops(dtypes: Seq<DtypeModel>, k: int)
    requires
        0 <= k <= dtypes.len(),
        classified(dtypes.take(k)) is Err,
    ensures
        classified(dtypes) == classified(dtypes.take(k)),
    decreases dtypes.len() - k,
{
    if k < dtypes.len() {
        assert(dtypes.take(k + 1).drop_last() =~= dtypes.take(k));
        lemma_classified_stops(dtypes, k + 1);
    } else {
        assert(dtypes.take(k) =~= dtypes);
    }
}

} // verus!
