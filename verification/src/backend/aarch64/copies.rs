//! Copies put one after the other do what they would do in parallel.

use super::inst::InstModel;
use super::phi_lowering::{first_ready, is_ready, same, CopyModel};
use super::selection::{
    copies_code, copy_code, lemma_rerouted_ready, rerouted, temporary, Code,
};
use super::types::{InstOperand, Register};
use crate::ir::value::OperandModel;
use vstd::prelude::*;

verus! {

/// The values of the virtual registers after a move.
pub open spec fn moved(env: Map<usize, int>, inst: InstModel) -> Map<usize, int> {
    match inst {
        InstModel::Mov { dst: Register::Virtual(d), src, .. } => match src {
            InstOperand::Immediate(i) => env.insert(d, i as int),
            InstOperand::Register(Register::Virtual(s)) => env.insert(d, env[s]),
            _ => env,
        },
        _ => env,
    }
}

/// The values of the virtual registers after some moves.
pub open spec fn all_moved(env: Map<usize, int>, insts: Seq<InstModel>) -> Map<usize, int>
    decreases insts.len(),
{
    if insts.len() == 0 {
        env
    } else {
        moved(all_moved(env, insts.drop_last()), insts.last())
    }
}

/// The value of an operand.
pub open spec fn value_of(op: OperandModel, env: Map<usize, int>) -> int {
    match op {
        OperandModel::Const { val, .. } => val,
        OperandModel::Local(l) => env[l.id as usize],
        OperandModel::Global { .. } => 0,
    }
}

/// Copies between local values below `next`, or from 64-bit constants, with
/// no destination twice.
pub open spec fn well_formed(copies: Seq<CopyModel>, next: nat) -> bool {
    &&& forall|i: int|
        0 <= i < copies.len() ==> ((#[trigger] copies[i]).dst matches OperandModel::Local(l)
            && l.id < next)
    &&& forall|i: int|
        0 <= i < copies.len() ==> match (#[trigger] copies[i]).src {
            OperandModel::Local(l) => l.id < next,
            OperandModel::Const { val, .. } => i64::MIN <= val <= i64::MAX,
            OperandModel::Global { .. } => false,
        }
    &&& forall|i: int, j: int|
        0 <= i < j < copies.len() ==> !same((#[trigger] copies[i]).dst, (#[trigger] copies[j]).dst)
}

/// The register that a copy writes.
pub open spec fn dst_of(c: CopyModel) -> usize {
    c.dst->Local_0.id as usize
}

/// The values `after` are those that `before` has after all copies at once.
pub open spec fn copied(
    before: Map<usize, int>,
    after: Map<usize, int>,
    copies: Seq<CopyModel>,
    next: nat,
) -> bool {
    &&& forall|i: int|
        0 <= i < copies.len() ==> after[dst_of(#[trigger] copies[i])] == value_of(
            copies[i].src,
            before,
        )
    &&& forall|r: usize|
        r < next && (forall|i: int| 0 <= i < copies.len() ==> dst_of(#[trigger] copies[i]) != r)
            ==> #[trigger] after[r] == before[r]
}

proof fn lemma_all_moved_first(env: Map<usize, int>, first: InstModel, rest: Seq<InstModel>)
    ensures
        all_moved(env, seq![first] + rest) == all_moved(moved(env, first), rest),
    decreases rest.len(),
{
    let all = seq![first] + rest;
    if rest.len() == 0 {
        assert(all =~= seq![first]);
        assert(all.drop_last() =~= Seq::empty());
        assert(all_moved(env, all.drop_last()) == env);
    } else {
        lemma_all_moved_first(env, first, rest.drop_last());
        assert(all.drop_last() =~= seq![first] + rest.drop_last());
    }
}

/// Copies put one after the other leave in every destination what its source
/// held before the first of them, and leave all other registers alone.
pub proof fn lemma_copies_run_in_parallel(
    code: Code,
    copies: Seq<CopyModel>,
    env: Map<usize, int>,
)
    requires
        well_formed(copies, code.next),
        code.next + copies.len() + 1 <= usize::MAX,
        copies_code(code, copies) is Ok,
    ensures
        copies_code(code, copies) matches Ok(c) && c.insts.len() >= code.insts.len()
            && c.insts.take(code.insts.len() as int) == code.insts && copied(
            env,
            all_moved(env, c.insts.skip(code.insts.len() as int)),
            copies,
            code.next,
        ),
{
    lemma_parallel(code, copies, env, if first_ready(copies, 0) is Some {
        0
    } else {
        1
    });
}

proof fn lemma_first_ready(copies: Seq<CopyModel>, i: nat)
    ensures
        first_ready(copies, i) matches Some(k) ==> k < copies.len() && is_ready(
            copies,
            k as int,
        ),
    decreases copies.len() - i,
{
    if i < copies.len() && !is_ready(copies, i as int) {
        lemma_first_ready(copies, i + 1);
    }
}

#[verifier::rlimit(40)]
proof fn lemma_parallel(code: Code, copies: Seq<CopyModel>, env: Map<usize, int>, phase: nat)
    requires
        phase == if first_ready(copies, 0) is Some {
            0nat
        } else {
            1nat
        },
        well_formed(copies, code.next),
        code.next + copies.len() + phase <= usize::MAX,
        copies_code(code, copies) is Ok,
    ensures
        copies_code(code, copies) matches Ok(c) && c.insts.len() >= code.insts.len()
            && c.insts.take(code.insts.len() as int) == code.insts && copied(
            env,
            all_moved(env, c.insts.skip(code.insts.len() as int)),
            copies,
            code.next,
        ),
    decreases copies.len(), phase,
{
    let n = code.insts.len() as int;
    let c = copies_code(code, copies)->Ok_0;
    if copies.len() == 0 {
        assert(c.insts.skip(n) =~= Seq::empty());
        assert(c.insts.take(n) =~= code.insts);
    } else {
        lemma_first_ready(copies, 0);
        match first_ready(copies, 0) {
            Some(k) => {
                let i = k as int;
                let one = copies[i];
                let c1 = copy_code(code, one.dst, one.src)->Ok_0;
                let rest = copies.remove(i);
                let inst = c1.insts.last();
                assert(c1.insts =~= code.insts.push(inst));
                let env1 = moved(env, inst);
                assert(env1 == env.insert(dst_of(one), value_of(one.src, env)));
                assert forall|j: int| 0 <= j < rest.len() implies #[trigger] rest[j] == copies[if j
                    < i {
                    j
                } else {
                    j + 1
                }] by {}
                assert(well_formed(rest, c1.next)) by {
                    assert forall|a: int, b: int| 0 <= a < b < rest.len() implies !same(
                        (#[trigger] rest[a]).dst,
                        (#[trigger] rest[b]).dst,
                    ) by {
                        let a1 = if a < i {
                            a
                        } else {
                            a + 1
                        };
                        let b1 = if b < i {
                            b
                        } else {
                            b + 1
                        };
                        assert(!same(copies[a1].dst, copies[b1].dst));
                    }
                }
                let phase1 = if first_ready(rest, 0) is Some {
                    0nat
                } else {
                    1nat
                };
                lemma_parallel(c1, rest, env1, phase1);
                let after = all_moved(env1, c.insts.skip(n + 1));
                assert(c.insts.take(n + 1) == c1.insts);
                assert(c.insts.take(n) =~= c.insts.take(n + 1).take(n));
                assert(c1.insts.take(n) =~= code.insts);
                assert(c.insts[n] == c.insts.take(n + 1)[n]);
                assert(c.insts.skip(n) =~= seq![inst] + c.insts.skip(n + 1));
                lemma_all_moved_first(env, inst, c.insts.skip(n + 1));
                assert(copied(env1, after, rest, c1.next));
                assert(copied(env, after, copies, code.next)) by {
                    assert forall|j: int| 0 <= j < copies.len() implies after[dst_of(
                        #[trigger] copies[j],
                    )] == value_of(copies[j].src, env) by {
                        if j == i {
                            assert forall|b: int| 0 <= b < rest.len() implies dst_of(
                                #[trigger] rest[b],
                            ) != dst_of(one) by {
                                let b1 = if b < i {
                                    b
                                } else {
                                    b + 1
                                };
                                if b1 < i {
                                    assert(!same(copies[b1].dst, copies[i].dst));
                                } else {
                                    assert(!same(copies[i].dst, copies[b1].dst));
                                }
                            }
                            assert(after[dst_of(one)] == env1[dst_of(one)]);
                        } else {
                            let b = if j < i {
                                j
                            } else {
                                j - 1
                            };
                            assert(rest[b] == copies[j]);
                            assert(!same(copies[i].dst, copies[j].src));
                            assert(value_of(rest[b].src, env1) == value_of(copies[j].src, env));
                        }
                    }
                    assert forall|r: usize|
                        r < code.next && (forall|j: int|
                            0 <= j < copies.len() ==> dst_of(#[trigger] copies[j])
                                != r) implies #[trigger] after[r] == env[r] by {
                        assert(dst_of(copies[i]) != r);
                        assert forall|b: int| 0 <= b < rest.len() implies dst_of(
                            #[trigger] rest[b],
                        ) != r by {
                            let b1 = if b < i {
                                b
                            } else {
                                b + 1
                            };
                            assert(dst_of(copies[b1]) != r);
                        }
                        assert(after[r] == env1[r]);
                    }
                }
            },
            None => {
                let dst = copies[0].dst;
                let temp = temporary(code, dst.ty());
                let c1 = copy_code(code.taken(), temp, dst)->Ok_0;
                let next = rerouted(copies, dst, temp);
                lemma_rerouted_ready(copies, temp);
                let inst = c1.insts.last();
                assert(c1.insts =~= code.insts.push(inst));
                let env1 = moved(env, inst);
                let t = code.next as usize;
                assert(env1 == env.insert(t, value_of(dst, env)));
                assert(!same(dst, temp));
                assert(well_formed(next, c1.next)) by {
                    assert forall|a: int| 0 <= a < next.len() implies match (
                    #[trigger] next[a]).src {
                        OperandModel::Local(l) => l.id < c1.next,
                        OperandModel::Const { val, .. } => i64::MIN <= val <= i64::MAX,
                        OperandModel::Global { .. } => false,
                    } by {
                        assert(next[a].dst == copies[a].dst);
                    }
                    assert forall|a: int| 0 <= a < next.len() implies ((
                    #[trigger] next[a]).dst matches OperandModel::Local(l) && l.id < c1.next) by {
                        assert(next[a].dst == copies[a].dst);
                    }
                    assert forall|a: int, b: int| 0 <= a < b < next.len() implies !same(
                        (#[trigger] next[a]).dst,
                        (#[trigger] next[b]).dst,
                    ) by {
                        assert(!same(copies[a].dst, copies[b].dst));
                    }
                }
                lemma_parallel(c1, next, env1, 0);
                let after = all_moved(env1, c.insts.skip(n + 1));
                assert(c.insts.take(n + 1) == c1.insts);
                assert(c.insts.take(n) =~= c.insts.take(n + 1).take(n));
                assert(c1.insts.take(n) =~= code.insts);
                assert(c.insts[n] == c.insts.take(n + 1)[n]);
                assert(c.insts.skip(n) =~= seq![inst] + c.insts.skip(n + 1));
                lemma_all_moved_first(env, inst, c.insts.skip(n + 1));
                assert(copied(env, after, copies, code.next)) by {
                    assert forall|j: int| 0 <= j < copies.len() implies after[dst_of(
                        #[trigger] copies[j],
                    )] == value_of(copies[j].src, env) by {
                        assert(dst_of(next[j]) == dst_of(copies[j]));
                        assert(value_of(next[j].src, env1) == value_of(copies[j].src, env));
                    }
                    assert forall|r: usize|
                        r < code.next && (forall|j: int|
                            0 <= j < copies.len() ==> dst_of(#[trigger] copies[j])
                                != r) implies #[trigger] after[r] == env[r] by {
                        assert forall|b: int| 0 <= b < next.len() implies dst_of(
                            #[trigger] next[b],
                        ) != r by {
                            assert(dst_of(copies[b]) != r);
                        }
                        assert(after[r] == env1[r]);
                    }
                }
            },
        }
    }
}

} // verus!
