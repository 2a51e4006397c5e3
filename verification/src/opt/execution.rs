//! Renamed statements do what the statements did with a cell for each promoted
//! variable.

use super::mem2reg::{
    rename_stmt, rename_stmts, resolve, resolved, rewritten, slot, value_at, Step,
};
use crate::ir::execution::{Machine, Meaning};
use crate::ir::stmt::StmtModel;
use crate::ir::value::OperandModel;
use vstd::prelude::*;

verus! {

/// The state before promotion: every promoted variable has a cell of its own.
pub struct Cells {
    pub machine: Machine,
    pub vars: Seq<int>,
}

/// The promoted variable that an address belongs to.
pub open spec fn variable(vars: Seq<usize>, ptr: OperandModel) -> Option<int> {
    match ptr {
        OperandModel::Local(l) => if exists|i: int| 0 <= i < vars.len() && #[trigger] vars[i]
            == l.id {
            Some(choose|i: int| 0 <= i < vars.len() && #[trigger] vars[i] == l.id)
        } else {
            None
        },
        _ => None,
    }
}

impl Cells {
    /// The state after a statement: loads from and stores to promoted
    /// variables use their cells.
    pub open spec fn after(self, m: Meaning, vars: Seq<usize>, s: StmtModel) -> Cells {
        let plain = Cells { machine: self.machine.after(m, s), ..self };
        match s {
            StmtModel::Alloca { dst } => match variable(vars, dst) {
                Some(_) => self,
                None => plain,
            },
            StmtModel::Store { src, ptr } => match variable(vars, ptr) {
                Some(p) => Cells {
                    vars: self.vars.update(p, self.machine.value(m, src)),
                    ..self
                },
                None => plain,
            },
            StmtModel::Load { dst, ptr } => match variable(vars, ptr) {
                Some(p) => Cells { machine: self.machine.with(dst, self.vars[p]), ..self },
                None => plain,
            },
            _ => plain,
        }
    }

    /// The state after some statements.
    pub open spec fn after_all(self, m: Meaning, vars: Seq<usize>, stmts: Seq<StmtModel>) -> Cells
        decreases stmts.len(),
    {
        if stmts.len() == 0 {
            self
        } else {
            self.after_all(m, vars, stmts.drop_last()).after(m, vars, stmts.last())
        }
    }
}

/// The state after some statements behind promotion.
pub open spec fn after_all(w: Machine, m: Meaning, stmts: Seq<StmtModel>) -> Machine
    decreases stmts.len(),
{
    if stmts.len() == 0 {
        w
    } else {
        after_all(w, m, stmts.drop_last()).after(m, stmts.last())
    }
}

/// The operand is no local value, or one that is known.
pub open spec fn known(ids: Set<nat>, op: OperandModel) -> bool {
    op matches OperandModel::Local(l) ==> ids.contains(l.id)
}

/// The operand is no local value, or a known one that stands for itself.
pub open spec fn final_value(ids: Set<nat>, alias: Map<usize, OperandModel>, op: OperandModel) -> bool {
    op matches OperandModel::Local(l) ==> ids.contains(l.id) && !alias.contains_key(l.id as usize)
}

/// What renaming knows is about known values, and does not lead in circles.
pub open spec fn settled(ids: Set<nat>, st: Step) -> bool {
    &&& forall|i: nat| #[trigger] ids.contains(i) ==> i <= usize::MAX
    &&& st.alias.dom().finite()
    &&& forall|k: usize| #[trigger]
        st.alias.contains_key(k) ==> ids.contains(k as nat) && final_value(
            ids,
            st.alias,
            st.alias[k],
        )
    &&& forall|p: int|
        0 <= p < st.current.len() ==> (#[trigger] st.current[p] matches Some(v) ==> final_value(
            ids,
            st.alias,
            v,
        ))
}

/// The two states agree: the same memory, and each known value is that of what
/// it stands for, and each variable has the value that renaming uses for it.
pub open spec fn agree(
    m: Meaning,
    vars: Seq<usize>,
    ids: Set<nat>,
    st: Step,
    o: Cells,
    w: Machine,
) -> bool {
    &&& w.cells == o.machine.cells
    &&& o.vars.len() == vars.len()
    &&& st.current.len() == vars.len()
    &&& forall|l: crate::ir::value::LocalModel|
        ids.contains(l.id) ==> #[trigger] o.machine.value(m, OperandModel::Local(l)) == w.value(
            m,
            resolved(st.alias, OperandModel::Local(l)),
        )
    &&& forall|p: int|
        0 <= p < vars.len() ==> #[trigger] o.vars[p] == w.value(
            m,
            value_at(st.current, st.alias, p),
        )
}

/// The value that a statement defines.
pub open spec fn defines(s: StmtModel) -> Option<OperandModel> {
    match s {
        StmtModel::BiOp { dst, .. } => Some(dst),
        StmtModel::Cmp { dst, .. } => Some(dst),
        StmtModel::Load { dst, .. } => Some(dst),
        StmtModel::Gep { new_ptr, .. } => Some(new_ptr),
        StmtModel::Alloca { dst } => Some(dst),
        StmtModel::Call { res, .. } => res,
        StmtModel::Phi { dst, .. } => Some(dst),
        _ => None,
    }
}

/// The values that the statement needs are known, its addresses of promoted
/// variables apart.
pub open spec fn ready(vars: Seq<usize>, ids: Set<nat>, s: StmtModel) -> bool {
    match s {
        StmtModel::BiOp { left, right, .. } => known(ids, left) && known(ids, right),
        StmtModel::Cmp { left, right, .. } => known(ids, left) && known(ids, right),
        StmtModel::Load { ptr, .. } => variable(vars, ptr) is Some || known(ids, ptr),
        StmtModel::Store { src, ptr } => known(ids, src) && (variable(vars, ptr) is Some || known(
            ids,
            ptr,
        )),
        StmtModel::Gep { base_ptr, index, .. } => known(ids, base_ptr) && known(ids, index),
        StmtModel::Call { args, .. } => forall|i: int|
            0 <= i < args.len() ==> known(ids, #[trigger] args[i]),
        StmtModel::CJump { cond, .. } => known(ids, cond),
        StmtModel::Return { val } => val matches Some(v) ==> known(ids, v),
        StmtModel::Phi { .. } => false,
        _ => true,
    }
}

/// The known values with that of the statement; the address of a promoted
/// variable is none.
pub open spec fn grown(vars: Seq<usize>, ids: Set<nat>, s: StmtModel) -> Set<nat> {
    match defines(s) {
        Some(OperandModel::Local(l)) => if s is Alloca && variable(
            vars,
            OperandModel::Local(l),
        ) is Some {
            ids
        } else {
            ids.insert(l.id)
        },
        _ => ids,
    }
}

/// The known values behind some statements.
pub open spec fn grown_all(vars: Seq<usize>, ids: Set<nat>, stmts: Seq<StmtModel>) -> Set<nat>
    decreases stmts.len(),
{
    if stmts.len() == 0 {
        ids
    } else {
        grown(vars, grown_all(vars, ids, stmts.drop_last()), stmts.last())
    }
}

/// The statement computes no address from the result of a removed load.
pub open spec fn plain_base(alias: Map<usize, OperandModel>, s: StmtModel) -> bool {
    s matches StmtModel::Gep { base_ptr: OperandModel::Local(l), .. } ==> !alias.contains_key(
        l.id as usize,
    )
}

/// The numbers of the addresses that the statement uses are machine integers.
pub open spec fn addresses_fit(s: StmtModel) -> bool {
    &&& s matches StmtModel::Store { ptr: OperandModel::Local(l), .. } ==> l.id <= usize::MAX
    &&& s matches StmtModel::Load { ptr: OperandModel::Local(l), .. } ==> l.id <= usize::MAX
}

/// Every statement defines a new value and needs known ones only, and none
/// computes an address from the result of a removed load.
pub open spec fn in_order(vars: Seq<usize>, ids: Set<nat>, st: Step, stmts: Seq<StmtModel>) -> bool
    decreases stmts.len(),
{
    stmts.len() > 0 ==> {
        let before = grown_all(vars, ids, stmts.drop_last());
        &&& in_order(vars, ids, st, stmts.drop_last())
        &&& ready(vars, before, stmts.last())
        &&& plain_base(rename_stmts(vars, st, stmts.drop_last()).alias, stmts.last())
        &&& addresses_fit(stmts.last())
        &&& defines(stmts.last()) matches Some(OperandModel::Local(l)) ==> !before.contains(l.id)
            && l.id <= usize::MAX
    }
}

/// Aliases that do not lead in circles are followed in one step.
proof fn lemma_one_step(ids: Set<nat>, st: Step, op: OperandModel)
    requires
        settled(ids, st),
    ensures
        resolved(st.alias, op) == match op {
            OperandModel::Local(l) => if st.alias.contains_key(l.id as usize) {
                st.alias[l.id as usize]
            } else {
                op
            },
            _ => op,
        },
        known(ids, op) ==> final_value(ids, st.alias, resolved(st.alias, op)),
{
    match op {
        OperandModel::Local(l) => {
            if st.alias.contains_key(l.id as usize) {
                let k = l.id as usize;
                let v = st.alias[k];
                let n = st.alias.dom().len();
                assert(st.alias.dom().contains(k));
                assert(n > 0) by {
                    if n == 0 {
                        st.alias.dom().lemma_len0_is_empty();
                    }
                }
                assert(resolved(st.alias, op) == resolve(st.alias, v, (n - 1) as nat));
                match v {
                    OperandModel::Local(r) => {
                        assert(!st.alias.contains_key(r.id as usize));
                    },
                    _ => {},
                }
            }
        },
        _ => {},
    }
}

proof fn lemma_variable(vars: Seq<usize>, ids: Set<nat>, op: OperandModel)
    requires
        vars.no_duplicates(),
        op matches OperandModel::Local(l) ==> l.id <= usize::MAX,
    ensures
        variable(vars, op) == slot(vars, op),
        variable(vars, op) matches Some(p) ==> 0 <= p < vars.len(),
{
    match op {
        OperandModel::Local(l) => {
            let v = l.id as usize;
            if vars.contains(v) {
                let i = vars.index_of(v);
                assert(vars[i] == v);
                let j = choose|i: int| 0 <= i < vars.len() && #[trigger] vars[i] == l.id;
                assert(vars[j] == v);
            } else {
                assert forall|i: int| 0 <= i < vars.len() implies #[trigger] vars[i] != l.id by {
                    if vars[i] == l.id {
                        assert(vars.contains(v));
                    }
                }
            }
        },
        _ => {},
    }
}

/// An operand has the value of what it stands for.
proof fn lemma_same_value(
    m: Meaning,
    vars: Seq<usize>,
    ids: Set<nat>,
    st: Step,
    o: Cells,
    w: Machine,
    op: OperandModel,
)
    requires
        agree(m, vars, ids, st, o, w),
        known(ids, op),
    ensures
        o.machine.value(m, op) == w.value(m, resolved(st.alias, op)),
{
}

/// A new value changes none of those that are known.
proof fn lemma_new_value(
    m: Meaning,
    vars: Seq<usize>,
    ids: Set<nat>,
    st: Step,
    out: Seq<StmtModel>,
    o: Cells,
    w: Machine,
    o2: Cells,
    w2: Machine,
    dst: Option<OperandModel>,
    v: int,
)
    requires
        settled(ids, st),
        agree(m, vars, ids, st, o, w),
        dst matches Some(OperandModel::Local(l)) ==> !ids.contains(l.id) && l.id <= usize::MAX,
        o2.vars == o.vars,
        o2.machine.cells == w2.cells,
        o2.machine.locals == (match dst {
            Some(d) => o.machine.with(d, v).locals,
            None => o.machine.locals,
        }),
        w2.locals == (match dst {
            Some(d) => w.with(d, v).locals,
            None => w.locals,
        }),
    ensures
        ({
            let more = match dst {
                Some(OperandModel::Local(l)) => ids.insert(l.id),
                _ => ids,
            };
            let next = Step { out, ..st };
            &&& settled(more, next)
            &&& agree(m, vars, more, next, o2, w2)
        }),
{
    let more = match dst {
        Some(OperandModel::Local(l)) => ids.insert(l.id),
        _ => ids,
    };
    let next = Step { out, ..st };
    assert(settled(more, next)) by {
        assert forall|k: usize| #[trigger] next.alias.contains_key(k) implies more.contains(
            k as nat,
        ) && final_value(more, next.alias, next.alias[k]) by {
            assert(final_value(ids, st.alias, st.alias[k]));
        }
        assert forall|p: int| 0 <= p < next.current.len() implies (#[trigger] next.current[p] matches Some(
            x,
        ) ==> final_value(more, next.alias, x)) by {
            assert(st.current[p] matches Some(x) ==> final_value(ids, st.alias, x));
        }
    }
    assert forall|l: crate::ir::value::LocalModel| more.contains(l.id) implies #[trigger] o2.machine.value(
        m,
        OperandModel::Local(l),
    ) == w2.value(m, resolved(next.alias, OperandModel::Local(l))) by {
        lemma_one_step(more, next, OperandModel::Local(l));
        lemma_one_step(ids, st, OperandModel::Local(l));
        if ids.contains(l.id) {
            assert(o.machine.value(m, OperandModel::Local(l)) == w.value(
                m,
                resolved(st.alias, OperandModel::Local(l)),
            ));
            assert(final_value(ids, st.alias, resolved(st.alias, OperandModel::Local(l))));
        } else {
            if st.alias.contains_key(l.id as usize) {
                assert(ids.contains((l.id as usize) as nat));
            }
        }
    }
    assert forall|p: int| 0 <= p < vars.len() implies #[trigger] o2.vars[p] == w2.value(
        m,
        value_at(next.current, next.alias, p),
    ) by {
        assert(o.vars[p] == w.value(m, value_at(st.current, st.alias, p)));
        match st.current[p] {
            Some(x) => {
                lemma_one_step(ids, st, x);
                assert(final_value(ids, st.alias, x));
            },
            None => {},
        }
    }
}

/// A removed load: its result stands for the value of the variable.
proof fn lemma_loaded(
    m: Meaning,
    vars: Seq<usize>,
    ids: Set<nat>,
    st: Step,
    o: Cells,
    w: Machine,
    dst: OperandModel,
    ptr: OperandModel,
)
    requires
        settled(ids, st),
        agree(m, vars, ids, st, o, w),
        variable(vars, ptr) matches Some(p) && 0 <= p < vars.len() && slot(vars, ptr) == Some(p),
        dst matches OperandModel::Local(l) ==> !ids.contains(l.id) && l.id <= usize::MAX,
    ensures
        ({
            let s = StmtModel::Load { dst, ptr };
            let next = rename_stmt(vars, st, s);
            &&& settled(grown(vars, ids, s), next)
            &&& agree(m, vars, grown(vars, ids, s), next, o.after(m, vars, s), w)
        }),
{
    let s = StmtModel::Load { dst, ptr };
    let p = variable(vars, ptr)->Some_0;
    let next = rename_stmt(vars, st, s);
    let o2 = o.after(m, vars, s);
    let more = grown(vars, ids, s);
    let v = value_at(st.current, st.alias, p);
    assert(o.vars[p] == w.value(m, v));
    match dst {
        OperandModel::Local(d) => {
            let k = d.id as usize;
            assert(final_value(ids, st.alias, v)) by {
                match st.current[p] {
                    Some(x) => {
                        assert(final_value(ids, st.alias, x));
                        lemma_one_step(ids, st, x);
                    },
                    None => {},
                }
            }
            assert(!st.alias.contains_key(k)) by {
                if st.alias.contains_key(k) {
                    assert(ids.contains(k as nat));
                }
            }
            assert forall|x: OperandModel| #[trigger] final_value(ids, st.alias, x) implies final_value(
                more,
                next.alias,
                x,
            ) by {
                if let OperandModel::Local(r) = x {
                    assert(ids.contains(r.id) && r.id <= usize::MAX);
                    assert(r.id as usize != k);
                }
            }
            assert(settled(more, next)) by {
                assert forall|q: usize| #[trigger] next.alias.contains_key(q) implies more.contains(
                    q as nat,
                ) && final_value(more, next.alias, next.alias[q]) by {
                    if q != k {
                        assert(st.alias.contains_key(q));
                        assert(final_value(ids, st.alias, st.alias[q]));
                    }
                }
                assert forall|q: int| 0 <= q < next.current.len() implies (
                #[trigger] next.current[q] matches Some(x) ==> final_value(
                    more,
                    next.alias,
                    x,
                )) by {
                    assert(st.current[q] matches Some(x) ==> final_value(ids, st.alias, x));
                }
            }
            assert forall|l: crate::ir::value::LocalModel|
                more.contains(l.id) implies #[trigger] o2.machine.value(m, OperandModel::Local(l))
                == w.value(m, resolved(next.alias, OperandModel::Local(l))) by {
                lemma_one_step(more, next, OperandModel::Local(l));
                if l.id != d.id {
                    assert(ids.contains(l.id) && l.id <= usize::MAX);
                    lemma_one_step(ids, st, OperandModel::Local(l));
                    assert(o.machine.value(m, OperandModel::Local(l)) == w.value(
                        m,
                        resolved(st.alias, OperandModel::Local(l)),
                    ));
                }
            }
            assert forall|q: int| 0 <= q < vars.len() implies #[trigger] o2.vars[q] == w.value(
                m,
                value_at(next.current, next.alias, q),
            ) by {
                assert(o.vars[q] == w.value(m, value_at(st.current, st.alias, q)));
                match st.current[q] {
                    Some(x) => {
                        assert(final_value(ids, st.alias, x));
                        lemma_one_step(ids, st, x);
                        lemma_one_step(more, next, x);
                    },
                    None => {},
                }
            }
        },
        _ => {},
    }
}

/// One statement: what renaming makes of it does the same.
pub proof fn lemma_stmt_agrees(
    m: Meaning,
    vars: Seq<usize>,
    ids: Set<nat>,
    st: Step,
    o: Cells,
    w: Machine,
    s: StmtModel,
)
    requires
        vars.no_duplicates(),
        settled(ids, st),
        agree(m, vars, ids, st, o, w),
        ready(vars, ids, s),
        defines(s) matches Some(OperandModel::Local(l)) ==> !ids.contains(l.id) && l.id
            <= usize::MAX,
        plain_base(st.alias, s),
        addresses_fit(s),
    ensures
        ({
            let next = rename_stmt(vars, st, s);
            let w2 = if next.out.len() > st.out.len() {
                w.after(m, next.out.last())
            } else {
                w
            };
            &&& next.out == st.out || next.out.len() == st.out.len() + 1 && next.out.drop_last()
                == st.out
            &&& settled(grown(vars, ids, s), next)
            &&& agree(m, vars, grown(vars, ids, s), next, o.after(m, vars, s), w2)
        }),
{
    let next = rename_stmt(vars, st, s);
    let o2 = o.after(m, vars, s);
    let w2 = if next.out.len() > st.out.len() {
        w.after(m, next.out.last())
    } else {
        w
    };
    assert(st.out.push(rewritten(st.alias, s)).drop_last() =~= st.out);
    assert(st.out.push(s).drop_last() =~= st.out);
    match s {
        StmtModel::Alloca { dst } => {
            lemma_variable(vars, ids, dst);
            match variable(vars, dst) {
                Some(_) => {},
                None => {
                    let (at, cells) = (m.places)(w.cells, dst.ty());
                    lemma_new_value(m, vars, ids, st, next.out, o, w, o2, w2, Some(dst), at);
                },
            }
        },
        StmtModel::Store { src, ptr } => {
            lemma_variable(vars, ids, ptr);
            lemma_same_value(m, vars, ids, st, o, w, src);
            match variable(vars, ptr) {
                Some(p) => {
                    lemma_one_step(ids, st, src);
                    let v = resolved(st.alias, src);
                    lemma_one_step(ids, st, v);
                    assert forall|q: int| 0 <= q < vars.len() implies #[trigger] o2.vars[q]
                        == w2.value(m, value_at(next.current, next.alias, q)) by {
                        assert(o.vars[q] == w.value(m, value_at(st.current, st.alias, q)));
                    }
                    assert forall|q: int| 0 <= q < next.current.len() implies (
                    #[trigger] next.current[q] matches Some(x) ==> final_value(
                        ids,
                        next.alias,
                        x,
                    )) by {
                        assert(st.current[q] matches Some(x) ==> final_value(ids, st.alias, x));
                    }
                    assert forall|l: crate::ir::value::LocalModel|
                        ids.contains(l.id) implies #[trigger] o2.machine.value(
                        m,
                        OperandModel::Local(l),
                    ) == w2.value(m, resolved(next.alias, OperandModel::Local(l))) by {
                        assert(o.machine.value(m, OperandModel::Local(l)) == w.value(
                            m,
                            resolved(st.alias, OperandModel::Local(l)),
                        ));
                    }
                },
                None => {
                    lemma_same_value(m, vars, ids, st, o, w, ptr);
                    lemma_new_value(m, vars, ids, st, next.out, o, w, o2, w2, None, 0);
                },
            }
        },
        StmtModel::Load { dst, ptr } => {
            lemma_variable(vars, ids, ptr);
            match variable(vars, ptr) {
                Some(p) => {
                    lemma_loaded(m, vars, ids, st, o, w, dst, ptr);
                },
                None => {
                    lemma_same_value(m, vars, ids, st, o, w, ptr);
                    lemma_new_value(
                        m,
                        vars,
                        ids,
                        st,
                        next.out,
                        o,
                        w,
                        o2,
                        w2,
                        Some(dst),
                        w.cells[o.machine.value(m, ptr)],
                    );
                },
            }
        },
        StmtModel::BiOp { kind, left, right, dst } => {
            lemma_same_value(m, vars, ids, st, o, w, left);
            lemma_same_value(m, vars, ids, st, o, w, right);
            let v = crate::ir::execution::narrowed(
                crate::ir::execution::calculated(
                    kind,
                    o.machine.value(m, left),
                    o.machine.value(m, right),
                ),
            );
            lemma_new_value(m, vars, ids, st, next.out, o, w, o2, w2, Some(dst), v);
        },
        StmtModel::Cmp { kind, left, right, dst } => {
            lemma_same_value(m, vars, ids, st, o, w, left);
            lemma_same_value(m, vars, ids, st, o, w, right);
            let v = crate::ir::execution::as_number(
                crate::ir::execution::relates(
                    kind,
                    o.machine.value(m, left),
                    o.machine.value(m, right),
                ),
            );
            lemma_new_value(m, vars, ids, st, next.out, o, w, o2, w2, Some(dst), v);
        },
        StmtModel::Gep { new_ptr, base_ptr, index } => {
            lemma_same_value(m, vars, ids, st, o, w, base_ptr);
            lemma_same_value(m, vars, ids, st, o, w, index);
            lemma_one_step(ids, st, base_ptr);
            let v = (m.parts)(
                o.machine.value(m, base_ptr),
                o.machine.value(m, index),
                base_ptr.ty(),
                new_ptr.ty(),
            );
            lemma_new_value(m, vars, ids, st, next.out, o, w, o2, w2, Some(new_ptr), v);
        },
        StmtModel::Call { func_name, res, args } => {
            let outs = Seq::new(s.reads().len(), |i: int| resolved(st.alias, s.reads()[i].0));
            assert(w.values(m, outs) =~= o.machine.values(m, args)) by {
                assert forall|i: int| 0 <= i < args.len() implies w.value(m, outs[i])
                    == o.machine.value(m, args[i]) by {
                    lemma_same_value(m, vars, ids, st, o, w, args[i]);
                }
            }
            let (v, cells) = (m.calls)(w.cells, func_name, o.machine.values(m, args));
            lemma_new_value(m, vars, ids, st, next.out, o, w, o2, w2, res, v);
        },
        _ => {
            lemma_new_value(m, vars, ids, st, next.out, o, w, o2, w2, None, 0);
        },
    }
}

/// The statements of a block: what renaming makes of them gives the same
/// memory and the same values as the statements did with a cell for each
/// promoted variable.  So a load gives what was stored last, and at the end
/// each variable has the value that was stored last.
pub proof fn lemma_block_agrees(
    m: Meaning,
    vars: Seq<usize>,
    ids: Set<nat>,
    st: Step,
    o: Cells,
    w: Machine,
    stmts: Seq<StmtModel>,
)
    requires
        vars.no_duplicates(),
        st.out.len() == 0,
        settled(ids, st),
        agree(m, vars, ids, st, o, w),
        in_order(vars, ids, st, stmts),
    ensures
        settled(grown_all(vars, ids, stmts), rename_stmts(vars, st, stmts)),
        agree(
            m,
            vars,
            grown_all(vars, ids, stmts),
            rename_stmts(vars, st, stmts),
            o.after_all(m, vars, stmts),
            after_all(w, m, rename_stmts(vars, st, stmts).out),
        ),
    decreases stmts.len(),
{
    if stmts.len() > 0 {
        let front = stmts.drop_last();
        lemma_block_agrees(m, vars, ids, st, o, w, front);
        let mid = rename_stmts(vars, st, front);
        lemma_stmt_agrees(
            m,
            vars,
            grown_all(vars, ids, front),
            mid,
            o.after_all(m, vars, front),
            after_all(w, m, mid.out),
            stmts.last(),
        );
    }
}

/// The last store to the variable at position `p` among the first `k`
/// statements.
pub open spec fn last_store(vars: Seq<usize>, stmts: Seq<StmtModel>, p: int, k: nat) -> Option<int>
    decreases k,
{
    if k == 0 {
        None
    } else if stmts[k - 1] matches StmtModel::Store { ptr, .. } && variable(vars, ptr) == Some(p) {
        Some(k - 1)
    } else {
        last_store(vars, stmts, p, (k - 1) as nat)
    }
}

/// Behind the first `k` statements a promoted variable has the value of the
/// source of the last store to it, with what that stood for when it was
/// stored; where there is no store, it has the value that it came with.
pub proof fn lemma_last_store(vars: Seq<usize>, st: Step, stmts: Seq<StmtModel>, p: int, k: nat)
    requires
        vars.no_duplicates(),
        st.current.len() == vars.len(),
        k <= stmts.len(),
        0 <= p < vars.len(),
        forall|i: int| 0 <= i < stmts.len() ==> addresses_fit(#[trigger] stmts[i]),
    ensures
        rename_stmts(vars, st, stmts.take(k as int)).current.len() == vars.len(),
        rename_stmts(vars, st, stmts.take(k as int)).current[p] == match last_store(
            vars,
            stmts,
            p,
            k,
        ) {
            None => st.current[p],
            Some(j) => match stmts[j] {
                StmtModel::Store { src, .. } => Some(
                    resolved(rename_stmts(vars, st, stmts.take(j)).alias, src),
                ),
                _ => None,
            },
        },
    decreases k,
{
    if k > 0 {
        lemma_last_store(vars, st, stmts, p, (k - 1) as nat);
        assert(stmts.take(k as int).drop_last() =~= stmts.take(k - 1));
        let s = stmts[k - 1];
        assert(stmts.take(k as int).last() == s);
        assert(addresses_fit(s));
        if let StmtModel::Store { ptr, .. } = s {
            lemma_variable(vars, Set::empty(), ptr);
        }
    }
}

/// The result of a load of a promoted variable stands for the value that the
/// variable has there.
pub proof fn lemma_load_replaced(vars: Seq<usize>, st: Step, stmts: Seq<StmtModel>, p: int, k: nat)
    requires
        vars.no_duplicates(),
        k < stmts.len(),
        stmts[k as int] matches StmtModel::Load { dst: OperandModel::Local(l), ptr } && variable(
            vars,
            ptr,
        ) == Some(p) && l.id <= usize::MAX,
        forall|i: int| 0 <= i < stmts.len() ==> addresses_fit(#[trigger] stmts[i]),
    ensures
        ({
            let before = rename_stmts(vars, st, stmts.take(k as int));
            let behind = rename_stmts(vars, st, stmts.take(k as int + 1));
            let id = stmts[k as int]->Load_dst->Local_0.id as usize;
            &&& behind.alias.contains_key(id)
            &&& behind.alias[id] == match before.current[p] {
                Some(v) => resolved(before.alias, v),
                None => OperandModel::i32_const(0),
            }
            &&& behind.out == before.out
        }),
{
    assert(stmts.take(k as int + 1).drop_last() =~= stmts.take(k as int));
    assert(stmts.take(k as int + 1).last() == stmts[k as int]);
    assert(addresses_fit(stmts[k as int]));
    lemma_variable(vars, Set::empty(), stmts[k as int]->Load_ptr);
}

} // verus!
