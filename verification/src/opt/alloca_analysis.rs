//! How the variables of a function, allocated on the stack, are used.

use super::dominator::{above, DominatorInfo};
use crate::common::bitset::{lists, members, Bitset};
use crate::ir::function::{block_models, stmt_models, BasicBlock, BlockModel};
use crate::ir::stmt::{role_models, OperandRole, Stmt, StmtInner, StmtModel};
use crate::ir::types::{Dtype, DtypeModel};
use crate::ir::value::{Operand, OperandModel};
use std::collections::HashMap;
use vstd::prelude::*;

verus! {

/// More variables than this with a single defining block are left alone.
pub const SINGLE_DEF_LIMIT: usize = 256;

/// All operands of a list of statements with their roles.
pub open spec fn block_roles(stmts: Seq<StmtModel>) -> Seq<(OperandModel, OperandRole)>
    decreases stmts.len(),
{
    if stmts.len() == 0 {
        Seq::empty()
    } else {
        block_roles(stmts.drop_last()) + stmts.last().roles()
    }
}

/// The operand is the local value `v` in the given role.
pub open spec fn is_role(r: (OperandModel, OperandRole), v: nat, role: OperandRole) -> bool {
    r.1 == role && (r.0 matches OperandModel::Local(l) && l.id == v)
}

/// The local value `v` occurs in the given role.
pub open spec fn has_role(
    rs: Seq<(OperandModel, OperandRole)>,
    v: nat,
    role: OperandRole,
) -> bool {
    exists|j: int| 0 <= j < rs.len() && is_role(#[trigger] rs[j], v, role)
}

/// The variable `v` is loaded before any store to it.
pub open spec fn loads_first(rs: Seq<(OperandModel, OperandRole)>, v: nat) -> bool {
    exists|j: int|
        #![trigger rs[j]]
        0 <= j < rs.len() && is_role(rs[j], v, OperandRole::LoadPtr) && !has_role(
            rs.take(j),
            v,
            OperandRole::StorePtr,
        )
}

/// The block stores to the variable `v`.
pub open spec fn stores(b: BlockModel, v: nat) -> bool {
    has_role(block_roles(b.stmts), v, OperandRole::StorePtr)
}

/// The block loads the variable `v` before any store to it.
pub open spec fn exposes(b: BlockModel, v: nat) -> bool {
    loads_first(block_roles(b.stmts), v)
}

/// Some block has `v` in the given role.
pub open spec fn occurs(blocks: Seq<BlockModel>, v: nat, role: OperandRole) -> bool {
    exists|b: int|
        0 <= b < blocks.len() && has_role(block_roles((#[trigger] blocks[b]).stmts), v, role)
}

/// The blocks that store to `v`.
pub open spec fn def_set(blocks: Seq<BlockModel>, v: nat) -> Set<int> {
    Set::new(|b: int| 0 <= b < blocks.len() && stores(blocks[b], v))
}

/// The variable that a statement allocates, if it is a single integer.
pub open spec fn candidate(s: StmtModel) -> Option<usize> {
    match s {
        StmtModel::Alloca { dst: OperandModel::Local(l) } => if l.dtype == DtypeModel::I32.pointer() {
            Some(l.id as usize)
        } else {
            None
        },
        _ => None,
    }
}

/// Adds the variables that the statements allocate to those known.
pub open spec fn candidates_in(known: Seq<usize>, stmts: Seq<StmtModel>) -> Seq<usize>
    decreases stmts.len(),
{
    if stmts.len() == 0 {
        known
    } else {
        let front = candidates_in(known, stmts.drop_last());
        match candidate(stmts.last()) {
            Some(v) => if front.contains(v) {
                front
            } else {
                front.push(v)
            },
            None => front,
        }
    }
}

/// The integer variables that the blocks allocate, each once, in order.
pub open spec fn candidates(blocks: Seq<BlockModel>) -> Seq<usize>
    decreases blocks.len(),
{
    if blocks.len() == 0 {
        Seq::empty()
    } else {
        candidates_in(candidates(blocks.drop_last()), blocks.last().stmts)
    }
}

/// The variable `v` can be kept in registers: it is only loaded and stored,
/// it is stored, and every block that loads it first is dominated by another
/// block that stores it.
pub open spec fn promotable(blocks: Seq<BlockModel>, succ: Seq<Seq<usize>>, v: nat) -> bool {
    &&& !occurs(blocks, v, OperandRole::Use)
    &&& occurs(blocks, v, OperandRole::StorePtr)
    &&& forall|b: int|
        0 <= b < blocks.len() && exposes(#[trigger] blocks[b], v) ==> has_dominating_def(
            blocks,
            succ,
            v,
            b,
        )
}

/// Some other block that stores `v` dominates `b`.
pub open spec fn has_dominating_def(
    blocks: Seq<BlockModel>,
    succ: Seq<Seq<usize>>,
    v: nat,
    b: int,
) -> bool {
    exists|d: int| #[trigger] dominating_def(blocks, succ, v, d, b)
}

/// `d` is another block that stores `v` and dominates `b`.
pub open spec fn dominating_def(
    blocks: Seq<BlockModel>,
    succ: Seq<Seq<usize>>,
    v: nat,
    d: int,
    b: int,
) -> bool {
    0 <= d < blocks.len() && stores(blocks[d], v) && d != b && above(succ, d, b)
}

/// The promotable variables of a list; with `multi` only those that more than
/// one block stores to.
pub open spec fn select(
    blocks: Seq<BlockModel>,
    succ: Seq<Seq<usize>>,
    vars: Seq<usize>,
    multi: bool,
) -> Seq<usize>
    decreases vars.len(),
{
    if vars.len() == 0 {
        Seq::empty()
    } else {
        let front = select(blocks, succ, vars.drop_last(), multi);
        let v = vars.last();
        if promotable(blocks, succ, v as nat) && (multi ==> def_set(blocks, v as nat).len() > 1) {
            front.push(v)
        } else {
            front
        }
    }
}

/// The variables to promote: all that are promotable, unless too many of them
/// have a single defining block.
pub open spec fn promoted_vars(blocks: Seq<BlockModel>, succ: Seq<Seq<usize>>) -> Seq<usize> {
    let vars = candidates(blocks);
    let all = select(blocks, succ, vars, false);
    let several = select(blocks, succ, vars, true);
    if all.len() - several.len() <= SINGLE_DEF_LIMIT {
        all
    } else {
        several
    }
}

proof fn lemma_push_role(
    rs: Seq<(OperandModel, OperandRole)>,
    x: (OperandModel, OperandRole),
    v: nat,
    role: OperandRole,
)
    ensures
        has_role(rs.push(x), v, role) == (has_role(rs, v, role) || is_role(x, v, role)),
{
    let t = rs.push(x);
    if has_role(rs, v, role) {
        let j = choose|j: int| 0 <= j < rs.len() && is_role(#[trigger] rs[j], v, role);
        assert(t[j] == rs[j]);
    }
    if is_role(x, v, role) {
        assert(t[rs.len() as int] == x);
    }
    if has_role(t, v, role) {
        let j = choose|j: int| 0 <= j < t.len() && is_role(#[trigger] t[j], v, role);
        if j < rs.len() {
            assert(t[j] == rs[j]);
        }
    }
}

proof fn lemma_push_loads_first(
    rs: Seq<(OperandModel, OperandRole)>,
    x: (OperandModel, OperandRole),
    v: nat,
)
    ensures
        loads_first(rs.push(x), v) == (loads_first(rs, v) || (is_role(x, v, OperandRole::LoadPtr)
            && !has_role(rs, v, OperandRole::StorePtr))),
{
    let t = rs.push(x);
    if loads_first(rs, v) {
        let j = choose|j: int|
            #![trigger rs[j]]
            0 <= j < rs.len() && is_role(rs[j], v, OperandRole::LoadPtr) && !has_role(
                rs.take(j),
                v,
                OperandRole::StorePtr,
            );
        assert(t[j] == rs[j]);
        assert(t.take(j) =~= rs.take(j));
    }
    if is_role(x, v, OperandRole::LoadPtr) && !has_role(rs, v, OperandRole::StorePtr) {
        assert(t[rs.len() as int] == x);
        assert(t.take(rs.len() as int) =~= rs);
    }
    if loads_first(t, v) {
        let j = choose|j: int|
            #![trigger t[j]]
            0 <= j < t.len() && is_role(t[j], v, OperandRole::LoadPtr) && !has_role(
                t.take(j),
                v,
                OperandRole::StorePtr,
            );
        if j < rs.len() {
            assert(t[j] == rs[j]);
            assert(t.take(j) =~= rs.take(j));
        } else {
            assert(t.take(j) =~= rs);
        }
    }
}

/// How one variable is used.
pub struct VarUsage {
    pub def_blocks: Bitset,
    pub load_before_store_blocks: Bitset,
    pub has_store: bool,
    pub has_load: bool,
    pub invalid: bool,
}

impl VarUsage {
    /// The record is that of `v` in the blocks below `b` and the operands
    /// `rs` of block `b`.
    pub open spec fn tracks(
        &self,
        blocks: Seq<BlockModel>,
        v: nat,
        b: int,
        rs: Seq<(OperandModel, OperandRole)>,
    ) -> bool {
        &&& self.def_blocks.wf()
        &&& self.def_blocks.cap() == blocks.len()
        &&& self.load_before_store_blocks.wf()
        &&& self.load_before_store_blocks.cap() == blocks.len()
        &&& forall|x: int| #[trigger]
            self.def_blocks@.contains(x) <==> (0 <= x < b && stores(blocks[x], v)) || (x == b
                && has_role(rs, v, OperandRole::StorePtr))
        &&& forall|x: int| #[trigger]
            self.load_before_store_blocks@.contains(x) <==> (0 <= x < b && exposes(blocks[x], v))
                || (x == b && loads_first(rs, v))
        &&& self.has_store <==> occurs(blocks.take(b), v, OperandRole::StorePtr) || has_role(
            rs,
            v,
            OperandRole::StorePtr,
        )
        &&& self.has_load <==> occurs(blocks.take(b), v, OperandRole::LoadPtr) || has_role(
            rs,
            v,
            OperandRole::LoadPtr,
        )
        &&& self.invalid <==> occurs(blocks.take(b), v, OperandRole::Use) || has_role(
            rs,
            v,
            OperandRole::Use,
        )
    }

    /// The record is that of `v` in all blocks.
    pub open spec fn describes(&self, blocks: Seq<BlockModel>, v: nat) -> bool {
        &&& self.def_blocks.wf()
        &&& self.def_blocks.cap() == blocks.len()
        &&& self.load_before_store_blocks.wf()
        &&& self.load_before_store_blocks.cap() == blocks.len()
        &&& self.def_blocks@ == def_set(blocks, v)
        &&& forall|x: int| #[trigger]
            self.load_before_store_blocks@.contains(x) <==> 0 <= x < blocks.len() && exposes(
                blocks[x],
                v,
            )
        &&& self.has_store == occurs(blocks, v, OperandRole::StorePtr)
        &&& self.has_load == occurs(blocks, v, OperandRole::LoadPtr)
        &&& self.invalid == occurs(blocks, v, OperandRole::Use)
    }

    fn new(n: usize) -> (u: Self)
        ensures
            forall|blocks: Seq<BlockModel>, v: nat|
                blocks.len() == n ==> #[trigger] u.tracks(blocks, v, 0, Seq::empty()),
    {
        let u = VarUsage {
            def_blocks: Bitset::new(n),
            load_before_store_blocks: Bitset::new(n),
            has_store: false,
            has_load: false,
            invalid: false,
        };
        u
    }

    /// Notes one operand of block `b`; `seen` tells whether the block stored
    /// to the variable before.
    fn note(
        &mut self,
        role: OperandRole,
        b: usize,
        seen: bool,
        Ghost(blocks): Ghost<Seq<BlockModel>>,
        Ghost(v): Ghost<nat>,
        Ghost(rs): Ghost<Seq<(OperandModel, OperandRole)>>,
        Ghost(x): Ghost<(OperandModel, OperandRole)>,
    )
        requires
            old(self).tracks(blocks, v, b as int, rs),
            b < blocks.len(),
            is_role(x, v, role),
            seen == has_role(rs, v, OperandRole::StorePtr),
        ensures
            final(self).tracks(blocks, v, b as int, rs.push(x)),
    {
        proof {
            lemma_push_role(rs, x, v, OperandRole::StorePtr);
            lemma_push_role(rs, x, v, OperandRole::LoadPtr);
            lemma_push_role(rs, x, v, OperandRole::Use);
            lemma_push_loads_first(rs, x, v);
        }
        match role {
            OperandRole::LoadPtr => {
                if !seen {
                    self.load_before_store_blocks.insert(b);
                }
                self.has_load = true;
            },
            OperandRole::StorePtr => {
                self.has_store = true;
                self.def_blocks.insert(b);
            },
            OperandRole::Def => {},
            OperandRole::Use => {
                self.invalid = true;
            },
        }
    }
}

/// The uses of the integer variables of a function.
pub struct AllocaAnalysis {
    /// The variables in the order in which they are allocated.
    pub vars: Vec<usize>,
    /// The use of each variable.
    pub usage: Vec<VarUsage>,
}

/// The map gives the position of every variable of the list.
pub open spec fn indexes(slots: Map<usize, usize>, vars: Seq<usize>) -> bool {
    &&& vars.no_duplicates()
    &&& forall|v: usize| #[trigger] slots.contains_key(v) <==> vars.contains(v)
    &&& forall|v: usize| #[trigger]
        slots.contains_key(v) ==> slots[v] < vars.len() && vars[slots[v] as int] == v
}

proof fn lemma_append_roles(
    rs: Seq<(OperandModel, OperandRole)>,
    more: Seq<(OperandModel, OperandRole)>,
    k: int,
)
    requires
        0 <= k < more.len(),
    ensures
        (rs + more.take(k)).push(more[k]) == rs + more.take(k + 1),
{
    assert((rs + more.take(k)).push(more[k]) =~= rs + more.take(k + 1));
}

impl AllocaAnalysis {
    /// The variables of the blocks with their uses.
    pub open spec fn of(&self, blocks: Seq<BlockModel>) -> bool {
        &&& self.vars@ == candidates(blocks)
        &&& self.usage.len() == self.vars.len()
        &&& forall|p: int|
            0 <= p < self.usage.len() ==> (#[trigger] self.usage@[p]).describes(
                blocks,
                self.vars@[p] as nat,
            )
    }

    /// Analyses the blocks of a function.
    pub fn from_blocks(blocks: &[BasicBlock]) -> (a: Self)
        ensures
            a.of(block_models(blocks@)),
    {
        let (vars, slots) = Self::collect_candidates(blocks);
        let usage = Self::analyze_usage(blocks, &vars, &slots);
        AllocaAnalysis { vars, usage }
    }

    fn collect_candidates(blocks: &[BasicBlock]) -> (r: (Vec<usize>, HashMap<usize, usize>))
        ensures
            r.0@ == candidates(block_models(blocks@)),
            indexes(r.1@, r.0@),
    {
        let ghost bs = block_models(blocks@);
        let mut vars: Vec<usize> = Vec::new();
        let mut slots: HashMap<usize, usize> = HashMap::new();
        let mut b: usize = 0;
        while b < blocks.len()
            invariant
                b <= blocks.len(),
                bs == block_models(blocks@),
                vars@ == candidates(bs.take(b as int)),
                indexes(slots@, vars@),
            decreases blocks.len() - b,
        {
            let stmts = &blocks[b].stmts;
            let ghost known = vars@;
            let ghost ss = stmt_models(stmts@);
            let mut i: usize = 0;
            assert(ss.take(0) =~= Seq::empty());
            while i < stmts.len()
                invariant
                    i <= stmts.len(),
                    ss == stmt_models(stmts@),
                    vars@ == candidates_in(known, ss.take(i as int)),
                    indexes(slots@, vars@),
                decreases stmts.len() - i,
            {
                proof {
                    assert(ss.take(i + 1).drop_last() =~= ss.take(i as int));
                    assert(ss.take(i + 1).last() == stmts@[i as int]@);
                }
                match Self::candidate_of(&stmts[i]) {
                    Some(v) => {
                        if !slots.contains_key(&v) {
                            let ghost before_vars = vars@;
                            slots.insert(v, vars.len());
                            vars.push(v);
                            proof {
                                assert(!before_vars.contains(v));
                                assert(vars@[before_vars.len() as int] == v);
                                assert forall|w: usize| #[trigger]
                                    slots@.contains_key(w) <==> vars@.contains(w) by {
                                    if before_vars.contains(w) {
                                        let k = choose|k: int|
                                            0 <= k < before_vars.len() && before_vars[k] == w;
                                        assert(vars@[k] == w);
                                    }
                                }
                            }
                        }
                    },
                    None => {},
                }
                i = i + 1;
            }
            proof {
                assert(ss.take(i as int) =~= ss);
                assert(bs.take(b + 1).drop_last() =~= bs.take(b as int));
                assert(bs.take(b + 1).last().stmts == ss);
            }
            b = b + 1;
        }
        proof {
            assert(bs.take(b as int) =~= bs);
        }
        (vars, slots)
    }

    fn candidate_of(stmt: &Stmt) -> (v: Option<usize>)
        ensures
            v == candidate(stmt@),
    {
        match &stmt.inner {
            StmtInner::Alloca(a) => {
                match &a.dst {
                    Operand::Local(l) => {
                        match &l.dtype {
                            Dtype::Pointer { pointee } => {
                                proof {
                                    reveal_with_fuel(Dtype::model, 3);
                                }
                                match &**pointee {
                                    Dtype::I32 => Some(l.id.0),
                                    _ => None,
                                }
                            },
                            _ => None,
                        }
                    },
                    _ => None,
                }
            },
            _ => None,
        }
    }

    fn analyze_usage(
        blocks: &[BasicBlock],
        vars: &Vec<usize>,
        slots: &HashMap<usize, usize>,
    ) -> (usage: Vec<VarUsage>)
        requires
            indexes(slots@, vars@),
        ensures
            usage.len() == vars.len(),
            forall|p: int|
                0 <= p < usage.len() ==> (#[trigger] usage@[p]).describes(
                    block_models(blocks@),
                    vars@[p] as nat,
                ),
    {
        let ghost bs = block_models(blocks@);
        let n: usize = blocks.len();
        let mut usage: Vec<VarUsage> = Vec::new();
        let mut p: usize = 0;
        while p < vars.len()
            invariant
                p <= vars.len(),
                bs.len() == n,
                usage.len() == p,
                forall|q: int|
                    0 <= q < p ==> (#[trigger] usage@[q]).tracks(
                        bs,
                        vars@[q] as nat,
                        0,
                        Seq::empty(),
                    ),
            decreases vars.len() - p,
        {
            let u = VarUsage::new(n);
            assert(u.tracks(bs, vars@[p as int] as nat, 0, Seq::empty()));
            usage.push(u);
            p = p + 1;
        }
        let mut b: usize = 0;
        while b < n
            invariant
                b <= n,
                n == blocks.len(),
                bs == block_models(blocks@),
                indexes(slots@, vars@),
                usage.len() == vars.len(),
                forall|q: int|
                    0 <= q < usage.len() ==> (#[trigger] usage@[q]).tracks(
                        bs,
                        vars@[q] as nat,
                        b as int,
                        Seq::empty(),
                    ),
            decreases n - b,
        {
            Self::analyze_block(&blocks[b], b, vars, slots, &mut usage, Ghost(bs));
            proof {
                assert forall|q: int| 0 <= q < usage.len() implies (#[trigger] usage@[q]).tracks(
                    bs,
                    vars@[q] as nat,
                    b + 1,
                    Seq::empty(),
                ) by {
                    lemma_next_block(usage@[q], bs, vars@[q] as nat, b as int);
                }
            }
            b = b + 1;
        }
        proof {
            assert forall|q: int| 0 <= q < usage.len() implies (#[trigger] usage@[q]).describes(
                bs,
                vars@[q] as nat,
            ) by {
                assert(bs.take(n as int) =~= bs);
                assert(usage@[q].tracks(bs, vars@[q] as nat, n as int, Seq::empty()));
                assert(usage@[q].def_blocks@ =~= def_set(bs, vars@[q] as nat));
            }
        }
        usage
    }

    fn analyze_block(
        block: &BasicBlock,
        b: usize,
        vars: &Vec<usize>,
        slots: &HashMap<usize, usize>,
        usage: &mut Vec<VarUsage>,
        Ghost(bs): Ghost<Seq<BlockModel>>,
    )
        requires
            b < bs.len(),
            block@ == bs[b as int],
            indexes(slots@, vars@),
            old(usage)@.len() == vars.len(),
            forall|q: int|
                0 <= q < vars.len() ==> (#[trigger] old(usage)@[q]).tracks(
                    bs,
                    vars@[q] as nat,
                    b as int,
                    Seq::empty(),
                ),
        ensures
            final(usage)@.len() == vars.len(),
            forall|q: int|
                0 <= q < vars.len() ==> (#[trigger] final(usage)@[q]).tracks(
                    bs,
                    vars@[q] as nat,
                    b as int,
                    block_roles(bs[b as int].stmts),
                ),
    {
        let mut seen = Bitset::new(vars.len());
        let stmts = &block.stmts;
        let ghost ss = stmt_models(stmts@);
        let mut i: usize = 0;
        assert(ss.take(0) =~= Seq::empty());
        while i < stmts.len()
            invariant
                i <= stmts.len(),
                b < bs.len(),
                ss == stmt_models(stmts@),
                indexes(slots@, vars@),
                usage@.len() == vars.len(),
                forall|q: int|
                    0 <= q < vars.len() ==> (#[trigger] usage@[q]).tracks(
                        bs,
                        vars@[q] as nat,
                        b as int,
                        block_roles(ss.take(i as int)),
                    ),
                seen.wf(),
                seen.cap() == vars.len(),
                forall|q: int|
                    0 <= q < vars.len() ==> (#[trigger] seen@.contains(q) <==> has_role(
                        block_roles(ss.take(i as int)),
                        vars@[q] as nat,
                        OperandRole::StorePtr,
                    )),
            decreases stmts.len() - i,
        {
            let refs = stmts[i].operands();
            let ghost done = block_roles(ss.take(i as int));
            let ghost more = stmts@[i as int]@.roles();
            assert(done + more.take(0) =~= done);
            let mut k: usize = 0;
            while k < refs.len()
                invariant
                    k <= refs.len(),
                    b < bs.len(),
                    role_models(refs@) == more,
                    indexes(slots@, vars@),
                    usage@.len() == vars.len(),
                    forall|q: int|
                        0 <= q < vars.len() ==> (#[trigger] usage@[q]).tracks(
                            bs,
                            vars@[q] as nat,
                            b as int,
                            done + more.take(k as int),
                        ),
                    seen.wf(),
                    seen.cap() == vars.len(),
                    forall|q: int|
                        0 <= q < vars.len() ==> (#[trigger] seen@.contains(q) <==> has_role(
                            done + more.take(k as int),
                            vars@[q] as nat,
                            OperandRole::StorePtr,
                        )),
                decreases refs.len() - k,
            {
                let ghost rs = done + more.take(k as int);
                let ghost x = more[k as int];
                proof {
                    lemma_append_roles(done, more, k as int);
                    assert(x == (refs@[k as int].operand@, refs@[k as int].role));
                }
                let ghost before_usage = usage@;
                let ghost before_seen = seen@;
                let mut hit: Option<usize> = None;
                if let Some(id) = refs[k].operand.local_id() {
                    if let Some(slot) = slots.get(&id.0) {
                        hit = Some(*slot);
                    }
                }
                proof {
                    assert forall|q: int, role: OperandRole| 0 <= q < vars.len() && hit != Some(
                        q as usize,
                    ) implies !#[trigger] is_role(x, vars@[q] as nat, role) by {
                        if x.0 matches OperandModel::Local(l) && l.id == vars@[q] as nat {
                            assert(vars@.contains(vars@[q]));
                            assert(slots@.contains_key(vars@[q]));
                        }
                    }
                }
                match hit {
                    Some(slot) => {
                        let role = refs[k].role;
                        let was = seen.contains(slot);
                        let ghost v = vars@[slot as int] as nat;
                        usage[slot].note(
                            role,
                            b,
                            was,
                            Ghost(bs),
                            Ghost(v),
                            Ghost(rs),
                            Ghost(x),
                        );
                        match role {
                            OperandRole::StorePtr => {
                                seen.insert(slot);
                            },
                            _ => {},
                        }
                    },
                    None => {},
                }
                proof {
                    assert forall|q: int| 0 <= q < vars.len() implies (
                    #[trigger] usage@[q]).tracks(bs, vars@[q] as nat, b as int, rs.push(x)) by {
                        if hit != Some(q as usize) {
                            assert(usage@[q] == before_usage[q]);
                            lemma_push_other(before_usage[q], bs, vars@[q] as nat, b as int, rs, x);
                        }
                    }
                    assert forall|q: int| 0 <= q < vars.len() implies (#[trigger] seen@.contains(q)
                        <==> has_role(rs.push(x), vars@[q] as nat, OperandRole::StorePtr)) by {
                        lemma_push_role(rs, x, vars@[q] as nat, OperandRole::StorePtr);
                        assert(before_seen.contains(q) <==> has_role(
                            rs,
                            vars@[q] as nat,
                            OperandRole::StorePtr,
                        ));
                    }
                }
                k = k + 1;
            }
            proof {
                assert(more.take(k as int) =~= more);
                assert(ss.take(i + 1).drop_last() =~= ss.take(i as int));
                assert(ss.take(i + 1).last() == stmts@[i as int]@);
            }
            i = i + 1;
        }
        proof {
            assert(ss.take(i as int) =~= ss);
        }
    }

    fn is_promotable(
        u: &VarUsage,
        dom_info: &DominatorInfo,
        Ghost(blocks): Ghost<Seq<BlockModel>>,
        Ghost(v): Ghost<nat>,
    ) -> (ok: bool)
        requires
            u.describes(blocks, v),
            dom_info.wf(),
            dom_info.succ().len() == blocks.len(),
        ensures
            ok == promotable(blocks, dom_info.succ(), v),
    {
        if u.invalid || !u.has_store {
            return false;
        }
        let ghost succ = dom_info.succ();
        let loads = members(&u.load_before_store_blocks);
        let defs = members(&u.def_blocks);
        let mut k: usize = 0;
        while k < loads.len()
            invariant
                k <= loads.len(),
                u.describes(blocks, v),
                dom_info.wf(),
                succ == dom_info.succ(),
                succ.len() == blocks.len(),
                lists(loads@, u.load_before_store_blocks@),
                lists(defs@, u.def_blocks@),
                forall|e: int|
                    0 <= e < k ==> has_dominating_def(
                        blocks,
                        succ,
                        v,
                        #[trigger] loads@[e] as int,
                    ),
            decreases loads.len() - k,
        {
            let block: usize = loads[k];
            assert(u.load_before_store_blocks@.contains(loads@[k as int] as int));
            let mut found = false;
            let mut j: usize = 0;
            while j < defs.len() && !found
                invariant
                    j <= defs.len(),
                    u.describes(blocks, v),
                    dom_info.wf(),
                    succ == dom_info.succ(),
                    succ.len() == blocks.len(),
                    block < blocks.len(),
                    lists(defs@, u.def_blocks@),
                    found ==> has_dominating_def(blocks, succ, v, block as int),
                    !found ==> forall|e: int|
                        0 <= e < j ==> !dominating_def(
                            blocks,
                            succ,
                            v,
                            #[trigger] defs@[e] as int,
                            block as int,
                        ),
                decreases defs.len() - j,
            {
                let d: usize = defs[j];
                assert(u.def_blocks@.contains(defs@[j as int] as int));
                if d != block && dom_info.dominates(d, block) {
                    assert(dominating_def(blocks, succ, v, d as int, block as int));
                    found = true;
                }
                j = j + 1;
            }
            if !found {
                proof {
                    assert(exposes(blocks[block as int], v));
                    if exists|d: int| #[trigger] dominating_def(blocks, succ, v, d, block as int) {
                        let d = choose|d: int| #[trigger]
                            dominating_def(blocks, succ, v, d, block as int);
                        assert(u.def_blocks@.contains(d));
                        let e = choose|e: int| 0 <= e < defs@.len() && defs@[e] == d;
                        assert(dominating_def(blocks, succ, v, defs@[e] as int, block as int));
                    }
                }
                return false;
            }
            k = k + 1;
        }
        proof {
            assert forall|b: int|
                0 <= b < blocks.len() && exposes(#[trigger] blocks[b], v) implies has_dominating_def(
                blocks,
                succ,
                v,
                b,
            ) by {
                assert(u.load_before_store_blocks@.contains(b));
                let e = choose|e: int| 0 <= e < loads@.len() && loads@[e] == b;
                assert(loads@[e] == b);
            }
        }
        true
    }

    /// The positions of the variables to promote.
    pub fn promotable_vars(
        &self,
        dom_info: &DominatorInfo,
        Ghost(blocks): Ghost<Seq<BlockModel>>,
    ) -> (chosen: Vec<usize>)
        requires
            self.of(blocks),
            dom_info.wf(),
            dom_info.succ().len() == blocks.len(),
        ensures
            forall|k: int| 0 <= k < chosen.len() ==> (#[trigger] chosen@[k]) < self.vars.len(),
            picked(self.vars@, chosen@) == promoted_vars(blocks, dom_info.succ()),
    {
        let ghost succ = dom_info.succ();
        let ghost vs = self.vars@;
        let mut all: Vec<usize> = Vec::new();
        let mut several: Vec<usize> = Vec::new();
        let mut p: usize = 0;
        assert(vs.take(0) =~= Seq::empty());
        assert(picked(vs, all@) =~= select(blocks, succ, vs.take(0), false));
        assert(picked(vs, several@) =~= select(blocks, succ, vs.take(0), true));
        while p < self.vars.len()
            invariant
                p <= self.vars.len(),
                self.of(blocks),
                dom_info.wf(),
                dom_info.succ().len() == blocks.len(),
                succ == dom_info.succ(),
                vs == self.vars@,
                forall|k: int| 0 <= k < all.len() ==> (#[trigger] all@[k]) < vs.len(),
                forall|k: int| 0 <= k < several.len() ==> (#[trigger] several@[k]) < vs.len(),
                picked(vs, all@) == select(blocks, succ, vs.take(p as int), false),
                picked(vs, several@) == select(blocks, succ, vs.take(p as int), true),
                several.len() <= all.len() <= p,
            decreases self.vars.len() - p,
        {
            proof {
                assert(vs.take(p + 1).drop_last() =~= vs.take(p as int));
                assert(vs.take(p + 1).last() == vs[p as int]);
            }
            let u = &self.usage[p];
            let ghost v = vs[p as int] as nat;
            assert(u.describes(blocks, v));
            if Self::is_promotable(u, dom_info, Ghost(blocks), Ghost(v)) {
                let ghost a0 = all@;
                all.push(p);
                assert(picked(vs, all@) =~= picked(vs, a0).push(vs[p as int]));
                if u.def_blocks.len() > 1 {
                    let ghost s0 = several@;
                    several.push(p);
                    assert(picked(vs, several@) =~= picked(vs, s0).push(vs[p as int]));
                }
            }
            p = p + 1;
        }
        proof {
            assert(vs.take(p as int) =~= vs);
            assert(picked(vs, all@).len() == all@.len());
            assert(picked(vs, several@).len() == several@.len());
        }
        if all.len() - several.len() <= SINGLE_DEF_LIMIT {
            all
        } else {
            several
        }
    }
}

/// The variables at the given positions.
pub open spec fn picked(vars: Seq<usize>, chosen: Seq<usize>) -> Seq<usize> {
    Seq::new(chosen.len(), |k: int| vars[chosen[k] as int])
}

proof fn lemma_push_other(
    u: VarUsage,
    blocks: Seq<BlockModel>,
    v: nat,
    b: int,
    rs: Seq<(OperandModel, OperandRole)>,
    x: (OperandModel, OperandRole),
)
    requires
        u.tracks(blocks, v, b, rs),
        forall|role: OperandRole| !#[trigger] is_role(x, v, role),
    ensures
        u.tracks(blocks, v, b, rs.push(x)),
{
    lemma_push_role(rs, x, v, OperandRole::StorePtr);
    lemma_push_role(rs, x, v, OperandRole::LoadPtr);
    lemma_push_role(rs, x, v, OperandRole::Use);
    lemma_push_loads_first(rs, x, v);
}

proof fn lemma_next_block(u: VarUsage, blocks: Seq<BlockModel>, v: nat, b: int)
    requires
        0 <= b < blocks.len(),
        u.tracks(blocks, v, b, block_roles(blocks[b].stmts)),
    ensures
        u.tracks(blocks, v, b + 1, Seq::empty()),
{
    lemma_occurs_step(blocks, v, b, OperandRole::StorePtr);
    lemma_occurs_step(blocks, v, b, OperandRole::LoadPtr);
    lemma_occurs_step(blocks, v, b, OperandRole::Use);
}

proof fn lemma_occurs_step(blocks: Seq<BlockModel>, v: nat, b: int, role: OperandRole)
    requires
        0 <= b < blocks.len(),
    ensures
        occurs(blocks.take(b + 1), v, role) == (occurs(blocks.take(b), v, role) || has_role(
            block_roles(blocks[b].stmts),
            v,
            role,
        )),
{
    let t = blocks.take(b + 1);
    let s = blocks.take(b);
    if occurs(t, v, role) {
        let x = choose|x: int|
            0 <= x < t.len() && has_role(block_roles((#[trigger] t[x]).stmts), v, role);
        if x < b {
            assert(s[x] == t[x]);
        }
    }
    if occurs(s, v, role) {
        let x = choose|x: int|
            0 <= x < s.len() && has_role(block_roles((#[trigger] s[x]).stmts), v, role);
        assert(t[x] == s[x]);
    }
    if has_role(block_roles(blocks[b].stmts), v, role) {
        assert(t[b] == blocks[b]);
    }
}

proof fn lemma_candidates_in_distinct(known: Seq<usize>, stmts: Seq<StmtModel>)
    requires
        known.no_duplicates(),
    ensures
        candidates_in(known, stmts).no_duplicates(),
    decreases stmts.len(),
{
    if stmts.len() > 0 {
        lemma_candidates_in_distinct(known, stmts.drop_last());
    }
}

proof fn lemma_candidates_distinct(blocks: Seq<BlockModel>)
    ensures
        candidates(blocks).no_duplicates(),
    decreases blocks.len(),
{
    if blocks.len() > 0 {
        lemma_candidates_distinct(blocks.drop_last());
        lemma_candidates_in_distinct(candidates(blocks.drop_last()), blocks.last().stmts);
    }
}

proof fn lemma_select_distinct(
    blocks: Seq<BlockModel>,
    succ: Seq<Seq<usize>>,
    vars: Seq<usize>,
    multi: bool,
)
    requires
        vars.no_duplicates(),
    ensures
        select(blocks, succ, vars, multi).no_duplicates(),
        forall|v: usize| #[trigger]
            select(blocks, succ, vars, multi).contains(v) ==> vars.contains(v) && promotable(
                blocks,
                succ,
                v as nat,
            ),
    decreases vars.len(),
{
    if vars.len() > 0 {
        let rest = vars.drop_last();
        let front = select(blocks, succ, rest, multi);
        lemma_select_distinct(blocks, succ, rest, multi);
        assert forall|v: usize| #[trigger] rest.contains(v) implies vars.contains(v) && v
            != vars.last() by {
            let k = choose|k: int| 0 <= k < rest.len() && rest[k] == v;
            assert(vars[k] == v);
        }
        assert(vars.contains(vars.last())) by {
            assert(vars[vars.len() - 1] == vars.last());
        }
        assert forall|v: usize| #[trigger]
            select(blocks, succ, vars, multi).contains(v) implies vars.contains(v) && promotable(
            blocks,
            succ,
            v as nat,
        ) by {
            let all = select(blocks, succ, vars, multi);
            let k = choose|k: int| 0 <= k < all.len() && all[k] == v;
            if k < front.len() {
                assert(front[k] == v);
                assert(front.contains(v));
            }
        }
        assert forall|k: int| 0 <= k < front.len() implies front[k] != vars.last() by {
            assert(front.contains(front[k]));
        }
    }
}

/// The variables to promote are promotable, and each is listed once.
pub proof fn lemma_promoted_distinct(blocks: Seq<BlockModel>, succ: Seq<Seq<usize>>)
    ensures
        promoted_vars(blocks, succ).no_duplicates(),
        forall|v: usize| #[trigger]
            promoted_vars(blocks, succ).contains(v) ==> candidates(blocks).contains(v)
                && promotable(blocks, succ, v as nat),
{
    lemma_candidates_distinct(blocks);
    lemma_select_distinct(blocks, succ, candidates(blocks), false);
    lemma_select_distinct(blocks, succ, candidates(blocks), true);
}

} // verus!
