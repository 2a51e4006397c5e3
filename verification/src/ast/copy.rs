//! Copies of expressions.

use super::debug::items_debug;
use super::display::values_text;
use super::expr::{
    ArithBiOpExpr, ArithExpr, ArithExprInner, ArrayExpr, BoolBiOpExpr, BoolExpr, BoolExprInner,
    BoolUOpExpr, BoolUnit, BoolUnitInner, ComExpr, ExprUnit, ExprUnitInner, FnCall, IndexExpr,
    IndexExprInner, LeftVal, LeftValInner, MemberExpr, RightVal, RightValInner,
};
use vstd::prelude::*;
use vstd::string::*;

verus! {

/// What tells one expression from another: its text and its structure.
pub struct ExprModel {
    pub text: Seq<char>,
    pub structure: Seq<char>,
}

impl View for ExprUnit {
    type V = ExprModel;

    open spec fn view(&self) -> ExprModel {
        ExprModel { text: self.text(), structure: self.debug() }
    }
}

impl LeftVal {
    /// A copy of the node.
    pub fn copy(&self) -> (c: Self)
        ensures
            c == *self,
        decreases self,
    {
        let inner = match &self.inner {
            LeftValInner::Id(x) => LeftValInner::Id(x.clone()),
            LeftValInner::ArrayExpr(x) => LeftValInner::ArrayExpr(Box::new(x.copy())),
            LeftValInner::MemberExpr(x) => LeftValInner::MemberExpr(Box::new(x.copy())),
        };
        LeftVal { pos: self.pos, inner }
    }
}

impl IndexExpr {
    /// A copy of the node.
    pub fn copy(&self) -> (c: Self)
        ensures
            c == *self,
        decreases self,
    {
        let inner = match &self.inner {
            IndexExprInner::Num(x) => IndexExprInner::Num(*x),
            IndexExprInner::Id(x) => IndexExprInner::Id(x.clone()),
        };
        IndexExpr { inner }
    }
}

impl ArrayExpr {
    /// A copy of the node.
    pub fn copy(&self) -> (c: Self)
        ensures
            c == *self,
        decreases self,
    {
        ArrayExpr { arr: Box::new(self.arr.copy()), idx: Box::new(self.idx.copy()) }
    }
}

impl MemberExpr {
    /// A copy of the node.
    pub fn copy(&self) -> (c: Self)
        ensures
            c == *self,
        decreases self,
    {
        MemberExpr {
            struct_id: Box::new(self.struct_id.copy()),
            member_id: self.member_id.clone(),
        }
    }
}

impl ArithBiOpExpr {
    /// A copy of the node.
    pub fn copy(&self) -> (c: Self)
        ensures
            c.text() == self.text(),
            c.debug() == self.debug(),
        decreases self,
    {
        ArithBiOpExpr {
            op: self.op,
            left: Box::new(self.left.copy()),
            right: Box::new(self.right.copy()),
        }
    }
}

impl ArithExpr {
    /// A copy of the node.
    pub fn copy(&self) -> (c: Self)
        ensures
            c.text() == self.text(),
            c.debug() == self.debug(),
        decreases self,
    {
        let inner = match &self.inner {
            ArithExprInner::ArithBiOpExpr(x) => ArithExprInner::ArithBiOpExpr(Box::new(x.copy())),
            ArithExprInner::ExprUnit(x) => ArithExprInner::ExprUnit(Box::new(x.copy())),
        };
        ArithExpr { pos: self.pos, inner }
    }
}

impl ComExpr {
    /// A copy of the node.
    pub fn copy(&self) -> (c: Self)
        ensures
            c.text() == self.text(),
            c.debug() == self.debug(),
        decreases self,
    {
        ComExpr {
            op: self.op,
            left: Box::new(self.left.copy()),
            right: Box::new(self.right.copy()),
        }
    }
}

impl BoolUOpExpr {
    /// A copy of the node.
    pub fn copy(&self) -> (c: Self)
        ensures
            c.text() == self.text(),
            c.debug() == self.debug(),
        decreases self,
    {
        BoolUOpExpr { op: self.op, cond: Box::new(self.cond.copy()) }
    }
}

impl BoolBiOpExpr {
    /// A copy of the node.
    pub fn copy(&self) -> (c: Self)
        ensures
            c.text() == self.text(),
            c.debug() == self.debug(),
        decreases self,
    {
        BoolBiOpExpr {
            op: self.op,
            left: Box::new(self.left.copy()),
            right: Box::new(self.right.copy()),
        }
    }
}

impl BoolExpr {
    /// A copy of the node.
    pub fn copy(&self) -> (c: Self)
        ensures
            c.text() == self.text(),
            c.debug() == self.debug(),
        decreases self,
    {
        let inner = match &self.inner {
            BoolExprInner::BoolBiOpExpr(x) => BoolExprInner::BoolBiOpExpr(Box::new(x.copy())),
            BoolExprInner::BoolUnit(x) => BoolExprInner::BoolUnit(Box::new(x.copy())),
        };
        BoolExpr { pos: self.pos, inner }
    }
}

impl BoolUnit {
    /// A copy of the node.
    pub fn copy(&self) -> (c: Self)
        ensures
            c.text() == self.text(),
            c.debug() == self.debug(),
        decreases self,
    {
        let inner = match &self.inner {
            BoolUnitInner::ComExpr(x) => BoolUnitInner::ComExpr(Box::new(x.copy())),
            BoolUnitInner::BoolExpr(x) => BoolUnitInner::BoolExpr(Box::new(x.copy())),
            BoolUnitInner::BoolUOpExpr(x) => BoolUnitInner::BoolUOpExpr(Box::new(x.copy())),
        };
        BoolUnit { pos: self.pos, inner }
    }
}

impl RightVal {
    /// A copy of the node.
    pub fn copy(&self) -> (c: Self)
        ensures
            c.text() == self.text(),
            c.debug() == self.debug(),
        decreases self,
    {
        let inner = match &self.inner {
            RightValInner::ArithExpr(x) => RightValInner::ArithExpr(Box::new(x.copy())),
            RightValInner::BoolExpr(x) => RightValInner::BoolExpr(Box::new(x.copy())),
        };
        RightVal { inner }
    }
}

/// A copy of a list of values.
fn copy_values(vals: &Vec<RightVal>) -> (copies: Vec<RightVal>)
    ensures
        values_text(copies@) == values_text(vals@),
        items_debug(copies@) == items_debug(vals@),
    decreases vals,
{
    let mut copies: Vec<RightVal> = Vec::new();
    let mut i: usize = 0;
    assert(vals@.take(0) =~= copies@);
    while i < vals.len()
        invariant
            i <= vals.len(),
            copies.len() == i,
            values_text(copies@) == values_text(vals@.take(i as int)),
            items_debug(copies@) == items_debug(vals@.take(i as int)),
        decreases vals.len() - i,
    {
        let ghost before = copies@;
        let ghost longer = vals@.take(i + 1);
        copies.push(vals[i].copy());
        proof {
            assert(longer.drop_last() =~= vals@.take(i as int));
            assert(longer.last() == vals@[i as int]);
            assert(copies@.drop_last() =~= before);
            assert(i == 0 ==> longer[0] == longer.last() && copies@[0] == copies@.last());
        }
        i = i + 1;
    }
    assert(vals@.take(i as int) =~= vals@);
    copies
}

impl FnCall {
    /// A copy of the node.
    pub fn copy(&self) -> (c: Self)
        ensures
            c.text() == self.text(),
            c.debug() == self.debug(),
        decreases self,
    {
        let module_prefix = match &self.module_prefix {
            Some(m) => Some(m.clone()),
            None => None,
        };
        FnCall { module_prefix, name: self.name.clone(), vals: copy_values(&self.vals) }
    }
}

impl ExprUnit {
    /// A copy of the node.
    pub fn copy(&self) -> (c: Self)
        ensures
            c.text() == self.text(),
            c.debug() == self.debug(),
        decreases self,
    {
        let inner = match &self.inner {
            ExprUnitInner::Num(x) => ExprUnitInner::Num(*x),
            ExprUnitInner::Id(x) => ExprUnitInner::Id(x.clone()),
            ExprUnitInner::ArithExpr(x) => ExprUnitInner::ArithExpr(Box::new(x.copy())),
            ExprUnitInner::FnCall(x) => ExprUnitInner::FnCall(Box::new(x.copy())),
            ExprUnitInner::ArrayExpr(x) => ExprUnitInner::ArrayExpr(Box::new(x.copy())),
            ExprUnitInner::MemberExpr(x) => ExprUnitInner::MemberExpr(Box::new(x.copy())),
            ExprUnitInner::Reference(x) => ExprUnitInner::Reference(x.clone()),
        };
        ExprUnit { pos: self.pos, inner }
    }
}

} // verus!
