//! The structural text of expressions: every node with its fields by name.

use super::expr::{
    ArithBiOpExpr, ArithExpr, ArithExprInner, ArrayExpr, BoolBiOpExpr, BoolExpr, BoolExprInner,
    BoolUOpExpr, BoolUnit, BoolUnitInner, ComExpr, ExprUnit, ExprUnitInner, FnCall, IndexExpr,
    IndexExprInner, LeftVal, LeftValInner, MemberExpr, RightVal, RightValInner,
};
use super::ops::{ArithBiOp, BoolBiOp, BoolUOp, ComOp};
use crate::common::text::{group_text, i32_to_text, int_text, nat_text, owned, usize_to_text};
use vstd::prelude::*;
use vstd::string::*;

verus! {

broadcast use group_text;

/// The text of a string in quotes, with special characters escaped.
pub uninterp spec fn quoted_text(s: Seq<char>) -> Seq<char>;

/// The `Debug` text of a `str`, which is a function of its characters.
#[verifier::external_body]
pub(crate) fn quoted(s: &str) -> (r: String)
    ensures
        r@ == quoted_text(s@),
{
    format!("{:?}", s)
}

impl ArithBiOp {
    /// The name of the variant.
    pub open spec fn name_text(self) -> Seq<char> {
        match self {
            ArithBiOp::Add => "Add"@,
            ArithBiOp::Sub => "Sub"@,
            ArithBiOp::Mul => "Mul"@,
            ArithBiOp::Div => "Div"@,
        }
    }

    /// The name of the variant.
    pub fn to_name_text(&self) -> (s: &'static str)
        ensures
            s@ == self.name_text(),
    {
        match self {
            ArithBiOp::Add => "Add",
            ArithBiOp::Sub => "Sub",
            ArithBiOp::Mul => "Mul",
            ArithBiOp::Div => "Div",
        }
    }
}

impl BoolUOp {
    /// The name of the variant.
    pub open spec fn name_text(self) -> Seq<char> {
        match self {
            BoolUOp::Not => "Not"@,
        }
    }

    /// The name of the variant.
    pub fn to_name_text(&self) -> (s: &'static str)
        ensures
            s@ == self.name_text(),
    {
        match self {
            BoolUOp::Not => "Not",
        }
    }
}

impl BoolBiOp {
    /// The name of the variant.
    pub open spec fn name_text(self) -> Seq<char> {
        match self {
            BoolBiOp::And => "And"@,
            BoolBiOp::Or => "Or"@,
        }
    }

    /// The name of the variant.
    pub fn to_name_text(&self) -> (s: &'static str)
        ensures
            s@ == self.name_text(),
    {
        match self {
            BoolBiOp::And => "And",
            BoolBiOp::Or => "Or",
        }
    }
}

impl ComOp {
    /// The name of the variant.
    pub open spec fn name_text(self) -> Seq<char> {
        match self {
            ComOp::Lt => "Lt"@,
            ComOp::Le => "Le"@,
            ComOp::Gt => "Gt"@,
            ComOp::Ge => "Ge"@,
            ComOp::Eq => "Eq"@,
            ComOp::Ne => "Ne"@,
        }
    }

    /// The name of the variant.
    pub fn to_name_text(&self) -> (s: &'static str)
        ensures
            s@ == self.name_text(),
    {
        match self {
            ComOp::Lt => "Lt",
            ComOp::Le => "Le",
            ComOp::Gt => "Gt",
            ComOp::Ge => "Ge",
            ComOp::Eq => "Eq",
            ComOp::Ne => "Ne",
        }
    }
}

impl ArithBiOpExpr {
    /// The node with its fields by name.
    pub open spec fn debug(self) -> Seq<char>
        decreases self,
    {
        "ArithBiOpExpr { "@ + "op: "@ + self.op.name_text() + ", left: "@ + self.left.debug() + ", right: "@ + self.right.debug() + " }"@
    }

    /// The node with its fields by name.
    pub fn to_debug(&self) -> (s: String)
        ensures
            s@ == self.debug(),
        decreases self,
    {
        let mut s = owned("ArithBiOpExpr { ");
        s.append("op: ");
        s.append(self.op.to_name_text());
        s.append(", left: ");
        s.append(self.left.to_debug().as_str());
        s.append(", right: ");
        s.append(self.right.to_debug().as_str());
        s.append(" }");
        s
    }
}

impl ArithExpr {
    /// The node with its fields by name.
    pub open spec fn debug(self) -> Seq<char>
        decreases self,
    {
        let inner = match self.inner {
            ArithExprInner::ArithBiOpExpr(x) => "ArithBiOpExpr("@ + x.debug() + ")"@,
            ArithExprInner::ExprUnit(x) => "ExprUnit("@ + x.debug() + ")"@,
        };
        "ArithExpr { pos: "@ + nat_text(self.pos as nat) + ", inner: "@ + inner + " }"@
    }

    /// The node with its fields by name.
    pub fn to_debug(&self) -> (s: String)
        ensures
            s@ == self.debug(),
        decreases self,
    {
        let inner = match &self.inner {
            ArithExprInner::ArithBiOpExpr(x) => {
                let mut s = owned("ArithBiOpExpr(");
                s.append(x.to_debug().as_str());
                s.append(")");
                s
            },
            ArithExprInner::ExprUnit(x) => {
                let mut s = owned("ExprUnit(");
                s.append(x.to_debug().as_str());
                s.append(")");
                s
            },
        };
        let mut s = owned("ArithExpr { pos: ");
        s.append(usize_to_text(self.pos).as_str());
        s.append(", inner: ");
        s.append(inner.as_str());
        s.append(" }");
        s
    }
}

impl ComExpr {
    /// The node with its fields by name.
    pub open spec fn debug(self) -> Seq<char>
        decreases self,
    {
        "ComExpr { "@ + "op: "@ + self.op.name_text() + ", left: "@ + self.left.debug() + ", right: "@ + self.right.debug() + " }"@
    }

    /// The node with its fields by name.
    pub fn to_debug(&self) -> (s: String)
        ensures
            s@ == self.debug(),
        decreases self,
    {
        let mut s = owned("ComExpr { ");
        s.append("op: ");
        s.append(self.op.to_name_text());
        s.append(", left: ");
        s.append(self.left.to_debug().as_str());
        s.append(", right: ");
        s.append(self.right.to_debug().as_str());
        s.append(" }");
        s
    }
}

impl BoolUOpExpr {
    /// The node with its fields by name.
    pub open spec fn debug(self) -> Seq<char>
        decreases self,
    {
        "BoolUOpExpr { "@ + "op: "@ + self.op.name_text() + ", cond: "@ + self.cond.debug() + " }"@
    }

    /// The node with its fields by name.
    pub fn to_debug(&self) -> (s: String)
        ensures
            s@ == self.debug(),
        decreases self,
    {
        let mut s = owned("BoolUOpExpr { ");
        s.append("op: ");
        s.append(self.op.to_name_text());
        s.append(", cond: ");
        s.append(self.cond.to_debug().as_str());
        s.append(" }");
        s
    }
}

impl BoolBiOpExpr {
    /// The node with its fields by name.
    pub open spec fn debug(self) -> Seq<char>
        decreases self,
    {
        "BoolBiOpExpr { "@ + "op: "@ + self.op.name_text() + ", left: "@ + self.left.debug() + ", right: "@ + self.right.debug() + " }"@
    }

    /// The node with its fields by name.
    pub fn to_debug(&self) -> (s: String)
        ensures
            s@ == self.debug(),
        decreases self,
    {
        let mut s = owned("BoolBiOpExpr { ");
        s.append("op: ");
        s.append(self.op.to_name_text());
        s.append(", left: ");
        s.append(self.left.to_debug().as_str());
        s.append(", right: ");
        s.append(self.right.to_debug().as_str());
        s.append(" }");
        s
    }
}

impl BoolExpr {
    /// The node with its fields by name.
    pub open spec fn debug(self) -> Seq<char>
        decreases self,
    {
        let inner = match self.inner {
            BoolExprInner::BoolBiOpExpr(x) => "BoolBiOpExpr("@ + x.debug() + ")"@,
            BoolExprInner::BoolUnit(x) => "BoolUnit("@ + x.debug() + ")"@,
        };
        "BoolExpr { pos: "@ + nat_text(self.pos as nat) + ", inner: "@ + inner + " }"@
    }

    /// The node with its fields by name.
    pub fn to_debug(&self) -> (s: String)
        ensures
            s@ == self.debug(),
        decreases self,
    {
        let inner = match &self.inner {
            BoolExprInner::BoolBiOpExpr(x) => {
                let mut s = owned("BoolBiOpExpr(");
                s.append(x.to_debug().as_str());
                s.append(")");
                s
            },
            BoolExprInner::BoolUnit(x) => {
                let mut s = owned("BoolUnit(");
                s.append(x.to_debug().as_str());
                s.append(")");
                s
            },
        };
        let mut s = owned("BoolExpr { pos: ");
        s.append(usize_to_text(self.pos).as_str());
        s.append(", inner: ");
        s.append(inner.as_str());
        s.append(" }");
        s
    }
}

impl BoolUnit {
    /// The node with its fields by name.
    pub open spec fn debug(self) -> Seq<char>
        decreases self,
    {
        let inner = match self.inner {
            BoolUnitInner::ComExpr(x) => "ComExpr("@ + x.debug() + ")"@,
            BoolUnitInner::BoolExpr(x) => "BoolExpr("@ + x.debug() + ")"@,
            BoolUnitInner::BoolUOpExpr(x) => "BoolUOpExpr("@ + x.debug() + ")"@,
        };
        "BoolUnit { pos: "@ + nat_text(self.pos as nat) + ", inner: "@ + inner + " }"@
    }

    /// The node with its fields by name.
    pub fn to_debug(&self) -> (s: String)
        ensures
            s@ == self.debug(),
        decreases self,
    {
        let inner = match &self.inner {
            BoolUnitInner::ComExpr(x) => {
                let mut s = owned("ComExpr(");
                s.append(x.to_debug().as_str());
                s.append(")");
                s
            },
            BoolUnitInner::BoolExpr(x) => {
                let mut s = owned("BoolExpr(");
                s.append(x.to_debug().as_str());
                s.append(")");
                s
            },
            BoolUnitInner::BoolUOpExpr(x) => {
                let mut s = owned("BoolUOpExpr(");
                s.append(x.to_debug().as_str());
                s.append(")");
                s
            },
        };
        let mut s = owned("BoolUnit { pos: ");
        s.append(usize_to_text(self.pos).as_str());
        s.append(", inner: ");
        s.append(inner.as_str());
        s.append(" }");
        s
    }
}

impl RightVal {
    /// The node with its fields by name.
    pub open spec fn debug(self) -> Seq<char>
        decreases self,
    {
        let inner = match self.inner {
            RightValInner::ArithExpr(x) => "ArithExpr("@ + x.debug() + ")"@,
            RightValInner::BoolExpr(x) => "BoolExpr("@ + x.debug() + ")"@,
        };
        "RightVal { inner: "@ + inner + " }"@
    }

    /// The node with its fields by name.
    pub fn to_debug(&self) -> (s: String)
        ensures
            s@ == self.debug(),
        decreases self,
    {
        let inner = match &self.inner {
            RightValInner::ArithExpr(x) => {
                let mut s = owned("ArithExpr(");
                s.append(x.to_debug().as_str());
                s.append(")");
                s
            },
            RightValInner::BoolExpr(x) => {
                let mut s = owned("BoolExpr(");
                s.append(x.to_debug().as_str());
                s.append(")");
                s
            },
        };
        let mut s = owned("RightVal { inner: ");
        s.append(inner.as_str());
        s.append(" }");
        s
    }
}

impl LeftVal {
    /// The node with its fields by name.
    pub open spec fn debug(self) -> Seq<char>
        decreases self,
    {
        let inner = match self.inner {
            LeftValInner::Id(x) => "Id("@ + quoted_text(x@) + ")"@,
            LeftValInner::ArrayExpr(x) => "ArrayExpr("@ + x.debug() + ")"@,
            LeftValInner::MemberExpr(x) => "MemberExpr("@ + x.debug() + ")"@,
        };
        "LeftVal { pos: "@ + nat_text(self.pos as nat) + ", inner: "@ + inner + " }"@
    }

    /// The node with its fields by name.
    pub fn to_debug(&self) -> (s: String)
        ensures
            s@ == self.debug(),
        decreases self,
    {
        let inner = match &self.inner {
            LeftValInner::Id(x) => {
                let mut s = owned("Id(");
                s.append(quoted(x.as_str()).as_str());
                s.append(")");
                s
            },
            LeftValInner::ArrayExpr(x) => {
                let mut s = owned("ArrayExpr(");
                s.append(x.to_debug().as_str());
                s.append(")");
                s
            },
            LeftValInner::MemberExpr(x) => {
                let mut s = owned("MemberExpr(");
                s.append(x.to_debug().as_str());
                s.append(")");
                s
            },
        };
        let mut s = owned("LeftVal { pos: ");
        s.append(usize_to_text(self.pos).as_str());
        s.append(", inner: ");
        s.append(inner.as_str());
        s.append(" }");
        s
    }
}

impl IndexExpr {
    /// The node with its fields by name.
    pub open spec fn debug(self) -> Seq<char>
        decreases self,
    {
        let inner = match self.inner {
            IndexExprInner::Num(x) => "Num("@ + nat_text(x as nat) + ")"@,
            IndexExprInner::Id(x) => "Id("@ + quoted_text(x@) + ")"@,
        };
        "IndexExpr { inner: "@ + inner + " }"@
    }

    /// The node with its fields by name.
    pub fn to_debug(&self) -> (s: String)
        ensures
            s@ == self.debug(),
        decreases self,
    {
        let inner = match &self.inner {
            IndexExprInner::Num(x) => {
                let mut s = owned("Num(");
                s.append(usize_to_text(*x).as_str());
                s.append(")");
                s
            },
            IndexExprInner::Id(x) => {
                let mut s = owned("Id(");
                s.append(quoted(x.as_str()).as_str());
                s.append(")");
                s
            },
        };
        let mut s = owned("IndexExpr { inner: ");
        s.append(inner.as_str());
        s.append(" }");
        s
    }
}

impl ArrayExpr {
    /// The node with its fields by name.
    pub open spec fn debug(self) -> Seq<char>
        decreases self,
    {
        "ArrayExpr { "@ + "arr: "@ + self.arr.debug() + ", idx: "@ + self.idx.debug() + " }"@
    }

    /// The node with its fields by name.
    pub fn to_debug(&self) -> (s: String)
        ensures
            s@ == self.debug(),
        decreases self,
    {
        let mut s = owned("ArrayExpr { ");
        s.append("arr: ");
        s.append(self.arr.to_debug().as_str());
        s.append(", idx: ");
        s.append(self.idx.to_debug().as_str());
        s.append(" }");
        s
    }
}

impl MemberExpr {
    /// The node with its fields by name.
    pub open spec fn debug(self) -> Seq<char>
        decreases self,
    {
        "MemberExpr { "@ + "struct_id: "@ + self.struct_id.debug() + ", member_id: "@ + quoted_text(self.member_id@) + " }"@
    }

    /// The node with its fields by name.
    pub fn to_debug(&self) -> (s: String)
        ensures
            s@ == self.debug(),
        decreases self,
    {
        let mut s = owned("MemberExpr { ");
        s.append("struct_id: ");
        s.append(self.struct_id.to_debug().as_str());
        s.append(", member_id: ");
        s.append(quoted(self.member_id.as_str()).as_str());
        s.append(" }");
        s
    }
}

impl ExprUnit {
    /// The node with its fields by name.
    pub open spec fn debug(self) -> Seq<char>
        decreases self,
    {
        let inner = match self.inner {
            ExprUnitInner::Num(x) => "Num("@ + int_text(x as int) + ")"@,
            ExprUnitInner::Id(x) => "Id("@ + quoted_text(x@) + ")"@,
            ExprUnitInner::ArithExpr(x) => "ArithExpr("@ + x.debug() + ")"@,
            ExprUnitInner::FnCall(x) => "FnCall("@ + x.debug() + ")"@,
            ExprUnitInner::ArrayExpr(x) => "ArrayExpr("@ + x.debug() + ")"@,
            ExprUnitInner::MemberExpr(x) => "MemberExpr("@ + x.debug() + ")"@,
            ExprUnitInner::Reference(x) => "Reference("@ + quoted_text(x@) + ")"@,
        };
        "ExprUnit { pos: "@ + nat_text(self.pos as nat) + ", inner: "@ + inner + " }"@
    }

    /// The node with its fields by name.
    pub fn to_debug(&self) -> (s: String)
        ensures
            s@ == self.debug(),
        decreases self,
    {
        let inner = match &self.inner {
            ExprUnitInner::Num(x) => {
                let mut s = owned("Num(");
                s.append(i32_to_text(*x).as_str());
                s.append(")");
                s
            },
            ExprUnitInner::Id(x) => {
                let mut s = owned("Id(");
                s.append(quoted(x.as_str()).as_str());
                s.append(")");
                s
            },
            ExprUnitInner::ArithExpr(x) => {
                let mut s = owned("ArithExpr(");
                s.append(x.to_debug().as_str());
                s.append(")");
                s
            },
            ExprUnitInner::FnCall(x) => {
                let mut s = owned("FnCall(");
                s.append(x.to_debug().as_str());
                s.append(")");
                s
            },
            ExprUnitInner::ArrayExpr(x) => {
                let mut s = owned("ArrayExpr(");
                s.append(x.to_debug().as_str());
                s.append(")");
                s
            },
            ExprUnitInner::MemberExpr(x) => {
                let mut s = owned("MemberExpr(");
                s.append(x.to_debug().as_str());
                s.append(")");
                s
            },
            ExprUnitInner::Reference(x) => {
                let mut s = owned("Reference(");
                s.append(quoted(x.as_str()).as_str());
                s.append(")");
                s
            },
        };
        let mut s = owned("ExprUnit { pos: ");
        s.append(usize_to_text(self.pos).as_str());
        s.append(", inner: ");
        s.append(inner.as_str());
        s.append(" }");
        s
    }
}

/// The values without the enclosing brackets.
pub open spec fn items_debug(vals: Seq<RightVal>) -> Seq<char>
    decreases vals,
{
    if vals.len() == 0 {
        Seq::empty()
    } else if vals.len() == 1 {
        vals[0].debug()
    } else {
        items_debug(vals.drop_last()) + ", "@ + vals.last().debug()
    }
}

/// A list of values in brackets.
pub open spec fn list_debug(vals: Seq<RightVal>) -> Seq<char>
{
    "["@ + items_debug(vals) + "]"@
}

/// A list of values in brackets.
pub fn list_to_debug(vals: &Vec<RightVal>) -> (s: String)
    ensures
        s@ == list_debug(vals@),
    decreases vals,
{
    let mut s = owned("[");
    let mut i: usize = 0;
    assert(vals@.take(0) =~= Seq::empty());
    assert(s@ =~= "["@ + items_debug(vals@.take(0)));
    while i < vals.len()
        invariant
            i <= vals.len(),
            s@ == "["@ + items_debug(vals@.take(i as int)),
        decreases vals.len() - i,
    {
        let ghost longer = vals@.take(i + 1);
        assert(longer.drop_last() =~= vals@.take(i as int));
        assert(longer.last() == vals@[i as int]);
        if i > 0 {
            s.append(", ");
        }
        s.append(vals[i].to_debug().as_str());
        assert(i == 0 ==> s@ =~= "["@ + items_debug(longer));
        i = i + 1;
    }
    assert(vals@.take(i as int) =~= vals@);
    s.append("]");
    s
}

impl FnCall {
    /// The node with its fields by name.
    pub open spec fn debug(self) -> Seq<char>
        decreases self,
    {
        let prefix = match self.module_prefix {
            Some(m) => "Some("@ + quoted_text(m@) + ")"@,
            None => "None"@,
        };
        "FnCall { module_prefix: "@ + prefix + ", name: "@ + quoted_text(self.name@) + ", vals: "@
            + ("["@ + items_debug(self.vals@) + "]"@) + " }"@
    }

    /// The node with its fields by name.
    pub fn to_debug(&self) -> (s: String)
        ensures
            s@ == self.debug(),
        decreases self,
    {
        let mut s = owned("FnCall { module_prefix: ");
        match &self.module_prefix {
            Some(m) => {
                s.append("Some(");
                s.append(quoted(m.as_str()).as_str());
                s.append(")");
            },
            None => {
                s.append("None");
            },
        }
        s.append(", name: ");
        s.append(quoted(self.name.as_str()).as_str());
        s.append(", vals: ");
        s.append(list_to_debug(&self.vals).as_str());
        s.append(" }");
        s
    }
}

} // verus!
