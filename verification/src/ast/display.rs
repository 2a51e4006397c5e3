//! The text of types and expressions, as it appears in diagnostics and in the
//! tree dump.

use super::expr::{
    ArithBiOpExpr, ArithExpr, ArithExprInner, ArrayExpr, BoolBiOpExpr, BoolExpr, BoolExprInner,
    BoolUOpExpr, BoolUnit, BoolUnitInner, ComExpr, ExprUnit, ExprUnitInner, FnCall, IndexExpr,
    IndexExprInner, LeftVal, LeftValInner, MemberExpr, RightVal, RightValInner,
};
use super::ops::{ArithBiOp, BoolBiOp, BoolUOp, ComOp};
use super::types::{BuiltIn, TypeSpecifier, TypeSpecifierInner};
use crate::common::text::{group_text, i32_to_text, int_text, nat_text, owned, usize_to_text};
use vstd::prelude::*;
use vstd::string::*;

verus! {

broadcast use group_text;

impl BuiltIn {
    /// The keyword of the type.
    pub open spec fn text(self) -> Seq<char> {
        match self {
            BuiltIn::Int => "int"@,
        }
    }

    /// The keyword of the type.
    pub fn to_text(&self) -> (s: &'static str)
        ensures
            s@ == self.text(),
    {
        match self {
            BuiltIn::Int => "int",
        }
    }
}

impl ArithBiOp {
    /// The mnemonic of the operator.
    pub open spec fn text(self) -> Seq<char> {
        match self {
            ArithBiOp::Add => "add"@,
            ArithBiOp::Sub => "sub"@,
            ArithBiOp::Mul => "mul"@,
            ArithBiOp::Div => "sdiv"@,
        }
    }

    /// The mnemonic of the operator.
    pub fn to_text(&self) -> (s: &'static str)
        ensures
            s@ == self.text(),
    {
        match self {
            ArithBiOp::Add => "add",
            ArithBiOp::Sub => "sub",
            ArithBiOp::Mul => "mul",
            ArithBiOp::Div => "sdiv",
        }
    }
}

impl BoolUOp {
    /// The symbol of the operator.
    pub open spec fn text(self) -> Seq<char> {
        match self {
            BoolUOp::Not => "!"@,
        }
    }

    /// The symbol of the operator.
    pub fn to_text(&self) -> (s: &'static str)
        ensures
            s@ == self.text(),
    {
        match self {
            BoolUOp::Not => "!",
        }
    }
}

impl BoolBiOp {
    /// The symbol of the operator.
    pub open spec fn text(self) -> Seq<char> {
        match self {
            BoolBiOp::And => "&&"@,
            BoolBiOp::Or => "||"@,
        }
    }

    /// The symbol of the operator.
    pub fn to_text(&self) -> (s: &'static str)
        ensures
            s@ == self.text(),
    {
        match self {
            BoolBiOp::And => "&&",
            BoolBiOp::Or => "||",
        }
    }
}

impl ComOp {
    /// The mnemonic of the predicate.
    pub open spec fn text(self) -> Seq<char> {
        match self {
            ComOp::Eq => "eq"@,
            ComOp::Ne => "ne"@,
            ComOp::Gt => "sgt"@,
            ComOp::Ge => "sge"@,
            ComOp::Lt => "slt"@,
            ComOp::Le => "sle"@,
        }
    }

    /// The mnemonic of the predicate.
    pub fn to_text(&self) -> (s: &'static str)
        ensures
            s@ == self.text(),
    {
        match self {
            ComOp::Eq => "eq",
            ComOp::Ne => "ne",
            ComOp::Gt => "sgt",
            ComOp::Ge => "sge",
            ComOp::Lt => "slt",
            ComOp::Le => "sle",
        }
    }
}

impl TypeSpecifierInner {
    /// The type as it is written, with references as `&[..]`.
    pub open spec fn text(self) -> Seq<char>
        decreases self,
    {
        match self {
            TypeSpecifierInner::BuiltIn(x) => x.text(),
            TypeSpecifierInner::Composite(x) => x@,
            TypeSpecifierInner::Reference(x) => "&["@ + x.inner.text() + "]"@,
        }
    }

    /// The type as it is written, with references as `&[..]`.
    pub fn to_text(&self) -> (s: String)
        ensures
            s@ == self.text(),
        decreases self,
    {
        match self {
            TypeSpecifierInner::BuiltIn(x) => owned(x.to_text()),
            TypeSpecifierInner::Composite(x) => owned(x.as_str()),
            TypeSpecifierInner::Reference(x) => {
                let mut s = owned("&[");
                s.append(x.inner.to_text().as_str());
                s.append("]");
                s
            },
        }
    }
}

impl TypeSpecifier {
    /// The type, followed by its source position.
    pub open spec fn text(self) -> Seq<char> {
        self.inner.text() + "@"@ + nat_text(self.pos as nat)
    }

    /// The type, followed by its source position.
    pub fn to_text(&self) -> (s: String)
        ensures
            s@ == self.text(),
    {
        let mut s = self.inner.to_text();
        s.append("@");
        s.append(usize_to_text(self.pos).as_str());
        s
    }
}

impl ArithBiOpExpr {
    /// The operation in parentheses.
    pub open spec fn text(self) -> Seq<char>
        decreases self,
    {
        "("@ + self.left.text() + " "@ + self.op.text() + " "@ + self.right.text() + ")"@
    }

    /// The operation in parentheses.
    pub fn to_text(&self) -> (s: String)
        ensures
            s@ == self.text(),
        decreases self,
    {
        let mut s = owned("(");
        s.append(self.left.to_text().as_str());
        s.append(" ");
        s.append(self.op.to_text());
        s.append(" ");
        s.append(self.right.to_text().as_str());
        s.append(")");
        s
    }
}

impl ArithExpr {
    /// The text of the expression.
    pub open spec fn text(self) -> Seq<char>
        decreases self,
    {
        match self.inner {
            ArithExprInner::ArithBiOpExpr(x) => x.text(),
            ArithExprInner::ExprUnit(x) => x.text(),
        }
    }

    /// The text of the expression.
    pub fn to_text(&self) -> (s: String)
        ensures
            s@ == self.text(),
        decreases self,
    {
        match &self.inner {
            ArithExprInner::ArithBiOpExpr(x) => x.to_text(),
            ArithExprInner::ExprUnit(x) => x.to_text(),
        }
    }
}

impl ComExpr {
    /// The comparison in parentheses.
    pub open spec fn text(self) -> Seq<char>
        decreases self,
    {
        "("@ + self.left.text() + " "@ + self.op.text() + " "@ + self.right.text() + ")"@
    }

    /// The comparison in parentheses.
    pub fn to_text(&self) -> (s: String)
        ensures
            s@ == self.text(),
        decreases self,
    {
        let mut s = owned("(");
        s.append(self.left.to_text().as_str());
        s.append(" ");
        s.append(self.op.to_text());
        s.append(" ");
        s.append(self.right.to_text().as_str());
        s.append(")");
        s
    }
}

impl BoolUOpExpr {
    /// The operator and its operand in parentheses.
    pub open spec fn text(self) -> Seq<char>
        decreases self,
    {
        "("@ + self.op.text() + self.cond.text() + ")"@
    }

    /// The operator and its operand in parentheses.
    pub fn to_text(&self) -> (s: String)
        ensures
            s@ == self.text(),
        decreases self,
    {
        let mut s = owned("(");
        s.append(self.op.to_text());
        s.append(self.cond.to_text().as_str());
        s.append(")");
        s
    }
}

impl BoolBiOpExpr {
    /// The operation in parentheses.
    pub open spec fn text(self) -> Seq<char>
        decreases self,
    {
        "("@ + self.left.text() + " "@ + self.op.text() + " "@ + self.right.text() + ")"@
    }

    /// The operation in parentheses.
    pub fn to_text(&self) -> (s: String)
        ensures
            s@ == self.text(),
        decreases self,
    {
        let mut s = owned("(");
        s.append(self.left.to_text().as_str());
        s.append(" ");
        s.append(self.op.to_text());
        s.append(" ");
        s.append(self.right.to_text().as_str());
        s.append(")");
        s
    }
}

impl BoolExpr {
    /// The text of the expression.
    pub open spec fn text(self) -> Seq<char>
        decreases self,
    {
        match self.inner {
            BoolExprInner::BoolBiOpExpr(x) => x.text(),
            BoolExprInner::BoolUnit(x) => x.text(),
        }
    }

    /// The text of the expression.
    pub fn to_text(&self) -> (s: String)
        ensures
            s@ == self.text(),
        decreases self,
    {
        match &self.inner {
            BoolExprInner::BoolBiOpExpr(x) => x.to_text(),
            BoolExprInner::BoolUnit(x) => x.to_text(),
        }
    }
}

impl BoolUnit {
    /// The text of the expression.
    pub open spec fn text(self) -> Seq<char>
        decreases self,
    {
        match self.inner {
            BoolUnitInner::ComExpr(x) => x.text(),
            BoolUnitInner::BoolExpr(x) => x.text(),
            BoolUnitInner::BoolUOpExpr(x) => x.text(),
        }
    }

    /// The text of the expression.
    pub fn to_text(&self) -> (s: String)
        ensures
            s@ == self.text(),
        decreases self,
    {
        match &self.inner {
            BoolUnitInner::ComExpr(x) => x.to_text(),
            BoolUnitInner::BoolExpr(x) => x.to_text(),
            BoolUnitInner::BoolUOpExpr(x) => x.to_text(),
        }
    }
}

impl RightVal {
    /// The text of the value.
    pub open spec fn text(self) -> Seq<char>
        decreases self,
    {
        match self.inner {
            RightValInner::ArithExpr(x) => x.text(),
            RightValInner::BoolExpr(x) => x.text(),
        }
    }

    /// The text of the value.
    pub fn to_text(&self) -> (s: String)
        ensures
            s@ == self.text(),
        decreases self,
    {
        match &self.inner {
            RightValInner::ArithExpr(x) => x.to_text(),
            RightValInner::BoolExpr(x) => x.to_text(),
        }
    }
}

impl LeftVal {
    /// The text of the place.
    pub open spec fn text(self) -> Seq<char>
        decreases self,
    {
        match self.inner {
            LeftValInner::Id(x) => x@,
            LeftValInner::ArrayExpr(x) => x.text(),
            LeftValInner::MemberExpr(x) => x.text(),
        }
    }

    /// The text of the place.
    pub fn to_text(&self) -> (s: String)
        ensures
            s@ == self.text(),
        decreases self,
    {
        match &self.inner {
            LeftValInner::Id(x) => owned(x.as_str()),
            LeftValInner::ArrayExpr(x) => x.to_text(),
            LeftValInner::MemberExpr(x) => x.to_text(),
        }
    }
}

impl IndexExpr {
    /// The text of the index.
    pub open spec fn text(self) -> Seq<char>
        decreases self,
    {
        match self.inner {
            IndexExprInner::Num(x) => nat_text(x as nat),
            IndexExprInner::Id(x) => x@,
        }
    }

    /// The text of the index.
    pub fn to_text(&self) -> (s: String)
        ensures
            s@ == self.text(),
        decreases self,
    {
        match &self.inner {
            IndexExprInner::Num(x) => usize_to_text(*x),
            IndexExprInner::Id(x) => owned(x.as_str()),
        }
    }
}

impl ArrayExpr {
    /// The array with its index in brackets.
    pub open spec fn text(self) -> Seq<char>
        decreases self,
    {
        self.arr.text() + "["@ + self.idx.text() + "]"@
    }

    /// The array with its index in brackets.
    pub fn to_text(&self) -> (s: String)
        ensures
            s@ == self.text(),
        decreases self,
    {
        let mut s = self.arr.to_text();
        s.append("[");
        s.append(self.idx.to_text().as_str());
        s.append("]");
        s
    }
}

impl MemberExpr {
    /// The struct and the member, separated by a dot.
    pub open spec fn text(self) -> Seq<char>
        decreases self,
    {
        self.struct_id.text() + "."@ + self.member_id@
    }

    /// The struct and the member, separated by a dot.
    pub fn to_text(&self) -> (s: String)
        ensures
            s@ == self.text(),
        decreases self,
    {
        let mut s = self.struct_id.to_text();
        s.append(".");
        s.append(self.member_id.as_str());
        s
    }
}

/// The texts of the values, separated by commas.
pub open spec fn values_text(vals: Seq<RightVal>) -> Seq<char>
    decreases vals,
{
    if vals.len() == 0 {
        Seq::empty()
    } else if vals.len() == 1 {
        vals[0].text()
    } else {
        values_text(vals.drop_last()) + ", "@ + vals.last().text()
    }
}

impl FnCall {
    /// The callee with its arguments in parentheses.
    pub open spec fn text(self) -> Seq<char>
        decreases self,
    {
        self.callee() + "("@ + values_text(self.vals@) + ")"@
    }

    /// The callee with its arguments in parentheses.
    pub fn to_text(&self) -> (s: String)
        ensures
            s@ == self.text(),
        decreases self,
    {
        let mut args = String::new();
        let mut i: usize = 0;
        assert(self.vals@.take(0) =~= Seq::empty());
        while i < self.vals.len()
            invariant
                i <= self.vals.len(),
                args@ == values_text(self.vals@.take(i as int)),
            decreases self.vals.len() - i,
        {
            let ghost front = self.vals@.take(i as int);
            let ghost longer = self.vals@.take(i + 1);
            assert(longer.drop_last() =~= front);
            assert(longer.last() == self.vals@[i as int]);
            if i > 0 {
                args.append(", ");
            }
            args.append(self.vals[i].to_text().as_str());
            i = i + 1;
        }
        assert(self.vals@.take(i as int) =~= self.vals@);
        let mut s = self.qualified_name();
        s.append("(");
        s.append(args.as_str());
        s.append(")");
        s
    }
}

impl ExprUnit {
    /// The text of the expression.
    pub open spec fn text(self) -> Seq<char>
        decreases self,
    {
        match self.inner {
            ExprUnitInner::Num(x) => int_text(x as int),
            ExprUnitInner::Id(x) => x@,
            ExprUnitInner::ArithExpr(x) => x.text(),
            ExprUnitInner::FnCall(x) => x.text(),
            ExprUnitInner::ArrayExpr(x) => x.text(),
            ExprUnitInner::MemberExpr(x) => x.text(),
            ExprUnitInner::Reference(x) => "&"@ + x@,
        }
    }

    /// The text of the expression.
    pub fn to_text(&self) -> (s: String)
        ensures
            s@ == self.text(),
        decreases self,
    {
        match &self.inner {
            ExprUnitInner::Num(x) => i32_to_text(*x),
            ExprUnitInner::Id(x) => owned(x.as_str()),
            ExprUnitInner::ArithExpr(x) => x.to_text(),
            ExprUnitInner::FnCall(x) => x.to_text(),
            ExprUnitInner::ArrayExpr(x) => x.to_text(),
            ExprUnitInner::MemberExpr(x) => x.to_text(),
            ExprUnitInner::Reference(x) => {
                let mut s = owned("&");
                s.append(x.as_str());
                s
            },
        }
    }
}

} // verus!
