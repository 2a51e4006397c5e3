//! The tree dump of a program: one line per node, with box-drawing connectors
//! that show the nesting.

use super::debug::{list_debug, list_to_debug};
use super::decl::{
    ArrayInitializer, FnDecl, FnDeclStmt, FnDef, StructDef, VarDecl, VarDeclStmt, VarDeclStmtInner,
    VarDef, VarDefInner,
};
use super::expr::{
    ArithBiOpExpr, ArithExpr, ArithExprInner, ArrayExpr, BoolBiOpExpr, BoolExpr, BoolExprInner,
    BoolUOpExpr, BoolUnit, BoolUnitInner, ComExpr, ExprUnit, ExprUnitInner, FnCall, IndexExpr,
    IndexExprInner, LeftVal, LeftValInner, MemberExpr, RightVal, RightValInner,
};
use super::program::{Program, ProgramElement, ProgramElementInner};
use super::stmt::{
    AssignmentStmt, BreakStmt, CallStmt, CodeBlockStmt, CodeBlockStmtInner, ContinueStmt, IfStmt,
    NullStmt, ReturnStmt, WhileStmt,
};
use crate::common::text::{group_text, i32_to_text, int_text, nat_text, owned, usize_to_text};
use vstd::prelude::*;
use vstd::string::*;

verus! {

broadcast use group_text;

/// A node that can be dumped as a tree.
pub trait DisplayAsTree {
    /// The lines of the node and its children.  `indent` says of each
    /// enclosing level whether its connector is blank; `is_last` whether the
    /// node is the last of its siblings.
    spec fn tree_lines(&self, indent: Seq<bool>, is_last: bool) -> Seq<char>;

    /// Appends the lines of the node to `out`.
    fn fmt_tree(&self, out: &mut String, indent_levels: &Vec<bool>, is_last: bool)
        ensures
            final(out)@ == old(out)@ + self.tree_lines(indent_levels@, is_last),
    ;

    /// The lines of the node as the root of a tree.
    fn fmt_tree_root(&self) -> (lines: String)
        ensures
            lines@ == self.tree_lines(Seq::<bool>::empty(), true),
    {
        let mut out = String::new();
        let levels: Vec<bool> = Vec::new();
        self.fmt_tree(&mut out, &levels, true);
        assert(levels@ =~= Seq::<bool>::empty());
        out
    }
}

/// The connectors of the enclosing levels.
pub open spec fn level_text(indent: Seq<bool>) -> Seq<char>
    decreases indent.len(),
{
    if indent.len() == 0 {
        Seq::empty()
    } else {
        level_text(indent.drop_last()) + if indent.last() {
            "   "@
        } else {
            "│  "@
        }
    }
}

/// The connectors in front of a node.
pub open spec fn indent_text(indent: Seq<bool>, is_last: bool) -> Seq<char> {
    level_text(indent) + if is_last {
        "└─"@
    } else {
        "├─"@
    }
}

/// The connectors in front of a node.
fn tree_indent(indent_levels: &Vec<bool>, is_last: bool) -> (s: String)
    ensures
        s@ == indent_text(indent_levels@, is_last),
{
    let mut s = String::new();
    let mut i: usize = 0;
    assert(indent_levels@.take(0) =~= Seq::empty());
    while i < indent_levels.len()
        invariant
            i <= indent_levels.len(),
            s@ == level_text(indent_levels@.take(i as int)),
        decreases indent_levels.len() - i,
    {
        assert(indent_levels@.take(i + 1).drop_last() =~= indent_levels@.take(i as int));
        if indent_levels[i] {
            s.append("   ");
        } else {
            s.append("│  ");
        }
        i = i + 1;
    }
    assert(indent_levels@.take(i as int) =~= indent_levels@);
    if is_last {
        s.append("└─");
    } else {
        s.append("├─");
    }
    s
}

/// One line: the connectors, the text, and a line break.
pub open spec fn line(indent: Seq<bool>, is_last: bool, text: Seq<char>) -> Seq<char> {
    indent_text(indent, is_last) + text + "\n"@
}

/// Appends one line.
fn write_line(out: &mut String, indent: &Vec<bool>, is_last: bool, text: &str)
    ensures
        final(out)@ == old(out)@ + line(indent@, is_last, text@),
{
    out.append(tree_indent(indent, is_last).as_str());
    out.append(text);
    out.append("\n");
}

/// The levels with one more.
fn deeper(indent: &Vec<bool>, blank: bool) -> (levels: Vec<bool>)
    ensures
        levels@ == indent@.push(blank),
{
    let mut levels = indent.clone();
    assert(levels@ =~= indent@);
    levels.push(blank);
    levels
}

impl IndexExpr {
    /// The lines of the node and its children.
    pub open spec fn tree(self, indent: Seq<bool>, is_last: bool) -> Seq<char>
        decreases self,
    {
        match self.inner {
            IndexExprInner::Num(n) => line(
                indent,
                is_last,
                "IndexExpr Num("@ + nat_text(n as nat) + ")"@,
            ),
            IndexExprInner::Id(s) => line(indent, is_last, "IndexExpr Id("@ + s@ + ")"@),
        }
    }

    fn write_tree(&self, out: &mut String, indent: &Vec<bool>, is_last: bool)
        ensures
            final(out)@ == old(out)@ + self.tree(indent@, is_last),
        decreases self,
    {
        let mut label: String;
        match &self.inner {
            IndexExprInner::Num(n) => {
                label = owned("IndexExpr Num(");
                label.append(usize_to_text(*n).as_str());
            },
            IndexExprInner::Id(s) => {
                label = owned("IndexExpr Id(");
                label.append(s.as_str());
            },
        }
        label.append(")");
        write_line(out, indent, is_last, label.as_str());
    }
}

impl DisplayAsTree for IndexExpr {
    open spec fn tree_lines(&self, indent: Seq<bool>, is_last: bool) -> Seq<char> {
        self.tree(indent, is_last)
    }

    fn fmt_tree(&self, out: &mut String, indent_levels: &Vec<bool>, is_last: bool) {
        self.write_tree(out, indent_levels, is_last);
    }
}

impl LeftVal {
    /// The lines of the node and its children.
    pub open spec fn tree(self, indent: Seq<bool>, is_last: bool) -> Seq<char>
        decreases self,
    {
        line(indent, is_last, "LeftVal"@) + (match self.inner {
            LeftValInner::Id(id) => line(indent.push(is_last), true, "Id "@ + id@),
            LeftValInner::ArrayExpr(x) => x.tree(indent.push(is_last), true),
            LeftValInner::MemberExpr(x) => x.tree(indent.push(is_last), true),
        })
    }

    fn write_tree(&self, out: &mut String, indent: &Vec<bool>, is_last: bool)
        ensures
            final(out)@ == old(out)@ + self.tree(indent@, is_last),
        decreases self,
    {
        write_line(out, indent, is_last, "LeftVal");
        let levels = deeper(indent, is_last);
        match &self.inner {
            LeftValInner::Id(id) => {
                let mut label = owned("Id ");
                label.append(id.as_str());
                write_line(out, &levels, true, label.as_str());
            },
            LeftValInner::ArrayExpr(x) => {
                x.write_tree(out, &levels, true);
            },
            LeftValInner::MemberExpr(x) => {
                x.write_tree(out, &levels, true);
            },
        }
    }
}

impl DisplayAsTree for LeftVal {
    open spec fn tree_lines(&self, indent: Seq<bool>, is_last: bool) -> Seq<char> {
        self.tree(indent, is_last)
    }

    fn fmt_tree(&self, out: &mut String, indent_levels: &Vec<bool>, is_last: bool) {
        self.write_tree(out, indent_levels, is_last);
    }
}

impl ArrayExpr {
    /// The lines of the node and its children.
    pub open spec fn tree(self, indent: Seq<bool>, is_last: bool) -> Seq<char>
        decreases self,
    {
        line(indent, is_last, "ArrayExpr"@) + self.arr.tree(indent.push(is_last), false) + self.idx.tree(indent.push(is_last), true)
    }

    fn write_tree(&self, out: &mut String, indent: &Vec<bool>, is_last: bool)
        ensures
            final(out)@ == old(out)@ + self.tree(indent@, is_last),
        decreases self,
    {
        write_line(out, indent, is_last, "ArrayExpr");
        let levels = deeper(indent, is_last);
        self.arr.write_tree(out, &levels, false);
        self.idx.write_tree(out, &levels, true);
    }
}

impl DisplayAsTree for ArrayExpr {
    open spec fn tree_lines(&self, indent: Seq<bool>, is_last: bool) -> Seq<char> {
        self.tree(indent, is_last)
    }

    fn fmt_tree(&self, out: &mut String, indent_levels: &Vec<bool>, is_last: bool) {
        self.write_tree(out, indent_levels, is_last);
    }
}

impl MemberExpr {
    /// The lines of the node and its children.
    pub open spec fn tree(self, indent: Seq<bool>, is_last: bool) -> Seq<char>
        decreases self,
    {
        line(indent, is_last, "MemberExpr "@ + self.member_id@) + self.struct_id.tree(indent.push(is_last), true)
    }

    fn write_tree(&self, out: &mut String, indent: &Vec<bool>, is_last: bool)
        ensures
            final(out)@ == old(out)@ + self.tree(indent@, is_last),
        decreases self,
    {
        let mut label = owned("MemberExpr ");
        label.append(self.member_id.as_str());
        write_line(out, indent, is_last, label.as_str());
        let levels = deeper(indent, is_last);
        self.struct_id.write_tree(out, &levels, true);
    }
}

impl DisplayAsTree for MemberExpr {
    open spec fn tree_lines(&self, indent: Seq<bool>, is_last: bool) -> Seq<char> {
        self.tree(indent, is_last)
    }

    fn fmt_tree(&self, out: &mut String, indent_levels: &Vec<bool>, is_last: bool) {
        self.write_tree(out, indent_levels, is_last);
    }
}

impl ArithExpr {
    /// The lines of the node and its children.
    pub open spec fn tree(self, indent: Seq<bool>, is_last: bool) -> Seq<char>
        decreases self,
    {
        line(indent, is_last, "ArithExpr"@) + (match self.inner {
            ArithExprInner::ArithBiOpExpr(x) => x.tree(indent.push(is_last), true),
            ArithExprInner::ExprUnit(x) => x.tree(indent.push(is_last), true),
        })
    }

    fn write_tree(&self, out: &mut String, indent: &Vec<bool>, is_last: bool)
        ensures
            final(out)@ == old(out)@ + self.tree(indent@, is_last),
        decreases self,
    {
        write_line(out, indent, is_last, "ArithExpr");
        let levels = deeper(indent, is_last);
        match &self.inner {
            ArithExprInner::ArithBiOpExpr(x) => {
                x.write_tree(out, &levels, true);
            },
            ArithExprInner::ExprUnit(x) => {
                x.write_tree(out, &levels, true);
            },
        }
    }
}

impl DisplayAsTree for ArithExpr {
    open spec fn tree_lines(&self, indent: Seq<bool>, is_last: bool) -> Seq<char> {
        self.tree(indent, is_last)
    }

    fn fmt_tree(&self, out: &mut String, indent_levels: &Vec<bool>, is_last: bool) {
        self.write_tree(out, indent_levels, is_last);
    }
}

impl BoolExpr {
    /// The lines of the node and its children.
    pub open spec fn tree(self, indent: Seq<bool>, is_last: bool) -> Seq<char>
        decreases self,
    {
        line(indent, is_last, "BoolExpr"@) + (match self.inner {
            BoolExprInner::BoolBiOpExpr(x) => x.tree(indent.push(is_last), true),
            BoolExprInner::BoolUnit(x) => x.tree(indent.push(is_last), true),
        })
    }

    fn write_tree(&self, out: &mut String, indent: &Vec<bool>, is_last: bool)
        ensures
            final(out)@ == old(out)@ + self.tree(indent@, is_last),
        decreases self,
    {
        write_line(out, indent, is_last, "BoolExpr");
        let levels = deeper(indent, is_last);
        match &self.inner {
            BoolExprInner::BoolBiOpExpr(x) => {
                x.write_tree(out, &levels, true);
            },
            BoolExprInner::BoolUnit(x) => {
                x.write_tree(out, &levels, true);
            },
        }
    }
}

impl DisplayAsTree for BoolExpr {
    open spec fn tree_lines(&self, indent: Seq<bool>, is_last: bool) -> Seq<char> {
        self.tree(indent, is_last)
    }

    fn fmt_tree(&self, out: &mut String, indent_levels: &Vec<bool>, is_last: bool) {
        self.write_tree(out, indent_levels, is_last);
    }
}

impl RightVal {
    /// The lines of the node and its children.
    pub open spec fn tree(self, indent: Seq<bool>, is_last: bool) -> Seq<char>
        decreases self,
    {
        line(indent, is_last, "RightVal"@) + (match self.inner {
            RightValInner::ArithExpr(x) => x.tree(indent.push(is_last), true),
            RightValInner::BoolExpr(x) => x.tree(indent.push(is_last), true),
        })
    }

    fn write_tree(&self, out: &mut String, indent: &Vec<bool>, is_last: bool)
        ensures
            final(out)@ == old(out)@ + self.tree(indent@, is_last),
        decreases self,
    {
        write_line(out, indent, is_last, "RightVal");
        let levels = deeper(indent, is_last);
        match &self.inner {
            RightValInner::ArithExpr(x) => {
                x.write_tree(out, &levels, true);
            },
            RightValInner::BoolExpr(x) => {
                x.write_tree(out, &levels, true);
            },
        }
    }
}

impl DisplayAsTree for RightVal {
    open spec fn tree_lines(&self, indent: Seq<bool>, is_last: bool) -> Seq<char> {
        self.tree(indent, is_last)
    }

    fn fmt_tree(&self, out: &mut String, indent_levels: &Vec<bool>, is_last: bool) {
        self.write_tree(out, indent_levels, is_last);
    }
}

impl ArithBiOpExpr {
    /// The lines of the node and its children.
    pub open spec fn tree(self, indent: Seq<bool>, is_last: bool) -> Seq<char>
        decreases self,
    {
        line(indent, is_last, "ArithBiOpExpr "@ + self.op.name_text()) + self.left.tree(indent.push(is_last), false) + self.right.tree(indent.push(is_last), true)
    }

    fn write_tree(&self, out: &mut String, indent: &Vec<bool>, is_last: bool)
        ensures
            final(out)@ == old(out)@ + self.tree(indent@, is_last),
        decreases self,
    {
        let mut label = owned("ArithBiOpExpr ");
        label.append(self.op.to_name_text());
        write_line(out, indent, is_last, label.as_str());
        let levels = deeper(indent, is_last);
        self.left.write_tree(out, &levels, false);
        self.right.write_tree(out, &levels, true);
    }
}

impl DisplayAsTree for ArithBiOpExpr {
    open spec fn tree_lines(&self, indent: Seq<bool>, is_last: bool) -> Seq<char> {
        self.tree(indent, is_last)
    }

    fn fmt_tree(&self, out: &mut String, indent_levels: &Vec<bool>, is_last: bool) {
        self.write_tree(out, indent_levels, is_last);
    }
}

impl BoolBiOpExpr {
    /// The lines of the node and its children.
    pub open spec fn tree(self, indent: Seq<bool>, is_last: bool) -> Seq<char>
        decreases self,
    {
        line(indent, is_last, "BoolBiOpExpr "@ + self.op.name_text()) + self.left.tree(indent.push(is_last), false) + self.right.tree(indent.push(is_last), true)
    }

    fn write_tree(&self, out: &mut String, indent: &Vec<bool>, is_last: bool)
        ensures
            final(out)@ == old(out)@ + self.tree(indent@, is_last),
        decreases self,
    {
        let mut label = owned("BoolBiOpExpr ");
        label.append(self.op.to_name_text());
        write_line(out, indent, is_last, label.as_str());
        let levels = deeper(indent, is_last);
        self.left.write_tree(out, &levels, false);
        self.right.write_tree(out, &levels, true);
    }
}

impl DisplayAsTree for BoolBiOpExpr {
    open spec fn tree_lines(&self, indent: Seq<bool>, is_last: bool) -> Seq<char> {
        self.tree(indent, is_last)
    }

    fn fmt_tree(&self, out: &mut String, indent_levels: &Vec<bool>, is_last: bool) {
        self.write_tree(out, indent_levels, is_last);
    }
}

impl ComExpr {
    /// The lines of the node and its children.
    pub open spec fn tree(self, indent: Seq<bool>, is_last: bool) -> Seq<char>
        decreases self,
    {
        line(indent, is_last, "ComExpr"@) + self.left.tree(indent.push(is_last), false) + self.right.tree(indent.push(is_last), true)
    }

    fn write_tree(&self, out: &mut String, indent: &Vec<bool>, is_last: bool)
        ensures
            final(out)@ == old(out)@ + self.tree(indent@, is_last),
        decreases self,
    {
        write_line(out, indent, is_last, "ComExpr");
        let levels = deeper(indent, is_last);
        self.left.write_tree(out, &levels, false);
        self.right.write_tree(out, &levels, true);
    }
}

impl DisplayAsTree for ComExpr {
    open spec fn tree_lines(&self, indent: Seq<bool>, is_last: bool) -> Seq<char> {
        self.tree(indent, is_last)
    }

    fn fmt_tree(&self, out: &mut String, indent_levels: &Vec<bool>, is_last: bool) {
        self.write_tree(out, indent_levels, is_last);
    }
}

impl BoolUOpExpr {
    /// The lines of the node and its children.
    pub open spec fn tree(self, indent: Seq<bool>, is_last: bool) -> Seq<char>
        decreases self,
    {
        line(indent, is_last, "BoolUOpExpr "@ + self.op.name_text()) + self.cond.tree(indent.push(is_last), true)
    }

    fn write_tree(&self, out: &mut String, indent: &Vec<bool>, is_last: bool)
        ensures
            final(out)@ == old(out)@ + self.tree(indent@, is_last),
        decreases self,
    {
        let mut label = owned("BoolUOpExpr ");
        label.append(self.op.to_name_text());
        write_line(out, indent, is_last, label.as_str());
        let levels = deeper(indent, is_last);
        self.cond.write_tree(out, &levels, true);
    }
}

impl DisplayAsTree for BoolUOpExpr {
    open spec fn tree_lines(&self, indent: Seq<bool>, is_last: bool) -> Seq<char> {
        self.tree(indent, is_last)
    }

    fn fmt_tree(&self, out: &mut String, indent_levels: &Vec<bool>, is_last: bool) {
        self.write_tree(out, indent_levels, is_last);
    }
}

impl BoolUnit {
    /// The lines of the node and its children.
    pub open spec fn tree(self, indent: Seq<bool>, is_last: bool) -> Seq<char>
        decreases self,
    {
        line(indent, is_last, "BoolUnit"@) + (match self.inner {
            BoolUnitInner::ComExpr(x) => x.tree(indent.push(is_last), true),
            BoolUnitInner::BoolExpr(x) => x.tree(indent.push(is_last), true),
            BoolUnitInner::BoolUOpExpr(x) => x.tree(indent.push(is_last), true),
        })
    }

    fn write_tree(&self, out: &mut String, indent: &Vec<bool>, is_last: bool)
        ensures
            final(out)@ == old(out)@ + self.tree(indent@, is_last),
        decreases self,
    {
        write_line(out, indent, is_last, "BoolUnit");
        let levels = deeper(indent, is_last);
        match &self.inner {
            BoolUnitInner::ComExpr(x) => {
                x.write_tree(out, &levels, true);
            },
            BoolUnitInner::BoolExpr(x) => {
                x.write_tree(out, &levels, true);
            },
            BoolUnitInner::BoolUOpExpr(x) => {
                x.write_tree(out, &levels, true);
            },
        }
    }
}

impl DisplayAsTree for BoolUnit {
    open spec fn tree_lines(&self, indent: Seq<bool>, is_last: bool) -> Seq<char> {
        self.tree(indent, is_last)
    }

    fn fmt_tree(&self, out: &mut String, indent_levels: &Vec<bool>, is_last: bool) {
        self.write_tree(out, indent_levels, is_last);
    }
}

impl ExprUnit {
    /// The lines of the node and its children.
    pub open spec fn tree(self, indent: Seq<bool>, is_last: bool) -> Seq<char>
        decreases self,
    {
        line(indent, is_last, "ExprUnit"@) + (match self.inner {
            ExprUnitInner::Num(x) => line(indent.push(is_last), true, "Num("@ + int_text(x as int) + ")"@),
            ExprUnitInner::Id(x) => line(indent.push(is_last), true, "Id("@ + x@ + ")"@),
            ExprUnitInner::ArithExpr(x) => x.tree(indent.push(is_last), true),
            ExprUnitInner::FnCall(x) => x.tree(indent.push(is_last), true),
            ExprUnitInner::ArrayExpr(x) => x.tree(indent.push(is_last), true),
            ExprUnitInner::MemberExpr(x) => x.tree(indent.push(is_last), true),
            ExprUnitInner::Reference(x) => line(indent.push(is_last), true, "Ref("@ + x@ + ")"@),
        })
    }

    fn write_tree(&self, out: &mut String, indent: &Vec<bool>, is_last: bool)
        ensures
            final(out)@ == old(out)@ + self.tree(indent@, is_last),
        decreases self,
    {
        write_line(out, indent, is_last, "ExprUnit");
        let levels = deeper(indent, is_last);
        match &self.inner {
            ExprUnitInner::Num(x) => {
                let mut label = owned("Num(");
                label.append(i32_to_text(*x).as_str());
                label.append(")");
                write_line(out, &levels, true, label.as_str());
            },
            ExprUnitInner::Id(x) => {
                let mut label = owned("Id(");
                label.append(x.as_str());
                label.append(")");
                write_line(out, &levels, true, label.as_str());
            },
            ExprUnitInner::ArithExpr(x) => {
                x.write_tree(out, &levels, true);
            },
            ExprUnitInner::FnCall(x) => {
                x.write_tree(out, &levels, true);
            },
            ExprUnitInner::ArrayExpr(x) => {
                x.write_tree(out, &levels, true);
            },
            ExprUnitInner::MemberExpr(x) => {
                x.write_tree(out, &levels, true);
            },
            ExprUnitInner::Reference(x) => {
                let mut label = owned("Ref(");
                label.append(x.as_str());
                label.append(")");
                write_line(out, &levels, true, label.as_str());
            },
        }
    }
}

impl DisplayAsTree for ExprUnit {
    open spec fn tree_lines(&self, indent: Seq<bool>, is_last: bool) -> Seq<char> {
        self.tree(indent, is_last)
    }

    fn fmt_tree(&self, out: &mut String, indent_levels: &Vec<bool>, is_last: bool) {
        self.write_tree(out, indent_levels, is_last);
    }
}

/// The lines of the values, the last of `total` marked as such.
pub open spec fn values_tree(items: Seq<RightVal>, total: nat, indent: Seq<bool>) -> Seq<char>
    decreases items,
{
    if items.len() == 0 {
        Seq::empty()
    } else {
        values_tree(items.drop_last(), total, indent) + items.last().tree(indent, items.len() == total)
    }
}

fn write_values(out: &mut String, items: &Vec<RightVal>, indent: &Vec<bool>)
    ensures
        final(out)@ == old(out)@ + values_tree(items@, items@.len(), indent@),
    decreases items,
{
    let n: usize = items.len();
    let mut i: usize = 0;
    assert(items@.take(0) =~= Seq::empty());
    assert(out@ =~= out@ + values_tree(items@.take(0), n as nat, indent@));
    while i < n
        invariant
            i <= n,
            n == items.len(),
            out@ == old(out)@ + values_tree(items@.take(i as int), n as nat, indent@),
        decreases n - i,
    {
        assert(items@.take(i + 1).drop_last() =~= items@.take(i as int));
        assert(items@.take(i + 1).last() == items@[i as int]);
        items[i].write_tree(out, indent, i + 1 == n);
        i = i + 1;
    }
    assert(items@.take(i as int) =~= items@);
}

impl FnCall {
    /// The lines of the node and its children.
    pub open spec fn tree(self, indent: Seq<bool>, is_last: bool) -> Seq<char>
        decreases self,
    {
        line(indent, is_last, "FnCall: "@ + self.callee()) + values_tree(self.vals@, self.vals@.len(), indent.push(is_last))
    }

    fn write_tree(&self, out: &mut String, indent: &Vec<bool>, is_last: bool)
        ensures
            final(out)@ == old(out)@ + self.tree(indent@, is_last),
        decreases self,
    {
        let mut label = owned("FnCall: ");
        label.append(self.qualified_name().as_str());
        write_line(out, indent, is_last, label.as_str());
        let levels = deeper(indent, is_last);
        write_values(out, &self.vals, &levels);
    }
}

impl DisplayAsTree for FnCall {
    open spec fn tree_lines(&self, indent: Seq<bool>, is_last: bool) -> Seq<char> {
        self.tree(indent, is_last)
    }

    fn fmt_tree(&self, out: &mut String, indent_levels: &Vec<bool>, is_last: bool) {
        self.write_tree(out, indent_levels, is_last);
    }
}

impl VarDecl {
    /// The lines of the node and its children.
    pub open spec fn tree(self, indent: Seq<bool>, is_last: bool) -> Seq<char>
        decreases self,
    {
        line(
            indent,
            is_last,
            self.identifier@ + ": "@ + (match self.type_specifier {
                Some(ts) => ts.text(),
                None => "unknown"@,
            }),
        )
    }

    fn write_tree(&self, out: &mut String, indent: &Vec<bool>, is_last: bool)
        ensures
            final(out)@ == old(out)@ + self.tree(indent@, is_last),
        decreases self,
    {
        let mut label = owned(self.identifier.as_str());
        label.append(": ");
        match &self.type_specifier {
            Some(ts) => label.append(ts.to_text().as_str()),
            None => label.append("unknown"),
        }
        write_line(out, indent, is_last, label.as_str());
    }
}

impl DisplayAsTree for VarDecl {
    open spec fn tree_lines(&self, indent: Seq<bool>, is_last: bool) -> Seq<char> {
        self.tree(indent, is_last)
    }

    fn fmt_tree(&self, out: &mut String, indent_levels: &Vec<bool>, is_last: bool) {
        self.write_tree(out, indent_levels, is_last);
    }
}

/// The lines of the declarations, the last of `total` marked as such.
pub open spec fn decls_tree(items: Seq<VarDecl>, total: nat, indent: Seq<bool>) -> Seq<char>
    decreases items,
{
    if items.len() == 0 {
        Seq::empty()
    } else {
        decls_tree(items.drop_last(), total, indent) + items.last().tree(indent, items.len() == total)
    }
}

fn write_decls(out: &mut String, items: &Vec<VarDecl>, indent: &Vec<bool>)
    ensures
        final(out)@ == old(out)@ + decls_tree(items@, items@.len(), indent@),
    decreases items,
{
    let n: usize = items.len();
    let mut i: usize = 0;
    assert(items@.take(0) =~= Seq::empty());
    assert(out@ =~= out@ + decls_tree(items@.take(0), n as nat, indent@));
    while i < n
        invariant
            i <= n,
            n == items.len(),
            out@ == old(out)@ + decls_tree(items@.take(i as int), n as nat, indent@),
        decreases n - i,
    {
        assert(items@.take(i + 1).drop_last() =~= items@.take(i as int));
        assert(items@.take(i + 1).last() == items@[i as int]);
        items[i].write_tree(out, indent, i + 1 == n);
        i = i + 1;
    }
    assert(items@.take(i as int) =~= items@);
}

/// The lines of a list of declarations under a heading.
pub open spec fn decl_list_tree(decls: Seq<VarDecl>, indent: Seq<bool>, is_last: bool) -> Seq<
    char,
> {
    line(indent, is_last, "VarDeclList"@) + decls_tree(decls, decls.len(), indent.push(is_last))
}

fn write_decl_list(out: &mut String, decls: &Vec<VarDecl>, indent: &Vec<bool>, is_last: bool)
    ensures
        final(out)@ == old(out)@ + decl_list_tree(decls@, indent@, is_last),
{
    write_line(out, indent, is_last, "VarDeclList");
    let levels = deeper(indent, is_last);
    write_decls(out, decls, &levels);
}

impl VarDef {
    /// The lines of the node and its children.
    pub open spec fn tree(self, indent: Seq<bool>, is_last: bool) -> Seq<char>
        decreases self,
    {
        line(
            indent,
            is_last,
            self.identifier@ + " = "@ + (match self.inner {
                VarDefInner::Scalar(s) => s.val.text(),
                VarDefInner::Array(a) => match a.initializer {
                    ArrayInitializer::ExplicitList(vals) => list_debug(vals@),
                    ArrayInitializer::Fill { val, count } => "["@ + val.text() + "; "@ + nat_text(
                        count as nat,
                    ) + "]"@,
                },
            }),
        )
    }

    fn write_tree(&self, out: &mut String, indent: &Vec<bool>, is_last: bool)
        ensures
            final(out)@ == old(out)@ + self.tree(indent@, is_last),
        decreases self,
    {
        let mut label = owned(self.identifier.as_str());
        label.append(" = ");
        match &self.inner {
            VarDefInner::Scalar(s) => label.append(s.val.to_text().as_str()),
            VarDefInner::Array(a) => match &a.initializer {
                ArrayInitializer::ExplicitList(vals) => label.append(
                    list_to_debug(vals).as_str(),
                ),
                ArrayInitializer::Fill { val, count } => {
                    label.append("[");
                    label.append(val.to_text().as_str());
                    label.append("; ");
                    label.append(usize_to_text(*count).as_str());
                    label.append("]");
                },
            },
        }
        write_line(out, indent, is_last, label.as_str());
    }
}

impl DisplayAsTree for VarDef {
    open spec fn tree_lines(&self, indent: Seq<bool>, is_last: bool) -> Seq<char> {
        self.tree(indent, is_last)
    }

    fn fmt_tree(&self, out: &mut String, indent_levels: &Vec<bool>, is_last: bool) {
        self.write_tree(out, indent_levels, is_last);
    }
}

impl VarDeclStmtInner {
    /// The lines of the node and its children.
    pub open spec fn tree(self, indent: Seq<bool>, is_last: bool) -> Seq<char>
        decreases self,
    {
        match self {
            VarDeclStmtInner::Decl(x) => x.tree(indent, is_last),
            VarDeclStmtInner::Def(x) => x.tree(indent, is_last),
        }
    }

    fn write_tree(&self, out: &mut String, indent: &Vec<bool>, is_last: bool)
        ensures
            final(out)@ == old(out)@ + self.tree(indent@, is_last),
        decreases self,
    {
        match self {
            VarDeclStmtInner::Decl(x) => x.write_tree(out, indent, is_last),
            VarDeclStmtInner::Def(x) => x.write_tree(out, indent, is_last),
        }
    }
}

impl DisplayAsTree for VarDeclStmtInner {
    open spec fn tree_lines(&self, indent: Seq<bool>, is_last: bool) -> Seq<char> {
        self.tree(indent, is_last)
    }

    fn fmt_tree(&self, out: &mut String, indent_levels: &Vec<bool>, is_last: bool) {
        self.write_tree(out, indent_levels, is_last);
    }
}

impl VarDeclStmt {
    /// The lines of the node and its children.
    pub open spec fn tree(self, indent: Seq<bool>, is_last: bool) -> Seq<char>
        decreases self,
    {
        line(indent, is_last, "VarDeclStmt"@) + self.inner.tree(indent, true)
    }

    fn write_tree(&self, out: &mut String, indent: &Vec<bool>, is_last: bool)
        ensures
            final(out)@ == old(out)@ + self.tree(indent@, is_last),
        decreases self,
    {
        write_line(out, indent, is_last, "VarDeclStmt");
        self.inner.write_tree(out, indent, true);
    }
}

impl DisplayAsTree for VarDeclStmt {
    open spec fn tree_lines(&self, indent: Seq<bool>, is_last: bool) -> Seq<char> {
        self.tree(indent, is_last)
    }

    fn fmt_tree(&self, out: &mut String, indent_levels: &Vec<bool>, is_last: bool) {
        self.write_tree(out, indent_levels, is_last);
    }
}

impl StructDef {
    /// The lines of the node and its children.
    pub open spec fn tree(self, indent: Seq<bool>, is_last: bool) -> Seq<char>
        decreases self,
    {
        line(indent, is_last, "StructDef "@ + self.identifier@) + decl_list_tree(self.decls@, indent.push(is_last), true)
    }

    fn write_tree(&self, out: &mut String, indent: &Vec<bool>, is_last: bool)
        ensures
            final(out)@ == old(out)@ + self.tree(indent@, is_last),
        decreases self,
    {
        let mut label = owned("StructDef ");
        label.append(self.identifier.as_str());
        write_line(out, indent, is_last, label.as_str());
        let levels = deeper(indent, is_last);
        write_decl_list(out, &self.decls, &levels, true);
    }
}

impl DisplayAsTree for StructDef {
    open spec fn tree_lines(&self, indent: Seq<bool>, is_last: bool) -> Seq<char> {
        self.tree(indent, is_last)
    }

    fn fmt_tree(&self, out: &mut String, indent_levels: &Vec<bool>, is_last: bool) {
        self.write_tree(out, indent_levels, is_last);
    }
}

impl FnDecl {
    /// The lines of the node and its children.
    pub open spec fn tree(self, indent: Seq<bool>, is_last: bool) -> Seq<char>
        decreases self,
    {
        line(indent, is_last, "FnDecl "@ + self.identifier@) + (match self.param_decl {
            Some(params) => line(indent.push(!is_last), false, "Params:"@) + decl_list_tree(
                params.decls@,
                indent.push(!is_last),
                true,
            ),
            None => Seq::empty(),
        })
    }

    fn write_tree(&self, out: &mut String, indent: &Vec<bool>, is_last: bool)
        ensures
            final(out)@ == old(out)@ + self.tree(indent@, is_last),
        decreases self,
    {
        let mut label = owned("FnDecl ");
        label.append(self.identifier.as_str());
        write_line(out, indent, is_last, label.as_str());
        let ghost head = out@;
        match &self.param_decl {
            Some(params) => {
                let levels = deeper(indent, !is_last);
                write_line(out, &levels, false, "Params:");
                write_decl_list(out, &params.decls, &levels, true);
            },
            None => {
                assert(head + Seq::<char>::empty() =~= head);
            },
        }
    }
}

impl DisplayAsTree for FnDecl {
    open spec fn tree_lines(&self, indent: Seq<bool>, is_last: bool) -> Seq<char> {
        self.tree(indent, is_last)
    }

    fn fmt_tree(&self, out: &mut String, indent_levels: &Vec<bool>, is_last: bool) {
        self.write_tree(out, indent_levels, is_last);
    }
}

impl FnDeclStmt {
    /// The lines of the node and its children.
    pub open spec fn tree(self, indent: Seq<bool>, is_last: bool) -> Seq<char>
        decreases self,
    {
        self.fn_decl.tree(indent, is_last)
    }

    fn write_tree(&self, out: &mut String, indent: &Vec<bool>, is_last: bool)
        ensures
            final(out)@ == old(out)@ + self.tree(indent@, is_last),
        decreases self,
    {
        self.fn_decl.write_tree(out, indent, is_last);
    }
}

impl DisplayAsTree for FnDeclStmt {
    open spec fn tree_lines(&self, indent: Seq<bool>, is_last: bool) -> Seq<char> {
        self.tree(indent, is_last)
    }

    fn fmt_tree(&self, out: &mut String, indent_levels: &Vec<bool>, is_last: bool) {
        self.write_tree(out, indent_levels, is_last);
    }
}

impl AssignmentStmt {
    /// The lines of the node and its children.
    pub open spec fn tree(self, indent: Seq<bool>, is_last: bool) -> Seq<char>
        decreases self,
    {
        line(indent, is_last, "AssignmentStmt"@) + self.left_val.tree(indent.push(is_last), false) + self.right_val.tree(indent.push(is_last), true)
    }

    fn write_tree(&self, out: &mut String, indent: &Vec<bool>, is_last: bool)
        ensures
            final(out)@ == old(out)@ + self.tree(indent@, is_last),
        decreases self,
    {
        write_line(out, indent, is_last, "AssignmentStmt");
        let levels = deeper(indent, is_last);
        self.left_val.write_tree(out, &levels, false);
        self.right_val.write_tree(out, &levels, true);
    }
}

impl DisplayAsTree for AssignmentStmt {
    open spec fn tree_lines(&self, indent: Seq<bool>, is_last: bool) -> Seq<char> {
        self.tree(indent, is_last)
    }

    fn fmt_tree(&self, out: &mut String, indent_levels: &Vec<bool>, is_last: bool) {
        self.write_tree(out, indent_levels, is_last);
    }
}

impl CallStmt {
    /// The lines of the node and its children.
    pub open spec fn tree(self, indent: Seq<bool>, is_last: bool) -> Seq<char>
        decreases self,
    {
        line(indent, is_last, "CallStmt "@ + self.fn_call.name@) + values_tree(self.fn_call.vals@, self.fn_call.vals@.len(), indent.push(is_last))
    }

    fn write_tree(&self, out: &mut String, indent: &Vec<bool>, is_last: bool)
        ensures
            final(out)@ == old(out)@ + self.tree(indent@, is_last),
        decreases self,
    {
        let mut label = owned("CallStmt ");
        label.append(self.fn_call.name.as_str());
        write_line(out, indent, is_last, label.as_str());
        let levels = deeper(indent, is_last);
        write_values(out, &self.fn_call.vals, &levels);
    }
}

impl DisplayAsTree for CallStmt {
    open spec fn tree_lines(&self, indent: Seq<bool>, is_last: bool) -> Seq<char> {
        self.tree(indent, is_last)
    }

    fn fmt_tree(&self, out: &mut String, indent_levels: &Vec<bool>, is_last: bool) {
        self.write_tree(out, indent_levels, is_last);
    }
}

impl ReturnStmt {
    /// The lines of the node and its children.
    pub open spec fn tree(self, indent: Seq<bool>, is_last: bool) -> Seq<char>
        decreases self,
    {
        match self.val {
            Some(v) => line(indent, is_last, "ReturnStmt "@ + v.text()),
            None => line(indent, is_last, "ReturnStmt"@),
        }
    }

    fn write_tree(&self, out: &mut String, indent: &Vec<bool>, is_last: bool)
        ensures
            final(out)@ == old(out)@ + self.tree(indent@, is_last),
        decreases self,
    {
        match &self.val {
            Some(v) => {
                let mut label = owned("ReturnStmt ");
                label.append(v.to_text().as_str());
                write_line(out, indent, is_last, label.as_str());
            },
            None => write_line(out, indent, is_last, "ReturnStmt"),
        }
    }
}

impl DisplayAsTree for ReturnStmt {
    open spec fn tree_lines(&self, indent: Seq<bool>, is_last: bool) -> Seq<char> {
        self.tree(indent, is_last)
    }

    fn fmt_tree(&self, out: &mut String, indent_levels: &Vec<bool>, is_last: bool) {
        self.write_tree(out, indent_levels, is_last);
    }
}

impl ContinueStmt {
    /// The lines of the node and its children.
    pub open spec fn tree(self, indent: Seq<bool>, is_last: bool) -> Seq<char>
        decreases self,
    {
        line(indent, is_last, "ContinueStmt"@)
    }

    fn write_tree(&self, out: &mut String, indent: &Vec<bool>, is_last: bool)
        ensures
            final(out)@ == old(out)@ + self.tree(indent@, is_last),
        decreases self,
    {
        write_line(out, indent, is_last, "ContinueStmt");
    }
}

impl DisplayAsTree for ContinueStmt {
    open spec fn tree_lines(&self, indent: Seq<bool>, is_last: bool) -> Seq<char> {
        self.tree(indent, is_last)
    }

    fn fmt_tree(&self, out: &mut String, indent_levels: &Vec<bool>, is_last: bool) {
        self.write_tree(out, indent_levels, is_last);
    }
}

impl BreakStmt {
    /// The lines of the node and its children.
    pub open spec fn tree(self, indent: Seq<bool>, is_last: bool) -> Seq<char>
        decreases self,
    {
        line(indent, is_last, "BreakStmt"@)
    }

    fn write_tree(&self, out: &mut String, indent: &Vec<bool>, is_last: bool)
        ensures
            final(out)@ == old(out)@ + self.tree(indent@, is_last),
        decreases self,
    {
        write_line(out, indent, is_last, "BreakStmt");
    }
}

impl DisplayAsTree for BreakStmt {
    open spec fn tree_lines(&self, indent: Seq<bool>, is_last: bool) -> Seq<char> {
        self.tree(indent, is_last)
    }

    fn fmt_tree(&self, out: &mut String, indent_levels: &Vec<bool>, is_last: bool) {
        self.write_tree(out, indent_levels, is_last);
    }
}

impl NullStmt {
    /// The lines of the node and its children.
    pub open spec fn tree(self, indent: Seq<bool>, is_last: bool) -> Seq<char>
        decreases self,
    {
        line(indent, is_last, "NullStmt"@)
    }

    fn write_tree(&self, out: &mut String, indent: &Vec<bool>, is_last: bool)
        ensures
            final(out)@ == old(out)@ + self.tree(indent@, is_last),
        decreases self,
    {
        write_line(out, indent, is_last, "NullStmt");
    }
}

impl DisplayAsTree for NullStmt {
    open spec fn tree_lines(&self, indent: Seq<bool>, is_last: bool) -> Seq<char> {
        self.tree(indent, is_last)
    }

    fn fmt_tree(&self, out: &mut String, indent_levels: &Vec<bool>, is_last: bool) {
        self.write_tree(out, indent_levels, is_last);
    }
}

/// The lines of the statements, the last of `total` marked as such.
pub open spec fn stmts_tree(items: Seq<CodeBlockStmt>, total: nat, indent: Seq<bool>) -> Seq<char>
    decreases items,
{
    if items.len() == 0 {
        Seq::empty()
    } else {
        stmts_tree(items.drop_last(), total, indent) + items.last().tree(indent, items.len() == total)
    }
}

fn write_stmts(out: &mut String, items: &Vec<CodeBlockStmt>, indent: &Vec<bool>)
    ensures
        final(out)@ == old(out)@ + stmts_tree(items@, items@.len(), indent@),
    decreases items,
{
    let n: usize = items.len();
    let mut i: usize = 0;
    assert(items@.take(0) =~= Seq::empty());
    assert(out@ =~= out@ + stmts_tree(items@.take(0), n as nat, indent@));
    while i < n
        invariant
            i <= n,
            n == items.len(),
            out@ == old(out)@ + stmts_tree(items@.take(i as int), n as nat, indent@),
        decreases n - i,
    {
        assert(items@.take(i + 1).drop_last() =~= items@.take(i as int));
        assert(items@.take(i + 1).last() == items@[i as int]);
        items[i].write_tree(out, indent, i + 1 == n);
        i = i + 1;
    }
    assert(items@.take(i as int) =~= items@);
}

/// The lines of the else branch, if there is one.
pub open spec fn else_tree(branch: Option<Vec<CodeBlockStmt>>, indent: Seq<bool>) -> Seq<char>
    decreases branch,
{
    match branch {
        Some(e) => line(indent, false, "ElseBranch:"@) + stmts_tree(e@, e@.len(), indent),
        None => Seq::empty(),
    }
}

fn write_else(out: &mut String, branch: &Option<Vec<CodeBlockStmt>>, indent: &Vec<bool>)
    ensures
        final(out)@ == old(out)@ + else_tree(*branch, indent@),
    decreases branch,
{
    match branch {
        Some(e) => {
            write_line(out, indent, false, "ElseBranch:");
            write_stmts(out, e, indent);
        },
        None => {
            assert(out@ + Seq::<char>::empty() =~= out@);
        },
    }
}

impl IfStmt {
    /// The lines of the node and its children.
    pub open spec fn tree(self, indent: Seq<bool>, is_last: bool) -> Seq<char>
        decreases self,
    {
        line(indent, is_last, "IfStmt Cond: "@ + self.bool_unit.text()) + line(indent.push(is_last), false, "IfBranch:"@) + stmts_tree(self.if_stmts@, self.if_stmts@.len(), indent.push(is_last)) + else_tree(self.else_stmts, indent.push(is_last))
    }

    fn write_tree(&self, out: &mut String, indent: &Vec<bool>, is_last: bool)
        ensures
            final(out)@ == old(out)@ + self.tree(indent@, is_last),
        decreases self,
    {
        let mut label = owned("IfStmt Cond: ");
        label.append(self.bool_unit.to_text().as_str());
        write_line(out, indent, is_last, label.as_str());
        let levels = deeper(indent, is_last);
        write_line(out, &levels, false, "IfBranch:");
        write_stmts(out, &self.if_stmts, &levels);
        write_else(out, &self.else_stmts, &levels);
    }
}

impl DisplayAsTree for IfStmt {
    open spec fn tree_lines(&self, indent: Seq<bool>, is_last: bool) -> Seq<char> {
        self.tree(indent, is_last)
    }

    fn fmt_tree(&self, out: &mut String, indent_levels: &Vec<bool>, is_last: bool) {
        self.write_tree(out, indent_levels, is_last);
    }
}

impl WhileStmt {
    /// The lines of the node and its children.
    pub open spec fn tree(self, indent: Seq<bool>, is_last: bool) -> Seq<char>
        decreases self,
    {
        line(indent, is_last, "WhileStmt Cond: "@ + self.bool_unit.text()) + line(indent.push(is_last), false, "Body:"@) + stmts_tree(self.stmts@, self.stmts@.len(), indent.push(is_last))
    }

    fn write_tree(&self, out: &mut String, indent: &Vec<bool>, is_last: bool)
        ensures
            final(out)@ == old(out)@ + self.tree(indent@, is_last),
        decreases self,
    {
        let mut label = owned("WhileStmt Cond: ");
        label.append(self.bool_unit.to_text().as_str());
        write_line(out, indent, is_last, label.as_str());
        let levels = deeper(indent, is_last);
        write_line(out, &levels, false, "Body:");
        write_stmts(out, &self.stmts, &levels);
    }
}

impl DisplayAsTree for WhileStmt {
    open spec fn tree_lines(&self, indent: Seq<bool>, is_last: bool) -> Seq<char> {
        self.tree(indent, is_last)
    }

    fn fmt_tree(&self, out: &mut String, indent_levels: &Vec<bool>, is_last: bool) {
        self.write_tree(out, indent_levels, is_last);
    }
}

impl CodeBlockStmtInner {
    /// The lines of the node and its children.
    pub open spec fn tree(self, indent: Seq<bool>, is_last: bool) -> Seq<char>
        decreases self,
    {
        match self {
            CodeBlockStmtInner::VarDecl(x) => x.tree(indent, is_last),
            CodeBlockStmtInner::Assignment(x) => x.tree(indent, is_last),
            CodeBlockStmtInner::Call(x) => x.tree(indent, is_last),
            CodeBlockStmtInner::If(x) => x.tree(indent, is_last),
            CodeBlockStmtInner::While(x) => x.tree(indent, is_last),
            CodeBlockStmtInner::Return(x) => x.tree(indent, is_last),
            CodeBlockStmtInner::Continue(x) => x.tree(indent, is_last),
            CodeBlockStmtInner::Break(x) => x.tree(indent, is_last),
            CodeBlockStmtInner::Null(x) => x.tree(indent, is_last),
        }
    }

    fn write_tree(&self, out: &mut String, indent: &Vec<bool>, is_last: bool)
        ensures
            final(out)@ == old(out)@ + self.tree(indent@, is_last),
        decreases self,
    {
        match self {
            CodeBlockStmtInner::VarDecl(x) => x.write_tree(out, indent, is_last),
            CodeBlockStmtInner::Assignment(x) => x.write_tree(out, indent, is_last),
            CodeBlockStmtInner::Call(x) => x.write_tree(out, indent, is_last),
            CodeBlockStmtInner::If(x) => x.write_tree(out, indent, is_last),
            CodeBlockStmtInner::While(x) => x.write_tree(out, indent, is_last),
            CodeBlockStmtInner::Return(x) => x.write_tree(out, indent, is_last),
            CodeBlockStmtInner::Continue(x) => x.write_tree(out, indent, is_last),
            CodeBlockStmtInner::Break(x) => x.write_tree(out, indent, is_last),
            CodeBlockStmtInner::Null(x) => x.write_tree(out, indent, is_last),
        }
    }
}

impl DisplayAsTree for CodeBlockStmtInner {
    open spec fn tree_lines(&self, indent: Seq<bool>, is_last: bool) -> Seq<char> {
        self.tree(indent, is_last)
    }

    fn fmt_tree(&self, out: &mut String, indent_levels: &Vec<bool>, is_last: bool) {
        self.write_tree(out, indent_levels, is_last);
    }
}

impl CodeBlockStmt {
    /// The lines of the node and its children.
    pub open spec fn tree(self, indent: Seq<bool>, is_last: bool) -> Seq<char>
        decreases self,
    {
        self.inner.tree(indent, is_last)
    }

    fn write_tree(&self, out: &mut String, indent: &Vec<bool>, is_last: bool)
        ensures
            final(out)@ == old(out)@ + self.tree(indent@, is_last),
        decreases self,
    {
        self.inner.write_tree(out, indent, is_last);
    }
}

impl DisplayAsTree for CodeBlockStmt {
    open spec fn tree_lines(&self, indent: Seq<bool>, is_last: bool) -> Seq<char> {
        self.tree(indent, is_last)
    }

    fn fmt_tree(&self, out: &mut String, indent_levels: &Vec<bool>, is_last: bool) {
        self.write_tree(out, indent_levels, is_last);
    }
}

impl FnDef {
    /// The lines of the node and its children.
    pub open spec fn tree(self, indent: Seq<bool>, is_last: bool) -> Seq<char>
        decreases self,
    {
        line(indent, is_last, "FnDef "@ + self.fn_decl.identifier@) + stmts_tree(self.stmts@, self.stmts@.len(), indent.push(!is_last))
    }

    fn write_tree(&self, out: &mut String, indent: &Vec<bool>, is_last: bool)
        ensures
            final(out)@ == old(out)@ + self.tree(indent@, is_last),
        decreases self,
    {
        let mut label = owned("FnDef ");
        label.append(self.fn_decl.identifier.as_str());
        write_line(out, indent, is_last, label.as_str());
        let levels = deeper(indent, !is_last);
        write_stmts(out, &self.stmts, &levels);
    }
}

impl DisplayAsTree for FnDef {
    open spec fn tree_lines(&self, indent: Seq<bool>, is_last: bool) -> Seq<char> {
        self.tree(indent, is_last)
    }

    fn fmt_tree(&self, out: &mut String, indent_levels: &Vec<bool>, is_last: bool) {
        self.write_tree(out, indent_levels, is_last);
    }
}

impl ProgramElement {
    /// The lines of the node and its children.
    pub open spec fn tree(self, indent: Seq<bool>, is_last: bool) -> Seq<char>
        decreases self,
    {
        match self.inner {
            ProgramElementInner::VarDeclStmt(x) => x.tree(indent, is_last),
            ProgramElementInner::StructDef(x) => x.tree(indent, is_last),
            ProgramElementInner::FnDeclStmt(x) => x.tree(indent, is_last),
            ProgramElementInner::FnDef(x) => x.tree(indent, is_last),
        }
    }

    fn write_tree(&self, out: &mut String, indent: &Vec<bool>, is_last: bool)
        ensures
            final(out)@ == old(out)@ + self.tree(indent@, is_last),
        decreases self,
    {
        match &self.inner {
            ProgramElementInner::VarDeclStmt(x) => x.write_tree(out, indent, is_last),
            ProgramElementInner::StructDef(x) => x.write_tree(out, indent, is_last),
            ProgramElementInner::FnDeclStmt(x) => x.write_tree(out, indent, is_last),
            ProgramElementInner::FnDef(x) => x.write_tree(out, indent, is_last),
        }
    }
}

impl DisplayAsTree for ProgramElement {
    open spec fn tree_lines(&self, indent: Seq<bool>, is_last: bool) -> Seq<char> {
        self.tree(indent, is_last)
    }

    fn fmt_tree(&self, out: &mut String, indent_levels: &Vec<bool>, is_last: bool) {
        self.write_tree(out, indent_levels, is_last);
    }
}

/// The lines of the elements, the last of `total` marked as such.
pub open spec fn elements_tree(items: Seq<ProgramElement>, total: nat, indent: Seq<bool>) -> Seq<char>
    decreases items,
{
    if items.len() == 0 {
        Seq::empty()
    } else {
        elements_tree(items.drop_last(), total, indent) + items.last().tree(indent, items.len() == total)
    }
}

fn write_elements(out: &mut String, items: &Vec<ProgramElement>, indent: &Vec<bool>)
    ensures
        final(out)@ == old(out)@ + elements_tree(items@, items@.len(), indent@),
    decreases items,
{
    let n: usize = items.len();
    let mut i: usize = 0;
    assert(items@.take(0) =~= Seq::empty());
    assert(out@ =~= out@ + elements_tree(items@.take(0), n as nat, indent@));
    while i < n
        invariant
            i <= n,
            n == items.len(),
            out@ == old(out)@ + elements_tree(items@.take(i as int), n as nat, indent@),
        decreases n - i,
    {
        assert(items@.take(i + 1).drop_last() =~= items@.take(i as int));
        assert(items@.take(i + 1).last() == items@[i as int]);
        items[i].write_tree(out, indent, i + 1 == n);
        i = i + 1;
    }
    assert(items@.take(i as int) =~= items@);
}

impl Program {
    /// The lines of the node and its children.
    pub open spec fn tree(self, indent: Seq<bool>, is_last: bool) -> Seq<char>
        decreases self,
    {
        line(indent, is_last, "Program"@) + elements_tree(self.elements@, self.elements@.len(), indent.push(!is_last))
    }

    fn write_tree(&self, out: &mut String, indent: &Vec<bool>, is_last: bool)
        ensures
            final(out)@ == old(out)@ + self.tree(indent@, is_last),
        decreases self,
    {
        write_line(out, indent, is_last, "Program");
        let levels = deeper(indent, !is_last);
        write_elements(out, &self.elements, &levels);
    }
}

impl DisplayAsTree for Program {
    open spec fn tree_lines(&self, indent: Seq<bool>, is_last: bool) -> Seq<char> {
        self.tree(indent, is_last)
    }

    fn fmt_tree(&self, out: &mut String, indent_levels: &Vec<bool>, is_last: bool) {
        self.write_tree(out, indent_levels, is_last);
    }
}

impl Program {
    /// The dump of the whole program.
    pub fn to_text(&self) -> (s: String)
        ensures
            s@ == self.tree(Seq::<bool>::empty(), true),
    {
        self.fmt_tree_root()
    }
}

} // verus!
