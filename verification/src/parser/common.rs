//! Parse trees, the errors of the parser, and what its parts share.

use crate::ast::types::{BuiltIn, TypeSpecifier, TypeSpecifierInner};
use crate::common::text::{
    group_text, join_strings, join_text, nat_text, owned, texts, usize_to_text,
};
use vstd::prelude::*;
use vstd::string::*;

verus! {

broadcast use group_text;

/// The rules of the grammar.
#[derive(Debug, Clone, Copy, PartialEq, Eq, Structural)]
pub enum Rule {
    Program,
    UseStmt,
    ProgramElement,
    VarDeclStmt,
    StructDef,
    FnDeclStmt,
    FnDef,
    TypedVarDeclList,
    TypedVarDecl,
    TypeSpec,
    RefType,
    KwI32,
    KwElse,
    VarDef,
    VarDecl,
    ArrayInitializer,
    FnDecl,
    ParamDecl,
    CodeBlockStmt,
    AssignmentStmt,
    CallStmt,
    IfStmt,
    WhileStmt,
    ReturnStmt,
    ContinueStmt,
    BreakStmt,
    NullStmt,
    LeftVal,
    RightVal,
    RightValList,
    BoolExpr,
    BoolAndTerm,
    BoolUnitAtom,
    BoolUnitParen,
    BoolComparison,
    CompOp,
    ArithExpr,
    ArithTerm,
    ArithAddOp,
    ArithMulOp,
    ExprUnit,
    ExprSuffix,
    IndexExpr,
    FnCall,
    ModulePrefixedCall,
    LocalCall,
    Identifier,
    Num,
    Colon,
    Ampersand,
    Dot,
    Lparen,
    Rparen,
    Lbracket,
    Rbracket,
    OpOr,
    OpAnd,
    OpNot,
    OpLt,
    OpGt,
    OpLe,
    OpGe,
    OpEq,
    OpNe,
    OpAdd,
    OpSub,
    OpMul,
    OpDiv,
    /// The end of the source text.
    Eoi,
    /// A rule that has no meaning of its own.
    Other,
}

/// A node of a parse tree: a rule, the text that it matched, and where.
#[derive(Debug)]
pub struct Node {
    pub rule: Rule,
    pub text: String,
    /// The byte offset of the text.
    pub pos: usize,
    /// The line of the text, from 1 on.
    pub line: usize,
    /// The column of the text, from 1 on.
    pub column: usize,
    pub children: Vec<Node>,
}

/// What the grammar made of a source text.
#[derive(Debug)]
pub enum Source {
    /// The text does not match the grammar.
    Rejected { line: usize, column: usize, message: String },
    /// The trees of the matched rules.
    Matched(Vec<Node>),
}

/// Why a text is not a 32-bit integer.
#[derive(Debug, Clone, Copy, PartialEq, Eq, Structural)]
pub enum NumberFault {
    /// The text is empty.
    Empty,
    /// A character is not a digit, or there are no digits behind the sign.
    InvalidDigit,
    /// The number is too large.
    PosOverflow,
    /// The number is too small.
    NegOverflow,
}

impl NumberFault {
    /// The message of the fault.
    pub open spec fn text(self) -> Seq<char> {
        match self {
            NumberFault::Empty => "cannot parse integer from empty string"@,
            NumberFault::InvalidDigit => "invalid digit found in string"@,
            NumberFault::PosOverflow => "number too large to fit in target type"@,
            NumberFault::NegOverflow => "number too small to fit in target type"@,
        }
    }

    /// The message of the fault.
    pub fn to_text(&self) -> (s: &'static str)
        ensures
            s@ == self.text(),
    {
        match self {
            NumberFault::Empty => "cannot parse integer from empty string",
            NumberFault::InvalidDigit => "invalid digit found in string",
            NumberFault::PosOverflow => "number too large to fit in target type",
            NumberFault::NegOverflow => "number too small to fit in target type",
        }
    }
}

/// What can be wrong with a source text.
#[derive(Debug)]
pub enum Error {
    /// The text does not match the grammar.
    Syntax { line: usize, column: usize, message: String },
    /// An integer literal is not a 32-bit integer.
    InvalidNumber { literal: String, line: usize, column: usize, source: NumberFault },
    /// The source could not be read, or the output not be written.
    Io { cause: String },
    /// The parse tree does not have the expected structure.
    Grammar { line: usize, column: usize, message: String },
}

/// The mathematical model of an [`Error`].
pub enum ErrorModel {
    Syntax { line: nat, column: nat, message: Seq<char> },
    InvalidNumber { literal: Seq<char>, line: nat, column: nat, source: NumberFault },
    Io { cause: Seq<char> },
    Grammar { line: nat, column: nat, message: Seq<char> },
}

impl View for Error {
    type V = ErrorModel;

    open spec fn view(&self) -> ErrorModel {
        match *self {
            Error::Syntax { line, column, message } => ErrorModel::Syntax {
                line: line as nat,
                column: column as nat,
                message: message@,
            },
            Error::InvalidNumber { literal, line, column, source } => ErrorModel::InvalidNumber {
                literal: literal@,
                line: line as nat,
                column: column as nat,
                source,
            },
            Error::Io { cause } => ErrorModel::Io { cause: cause@ },
            Error::Grammar { line, column, message } => ErrorModel::Grammar {
                line: line as nat,
                column: column as nat,
                message: message@,
            },
        }
    }
}

impl ErrorModel {
    /// The message of the error.
    pub open spec fn text(self) -> Seq<char> {
        match self {
            ErrorModel::Syntax { message, .. } => message,
            ErrorModel::InvalidNumber { literal, line, column, .. } => "invalid integer literal `"@
                + literal + "` at line "@ + nat_text(line) + ", column "@ + nat_text(column),
            ErrorModel::Io { .. } => "I/O error"@,
            ErrorModel::Grammar { line, column, message } =>
                "unexpected parse tree structure in "@ + message + " at line "@ + nat_text(line)
                + ", column "@ + nat_text(column),
        }
    }
}

fn append_position(s: &mut String, line: usize, column: usize)
    ensures
        final(s)@ == old(s)@ + " at line "@ + nat_text(line as nat) + ", column "@ + nat_text(
            column as nat,
        ),
{
    s.append(" at line ");
    s.append(usize_to_text(line).as_str());
    s.append(", column ");
    s.append(usize_to_text(column).as_str());
}

impl Error {
    /// The message of the error.
    pub fn to_text(&self) -> (s: String)
        ensures
            s@ == self@.text(),
    {
        match self {
            Error::Syntax { message, .. } => message.clone(),
            Error::InvalidNumber { literal, line, column, .. } => {
                let mut s = owned("invalid integer literal `");
                s.append(literal.as_str());
                s.append("` at line ");
                s.append(usize_to_text(*line).as_str());
                s.append(", column ");
                s.append(usize_to_text(*column).as_str());
                s
            },
            Error::Io { .. } => owned("I/O error"),
            Error::Grammar { line, column, message } => {
                let mut s = owned("unexpected parse tree structure in ");
                s.append(message.as_str());
                append_position(&mut s, *line, *column);
                s
            },
        }
    }
}

/// The result of a step: it fails exactly where there is a fault.
pub open spec fn answers<T>(r: Result<T, Error>, fault: Option<ErrorModel>) -> bool {
    match r {
        Ok(_) => fault is None,
        Err(e) => fault == Some(e@),
    }
}

/// Whether a character has the Unicode property `White_Space`.
pub open spec fn is_space(c: char) -> bool {
    ||| '\u{9}' <= c <= '\u{d}'
    ||| c == ' '
    ||| c == '\u{85}'
    ||| c == '\u{a0}'
    ||| c == '\u{1680}'
    ||| '\u{2000}' <= c <= '\u{200a}'
    ||| '\u{2028}' <= c <= '\u{2029}'
    ||| c == '\u{202f}'
    ||| c == '\u{205f}'
    ||| c == '\u{3000}'
}

/// Whether a character is white space.
fn char_is_space(c: char) -> (b: bool)
    ensures
        b == is_space(c),
{
    ('\u{9}' <= c && c <= '\u{d}') || c == ' ' || c == '\u{85}' || c == '\u{a0}' || c
        == '\u{1680}' || ('\u{2000}' <= c && c <= '\u{200a}') || ('\u{2028}' <= c && c
        <= '\u{2029}') || c == '\u{202f}' || c == '\u{205f}' || c == '\u{3000}'
}

/// Where the word that starts at `i` or before it ends.
pub open spec fn word_end(s: Seq<char>, i: nat) -> nat
    decreases s.len() - i,
{
    if i >= s.len() || is_space(s[i as int]) {
        i
    } else {
        word_end(s, i + 1)
    }
}

proof fn lemma_word_end(s: Seq<char>, i: nat)
    requires
        i <= s.len(),
    ensures
        i <= word_end(s, i) <= s.len(),
        i < s.len() && !is_space(s[i as int]) ==> i < word_end(s, i),
    decreases s.len() - i,
{
    if i < s.len() && !is_space(s[i as int]) {
        lemma_word_end(s, i + 1);
    }
}

/// The words of a text from position `i` on: the longest parts without white
/// space.
pub open spec fn words(s: Seq<char>, i: nat) -> Seq<Seq<char>>
    decreases s.len() - i,
    when i <= s.len()
    via words_end
{
    if i >= s.len() {
        Seq::empty()
    } else if is_space(s[i as int]) {
        words(s, i + 1)
    } else {
        seq![s.subrange(i as int, word_end(s, i) as int)] + words(s, word_end(s, i))
    }
}

#[via_fn]
proof fn words_end(s: Seq<char>, i: nat) {
    lemma_word_end(s, i);
}

/// The longest snippet in a message.
pub const MAX_CHARS: usize = 48;

/// A snippet of the source on one line: words with one blank between them,
/// cut off where they are too long.
pub open spec fn snippet_text(s: Seq<char>) -> Seq<char> {
    let line = join_text(words(s, 0), " "@);
    if line.len() == 0 {
        "<empty>"@
    } else if line.len() > MAX_CHARS {
        line.take(MAX_CHARS as int) + "..."@
    } else {
        line
    }
}

/// A snippet of the source on one line, to be shown in messages.
pub fn compact_snippet(snippet: &str) -> (s: String)
    ensures
        s@ == snippet_text(snippet@),
{
    let len: usize = snippet.unicode_len();
    let mut parts: Vec<String> = Vec::new();
    let mut i: usize = 0;
    proof {
        assert(texts(parts@) =~= Seq::empty());
        assert(Seq::empty() + words(snippet@, 0) =~= words(snippet@, 0));
    }
    while i < len
        invariant
            i <= len,
            len == snippet@.len(),
            words(snippet@, 0) == texts(parts@) + words(snippet@, i as nat),
        decreases len - i,
    {
        if char_is_space(snippet.get_char(i)) {
            i = i + 1;
        } else {
            let mut j: usize = i;
            while j < len && !char_is_space(snippet.get_char(j))
                invariant
                    i <= j <= len,
                    len == snippet@.len(),
                    word_end(snippet@, i as nat) == word_end(snippet@, j as nat),
                decreases len - j,
            {
                j = j + 1;
            }
            let ghost before = texts(parts@);
            let word = owned(snippet.substring_char(i, j));
            let ghost rest = words(snippet@, i as nat);
            proof {
                lemma_word_end(snippet@, i as nat);
                assert(rest == seq![word@] + words(snippet@, j as nat));
            }
            parts.push(word);
            proof {
                assert(texts(parts@) =~= before.push(word@));
                assert(before + rest =~= texts(parts@) + words(snippet@, j as nat));
            }
            i = j;
        }
    }
    proof {
        assert(texts(parts@) + Seq::empty() =~= texts(parts@));
    }
    let line = join_strings(&parts, " ");
    let n: usize = line.as_str().unicode_len();
    if n == 0 {
        return owned("<empty>");
    }
    if n > MAX_CHARS {
        let mut s = owned(line.as_str().substring_char(0, MAX_CHARS));
        proof {
            assert(line@.subrange(0, MAX_CHARS as int) =~= line@.take(MAX_CHARS as int));
        }
        s.append("...");
        s
    } else {
        line
    }
}

/// A tree does not have the expected structure at a node.
pub open spec fn grammar_fault(context: Seq<char>, n: Node) -> ErrorModel {
    ErrorModel::Grammar {
        line: n.line as nat,
        column: n.column as nat,
        message: context + " near `"@ + snippet_text(n.text@) + "`"@,
    }
}

/// The error for a tree that does not have the expected structure at a node.
pub fn grammar_error(context: &str, n: &Node) -> (e: Error)
    ensures
        e@ == grammar_fault(context@, *n),
{
    let mut message = owned(context);
    message.append(" near `");
    message.append(compact_snippet(n.text.as_str()).as_str());
    message.append("`");
    Error::Grammar { line: n.line, column: n.column, message }
}

/// The error for what has no position.
pub fn grammar_error_static(context: &str) -> (e: Error)
    ensures
        e@ == (ErrorModel::Grammar { line: 0, column: 0, message: context@ }),
{
    Error::Grammar { line: 0, column: 0, message: owned(context) }
}

/// A decimal digit.
pub open spec fn is_digit(c: char) -> bool {
    '0' <= c <= '9'
}

/// The value of the first `k` characters, as decimal digits.
pub open spec fn decimal(s: Seq<char>, k: nat) -> int
    decreases k,
{
    if k == 0 {
        0
    } else {
        decimal(s, (k - 1) as nat) * 10 + (s[k - 1] as int - '0' as int)
    }
}

/// The digits of a number, without its sign.
pub open spec fn unsigned_part(s: Seq<char>) -> Seq<char> {
    if s.len() > 0 && (s[0] == '-' || s[0] == '+') {
        s.skip(1)
    } else {
        s
    }
}

/// The 32-bit integer that a text stands for.
pub open spec fn number(s: Seq<char>) -> Option<int> {
    let digits = unsigned_part(s);
    let value = if s.len() > 0 && s[0] == '-' {
        -decimal(digits, digits.len())
    } else {
        decimal(digits, digits.len())
    };
    if digits.len() > 0 && (forall|i: int| 0 <= i < digits.len() ==> is_digit(#[trigger] digits[i]))
        && i32::MIN <= value <= i32::MAX {
        Some(value)
    } else {
        None
    }
}

/// The number with the given sign and magnitude is a 32-bit integer.
pub open spec fn in_range(negative: bool, magnitude: int) -> bool {
    magnitude <= if negative {
        0x8000_0000int
    } else {
        0x7fff_ffffint
    }
}

/// The first thing wrong with the digits of a number from position `k` on:
/// a character that is no digit, or one with which the number gets too large.
pub open spec fn first_fault(digits: Seq<char>, negative: bool, k: nat) -> Option<NumberFault>
    decreases digits.len() - k,
{
    if k >= digits.len() {
        None
    } else if !is_digit(digits[k as int]) {
        Some(NumberFault::InvalidDigit)
    } else if !in_range(negative, decimal(digits, k + 1)) {
        Some(
            if negative {
                NumberFault::NegOverflow
            } else {
                NumberFault::PosOverflow
            },
        )
    } else {
        first_fault(digits, negative, k + 1)
    }
}

/// Why a text does not stand for a 32-bit integer.
pub open spec fn number_fault(s: Seq<char>) -> Option<NumberFault> {
    let digits = unsigned_part(s);
    if s.len() == 0 {
        Some(NumberFault::Empty)
    } else if digits.len() == 0 {
        Some(NumberFault::InvalidDigit)
    } else {
        first_fault(digits, s[0] == '-', 0)
    }
}

proof fn lemma_decimal_grows(s: Seq<char>, k: nat, n: nat)
    requires
        k <= n,
        forall|i: int| 0 <= i < n ==> is_digit(#[trigger] s[i]),
    ensures
        0 <= decimal(s, k) <= decimal(s, n),
    decreases n,
{
    if k < n {
        lemma_decimal_grows(s, k, (n - 1) as nat);
        assert(is_digit(s[n - 1]));
    } else if n > 0 {
        lemma_decimal_grows(s, (n - 1) as nat, (n - 1) as nat);
        assert(is_digit(s[n - 1]));
    }
}

/// The value of a decimal digit.
fn digit_value(c: char) -> (v: i64)
    requires
        is_digit(c),
    ensures
        v == c as int - '0' as int,
        0 <= v <= 9,
{
    (c as u32 - '0' as u32) as i64
}

/// The 32-bit integer that a text stands for.
fn text_to_i32(s: &str) -> (r: Result<i32, NumberFault>)
    ensures
        match r {
            Ok(v) => number(s@) == Some(v as int) && number_fault(s@) is None,
            Err(f) => number(s@) is None && number_fault(s@) == Some(f),
        },
{
    let len: usize = s.unicode_len();
    let negative = len > 0 && s.get_char(0) == '-';
    let signed = negative || (len > 0 && s.get_char(0) == '+');
    let start: usize = if signed {
        1
    } else {
        0
    };
    let ghost digits = unsigned_part(s@);
    assert(digits.len() == len - start);
    if len == 0 {
        return Err(NumberFault::Empty);
    }
    if start == len {
        return Err(NumberFault::InvalidDigit);
    }
    let limit: i64 = if negative {
        0x8000_0000
    } else {
        0x7fff_ffff
    };
    let mut value: i64 = 0;
    let mut i: usize = start;
    while i < len
        invariant
            start <= i <= len,
            start < len,
            len == s@.len(),
            digits == unsigned_part(s@),
            digits.len() == len - start,
            forall|j: int| 0 <= j < digits.len() ==> digits[j] == s@[j + start],
            value == decimal(digits, (i - start) as nat),
            negative == (s@[0] == '-'),
            limit == if negative {
                0x8000_0000int
            } else {
                0x7fff_ffffint
            },
            0 <= value <= limit,
            number_fault(s@) == first_fault(digits, negative, (i - start) as nat),
            forall|j: int| 0 <= j < i - start ==> is_digit(#[trigger] digits[j]),
        decreases len - i,
    {
        let c = s.get_char(i);
        assert(digits[i - start] == c);
        if c < '0' || c > '9' {
            assert(!is_digit(digits[i - start]));
            return Err(NumberFault::InvalidDigit);
        }
        value = value * 10 + digit_value(c);
        i = i + 1;
        if value > limit {
            proof {
                if forall|j: int| 0 <= j < digits.len() ==> is_digit(#[trigger] digits[j]) {
                    lemma_decimal_grows(digits, (i - start) as nat, digits.len());
                }
            }
            return Err(
                if negative {
                    NumberFault::NegOverflow
                } else {
                    NumberFault::PosOverflow
                },
            );
        }
    }
    let signed_value: i64 = if negative {
        -value
    } else {
        value
    };
    Ok(signed_value as i32)
}

/// What is wrong with a number.
pub open spec fn num_error(n: Node) -> Option<ErrorModel> {
    match number_fault(n.text@) {
        None => None,
        Some(source) => Some(
            ErrorModel::InvalidNumber {
                literal: n.text@,
                line: n.line as nat,
                column: n.column as nat,
                source,
            },
        ),
    }
}

/// The value of an integer literal.
pub fn parse_num(n: &Node) -> (r: Result<i32, Error>)
    ensures
        answers(r, num_error(*n)),
        r matches Ok(v) ==> number(n.text@) == Some(v as int),
{
    match text_to_i32(n.text.as_str()) {
        Ok(v) => Ok(v),
        Err(source) => Err(
            Error::InvalidNumber {
                literal: n.text.clone(),
                line: n.line,
                column: n.column,
                source,
            },
        ),
    }
}

/// The first node from position `i` on that has one of the rules.
pub open spec fn first_of(nodes: Seq<Node>, rules: Seq<Rule>, i: nat) -> Option<nat>
    decreases nodes.len() - i,
{
    if i >= nodes.len() {
        None
    } else if rules.contains(nodes[i as int].rule) {
        Some(i)
    } else {
        first_of(nodes, rules, i + 1)
    }
}

/// The last of the first `k` nodes that has the rule.
pub open spec fn last_of(nodes: Seq<Node>, rule: Rule, k: nat) -> Option<nat>
    decreases k,
{
    if k == 0 {
        None
    } else if nodes[k - 1].rule == rule {
        Some((k - 1) as nat)
    } else {
        last_of(nodes, rule, (k - 1) as nat)
    }
}

/// The first node with one of the rules has one of the rules.
pub broadcast proof fn lemma_first_of(nodes: Seq<Node>, rules: Seq<Rule>, i: nat)
    ensures
        #[trigger] first_of(nodes, rules, i) matches Some(j) ==> i <= j < nodes.len()
            && rules.contains(nodes[j as int].rule),
    decreases nodes.len() - i,
{
    if i < nodes.len() && !rules.contains(nodes[i as int].rule) {
        lemma_first_of(nodes, rules, i + 1);
    }
}

/// The last node with the rule has the rule.
pub broadcast proof fn lemma_last_of(nodes: Seq<Node>, rule: Rule, k: nat)
    ensures
        #[trigger] last_of(nodes, rule, k) matches Some(j) ==> j < k && nodes[j as int].rule
            == rule,
    decreases k,
{
    if k > 0 && nodes[k - 1].rule != rule {
        lemma_last_of(nodes, rule, (k - 1) as nat);
    }
}

fn has_rule(rules: &Vec<Rule>, rule: Rule) -> (b: bool)
    ensures
        b == rules@.contains(rule),
{
    let mut i: usize = 0;
    while i < rules.len()
        invariant
            i <= rules.len(),
            forall|j: int| 0 <= j < i ==> rules@[j] != rule,
        decreases rules.len() - i,
    {
        if rules[i] == rule {
            return true;
        }
        i = i + 1;
    }
    false
}

/// The position of the first node that has one of the rules.
pub fn find_first(nodes: &Vec<Node>, rules: &Vec<Rule>) -> (r: Option<usize>)
    ensures
        match r {
            Some(i) => first_of(nodes@, rules@, 0) == Some(i as nat) && i < nodes.len()
                && rules@.contains(nodes@[i as int].rule),
            None => first_of(nodes@, rules@, 0) is None,
        },
{
    let mut i: usize = 0;
    while i < nodes.len()
        invariant
            i <= nodes.len(),
            first_of(nodes@, rules@, 0) == first_of(nodes@, rules@, i as nat),
        decreases nodes.len() - i,
    {
        if has_rule(rules, nodes[i].rule) {
            return Some(i);
        }
        i = i + 1;
    }
    None
}

/// The first node that has the rule.
pub open spec fn only(nodes: Seq<Node>, rule: Rule) -> Option<nat> {
    first_of(nodes, seq![rule], 0)
}

/// The position of the first node that has the rule.
pub fn find_one(nodes: &Vec<Node>, rule: Rule) -> (r: Option<usize>)
    ensures
        match r {
            Some(i) => only(nodes@, rule) == Some(i as nat) && i < nodes.len()
                && nodes@[i as int].rule == rule,
            None => only(nodes@, rule) is None,
        },
{
    let rules = vec![rule];
    assert(rules@ =~= seq![rule]);
    find_first(nodes, &rules)
}

/// The positions of the first `k` nodes that are no parentheses.
pub open spec fn inside(nodes: Seq<Node>, k: nat) -> Seq<nat>
    decreases k,
{
    if k == 0 {
        Seq::empty()
    } else if nodes[k - 1].rule == Rule::Lparen || nodes[k - 1].rule == Rule::Rparen {
        inside(nodes, (k - 1) as nat)
    } else {
        inside(nodes, (k - 1) as nat).push((k - 1) as nat)
    }
}

/// What is inside is among the nodes.
pub proof fn lemma_inside(nodes: Seq<Node>, k: nat)
    requires
        k <= nodes.len(),
    ensures
        inside(nodes, k).len() <= k,
        forall|i: int| 0 <= i < inside(nodes, k).len() ==> (#[trigger] inside(nodes, k)[i]) < k,
    decreases k,
{
    if k > 0 {
        lemma_inside(nodes, (k - 1) as nat);
    }
}

/// The positions of the nodes that are no parentheses.
pub fn without_parens(nodes: &Vec<Node>) -> (r: Vec<usize>)
    ensures
        r@.len() == inside(nodes@, nodes@.len()).len(),
        forall|i: int|
            0 <= i < r@.len() ==> (#[trigger] r@[i]) < nodes.len() && r@[i] == inside(
                nodes@,
                nodes@.len(),
            )[i],
{
    let mut r: Vec<usize> = Vec::new();
    let mut i: usize = 0;
    while i < nodes.len()
        invariant
            i <= nodes.len(),
            r@.len() == inside(nodes@, i as nat).len(),
            forall|j: int|
                0 <= j < r@.len() ==> (#[trigger] r@[j]) < nodes.len() && r@[j] == inside(
                    nodes@,
                    i as nat,
                )[j],
        decreases nodes.len() - i,
    {
        match nodes[i].rule {
            Rule::Lparen | Rule::Rparen => {},
            _ => {
                r.push(i);
            },
        }
        i = i + 1;
    }
    r
}

/// The type that a tree stands for, if it stands for one.
pub open spec fn type_of(n: Node) -> Option<TypeSpecifier>
    decreases n,
{
    match first_of(n.children@, seq![Rule::RefType, Rule::KwI32, Rule::Identifier], 0) {
        None => None,
        Some(i) => if i < n.children@.len() {
            let c = n.children@[i as int];
            match c.rule {
                Rule::RefType => match referenced(c) {
                    None => None,
                    Some(t) => Some(
                        TypeSpecifier {
                            pos: n.pos,
                            inner: TypeSpecifierInner::Reference(Box::new(t)),
                        },
                    ),
                },
                Rule::KwI32 => Some(
                    TypeSpecifier { pos: n.pos, inner: TypeSpecifierInner::BuiltIn(BuiltIn::Int) },
                ),
                _ => Some(
                    TypeSpecifier { pos: n.pos, inner: TypeSpecifierInner::Composite(c.text) },
                ),
            }
        } else {
            None
        },
    }
}

/// The type that a reference refers to.
pub open spec fn referenced(c: Node) -> Option<TypeSpecifier>
    decreases c,
{
    match first_of(c.children@, seq![Rule::TypeSpec], 0) {
        Some(j) => if j < c.children@.len() {
            type_of(c.children@[j as int])
        } else {
            None
        },
        None => None,
    }
}

/// The node is a minus sign and the least 32-bit integer.
pub open spec fn negates_least(n: Node) -> bool {
    let f = inside(n.children@, n.children@.len());
    &&& f.len() == 2
    &&& n.children@[f[0] as int].rule == Rule::OpSub
    &&& n.children@[f[1] as int].rule == Rule::Num
    &&& number(n.children@[f[1] as int].text@) == Some(i32::MIN as int)
}

/// The tree is one that the grammar can give: references refer to a type,
/// definitions start with a name, and no negated literal overflows.
pub open spec fn shaped(n: Node) -> bool
    decreases n,
{
    &&& n.rule == Rule::RefType ==> referenced(n) is Some
    &&& n.rule == Rule::VarDef ==> n.children@.len() > 0
    &&& !negates_least(n)
    &&& forall|i: int| 0 <= i < n.children@.len() ==> shaped(#[trigger] n.children@[i])
}

/// All trees are such as the grammar can give.
pub open spec fn all_shaped(nodes: Seq<Node>) -> bool {
    forall|i: int| 0 <= i < nodes.len() ==> shaped(#[trigger] nodes[i])
}

/// The type that a tree stands for, if it stands for one.
pub fn parse_type_spec(n: &Node) -> (r: Option<TypeSpecifier>)
    requires
        shaped(*n),
    ensures
        r == type_of(*n),
    decreases n,
{
    let rules = vec![Rule::RefType, Rule::KwI32, Rule::Identifier];
    assert(rules@ =~= seq![Rule::RefType, Rule::KwI32, Rule::Identifier]);
    match find_first(&n.children, &rules) {
        None => None,
        Some(i) => {
            let c = &n.children[i];
            assert(shaped(*c));
            match c.rule {
                Rule::RefType => {
                    let inner_rules = vec![Rule::TypeSpec];
                    assert(inner_rules@ =~= seq![Rule::TypeSpec]);
                    match find_first(&c.children, &inner_rules) {
                        Some(j) => {
                            assert(shaped(c.children@[j as int]));
                            match parse_type_spec(&c.children[j]) {
                                Some(t) => Some(
                                    TypeSpecifier {
                                        pos: n.pos,
                                        inner: TypeSpecifierInner::Reference(Box::new(t)),
                                    },
                                ),
                                None => None,
                            }
                        },
                        None => None,
                    }
                },
                Rule::KwI32 => Some(
                    TypeSpecifier { pos: n.pos, inner: TypeSpecifierInner::BuiltIn(BuiltIn::Int) },
                ),
                _ => Some(
                    TypeSpecifier {
                        pos: n.pos,
                        inner: TypeSpecifierInner::Composite(c.text.clone()),
                    },
                ),
            }
        },
    }
}

impl Node {
    /// Whether the tree is one that the grammar can give.
    pub fn is_shaped(&self) -> (b: bool)
        ensures
            b == shaped(*self),
        decreases self,
    {
        let c = &self.children;
        let f = without_parens(c);
        proof {
            lemma_inside(c@, c@.len());
            assert(f.len() > 0 ==> f@[0] < c.len());
            assert(f.len() > 1 ==> f@[1] < c.len());
        }
        if f.len() == 2 && c[f[0]].rule == Rule::OpSub && c[f[1]].rule == Rule::Num {
            match text_to_i32(c[f[1]].text.as_str()) {
                Ok(v) => {
                    if v == i32::MIN {
                        assert(negates_least(*self));
                        return false;
                    }
                },
                Err(_) => {},
            }
        }
        assert(!negates_least(*self));
        let mut i: usize = 0;
        while i < c.len()
            invariant
                i <= c.len(),
                *c == self.children,
                forall|j: int| 0 <= j < i ==> shaped(#[trigger] c@[j]),
            decreases c.len() - i,
        {
            if !c[i].is_shaped() {
                return false;
            }
            i = i + 1;
        }
        match self.rule {
            Rule::VarDef => c.len() > 0,
            Rule::RefType => match find_one(c, Rule::TypeSpec) {
                Some(j) => parse_type_spec(&c[j]).is_some(),
                None => false,
            },
            _ => true,
        }
    }
}

} // verus!
