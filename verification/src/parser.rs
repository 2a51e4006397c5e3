//! The parser: from parse trees to syntax trees.

pub mod common;
pub mod decl;
pub mod digits;
pub mod expr;
pub mod reading;
pub mod reading_stmts;
pub mod stmt;

use crate::ast::program::{Program, ProgramElement, UseStmt};
use crate::common::generator::Generator;
use common::{
    all_shaped, answers, grammar_error_static, shaped, Error, ErrorModel, Node, Rule, Source,
};
use decl::{
    element_error, element_is, element_part, parse_program_element, parse_use_stmt, use_is,
};
use vstd::prelude::*;
use vstd::string::*;

verus! {

/// What is wrong with the parts of a program from position `i` on.
pub open spec fn parts_error(nodes: Seq<Node>, i: nat) -> Option<ErrorModel>
    decreases nodes.len() - i,
{
    if i >= nodes.len() {
        None
    } else if nodes[i as int].rule == Rule::ProgramElement {
        match element_error(nodes[i as int]) {
            Some(e) => Some(e),
            None => parts_error(nodes, i + 1),
        }
    } else {
        parts_error(nodes, i + 1)
    }
}

/// What is wrong with the programs among the trees from position `i` on.
pub open spec fn program_error(nodes: Seq<Node>, i: nat) -> Option<ErrorModel>
    decreases nodes.len() - i,
{
    if i >= nodes.len() {
        None
    } else if nodes[i as int].rule == Rule::Program {
        match parts_error(nodes[i as int].children@, 0) {
            Some(e) => Some(e),
            None => program_error(nodes, i + 1),
        }
    } else {
        program_error(nodes, i + 1)
    }
}

/// What is wrong with a source text.
pub open spec fn source_error(source: Source) -> Option<ErrorModel> {
    match source {
        Source::Rejected { line, column, message } => Some(
            ErrorModel::Syntax { line: line as nat, column: column as nat, message: message@ },
        ),
        Source::Matched(nodes) => program_error(nodes@, 0),
    }
}

/// The imports and elements of the first `k` parts.
pub open spec fn parts_are(
    nodes: Seq<Node>,
    k: nat,
    uses: Seq<UseStmt>,
    elements: Seq<ProgramElement>,
) -> bool
    decreases k,
{
    if k == 0 {
        uses.len() == 0 && elements.len() == 0
    } else {
        let c = nodes[k - 1];
        if c.rule == Rule::UseStmt {
            &&& uses.len() > 0
            &&& use_is(c, uses.last())
            &&& parts_are(nodes, (k - 1) as nat, uses.drop_last(), elements)
        } else if c.rule == Rule::ProgramElement && element_part(c) is Some {
            &&& elements.len() > 0
            &&& element_is(c, elements.last())
            &&& parts_are(nodes, (k - 1) as nat, uses, elements.drop_last())
        } else {
            parts_are(nodes, (k - 1) as nat, uses, elements)
        }
    }
}

/// The parts of the programs among the first `k` trees.
pub open spec fn program_parts(nodes: Seq<Node>, k: nat) -> Seq<Node>
    decreases k,
{
    if k == 0 {
        Seq::empty()
    } else if nodes[k - 1].rule == Rule::Program {
        program_parts(nodes, (k - 1) as nat) + nodes[k - 1].children@
    } else {
        program_parts(nodes, (k - 1) as nat)
    }
}

proof fn lemma_parts_prefix(
    a: Seq<Node>,
    b: Seq<Node>,
    k: nat,
    uses: Seq<UseStmt>,
    elements: Seq<ProgramElement>,
)
    requires
        forall|i: int| 0 <= i < k ==> a[i] == b[i],
    ensures
        parts_are(a, k, uses, elements) == parts_are(b, k, uses, elements),
    decreases k,
{
    if k > 0 {
        assert(a[k - 1] == b[k - 1]);
        lemma_parts_prefix(a, b, (k - 1) as nat, uses.drop_last(), elements);
        lemma_parts_prefix(a, b, (k - 1) as nat, uses, elements.drop_last());
        lemma_parts_prefix(a, b, (k - 1) as nat, uses, elements);
    }
}

/// The program that a source text stands for.
pub open spec fn source_is(source: Source, p: Program) -> bool {
    match source {
        Source::Rejected { .. } => false,
        Source::Matched(nodes) => {
            let parts = program_parts(nodes@, nodes@.len());
            parts_are(parts, parts.len(), p.use_stmts@, p.elements@)
        },
    }
}

/// The trees of a source text are such as the grammar can give.
pub open spec fn source_shaped(source: Source) -> bool {
    source matches Source::Matched(nodes) ==> all_shaped(nodes@)
}

/// Adds the imports and elements of a program to those of the parts that came
/// before.
fn parse_parts(
    n: &Node,
    uses: &mut Vec<UseStmt>,
    elements: &mut Vec<ProgramElement>,
    Ghost(before): Ghost<Seq<Node>>,
) -> (r: Result<(), Error>)
    requires
        shaped(*n),
        parts_are(before, before.len(), old(uses)@, old(elements)@),
    ensures
        answers(r, parts_error(n.children@, 0)),
        r is Ok ==> parts_are(
            before + n.children@,
            (before + n.children@).len(),
            final(uses)@,
            final(elements)@,
        ),
{
    let c = &n.children;
    let ghost all = before + c@;
    let mut i: usize = 0;
    proof {
        lemma_parts_prefix(before, all, before.len(), uses@, elements@);
    }
    while i < c.len()
        invariant
            i <= c.len(),
            *c == n.children,
            shaped(*n),
            all == before + c@,
            parts_error(c@, 0) == parts_error(c@, i as nat),
            parts_are(all, before.len() + i as nat, uses@, elements@),
        decreases c.len() - i,
    {
        assert(all[before.len() + i] == c@[i as int]);
        match c[i].rule {
            Rule::UseStmt => {
                let ghost front = uses@;
                uses.push(parse_use_stmt(&c[i]));
                assert(uses@.drop_last() =~= front);
            },
            Rule::ProgramElement => {
                assert(shaped(c@[i as int]));
                match parse_program_element(&c[i]) {
                    Ok(Some(e)) => {
                        let ghost front = elements@;
                        elements.push(*e);
                        assert(elements@.drop_last() =~= front);
                    },
                    Ok(None) => {},
                    Err(e) => {
                        return Err(e);
                    },
                }
            },
            _ => {},
        }
        i = i + 1;
    }
    Ok(())
}

/// The program that a source text stands for.
fn parse(source: &Source) -> (r: Result<Box<Program>, Error>)
    requires
        source_shaped(*source),
    ensures
        answers(r, source_error(*source)),
        r matches Ok(p) ==> source_is(*source, *p),
{
    let nodes = match source {
        Source::Rejected { line, column, message } => {
            return Err(
                Error::Syntax { line: *line, column: *column, message: message.clone() },
            );
        },
        Source::Matched(nodes) => nodes,
    };
    let mut use_stmts: Vec<UseStmt> = Vec::new();
    let mut elements: Vec<ProgramElement> = Vec::new();
    let mut i: usize = 0;
    while i < nodes.len()
        invariant
            i <= nodes.len(),
            *source == Source::Matched(*nodes),
            all_shaped(nodes@),
            program_error(nodes@, 0) == program_error(nodes@, i as nat),
            parts_are(
                program_parts(nodes@, i as nat),
                program_parts(nodes@, i as nat).len(),
                use_stmts@,
                elements@,
            ),
        decreases nodes.len() - i,
    {
        match nodes[i].rule {
            Rule::Program => {
                assert(shaped(nodes@[i as int]));
                match parse_parts(
                    &nodes[i],
                    &mut use_stmts,
                    &mut elements,
                    Ghost(program_parts(nodes@, i as nat)),
                ) {
                    Ok(_) => {},
                    Err(e) => {
                        return Err(e);
                    },
                }
            },
            _ => {},
        }
        i = i + 1;
    }
    Ok(Box::new(Program { use_stmts, elements }))
}

/// Turns a source text into a program.
pub struct Parser<'a> {
    /// What the grammar made of the source text.
    pub input: &'a Source,
    /// The program, once it has been found.
    pub program: Option<Box<Program>>,
}

impl<'a> Parser<'a> {
    /// A parser that has not parsed yet.
    pub fn new(input: &'a Source) -> (p: Self)
        ensures
            *p.input == *input,
            p.program is None,
    {
        Parser { input, program: None }
    }
}

impl<'a> Generator for Parser<'a> {
    type Error = Error;

    open spec fn ready(&self) -> bool {
        source_shaped(*self.input)
    }

    open spec fn generates(&self, after: &Self, r: Result<(), Error>) -> bool {
        &&& after.input == self.input
        &&& answers(r, source_error(*self.input))
        &&& match r {
            Ok(_) => after.program matches Some(p) && source_is(*self.input, *p),
            Err(_) => after.program == self.program,
        }
    }

    open spec fn printable(&self) -> bool {
        true
    }

    open spec fn printed(&self) -> (Seq<char>, bool) {
        match self.program {
            Some(p) => (p.tree(Seq::<bool>::empty(), true), true),
            None => (Seq::empty(), false),
        }
    }

    /// Finds the program.
    fn generate(&mut self) -> (r: Result<(), Error>) {
        match parse(self.input) {
            Ok(p) => {
                self.program = Some(p);
                Ok(())
            },
            Err(e) => Err(e),
        }
    }

    /// Prints the program behind what `out` holds.
    fn output(&self, out: &mut String) -> (r: Result<(), Error>)
        ensures
            r matches Err(e) ==> e@ == (ErrorModel::Grammar {
                line: 0,
                column: 0,
                message: "output before generate"@,
            }),
    {
        match &self.program {
            Some(p) => {
                out.append(p.to_text().as_str());
                Ok(())
            },
            None => {
                assert(out@ + Seq::<char>::empty() =~= out@);
                Err(grammar_error_static("output before generate"))
            },
        }
    }
}

} // verus!
