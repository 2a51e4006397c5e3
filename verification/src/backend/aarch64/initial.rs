//! What memory holds where a global begins.

use super::entry::{initial_data, initial_words};
use super::lines::{global_lines, word_lines, AsmLine};
use super::{GlobalDataModel, GlobalModel};
use crate::backend::common::layout::{size_align, LayoutModel};
use crate::backend::error::ErrorModel;
use crate::ir::value::GlobalDefModel;
use vstd::prelude::*;

verus! {

/// The words of memory that lines lay out.
pub open spec fn laid_out(lines: Seq<AsmLine>) -> Seq<int>
    decreases lines.len(),
{
    if lines.len() == 0 {
        Seq::empty()
    } else {
        laid_out(lines.drop_last()) + match lines.last() {
            AsmLine::Word(v) => seq![v],
            AsmLine::Zero(bytes) => Seq::new((bytes / 4) as nat, |i: int| 0),
            _ => Seq::empty(),
        }
    }
}

/// The words that a global is given, and zeros up to its size.
pub open spec fn wanted(def: GlobalDefModel, size: int) -> Seq<int> {
    Seq::new(
        (size / 4) as nat,
        |i: int|
            match def.initializers {
                Some(vals) => if i < vals.len() {
                    vals[i] as int
                } else {
                    0
                },
                None => 0,
            },
    )
}

proof fn lemma_laid_push(lines: Seq<AsmLine>, line: AsmLine)
    ensures
        laid_out(lines.push(line)) == laid_out(lines) + match line {
            AsmLine::Word(v) => seq![v],
            AsmLine::Zero(bytes) => Seq::new((bytes / 4) as nat, |i: int| 0),
            _ => Seq::empty(),
        },
{
    assert(lines.push(line).drop_last() =~= lines);
}

proof fn lemma_laid_words(front: Seq<AsmLine>, words: Seq<i64>)
    ensures
        laid_out(front + word_lines(words)) == laid_out(front) + Seq::new(
            words.len(),
            |i: int| words[i] as int,
        ),
    decreases words.len(),
{
    let all = front + word_lines(words);
    if words.len() == 0 {
        assert(all =~= front);
        assert(laid_out(front) + Seq::new(words.len(), |i: int| words[i] as int) =~= laid_out(front));
    } else {
        lemma_laid_words(front, words.drop_last());
        assert(all.drop_last() =~= front + word_lines(words.drop_last()));
        assert(laid_out(front) + Seq::new(words.len(), |i: int| words[i] as int) =~= (laid_out(front)
            + Seq::new(words.drop_last().len(), |i: int| words.drop_last()[i] as int)) + seq![
            words.last() as int,
        ]);
    }
}

/// The memory of a global has the size of its type and begins with its initial
/// values; the rest is zero.
pub proof fn lemma_global_laid_out(
    g: GlobalModel,
    def: GlobalDefModel,
    layouts: Map<Seq<char>, LayoutModel>,
)
    requires
        initial_data(def, layouts) == Ok::<GlobalDataModel, ErrorModel>(
            g.data,
        ),
        size_align(def.dtype, layouts) matches Ok((size, _)) && size % 4 == 0 && size >= 4
            * initial_words(def).len(),
    ensures
        laid_out(global_lines(g)) == wanted(def, size_align(def.dtype, layouts)->Ok_0.0),
{
    let size = size_align(def.dtype, layouts)->Ok_0.0;
    let head = seq![AsmLine::Globl(g.symbol)].push(AsmLine::Align(2)).push(
        AsmLine::Label(g.symbol),
    );
    let none = Seq::<AsmLine>::empty();
    lemma_laid_push(none, AsmLine::Globl(g.symbol));
    assert(none.push(AsmLine::Globl(g.symbol)) =~= seq![AsmLine::Globl(g.symbol)]);
    lemma_laid_push(seq![AsmLine::Globl(g.symbol)], AsmLine::Align(2));
    lemma_laid_push(
        seq![AsmLine::Globl(g.symbol)].push(AsmLine::Align(2)),
        AsmLine::Label(g.symbol),
    );
    assert(laid_out(head) =~= Seq::empty());
    let words = initial_words(def);
    match g.data {
        GlobalDataModel::Word { value } => {
            assert(head + seq![AsmLine::Word(value)] =~= head.push(AsmLine::Word(value)));
            lemma_laid_push(head, AsmLine::Word(value));
            assert(laid_out(global_lines(g)) =~= seq![value]);
            assert(size == 4);
            assert(wanted(def, size) =~= seq![value]);
        },
        GlobalDataModel::Array { words: w, zero_bytes } => {
            lemma_laid_words(head, w);
            if zero_bytes > 0 {
                assert(head + word_lines(w).push(AsmLine::Zero(zero_bytes)) =~= (head + word_lines(
                    w,
                )).push(AsmLine::Zero(zero_bytes)));
                lemma_laid_push(head + word_lines(w), AsmLine::Zero(zero_bytes));
            }
            assert(laid_out(global_lines(g)) =~= wanted(def, size));
        },
    }
}

} // verus!
