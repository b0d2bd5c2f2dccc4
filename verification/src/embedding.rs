//! The embedding table.

use crate::layers;
use crate::layers::EMBEDDING_STD;
use crate::matrix;
use crate::params;
use crate::params::{Module, Param, ParamView};
use crate::text;
use vstd::prelude::*;
use vstd::slice::slice_subrange;

verus! {

/// One row of numbers per token.
#[derive(Debug)]
pub struct Embedding {
    /// `[vocabulary, width]`.
    pub table: Param,
}

/// Whether `t` is a table of this size.
pub open spec fn is_table(t: ParamView, vocab: usize, d: usize) -> bool {
    &&& t.wf()
    &&& t.shape == seq![vocab, d]
    &&& t.data.len() == vocab * d
}

/// A fresh table from the draws at `pos`.
pub open spec fn drawn_table(vocab: usize, d: usize, tape: Seq<u32>, pos: int) -> ParamView {
    params::fresh(
        matrix::times(tape.subrange(pos, pos + vocab * d), EMBEDDING_STD),
        seq![vocab, d],
    )
}

/// A table with more rows: the old ones as they are, the new ones from draws.
pub open spec fn grown(t: ParamView, vocab: usize, d: usize, draws: Seq<u32>) -> ParamView {
    params::fresh(t.data + matrix::times(draws, EMBEDDING_STD), seq![vocab, d])
}

impl Embedding {
    /// A fresh table, its rows normal with a spread of `0.02`.
    pub fn new(vocab_size: usize, d_model: usize, draws: &[u32]) -> (e: Self)
        requires
            draws@.len() == vocab_size * d_model,
        ensures
            e.table@ == params::fresh(
                matrix::times(draws@, EMBEDDING_STD),
                seq![vocab_size, d_model],
            ),
            is_table(e.table@, vocab_size, d_model),
    {
        proof {
            layers::matrix_elements(vocab_size, d_model);
        }
        let shape: Vec<usize> = vec![vocab_size, d_model];
        assert(shape@ =~= seq![vocab_size, d_model]);
        Embedding { table: Param::param(matrix::scale(draws, EMBEDDING_STD), shape) }
    }

    /// The rows of the given tokens.
    pub fn forward(&self, vocab: usize, d: usize, ids: &[usize]) -> (y: Vec<u32>)
        requires
            is_table(self.table@, vocab, d),
            forall|i: int| 0 <= i < ids@.len() ==> #[trigger] ids@[i] < vocab,
            ids@.len() * d <= usize::MAX,
        ensures
            y@ == matrix::picked(self.table@.data, d as int, ids@),
    {
        matrix::gather_rows(&self.table.data, vocab, d, ids)
    }

    /// Adds rows at the end. The rows there are stay as they are.
    pub fn grow(&mut self, old_vocab: usize, new_vocab: usize, d: usize, draws: &[u32])
        requires
            is_table(old(self).table@, old_vocab, d),
            old_vocab <= new_vocab,
            new_vocab * d <= usize::MAX,
            draws@.len() == (new_vocab - old_vocab) * d,
        ensures
            final(self).table@ == grown(old(self).table@, new_vocab, d, draws@),
            is_table(final(self).table@, new_vocab, d),
            forall|p: int|
                0 <= p < old_vocab * d ==> #[trigger] final(self).table@.data[p] == old(
                    self,
                ).table@.data[p],
    {
        let mut data: Vec<u32> = params::copied(&self.table.data);
        let mut more: Vec<u32> = matrix::scale(draws, EMBEDDING_STD);
        data.append(&mut more);
        proof {
            layers::matrix_elements(new_vocab, d);
            assert(old_vocab * d + (new_vocab - old_vocab) * d == new_vocab * d)
                by (nonlinear_arith);
        }
        let shape: Vec<usize> = vec![new_vocab, d];
        assert(shape@ =~= seq![new_vocab, d]);
        self.table = Param::param(data, shape);
    }

    /// The table with its name.
    pub fn named_parameters(&self, prefix: &str) -> (ps: Vec<(String, &Param)>)
        ensures
            params::listing(ps@) == seq![(prefix@ + ".table"@, self.table@)],
    {
        let ps: Vec<(String, &Param)> = vec![(text::joined(prefix, ".table"), &self.table)];
        assert(params::listing(ps@) =~= seq![(prefix@ + ".table"@, self.table@)]);
        ps
    }
}

/// Makes a table from the draws at `pos`.
pub fn draw_table(vocab: usize, d: usize, tape: &[u32], pos: usize) -> (e: Embedding)
    requires
        pos + vocab * d <= tape@.len(),
        tape@.len() <= usize::MAX,
    ensures
        e.table@ == drawn_table(vocab, d, tape@, pos as int),
        is_table(e.table@, vocab, d),
{
    assert(0 <= vocab * d) by (nonlinear_arith)
        requires
            vocab >= 0,
            d >= 0,
    ;
    let n: usize = vocab * d;
    Embedding::new(vocab, d, slice_subrange(tape, pos, pos + n))
}

impl Module for Embedding {
    open spec fn param_views(&self) -> Seq<ParamView> {
        seq![self.table@]
    }

    fn parameters(&self) -> (ps: Vec<&Param>) {
        let ps: Vec<&Param> = vec![&self.table];
        assert(params::views(ps@) =~= self.param_views());
        ps
    }

    fn zero_grad(&mut self)
        ensures
            final(self).table@ == old(self).table@.cleared(),
    {
        self.table.zero_grad();
        assert(self.param_views() =~= params::cleared(old(self).param_views()));
    }

    fn set_requires_grad(&mut self, on: bool)
        ensures
            final(self).table@ == old(self).table@.marked(on),
    {
        self.table.set_requires_grad(on);
        assert(self.param_views() =~= params::marked(old(self).param_views(), on));
    }
}

} // verus!
