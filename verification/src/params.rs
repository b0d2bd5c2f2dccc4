//! Parameters, the modules that hold them, and their names.

use vstd::prelude::*;

verus! {

/// A parameter tensor with its gradient. Numbers are single-precision bit patterns.
#[derive(Debug)]
pub struct Param {
    pub data: Vec<u32>,
    pub shape: Vec<usize>,
    /// Whether training changes it.
    pub requires_grad: bool,
    pub grad: Vec<u32>,
}

/// What a parameter holds.
#[verifier::ext_equal]
pub struct ParamView {
    pub data: Seq<u32>,
    pub shape: Seq<usize>,
    pub requires_grad: bool,
    pub grad: Seq<u32>,
}

/// The number of elements of a shape.
pub open spec fn elements(shape: Seq<usize>) -> int
    decreases shape.len(),
{
    if shape.len() == 0 {
        1
    } else {
        elements(shape.drop_last()) * shape.last()
    }
}

/// `n` zeros.
pub open spec fn zeros(n: nat) -> Seq<u32> {
    Seq::new(n, |i: int| 0u32)
}

impl ParamView {
    /// The data fills the shape, and the gradient has the same size.
    pub open spec fn wf(self) -> bool {
        &&& self.data.len() == elements(self.shape)
        &&& self.grad.len() == self.data.len()
    }

    /// The same parameter without its gradient.
    pub open spec fn cleared(self) -> ParamView {
        ParamView { grad: zeros(self.grad.len()), ..self }
    }

    /// The same parameter, trainable or not.
    pub open spec fn marked(self, requires_grad: bool) -> ParamView {
        ParamView { requires_grad, ..self }
    }
}

/// A fresh trainable parameter.
pub open spec fn fresh(data: Seq<u32>, shape: Seq<usize>) -> ParamView {
    ParamView { data, shape, requires_grad: true, grad: zeros(data.len()) }
}

impl View for Param {
    type V = ParamView;

    open spec fn view(&self) -> ParamView {
        ParamView {
            data: self.data@,
            shape: self.shape@,
            requires_grad: self.requires_grad,
            grad: self.grad@,
        }
    }
}

/// A vector of `n` zeros.
pub fn zero_vec(n: usize) -> (r: Vec<u32>)
    ensures
        r@ == zeros(n as nat),
{
    let mut r: Vec<u32> = Vec::new();
    for i in 0..n
        invariant
            r@ =~= zeros(i as nat),
    {
        r.push(0);
    }
    r
}

/// A copy of a slice.
pub fn copied<T: Copy>(x: &[T]) -> (r: Vec<T>)
    ensures
        r@ == x@,
{
    let mut r: Vec<T> = Vec::new();
    for i in 0..x.len()
        invariant
            r@ =~= x@.take(i as int),
    {
        r.push(x[i]);
    }
    assert(x@.take(x@.len() as int) =~= x@);
    r
}

impl Param {
    /// A trainable parameter with a zero gradient.
    pub fn param(data: Vec<u32>, shape: Vec<usize>) -> (p: Self)
        requires
            data@.len() == elements(shape@),
        ensures
            p@ == fresh(data@, shape@),
            p@.wf(),
    {
        let grad: Vec<u32> = zero_vec(data.len());
        Param { data, shape, requires_grad: true, grad }
    }

    /// The number of elements.
    pub fn numel(&self) -> (n: usize)
        ensures
            n == self@.data.len(),
    {
        self.data.len()
    }

    /// Clears the gradient.
    pub fn zero_grad(&mut self)
        ensures
            final(self)@ == old(self)@.cleared(),
    {
        self.grad = zero_vec(self.grad.len());
    }

    /// Freezes or unfreezes the parameter.
    pub fn set_requires_grad(&mut self, on: bool)
        ensures
            final(self)@ == old(self)@.marked(on),
    {
        self.requires_grad = on;
    }

    /// A copy of the parameter.
    pub fn copy(&self) -> (p: Self)
        ensures
            p@ == self@,
    {
        Param {
            data: copied(&self.data),
            shape: copied(&self.shape),
            requires_grad: self.requires_grad,
            grad: copied(&self.grad),
        }
    }
}

/// What a list of parameters holds.
pub open spec fn views(ps: Seq<&Param>) -> Seq<ParamView> {
    Seq::new(ps.len(), |i: int| ps[i]@)
}

/// What a list of owned parameters holds.
pub open spec fn held(ps: Seq<Param>) -> Seq<ParamView> {
    Seq::new(ps.len(), |i: int| ps[i]@)
}

/// Names and contents of a list of named parameters.
pub open spec fn listing(ps: Seq<(String, &Param)>) -> Seq<(Seq<char>, ParamView)> {
    Seq::new(ps.len(), |i: int| (ps[i].0@, ps[i].1@))
}

/// The contents of a listing.
pub open spec fn contents(ps: Seq<(Seq<char>, ParamView)>) -> Seq<ParamView> {
    Seq::new(ps.len(), |i: int| ps[i].1)
}

/// The trainable ones.
pub open spec fn trainable(ps: Seq<ParamView>) -> Seq<ParamView> {
    ps.filter(|p: ParamView| p.requires_grad)
}

/// All of them without gradients.
pub open spec fn cleared(ps: Seq<ParamView>) -> Seq<ParamView> {
    Seq::new(ps.len(), |i: int| ps[i].cleared())
}

/// All of them marked as trainable or frozen.
pub open spec fn marked(ps: Seq<ParamView>, on: bool) -> Seq<ParamView> {
    Seq::new(ps.len(), |i: int| ps[i].marked(on))
}

/// Anything with parameters.
pub trait Module {
    /// All parameters, in their fixed order.
    spec fn param_views(&self) -> Seq<ParamView>;

    /// All parameters, frozen ones included.
    fn parameters(&self) -> (ps: Vec<&Param>)
        ensures
            views(ps@) == self.param_views(),
    ;

    /// Clears all gradients.
    fn zero_grad(&mut self)
        ensures
            final(self).param_views() == cleared(old(self).param_views()),
    ;

    /// Marks all parameters as trainable or frozen.
    fn set_requires_grad(&mut self, on: bool)
        ensures
            final(self).param_views() == marked(old(self).param_views(), on),
    ;

    /// The parameters that training changes.
    fn trainable_parameters(&self) -> (ps: Vec<&Param>)
        ensures
            views(ps@) == trainable(self.param_views()),
    {
        let all: Vec<&Param> = self.parameters();
        let mut ps: Vec<&Param> = Vec::new();
        for i in 0..all.len()
            invariant
                views(all@) == self.param_views(),
                views(ps@) =~= trainable(views(all@).take(i as int)),
        {
            proof {
                let t = views(all@).take(i + 1);
                assert(t.drop_last() =~= views(all@).take(i as int));
                assert(t.last() == all@[i as int]@);
                reveal(Seq::filter);
            }
            let p: &Param = all[i];
            if p.requires_grad {
                ps.push(p);
            }
        }
        assert(views(all@).take(all@.len() as int) =~= views(all@));
        ps
    }
}

/// Clears the gradients of all parameters of a module.
pub fn zero_grad_all<M: Module>(module: &mut M)
    ensures
        final(module).param_views() == cleared(old(module).param_views()),
{
    module.zero_grad();
}

/// A frozen module has no trainable parameters, and an unfrozen one no others.
pub proof fn marking_decides_what_trains(ps: Seq<ParamView>)
    ensures
        trainable(marked(ps, false)) == Seq::<ParamView>::empty(),
        trainable(marked(ps, true)) == marked(ps, true),
    decreases ps.len(),
{
    reveal(Seq::filter);
    if ps.len() > 0 {
        marking_decides_what_trains(ps.drop_last());
        assert(marked(ps, false).drop_last() =~= marked(ps.drop_last(), false));
        assert(marked(ps, true).drop_last() =~= marked(ps.drop_last(), true));
        assert(trainable(marked(ps, true)) =~= marked(ps, true));
    } else {
        assert(marked(ps, true) =~= Seq::empty());
        assert(marked(ps, false) =~= Seq::empty());
    }
}

/// The trainable parameters of two lists, one after the other.
pub proof fn trainable_of_concat(a: Seq<ParamView>, b: Seq<ParamView>)
    ensures
        trainable(a + b) == trainable(a) + trainable(b),
    decreases b.len(),
{
    reveal(Seq::filter);
    if b.len() > 0 {
        trainable_of_concat(a, b.drop_last());
        assert((a + b).drop_last() =~= a + b.drop_last());
        assert(trainable(a + b) =~= trainable(a) + trainable(b));
    } else {
        assert(a + b =~= a);
        assert(trainable(a) + trainable(b) =~= trainable(a));
    }
}

/// What two lists hold, one after the other.
pub proof fn views_of_concat(a: Seq<&Param>, b: Seq<&Param>)
    ensures
        views(a + b) == views(a) + views(b),
{
    assert(views(a + b) =~= views(a) + views(b));
}

/// Names and contents of two lists, one after the other.
pub proof fn listing_of_concat(a: Seq<(String, &Param)>, b: Seq<(String, &Param)>)
    ensures
        listing(a + b) == listing(a) + listing(b),
{
    assert(listing(a + b) =~= listing(a) + listing(b));
}

/// The contents of two listings, one after the other.
pub proof fn contents_of_concat(
    a: Seq<(Seq<char>, ParamView)>,
    b: Seq<(Seq<char>, ParamView)>,
)
    ensures
        contents(a + b) == contents(a) + contents(b),
{
    assert(contents(a + b) =~= contents(a) + contents(b));
}

/// Clearing and marking two lists, one after the other.
pub proof fn changes_of_concat(a: Seq<ParamView>, b: Seq<ParamView>, on: bool)
    ensures
        cleared(a + b) == cleared(a) + cleared(b),
        marked(a + b, on) == marked(a, on) + marked(b, on),
{
    assert(cleared(a + b) =~= cleared(a) + cleared(b));
    assert(marked(a + b, on) =~= marked(a, on) + marked(b, on));
}

/// Adds the named parameters of `more`.
pub fn extend_named<'a>(ps: &mut Vec<(String, &'a Param)>, more: Vec<(String, &'a Param)>)
    ensures
        listing(final(ps)@) == listing(old(ps)@) + listing(more@),
{
    let mut more: Vec<(String, &'a Param)> = more;
    proof {
        listing_of_concat(ps@, more@);
    }
    ps.append(&mut more);
}

/// Adds the parameters of `more`.
pub fn extend_params<'a>(ps: &mut Vec<&'a Param>, more: Vec<&'a Param>)
    ensures
        views(final(ps)@) == views(old(ps)@) + views(more@),
{
    let mut more: Vec<&'a Param> = more;
    proof {
        views_of_concat(ps@, more@);
    }
    ps.append(&mut more);
}

} // verus!
