//! The expression tree: primitives, higher-order operators and compositions.

use vstd::prelude::*;

verus! {

/// A primitive: one letter that maps a value to a value.
#[derive(Clone, Copy, Debug, PartialEq, Eq, Structural)]
pub enum BasicFunc {
    Head,
    Tail,
    Sum,
    Product,
    PowerSet,
    Length,
    Negate,
    Equal,
    Combine,
    AllPair,
}

/// An operator that takes one body.
#[derive(Clone, Copy, Debug, PartialEq, Eq, Structural)]
pub enum HigherFunc {
    MapEach,
    Filter,
    Order,
    FixedPoint,
    Inverse,
    Repeat,
}

/// An operator that takes two bodies.
#[derive(Clone, Copy, Debug, PartialEq, Eq, Structural)]
pub enum DoubleFunc {
    While,
    Bifurcate,
}

/// An expression: a primitive, an operator with its bodies, or a
/// composition whose last element is applied first.
#[derive(Debug, PartialEq, Eq)]
pub enum Func {
    Basic(BasicFunc),
    Higher(HigherFunc, Box<Func>),
    Double(DoubleFunc, Box<Func>, Box<Func>),
    Bound(Vec<Func>),
}

/// The mathematical model of an expression.
pub enum FuncM {
    Basic(BasicFunc),
    Higher(HigherFunc, Box<FuncM>),
    Double(DoubleFunc, Box<FuncM>, Box<FuncM>),
    Bound(Seq<FuncM>),
}

/// The model of an expression.
pub open spec fn func_model(f: Func) -> FuncM
    decreases f,
{
    match f {
        Func::Basic(p) => FuncM::Basic(p),
        Func::Higher(h, b) => FuncM::Higher(h, Box::new(func_model(*b))),
        Func::Double(d, l, r) => FuncM::Double(d, Box::new(func_model(*l)), Box::new(func_model(*r))),
        Func::Bound(fs) => FuncM::Bound(
            Seq::new(fs.len() as nat, |k: int| if 0 <= k < fs.len() { func_model(fs[k]) } else { FuncM::Bound(Seq::empty()) }),
        ),
    }
}

impl View for Func {
    type V = FuncM;

    open spec fn view(&self) -> FuncM {
        func_model(*self)
    }
}

/// The models of a run of expressions.
pub open spec fn func_views(s: Seq<Func>) -> Seq<FuncM> {
    Seq::new(s.len(), |i: int| s[i]@)
}

/// The empty composition, which leaves its argument as it is.
pub open spec fn identity() -> FuncM {
    FuncM::Bound(Seq::empty())
}

pub proof fn lemma_bound_view(fs: Vec<Func>)
    ensures
        Func::Bound(fs)@ == FuncM::Bound(func_views(fs@)),
{
    assert(func_model(Func::Bound(fs))->Bound_0 =~= func_views(fs@));
}

impl Func {
    /// A composition of the given expressions.
    pub fn bound(fs: Vec<Func>) -> (r: Func)
        ensures
            r@ == FuncM::Bound(func_views(fs@)),
    {
        proof {
            lemma_bound_view(fs);
        }
        Func::Bound(fs)
    }

    /// The empty composition.
    pub fn empty() -> (r: Func)
        ensures
            r@ == identity(),
    {
        let r = Func::bound(Vec::new());
        assert(func_views(Seq::<Func>::empty()) =~= Seq::<FuncM>::empty());
        r
    }
}

} // verus!
