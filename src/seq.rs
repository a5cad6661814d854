use vstd::prelude::*;

use crate::pattern::{NoRelation, Op, PatternElem};
use crate::render::{op_text, ops_text};

verus! {

/// Operations from one integer to another, without custom relations or nesting, listed in the
/// order in which they sort.
#[derive(Clone, Copy, Debug, PartialEq, Eq, Hash, PartialOrd, Ord)]
pub enum SeqElem {
    Const(i32),
    Cube,
    CubeRoot,
    Div(i32),
    Mod(i32),
    Mult(i32),
    Plus(i32),
    Square,
    SquareRoot,
}

impl SeqElem {
    pub open spec fn view(&self) -> Op<NoRelation> {
        match *self {
            SeqElem::Const(v) => Op::Const(v),
            SeqElem::Cube => Op::Cube,
            SeqElem::CubeRoot => Op::CubeRoot,
            SeqElem::Div(v) => Op::Div(v),
            SeqElem::Mod(v) => Op::Mod(v),
            SeqElem::Mult(v) => Op::Mult(v),
            SeqElem::Plus(v) => Op::Plus(v),
            SeqElem::Square => Op::Square,
            SeqElem::SquareRoot => Op::SquareRoot,
        }
    }

    /// The same operation as a pattern element.
    pub fn to_pattern_elem(&self) -> (r: PatternElem<NoRelation>)
        ensures
            r@ == self@,
    {
        match *self {
            SeqElem::Const(v) => PatternElem::Const(v),
            SeqElem::Cube => PatternElem::Cube,
            SeqElem::CubeRoot => PatternElem::CubeRoot,
            SeqElem::Div(v) => PatternElem::Div(v),
            SeqElem::Mod(v) => PatternElem::Mod(v),
            SeqElem::Mult(v) => PatternElem::Mult(v),
            SeqElem::Plus(v) => PatternElem::Plus(v),
            SeqElem::Square => PatternElem::Square,
            SeqElem::SquareRoot => PatternElem::SquareRoot,
        }
    }

    /// The text of the operation, as a pattern element renders it.
    pub fn render(&self) -> (r: String)
        ensures
            r@ == op_text(self@),
    {
        self.to_pattern_elem().render()
    }
}

/// A sequence of operations defining a pattern.
#[derive(Clone, Debug, PartialEq, Eq, PartialOrd, Ord)]
pub struct OpSequence(pub Vec<SeqElem>);

impl OpSequence {
    pub open spec fn view(&self) -> Seq<Op<NoRelation>> {
        Seq::new(self.0@.len(), |i: int| self.0@[i]@)
    }

    /// Constructs a new sequence given a vector of operations.
    pub fn new(elems: Vec<SeqElem>) -> (r: Self)
        ensures
            r.0@ == elems@,
    {
        OpSequence(elems)
    }

    /// Constructs a new empty sequence.
    pub fn empty() -> (r: Self)
        ensures
            r@ == Seq::<Op<NoRelation>>::empty(),
    {
        let r = OpSequence(Vec::new());
        assert(r@ =~= Seq::<Op<NoRelation>>::empty());
        r
    }

    /// Appends each of `elems` to the sequence separately, giving one sequence per element.
    pub fn extend_each(&self, elems: &Vec<SeqElem>) -> (r: Vec<Self>)
        ensures
            r@.len() == elems@.len(),
            forall|i: int| 0 <= i < elems@.len() ==> (#[trigger] r@[i]).0@ == self.0@.push(elems@[i]),
    {
        let mut r: Vec<Self> = Vec::new();
        let mut i: usize = 0;
        while i < elems.len()
            invariant
                i <= elems@.len(),
                r@.len() == i,
                forall|j: int| 0 <= j < i ==> (#[trigger] r@[j]).0@ == self.0@.push(elems@[j]),
            decreases elems@.len() - i,
        {
            let mut v: Vec<SeqElem> = Vec::new();
            let mut k: usize = 0;
            while k < self.0.len()
                invariant
                    k <= self.0@.len(),
                    v@ == self.0@.take(k as int),
                decreases self.0@.len() - k,
            {
                v.push(self.0[k]);
                k += 1;
                assert(v@ =~= self.0@.take(k as int));
            }
            v.push(elems[i]);
            assert(v@ =~= self.0@.push(elems@[i as int]));
            r.push(OpSequence(v));
            i += 1;
        }
        r
    }

    /// The texts of the operations, separated by `", "`.
    pub fn render(&self) -> (r: String)
        ensures
            r@ == ops_text(self@),
    {
        let mut v: Vec<PatternElem<NoRelation>> = Vec::new();
        let mut k: usize = 0;
        while k < self.0.len()
            invariant
                k <= self.0@.len(),
                v@.len() == k,
                forall|j: int| 0 <= j < k ==> (#[trigger] v@[j])@ == self.0@[j]@,
            decreases self.0@.len() - k,
        {
            v.push(self.0[k].to_pattern_elem());
            k += 1;
        }
        let p = crate::pattern::Pattern::new(v);
        assert(p@ =~= self@);
        p.render()
    }
}

} // verus!
