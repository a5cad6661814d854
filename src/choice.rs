use vstd::prelude::*;

use crate::arith::{cube, cube_of, exact_factor, factor, square, square_of};
use crate::pattern::{copy_elems, ops_of, CustomPatternElem, Op, PatternElem, Relation};

verus! {

/// Whether `op` takes `x` to `y`, by the rules that build a choice set.
pub open spec fn admits<R: Relation>(op: Op<R>, x: i32, y: i32) -> bool {
    match op {
        Op::Const(v) => y == v,
        Op::Cube => cube(x as int) == y,
        Op::CubeRoot => cube(y as int) == x,
        Op::Custom(r, _) => r.holds(x, y),
        Op::Div(d) => factor(y as int, x as int) == Some(d),
        Op::Mult(m) => factor(x as int, y as int) == Some(m),
        Op::Plus(d) => y - x == d,
        Op::Square => square(x as int) == y,
        Op::SquareRoot => square(y as int) == x,
        Op::Meta(_) => false,
        Op::Mod(_) => false,
    }
}

/// `seq![op]` when `c` holds, else nothing.
pub open spec fn optional<R>(c: bool, op: Op<R>) -> Seq<Op<R>> {
    if c {
        seq![op]
    } else {
        Seq::empty()
    }
}

/// The custom relations of `rels` that hold from `x` to `y`, in order.
pub open spec fn custom_ops<R: Relation + Copy>(
    x: i32,
    y: i32,
    rels: Seq<CustomPatternElem<R>>,
) -> Seq<Op<R>>
    decreases rels.len(),
{
    if rels.len() == 0 {
        Seq::empty()
    } else {
        let c = rels.last();
        custom_ops(x, y, rels.drop_last()) + optional(
            c.relation().holds(x, y),
            Op::Custom(c.relation(), c.label()),
        )
    }
}

/// Whether `d` fits in an `i32`.
pub open spec fn fits(d: int) -> bool {
    -0x8000_0000 <= d <= 0x7fff_ffff
}

/// Every operation that takes `x` to `y`, each once, in the order in which operations sort.
pub open spec fn choice_ops<R: Relation + Copy>(
    x: i32,
    y: i32,
    rels: Seq<CustomPatternElem<R>>,
) -> Seq<Op<R>> {
    seq![Op::Const(y)] + optional(cube(x as int) == y, Op::Cube) + optional(cube(y as int) == x, Op::CubeRoot)
        + custom_ops(x, y, rels) + optional(
        factor(y as int, x as int) is Some,
        Op::Div(factor(y as int, x as int)->0),
    ) + optional(factor(x as int, y as int) is Some, Op::Mult(factor(x as int, y as int)->0))
        + optional(fits(y - x), Op::Plus((y - x) as i32)) + optional(square(x as int) == y, Op::Square)
        + optional(square(y as int) == x, Op::SquareRoot)
}

/// Every relation of `rels` can be evaluated.
pub open spec fn all_pure<R: Relation + Copy>(rels: Seq<CustomPatternElem<R>>) -> bool {
    forall|j: int| 0 <= j < rels.len() ==> (#[trigger] rels[j]).relation().is_pure()
}

/// Every custom operation in `ops` can be evaluated.
pub open spec fn customs_pure<R: Relation + Copy>(ops: Seq<Op<R>>) -> bool {
    forall|i: int| 0 <= i < ops.len() ==> (#[trigger] ops[i] matches Op::Custom(r, _) ==> r.is_pure())
}

/// Whether `e` takes `x` to `y`, by the rules that build a choice set.
pub fn admits_step<R: Relation + Copy>(e: &PatternElem<R>, x: i32, y: i32) -> (r: bool)
    requires
        e@ matches Op::Custom(rel, _) ==> rel.is_pure(),
    ensures
        r == admits(e@, x, y),
{
    match e {
        PatternElem::Const(v) => *v == y,
        PatternElem::Cube => cube_of(x) == y as i128,
        PatternElem::CubeRoot => cube_of(y) == x as i128,
        PatternElem::Custom(c) => c.check(x, y),
        PatternElem::Div(d) => match exact_factor(y, x) {
            Some(q) => q == *d,
            None => false,
        },
        PatternElem::Mult(m) => match exact_factor(x, y) {
            Some(q) => q == *m,
            None => false,
        },
        PatternElem::Plus(d) => y as i64 - x as i64 == *d as i64,
        PatternElem::Square => square_of(x) == y as i128,
        PatternElem::SquareRoot => square_of(y) == x as i128,
        PatternElem::Meta(_) => false,
        PatternElem::Mod(_) => false,
    }
}

/// A set of `PatternElem`s, the valid operations from one integer of a sequence to the next.
#[derive(Debug)]
pub struct PatternElemChoice<R> {
    pub from: i32,
    pub to: i32,
    pub elems: Vec<PatternElem<R>>,
}

/// Appends to `v` the custom relations of `pats` that hold from `x` to `y`.
fn push_customs<R: Relation + Copy>(
    v: &mut Vec<PatternElem<R>>,
    x: i32,
    y: i32,
    pats: &Vec<CustomPatternElem<R>>,
)
    requires
        all_pure(pats@),
        customs_pure(ops_of(old(v)@)),
    ensures
        ops_of(final(v)@) == ops_of(old(v)@) + custom_ops(x, y, pats@),
        customs_pure(ops_of(final(v)@)),
{
    let ghost head = ops_of(v@);
    let mut j: usize = 0;
    assert(head + custom_ops(x, y, pats@.take(0)) =~= head);
    while j < pats.len()
        invariant
            j <= pats@.len(),
            all_pure(pats@),
            ops_of(v@) == head + custom_ops(x, y, pats@.take(j as int)),
            customs_pure(ops_of(v@)),
        decreases pats@.len() - j,
    {
        let c = &pats[j];
        let ghost before = ops_of(v@);
        let ghost t = pats@.take(j + 1);
        assert(t.drop_last() =~= pats@.take(j as int));
        assert(t.last() == pats@[j as int]);
        assert(pats@[j as int].relation().is_pure());
        if c.check(x, y) {
            let e = PatternElem::Custom(c.copy());
            v.push(e);
            assert(ops_of(v@) =~= before.push(e@));
            assert(ops_of(v@) =~= head + custom_ops(x, y, t));
        } else {
            assert(ops_of(v@) =~= head + custom_ops(x, y, t));
        }
        j += 1;
    }
    assert(pats@.take(pats@.len() as int) =~= pats@);
}

impl<R: Relation + Copy> PatternElemChoice<R> {
    pub open spec fn view(&self) -> Seq<Op<R>> {
        ops_of(self.elems@)
    }

    /// A copy of the choice set.
    pub fn copy(&self) -> (r: Self)
        ensures
            r.from == self.from,
            r.to == self.to,
            r@ == self@,
    {
        PatternElemChoice { from: self.from, to: self.to, elems: copy_elems(&self.elems) }
    }

    /// The choice set of the step from `x` to `y`, with the custom relations `pats`.
    pub fn from_i32_pair(x: i32, y: i32, pats: Vec<CustomPatternElem<R>>) -> (r: Self)
        requires
            all_pure(pats@),
        ensures
            r.from == x,
            r.to == y,
            r@ == choice_ops(x, y, pats@),
            customs_pure(r@),
    {
        let mut v: Vec<PatternElem<R>> = Vec::new();
        v.push(PatternElem::Const(y));
        assert(ops_of(v@) =~= seq![Op::<R>::Const(y)]);
        push_if(&mut v, cube_of(x) == y as i128, PatternElem::Cube);
        push_if(&mut v, cube_of(y) == x as i128, PatternElem::CubeRoot);
        push_customs(&mut v, x, y, &pats);
        let d = exact_factor(y, x);
        let dq: i32 = match d {
            Some(q) => q,
            None => 0,
        };
        push_if(&mut v, d.is_some(), PatternElem::Div(dq));
        let m = exact_factor(x, y);
        let mq: i32 = match m {
            Some(q) => q,
            None => 0,
        };
        push_if(&mut v, m.is_some(), PatternElem::Mult(mq));
        let diff: i64 = y as i64 - x as i64;
        let fits_diff: bool = -0x8000_0000 <= diff && diff <= 0x7fff_ffff;
        let pd: i32 = if fits_diff { diff as i32 } else { 0 };
        push_if(&mut v, fits_diff, PatternElem::Plus(pd));
        push_if(&mut v, square_of(x) == y as i128, PatternElem::Square);
        push_if(&mut v, square_of(y) == x as i128, PatternElem::SquareRoot);
        PatternElemChoice { from: x, to: y, elems: v }
    }
}

/// Appends `e` to `v` when `c` holds.
fn push_if<R: Relation + Copy>(v: &mut Vec<PatternElem<R>>, c: bool, e: PatternElem<R>)
    requires
        customs_pure(ops_of(old(v)@)),
        !(e@ is Custom),
    ensures
        ops_of(final(v)@) == ops_of(old(v)@) + optional(c, e@),
        customs_pure(ops_of(final(v)@)),
{
    let ghost before = ops_of(v@);
    if c {
        v.push(e);
        assert(ops_of(v@) =~= before + optional(c, e@));
    } else {
        assert(ops_of(v@) =~= before + optional(c, e@));
    }
}

} // verus!
