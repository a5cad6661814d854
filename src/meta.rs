use vstd::prelude::*;

use crate::analyzer::{common_ops, pairs_of, Analyzer};
use crate::choice::PatternElemChoice;
use crate::pattern::{
    extend_patterns, product, views, Op, Pattern, PatternElem, Relation,
};
use crate::repeat::{divides, is_repeating_with_predicate, matched};

verus! {

/// The place of an operation's kind in the order in which operations sort.
pub open spec fn kind<R>(op: Op<R>) -> int {
    match op {
        Op::Const(_) => 0,
        Op::Cube => 1,
        Op::CubeRoot => 2,
        Op::Custom(_, _) => 3,
        Op::Div(_) => 4,
        Op::Meta(_) => 5,
        Op::Mod(_) => 6,
        Op::Mult(_) => 7,
        Op::Plus(_) => 8,
        Op::Square => 9,
        Op::SquareRoot => 10,
    }
}

/// The operations that act by an operand on the value they receive.
pub open spec fn has_operand<R>(op: Op<R>) -> bool {
    op is Div || op is Mod || op is Mult || op is Plus
}

pub open spec fn operand<R>(op: Op<R>) -> i32 {
    match op {
        Op::Div(v) => v,
        Op::Mod(v) => v,
        Op::Mult(v) => v,
        Op::Plus(v) => v,
        _ => 0,
    }
}

pub open spec fn operands<R>(sub: Seq<Op<R>>) -> Seq<i32> {
    Seq::new(sub.len(), |i: int| operand(sub[i]))
}

/// Element `i` of `sub` has the kind of the element at the same place of the first block of
/// length `d`.
pub open spec fn same_kind_in_block<R>(sub: Seq<Op<R>>, d: int, i: int) -> bool {
    kind(sub[i]) == kind(sub[i % d])
}

/// The kinds of `sub` are copies of a block whose length is a proper divisor of its length.
pub open spec fn kinds_repeat<R>(sub: Seq<Op<R>>) -> bool {
    exists|d: int|
        1 <= d < sub.len() && #[trigger] divides(d, sub.len() as int) && forall|i: int|
            d <= i < sub.len() ==> #[trigger] same_kind_in_block(sub, d, i)
}

/// Some operation without a custom relation takes every step of `ops`.
pub open spec fn steps_regularly<R: Relation + Copy>(ops: Seq<i32>) -> bool {
    common_ops::<R>(pairs_of(ops), Seq::empty(), 0, 1).len() > 0
}

/// `sub` is non-empty, acts by operands that progress by one repeated operation, and repeats
/// its kinds.
pub open spec fn meta_ok<R: Relation + Copy>(sub: Seq<Op<R>>) -> bool {
    &&& sub.len() > 0
    &&& forall|i: int| 0 <= i < sub.len() ==> has_operand(#[trigger] sub[i])
    &&& steps_regularly::<R>(operands(sub))
    &&& kinds_repeat(sub)
}

pub open spec fn meta_pred<R: Relation + Copy>() -> spec_fn(Seq<Op<R>>) -> bool {
    |s: Seq<Op<R>>| meta_ok::<R>(s)
}

/// The nested patterns that take the steps whose choice sets are `lists`: one operation from
/// each, in the order of `product`.
pub open spec fn meta_subpatterns<R: Relation + Copy>(lists: Seq<Seq<Op<R>>>) -> Seq<Seq<Op<R>>> {
    product(lists).filter(meta_pred::<R>())
}

pub(crate) fn kind_of<R: Relation + Copy>(e: &PatternElem<R>) -> (r: u8)
    ensures
        r as int == kind(e@),
{
    match e {
        PatternElem::Const(_) => 0,
        PatternElem::Cube => 1,
        PatternElem::CubeRoot => 2,
        PatternElem::Custom(_) => 3,
        PatternElem::Div(_) => 4,
        PatternElem::Meta(_) => 5,
        PatternElem::Mod(_) => 6,
        PatternElem::Mult(_) => 7,
        PatternElem::Plus(_) => 8,
        PatternElem::Square => 9,
        PatternElem::SquareRoot => 10,
    }
}

fn operand_of<R: Relation + Copy>(e: &PatternElem<R>) -> (r: Option<i32>)
    ensures
        r is Some <==> has_operand(e@),
        r is Some ==> r->0 == operand(e@),
{
    match e {
        PatternElem::Div(v) => Some(*v),
        PatternElem::Mod(v) => Some(*v),
        PatternElem::Mult(v) => Some(*v),
        PatternElem::Plus(v) => Some(*v),
        _ => None,
    }
}

/// Whether the kinds of `p` repeat.
fn has_repeating_kinds<R: Relation + Copy>(p: &Pattern<R>) -> (r: bool)
    ensures
        r == kinds_repeat(p@),
{
    let len = p.0.len();
    let ghost sub = p@;
    let mut kinds: Vec<u8> = Vec::new();
    let mut i: usize = 0;
    while i < len
        invariant
            len == p.0@.len(),
            sub == p@,
            i <= len,
            kinds@.len() == i,
            forall|k: int| 0 <= k < i ==> #[trigger] kinds@[k] as int == kind(sub[k]),
        decreases len - i,
    {
        kinds.push(kind_of(&p.0[i]));
        i += 1;
    }
    if len < 2 {
        return false;
    }
    let mut same: bool = true;
    let mut j: usize = 1;
    while j < len
        invariant
            len == kinds@.len(),
            len == sub.len(),
            1 <= j <= len,
            forall|k: int| 0 <= k < len ==> #[trigger] kinds@[k] as int == kind(sub[k]),
            same ==> forall|k: int| 1 <= k < j ==> #[trigger] same_kind_in_block(sub, 1, k),
            !same ==> exists|k: int| 1 <= k < len && !#[trigger] same_kind_in_block(sub, 1, k),
        decreases len - j,
    {
        assert(j as int % 1 == 0);
        if kinds[j] != kinds[0] {
            assert(!same_kind_in_block(sub, 1, j as int));
            same = false;
        }
        j += 1;
    }
    if same {
        assert(divides(1, len as int));
        return true;
    }
    let f = |a: &u8, b: &u8| -> (c: bool)
        ensures
            c == (*a == *b),
        { *a == *b };
    let rep = is_repeating_with_predicate(kinds.as_slice(), f);
    proof {
        let ks = kinds@;
        if rep {
            let d = choose|d: int|
                2 <= d < ks.len() && #[trigger] divides(d, ks.len() as int) && forall|i: int|
                    d <= i < ks.len() ==> #[trigger] matched(f, ks, d, i, true);
            assert forall|i: int| d <= i < len implies #[trigger] same_kind_in_block(sub, d, i) by {
                assert(matched(f, ks, d, i, true));
            }
        } else {
            assert forall|d: int|
                1 <= d < sub.len() && #[trigger] divides(d, sub.len() as int) implies !(forall|i: int|
                    d <= i < sub.len() ==> #[trigger] same_kind_in_block(sub, d, i)) by {
                if d == 1 {
                    let k = choose|k: int| 1 <= k < len && !#[trigger] same_kind_in_block(sub, 1, k);
                    assert(!same_kind_in_block(sub, d, k));
                } else {
                    let i = choose|i: int| d <= i < ks.len() && #[trigger] matched(f, ks, d, i, false);
                    assert(!same_kind_in_block(sub, d, i));
                }
            }
        }
    }
    rep
}

/// Whether `p` is a valid nested pattern.
fn is_meta_pattern<R: Relation + Copy>(p: &Pattern<R>) -> (r: bool)
    ensures
        r == meta_ok::<R>(p@),
{
    let len = p.0.len();
    if len == 0 {
        return false;
    }
    let ghost sub = p@;
    let mut ops: Vec<i32> = Vec::new();
    let mut i: usize = 0;
    while i < len
        invariant
            len == p.0@.len(),
            sub == p@,
            i <= len,
            ops@.len() == i,
            forall|k: int| 0 <= k < i ==> has_operand(#[trigger] sub[k]),
            forall|k: int| 0 <= k < i ==> #[trigger] ops@[k] == operand(sub[k]),
        decreases len - i,
    {
        match operand_of(&p.0[i]) {
            Some(v) => ops.push(v),
            None => {
                assert(!has_operand(sub[i as int]));
                return false;
            },
        }
        i += 1;
    }
    assert(ops@ =~= operands(sub));
    let fresh = Analyzer::<R>::with_custom_patterns(ops.as_slice(), false, Vec::new());
    let c = fresh.intersection(0, 1);
    if c.len() == 0 {
        return false;
    }
    has_repeating_kinds(p)
}

#[derive(Debug)]
pub struct MetaAnalyzer<R> {
    choices: Vec<PatternElemChoice<R>>,
}

impl<R: Relation + Copy> MetaAnalyzer<R> {
    /// The choice sets, one for each occurrence, in order.
    pub closed spec fn lists(&self) -> Seq<Seq<Op<R>>> {
        Seq::new(self.choices@.len(), |k: int| self.choices@[k]@)
    }

    pub fn new(choices: Vec<PatternElemChoice<R>>) -> (r: Self)
        ensures
            r.lists() == Seq::new(choices@.len(), |k: int| choices@[k]@),
    {
        MetaAnalyzer { choices: choices }
    }

    /// The valid nested patterns that take one operation from each choice set.
    pub fn find_patterns(&self) -> (r: Vec<Pattern<R>>)
        ensures
            views(r@) == meta_subpatterns::<R>(self.lists()),
    {
        let ghost lists = self.lists();
        let mut patterns: Vec<Pattern<R>> = Vec::new();
        patterns.push(Pattern::empty());
        assert(lists.take(0) =~= Seq::<Seq<Op<R>>>::empty());
        assert(views(patterns@) =~= product(lists.take(0)));
        let mut k: usize = 0;
        while k < self.choices.len()
            invariant
                lists == self.lists(),
                k <= self.choices@.len(),
                views(patterns@) == product(lists.take(k as int)),
            decreases self.choices@.len() - k,
        {
            patterns = extend_patterns(&patterns, &self.choices[k].elems);
            let ghost t = lists.take(k + 1);
            assert(t.drop_last() =~= lists.take(k as int));
            assert(t.last() == self.choices@[k as int]@);
            k += 1;
        }
        assert(lists.take(k as int) =~= lists);
        let ghost all = views(patterns@);
        let ghost pred = meta_pred::<R>();
        let mut r: Vec<Pattern<R>> = Vec::new();
        let mut i: usize = 0;
        reveal(Seq::filter);
        assert(views(r@) =~= all.take(0).filter(pred));
        while i < patterns.len()
            invariant
                all == views(patterns@),
                pred == meta_pred::<R>(),
                i <= patterns@.len(),
                views(r@) == all.take(i as int).filter(pred),
            decreases patterns@.len() - i,
        {
            let p = &patterns[i];
            let ok = is_meta_pattern(p);
            let ghost before = views(r@);
            let ghost t = all.take(i + 1);
            assert(t.drop_last() =~= all.take(i as int));
            assert(t.last() == p@);
            assert(pred(p@) == ok);
            reveal(Seq::filter);
            assert(t.filter(pred) == (if pred(t.last()) {
                t.drop_last().filter(pred).push(t.last())
            } else {
                t.drop_last().filter(pred)
            }));
            if ok {
                r.push(p.copy());
                assert(views(r@) =~= before.push(p@));
            } else {
                assert(views(r@) =~= before);
            }
            i += 1;
        }
        assert(all.take(i as int) =~= all);
        r
    }
}

} // verus!
