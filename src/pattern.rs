use vstd::prelude::*;
use vstd::string::StringExecFns;

use crate::render::{op_text, ops_text, push_decimal, push_signed};

verus! {

broadcast use vstd::std_specs::vec::axiom_vec_index_decreases;

/// A caller-supplied relation between two consecutive integers.
pub trait Relation {
    /// Whether the relation holds from `x` to `y`.
    spec fn holds(&self, x: i32, y: i32) -> bool;

    /// The relation can be evaluated on every pair, and always gives the same answer.
    spec fn is_pure(&self) -> bool;

    /// Evaluates the relation from `x` to `y`.
    fn check(&self, x: i32, y: i32) -> (r: bool)
        requires
            self.is_pure(),
        ensures
            r == self.holds(x, y),
    ;
}

impl<F: Fn(i32, i32) -> bool> Relation for F {
    open spec fn holds(&self, x: i32, y: i32) -> bool {
        call_ensures(*self, (x, y), true)
    }

    open spec fn is_pure(&self) -> bool {
        &&& forall|x: i32, y: i32| call_requires(*self, (x, y))
        &&& forall|x: i32, y: i32, a: bool, b: bool|
            call_ensures(*self, (x, y), a) && call_ensures(*self, (x, y), b) ==> a == b
    }

    fn check(&self, x: i32, y: i32) -> (r: bool) {
        self(x, y)
    }
}

/// The relation type of an analyzer that has no custom relations; it never holds.
#[derive(Clone, Copy, Debug, PartialEq, Eq, Hash, PartialOrd, Ord)]
pub struct NoRelation;

impl Relation for NoRelation {
    open spec fn holds(&self, x: i32, y: i32) -> bool {
        false
    }

    open spec fn is_pure(&self) -> bool {
        true
    }

    fn check(&self, x: i32, y: i32) -> (r: bool) {
        false
    }
}

/// A custom relation with the label it is rendered with.
#[derive(Clone, Debug, PartialEq, Eq, Hash, PartialOrd, Ord)]
pub struct CustomPatternElem<R> {
    check: R,
    repr: String,
}

impl<R: Relation + Copy> CustomPatternElem<R> {
    pub fn new(check: R, repr: &str) -> (r: Self)
        ensures
            r.relation() == check,
            r.label() == repr@,
    {
        CustomPatternElem { check, repr: repr.to_string() }
    }

    pub closed spec fn relation(&self) -> R {
        self.check
    }

    pub closed spec fn label(&self) -> Seq<char> {
        self.repr@
    }

    /// Whether the relation holds from `x` to `y`.
    pub fn check(&self, x: i32, y: i32) -> (r: bool)
        requires
            self.relation().is_pure(),
        ensures
            r == self.relation().holds(x, y),
    {
        self.check.check(x, y)
    }

    pub fn copy(&self) -> (r: Self)
        ensures
            r == *self,
    {
        CustomPatternElem { check: self.check, repr: self.repr.clone() }
    }
}

/// Copies of the custom relations `pats`.
pub fn copy_relations<R: Relation + Copy>(pats: &Vec<CustomPatternElem<R>>) -> (r: Vec<CustomPatternElem<R>>)
    ensures
        r@ == pats@,
{
    let mut r: Vec<CustomPatternElem<R>> = Vec::new();
    let mut i: usize = 0;
    while i < pats.len()
        invariant
            i <= pats@.len(),
            r@ == pats@.take(i as int),
        decreases pats@.len() - i,
    {
        r.push(pats[i].copy());
        i += 1;
        assert(r@ =~= pats@.take(i as int));
    }
    assert(pats@.take(i as int) =~= pats@);
    r
}

/// Operations from one integer to the next, listed in the order in which they sort.
#[derive(Debug, PartialEq, Eq, Hash, PartialOrd, Ord)]
pub enum PatternElem<R = NoRelation> {
    Const(i32),
    Cube,
    CubeRoot,
    Custom(CustomPatternElem<R>),
    Div(i32),
    Meta(Pattern<R>),
    Mod(i32),
    Mult(i32),
    Plus(i32),
    Square,
    SquareRoot,
}

/// A sequence of operations, applied cyclically.
#[derive(Debug, PartialEq, Eq, Hash, PartialOrd, Ord)]
pub struct Pattern<R = NoRelation>(pub Vec<PatternElem<R>>);

/// The mathematical value of a `PatternElem`.
pub enum Op<R> {
    Const(i32),
    Cube,
    CubeRoot,
    Custom(R, Seq<char>),
    Div(i32),
    Meta(Seq<Op<R>>),
    Mod(i32),
    Mult(i32),
    Plus(i32),
    Square,
    SquareRoot,
}

impl<R: Relation + Copy> PatternElem<R> {
    pub open spec fn view(&self) -> Op<R>
        decreases self,
    {
        match self {
            PatternElem::Const(v) => Op::Const(*v),
            PatternElem::Cube => Op::Cube,
            PatternElem::CubeRoot => Op::CubeRoot,
            PatternElem::Custom(c) => Op::Custom(c.relation(), c.label()),
            PatternElem::Div(v) => Op::Div(*v),
            PatternElem::Meta(p) => Op::Meta(
                Seq::new(p.0@.len(), |i: int| if 0 <= i < p.0@.len() { p.0@[i].view() } else { Op::Cube }),
            ),
            PatternElem::Mod(v) => Op::Mod(*v),
            PatternElem::Mult(v) => Op::Mult(*v),
            PatternElem::Plus(v) => Op::Plus(*v),
            PatternElem::Square => Op::Square,
            PatternElem::SquareRoot => Op::SquareRoot,
        }
    }
}

/// The values of a list of operations.
pub open spec fn ops_of<R: Relation + Copy>(v: Seq<PatternElem<R>>) -> Seq<Op<R>> {
    Seq::new(v.len(), |i: int| v[i]@)
}

/// A nested pattern's value is the sequence of its operations' values.
pub proof fn lemma_meta_view<R: Relation + Copy>(v: Vec<PatternElem<R>>)
    ensures
        PatternElem::Meta(Pattern(v))@ == Op::Meta(ops_of(v@)),
{
    let e = PatternElem::Meta(Pattern(v));
    let s = e@->Meta_0;
    assert(s.len() == v@.len());
    assert forall|i: int| 0 <= i < v@.len() implies s[i] == v@[i]@ by {}
    assert(s =~= ops_of(v@));
}

impl<R: Relation + Copy> PatternElem<R> {
    /// A copy with the same value.
    pub fn copy(&self) -> (r: Self)
        ensures
            r@ == self@,
        decreases self,
    {
        match self {
            PatternElem::Const(v) => PatternElem::Const(*v),
            PatternElem::Cube => PatternElem::Cube,
            PatternElem::CubeRoot => PatternElem::CubeRoot,
            PatternElem::Custom(c) => PatternElem::Custom(c.copy()),
            PatternElem::Div(v) => PatternElem::Div(*v),
            PatternElem::Meta(p) => {
                let mut v: Vec<PatternElem<R>> = Vec::new();
                let mut i: usize = 0;
                while i < p.0.len()
                    invariant
                        self is Meta,
                        self->Meta_0 == *p,
                        i <= p.0@.len(),
                        v@.len() == i,
                        forall|j: int| 0 <= j < i ==> (#[trigger] v@[j])@ == p.0@[j]@,
                    decreases p.0@.len() - i,
                {
                    proof {
                        assert(decreases_to!(*self => self->Meta_0));
                        assert(decreases_to!(*p => p.0));
                        assert(decreases_to!(p.0 => p.0@));
                        assert(decreases_to!(p.0@ => p.0@[i as int]));
                    }
                    let e = p.0[i].copy();
                    v.push(e);
                    i += 1;
                }
                let r = PatternElem::Meta(Pattern(v));
                proof {
                    lemma_meta_view(v);
                    lemma_meta_view(p.0);
                    assert(ops_of(v@) =~= ops_of(p.0@));
                }
                r
            },
            PatternElem::Mod(v) => PatternElem::Mod(*v),
            PatternElem::Mult(v) => PatternElem::Mult(*v),
            PatternElem::Plus(v) => PatternElem::Plus(*v),
            PatternElem::Square => PatternElem::Square,
            PatternElem::SquareRoot => PatternElem::SquareRoot,
        }
    }
}

impl<R: Relation + Copy> PatternElem<R> {
    /// The text of the operation: `=5`, `+3`, `-3`, `*2`, `/2`, `%2`, `^2`, `^3`, `root 2`,
    /// `root 3`, a custom relation's label, or a nested pattern in brackets.
    pub fn render(&self) -> (r: String)
        ensures
            r@ == op_text(self@),
    {
        let mut s = String::new();
        self.render_into(&mut s);
        assert(s@ =~= op_text(self@));
        s
    }

    /// Appends the text of the operation to `s`.
    pub fn render_into(&self, s: &mut String)
        ensures
            final(s)@ == old(s)@ + op_text(self@),
        decreases self,
    {
        match self {
            PatternElem::Const(i) => {
                proof { reveal_strlit("="); }
                s.append("=");
                push_signed(s, *i);
            },
            PatternElem::Cube => {
                proof { reveal_strlit("^3"); }
                s.append("^3");
            },
            PatternElem::CubeRoot => {
                proof { reveal_strlit("root 3"); }
                s.append("root 3");
            },
            PatternElem::Custom(c) => {
                s.append(c.repr.as_str());
            },
            PatternElem::Div(i) => {
                proof { reveal_strlit("/"); }
                s.append("/");
                push_signed(s, *i);
            },
            PatternElem::Meta(p) => {
                proof {
                    reveal_strlit("[");
                    reveal_strlit("]");
                    assert(decreases_to!(*self => self->Meta_0));
                    assert(decreases_to!(self->Meta_0 => self->Meta_0.0));
                    lemma_meta_view(p.0);
                }
                s.append("[");
                render_elems_into(&p.0, s);
                s.append("]");
            },
            PatternElem::Mod(i) => {
                proof { reveal_strlit("%"); }
                s.append("%");
                push_signed(s, *i);
            },
            PatternElem::Mult(i) => {
                proof { reveal_strlit("*"); }
                s.append("*");
                push_signed(s, *i);
            },
            PatternElem::Plus(i) => {
                if *i < 0 {
                    proof { reveal_strlit("-"); }
                    s.append("-");
                    let m: i64 = -(*i as i64);
                    push_decimal(s, m as u64);
                } else {
                    proof { reveal_strlit("+"); }
                    s.append("+");
                    push_decimal(s, *i as u64);
                }
            },
            PatternElem::Square => {
                proof { reveal_strlit("^2"); }
                s.append("^2");
            },
            PatternElem::SquareRoot => {
                proof { reveal_strlit("root 2"); }
                s.append("root 2");
            },
        }
        assert(s@ =~= old(s)@ + op_text(self@));
    }
}

/// Appends the texts of the operations of `v`, separated by `", "`, to `s`.
fn render_elems_into<R: Relation + Copy>(v: &Vec<PatternElem<R>>, s: &mut String)
    ensures
        final(s)@ == old(s)@ + ops_text(ops_of(v@)),
    decreases v,
{
    let ghost all = ops_of(v@);
    let mut i: usize = 0;
    assert(ops_text(all.take(0)) =~= Seq::<char>::empty());
    assert(s@ =~= old(s)@ + ops_text(all.take(0)));
    while i < v.len()
        invariant
            all == ops_of(v@),
            i <= v@.len(),
            s@ == old(s)@ + ops_text(all.take(i as int)),
        decreases v@.len() - i,
    {
        let ghost before = s@;
        let ghost t = all.take(i + 1);
        assert(t.subrange(0, t.len() - 1) =~= all.take(i as int));
        assert(t[t.len() - 1] == v@[i as int]@);
        if i > 0 {
            proof { reveal_strlit(", "); }
            s.append(", ");
        }
        proof {
            assert(decreases_to!(*v => v@));
            assert(decreases_to!(v@ => v@[i as int]));
        }
        v[i].render_into(s);
        proof {
            if i == 0 {
                assert(t.len() == 1);
                assert(s@ =~= old(s)@ + ops_text(t));
            } else {
                assert(s@ =~= old(s)@ + ops_text(t));
            }
        }
        i += 1;
    }
    assert(all.take(i as int) =~= all);
}

/// Copies of all elements of `v`.
pub fn copy_elems<R: Relation + Copy>(v: &Vec<PatternElem<R>>) -> (r: Vec<PatternElem<R>>)
    ensures
        ops_of(r@) == ops_of(v@),
{
    let mut r: Vec<PatternElem<R>> = Vec::new();
    let mut i: usize = 0;
    while i < v.len()
        invariant
            i <= v@.len(),
            r@.len() == i,
            forall|j: int| 0 <= j < i ==> (#[trigger] r@[j])@ == v@[j]@,
        decreases v@.len() - i,
    {
        r.push(v[i].copy());
        i += 1;
    }
    assert(ops_of(r@) =~= ops_of(v@));
    r
}

impl<R: Relation + Copy> Pattern<R> {
    /// The operations of the pattern, in order.
    pub open spec fn view(&self) -> Seq<Op<R>> {
        ops_of(self.0@)
    }

    /// Constructs a new pattern given a vector of operations.
    pub fn new(elems: Vec<PatternElem<R>>) -> (r: Self)
        ensures
            r.0@ == elems@,
    {
        Pattern(elems)
    }

    /// Constructs a new empty pattern.
    pub fn empty() -> (r: Self)
        ensures
            r@ == Seq::<Op<R>>::empty(),
    {
        let r = Pattern(Vec::new());
        assert(r@ =~= Seq::<Op<R>>::empty());
        r
    }

    /// A copy with the same operations.
    pub fn copy(&self) -> (r: Self)
        ensures
            r@ == self@,
    {
        Pattern(copy_elems(&self.0))
    }

    /// The texts of the operations, separated by `", "`.
    pub fn render(&self) -> (r: String)
        ensures
            r@ == ops_text(self@),
    {
        let mut s = String::new();
        render_elems_into(&self.0, &mut s);
        assert(s@ =~= ops_text(self@));
        s
    }

    pub fn len(&self) -> (r: usize)
        ensures
            r == self@.len(),
    {
        self.0.len()
    }

    /// A copy of the pattern with `e` appended.
    pub fn with_elem(&self, e: &PatternElem<R>) -> (r: Self)
        ensures
            r@ == self@.push(e@),
    {
        let mut v = copy_elems(&self.0);
        v.push(e.copy());
        let r = Pattern(v);
        assert(r@ =~= self@.push(e@));
        r
    }

    /// Appends each of `elems` to the pattern separately, giving one pattern per element.
    pub fn extend_each(&self, elems: &Vec<PatternElem<R>>) -> (r: Vec<Self>)
        ensures
            r@.len() == elems@.len(),
            forall|i: int| 0 <= i < elems@.len() ==> (#[trigger] r@[i])@ == self@.push(elems@[i]@),
    {
        let mut r: Vec<Self> = Vec::new();
        let mut i: usize = 0;
        while i < elems.len()
            invariant
                i <= elems@.len(),
                r@.len() == i,
                forall|j: int| 0 <= j < i ==> (#[trigger] r@[j])@ == self@.push(elems@[j]@),
            decreases elems@.len() - i,
        {
            r.push(self.with_elem(&elems[i]));
            i += 1;
        }
        r
    }
}

/// The values of a list of patterns.
pub open spec fn views<R: Relation + Copy>(ps: Seq<Pattern<R>>) -> Seq<Seq<Op<R>>> {
    Seq::new(ps.len(), |i: int| ps[i]@)
}

/// `p` extended by each operation of `cands`, in order.
pub open spec fn extensions<R>(p: Seq<Op<R>>, cands: Seq<Op<R>>) -> Seq<Seq<Op<R>>> {
    Seq::new(cands.len(), |j: int| p.push(cands[j]))
}

/// Every pattern of `ps` extended by every operation of `cands`: pattern by pattern, then
/// operation by operation.
pub open spec fn extend_all<R>(ps: Seq<Seq<Op<R>>>, cands: Seq<Op<R>>) -> Seq<Seq<Op<R>>>
    decreases ps.len(),
{
    if ps.len() == 0 {
        Seq::empty()
    } else {
        extend_all(ps.drop_last(), cands) + extensions(ps.last(), cands)
    }
}

/// Every pattern whose element `k` is taken from `lists[k]`, earlier positions varying slowest.
pub open spec fn product<R>(lists: Seq<Seq<Op<R>>>) -> Seq<Seq<Op<R>>>
    decreases lists.len(),
{
    if lists.len() == 0 {
        seq![Seq::empty()]
    } else {
        extend_all(product(lists.drop_last()), lists.last())
    }
}

/// Every pattern of `pats` extended by every element of `cands`, in the order of `extend_all`.
pub fn extend_patterns<R: Relation + Copy>(pats: &Vec<Pattern<R>>, cands: &Vec<PatternElem<R>>) -> (r:
    Vec<Pattern<R>>)
    ensures
        views(r@) == extend_all(views(pats@), ops_of(cands@)),
{
    let ghost c = ops_of(cands@);
    let mut r: Vec<Pattern<R>> = Vec::new();
    let mut i: usize = 0;
    assert(views(pats@).take(0) =~= Seq::<Seq<Op<R>>>::empty());
    assert(views(r@) =~= extend_all(views(pats@).take(0), c));
    while i < pats.len()
        invariant
            i <= pats@.len(),
            c == ops_of(cands@),
            views(r@) == extend_all(views(pats@).take(i as int), c),
        decreases pats@.len() - i,
    {
        let ghost base = views(r@);
        let mut j: usize = 0;
        assert(views(r@) =~= base + extensions(pats@[i as int]@, c).take(0));
        while j < cands.len()
            invariant
                i < pats@.len(),
                j <= cands@.len(),
                c == ops_of(cands@),
                views(r@) == base + extensions(pats@[i as int]@, c).take(j as int),
            decreases cands@.len() - j,
        {
            let p = pats[i].with_elem(&cands[j]);
            let ghost before = views(r@);
            r.push(p);
            assert(views(r@) =~= before.push(p@));
            assert(extensions(pats@[i as int]@, c).take(j + 1) =~= extensions(
                pats@[i as int]@,
                c,
            ).take(j as int).push(p@));
            assert(views(r@) =~= base + extensions(pats@[i as int]@, c).take(j + 1));
            j += 1;
        }
        assert(extensions(pats@[i as int]@, c).take(j as int) =~= extensions(pats@[i as int]@, c));
        let ghost t = views(pats@).take(i + 1);
        assert(t.drop_last() =~= views(pats@).take(i as int));
        assert(t.last() == pats@[i as int]@);
        i += 1;
    }
    assert(views(pats@).take(i as int) =~= views(pats@));
    r
}

} // verus!
