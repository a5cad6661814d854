use vstd::prelude::*;

use crate::choice::{
    admits, admits_step, all_pure, choice_ops, customs_pure, PatternElemChoice,
};
use crate::meta::{kind, meta_subpatterns, MetaAnalyzer};
use crate::order::{distinct_relations, lemma_patterns_sorted, lex_order, op_lt, sorted_by};
use crate::pattern::{
    copy_relations, extend_patterns, lemma_meta_view, ops_of, product, views, CustomPatternElem, NoRelation, Op,
    Pattern, PatternElem, Relation,
};
use crate::stepper::Stepper;

verus! {

/// The steps of `s`: each element with the one after it.
pub open spec fn pairs_of(s: Seq<i32>) -> Seq<(i32, i32)> {
    if s.len() == 0 {
        Seq::empty()
    } else {
        Seq::new((s.len() - 1) as nat, |i: int| (s[i], s[i + 1]))
    }
}

/// The positions `o, o + n, o + 2n, ...` below `len`.
pub open spec fn offset_steps(len: int, o: int, n: int) -> Seq<int>
    decreases (if o < len { len - o } else { 0 }),
{
    if n <= 0 || o >= len || o < 0 {
        Seq::empty()
    } else {
        seq![o] + offset_steps(len, o + n, n)
    }
}

/// `e` takes every step at the positions `steps` of `pairs`.
pub open spec fn valid_at<R: Relation + Copy>(e: Op<R>, pairs: Seq<(i32, i32)>, steps: Seq<int>) -> bool {
    forall|k: int|
        0 <= k < steps.len() ==> #[trigger] admits(e, pairs[steps[k]].0, pairs[steps[k]].1)
}

/// `valid_at` as a predicate on operations.
pub open spec fn valid_pred<R: Relation + Copy>(pairs: Seq<(i32, i32)>, steps: Seq<int>) -> spec_fn(
    Op<R>,
) -> bool {
    |e: Op<R>| valid_at(e, pairs, steps)
}

/// The operations that take every step at offset `o` of a cycle of length `n`, in the order of
/// the choice set of the first such step.
pub open spec fn common_ops<R: Relation + Copy>(
    pairs: Seq<(i32, i32)>,
    rels: Seq<CustomPatternElem<R>>,
    o: int,
    n: int,
) -> Seq<Op<R>> {
    let steps = offset_steps(pairs.len() as int, o, n);
    if steps.len() == 0 {
        Seq::empty()
    } else {
        choice_ops(pairs[steps[0]].0, pairs[steps[0]].1, rels).filter(valid_pred(pairs, steps))
    }
}

/// The choice sets of the steps at offset `o` of a cycle of length `n`, in order.
pub open spec fn offset_choices<R: Relation + Copy>(
    pairs: Seq<(i32, i32)>,
    rels: Seq<CustomPatternElem<R>>,
    o: int,
    n: int,
) -> Seq<Seq<Op<R>>> {
    offset_steps(pairs.len() as int, o, n).map_values(
        |j: int| choice_ops(pairs[j].0, pairs[j].1, rels),
    )
}

/// Each nested pattern of `subs` as one operation.
pub open spec fn nested_ops<R>(subs: Seq<Seq<Op<R>>>) -> Seq<Op<R>> {
    Seq::new(subs.len(), |i: int| Op::Meta(subs[i]))
}

/// The operations that sort before nested patterns (`below`), or after them.
pub open spec fn kind_pred<R>(below: bool) -> spec_fn(Op<R>) -> bool {
    |e: Op<R>| if below { kind(e) < 5 } else { kind(e) > 5 }
}

/// The operations that may stand at offset `o` of a cycle of length `n`, in the order in which
/// operations sort: those common to all its steps, and the nested patterns when `meta` is set.
pub open spec fn candidates<R: Relation + Copy>(
    pairs: Seq<(i32, i32)>,
    rels: Seq<CustomPatternElem<R>>,
    meta: bool,
    o: int,
    n: int,
) -> Seq<Op<R>> {
    let c = common_ops(pairs, rels, o, n);
    c.filter(kind_pred(true)) + (if meta {
        nested_ops(meta_subpatterns(offset_choices(pairs, rels, o, n)))
    } else {
        Seq::empty()
    }) + c.filter(kind_pred(false))
}

/// All patterns of cycle length `n` whose operation at each offset is one of that offset's
/// candidates, in lexicographic order of the candidates; none for `n == 0`.
pub open spec fn patterns_of_length<R: Relation + Copy>(
    pairs: Seq<(i32, i32)>,
    rels: Seq<CustomPatternElem<R>>,
    meta: bool,
    n: int,
) -> Seq<Seq<Op<R>>> {
    if n <= 0 {
        Seq::empty()
    } else {
        product(Seq::new(n as nat, |o: int| candidates(pairs, rels, meta, o, n)))
    }
}

/// `f(i)` for the smallest `i` in `1..=max` where it is not empty, or nothing.
pub open spec fn first_nonempty<A>(f: spec_fn(int) -> Seq<A>, max: int) -> Seq<A>
    decreases max,
{
    if max <= 0 {
        Seq::empty()
    } else {
        let prev = first_nonempty(f, max - 1);
        if prev.len() > 0 {
            prev
        } else {
            f(max)
        }
    }
}

/// The patterns of the smallest cycle length in `1..=max` that has any, or none.
pub open spec fn first_found<R: Relation + Copy>(
    pairs: Seq<(i32, i32)>,
    rels: Seq<CustomPatternElem<R>>,
    meta: bool,
    max: int,
) -> Seq<Seq<Op<R>>> {
    first_nonempty(|i: int| patterns_of_length(pairs, rels, meta, i), max)
}

proof fn lemma_first_nonempty_stable<A>(f: spec_fn(int) -> Seq<A>, i: int, max: int)
    requires
        i <= max,
        first_nonempty(f, i).len() > 0,
    ensures
        first_nonempty(f, max) == first_nonempty(f, i),
    decreases max - i,
{
    if i < max {
        lemma_first_nonempty_stable(f, i, max - 1);
    }
}

/// Copies of the elements of `c` that `kind_pred(below)` keeps.
fn select_kinds<R: Relation + Copy>(c: &Vec<PatternElem<R>>, below: bool) -> (r: Vec<PatternElem<R>>)
    ensures
        ops_of(r@) == ops_of(c@).filter(kind_pred(below)),
{
    let ghost all = ops_of(c@);
    let ghost pred = kind_pred::<R>(below);
    let mut r: Vec<PatternElem<R>> = Vec::new();
    let mut i: usize = 0;
    reveal(Seq::filter);
    assert(ops_of(r@) =~= all.take(0).filter(pred));
    while i < c.len()
        invariant
            all == ops_of(c@),
            pred == kind_pred::<R>(below),
            i <= c@.len(),
            ops_of(r@) == all.take(i as int).filter(pred),
        decreases c@.len() - i,
    {
        let e = &c[i];
        let k = crate::meta::kind_of(e);
        let keep: bool = if below { k < 5 } else { k > 5 };
        let ghost before = ops_of(r@);
        let ghost t = all.take(i + 1);
        assert(t.drop_last() =~= all.take(i as int));
        assert(t.last() == e@);
        assert(pred(e@) == keep);
        reveal(Seq::filter);
        assert(t.filter(pred) == (if pred(t.last()) {
            t.drop_last().filter(pred).push(t.last())
        } else {
            t.drop_last().filter(pred)
        }));
        if keep {
            r.push(e.copy());
            assert(ops_of(r@) =~= before.push(e@));
        } else {
            assert(ops_of(r@) =~= before);
        }
        i += 1;
    }
    assert(all.take(i as int) =~= all);
    r
}

/// Identifies patterns that describe a given sequence.
pub struct Analyzer<R = NoRelation> {
    choices: Vec<PatternElemChoice<R>>,
    meta: bool,
    rels: Ghost<Seq<CustomPatternElem<R>>>,
}

impl Analyzer<NoRelation> {
    /// Creates a new analyzer from a slice of integers.
    pub fn from_slice(seq: &[i32]) -> (r: Self)
        ensures
            r.wf(),
            r.pairs() == pairs_of(seq@),
            r.relations() == Seq::<CustomPatternElem<NoRelation>>::empty(),
            !r.uses_meta(),
    {
        Self::with_custom_patterns(seq, false, Vec::new())
    }

    /// Creates a new analyzer from a slice of integers that also searches for nested patterns.
    pub fn with_meta(seq: &[i32]) -> (r: Self)
        ensures
            r.wf(),
            r.pairs() == pairs_of(seq@),
            r.relations() == Seq::<CustomPatternElem<NoRelation>>::empty(),
            r.uses_meta(),
    {
        Self::with_custom_patterns(seq, true, Vec::new())
    }
}

impl<R: Relation + Copy> Analyzer<R> {
    /// The steps of the sequence.
    pub closed spec fn pairs(&self) -> Seq<(i32, i32)> {
        Seq::new(self.choices@.len(), |i: int| (self.choices@[i].from, self.choices@[i].to))
    }

    /// The custom relations.
    pub closed spec fn relations(&self) -> Seq<CustomPatternElem<R>> {
        self.rels@
    }

    /// Whether nested patterns are searched for.
    pub closed spec fn uses_meta(&self) -> bool {
        self.meta
    }

    pub closed spec fn wf(&self) -> bool {
        &&& all_pure(self.rels@)
        &&& forall|i: int|
            0 <= i < self.choices@.len() ==> (#[trigger] self.choices@[i])@ == choice_ops(
                self.choices@[i].from,
                self.choices@[i].to,
                self.rels@,
            ) && customs_pure(self.choices@[i]@)
    }

    /// Same as `from_slice`, but with custom relations, and nested patterns if `meta` is set.
    pub fn with_custom_patterns(seq: &[i32], meta: bool, pats: Vec<CustomPatternElem<R>>) -> (r:
        Self)
        requires
            all_pure(pats@),
        ensures
            r.wf(),
            r.pairs() == pairs_of(seq@),
            r.relations() == pats@,
            r.uses_meta() == meta,
    {
        let mut choices: Vec<PatternElemChoice<R>> = Vec::new();
        let mut i: usize = 1;
        while i < seq.len()
            invariant
                1 <= i,
                seq@.len() > 0 ==> i <= seq@.len(),
                seq@.len() > 0 ==> choices@.len() == i - 1,
                seq@.len() == 0 ==> choices@.len() == 0,
                all_pure(pats@),
                forall|k: int|
                    0 <= k < choices@.len() ==> (#[trigger] choices@[k]).from == seq@[k]
                        && choices@[k].to == seq@[k + 1] && choices@[k]@ == choice_ops(
                        choices@[k].from,
                        choices@[k].to,
                        pats@,
                    ) && customs_pure(choices@[k]@),
            decreases seq@.len() - i,
        {
            let c = PatternElemChoice::from_i32_pair(seq[i - 1], seq[i], copy_relations(&pats));
            choices.push(c);
            i += 1;
        }
        let r = Analyzer { choices, meta, rels: Ghost(pats@) };
        assert(r.pairs() =~= pairs_of(seq@));
        r
    }

    #[inline]
    fn len(&self) -> (r: usize)
        ensures
            r == self.pairs().len(),
    {
        self.choices.len()
    }

    /// The positions of the steps at offset `o` of a cycle of length `n`.
    fn offset_indices(&self, o: usize, n: usize) -> (r: Vec<usize>)
        requires
            n > 0,
        ensures
            r@.len() == offset_steps(self.pairs().len() as int, o as int, n as int).len(),
            forall|k: int|
                0 <= k < r@.len() ==> #[trigger] r@[k] as int == offset_steps(
                    self.pairs().len() as int,
                    o as int,
                    n as int,
                )[k],
            forall|k: int| 0 <= k < r@.len() ==> #[trigger] r@[k] < self.pairs().len(),
    {
        let len = self.len();
        let ghost all = offset_steps(len as int, o as int, n as int);
        let mut st = Stepper::new(o, len, n);
        let mut r: Vec<usize> = Vec::new();
        loop
            invariant
                n > 0,
                len == self.pairs().len(),
                all == offset_steps(len as int, o as int, n as int),
                st.end() == len,
                st.step() == n,
                st.start() <= len || st.start() == o,
                r@.map_values(|j: usize| j as int) + offset_steps(len as int, st.start() as int, n as int)
                    == all,
                forall|k: int| 0 <= k < r@.len() ==> #[trigger] r@[k] < len,
            ensures
                r@.map_values(|j: usize| j as int) == all,
                forall|k: int| 0 <= k < r@.len() ==> #[trigger] r@[k] < len,
            decreases (if st.start() < len { len - st.start() + 1 } else { 0 }),
        {
            let ghost s0 = st.start() as int;
            let ghost prev = r@.map_values(|j: usize| j as int);
            match st.next() {
                Some(j) => {
                    assert(offset_steps(len as int, s0, n as int) == seq![s0] + offset_steps(
                        len as int,
                        s0 + n,
                        n as int,
                    ));
                    proof {
                        if s0 + n >= len {
                            assert(offset_steps(len as int, s0 + n, n as int) =~= Seq::<int>::empty());
                            assert(offset_steps(len as int, len as int, n as int) =~= Seq::<int>::empty());
                        }
                    }
                    r.push(j);
                    assert(r@.map_values(|j: usize| j as int) =~= prev.push(j as int));
                    assert(prev.push(j as int) + offset_steps(len as int, st.start() as int, n as int)
                        =~= prev + (seq![s0] + offset_steps(len as int, st.start() as int, n as int)));
                },
                None => {
                    assert(offset_steps(len as int, s0, n as int) =~= Seq::<int>::empty());
                    assert(prev + offset_steps(len as int, s0, n as int) =~= prev);
                    assert(r@.map_values(|j: usize| j as int) =~= prev);
                    break ;
                },
            }
        }
        let ghost m = r@.map_values(|j: usize| j as int);
        assert forall|k: int| 0 <= k < r@.len() implies #[trigger] r@[k] as int == all[k] by {
            assert(m[k] == r@[k] as int);
        }
        r
    }

    /// Whether `e` takes every step at the positions `steps`.
    fn valid_at_steps(&self, e: &PatternElem<R>, steps: &Vec<usize>) -> (r: bool)
        requires
            self.wf(),
            e@ matches Op::Custom(rel, _) ==> rel.is_pure(),
            forall|k: int| 0 <= k < steps@.len() ==> #[trigger] steps@[k] < self.pairs().len(),
        ensures
            r == valid_at(e@, self.pairs(), steps@.map_values(|j: usize| j as int)),
    {
        let ghost sp = steps@.map_values(|j: usize| j as int);
        let ghost pairs = self.pairs();
        let mut k: usize = 0;
        while k < steps.len()
            invariant
                self.wf(),
                e@ matches Op::Custom(rel, _) ==> rel.is_pure(),
                sp == steps@.map_values(|j: usize| j as int),
                pairs == self.pairs(),
                forall|m: int| 0 <= m < steps@.len() ==> #[trigger] steps@[m] < pairs.len(),
                k <= steps@.len(),
                forall|m: int| 0 <= m < k ==> #[trigger] admits(e@, pairs[sp[m]].0, pairs[sp[m]].1),
            decreases steps@.len() - k,
        {
            let j = steps[k];
            let c = &self.choices[j];
            assert(pairs[sp[k as int]] == (c.from, c.to));
            if !admits_step(e, c.from, c.to) {
                assert(!admits(e@, pairs[sp[k as int]].0, pairs[sp[k as int]].1));
                return false;
            }
            k += 1;
        }
        true
    }

    /// The operations that take every step at offset `o` of a cycle of length `n`.
    pub(crate) fn intersection(&self, o: usize, n: usize) -> (r: Vec<PatternElem<R>>)
        requires
            self.wf(),
            n > 0,
        ensures
            ops_of(r@) == common_ops(self.pairs(), self.relations(), o as int, n as int),
            customs_pure(ops_of(r@)),
    {
        let steps = self.offset_indices(o, n);
        let ghost sp = offset_steps(self.pairs().len() as int, o as int, n as int);
        assert(steps@.map_values(|j: usize| j as int) =~= sp);
        let mut r: Vec<PatternElem<R>> = Vec::new();
        if steps.len() == 0 {
            assert(ops_of(r@) =~= Seq::<Op<R>>::empty());
            return r;
        }
        let first = &self.choices[steps[0]].elems;
        let ghost f = ops_of(first@);
        let ghost pred = valid_pred::<R>(self.pairs(), sp);
        assert(f == choice_ops(self.pairs()[sp[0]].0, self.pairs()[sp[0]].1, self.relations()));
        assert(customs_pure(f));
        let mut i: usize = 0;
        assert(f.take(0).filter(pred) =~= Seq::<Op<R>>::empty());
        assert(ops_of(r@) =~= f.take(0).filter(pred));
        while i < first.len()
            invariant
                self.wf(),
                i <= first@.len(),
                f == ops_of(first@),
                customs_pure(f),
                pred == valid_pred::<R>(self.pairs(), sp),
                sp == steps@.map_values(|j: usize| j as int),
                forall|k: int| 0 <= k < steps@.len() ==> #[trigger] steps@[k] < self.pairs().len(),
                ops_of(r@) == f.take(i as int).filter(pred),
                customs_pure(ops_of(r@)),
            decreases first@.len() - i,
        {
            let e = &first[i];
            assert(f[i as int] == e@);
            let ok = self.valid_at_steps(e, &steps);
            let ghost before = ops_of(r@);
            let ghost t = f.take(i + 1);
            assert(t.drop_last() =~= f.take(i as int));
            assert(t.last() == e@);
            assert(pred(e@) == ok);
            reveal(Seq::filter);
            assert(t.filter(pred) == (if pred(t.last()) {
                t.drop_last().filter(pred).push(t.last())
            } else {
                t.drop_last().filter(pred)
            }));
            if ok {
                r.push(e.copy());
                assert(ops_of(r@) =~= before.push(e@));
            } else {
                assert(ops_of(r@) =~= before);
            }
            i += 1;
        }
        assert(f.take(i as int) =~= f);
        r
    }

    /// The nested patterns that may stand at offset `o` of a cycle of length `n`.
    fn find_meta_patterns(&self, offset: usize, range: usize) -> (r: Vec<PatternElem<R>>)
        requires
            self.wf(),
            range > 0,
        ensures
            ops_of(r@) == nested_ops(
                meta_subpatterns(
                    offset_choices(self.pairs(), self.relations(), offset as int, range as int),
                ),
            ),
    {
        let steps = self.offset_indices(offset, range);
        let ghost want = offset_choices(self.pairs(), self.relations(), offset as int, range as int);
        let ghost sp = offset_steps(self.pairs().len() as int, offset as int, range as int);
        let mut choices: Vec<PatternElemChoice<R>> = Vec::new();
        let mut k: usize = 0;
        while k < steps.len()
            invariant
                self.wf(),
                want == offset_choices(self.pairs(), self.relations(), offset as int, range as int),
                sp == offset_steps(self.pairs().len() as int, offset as int, range as int),
                steps@.len() == sp.len(),
                forall|m: int| 0 <= m < steps@.len() ==> #[trigger] steps@[m] as int == sp[m],
                forall|m: int| 0 <= m < steps@.len() ==> #[trigger] steps@[m] < self.pairs().len(),
                k <= steps@.len(),
                choices@.len() == k,
                forall|m: int| 0 <= m < k ==> (#[trigger] choices@[m])@ == want[m],
            decreases steps@.len() - k,
        {
            let c = self.choices[steps[k]].copy();
            assert(want[k as int] == choice_ops(
                self.pairs()[sp[k as int]].0,
                self.pairs()[sp[k as int]].1,
                self.relations(),
            ));
            choices.push(c);
            k += 1;
        }
        let m = MetaAnalyzer::new(choices);
        assert(m.lists() =~= want);
        let subs = m.find_patterns();
        let ghost sv = views(subs@);
        let mut r: Vec<PatternElem<R>> = Vec::new();
        let mut i: usize = 0;
        while i < subs.len()
            invariant
                sv == views(subs@),
                i <= subs@.len(),
                r@.len() == i,
                forall|j: int| 0 <= j < i ==> (#[trigger] r@[j])@ == Op::Meta(sv[j]),
            decreases subs@.len() - i,
        {
            let q = subs[i].copy();
            proof {
                lemma_meta_view(q.0);
            }
            r.push(PatternElem::Meta(q));
            i += 1;
        }
        assert(ops_of(r@) =~= nested_ops(sv));
        r
    }

    /// The operations that may stand at offset `o` of a cycle of length `n`.
    fn candidates(&self, o: usize, n: usize) -> (r: Vec<PatternElem<R>>)
        requires
            self.wf(),
            n > 0,
        ensures
            ops_of(r@) == candidates(self.pairs(), self.relations(), self.uses_meta(), o as int, n as int),
    {
        let c = self.intersection(o, n);
        let mut r = select_kinds(&c, true);
        let ghost low = ops_of(r@);
        if self.meta {
            let mut m = self.find_meta_patterns(o, n);
            let ghost mv = ops_of(m@);
            r.append(&mut m);
            assert(ops_of(r@) =~= low + mv);
        } else {
            assert(ops_of(r@) =~= low + Seq::<Op<R>>::empty());
        }
        let ghost mid = ops_of(r@);
        let mut high = select_kinds(&c, false);
        let ghost hv = ops_of(high@);
        r.append(&mut high);
        assert(ops_of(r@) =~= mid + hv);
        r
    }

    /// Finds all patterns with `n` operations that describe the given sequence, in ascending
    /// order. There are none for `n == 0`, and none for a sequence of fewer than two integers,
    /// which has no steps.
    pub fn find_patterns_of_length(&self, range: usize) -> (r: Vec<Pattern<R>>)
        requires
            self.wf(),
        ensures
            views(r@) == patterns_of_length(self.pairs(), self.relations(), self.uses_meta(), range as int),
            distinct_relations(self.relations()) ==> sorted_by(
                lex_order(op_lt(self.relations())),
                views(r@),
            ),
    {
        proof {
            if distinct_relations(self.relations()) {
                lemma_patterns_sorted(self.pairs(), self.relations(), self.uses_meta(), range as int);
            }
        }
        if range == 0 {
            let r: Vec<Pattern<R>> = Vec::new();
            assert(views(r@) =~= Seq::<Seq<Op<R>>>::empty());
            return r;
        }
        let ghost all = Seq::new(
            range as nat,
            |o: int| candidates(self.pairs(), self.relations(), self.uses_meta(), o, range as int),
        );
        let mut pats: Vec<Pattern<R>> = Vec::new();
        pats.push(Pattern::empty());
        assert(all.take(0) =~= Seq::<Seq<Op<R>>>::empty());
        assert(views(pats@) =~= product(all.take(0)));
        let mut i: usize = 0;
        while i < range
            invariant
                self.wf(),
                range > 0,
                i <= range,
                all == Seq::new(
                    range as nat,
                    |o: int| candidates(self.pairs(), self.relations(), self.uses_meta(), o, range as int),
                ),
                views(pats@) == product(all.take(i as int)),
            decreases range - i,
        {
            let cands = self.candidates(i, range);
            pats = extend_patterns(&pats, &cands);
            let ghost t = all.take(i + 1);
            assert(t.drop_last() =~= all.take(i as int));
            assert(t.last() == all[i as int]);
            i += 1;
        }
        assert(all.take(i as int) =~= all);
        pats
    }

    /// Attempts to find exactly one pattern of `n` operations that describes the given sequence:
    /// the last of `find_patterns_of_length(n)`.
    pub fn find_any_pattern_of_length(&self, n: usize) -> (r: Option<Pattern<R>>)
        requires
            self.wf(),
        ensures
            r is None <==> patterns_of_length(self.pairs(), self.relations(), self.uses_meta(), n as int).len() == 0,
            r matches Some(p) ==> p@ == patterns_of_length(
                self.pairs(),
                self.relations(),
                self.uses_meta(),
                n as int,
            ).last(),
    {
        let mut v = self.find_patterns_of_length(n);
        let ghost vv = views(v@);
        let r = v.pop();
        proof {
            if vv.len() > 0 {
                assert(vv.last() == vv[vv.len() - 1]);
            }
        }
        r
    }

    /// Finds the patterns of the smallest number of operations, at most `max`, that describe the
    /// given sequence.
    pub fn find_patterns(&self, max: usize) -> (r: Vec<Pattern<R>>)
        requires
            self.wf(),
        ensures
            views(r@) == first_found(self.pairs(), self.relations(), self.uses_meta(), max as int),
    {
        let ghost pairs = self.pairs();
        let ghost rels = self.relations();
        let ghost meta = self.uses_meta();
        let ghost f = |i: int| patterns_of_length(pairs, rels, meta, i);
        let mut k: usize = 0;
        while k < max
            invariant
                self.wf(),
                pairs == self.pairs(),
                rels == self.relations(),
                meta == self.uses_meta(),
                f == (|i: int| patterns_of_length(pairs, rels, meta, i)),
                k <= max,
                first_nonempty(f, k as int).len() == 0,
            decreases max - k,
        {
            let vec = self.find_patterns_of_length(k + 1);
            if vec.len() > 0 {
                proof {
                    assert(first_nonempty(f, k + 1) == views(vec@));
                    lemma_first_nonempty_stable(f, k + 1, max as int);
                }
                return vec;
            }
            assert(first_nonempty(f, k + 1) == views(vec@));
            k += 1;
        }
        let r: Vec<Pattern<R>> = Vec::new();
        assert(views(r@) =~= first_nonempty(f, max as int));
        r
    }

    /// Finds one pattern of the smallest number of operations, at most `max`, that describes the
    /// given sequence: the last of `find_patterns(max)`.
    pub fn find_any_pattern(&self, max: usize) -> (r: Option<Pattern<R>>)
        requires
            self.wf(),
        ensures
            r is None <==> first_found(self.pairs(), self.relations(), self.uses_meta(), max as int).len() == 0,
            r matches Some(p) ==> p@ == first_found(
                self.pairs(),
                self.relations(),
                self.uses_meta(),
                max as int,
            ).last(),
    {
        let mut v = self.find_patterns(max);
        let ghost vv = views(v@);
        let r = v.pop();
        proof {
            if vv.len() > 0 {
                assert(vv.last() == vv[vv.len() - 1]);
            }
        }
        r
    }
}

} // verus!