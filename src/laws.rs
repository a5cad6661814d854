use vstd::prelude::*;

use crate::analyzer::{
    candidates, common_ops, first_found, first_nonempty, kind_pred, nested_ops, offset_choices,
    offset_steps, pairs_of, patterns_of_length, valid_at, valid_pred, Analyzer,
};
use crate::arith::{cube, factor, magnitude, scaled, square};
use crate::choice::{admits, choice_ops, custom_ops, fits, optional};
use crate::meta::{kind, meta_pred, meta_subpatterns, steps_regularly};
use crate::pattern::{
    extend_all, extensions, product, views, CustomPatternElem, Op, Pattern, Relation,
};

verus! {

/// What applying `op` to `x` yields is `y`, in exact integer arithmetic.
pub open spec fn applies<R: Relation>(op: Op<R>, x: i32, y: i32) -> bool {
    match op {
        Op::Const(v) => y == v,
        Op::Cube => cube(x as int) == y,
        Op::CubeRoot => cube(y as int) == x,
        Op::Custom(r, _) => r.holds(x, y),
        Op::Div(d) => d != 0 && x == y * d,
        Op::Mod(m) => m != 0 && y as int == (if x >= 0 {
            (x as int) % (magnitude(m as int) as int)
        } else {
            -((-(x as int)) % (magnitude(m as int) as int))
        }),
        Op::Mult(m) => y == x * m,
        Op::Plus(d) => y == x + d,
        Op::Square => square(x as int) == y,
        Op::SquareRoot => square(y as int) == x,
        Op::Meta(_) => false,
    }
}

/// The operation of `p` at position `i` of `s` takes `s[i]` to `s[i + 1]`: element `i % n`
/// of `p`, or, where that element is a nested pattern, its element for occurrence `i / n`.
pub open spec fn applies_at<R: Relation>(p: Seq<Op<R>>, s: Seq<i32>, i: int) -> bool {
    let n = p.len() as int;
    match p[i % n] {
        Op::Meta(sub) => i / n < sub.len() && applies(sub[i / n], s[i], s[i + 1]),
        op => applies(op, s[i], s[i + 1]),
    }
}

/// No step of `s` goes from zero to a value other than zero.
pub open spec fn no_step_from_zero(s: Seq<i32>) -> bool {
    forall|i: int| 0 <= i < s.len() - 1 ==> !(#[trigger] s[i] == 0 && s[i + 1] != 0)
}

pub proof fn lemma_filter_subset<A>(s: Seq<A>, p: spec_fn(A) -> bool)
    ensures
        forall|i: int| 0 <= i < s.filter(p).len() ==> s.contains(#[trigger] s.filter(p)[i]),
    decreases s.len(),
{
    reveal(Seq::filter);
    if s.len() > 0 {
        lemma_filter_subset(s.drop_last(), p);
        let f = s.filter(p);
        let g = s.drop_last().filter(p);
        assert forall|i: int| 0 <= i < f.len() implies s.contains(#[trigger] f[i]) by {
            if i < g.len() {
                assert(f[i] == g[i]);
                let k = choose|k: int| 0 <= k < s.drop_last().len() && s.drop_last()[k] == g[i];
                assert(s[k] == f[i]);
            } else {
                assert(f[i] == s.last());
                assert(s[s.len() - 1] == f[i]);
            }
        }
    }
}

proof fn lemma_extend_all_member<R>(ps: Seq<Seq<Op<R>>>, c: Seq<Op<R>>, q: Seq<Op<R>>)
    requires
        extend_all(ps, c).contains(q),
    ensures
        exists|i: int, j: int| 0 <= i < ps.len() && 0 <= j < c.len() && q == ps[i].push(c[j]),
    decreases ps.len(),
{
    if ps.len() > 0 {
        let a = extend_all(ps.drop_last(), c);
        let b = extensions(ps.last(), c);
        let idx = choose|idx: int| 0 <= idx < extend_all(ps, c).len() && extend_all(ps, c)[idx] == q;
        if idx < a.len() {
            assert(a[idx] == q);
            lemma_extend_all_member(ps.drop_last(), c, q);
            let (i, j) = choose|i: int, j: int|
                0 <= i < ps.drop_last().len() && 0 <= j < c.len() && q == ps.drop_last()[i].push(c[j]);
            assert(ps[i] == ps.drop_last()[i]);
        } else {
            let j = idx - a.len();
            assert(b[j] == q);
            assert(q == ps[ps.len() - 1].push(c[j]));
        }
    }
}

/// A member of `product(lists)` takes its element `k` from `lists[k]`.
pub proof fn lemma_product_member<R>(lists: Seq<Seq<Op<R>>>, q: Seq<Op<R>>)
    requires
        product(lists).contains(q),
    ensures
        q.len() == lists.len(),
        forall|k: int| 0 <= k < lists.len() ==> lists[k].contains(#[trigger] q[k]),
    decreases lists.len(),
{
    if lists.len() == 0 {
        let idx = choose|idx: int| 0 <= idx < product(lists).len() && product(lists)[idx] == q;
        assert(product(lists)[idx] == Seq::<Op<R>>::empty());
    } else {
        let ps = product(lists.drop_last());
        lemma_extend_all_member(ps, lists.last(), q);
        let (i, j) = choose|i: int, j: int|
            0 <= i < ps.len() && 0 <= j < lists.last().len() && q == ps[i].push(lists.last()[j]);
        assert(ps.contains(ps[i]));
        lemma_product_member(lists.drop_last(), ps[i]);
        assert forall|k: int| 0 <= k < lists.len() implies lists[k].contains(#[trigger] q[k]) by {
            if k < lists.len() - 1 {
                assert(q[k] == ps[i][k]);
                assert(lists.drop_last()[k] == lists[k]);
            } else {
                assert(q[k] == lists.last()[j]);
            }
        }
    }
}

/// Position `o + k * n`.
pub open spec fn nth_step(o: int, k: int, n: int) -> int {
    o + k * n
}

/// The positions `offset_steps(len, o, n)` are `o + k * n`, and every such position below `len`
/// is among them.
pub proof fn lemma_offset_steps(len: int, o: int, n: int)
    requires
        n > 0,
        o >= 0,
    ensures
        forall|k: int|
            0 <= k < offset_steps(len, o, n).len() ==> #[trigger] offset_steps(len, o, n)[k] == o
                + k * n,
        forall|k: int| 0 <= k && #[trigger] nth_step(o, k, n) < len ==> k < offset_steps(len, o, n).len(),
    decreases (if o < len { len - o } else { 0 }),
{
    let s = offset_steps(len, o, n);
    if o < len {
        lemma_offset_steps(len, o + n, n);
        let t = offset_steps(len, o + n, n);
        assert(s == seq![o] + t);
        assert forall|k: int| 0 <= k < s.len() implies #[trigger] s[k] == o + k * n by {
            if k > 0 {
                assert(s[k] == t[k - 1]);
                assert(o + n + (k - 1) * n == o + k * n) by (nonlinear_arith);
            }
        }
        assert forall|k: int| 0 <= k && #[trigger] nth_step(o, k, n) < len implies k < offset_steps(
            len,
            o,
            n,
        ).len() by {
            if k > 0 {
                assert(nth_step(o + n, k - 1, n) == nth_step(o, k, n)) by (nonlinear_arith);
                assert(o + n + (k - 1) * n == o + k * n) by (nonlinear_arith);
                assert(k - 1 < t.len());
            }
        }
    } else {
        assert forall|k: int| 0 <= k && #[trigger] nth_step(o, k, n) < len implies k < offset_steps(
            len,
            o,
            n,
        ).len() by {
            assert(k * n >= 0) by (nonlinear_arith)
                requires
                    k >= 0,
                    n > 0,
            ;
        }
    }
}

proof fn lemma_custom_ops_admit<R: Relation + Copy>(
    x: i32,
    y: i32,
    rels: Seq<CustomPatternElem<R>>,
)
    ensures
        all_admit(custom_ops(x, y, rels), x, y),
    decreases rels.len(),
{
    if rels.len() > 0 {
        lemma_custom_ops_admit(x, y, rels.drop_last());
        let c = rels.last();
        let a = custom_ops(x, y, rels.drop_last());
        let b = optional(c.relation().holds(x, y), Op::Custom(c.relation(), c.label()));
        assert(custom_ops(x, y, rels) == a + b);
        lemma_concat_admit(a, b, x, y);
    }
}

/// Every operation of `s` takes the step from `x` to `y`.
pub open spec fn all_admit<R: Relation>(s: Seq<Op<R>>, x: i32, y: i32) -> bool {
    forall|i: int| 0 <= i < s.len() ==> admits(#[trigger] s[i], x, y)
}

proof fn lemma_concat_admit<R: Relation>(a: Seq<Op<R>>, b: Seq<Op<R>>, x: i32, y: i32)
    requires
        all_admit(a, x, y),
        all_admit(b, x, y),
    ensures
        all_admit(a + b, x, y),
{
    assert forall|i: int| 0 <= i < (a + b).len() implies admits(#[trigger] (a + b)[i], x, y) by {
        if i >= a.len() {
            assert((a + b)[i] == b[i - a.len()]);
        } else {
            assert((a + b)[i] == a[i]);
        }
    }
}

proof fn lemma_optional_admit<R: Relation>(c: bool, op: Op<R>, x: i32, y: i32)
    requires
        c ==> admits(op, x, y),
    ensures
        all_admit(optional(c, op), x, y),
{
}

/// Every operation of the choice set of a step takes that step.
pub proof fn lemma_choice_admits<R: Relation + Copy>(
    x: i32,
    y: i32,
    rels: Seq<CustomPatternElem<R>>,
)
    ensures
        all_admit(choice_ops(x, y, rels), x, y),
{
    lemma_custom_ops_admit(x, y, rels);
    let d = factor(y as int, x as int);
    let m = factor(x as int, y as int);
    let s0 = seq![Op::<R>::Const(y)];
    assert(all_admit(s0, x, y));
    let part1 = optional(cube(x as int) == y, Op::<R>::Cube);
    lemma_optional_admit(cube(x as int) == y, Op::<R>::Cube, x, y);
    lemma_concat_admit(s0, part1, x, y);
    let s1 = s0 + part1;
    let part2 = optional(cube(y as int) == x, Op::<R>::CubeRoot);
    lemma_optional_admit(cube(y as int) == x, Op::<R>::CubeRoot, x, y);
    lemma_concat_admit(s1, part2, x, y);
    let s2 = s1 + part2;
    let part3 = custom_ops(x, y, rels);
    assert(all_admit(part3, x, y));
    lemma_concat_admit(s2, part3, x, y);
    let s3 = s2 + part3;
    let part4 = optional(d is Some, Op::<R>::Div(d->0));
    lemma_optional_admit(d is Some, Op::<R>::Div(d->0), x, y);
    lemma_concat_admit(s3, part4, x, y);
    let s4 = s3 + part4;
    let part5 = optional(m is Some, Op::<R>::Mult(m->0));
    lemma_optional_admit(m is Some, Op::<R>::Mult(m->0), x, y);
    lemma_concat_admit(s4, part5, x, y);
    let s5 = s4 + part5;
    let part6 = optional(fits(y - x), Op::<R>::Plus((y - x) as i32));
    lemma_optional_admit(fits(y - x), Op::<R>::Plus((y - x) as i32), x, y);
    lemma_concat_admit(s5, part6, x, y);
    let s6 = s5 + part6;
    let part7 = optional(square(x as int) == y, Op::<R>::Square);
    lemma_optional_admit(square(x as int) == y, Op::<R>::Square, x, y);
    lemma_concat_admit(s6, part7, x, y);
    let s7 = s6 + part7;
    let part8 = optional(square(y as int) == x, Op::<R>::SquareRoot);
    lemma_optional_admit(square(y as int) == x, Op::<R>::SquareRoot, x, y);
    lemma_concat_admit(s7, part8, x, y);
    assert(s7 + part8 == choice_ops(x, y, rels));
}

proof fn lemma_admits_applies<R: Relation>(e: Op<R>, x: i32, y: i32)
    requires
        admits(e, x, y),
        !(x == 0 && y != 0),
    ensures
        applies(e, x, y),
{
    match e {
        Op::Div(d) => {
            let c = choose|m: i32| #[trigger] scaled(y as int, m as int) == x;
            assert(scaled(y as int, c as int) == x);
            assert(c == d);
            assert(x == y * d);
            if d == 0 {
                assert(y * d == 0) by (nonlinear_arith)
                    requires
                        d == 0,
                ;
            }
        },
        Op::Mult(m) => {
            let c = choose|k: i32| #[trigger] scaled(x as int, k as int) == y;
            assert(scaled(x as int, c as int) == y);
            assert(c == m);
        },
        _ => {},
    }
}

/// An operation that may stand at offset `o` applies at every position `i` with `i % n == o`.
proof fn lemma_candidate_applies<R: Relation + Copy>(
    s: Seq<i32>,
    rels: Seq<CustomPatternElem<R>>,
    meta: bool,
    n: int,
    o: int,
    e: Op<R>,
    i: int,
)
    requires
        0 <= o < n,
        candidates(pairs_of(s), rels, meta, o, n).contains(e),
        0 <= i < s.len() - 1,
        i % n == o,
        no_step_from_zero(s),
    ensures
        match e {
            Op::Meta(sub) => i / n < sub.len() && applies(sub[i / n], s[i], s[i + 1]),
            _ => applies(e, s[i], s[i + 1]),
        },
{
    let pairs = pairs_of(s);
    let len = pairs.len() as int;
    let steps = offset_steps(len, o, n);
    let k = i / n;
    vstd::arithmetic::div_mod::lemma_fundamental_div_mod(i, n);
    assert(i == o + k * n) by (nonlinear_arith)
        requires
            i == n * (i / n) + i % n,
            k == i / n,
            o == i % n,
    ;
    assert(k >= 0) by (nonlinear_arith)
        requires
            i >= 0,
            n > 0,
            k == i / n,
    ;
    lemma_offset_steps(len, o, n);
    assert(nth_step(o, k, n) == i);
    assert(k < steps.len());
    assert(steps[k] == i);
    assert(pairs[i] == (s[i], s[i + 1]));
    assert(!(s[i] == 0 && s[i + 1] != 0));
    let c = common_ops(pairs, rels, o, n);
    let low = c.filter(kind_pred(true));
    let high = c.filter(kind_pred(false));
    let m: Seq<Op<R>> = if meta {
        nested_ops(meta_subpatterns(offset_choices(pairs, rels, o, n)))
    } else {
        Seq::empty()
    };
    let all = candidates(pairs, rels, meta, o, n);
    assert(all == low + m + high);
    let idx = choose|idx: int| 0 <= idx < all.len() && all[idx] == e;
    if idx < low.len() || idx >= low.len() + m.len() {
        if idx < low.len() {
            assert(all[idx] == low[idx]);
            lemma_filter_subset(c, kind_pred::<R>(true));
            assert(c.contains(low[idx]));
        } else {
            assert(all[idx] == high[idx - low.len() - m.len()]);
            lemma_filter_subset(c, kind_pred::<R>(false));
            assert(c.contains(high[idx - low.len() - m.len()]));
        }
        assert(c.contains(e));
        assert(steps.len() > 0);
        let first = choice_ops(pairs[steps[0]].0, pairs[steps[0]].1, rels);
        broadcast use vstd::seq_lib::group_filter_ensures;
        let j = choose|j: int| 0 <= j < c.len() && c[j] == e;
        assert(valid_pred::<R>(pairs, steps)(c[j]));
        assert(valid_at(e, pairs, steps));
        assert(admits(e, pairs[steps[k]].0, pairs[steps[k]].1));
        lemma_admits_applies(e, s[i], s[i + 1]);
    } else {
        let subs = meta_subpatterns(offset_choices(pairs, rels, o, n));
        let oc = offset_choices(pairs, rels, o, n);
        assert(meta);
        let t = idx - low.len();
        assert(all[idx] == m[t]);
        assert(e == Op::Meta(subs[t]));
        let sub = subs[t];
        lemma_filter_subset(product(oc), meta_pred::<R>());
        assert(product(oc).contains(sub));
        lemma_product_member(oc, sub);
        assert(oc.len() == steps.len());
        assert(oc[k] == choice_ops(s[i], s[i + 1], rels));
        assert(oc[k].contains(sub[k]));
        lemma_choice_admits(s[i], s[i + 1], rels);
        let q = choose|q: int| 0 <= q < oc[k].len() && oc[k][q] == sub[k];
        assert(admits(oc[k][q], s[i], s[i + 1]));
        lemma_admits_applies(sub[k], s[i], s[i + 1]);
    }
}

/// Every pattern found for a sequence generates it: at each position `i`, the operation at
/// offset `i % n` takes `s[i]` to `s[i + 1]`; a nested pattern does so by its element for
/// occurrence `i / n`. This is stated for sequences with no step from zero to a non-zero value:
/// for such a step the choice rules admit a division by zero.
pub proof fn lemma_found_patterns_generate<R: Relation + Copy>(
    s: Seq<i32>,
    rels: Seq<CustomPatternElem<R>>,
    meta: bool,
    n: int,
    p: Seq<Op<R>>,
)
    requires
        n > 0,
        patterns_of_length(pairs_of(s), rels, meta, n).contains(p),
        no_step_from_zero(s),
    ensures
        p.len() == n,
        forall|i: int| 0 <= i < s.len() - 1 ==> #[trigger] applies_at(p, s, i),
{
    let pairs = pairs_of(s);
    let lists = Seq::new(n as nat, |o: int| candidates(pairs, rels, meta, o, n));
    lemma_product_member(lists, p);
    assert forall|i: int| 0 <= i < s.len() - 1 implies #[trigger] applies_at(p, s, i) by {
        let o = i % n;
        assert(0 <= o < n);
        assert(lists[o].contains(p[o]));
        lemma_candidate_applies(s, rels, meta, n, o, p[o], i);
    }
}

/// Two searches for the same cycle length, on analyzers of the same steps, custom relations and
/// mode, give the same patterns in the same order.
pub proof fn lemma_search_deterministic<R: Relation + Copy>(
    a: Analyzer<R>,
    b: Analyzer<R>,
    n: int,
    ra: Seq<Pattern<R>>,
    rb: Seq<Pattern<R>>,
)
    requires
        a.pairs() == b.pairs(),
        a.relations() == b.relations(),
        a.uses_meta() == b.uses_meta(),
        views(ra) == patterns_of_length(a.pairs(), a.relations(), a.uses_meta(), n),
        views(rb) == patterns_of_length(b.pairs(), b.relations(), b.uses_meta(), n),
    ensures
        views(ra) == views(rb),
{
}

/// Where patterns of cycle length `n` exist, the single pattern found for `n` is one of them:
/// the last in their order.
pub proof fn lemma_any_pattern_is_found<R: Relation + Copy>(
    all: Seq<Seq<Op<R>>>,
    any: Option<Pattern<R>>,
)
    requires
        all.len() > 0,
        any is None <==> all.len() == 0,
        any matches Some(p) ==> p@ == all.last(),
    ensures
        any is Some,
        all.contains(any->0@),
        any->0@ == all[all.len() - 1],
{
    assert(all[all.len() - 1] == all.last());
}

proof fn lemma_first_nonempty_smallest<A>(f: spec_fn(int) -> Seq<A>, max: int)
    ensures
        first_nonempty(f, max).len() == 0 <==> forall|i: int| 1 <= i <= max ==> #[trigger] f(i).len() == 0,
        first_nonempty(f, max).len() > 0 ==> exists|i: int|
            1 <= i <= max && first_nonempty(f, max) == #[trigger] f(i) && forall|j: int|
                1 <= j < i ==> #[trigger] f(j).len() == 0,
    decreases max,
{
    if max > 0 {
        lemma_first_nonempty_smallest(f, max - 1);
        let prev = first_nonempty(f, max - 1);
        if prev.len() > 0 {
            let i = choose|i: int|
                1 <= i <= max - 1 && prev == #[trigger] f(i) && forall|j: int|
                    1 <= j < i ==> #[trigger] f(j).len() == 0;
            assert(f(i).len() > 0);
        } else {
            assert forall|j: int| 1 <= j < max implies #[trigger] f(j).len() == 0 by {}
        }
    }
}

/// `first_found(max)` holds the patterns of the smallest cycle length in `1..=max` that has any,
/// and is empty exactly when no length in `1..=max` has any.
pub proof fn lemma_first_found_smallest<R: Relation + Copy>(
    pairs: Seq<(i32, i32)>,
    rels: Seq<CustomPatternElem<R>>,
    meta: bool,
    max: int,
)
    ensures
        first_found(pairs, rels, meta, max).len() == 0 <==> forall|i: int|
            1 <= i <= max ==> #[trigger] patterns_of_length(pairs, rels, meta, i).len() == 0,
        first_found(pairs, rels, meta, max).len() > 0 ==> exists|i: int|
            1 <= i <= max && first_found(pairs, rels, meta, max) == #[trigger] patterns_of_length(
                pairs,
                rels,
                meta,
                i,
            ) && forall|j: int|
                1 <= j < i ==> #[trigger] patterns_of_length(pairs, rels, meta, j).len() == 0,
{
    let f = |i: int| patterns_of_length(pairs, rels, meta, i);
    lemma_first_nonempty_smallest(f, max);
    assert forall|i: int| #[trigger] patterns_of_length(pairs, rels, meta, i) == f(i) by {}
    if first_found(pairs, rels, meta, max).len() > 0 {
        let i = choose|i: int|
            1 <= i <= max && first_nonempty(f, max) == #[trigger] f(i) && forall|j: int|
                1 <= j < i ==> #[trigger] f(j).len() == 0;
        assert(first_found(pairs, rels, meta, max) == patterns_of_length(pairs, rels, meta, i));
        assert forall|j: int| 1 <= j < i implies #[trigger] patterns_of_length(pairs, rels, meta, j).len() == 0 by {
            assert(f(j).len() == 0);
        }
    }
    if first_found(pairs, rels, meta, max).len() == 0 {
        assert forall|i: int| 1 <= i <= max implies #[trigger] patterns_of_length(pairs, rels, meta, i).len() == 0 by {
            assert(f(i).len() == 0);
        }
    } else {
        assert(!(forall|i: int| 1 <= i <= max ==> #[trigger] f(i).len() == 0));
        let i = choose|i: int| !(1 <= i <= max ==> #[trigger] f(i).len() == 0);
        assert(patterns_of_length(pairs, rels, meta, i).len() != 0);
    }
}

proof fn lemma_extend_all_empty<R>(ps: Seq<Seq<Op<R>>>, c: Seq<Op<R>>)
    requires
        ps.len() == 0 || c.len() == 0,
    ensures
        extend_all(ps, c).len() == 0,
    decreases ps.len(),
{
    if ps.len() > 0 {
        lemma_extend_all_empty(ps.drop_last(), c);
    }
}

/// With an empty list among `lists`, there is no pattern to take.
pub proof fn lemma_product_empty<R>(lists: Seq<Seq<Op<R>>>, k: int)
    requires
        0 <= k < lists.len(),
        lists[k].len() == 0,
    ensures
        product(lists).len() == 0,
    decreases lists.len(),
{
    if k == lists.len() - 1 {
        lemma_extend_all_empty(product(lists.drop_last()), lists.last());
    } else {
        lemma_product_empty(lists.drop_last(), k);
        lemma_extend_all_empty(product(lists.drop_last()), lists.last());
    }
}

/// A sequence of fewer than two integers has no pattern of any cycle length.
pub proof fn lemma_short_sequence_has_no_pattern<R: Relation + Copy>(
    s: Seq<i32>,
    rels: Seq<CustomPatternElem<R>>,
    meta: bool,
    n: int,
)
    requires
        s.len() < 2,
    ensures
        patterns_of_length(pairs_of(s), rels, meta, n).len() == 0,
{
    let pairs = pairs_of(s);
    assert(pairs.len() == 0);
    if n > 0 {
        let lists = Seq::new(n as nat, |o: int| candidates(pairs, rels, meta, o, n));
        assert(offset_steps(0, 0, n) =~= Seq::<int>::empty());
        let c = common_ops(pairs, rels, 0, n);
        assert(c.len() == 0);
        reveal(Seq::filter);
        assert(c.filter(kind_pred::<R>(true)) =~= Seq::<Op<R>>::empty());
        assert(c.filter(kind_pred::<R>(false)) =~= Seq::<Op<R>>::empty());
        let oc = offset_choices(pairs, rels, 0, n);
        assert(oc =~= Seq::<Seq<Op<R>>>::empty());
        let pr = product(oc);
        assert(pr == seq![Seq::<Op<R>>::empty()]);
        assert(pr.drop_last() =~= Seq::<Seq<Op<R>>>::empty());
        assert(!meta_pred::<R>()(pr.last()));
        reveal_with_fuel(Seq::filter, 2);
        assert(pr.filter(meta_pred::<R>()) =~= Seq::<Seq<Op<R>>>::empty());
        assert(candidates(pairs, rels, meta, 0, n) =~= Seq::<Op<R>>::empty());
        assert(lists[0].len() == 0);
        lemma_product_empty(lists, 0);
    }
}

/// Every pattern of cycle length `n` whose operation at each offset may stand there is found.
pub proof fn lemma_all_combinations_found<R: Relation + Copy>(
    pairs: Seq<(i32, i32)>,
    rels: Seq<CustomPatternElem<R>>,
    meta: bool,
    n: int,
    q: Seq<Op<R>>,
)
    requires
        n > 0,
        q.len() == n,
        forall|o: int| 0 <= o < n ==> candidates(pairs, rels, meta, o, n).contains(#[trigger] q[o]),
    ensures
        patterns_of_length(pairs, rels, meta, n).contains(q),
{
    let lists = Seq::new(n as nat, |o: int| candidates(pairs, rels, meta, o, n));
    assert forall|k: int| 0 <= k < lists.len() implies lists[k].contains(#[trigger] q[k]) by {}
    crate::order::lemma_product_complete(lists, q);
}

proof fn lemma_contains_left<A>(a: Seq<A>, b: Seq<A>, e: A)
    requires
        a.contains(e),
    ensures
        (a + b).contains(e),
{
    let i = choose|i: int| 0 <= i < a.len() && a[i] == e;
    assert((a + b)[i] == e);
}

proof fn lemma_contains_right<A>(a: Seq<A>, b: Seq<A>, e: A)
    requires
        b.contains(e),
    ensures
        (a + b).contains(e),
{
    let i = choose|i: int| 0 <= i < b.len() && b[i] == e;
    assert((a + b)[a.len() + i] == e);
}

proof fn lemma_peel_right<A>(a: Seq<A>, b: Seq<A>, e: A)
    requires
        (a + b).contains(e),
        !b.contains(e),
    ensures
        a.contains(e),
{
    let i = choose|i: int| 0 <= i < (a + b).len() && (a + b)[i] == e;
    if i >= a.len() {
        assert(b[i - a.len()] == e);
    }
}

proof fn lemma_peel_left<A>(a: Seq<A>, b: Seq<A>, e: A)
    requires
        (a + b).contains(e),
        !a.contains(e),
    ensures
        b.contains(e),
{
    let i = choose|i: int| 0 <= i < (a + b).len() && (a + b)[i] == e;
    if i < a.len() {
        assert(a[i] == e);
    } else {
        assert(b[i - a.len()] == e);
    }
}

/// A custom operation of some step's choice set comes from `rels`.
proof fn lemma_custom_from_rels<R: Relation + Copy>(
    x: i32,
    y: i32,
    rels: Seq<CustomPatternElem<R>>,
    r: R,
    l: Seq<char>,
)
    requires
        custom_ops(x, y, rels).contains(Op::Custom(r, l)),
    ensures
        exists|j: int| 0 <= j < rels.len() && rels[j].relation() == r && #[trigger] rels[j].label() == l,
    decreases rels.len(),
{
    if rels.len() > 0 {
        let c = rels.last();
        let a = custom_ops(x, y, rels.drop_last());
        let b = optional(c.relation().holds(x, y), Op::Custom(c.relation(), c.label()));
        let i = choose|i: int| 0 <= i < (a + b).len() && (a + b)[i] == Op::<R>::Custom(r, l);
        if i < a.len() {
            assert(a[i] == Op::<R>::Custom(r, l));
            lemma_custom_from_rels(x, y, rels.drop_last(), r, l);
            let j = choose|j: int|
                0 <= j < rels.drop_last().len() && rels.drop_last()[j].relation() == r
                    && #[trigger] rels.drop_last()[j].label() == l;
            assert(rels[j] == rels.drop_last()[j]);
        } else {
            assert(rels[rels.len() - 1].label() == l);
        }
    }
}

proof fn lemma_custom_in_ops<R: Relation + Copy>(
    x: i32,
    y: i32,
    rels: Seq<CustomPatternElem<R>>,
    j: int,
)
    requires
        0 <= j < rels.len(),
        rels[j].relation().holds(x, y),
    ensures
        custom_ops(x, y, rels).contains(Op::Custom(rels[j].relation(), rels[j].label())),
    decreases rels.len(),
{
    let c = rels.last();
    let a = custom_ops(x, y, rels.drop_last());
    let b = optional(c.relation().holds(x, y), Op::Custom(c.relation(), c.label()));
    if j < rels.len() - 1 {
        lemma_custom_in_ops(x, y, rels.drop_last(), j);
        assert(rels.drop_last()[j] == rels[j]);
        lemma_contains_left(a, b, Op::Custom(rels[j].relation(), rels[j].label()));
    } else {
        assert(b[0] == Op::Custom(rels[j].relation(), rels[j].label()));
        lemma_contains_right(a, b, Op::Custom(rels[j].relation(), rels[j].label()));
    }
}

/// A custom operation of a choice set comes from `rels`.
proof fn lemma_choice_custom_from_rels<R: Relation + Copy>(
    x0: i32,
    y0: i32,
    rels: Seq<CustomPatternElem<R>>,
    r: R,
    l: Seq<char>,
)
    requires
        choice_ops(x0, y0, rels).contains(Op::Custom(r, l)),
    ensures
        exists|j: int| 0 <= j < rels.len() && rels[j].relation() == r && #[trigger] rels[j].label() == l,
{
    let e = Op::<R>::Custom(r, l);
    let d0 = factor(y0 as int, x0 as int);
    let m0 = factor(x0 as int, y0 as int);
    let s0 = seq![Op::<R>::Const(y0)];
    let part1 = optional(cube(x0 as int) == y0, Op::<R>::Cube);
    let part2 = optional(cube(y0 as int) == x0, Op::<R>::CubeRoot);
    let part3 = custom_ops(x0, y0, rels);
    let part4 = optional(d0 is Some, Op::<R>::Div(d0->0));
    let part5 = optional(m0 is Some, Op::<R>::Mult(m0->0));
    let part6 = optional(fits(y0 - x0), Op::<R>::Plus((y0 - x0) as i32));
    let part7 = optional(square(x0 as int) == y0, Op::<R>::Square);
    let part8 = optional(square(y0 as int) == x0, Op::<R>::SquareRoot);
    let s1 = s0 + part1;
    let s2 = s1 + part2;
    let s3 = s2 + part3;
    let s4 = s3 + part4;
    let s5 = s4 + part5;
    let s6 = s5 + part6;
    let s7 = s6 + part7;
    assert(s7 + part8 == choice_ops(x0, y0, rels));
    lemma_peel_right(s7, part8, e);
    lemma_peel_right(s6, part7, e);
    lemma_peel_right(s5, part6, e);
    lemma_peel_right(s4, part5, e);
    lemma_peel_right(s3, part4, e);
    assert(!s0.contains(e));
    assert(!(s0 + part1).contains(e)) by {
        if (s0 + part1).contains(e) {
            lemma_peel_right(s0, part1, e);
        }
    }
    assert(!s2.contains(e)) by {
        if s2.contains(e) {
            lemma_peel_right(s1, part2, e);
        }
    }
    lemma_peel_left(s2, part3, e);
    lemma_custom_from_rels(x0, y0, rels, r, l);
}

/// An operation of one step's choice set that takes another step is in that step's choice set.
#[verifier::rlimit(40)]
pub proof fn lemma_admits_in_choice<R: Relation + Copy>(
    x0: i32,
    y0: i32,
    x: i32,
    y: i32,
    rels: Seq<CustomPatternElem<R>>,
    e: Op<R>,
)
    requires
        choice_ops(x0, y0, rels).contains(e),
        admits(e, x, y),
    ensures
        choice_ops(x, y, rels).contains(e),
{
    let d = factor(y as int, x as int);
    let m = factor(x as int, y as int);
    let s0 = seq![Op::<R>::Const(y)];
    let part1 = optional(cube(x as int) == y, Op::<R>::Cube);
    let part2 = optional(cube(y as int) == x, Op::<R>::CubeRoot);
    let part3 = custom_ops(x, y, rels);
    let part4 = optional(d is Some, Op::<R>::Div(d->0));
    let part5 = optional(m is Some, Op::<R>::Mult(m->0));
    let part6 = optional(fits(y - x), Op::<R>::Plus((y - x) as i32));
    let part7 = optional(square(x as int) == y, Op::<R>::Square);
    let part8 = optional(square(y as int) == x, Op::<R>::SquareRoot);
    let s1 = s0 + part1;
    let s2 = s1 + part2;
    let s3 = s2 + part3;
    let s4 = s3 + part4;
    let s5 = s4 + part5;
    let s6 = s5 + part6;
    let s7 = s6 + part7;
    let s8 = s7 + part8;
    assert(s8 == choice_ops(x, y, rels));
    let k: int = match e {
        Op::Const(_) => {
            assert(s0[0] == e);
            lemma_contains_left(s0, part1, e);
            1
        },
        Op::Cube => {
            assert(part1[0] == e);
            lemma_contains_right(s0, part1, e);
            1
        },
        Op::CubeRoot => {
            assert(part2[0] == e);
            lemma_contains_right(s1, part2, e);
            2
        },
        Op::Custom(r, l) => {
            lemma_choice_custom_from_rels(x0, y0, rels, r, l);
            let j = choose|j: int| 0 <= j < rels.len() && rels[j].relation() == r && #[trigger] rels[j].label() == l;
            lemma_custom_in_ops(x, y, rels, j);
            lemma_contains_right(s2, part3, e);
            3
        },
        Op::Div(_) => {
            assert(part4[0] == e);
            lemma_contains_right(s3, part4, e);
            4
        },
        Op::Mult(_) => {
            assert(part5[0] == e);
            lemma_contains_right(s4, part5, e);
            5
        },
        Op::Plus(v) => {
            assert(fits(y - x));
            assert(part6[0] == e);
            lemma_contains_right(s5, part6, e);
            6
        },
        Op::Square => {
            assert(part7[0] == e);
            lemma_contains_right(s6, part7, e);
            7
        },
        Op::SquareRoot => {
            assert(part8[0] == e);
            lemma_contains_right(s7, part8, e);
            8
        },
        _ => 0,
    };
    if k <= 1 {
        lemma_contains_left(s1, part2, e);
    }
    if k <= 2 {
        lemma_contains_left(s2, part3, e);
    }
    if k <= 3 {
        lemma_contains_left(s3, part4, e);
    }
    if k <= 4 {
        lemma_contains_left(s4, part5, e);
    }
    if k <= 5 {
        lemma_contains_left(s5, part6, e);
    }
    if k <= 6 {
        lemma_contains_left(s6, part7, e);
    }
    if k <= 7 {
        lemma_contains_left(s7, part8, e);
    }
}

/// The operations common to all steps at offset `o` of a cycle of length `n` are exactly those
/// in the choice set of every such step.
pub proof fn lemma_common_is_intersection<R: Relation + Copy>(
    pairs: Seq<(i32, i32)>,
    rels: Seq<CustomPatternElem<R>>,
    o: int,
    n: int,
    e: Op<R>,
)
    ensures
        common_ops(pairs, rels, o, n).contains(e) <==> (offset_steps(pairs.len() as int, o, n).len()
            > 0 && forall|k: int|
            0 <= k < offset_steps(pairs.len() as int, o, n).len() ==> choice_ops(
                pairs[offset_steps(pairs.len() as int, o, n)[k]].0,
                pairs[offset_steps(pairs.len() as int, o, n)[k]].1,
                rels,
            ).contains(e)),
{
    let steps = offset_steps(pairs.len() as int, o, n);
    if steps.len() > 0 {
        let first = choice_ops(pairs[steps[0]].0, pairs[steps[0]].1, rels);
        let c = common_ops(pairs, rels, o, n);
        let pred = valid_pred::<R>(pairs, steps);
        broadcast use vstd::seq_lib::group_filter_ensures;
        lemma_filter_subset(first, pred);
        if c.contains(e) {
            let i = choose|i: int| 0 <= i < c.len() && c[i] == e;
            assert(pred(c[i]));
            assert(first.contains(e));
            assert forall|k: int| 0 <= k < steps.len() implies choice_ops(
                pairs[steps[k]].0,
                pairs[steps[k]].1,
                rels,
            ).contains(e) by {
                assert(admits(e, pairs[steps[k]].0, pairs[steps[k]].1));
                lemma_admits_in_choice(
                    pairs[steps[0]].0,
                    pairs[steps[0]].1,
                    pairs[steps[k]].0,
                    pairs[steps[k]].1,
                    rels,
                    e,
                );
            }
        }
        if forall|k: int|
            0 <= k < steps.len() ==> choice_ops(pairs[steps[k]].0, pairs[steps[k]].1, rels).contains(e) {
            assert forall|k: int| 0 <= k < steps.len() implies #[trigger] admits(
                e,
                pairs[steps[k]].0,
                pairs[steps[k]].1,
            ) by {
                let ck = choice_ops(pairs[steps[k]].0, pairs[steps[k]].1, rels);
                assert(ck.contains(e));
                lemma_choice_admits(pairs[steps[k]].0, pairs[steps[k]].1, rels);
                let q = choose|q: int| 0 <= q < ck.len() && ck[q] == e;
                assert(admits(ck[q], pairs[steps[k]].0, pairs[steps[k]].1));
            }
            assert(pred(e));
            assert(first.contains(e));
            let i = choose|i: int| 0 <= i < first.len() && first[i] == e;
            assert(c.contains(first[i]));
        }
    }
}

/// The operands of a nested pattern progress regularly exactly when a fresh search for them,
/// with no custom relations and no nested patterns, finds a pattern of cycle length 1.
pub proof fn lemma_steps_regularly_is_search<R: Relation + Copy>(ops: Seq<i32>)
    ensures
        steps_regularly::<R>(ops) <==> patterns_of_length::<R>(pairs_of(ops), Seq::empty(), false, 1).len()
            > 0,
{
    let pairs = pairs_of(ops);
    let rels = Seq::<CustomPatternElem<R>>::empty();
    let c = common_ops(pairs, rels, 0, 1);
    let low = c.filter(kind_pred::<R>(true));
    let high = c.filter(kind_pred::<R>(false));
    let cands = candidates(pairs, rels, false, 0, 1);
    assert(cands == low + Seq::<Op<R>>::empty() + high);
    let lists = Seq::new(1, |o: int| candidates(pairs, rels, false, o, 1));
    assert(lists.drop_last() =~= Seq::<Seq<Op<R>>>::empty());
    assert(product(lists.drop_last()) == seq![Seq::<Op<R>>::empty()]);
    crate::order::lemma_extend_all_index(product(lists.drop_last()), cands);
    assert(patterns_of_length::<R>(pairs, rels, false, 1).len() == cands.len());
    broadcast use vstd::seq_lib::group_filter_ensures;
    if c.len() > 0 {
        let steps = offset_steps(pairs.len() as int, 0, 1);
        let first = choice_ops(pairs[steps[0]].0, pairs[steps[0]].1, rels);
        assert(valid_pred::<R>(pairs, steps)(c[0]));
        assert(admits(c[0], pairs[steps[0]].0, pairs[steps[0]].1));
        assert(kind(c[0]) != 5);
        if kind(c[0]) < 5 {
            assert(kind_pred::<R>(true)(c[0]));
            assert(low.contains(c[0]));
        } else {
            assert(kind_pred::<R>(false)(c[0]));
            assert(high.contains(c[0]));
        }
    } else {
        reveal(Seq::filter);
        assert(low.len() == 0);
        assert(high.len() == 0);
    }
}

} // verus!