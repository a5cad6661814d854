use vstd::prelude::*;

use crate::analyzer::{
    candidates, common_ops, kind_pred, nested_ops, offset_choices, offset_steps,
    patterns_of_length, valid_pred,
};
use crate::arith::{cube, factor, square};
use crate::choice::{choice_ops, custom_ops, fits, optional};
use crate::meta::{kind, meta_pred, meta_subpatterns};
use crate::pattern::{extend_all, extensions, product, CustomPatternElem, Op, Relation};

verus! {

/// Element `a * c.len() + b` of `extend_all(ps, c)` is `ps[a]` extended by `c[b]`.
pub proof fn lemma_extend_all_index<R>(ps: Seq<Seq<Op<R>>>, c: Seq<Op<R>>)
    ensures
        extend_all(ps, c).len() == ps.len() * c.len(),
        forall|a: int, b: int|
            0 <= a < ps.len() && 0 <= b < c.len() ==> #[trigger] extend_all(ps, c)[a * c.len() + b]
                == ps[a].push(c[b]),
    decreases ps.len(),
{
    let l = c.len() as int;
    if ps.len() > 0 {
        let m = ps.len() as int;
        lemma_extend_all_index(ps.drop_last(), c);
        let head = extend_all(ps.drop_last(), c);
        let tail = extensions(ps.last(), c);
        assert(head.len() == (m - 1) * l);
        assert((m - 1) * l + l == m * l) by (nonlinear_arith);
        assert forall|a: int, b: int| 0 <= a < m && 0 <= b < l implies #[trigger] extend_all(
            ps,
            c,
        )[a * l + b] == ps[a].push(c[b]) by {
            if a < m - 1 {
                assert(a * l + b < (m - 1) * l) by (nonlinear_arith)
                    requires
                        0 <= a < m - 1,
                        0 <= b < l,
                ;
                assert(a * l + b >= 0) by (nonlinear_arith)
                    requires
                        0 <= a,
                        0 <= b,
                        l >= 0,
                ;
                assert(ps.drop_last()[a] == ps[a]);
            } else {
                assert(a * l + b == (m - 1) * l + b);
                assert(tail[b] == ps[a].push(c[b]));
            }
        }
    } else {
        assert(ps.len() * c.len() == 0) by (nonlinear_arith)
            requires
                ps.len() == 0,
        ;
    }
}

/// Every pattern whose element `k` is taken from `lists[k]` is in `product(lists)`.
pub proof fn lemma_product_complete<R>(lists: Seq<Seq<Op<R>>>, q: Seq<Op<R>>)
    requires
        q.len() == lists.len(),
        forall|k: int| 0 <= k < lists.len() ==> lists[k].contains(#[trigger] q[k]),
    ensures
        product(lists).contains(q),
    decreases lists.len(),
{
    if lists.len() == 0 {
        assert(q =~= Seq::<Op<R>>::empty());
        assert(product(lists)[0] == q);
    } else {
        let n = lists.len() - 1;
        let p = q.drop_last();
        assert forall|k: int| 0 <= k < lists.drop_last().len() implies lists.drop_last()[k].contains(
            #[trigger] p[k],
        ) by {
            assert(lists[k].contains(q[k]));
        }
        lemma_product_complete(lists.drop_last(), p);
        let ps = product(lists.drop_last());
        let c = lists.last();
        let a = choose|a: int| 0 <= a < ps.len() && ps[a] == p;
        assert(c.contains(q[n]));
        let b = choose|b: int| 0 <= b < c.len() && c[b] == q[n];
        lemma_extend_all_index(ps, c);
        assert(a * c.len() + b < ps.len() * c.len()) by (nonlinear_arith)
            requires
                0 <= a < ps.len(),
                0 <= b < c.len(),
        ;
        assert(a * c.len() + b >= 0) by (nonlinear_arith)
            requires
                0 <= a,
                0 <= b,
        ;
        assert(ps[a].push(c[b]) =~= q);
        assert(product(lists)[a * c.len() + b] == q);
    }
}

/// Every earlier element of `s` comes before every later one under `lt`.
pub open spec fn sorted_by<A>(lt: spec_fn(A, A) -> bool, s: Seq<A>) -> bool {
    forall|i: int, j: int| 0 <= i < j < s.len() ==> #[trigger] lt(s[i], s[j])
}

/// At the first position where they differ, `lt` puts `p`'s operation before `q`'s.
pub open spec fn lex<R>(lt: spec_fn(Op<R>, Op<R>) -> bool, p: Seq<Op<R>>, q: Seq<Op<R>>) -> bool {
    exists|k: int| 0 <= k < p.len() && k < q.len() && p.take(k) == q.take(k) && #[trigger] lt(p[k], q[k])
}

/// The lexicographic order that `lt` induces on patterns.
pub open spec fn lex_order<R>(lt: spec_fn(Op<R>, Op<R>) -> bool) -> spec_fn(Seq<Op<R>>, Seq<Op<R>>) -> bool {
    |p: Seq<Op<R>>, q: Seq<Op<R>>| lex(lt, p, q)
}

proof fn lemma_index_order(a: int, b: int, a2: int, b2: int, l: int)
    requires
        0 <= b < l,
        0 <= b2 < l,
        a >= 0,
        a2 >= 0,
        a * l + b < a2 * l + b2,
    ensures
        a < a2 || (a == a2 && b < b2),
{
    if a > a2 {
        assert(a * l >= (a2 + 1) * l) by (nonlinear_arith)
            requires
                a >= a2 + 1,
                l > 0,
        ;
        assert((a2 + 1) * l == a2 * l + l) by (nonlinear_arith);
    } else if a == a2 {
    }
}

/// Extending sorted patterns of one length by sorted operations keeps them sorted.
proof fn lemma_extend_all_sorted<R>(
    lt: spec_fn(Op<R>, Op<R>) -> bool,
    ps: Seq<Seq<Op<R>>>,
    c: Seq<Op<R>>,
    k: int,
)
    requires
        forall|i: int| 0 <= i < ps.len() ==> (#[trigger] ps[i]).len() == k,
        sorted_by(lex_order(lt), ps),
        sorted_by(lt, c),
    ensures
        sorted_by(lex_order(lt), extend_all(ps, c)),
{
    let e = extend_all(ps, c);
    let l = c.len() as int;
    lemma_extend_all_index(ps, c);
    assert forall|i: int, j: int| 0 <= i < j < e.len() implies #[trigger] lex_order(lt)(e[i], e[j]) by {
        assert(l > 0) by (nonlinear_arith)
            requires
                e.len() == ps.len() * l,
                e.len() > 0,
                l >= 0,
        ;
        let a = i / l;
        let b = i % l;
        let a2 = j / l;
        let b2 = j % l;
        vstd::arithmetic::div_mod::lemma_fundamental_div_mod(i, l);
        vstd::arithmetic::div_mod::lemma_fundamental_div_mod(j, l);
        assert(i == a * l + b) by (nonlinear_arith)
            requires
                i == l * (i / l) + i % l,
                a == i / l,
                b == i % l,
        ;
        assert(j == a2 * l + b2) by (nonlinear_arith)
            requires
                j == l * (j / l) + j % l,
                a2 == j / l,
                b2 == j % l,
        ;
        assert(a >= 0 && a2 >= 0) by (nonlinear_arith)
            requires
                i >= 0,
                j >= 0,
                l > 0,
                a == i / l,
                a2 == j / l,
        ;
        assert(a2 < ps.len()) by (nonlinear_arith)
            requires
                j == a2 * l + b2,
                j < ps.len() * l,
                0 <= b2 < l,
        ;
        lemma_index_order(a, b, a2, b2, l);
        assert(e[i] == ps[a].push(c[b]));
        assert(e[j] == ps[a2].push(c[b2]));
        if a < a2 {
            assert(lex_order(lt)(ps[a], ps[a2]));
            let w = choose|w: int|
                0 <= w < ps[a].len() && w < ps[a2].len() && ps[a].take(w) == ps[a2].take(w)
                    && #[trigger] lt(ps[a][w], ps[a2][w]);
            assert(e[i].take(w) =~= ps[a].take(w));
            assert(e[j].take(w) =~= ps[a2].take(w));
            assert(e[i][w] == ps[a][w]);
            assert(e[j][w] == ps[a2][w]);
            assert(lex(lt, e[i], e[j]));
        } else {
            assert(e[i].take(k) =~= ps[a]);
            assert(e[j].take(k) =~= ps[a2]);
            assert(lt(c[b], c[b2]));
            assert(e[i][k] == c[b]);
            assert(e[j][k] == c[b2]);
            assert(lex(lt, e[i], e[j]));
        }
    }
}

/// The product of lists sorted by `lt` is sorted lexicographically.
pub proof fn lemma_product_sorted<R>(lt: spec_fn(Op<R>, Op<R>) -> bool, lists: Seq<Seq<Op<R>>>)
    requires
        forall|k: int| 0 <= k < lists.len() ==> sorted_by(lt, #[trigger] lists[k]),
    ensures
        sorted_by(lex_order(lt), product(lists)),
        forall|i: int| 0 <= i < product(lists).len() ==> (#[trigger] product(lists)[i]).len() == lists.len(),
    decreases lists.len(),
{
    if lists.len() > 0 {
        let ps = product(lists.drop_last());
        assert forall|k: int| 0 <= k < lists.drop_last().len() implies sorted_by(
            lt,
            #[trigger] lists.drop_last()[k],
        ) by {
            assert(lists.drop_last()[k] == lists[k]);
        }
        lemma_product_sorted(lt, lists.drop_last());
        assert(sorted_by(lt, lists[lists.len() - 1]));
        lemma_extend_all_sorted(lt, ps, lists.last(), lists.len() - 1);
        let e = product(lists);
        lemma_extend_all_index(ps, lists.last());
        assert forall|i: int| 0 <= i < e.len() implies (#[trigger] e[i]).len() == lists.len() by {
            assert(e.contains(e[i]));
            crate::laws::lemma_product_member(lists, e[i]);
        }
    }
}

/// Keeping some elements of a sorted sequence keeps it sorted.
pub proof fn lemma_filter_sorted<A>(lt: spec_fn(A, A) -> bool, s: Seq<A>, p: spec_fn(A) -> bool)
    requires
        sorted_by(lt, s),
    ensures
        sorted_by(lt, s.filter(p)),
    decreases s.len(),
{
    reveal(Seq::filter);
    if s.len() > 0 {
        let d = s.drop_last();
        assert(sorted_by(lt, d)) by {
            assert forall|i: int, j: int| 0 <= i < j < d.len() implies #[trigger] lt(d[i], d[j]) by {
                assert(lt(s[i], s[j]));
            }
        }
        lemma_filter_sorted(lt, d, p);
        let g = d.filter(p);
        let f = s.filter(p);
        crate::laws::lemma_filter_subset(d, p);
        assert forall|i: int, j: int| 0 <= i < j < f.len() implies #[trigger] lt(f[i], f[j]) by {
            if j < g.len() {
                assert(f[i] == g[i] && f[j] == g[j]);
            } else {
                assert(f[j] == s.last());
                assert(f[i] == g[i]);
                assert(d.contains(g[i]));
                let k = choose|k: int| 0 <= k < d.len() && d[k] == g[i];
                assert(lt(s[k], s[s.len() - 1]));
            }
        }
    }
}

/// Joining sorted sequences keeps them sorted where each element of `a` comes before each of `b`.
pub proof fn lemma_concat_sorted<A>(lt: spec_fn(A, A) -> bool, a: Seq<A>, b: Seq<A>)
    requires
        sorted_by(lt, a),
        sorted_by(lt, b),
        forall|i: int, j: int| 0 <= i < a.len() && 0 <= j < b.len() ==> #[trigger] lt(a[i], b[j]),
    ensures
        sorted_by(lt, a + b),
{
    let c = a + b;
    assert forall|i: int, j: int| 0 <= i < j < c.len() implies #[trigger] lt(c[i], c[j]) by {
        if j < a.len() {
            assert(c[i] == a[i] && c[j] == a[j]);
        } else if i >= a.len() {
            assert(c[i] == b[i - a.len()] && c[j] == b[j - a.len()]);
        } else {
            assert(c[i] == a[i] && c[j] == b[j - a.len()]);
        }
    }
}

/// No two relations of `rels` have the same predicate and label.
pub open spec fn distinct_relations<R: Relation + Copy>(rels: Seq<CustomPatternElem<R>>) -> bool {
    forall|i: int, j: int|
        #![trigger rels[i], rels[j]]
        0 <= i < rels.len() && 0 <= j < rels.len() && i != j ==> !(rels[i].relation()
            == rels[j].relation() && rels[i].label() == rels[j].label())
}

/// The position in `rels` of the relation `r` with label `l`.
pub open spec fn custom_index<R: Relation + Copy>(
    rels: Seq<CustomPatternElem<R>>,
    r: R,
    l: Seq<char>,
) -> int {
    choose|i: int| 0 <= i < rels.len() && rels[i].relation() == r && rels[i].label() == l
}

/// Two operations of one kind, ordered by operand, or custom relations by their position in
/// `rels`.
pub open spec fn operand_lt<R: Relation + Copy>(rels: Seq<CustomPatternElem<R>>, a: Op<R>, b: Op<R>) -> bool {
    match a {
        Op::Const(x) => b matches Op::Const(y) && x < y,
        Op::Div(x) => b matches Op::Div(y) && x < y,
        Op::Mod(x) => b matches Op::Mod(y) && x < y,
        Op::Mult(x) => b matches Op::Mult(y) && x < y,
        Op::Plus(x) => b matches Op::Plus(y) && x < y,
        Op::Custom(r1, l1) => b matches Op::Custom(r2, l2) && custom_index(rels, r1, l1)
            < custom_index(rels, r2, l2),
        _ => false,
    }
}

/// The order of operations that are not nested patterns: by kind, then by operand.
pub open spec fn flat_lt<R: Relation + Copy>(rels: Seq<CustomPatternElem<R>>) -> spec_fn(Op<R>, Op<R>) -> bool {
    |a: Op<R>, b: Op<R>| kind(a) < kind(b) || (kind(a) == kind(b) && operand_lt(rels, a, b))
}

/// The order of operations: by kind, then by operand; nested patterns, whose elements are not
/// nested, lexicographically.
pub open spec fn op_lt<R: Relation + Copy>(rels: Seq<CustomPatternElem<R>>) -> spec_fn(Op<R>, Op<R>) -> bool {
    |a: Op<R>, b: Op<R>|
        kind(a) < kind(b) || (kind(a) == kind(b) && (operand_lt(rels, a, b) || (a is Meta && b is Meta
            && lex(flat_lt(rels), a->Meta_0, b->Meta_0))))
}

proof fn lemma_custom_index<R: Relation + Copy>(rels: Seq<CustomPatternElem<R>>, j: int)
    requires
        distinct_relations(rels),
        0 <= j < rels.len(),
    ensures
        custom_index(rels, rels[j].relation(), rels[j].label()) == j,
{
    let i = custom_index(rels, rels[j].relation(), rels[j].label());
    assert(0 <= i < rels.len() && rels[i].relation() == rels[j].relation() && rels[i].label()
        == rels[j].label());
}

/// Every operation of `s` has a kind below `k`.
pub open spec fn kinds_below<R>(s: Seq<Op<R>>, k: int) -> bool {
    forall|i: int| 0 <= i < s.len() ==> kind(#[trigger] s[i]) < k
}

/// Every operation of `s` has a kind in `k..k2`.
pub open spec fn kinds_within<R>(s: Seq<Op<R>>, k: int, k2: int) -> bool {
    forall|i: int| 0 <= i < s.len() ==> k <= kind(#[trigger] s[i]) < k2
}

proof fn lemma_append_piece<R: Relation + Copy>(
    rels: Seq<CustomPatternElem<R>>,
    acc: Seq<Op<R>>,
    piece: Seq<Op<R>>,
    k: int,
    k2: int,
)
    requires
        sorted_by(flat_lt(rels), acc),
        sorted_by(flat_lt(rels), piece),
        kinds_below(acc, k),
        kinds_within(piece, k, k2),
        k <= k2,
    ensures
        sorted_by(flat_lt(rels), acc + piece),
        kinds_below(acc + piece, k2),
{
    assert forall|i: int, j: int| 0 <= i < acc.len() && 0 <= j < piece.len() implies #[trigger] flat_lt(
        rels,
    )(acc[i], piece[j]) by {
        assert(kind(acc[i]) < k);
        assert(k <= kind(piece[j]));
    }
    lemma_concat_sorted(flat_lt(rels), acc, piece);
    let c = acc + piece;
    assert forall|i: int| 0 <= i < c.len() implies kind(#[trigger] c[i]) < k2 by {
        if i < acc.len() {
            assert(c[i] == acc[i]);
        } else {
            assert(c[i] == piece[i - acc.len()]);
        }
    }
}

proof fn lemma_optional_piece<R: Relation + Copy>(rels: Seq<CustomPatternElem<R>>, c: bool, op: Op<R>)
    ensures
        sorted_by(flat_lt(rels), optional(c, op)),
        kinds_within(optional(c, op), kind(op), kind(op) + 1),
{
}

proof fn lemma_custom_ops_sorted<R: Relation + Copy>(
    x: i32,
    y: i32,
    rels: Seq<CustomPatternElem<R>>,
    m: int,
)
    requires
        distinct_relations(rels),
        0 <= m <= rels.len(),
    ensures
        sorted_by(flat_lt(rels), custom_ops(x, y, rels.take(m))),
        kinds_within(custom_ops(x, y, rels.take(m)), 3, 4),
        forall|i: int|
            0 <= i < custom_ops(x, y, rels.take(m)).len() ==> exists|j: int|
                0 <= j < m && #[trigger] custom_ops(x, y, rels.take(m))[i] == Op::Custom(
                    rels[j].relation(),
                    rels[j].label(),
                ),
    decreases m,
{
    let s = custom_ops(x, y, rels.take(m));
    if m > 0 {
        lemma_custom_ops_sorted(x, y, rels, m - 1);
        let t = rels.take(m);
        assert(t.drop_last() =~= rels.take(m - 1));
        assert(t.last() == rels[m - 1]);
        let a = custom_ops(x, y, rels.take(m - 1));
        let c = rels[m - 1];
        let b = optional(c.relation().holds(x, y), Op::Custom(c.relation(), c.label()));
        assert(s == a + b);
        lemma_custom_index(rels, m - 1);
        assert forall|i: int, j: int| 0 <= i < a.len() && 0 <= j < b.len() implies #[trigger] flat_lt(
            rels,
        )(a[i], b[j]) by {
            let q = choose|q: int|
                0 <= q < m - 1 && #[trigger] a[i] == Op::Custom(rels[q].relation(), rels[q].label());
            lemma_custom_index(rels, q);
        }
        lemma_concat_sorted(flat_lt(rels), a, b);
        assert forall|i: int| 0 <= i < s.len() implies exists|j: int|
            0 <= j < m && #[trigger] s[i] == Op::Custom(rels[j].relation(), rels[j].label()) by {
            if i < a.len() {
                assert(s[i] == a[i]);
                let q = choose|q: int|
                    0 <= q < m - 1 && #[trigger] a[i] == Op::Custom(rels[q].relation(), rels[q].label());
            } else {
                assert(s[i] == b[i - a.len()]);
            }
        }
        assert forall|i: int| 0 <= i < s.len() implies 3 <= kind(#[trigger] s[i]) < 4 by {
            if i < a.len() {
                assert(s[i] == a[i]);
            } else {
                assert(s[i] == b[i - a.len()]);
            }
        }
    } else {
        assert(rels.take(0) =~= Seq::<CustomPatternElem<R>>::empty());
    }
}

/// A choice set lists its operations in order.
pub proof fn lemma_choice_sorted<R: Relation + Copy>(x: i32, y: i32, rels: Seq<CustomPatternElem<R>>)
    requires
        distinct_relations(rels),
    ensures
        sorted_by(flat_lt(rels), choice_ops(x, y, rels)),
        kinds_below(choice_ops(x, y, rels), 11),
{
    lemma_custom_ops_sorted(x, y, rels, rels.len() as int);
    assert(rels.take(rels.len() as int) =~= rels);
    let d = factor(y as int, x as int);
    let m = factor(x as int, y as int);
    let s0 = seq![Op::<R>::Const(y)];
    assert(sorted_by(flat_lt(rels), s0));
    assert(kinds_below(s0, 1));
    let part1 = optional(cube(x as int) == y, Op::<R>::Cube);
    lemma_optional_piece(rels, cube(x as int) == y, Op::<R>::Cube);
    lemma_append_piece(rels, s0, part1, 1, 2);
    let s1 = s0 + part1;
    let part2 = optional(cube(y as int) == x, Op::<R>::CubeRoot);
    lemma_optional_piece(rels, cube(y as int) == x, Op::<R>::CubeRoot);
    lemma_append_piece(rels, s1, part2, 2, 3);
    let s2 = s1 + part2;
    let part3 = custom_ops(x, y, rels);
    lemma_append_piece(rels, s2, part3, 3, 4);
    let s3 = s2 + part3;
    let part4 = optional(d is Some, Op::<R>::Div(d->0));
    lemma_optional_piece(rels, d is Some, Op::<R>::Div(d->0));
    lemma_append_piece(rels, s3, part4, 4, 5);
    let s4 = s3 + part4;
    let part5 = optional(m is Some, Op::<R>::Mult(m->0));
    lemma_optional_piece(rels, m is Some, Op::<R>::Mult(m->0));
    lemma_append_piece(rels, s4, part5, 7, 8);
    let s5 = s4 + part5;
    let part6 = optional(fits(y - x), Op::<R>::Plus((y - x) as i32));
    lemma_optional_piece(rels, fits(y - x), Op::<R>::Plus((y - x) as i32));
    lemma_append_piece(rels, s5, part6, 8, 9);
    let s6 = s5 + part6;
    let part7 = optional(square(x as int) == y, Op::<R>::Square);
    lemma_optional_piece(rels, square(x as int) == y, Op::<R>::Square);
    lemma_append_piece(rels, s6, part7, 9, 10);
    let s7 = s6 + part7;
    let part8 = optional(square(y as int) == x, Op::<R>::SquareRoot);
    lemma_optional_piece(rels, square(y as int) == x, Op::<R>::SquareRoot);
    lemma_append_piece(rels, s7, part8, 10, 11);
    assert(s7 + part8 == choice_ops(x, y, rels));
}

proof fn lemma_flat_within_op<R: Relation + Copy>(rels: Seq<CustomPatternElem<R>>, s: Seq<Op<R>>)
    requires
        sorted_by(flat_lt(rels), s),
    ensures
        sorted_by(op_lt(rels), s),
{
    assert forall|i: int, j: int| 0 <= i < j < s.len() implies #[trigger] op_lt(rels)(s[i], s[j]) by {
        assert(flat_lt(rels)(s[i], s[j]));
    }
}

proof fn lemma_kind_filter<R: Relation + Copy>(
    rels: Seq<CustomPatternElem<R>>,
    c: Seq<Op<R>>,
    below: bool,
)
    requires
        sorted_by(flat_lt(rels), c),
    ensures
        sorted_by(op_lt(rels), c.filter(kind_pred(below))),
        forall|i: int|
            0 <= i < c.filter(kind_pred(below)).len() ==> (if below {
                kind(#[trigger] c.filter(kind_pred(below))[i]) < 5
            } else {
                kind(c.filter(kind_pred(below))[i]) > 5
            }),
{
    lemma_filter_sorted(flat_lt(rels), c, kind_pred(below));
    lemma_flat_within_op(rels, c.filter(kind_pred(below)));
    broadcast use vstd::seq_lib::group_filter_ensures;
}

/// The operations that may stand at one offset are listed in order.
pub proof fn lemma_candidates_sorted<R: Relation + Copy>(
    pairs: Seq<(i32, i32)>,
    rels: Seq<CustomPatternElem<R>>,
    meta: bool,
    o: int,
    n: int,
)
    requires
        distinct_relations(rels),
    ensures
        sorted_by(op_lt(rels), candidates(pairs, rels, meta, o, n)),
{
    let steps = offset_steps(pairs.len() as int, o, n);
    let c = common_ops(pairs, rels, o, n);
    if steps.len() > 0 {
        let first = choice_ops(pairs[steps[0]].0, pairs[steps[0]].1, rels);
        lemma_choice_sorted(pairs[steps[0]].0, pairs[steps[0]].1, rels);
        lemma_filter_sorted(flat_lt(rels), first, valid_pred::<R>(pairs, steps));
    }
    assert(sorted_by(flat_lt(rels), c));
    lemma_kind_filter(rels, c, true);
    lemma_kind_filter(rels, c, false);
    let low = c.filter(kind_pred(true));
    let high = c.filter(kind_pred(false));
    let oc = offset_choices(pairs, rels, o, n);
    let subs = meta_subpatterns(oc);
    assert forall|k: int| 0 <= k < oc.len() implies sorted_by(flat_lt(rels), #[trigger] oc[k]) by {
        lemma_choice_sorted(pairs[steps[k]].0, pairs[steps[k]].1, rels);
    }
    lemma_product_sorted(flat_lt(rels), oc);
    lemma_filter_sorted(lex_order(flat_lt(rels)), product(oc), meta_pred::<R>());
    let nested = nested_ops(subs);
    assert forall|i: int, j: int| 0 <= i < j < nested.len() implies #[trigger] op_lt(rels)(
        nested[i],
        nested[j],
    ) by {
        assert(lex_order(flat_lt(rels))(subs[i], subs[j]));
    }
    let m: Seq<Op<R>> = if meta {
        nested
    } else {
        Seq::empty()
    };
    assert(sorted_by(op_lt(rels), m));
    assert forall|i: int, j: int| 0 <= i < low.len() && 0 <= j < m.len() implies #[trigger] op_lt(rels)(
        low[i],
        m[j],
    ) by {
        assert(kind(low[i]) < 5);
    }
    lemma_concat_sorted(op_lt(rels), low, m);
    let lm = low + m;
    assert forall|i: int, j: int| 0 <= i < lm.len() && 0 <= j < high.len() implies #[trigger] op_lt(
        rels,
    )(lm[i], high[j]) by {
        assert(kind(high[j]) > 5);
        if i < low.len() {
            assert(lm[i] == low[i]);
        } else {
            assert(lm[i] == m[i - low.len()]);
        }
    }
    lemma_concat_sorted(op_lt(rels), lm, high);
}

/// The patterns found for a cycle length are listed in ascending order: operations by kind, then
/// by operand, custom relations in the order they were given, and nested patterns element by
/// element. This is stated for custom relations that differ from one another.
pub proof fn lemma_patterns_sorted<R: Relation + Copy>(
    pairs: Seq<(i32, i32)>,
    rels: Seq<CustomPatternElem<R>>,
    meta: bool,
    n: int,
)
    requires
        distinct_relations(rels),
    ensures
        sorted_by(lex_order(op_lt(rels)), patterns_of_length(pairs, rels, meta, n)),
{
    if n > 0 {
        let lists = Seq::new(n as nat, |o: int| candidates(pairs, rels, meta, o, n));
        assert forall|k: int| 0 <= k < lists.len() implies sorted_by(op_lt(rels), #[trigger] lists[k]) by {
            lemma_candidates_sorted(pairs, rels, meta, k, n);
        }
        lemma_product_sorted(op_lt(rels), lists);
    }
}

/// Where patterns of cycle length `n` exist, the single pattern found for `n` is the greatest of
/// them: every other one comes before it.
pub proof fn lemma_any_pattern_is_greatest<R: Relation + Copy>(
    pairs: Seq<(i32, i32)>,
    rels: Seq<CustomPatternElem<R>>,
    meta: bool,
    n: int,
    any: Option<crate::pattern::Pattern<R>>,
)
    requires
        distinct_relations(rels),
        patterns_of_length(pairs, rels, meta, n).len() > 0,
        any is None <==> patterns_of_length(pairs, rels, meta, n).len() == 0,
        any matches Some(p) ==> p@ == patterns_of_length(pairs, rels, meta, n).last(),
    ensures
        any is Some,
        patterns_of_length(pairs, rels, meta, n).contains(any->0@),
        forall|i: int|
            0 <= i < patterns_of_length(pairs, rels, meta, n).len() - 1 ==> #[trigger] lex(
                op_lt(rels),
                patterns_of_length(pairs, rels, meta, n)[i],
                any->0@,
            ),
{
    let all = patterns_of_length(pairs, rels, meta, n);
    lemma_patterns_sorted(pairs, rels, meta, n);
    assert(all[all.len() - 1] == all.last());
    assert forall|i: int| 0 <= i < all.len() - 1 implies #[trigger] lex(op_lt(rels), all[i], any->0@) by {
        assert(lex_order(op_lt(rels))(all[i], all[all.len() - 1]));
    }
}

} // verus!