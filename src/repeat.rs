use vstd::prelude::*;
use vstd::std_specs::cmp::PartialEqSpec;

verus! {

/// `d` divides `len`.
pub open spec fn divides(d: int, len: int) -> bool {
    len % d == 0
}

/// `is_match` answered `b` on element `i` of `s` and the element at the same place of the first
/// block of length `d`.
pub open spec fn matched<T, P: Fn(&T, &T) -> bool>(is_match: P, s: Seq<T>, d: int, i: int, b: bool) -> bool {
    call_ensures(is_match, (&s[i], &s[i % d]), b)
}

/// Whether `slice` is made of two or more copies of a block of length at least 2, as judged
/// by `is_match`.
pub fn is_repeating_with_predicate<T, P: Fn(&T, &T) -> bool>(slice: &[T], is_match: P) -> (r: bool)
    requires
        forall|i: int, j: int|
            0 <= i < slice@.len() && 0 <= j < slice@.len() ==> call_requires(
                is_match,
                (&slice@[i], &slice@[j]),
            ),
    ensures
        r ==> exists|d: int|
            2 <= d < slice@.len() && #[trigger] divides(d, slice@.len() as int) && forall|i: int|
                d <= i < slice@.len() ==> #[trigger] matched(is_match, slice@, d, i, true),
        !r ==> forall|d: int|
            2 <= d < slice@.len() && #[trigger] divides(d, slice@.len() as int) ==> exists|i: int|
                d <= i < slice@.len() && #[trigger] matched(is_match, slice@, d, i, false),
{
    let len = slice.len();
    let mut d: usize = 2;
    while d < len
        invariant
            len == slice@.len(),
            2 <= d,
            forall|i: int, j: int|
                0 <= i < slice@.len() && 0 <= j < slice@.len() ==> call_requires(
                    is_match,
                    (&slice@[i], &slice@[j]),
                ),
            forall|e: int|
                2 <= e < d && e < len && #[trigger] divides(e, len as int) ==> exists|i: int|
                    e <= i < len && #[trigger] matched(is_match, slice@, e, i, false),
        decreases len - d,
    {
        if len % d == 0 {
            let mut ok: bool = true;
            let mut i: usize = d;
            while i < len && ok
                invariant
                    len == slice@.len(),
                    2 <= d < len,
                    d <= i <= len,
                    forall|i: int, j: int|
                        0 <= i < slice@.len() && 0 <= j < slice@.len() ==> call_requires(
                            is_match,
                            (&slice@[i], &slice@[j]),
                        ),
                    ok ==> forall|k: int| d <= k < i ==> #[trigger] matched(is_match, slice@, d as int, k, true),
                    !ok ==> exists|k: int| d <= k < len && #[trigger] matched(is_match, slice@, d as int, k, false),
                decreases len - i,
            {
                let b = is_match(&slice[i], &slice[i % d]);
                assert(matched(is_match, slice@, d as int, i as int, b));
                if !b {
                    ok = false;
                }
                i += 1;
            }
            if ok {
                assert(divides(d as int, len as int));
                return true;
            }
        }
        d += 1;
    }
    false
}

/// Element `i` of `s` equals the element at the same place of the first block of length `d`.
pub open spec fn equals_in_block<T: PartialEq>(s: Seq<T>, d: int, i: int) -> bool {
    s[i].eq_spec(&s[i % d])
}

/// Whether `slice` is made of two or more copies of a block of length at least 2.
pub fn is_repeating<T: Eq>(slice: &[T]) -> (r: bool)
    ensures
        T::obeys_eq_spec() ==> (r <==> exists|d: int|
            2 <= d < slice@.len() && #[trigger] divides(d, slice@.len() as int) && forall|i: int|
                d <= i < slice@.len() ==> #[trigger] equals_in_block(slice@, d, i)),
{
    let f = |t1: &T, t2: &T| -> (b: bool)
        ensures
            T::obeys_eq_spec() ==> b == t1.eq_spec(t2),
        { t1 == t2 };
    let r = is_repeating_with_predicate(slice, f);
    proof {
        let len = slice@.len() as int;
        if T::obeys_eq_spec() {
            if r {
                let d = choose|d: int|
                    2 <= d < len && #[trigger] divides(d, len) && forall|i: int|
                        d <= i < len ==> #[trigger] matched(f, slice@, d, i, true);
                assert forall|i: int| d <= i < len implies #[trigger] equals_in_block(slice@, d, i) by {
                    assert(matched(f, slice@, d, i, true));
                }
            } else {
                assert forall|d: int|
                    2 <= d < len && #[trigger] divides(d, len) implies !(forall|i: int|
                        d <= i < len ==> #[trigger] equals_in_block(slice@, d, i)) by {
                    let i = choose|i: int| d <= i < len && #[trigger] matched(f, slice@, d, i, false);
                    assert(!equals_in_block(slice@, d, i));
                }
            }
        }
    }
    r
}

} // verus!
