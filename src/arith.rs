use vstd::prelude::*;

verus! {

/// `x` times `m`.
pub open spec fn scaled(x: int, m: int) -> int {
    x * m
}

/// The integer `m` that fits in an `i32` with `x * m == y`, if `x` is not zero and there is one.
pub open spec fn factor(x: int, y: int) -> Option<i32> {
    if x != 0 && exists|m: i32| #[trigger] scaled(x, m as int) == y {
        Some(choose|m: i32| #[trigger] scaled(x, m as int) == y)
    } else {
        None
    }
}

pub open spec fn magnitude(x: int) -> nat {
    if x < 0 {
        (-x) as nat
    } else {
        x as nat
    }
}

proof fn lemma_factor_unique(x: int, y: int, m: i32)
    requires
        x != 0,
        x * m == y,
    ensures
        factor(x, y) == Some(m),
{
    let c = choose|k: i32| #[trigger] scaled(x, k as int) == y;
    assert(scaled(x, m as int) == y);
    assert(x * c == y);
    assert(c == m) by (nonlinear_arith)
        requires
            x != 0,
            x * c == y,
            x * m == y,
    ;
}

/// The integer that multiplies `x` into `y`, computed on magnitudes.
pub fn exact_factor(x: i32, y: i32) -> (r: Option<i32>)
    ensures
        r == factor(x as int, y as int),
{
    if x == 0 {
        return None;
    }
    let ux: u64 = if x < 0 { (-(x as i64)) as u64 } else { x as u64 };
    let uy: u64 = if y < 0 { (-(y as i64)) as u64 } else { y as u64 };
    assert(ux as int == magnitude(x as int));
    assert(uy as int == magnitude(y as int));
    if uy % ux != 0 {
        proof {
            if exists|m: i32| #[trigger] scaled(x as int, m as int) == y {
                let m = choose|m: i32| #[trigger] scaled(x as int, m as int) == y;
                let um = magnitude(m as int);
                assert(ux * um == uy) by (nonlinear_arith)
                    requires
                        x * m == y,
                        ux as int == magnitude(x as int),
                        uy as int == magnitude(y as int),
                        um == magnitude(m as int),
                ;
                vstd::arithmetic::div_mod::lemma_mod_multiples_basic(um as int, ux as int);
                assert(um * ux == ux * um) by (nonlinear_arith);
            }
        }
        return None;
    }
    let q: u64 = uy / ux;
    proof {
        vstd::arithmetic::div_mod::lemma_fundamental_div_mod(uy as int, ux as int);
        assert(ux * q == uy);
        assert(q <= uy) by (nonlinear_arith)
            requires
                ux * q == uy,
                ux >= 1,
        ;
    }
    let negative: bool = (x < 0) != (y < 0);
    let m: i64 = if negative { -(q as i64) } else { q as i64 };
    assert(x * m == y) by (nonlinear_arith)
        requires
            ux * q == uy,
            ux as int == magnitude(x as int),
            uy as int == magnitude(y as int),
            negative == ((x < 0) != (y < 0)),
            m == (if negative { -q } else { q as int }),
            x != 0,
    ;
    if m < -2147483648 || m > 2147483647 {
        proof {
            if exists|k: i32| #[trigger] scaled(x as int, k as int) == y {
                let k = choose|k: i32| #[trigger] scaled(x as int, k as int) == y;
                assert(k == m) by (nonlinear_arith)
                    requires
                        x != 0,
                        x * k == y,
                        x * m == y,
                ;
            }
        }
        return None;
    }
    let r: i32 = m as i32;
    proof {
        lemma_factor_unique(x as int, y as int, r);
    }
    Some(r)
}

/// `x * x`.
#[verifier::opaque]
pub open spec fn square(x: int) -> int {
    x * x
}

/// `x * x * x`.
#[verifier::opaque]
pub open spec fn cube(x: int) -> int {
    x * x * x
}

/// `x * x`, exactly.
pub fn square_of(x: i32) -> (r: i128)
    ensures
        r == square(x as int),
{
    reveal(square);
    let a: i128 = x as i128;
    assert(0 <= a * a <= 0x4000_0000_0000_0000) by (nonlinear_arith)
        requires
            -0x8000_0000 <= a <= 0x7fff_ffff,
    ;
    a * a
}

/// `x * x * x`, exactly.
pub fn cube_of(x: i32) -> (r: i128)
    ensures
        r == cube(x as int),
{
    reveal(square);
    reveal(cube);
    let a: i128 = x as i128;
    let s: i128 = square_of(x);
    assert(0 <= s <= 0x4000_0000_0000_0000) by (nonlinear_arith)
        requires
            -0x8000_0000 <= a <= 0x7fff_ffff,
            s == a * a,
    ;
    assert(-0x2_0000_0000_0000_0000_0000_0000 <= s * a <= 0x2_0000_0000_0000_0000_0000_0000)
        by (nonlinear_arith)
        requires
            -0x8000_0000 <= a <= 0x7fff_ffff,
            0 <= s <= 0x4000_0000_0000_0000,
    ;
    s * a
}

} // verus!
