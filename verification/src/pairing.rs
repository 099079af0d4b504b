//! Szudzik's pairing function: two natural numbers as one, and back.

use vstd::prelude::*;

verus! {

/// The number that stands for the pair `(x, y)`.
pub open spec fn szudzik(x: int, y: int) -> int {
    if x >= y {
        x * x + x + y
    } else {
        y * y + x
    }
}

/// Whether `root` is the integer square root of `z`: the greatest number whose
/// square is at most `z`, and 0 where `z` is negative.
pub open spec fn is_floor_sqrt(root: int, z: int) -> bool {
    if z < 0 {
        root == 0
    } else {
        0 <= root && root * root <= z < (root + 1) * (root + 1)
    }
}

/// The integer square root of `z`.
pub open spec fn floor_sqrt(z: int) -> int {
    choose|root: int| is_floor_sqrt(root, z)
}

/// The pair that `z` stands for.
pub open spec fn unszudzik(z: int) -> (int, int) {
    let root = floor_sqrt(z);
    let rest = z - root * root;
    if rest < root {
        (rest, root)
    } else {
        (root, rest - root)
    }
}

/// A number has one integer square root.
pub proof fn lemma_floor_sqrt_unique(a: int, b: int, z: int)
    requires
        is_floor_sqrt(a, z),
        is_floor_sqrt(b, z),
    ensures
        a == b,
{
    if z >= 0 {
        if a < b {
            assert((a + 1) * (a + 1) <= b * b) by (nonlinear_arith)
                requires
                    0 <= a,
                    a + 1 <= b,
            ;
        }
        if b < a {
            assert((b + 1) * (b + 1) <= a * a) by (nonlinear_arith)
                requires
                    0 <= b,
                    b + 1 <= a,
            ;
        }
    }
}

/// A number that passes for the integer square root of `z` is it.
pub proof fn lemma_floor_sqrt_is(root: int, z: int)
    requires
        is_floor_sqrt(root, z),
    ensures
        floor_sqrt(z) == root,
{
    lemma_floor_sqrt_unique(root, floor_sqrt(z), z);
}

/// The greater of `x` and `y` is the integer square root of the number that
/// stands for `(x, y)`.
pub proof fn lemma_szudzik_root(x: int, y: int)
    requires
        0 <= x,
        0 <= y,
    ensures
        floor_sqrt(szudzik(x, y)) == if x >= y {
            x
        } else {
            y
        },
{
    let z = szudzik(x, y);
    let root = if x >= y {
        x
    } else {
        y
    };
    assert((root + 1) * (root + 1) == root * root + 2 * root + 1) by (nonlinear_arith);
    assert(0 <= root * root) by (nonlinear_arith);
    lemma_floor_sqrt_is(root, z);
}

/// Taking apart the number that stands for a pair of natural numbers gives
/// the pair back.
pub proof fn law_unpair_inverts_pair(x: int, y: int)
    requires
        0 <= x,
        0 <= y,
    ensures
        unszudzik(szudzik(x, y)) == (x, y),
{
    lemma_szudzik_root(x, y);
}

/// Every natural number stands for the pair that it is taken apart into, and
/// that pair is a pair of natural numbers.
pub proof fn law_pair_inverts_unpair(z: int)
    requires
        0 <= z,
    ensures
        0 <= unszudzik(z).0,
        0 <= unszudzik(z).1,
        szudzik(unszudzik(z).0, unszudzik(z).1) == z,
{
    lemma_floor_sqrt_exists(z);
    let root = floor_sqrt(z);
    assert((root + 1) * (root + 1) == root * root + 2 * root + 1) by (nonlinear_arith);
}

/// Every number has an integer square root.
pub proof fn lemma_floor_sqrt_exists(z: int)
    ensures
        is_floor_sqrt(floor_sqrt(z), z),
    decreases z,
{
    if z < 0 {
        assert(is_floor_sqrt(0, z));
    } else if z == 0 {
        assert(is_floor_sqrt(0, z)) by (nonlinear_arith)
            requires
                z == 0,
        ;
    } else {
        lemma_floor_sqrt_exists(z - 1);
        let below = floor_sqrt(z - 1);
        if (below + 1) * (below + 1) <= z {
            assert(z < (below + 2) * (below + 2)) by (nonlinear_arith)
                requires
                    0 <= below,
                    z - 1 < (below + 1) * (below + 1),
            ;
            assert(is_floor_sqrt(below + 1, z));
        } else {
            assert(is_floor_sqrt(below, z));
        }
    }
}

/// The integer square root of `z`, and 0 where `z` is negative.
pub fn integer_sqrt(z: i32) -> (root: i32)
    ensures
        root == floor_sqrt(z as int),
        is_floor_sqrt(root as int, z as int),
{
    if z < 0 {
        proof {
            lemma_floor_sqrt_is(0, z as int);
        }
        return 0;
    }
    let mut low: i32 = 0;
    let mut high: i32 = 46341;
    assert(z < 46341 * 46341);
    while high - low > 1
        invariant
            0 <= low < high <= 46341,
            low * low <= z < high * high,
        decreases high - low,
    {
        let mid: i32 = low + (high - low) / 2;
        assert(mid * mid <= 46340 * 46340) by (nonlinear_arith)
            requires
                0 <= mid <= 46340,
        ;
        if mid * mid <= z {
            low = mid;
        } else {
            high = mid;
        }
    }
    proof {
        lemma_floor_sqrt_is(low as int, z as int);
    }
    low
}

/// The number that stands for the pair `(x, y)`, where it fits in 32 bits.
pub fn to_szudzik(x: i32, y: i32) -> (z: i32)
    requires
        i32::MIN <= szudzik(x as int, y as int) <= i32::MAX,
    ensures
        z == szudzik(x as int, y as int),
{
    let wide_x: i64 = x as i64;
    let wide_y: i64 = y as i64;
    assert(wide_x * wide_x <= 0x4000_0000_0000_0000) by (nonlinear_arith)
        requires
            -0x8000_0000 <= wide_x <= 0x7fff_ffff,
    ;
    assert(wide_y * wide_y <= 0x4000_0000_0000_0000) by (nonlinear_arith)
        requires
            -0x8000_0000 <= wide_y <= 0x7fff_ffff,
    ;
    assert(0 <= wide_x * wide_x && 0 <= wide_y * wide_y) by (nonlinear_arith);
    let wide: i64 = if wide_x >= wide_y {
        wide_x * wide_x + wide_x + wide_y
    } else {
        wide_y * wide_y + wide_x
    };
    wide as i32
}

/// The pair that `z` stands for. A negative `z`, which stands for no pair,
/// gives `(z, 0)`.
pub fn from_szudzik(z: i32) -> (pair: (i32, i32))
    ensures
        pair.0 == unszudzik(z as int).0,
        pair.1 == unszudzik(z as int).1,
{
    let root = integer_sqrt(z);
    assert(0 <= root * root <= 46340 * 46340) by (nonlinear_arith)
        requires
            0 <= root,
            is_floor_sqrt(root as int, z as int),
            z <= 0x7fff_ffff,
    ;
    assert(z >= 0 ==> z - root * root <= 2 * root) by (nonlinear_arith)
        requires
            is_floor_sqrt(root as int, z as int),
    ;
    assert(z < 0 ==> root * root == 0) by (nonlinear_arith)
        requires
            is_floor_sqrt(root as int, z as int),
    ;
    let rest = z - root * root;
    if rest < root {
        (rest, root)
    } else {
        (root, rest - root)
    }
}

} // verus!
