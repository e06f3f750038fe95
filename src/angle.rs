use vstd::prelude::*;

verus! {

// The angular order used at a joint.
//
// A direction `v` is compared against a reference direction `d` through its
// frame coordinates `(dot(v, d), cross(v, d))`: their polar angle is the
// counter-clockwise angle from `v` to `d`, taken in `[0, 2π)`. The order
// below compares two such angles exactly, with integers only.

/// 0 for an angle in `[0, π)`, 1 for one in `[π, 2π)`, 2 for the zero vector.
pub open spec fn half_of(k: (int, int)) -> int {
    if k.1 > 0 || (k.1 == 0 && k.0 > 0) {
        0
    } else if k.1 < 0 || (k.1 == 0 && k.0 < 0) {
        1
    } else {
        2
    }
}

pub open spec fn key_cross(a: (int, int), b: (int, int)) -> int {
    a.0 * b.1 - a.1 * b.0
}

/// The angle of `a` is strictly smaller than the angle of `b`.
pub open spec fn angle_less(a: (int, int), b: (int, int)) -> bool {
    half_of(a) < half_of(b) || (half_of(a) == half_of(b) && half_of(a) < 2 && key_cross(a, b)
        > 0)
}

pub open spec fn upper(k: (int, int)) -> bool {
    half_of(k) == 0
}

proof fn lemma_cross_identities(a: (int, int), b: (int, int), c: (int, int))
    ensures
        key_cross(a, b) * c.1 + key_cross(b, c) * a.1 + key_cross(c, a) * b.1 == 0,
        key_cross(a, b) * c.0 + key_cross(b, c) * a.0 + key_cross(c, a) * b.0 == 0,
{
    assert(key_cross(a, b) * c.1 + key_cross(b, c) * a.1 + key_cross(c, a) * b.1 == 0)
        by (nonlinear_arith);
    assert(key_cross(a, b) * c.0 + key_cross(b, c) * a.0 + key_cross(c, a) * b.0 == 0)
        by (nonlinear_arith);
}

proof fn lemma_sign_mul(x: int, y: int)
    ensures
        x > 0 && y > 0 ==> x * y > 0,
        x >= 0 && y >= 0 ==> x * y >= 0,
        x > 0 && y < 0 ==> x * y < 0,
        x < 0 && y > 0 ==> x * y < 0,
        x > 0 && y == 0 ==> x * y == 0,
        x * y == y * x,
{
    assert(x > 0 && y > 0 ==> x * y > 0) by (nonlinear_arith);
    assert(x >= 0 && y >= 0 ==> x * y >= 0) by (nonlinear_arith);
    assert(x > 0 && y < 0 ==> x * y < 0) by (nonlinear_arith);
    assert(x < 0 && y > 0 ==> x * y < 0) by (nonlinear_arith);
    assert(x * y == y * x) by (nonlinear_arith);
}

proof fn lemma_upper_trans(a: (int, int), b: (int, int), c: (int, int))
    requires
        upper(a),
        upper(b),
        upper(c),
        key_cross(a, b) > 0,
        key_cross(b, c) > 0,
    ensures
        key_cross(a, c) > 0,
{
    lemma_cross_identities(a, b, c);
    let x = key_cross(a, b);
    let y = key_cross(b, c);
    let z = key_cross(c, a);
    assert(key_cross(a, c) == -z) by (nonlinear_arith)
        requires
            z == key_cross(c, a),
    ;
    if b.1 == 0 {
        // `b` lies on the reference direction, so nothing in the upper half precedes it.
        assert(x == -(a.1 * b.0)) by (nonlinear_arith)
            requires
                x == key_cross(a, b),
                b.1 == 0,
        ;
        lemma_sign_mul(a.1, b.0);
        assert(false);
    } else {
        lemma_sign_mul(x, c.1);
        lemma_sign_mul(y, a.1);
        lemma_sign_mul(z, b.1);
        if c.1 == 0 && a.1 == 0 {
            assert(y == -(b.1 * c.0)) by (nonlinear_arith)
                requires
                    y == key_cross(b, c),
                    c.1 == 0,
            ;
            lemma_sign_mul(b.1, c.0);
            assert(false);
        } else {
            if c.1 > 0 {
                assert(x * c.1 > 0);
            } else {
                assert(y * a.1 > 0);
            }
            assert(z * b.1 < 0);
            if z >= 0 {
                lemma_sign_mul(z, b.1);
            }
        }
    }
}

proof fn lemma_upper_cotrans(a: (int, int), b: (int, int), c: (int, int))
    requires
        upper(a),
        upper(b),
        upper(c),
        key_cross(a, b) > 0,
    ensures
        key_cross(a, c) > 0 || key_cross(c, b) > 0,
{
    lemma_cross_identities(a, b, c);
    let x = key_cross(a, b);
    let y = key_cross(b, c);
    let z = key_cross(c, a);
    assert(key_cross(a, c) == -z && key_cross(c, b) == -y) by (nonlinear_arith)
        requires
            z == key_cross(c, a),
            y == key_cross(b, c),
    ;
    if z >= 0 && y >= 0 {
        lemma_sign_mul(x, c.1);
        lemma_sign_mul(y, a.1);
        lemma_sign_mul(z, b.1);
        assert(c.1 == 0) by {
            if c.1 > 0 {
                assert(x * c.1 > 0);
            }
        }
        assert(y == -(b.1 * c.0)) by (nonlinear_arith)
            requires
                y == key_cross(b, c),
                c.1 == 0,
        ;
        lemma_sign_mul(b.1, c.0);
        assert(b.1 == 0);
        assert(x == -(a.1 * b.0)) by (nonlinear_arith)
            requires
                x == key_cross(a, b),
                b.1 == 0,
        ;
        lemma_sign_mul(a.1, b.0);
    }
}

pub open spec fn neg_key(k: (int, int)) -> (int, int) {
    (-k.0, -k.1)
}

proof fn lemma_neg_key(a: (int, int), b: (int, int))
    ensures
        key_cross(neg_key(a), neg_key(b)) == key_cross(a, b),
        half_of(a) == 1 ==> upper(neg_key(a)),
{
    assert(key_cross(neg_key(a), neg_key(b)) == key_cross(a, b)) by (nonlinear_arith);
}

/// The angular order is transitive.
pub proof fn lemma_angle_trans(a: (int, int), b: (int, int), c: (int, int))
    requires
        angle_less(a, b),
        angle_less(b, c),
    ensures
        angle_less(a, c),
{
    if half_of(a) == half_of(b) && half_of(b) == half_of(c) {
        if half_of(a) == 0 {
            lemma_upper_trans(a, b, c);
        } else {
            lemma_neg_key(a, b);
            lemma_neg_key(b, c);
            lemma_neg_key(a, c);
            lemma_upper_trans(neg_key(a), neg_key(b), neg_key(c));
        }
    }
}

/// Whatever lies between two angles is above the first or below the second.
pub proof fn lemma_angle_cotrans(a: (int, int), b: (int, int), c: (int, int))
    requires
        angle_less(a, b),
    ensures
        angle_less(a, c) || angle_less(c, b),
{
    if half_of(a) == half_of(b) && half_of(b) == half_of(c) {
        if half_of(a) == 0 {
            lemma_upper_cotrans(a, b, c);
        } else {
            lemma_neg_key(a, b);
            lemma_neg_key(a, c);
            lemma_neg_key(c, b);
            lemma_upper_cotrans(neg_key(a), neg_key(b), neg_key(c));
        }
    }
}

/// No angle is smaller than itself.
pub proof fn lemma_angle_irreflexive(a: (int, int))
    ensures
        !angle_less(a, a),
{
    assert(key_cross(a, a) == 0) by (nonlinear_arith);
}

} // verus!
