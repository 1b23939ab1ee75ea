//! Facts about products and quotients of real numbers.

use vstd::prelude::*;

verus! {

/// A quotient times its divisor is the dividend.
pub proof fn lemma_quotient(dividend: real, divisor: real)
    requires
        divisor != 0real,
    ensures
        (dividend / divisor) * divisor == dividend,
{
    assert((dividend / divisor) * divisor == dividend) by (nonlinear_arith)
        requires
            divisor != 0real,
    ;
}

/// A common factor other than zero can be cancelled.
pub proof fn lemma_cancel(first: real, second: real, factor: real)
    requires
        first * factor == second * factor,
        factor != 0real,
    ensures
        first == second,
{
    assert(first == second) by (nonlinear_arith)
        requires
            first * factor == second * factor,
            factor != 0real,
    ;
}

/// The share of the way from a number to one of the opposite sign at
/// which zero lies is strictly between zero and one.
pub proof fn lemma_share_of_zero(from: real, to: real, share: real)
    requires
        share * (from - to) == from,
        (from > 0real && to < 0real) || (from < 0real && to > 0real),
    ensures
        0real < share < 1real,
{
    assert(0real < share < 1real) by (nonlinear_arith)
        requires
            share * (from - to) == from,
            (from > 0real && to < 0real) || (from < 0real && to > 0real),
    ;
}

/// A positive length taken at a share strictly between zero and one is
/// strictly between zero and the length.
pub proof fn lemma_share_of_length(length: real, share: real)
    requires
        length > 0real,
        0real < share < 1real,
    ensures
        0real < length * share < length,
{
    assert(0real < length * share < length) by (nonlinear_arith)
        requires
            length > 0real,
            0real < share < 1real,
    ;
}

/// Products may be taken in any order and grouping.
pub proof fn lemma_product_of_three(first: real, second: real, third: real)
    ensures
        (first * second) * third == first * (second * third),
        first * (second * third) == second * (first * third),
        first * (second * third) == third * (second * first),
        first * second == second * first,
{
    assert((first * second) * third == first * (second * third)) by (nonlinear_arith);
    assert(first * (second * third) == second * (first * third)) by (nonlinear_arith);
    assert(first * (second * third) == third * (second * first)) by (nonlinear_arith);
    assert(first * second == second * first) by (nonlinear_arith);
}

/// A product with a difference is the difference of the products.
pub proof fn lemma_product_of_difference(factor: real, first: real, second: real)
    ensures
        factor * (first - second) == factor * first - factor * second,
        (first - second) * factor == first * factor - second * factor,
{
    assert(factor * (first - second) == factor * first - factor * second) by (nonlinear_arith);
    assert((first - second) * factor == first * factor - second * factor) by (nonlinear_arith);
}

/// Two unknowns of two equations, each given by its determinant, solve
/// the equations.
#[verifier::rlimit(40)]
pub proof fn lemma_determinants_solve(
    dx: real,
    dy: real,
    ex: real,
    ey: real,
    gx: real,
    gy: real,
    first: real,
    second: real,
)
    requires
        dx * ey - dy * ex != 0real,
        first * (dx * ey - dy * ex) == gx * ey - gy * ex,
        second * (dx * ey - dy * ex) == gx * dy - gy * dx,
    ensures
        dx * first - ex * second == gx,
        dy * first - ey * second == gy,
{
    let determinant = dx * ey - dy * ex;
    lemma_product_of_difference(gx, dx * ey, dy * ex);
    lemma_product_of_difference(gy, dx * ey, dy * ex);
    lemma_product_of_three(ex, dy, 1real);
    lemma_product_of_three(ey, dx, 1real);
    assert(ex * dy == dy * ex);
    assert(ey * dx == dx * ey);

    lemma_product_of_difference(determinant, dx * first, ex * second);
    lemma_product_of_three(dx, first, determinant);
    lemma_product_of_three(ex, second, determinant);
    lemma_product_of_difference(dx, gx * ey, gy * ex);
    lemma_product_of_difference(ex, gx * dy, gy * dx);
    lemma_product_of_three(dx, gy, ex);
    lemma_product_of_three(dx, gx, ey);
    lemma_product_of_three(ex, gx, dy);
    assert((dx * first) * determinant == dx * (gx * ey) - dx * (gy * ex));
    assert((ex * second) * determinant == ex * (gx * dy) - ex * (gy * dx));
    assert(dx * (gy * ex) == ex * (gy * dx));
    assert(dx * (gx * ey) == gx * (dx * ey));
    assert(ex * (gx * dy) == gx * (dy * ex));
    assert((dx * first - ex * second) * determinant == gx * determinant);
    lemma_cancel(dx * first - ex * second, gx, determinant);

    lemma_product_of_difference(determinant, dy * first, ey * second);
    lemma_product_of_three(dy, first, determinant);
    lemma_product_of_three(ey, second, determinant);
    lemma_product_of_difference(dy, gx * ey, gy * ex);
    lemma_product_of_difference(ey, gx * dy, gy * dx);
    lemma_product_of_three(dy, gx, ey);
    lemma_product_of_three(ey, gy, dx);
    lemma_product_of_three(dy, gy, ex);
    assert((dy * first) * determinant == dy * (gx * ey) - dy * (gy * ex));
    assert((ey * second) * determinant == ey * (gx * dy) - ey * (gy * dx));
    assert(dy * (gx * ey) == ey * (gx * dy));
    assert(ey * (gy * dx) == gy * (dx * ey));
    assert(dy * (gy * ex) == gy * (dy * ex));
    assert((dy * first - ey * second) * determinant == gy * determinant);
    lemma_cancel(dy * first - ey * second, gy, determinant);
}

/// Two directions that are both parallel to a third one, which is not
/// zero, are parallel to each other.
#[verifier::rlimit(40)]
pub proof fn lemma_parallel_to_common(
    vx: real,
    vy: real,
    ux: real,
    uy: real,
    wx: real,
    wy: real,
)
    requires
        vx != 0real || vy != 0real,
        vx * uy - vy * ux == 0real,
        vx * wy - vy * wx == 0real,
    ensures
        ux * wy - uy * wx == 0real,
{
    let cross = ux * wy - uy * wx;
    if vx != 0real {
        lemma_product_of_difference(vx, ux * wy, uy * wx);
        lemma_product_of_three(ux, wy, vx);
        lemma_product_of_three(wy, vx, 1real);
        lemma_product_of_three(uy, wx, vx);
        lemma_product_of_three(uy, vx, 1real);
        lemma_product_of_three(ux, vy, wx);
        assert((ux * wy) * vx == ux * (vy * wx));
        assert((uy * wx) * vx == wx * (vy * ux));
        assert(cross * vx == 0real * vx);
        lemma_cancel(cross, 0real, vx);
    } else {
        lemma_product_of_difference(vy, ux * wy, uy * wx);
        lemma_product_of_three(ux, wy, vy);
        lemma_product_of_three(ux, vy, 1real);
        lemma_product_of_three(uy, wx, vy);
        lemma_product_of_three(wx, vy, 1real);
        lemma_product_of_three(wy, vx, uy);
        assert((ux * wy) * vy == wy * (vx * uy));
        assert((uy * wx) * vy == uy * (vx * wy));
        assert(cross * vy == 0real * vy);
        lemma_cancel(cross, 0real, vy);
    }
}

} // verus!
