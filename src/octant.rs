use vstd::prelude::*;

verus! {

/// Number of children of a subdivided node.
pub const OCTANTS: usize = 8;

/// Octant index of a point: bit 2 for x, bit 1 for y, bit 0 for z, each set
/// when the point lies strictly above the node's midpoint on that axis.
pub open spec fn octant_of(x_upper: bool, y_upper: bool, z_upper: bool) -> nat {
    (if x_upper { 4nat } else { 0nat }) + (if y_upper { 2nat } else { 0nat }) + (if z_upper {
        1nat
    } else {
        0nat
    })
}

/// Whether octant `index` takes the upper half of its parent on `axis`
/// (0 = x, 1 = y, 2 = z).
pub open spec fn upper_on(index: nat, axis: nat) -> bool {
    if axis == 0 {
        index / 4 % 2 == 1
    } else if axis == 1 {
        index / 2 % 2 == 1
    } else {
        index % 2 == 1
    }
}

/// Octant index selected by the three midpoint comparisons.
pub fn child_index(x_upper: bool, y_upper: bool, z_upper: bool) -> (r: usize)
    ensures
        r as nat == octant_of(x_upper, y_upper, z_upper),
        r < OCTANTS,
{
    let mut r: usize = 0;
    if x_upper {
        r = r + 4;
    }
    if y_upper {
        r = r + 2;
    }
    if z_upper {
        r = r + 1;
    }
    r
}

/// Whether child `index` covers the upper half of its parent on `axis`.
pub fn is_upper_half(index: usize, axis: usize) -> (r: bool)
    requires
        index < OCTANTS,
        axis < 3,
    ensures
        r == upper_on(index as nat, axis as nat),
{
    if axis == 0 {
        index / 4 % 2 == 1
    } else if axis == 1 {
        index / 2 % 2 == 1
    } else {
        index % 2 == 1
    }
}

/// The child that a point is routed to covers, on each axis, exactly the half
/// that the point's midpoint comparison picked.
pub proof fn lemma_route_matches_half(x_upper: bool, y_upper: bool, z_upper: bool)
    ensures
        octant_of(x_upper, y_upper, z_upper) < OCTANTS,
        upper_on(octant_of(x_upper, y_upper, z_upper), 0) == x_upper,
        upper_on(octant_of(x_upper, y_upper, z_upper), 1) == y_upper,
        upper_on(octant_of(x_upper, y_upper, z_upper), 2) == z_upper,
{
}

/// Distinct octant indices differ in the half they take on some axis, so the
/// eight children of a node do not overlap.
pub proof fn lemma_octants_distinct(i: nat, j: nat)
    requires
        i < OCTANTS,
        j < OCTANTS,
        i != j,
    ensures
        exists|a: nat| a < 3 && upper_on(i, a) != upper_on(j, a),
{
    if upper_on(i, 0) != upper_on(j, 0) {
        assert(upper_on(i, 0) != upper_on(j, 0));
    } else if upper_on(i, 1) != upper_on(j, 1) {
        assert(upper_on(i, 1) != upper_on(j, 1));
    } else {
        assert(upper_on(i, 2) != upper_on(j, 2));
    }
}

} // verus!
