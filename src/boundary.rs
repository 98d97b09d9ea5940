use vstd::prelude::*;

verus! {

/// Where a coordinate stands against the domain `[-D, D]` on one axis, or
/// the sign of a velocity component.
#[derive(Clone, Copy, PartialEq, Eq, Structural, Debug)]
pub enum Side {
    Below,
    Inside,
    Above,
}

/// The domain mirrors a body on one axis when it lies beyond one face and
/// still moves outward through that face.
pub open spec fn mirrors(position: Side, velocity: Side) -> bool {
    (position == Side::Above && velocity == Side::Above) || (position == Side::Below && velocity
        == Side::Below)
}

/// Whether the velocity component on this axis is negated: the body lies
/// beyond `+D` moving up, or beyond `-D` moving down. A body inside the
/// domain is never reflected, whatever its velocity.
pub fn reflects(position: Side, velocity: Side) -> (r: bool)
    ensures
        r == mirrors(position, velocity),
        position == Side::Inside ==> !r,
{
    match (position, velocity) {
        (Side::Above, Side::Above) => true,
        (Side::Below, Side::Below) => true,
        _ => false,
    }
}

} // verus!
