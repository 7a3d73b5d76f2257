use vstd::prelude::*;

use crate::engine::asset::repr::collider::ColliderType;

verus! {

/// The label the properties pane shows for a kind of collider.
pub open spec fn collider_type_label(collider_type: ColliderType) -> Seq<char> {
    match collider_type {
        ColliderType::Null => "Null (oops)"@,
        ColliderType::Capsule => "Capsule"@,
        ColliderType::Plane => "Plane"@,
        ColliderType::Box => "Box"@,
    }
}

/// The label of a kind of collider.
pub fn collider_type_to_str(collider_type: ColliderType) -> (r: &'static str)
    ensures
        r@ == collider_type_label(collider_type),
{
    match collider_type {
        ColliderType::Null => "Null (oops)",
        ColliderType::Capsule => "Capsule",
        ColliderType::Plane => "Plane",
        ColliderType::Box => "Box",
    }
}

} // verus!
