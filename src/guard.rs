//! The reclamation guard that callers hand to every queue operation.
use vstd::prelude::*;

verus! {

/// haphazard's per-thread hazard pointer, carried through the queue's
/// operations and released before each of them returns.
#[verifier::external_type_specification]
#[verifier::external_body]
#[verifier::reject_recursive_types(F)]
pub struct ExHazardPointer<'domain, F>(haphazard::HazardPointer<'domain, F>);

/// haphazard's global reclamation domain, the one the guards of this queue belong to.
#[verifier::external_type_specification]
#[verifier::external_body]
pub struct ExGlobal(haphazard::Global);

/// Relies on haphazard::HazardPointer::reset_protection: it releases whatever
/// the guard protects and has no other effect on the queue.
pub assume_specification<'domain, F>[ haphazard::HazardPointer::<'domain, F>::reset_protection ](
    hp: &mut haphazard::HazardPointer<'domain, F>,
);

} // verus!
