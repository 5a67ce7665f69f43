//! The pinning handle of the epoch-based reclamation scheme the trie's
//! interface is designed around: every public operation runs under a guard
//! that keeps the nodes it can reach alive for the duration of the call.

use vstd::prelude::*;

verus! {

/// Relies on crossbeam::epoch::Guard: the scoped handle that pins the
/// current epoch. It is declared so that the operations can carry the
/// pinning handle in their signatures; no contract is assumed of it.
#[verifier::external_type_specification]
#[verifier::external_body]
pub struct ExGuard(crossbeam::epoch::Guard);

} // verus!
