use vstd::prelude::*;
use std::sync::{Arc, Mutex};

verus! {

#[verifier::external_type_specification]
#[verifier::external_body]
#[verifier::reject_recursive_types(T)]
pub struct ExMutex<T: ?Sized>(Mutex<T>);

/// A value that several tasks share behind a lock.
pub type Shared<T> = Arc<Mutex<T>>;

/// Calls `Mutex::new`. Nothing is stated of the result: Verus does not see into the lock.
#[verifier::external_body]
fn new_mutex<T>(p_value: T) -> Mutex<T> {
    Mutex::new(p_value)
}

/// Puts `p_value` behind a lock that can be shared. That the lock holds `p_value` is left
/// unsaid: vstd gives `std::sync::Mutex` no view of what it holds.
pub fn share<T>(p_value: T) -> Shared<T> {
    Arc::new(new_mutex(p_value))
}

} // verus!
