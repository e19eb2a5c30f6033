use vstd::prelude::*;

verus! {

/// A wake request as it arrives from the surrounding service: a machine name
/// to resolve, or raw address text, or (invalidly) neither. When both are
/// present the address takes priority.
pub struct Wake {
    pub machine: Option<String>,
    pub mac_address: Option<String>,
}

} // verus!
