//! Wake-on-LAN service core: hardware-address parsing and formatting,
//! magic-packet construction, name-to-address resolution backends, and the
//! time-based cache that shields a remote inventory device.

use vstd::prelude::*;

mod error;
mod fritzbox;
mod providers;
mod mac_address;
mod static_provider;
mod table;
mod wake;

pub use error::Error;
pub use fritzbox::{CachedHosts, FritzBoxProvider, HostInfo};
pub use mac_address::MacAddress;
pub use providers::{Provider, ProviderSet};
pub use static_provider::StaticProvider;
pub use wake::Wake;

verus! {

/// Seconds after which a remote-backed host cache counts as stale.
pub const REFRESH_INTERVAL_SECS: u64 = 60;

} // verus!
