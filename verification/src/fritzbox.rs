use vstd::prelude::*;

use crate::error::Error;
use crate::mac_address::{mac_bytes_of, valid_mac_string, MacAddress};
use crate::table::{
    dedup_keep_last, entries_of, last_wins_lookup, lookup, lookup_name, names_of, unique_names,
};
use crate::REFRESH_INTERVAL_SECS;

verus! {

/// One row of the remote device's host inventory, as plain values: the
/// reported name, the address as text, and whether the host is currently
/// active on the network.
pub struct HostInfo {
    pub host_name: String,
    pub mac_address: String,
    pub active: bool,
}

/// What a fetched inventory maps a name to: the parsed address of the last
/// record carrying that name whose address text is valid. Records with
/// invalid address text are dropped; a host is cached whether or not it is
/// currently active, since a machine is woken precisely because it is off.
pub open spec fn cached_lookup(records: Seq<HostInfo>, name: Seq<char>) -> Option<Seq<u8>>
    decreases records.len(),
{
    if records.len() == 0 {
        None
    } else if valid_mac_string(records.last().mac_address@) && records.last().host_name@ == name {
        Some(mac_bytes_of(records.last().mac_address@))
    } else {
        cached_lookup(records.drop_last(), name)
    }
}

/// A snapshot of the remote inventory: when it was fetched (`None` before the
/// first successful fetch) and the name-to-address table built from it. It is
/// always replaced wholesale, never patched entry by entry.
pub struct CachedHosts {
    pub timestamp: Option<u64>,
    pub hosts: Vec<(String, MacAddress)>,
}

impl CachedHosts {
    /// Ghost form of the table.
    pub open spec fn entries(&self) -> Seq<(Seq<char>, Seq<u8>)> {
        entries_of(self.hosts@)
    }

    /// A snapshot is stale once more than the refresh interval has passed
    /// since it was fetched; one never fetched is always stale.
    pub open spec fn spec_stale(&self, now: u64) -> bool {
        match self.timestamp {
            None => true,
            Some(t) => now > t + REFRESH_INTERVAL_SECS,
        }
    }

    /// Build a snapshot from the records of a fetch that finished at `now`.
    pub fn new(now: u64, hosts: Vec<HostInfo>) -> (r: Self)
        ensures
            r.timestamp == Some(now),
            unique_names(r.entries()),
            forall|n: Seq<char>| #[trigger] lookup(r.entries(), n) == cached_lookup(hosts@, n),
    {
        let mut raw: Vec<(String, MacAddress)> = Vec::new();
        let mut k: usize = 0;
        while k < hosts.len()
            invariant
                k <= hosts.len(),
                forall|n: Seq<char>| #[trigger]
                    last_wins_lookup(entries_of(raw@), n) == cached_lookup(
                        hosts@.take(k as int),
                        n,
                    ),
            decreases hosts.len() - k,
        {
            let ghost before = entries_of(raw@);
            proof {
                assert(hosts@.take(k as int + 1).drop_last() =~= hosts@.take(k as int));
                assert(hosts@.take(k as int + 1).last() == hosts@[k as int]);
            }
            match MacAddress::parse(hosts[k].mac_address.as_str()) {
                Ok(m) => {
                    let entry = (hosts[k].host_name.clone(), m);
                    raw.push(entry);
                    proof {
                        assert(entries_of(raw@) =~= before.push(
                            (hosts@[k as int].host_name@, m@),
                        ));
                        assert forall|n: Seq<char>| #[trigger]
                            last_wins_lookup(entries_of(raw@), n) == cached_lookup(
                                hosts@.take(k as int + 1),
                                n,
                            ) by {
                            assert(last_wins_lookup(before, n) == cached_lookup(
                                hosts@.take(k as int),
                                n,
                            ));
                            assert(entries_of(raw@).drop_last() =~= before);
                        }
                    }
                },
                Err(_) => {
                    proof {
                        assert forall|n: Seq<char>| #[trigger]
                            last_wins_lookup(entries_of(raw@), n) == cached_lookup(
                                hosts@.take(k as int + 1),
                                n,
                            ) by {
                            assert(last_wins_lookup(before, n) == cached_lookup(
                                hosts@.take(k as int),
                                n,
                            ));
                        }
                    }
                },
            }
            k += 1;
        }
        proof {
            assert(hosts@.take(hosts@.len() as int) =~= hosts@);
        }
        let table = dedup_keep_last(raw);
        CachedHosts { timestamp: Some(now), hosts: table }
    }

    /// Whether this snapshot is stale at time `now` (seconds).
    pub fn is_stale(&self, now: u64) -> (r: bool)
        ensures
            r == self.spec_stale(now),
    {
        match self.timestamp {
            None => true,
            Some(t) => now > REFRESH_INTERVAL_SECS && t < now - REFRESH_INTERVAL_SECS,
        }
    }
}

impl Default for CachedHosts {
    /// The starting snapshot: empty, and stale at any time, so the first use
    /// triggers a refresh.
    fn default() -> (r: Self)
        ensures
            r.timestamp is None,
            r.hosts@ == Seq::<(String, MacAddress)>::empty(),
    {
        CachedHosts { timestamp: None, hosts: Vec::new() }
    }
}

/// Resolver backed by a remote device's host inventory, reached at `url` by
/// the surrounding service. The inventory is cached; the cache is consulted
/// on every lookup, refreshed by the caller only when stale, and kept
/// unchanged when a refresh fails, so a flaky device degrades lookups to
/// stale data instead of errors.
pub struct FritzBoxProvider {
    pub url: String,
    pub cached_hosts: CachedHosts,
}

impl FritzBoxProvider {
    /// Ghost form of the current table.
    pub open spec fn entries(&self) -> Seq<(Seq<char>, Seq<u8>)> {
        self.cached_hosts.entries()
    }

    /// A provider that has never fetched: its cache is empty and stale.
    pub fn new(url: String) -> (r: Self)
        ensures
            r.url == url,
            r.cached_hosts.timestamp is None,
            r.cached_hosts.hosts@ == Seq::<(String, MacAddress)>::empty(),
    {
        FritzBoxProvider { url, cached_hosts: CachedHosts::default() }
    }

    /// The freshness decision: exactly when this returns true at time `now`
    /// (seconds) must the caller attempt one refresh; otherwise the remote
    /// device is not contacted at all.
    pub fn needs_refresh(&self, now: u64) -> (r: bool)
        ensures
            r == self.cached_hosts.spec_stale(now),
    {
        self.cached_hosts.is_stale(now)
    }

    /// Record the outcome of a refresh attempt that finished at `now`. A
    /// successful fetch replaces the whole snapshot with one built from the
    /// fetched records; a failed one (`None`) leaves the provider exactly as
    /// it was, prior entries included.
    pub fn store_refresh(&mut self, now: u64, fetched: Option<Vec<HostInfo>>)
        ensures
            fetched is None ==> *final(self) == *old(self),
            fetched matches Some(records) ==> {
                &&& final(self).url == old(self).url
                &&& final(self).cached_hosts.timestamp == Some(now)
                &&& unique_names(final(self).entries())
                &&& forall|n: Seq<char>| #[trigger]
                    lookup(final(self).entries(), n) == cached_lookup(records@, n)
            },
    {
        match fetched {
            Some(records) => {
                self.cached_hosts = CachedHosts::new(now, records);
            },
            None => {},
        }
    }

    /// All names in the current snapshot, in table order.
    pub fn list_names(&self) -> (r: Result<Vec<String>, Error>)
        ensures
            r is Ok,
            r matches Ok(names) ==> names@.map_values(|s: String| s@) == names_of(self.entries()),
    {
        let mut names: Vec<String> = Vec::new();
        let mut i: usize = 0;
        while i < self.cached_hosts.hosts.len()
            invariant
                i <= self.cached_hosts.hosts.len(),
                names@.len() == i,
                forall|j: int|
                    0 <= j < i ==> (#[trigger] names@[j])@ == self.cached_hosts.hosts@[j].0@,
            decreases self.cached_hosts.hosts.len() - i,
        {
            names.push(self.cached_hosts.hosts[i].0.clone());
            i += 1;
        }
        proof {
            assert(names@.map_values(|s: String| s@) =~= names_of(self.entries()));
        }
        Ok(names)
    }

    /// Address of a host in the current snapshot; fails exactly when the name
    /// is not there. Never surfaces a network failure: refreshing is the
    /// caller's separate step.
    pub fn get_mac_address(&self, name: &str) -> (r: Result<MacAddress, Error>)
        ensures
            r is Ok <==> lookup(self.entries(), name@) is Some,
            r matches Ok(m) ==> lookup(self.entries(), name@) == Some(m@),
            r matches Err(e) ==> e == Error::UnknownMachine,
    {
        match lookup_name(&self.cached_hosts.hosts, name) {
            Some(m) => Ok(m),
            None => Err(Error::UnknownMachine),
        }
    }
}

} // verus!
