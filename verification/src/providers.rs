use vstd::prelude::*;

use crate::error::Error;
use crate::fritzbox::FritzBoxProvider;
use crate::mac_address::{mac_bytes_of, valid_mac_string, MacAddress};
use crate::static_provider::StaticProvider;
use crate::table::{lookup, names_of};
use crate::wake::Wake;

verus! {

/// A backend able to map machine names to hardware addresses: either the
/// fixed configuration table or the cache-backed remote inventory.
pub enum Provider {
    Static(StaticProvider),
    FritzBox(FritzBoxProvider),
}

impl Provider {
    /// Ghost form of the backend's current table.
    pub open spec fn entries(&self) -> Seq<(Seq<char>, Seq<u8>)> {
        match self {
            Provider::Static(p) => p.entries(),
            Provider::FritzBox(p) => p.entries(),
        }
    }

    /// All names this backend currently knows, in table order.
    pub fn list_names(&self) -> (r: Result<Vec<String>, Error>)
        ensures
            r is Ok,
            r matches Ok(names) ==> names@.map_values(|s: String| s@) == names_of(self.entries()),
    {
        match self {
            Provider::Static(p) => p.list_names(),
            Provider::FritzBox(p) => p.list_names(),
        }
    }

    /// Address for a name in this backend's current table; fails exactly when
    /// the name is absent.
    pub fn get_mac_address(&self, name: &str) -> (r: Result<MacAddress, Error>)
        ensures
            r is Ok <==> lookup(self.entries(), name@) is Some,
            r matches Ok(m) ==> lookup(self.entries(), name@) == Some(m@),
            r matches Err(e) ==> e == Error::UnknownMachine,
    {
        match self {
            Provider::Static(p) => p.get_mac_address(name),
            Provider::FritzBox(p) => p.get_mac_address(name),
        }
    }
}

/// What an ordered list of backends resolves a name to: the answer of the
/// earliest backend that knows it.
pub open spec fn set_lookup(providers: Seq<Provider>, name: Seq<char>) -> Option<Seq<u8>>
    decreases providers.len(),
{
    if providers.len() == 0 {
        None
    } else if lookup(providers[0].entries(), name) is Some {
        lookup(providers[0].entries(), name)
    } else {
        set_lookup(providers.drop_first(), name)
    }
}

/// The names all backends know, in backend order.
pub open spec fn all_names(providers: Seq<Provider>) -> Seq<Seq<char>>
    decreases providers.len(),
{
    if providers.len() == 0 {
        Seq::empty()
    } else {
        all_names(providers.drop_last()) + names_of(providers.last().entries())
    }
}

/// The ordered collection of backends a wake service consults, earliest
/// registered first.
pub struct ProviderSet {
    pub providers: Vec<Provider>,
}

impl ProviderSet {
    pub fn new(providers: Vec<Provider>) -> (r: Self)
        ensures
            r.providers@ == providers@,
    {
        ProviderSet { providers }
    }

    /// The names of every machine any backend knows, in backend order.
    pub fn get_hosts(&self) -> (r: Vec<String>)
        ensures
            r@.map_values(|s: String| s@) == all_names(self.providers@),
    {
        let mut hosts: Vec<String> = Vec::new();
        let mut i: usize = 0;
        while i < self.providers.len()
            invariant
                i <= self.providers.len(),
                hosts@.map_values(|s: String| s@) =~= all_names(self.providers@.take(i as int)),
            decreases self.providers.len() - i,
        {
            let ghost before = hosts@;
            match self.providers[i].list_names() {
                Ok(mut names) => {
                    let ghost got = names@;
                    hosts.append(&mut names);
                    proof {
                        assert(self.providers@.take(i as int + 1).drop_last()
                            =~= self.providers@.take(i as int));
                        assert(self.providers@.take(i as int + 1).last()
                            == self.providers@[i as int]);
                        assert(hosts@ == before + got);
                        assert(hosts@.map_values(|s: String| s@) =~= before.map_values(
                            |s: String| s@,
                        ) + got.map_values(|s: String| s@));
                        assert(hosts@.map_values(|s: String| s@) =~= all_names(
                            self.providers@.take(i as int + 1),
                        ));
                    }
                },
                Err(_) => {},
            }
            i += 1;
        }
        proof {
            assert(self.providers@.take(self.providers@.len() as int) =~= self.providers@);
        }
        hosts
    }

    /// First match wins: the address from the earliest-registered backend
    /// that knows the name; fails exactly when no backend knows it.
    pub fn get_mac_address(&self, name: &str) -> (r: Result<MacAddress, Error>)
        ensures
            r is Ok <==> set_lookup(self.providers@, name@) is Some,
            r matches Ok(m) ==> set_lookup(self.providers@, name@) == Some(m@),
            r matches Err(e) ==> e == Error::UnknownMachine,
    {
        let ghost ps = self.providers@;
        let mut i: usize = 0;
        proof {
            assert(ps.skip(0) =~= ps);
        }
        while i < self.providers.len()
            invariant
                i <= self.providers.len(),
                ps == self.providers@,
                set_lookup(ps, name@) == set_lookup(ps.skip(i as int), name@),
            decreases self.providers.len() - i,
        {
            proof {
                assert(ps.skip(i as int)[0] == ps[i as int]);
                assert(ps.skip(i as int).drop_first() =~= ps.skip(i as int + 1));
            }
            match self.providers[i].get_mac_address(name) {
                Ok(m) => {
                    return Ok(m);
                },
                Err(_) => {},
            }
            i += 1;
        }
        proof {
            assert(ps.skip(i as int) =~= Seq::<Provider>::empty());
        }
        Err(Error::UnknownMachine)
    }

    /// Resolve a wake request to an address. A raw address, when present,
    /// takes priority and must be valid text; otherwise a machine name is
    /// resolved through the backends; a request with neither is invalid.
    pub fn resolve(&self, request: &Wake) -> (r: Result<MacAddress, Error>)
        ensures
            request.mac_address matches Some(a) ==> {
                &&& valid_mac_string(a@) <==> r is Ok
                &&& r matches Ok(m) ==> m@ == mac_bytes_of(a@)
                &&& r matches Err(e) ==> e == Error::InvalidMacAddress
            },
            request.mac_address is None && request.machine is Some ==> {
                let nm = request.machine->0;
                &&& r is Ok <==> set_lookup(self.providers@, nm@) is Some
                &&& r matches Ok(m) ==> set_lookup(self.providers@, nm@) == Some(m@)
                &&& r matches Err(e) ==> e == Error::UnknownMachine
            },
            request.mac_address is None && request.machine is None ==> r == Err::<
                MacAddress,
                Error,
            >(Error::InvalidRequest),
    {
        match &request.mac_address {
            Some(a) => MacAddress::parse(a.as_str()),
            None => match &request.machine {
                Some(nm) => self.get_mac_address(nm.as_str()),
                None => Err(Error::InvalidRequest),
            },
        }
    }
}

/// First match wins, spelled out: when backend `i` knows the name and every
/// earlier backend does not, the set resolves the name to backend `i`'s
/// answer — so of two backends defining the same name, the earlier-registered
/// one silently wins.
pub proof fn lemma_first_provider_wins(providers: Seq<Provider>, i: int, name: Seq<char>)
    requires
        0 <= i < providers.len(),
        lookup(providers[i].entries(), name) is Some,
        forall|j: int| 0 <= j < i ==> lookup((#[trigger] providers[j]).entries(), name) is None,
    ensures
        set_lookup(providers, name) == lookup(providers[i].entries(), name),
    decreases i,
{
    if i > 0 {
        assert(providers.drop_first()[i - 1] == providers[i]);
        assert forall|j: int| 0 <= j < i - 1 implies lookup(
            (#[trigger] providers.drop_first()[j]).entries(),
            name,
        ) is None by {
            assert(providers.drop_first()[j] == providers[j + 1]);
        }
        lemma_first_provider_wins(providers.drop_first(), i - 1, name);
    }
}

} // verus!
