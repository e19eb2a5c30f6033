use vstd::prelude::*;
use vstd::string::StrSliceExecFns;

use crate::error::Error;
use crate::mac_address::{mac_bytes_of, valid_mac_string, MacAddress};
use crate::table::{
    arg_views, dedup_keep_last, entries_of, last_wins_lookup, lookup, lookup_name, names_of,
    sort_by_name, sorted_names, unique_names,
};

verus! {

/// `i` is the position of the first `=` in `s`.
pub open spec fn is_first_eq(s: Seq<char>, i: int) -> bool {
    &&& 0 <= i < s.len()
    &&& s[i] == '='
    &&& forall|j: int| 0 <= j < i ==> #[trigger] s[j] != '='
}

/// Position of the first `=` in `s` (meaningful only when one exists).
pub open spec fn config_eq_index(s: Seq<char>) -> int {
    choose|i: int| is_first_eq(s, i)
}

/// A usable `name=address` configuration string: it has an `=`, and what
/// follows the first one is valid address text.
pub open spec fn valid_config_entry(s: Seq<char>) -> bool {
    &&& exists|i: int| is_first_eq(s, i)
    &&& valid_mac_string(config_mac(s))
}

/// The name part: everything before the first `=`.
pub open spec fn config_name(s: Seq<char>) -> Seq<char> {
    s.take(config_eq_index(s))
}

/// The address part: everything after the first `=`.
pub open spec fn config_mac(s: Seq<char>) -> Seq<char> {
    s.skip(config_eq_index(s) + 1)
}

/// What a list of configuration strings maps a name to: the address of the
/// last valid entry carrying that name.
pub open spec fn config_lookup(args: Seq<Seq<char>>, name: Seq<char>) -> Option<Seq<u8>>
    decreases args.len(),
{
    if args.len() == 0 {
        None
    } else if valid_config_entry(args.last()) && config_name(args.last()) == name {
        Some(mac_bytes_of(config_mac(args.last())))
    } else {
        config_lookup(args.drop_last(), name)
    }
}

/// A position seen to be the first `=` is the one `config_eq_index` picks.
pub proof fn lemma_first_eq_index(s: Seq<char>, i: int)
    requires
        is_first_eq(s, i),
    ensures
        config_eq_index(s) == i,
{
    let w = config_eq_index(s);
    assert(is_first_eq(s, w));
    if w < i {
        assert(s[w] != '=');
    }
    if i < w {
        assert(s[i] != '=');
    }
}

/// Fixed name-to-address table, built once from `name=address` configuration
/// strings and immutable afterwards.
pub struct StaticProvider(pub Vec<(String, MacAddress)>);

impl StaticProvider {
    /// Ghost form of the table.
    pub open spec fn entries(&self) -> Seq<(Seq<char>, Seq<u8>)> {
        entries_of(self.0@)
    }

    /// Build the table from `name=address` strings. Each string is split at
    /// its first `=`; a missing separator or invalid address text fails the
    /// whole construction with the offending entry. A name given twice keeps
    /// its last address. The table comes out in lexicographic name order, so
    /// any listing of it is stable.
    pub fn from_args(machine: Vec<String>) -> (r: Result<Self, Error>)
        ensures
            r is Ok <==> (forall|k: int|
                0 <= k < machine@.len() ==> valid_config_entry(#[trigger] arg_views(machine@)[k])),
            r matches Ok(p) ==> sorted_names(p.entries()) && unique_names(p.entries()) && (
            forall|n: Seq<char>| #[trigger]
                lookup(p.entries(), n) == config_lookup(arg_views(machine@), n)),
            r matches Err(e) ==> exists|k: int|
                0 <= k < machine@.len() && !valid_config_entry(#[trigger] arg_views(machine@)[k])
                    && (forall|j: int|
                    0 <= j < k ==> valid_config_entry(#[trigger] arg_views(machine@)[j])) && e
                    == Error::FailedToParseMachineMapping(machine@[k]),
    {
        let ghost vs = arg_views(machine@);
        let mut parsed: Vec<(String, MacAddress)> = Vec::new();
        let mut k: usize = 0;
        while k < machine.len()
            invariant
                k <= machine.len(),
                vs == arg_views(machine@),
                vs.len() == machine@.len(),
                forall|j: int| 0 <= j < k ==> valid_config_entry(#[trigger] vs[j]),
                forall|n: Seq<char>| #[trigger]
                    last_wins_lookup(entries_of(parsed@), n) == config_lookup(
                        vs.take(k as int),
                        n,
                    ),
            decreases machine.len() - k,
        {
            let ghost before = entries_of(parsed@);
            match parse_config_entry(machine[k].as_str()) {
                Some(pair) => {
                    proof {
                        assert(vs[k as int] == machine@[k as int]@);
                    }
                    parsed.push(pair);
                    proof {
                        assert(entries_of(parsed@) =~= before.push((pair.0@, pair.1@)));
                        assert(vs.take(k as int + 1).drop_last() =~= vs.take(k as int));
                        assert(vs.take(k as int + 1).last() == vs[k as int]);
                        assert(valid_config_entry(vs[k as int]));
                        assert forall|n: Seq<char>| #[trigger]
                            last_wins_lookup(entries_of(parsed@), n) == config_lookup(
                                vs.take(k as int + 1),
                                n,
                            ) by {
                            assert(last_wins_lookup(before, n) == config_lookup(
                                vs.take(k as int),
                                n,
                            ));
                            assert(entries_of(parsed@).drop_last() =~= before);
                            assert(entries_of(parsed@).last() == (pair.0@, pair.1@));
                        }
                    }
                },
                None => {
                    proof {
                        assert(vs[k as int] == machine@[k as int]@);
                    }
                    return Err(Error::FailedToParseMachineMapping(machine[k].clone()));
                },
            }
            k += 1;
        }
        proof {
            assert(vs.take(k as int) =~= vs);
        }
        let table = sort_by_name(dedup_keep_last(parsed));
        Ok(StaticProvider(table))
    }

    /// All configured machine names, in table order.
    pub fn list_names(&self) -> (r: Result<Vec<String>, Error>)
        ensures
            r is Ok,
            r matches Ok(names) ==> names@.map_values(|s: String| s@) == names_of(self.entries()),
    {
        let mut names: Vec<String> = Vec::new();
        let mut i: usize = 0;
        while i < self.0.len()
            invariant
                i <= self.0.len(),
                names@.len() == i,
                forall|j: int| 0 <= j < i ==> (#[trigger] names@[j])@ == self.0@[j].0@,
            decreases self.0.len() - i,
        {
            names.push(self.0[i].0.clone());
            i += 1;
        }
        proof {
            assert(names@.map_values(|s: String| s@) =~= names_of(self.entries()));
        }
        Ok(names)
    }

    /// Address of a configured machine; fails exactly when the name is not in
    /// the table.
    pub fn get_mac_address(&self, name: &str) -> (r: Result<MacAddress, Error>)
        ensures
            r is Ok <==> lookup(self.entries(), name@) is Some,
            r matches Ok(m) ==> lookup(self.entries(), name@) == Some(m@),
            r matches Err(e) ==> e == Error::UnknownMachine,
    {
        match lookup_name(&self.0, name) {
            Some(m) => Ok(m),
            None => Err(Error::UnknownMachine),
        }
    }
}

/// Split one `name=address` string at its first `=` and parse the address
/// part; `None` exactly when there is no `=` or the address text is invalid.
fn parse_config_entry(s: &str) -> (r: Option<(String, MacAddress)>)
    ensures
        r is Some <==> valid_config_entry(s@),
        r matches Some(p) ==> p.0@ == config_name(s@) && p.1@ == mac_bytes_of(config_mac(s@)),
{
    let n = s.unicode_len();
    let mut i: usize = 0;
    while i < n
        invariant
            i <= n,
            n == s@.len(),
            forall|j: int| 0 <= j < i ==> #[trigger] s@[j] != '=',
        decreases n - i,
    {
        if s.get_char(i) == '=' {
            proof {
                assert(is_first_eq(s@, i as int));
                lemma_first_eq_index(s@, i as int);
            }
            let name = s.substring_char(0, i).to_owned();
            let mac_text = s.substring_char(i + 1, n);
            proof {
                assert(name@ == config_name(s@));
                assert(mac_text@ == config_mac(s@));
            }
            return match MacAddress::parse(mac_text) {
                Ok(m) => {
                    proof {
                        assert(valid_mac_string(config_mac(s@)));
                        assert(valid_config_entry(s@));
                    }
                    Some((name, m))
                },
                Err(_) => {
                    proof {
                        assert(!valid_mac_string(config_mac(s@)));
                        assert(!valid_config_entry(s@));
                    }
                    None
                },
            };
        }
        i += 1;
    }
    proof {
        assert forall|j: int| !is_first_eq(s@, j) by {
            if 0 <= j < s@.len() {
                assert(s@[j] != '=');
            }
        }
    }
    None
}

} // verus!
