use vstd::prelude::*;
use vstd::string::StrSliceExecFns;

use crate::mac_address::MacAddress;

verus! {

/// Ghost form of a name-to-address table: name characters paired with the
/// six address bytes.
pub open spec fn entries_of(hosts: Seq<(String, MacAddress)>) -> Seq<(Seq<char>, Seq<u8>)> {
    hosts.map_values(|p: (String, MacAddress)| (p.0@, p.1@))
}

/// First match wins: the address of the earliest entry carrying `name`.
pub open spec fn lookup(entries: Seq<(Seq<char>, Seq<u8>)>, name: Seq<char>) -> Option<Seq<u8>>
    decreases entries.len(),
{
    if entries.len() == 0 {
        None
    } else if entries[0].0 == name {
        Some(entries[0].1)
    } else {
        lookup(entries.drop_first(), name)
    }
}

/// Last match wins: the address of the latest entry carrying `name`.
pub open spec fn last_wins_lookup(
    entries: Seq<(Seq<char>, Seq<u8>)>,
    name: Seq<char>,
) -> Option<Seq<u8>>
    decreases entries.len(),
{
    if entries.len() == 0 {
        None
    } else if entries.last().0 == name {
        Some(entries.last().1)
    } else {
        last_wins_lookup(entries.drop_last(), name)
    }
}

/// The names column of a table.
pub open spec fn names_of(entries: Seq<(Seq<char>, Seq<u8>)>) -> Seq<Seq<char>> {
    entries.map_values(|p: (Seq<char>, Seq<u8>)| p.0)
}

/// Ghost form of a list of strings.
pub open spec fn arg_views(args: Seq<String>) -> Seq<Seq<char>> {
    args.map_values(|s: String| s@)
}

/// No two entries carry the same name.
pub open spec fn unique_names(entries: Seq<(Seq<char>, Seq<u8>)>) -> bool {
    forall|i: int, j: int|
        0 <= i < j < entries.len() ==> (#[trigger] entries[i]).0 != (#[trigger] entries[j]).0
}

/// A name resolves exactly when some entry carries it.
pub proof fn lemma_lookup_some_iff_present(entries: Seq<(Seq<char>, Seq<u8>)>, name: Seq<char>)
    ensures
        lookup(entries, name) is Some <==> exists|i: int|
            0 <= i < entries.len() && (#[trigger] entries[i]).0 == name,
    decreases entries.len(),
{
    if entries.len() > 0 && entries[0].0 != name {
        lemma_lookup_some_iff_present(entries.drop_first(), name);
        if lookup(entries, name) is Some {
            let i = choose|i: int|
                0 <= i < entries.drop_first().len() && (#[trigger] entries.drop_first()[i]).0
                    == name;
            assert(entries[i + 1].0 == name);
        }
        if exists|i: int| 0 <= i < entries.len() && (#[trigger] entries[i]).0 == name {
            let i = choose|i: int| 0 <= i < entries.len() && (#[trigger] entries[i]).0 == name;
            assert(entries.drop_first()[i - 1].0 == name);
        }
    }
}

/// Appending an entry leaves every already-resolving name unchanged and makes
/// the new name resolve if it did not.
pub proof fn lemma_lookup_push(
    entries: Seq<(Seq<char>, Seq<u8>)>,
    p: (Seq<char>, Seq<u8>),
    name: Seq<char>,
)
    ensures
        lookup(entries.push(p), name) == if lookup(entries, name) is Some {
            lookup(entries, name)
        } else if p.0 == name {
            Some(p.1)
        } else {
            None
        },
    decreases entries.len(),
{
    if entries.len() == 0 {
        assert(entries.push(p).drop_first() =~= Seq::<(Seq<char>, Seq<u8>)>::empty());
    } else {
        assert(entries.push(p).drop_first() =~= entries.drop_first().push(p));
        lemma_lookup_push(entries.drop_first(), p, name);
    }
}

/// Prepending an entry cannot override a later one: the suffix answers first.
pub proof fn lemma_last_wins_prepend(
    p: (Seq<char>, Seq<u8>),
    entries: Seq<(Seq<char>, Seq<u8>)>,
    name: Seq<char>,
)
    ensures
        last_wins_lookup(seq![p] + entries, name) == if last_wins_lookup(entries, name) is Some {
            last_wins_lookup(entries, name)
        } else if p.0 == name {
            Some(p.1)
        } else {
            None
        },
    decreases entries.len(),
{
    let whole = seq![p] + entries;
    if entries.len() == 0 {
        assert(whole =~= seq![p]);
        assert(whole.drop_last() =~= Seq::<(Seq<char>, Seq<u8>)>::empty());
    } else {
        assert(whole.last() == entries.last());
        assert(whole.drop_last() =~= seq![p] + entries.drop_last());
        lemma_last_wins_prepend(p, entries.drop_last(), name);
    }
}

/// Strict lexicographic order on name text, by Unicode scalar value — the
/// order an ordered map of strings lists its keys in.
pub open spec fn lex_lt(a: Seq<char>, b: Seq<char>) -> bool
    decreases a.len(),
{
    if b.len() == 0 {
        false
    } else if a.len() == 0 {
        true
    } else if a[0] < b[0] {
        true
    } else if a[0] == b[0] {
        lex_lt(a.drop_first(), b.drop_first())
    } else {
        false
    }
}

/// The table's names are strictly increasing (which also makes them unique).
pub open spec fn sorted_names(entries: Seq<(Seq<char>, Seq<u8>)>) -> bool {
    forall|i: int, j: int|
        0 <= i < j < entries.len() ==> lex_lt(
            (#[trigger] entries[i]).0,
            (#[trigger] entries[j]).0,
        )
}

/// Lexicographic order is connex: two unordered names are the same name.
pub proof fn lemma_lex_connex(a: Seq<char>, b: Seq<char>)
    requires
        !lex_lt(a, b),
        !lex_lt(b, a),
    ensures
        a == b,
    decreases a.len(),
{
    if a.len() == 0 || b.len() == 0 {
        assert(a =~= b);
    } else {
        assert(!(a[0] < b[0]));
        assert(!(b[0] < a[0]));
        assert(a[0] == b[0]);
        lemma_lex_connex(a.drop_first(), b.drop_first());
        assert forall|i: int| 0 <= i < a.len() implies a[i] == b[i] by {
            if i > 0 {
                assert(a.drop_first()[i - 1] == b.drop_first()[i - 1]);
            }
        }
        assert(a =~= b);
    }
}

/// Lexicographic order is irreflexive.
pub proof fn lemma_lex_irrefl(a: Seq<char>)
    ensures
        !lex_lt(a, a),
    decreases a.len(),
{
    if a.len() > 0 {
        lemma_lex_irrefl(a.drop_first());
    }
}

/// Lexicographic order is transitive.
pub proof fn lemma_lex_trans(a: Seq<char>, b: Seq<char>, c: Seq<char>)
    requires
        lex_lt(a, b),
        lex_lt(b, c),
    ensures
        lex_lt(a, c),
    decreases a.len(),
{
    if a.len() > 0 {
        if a[0] == b[0] && b[0] == c[0] {
            lemma_lex_trans(a.drop_first(), b.drop_first(), c.drop_first());
        }
    }
}

/// Whether `a` comes strictly before `b` lexicographically.
pub(crate) fn str_lex_lt(a: &str, b: &str) -> (r: bool)
    ensures
        r == lex_lt(a@, b@),
{
    let na = a.unicode_len();
    let nb = b.unicode_len();
    let mut i: usize = 0;
    proof {
        assert(a@.skip(0) =~= a@);
        assert(b@.skip(0) =~= b@);
    }
    while i < na && i < nb
        invariant
            i <= na,
            i <= nb,
            na == a@.len(),
            nb == b@.len(),
            lex_lt(a@, b@) == lex_lt(a@.skip(i as int), b@.skip(i as int)),
        decreases na - i,
    {
        let ca = a.get_char(i);
        let cb = b.get_char(i);
        proof {
            assert(a@.skip(i as int)[0] == a@[i as int]);
            assert(b@.skip(i as int)[0] == b@[i as int]);
        }
        if (ca as u32) < (cb as u32) {
            proof {
                assert(ca < cb);
            }
            return true;
        }
        if (ca as u32) > (cb as u32) {
            proof {
                assert(cb < ca);
            }
            return false;
        }
        proof {
            assert(ca == cb);
            assert(a@.skip(i as int).drop_first() =~= a@.skip(i as int + 1));
            assert(b@.skip(i as int).drop_first() =~= b@.skip(i as int + 1));
        }
        i += 1;
    }
    proof {
        if i >= na {
            assert(a@.skip(i as int) =~= Seq::<char>::empty());
        }
        if i >= nb {
            assert(b@.skip(i as int) =~= Seq::<char>::empty());
        }
    }
    i < nb
}

/// Inserting an entry whose name is not in the table answers lookups for that
/// name and leaves every other lookup unchanged, wherever it is inserted.
pub proof fn lemma_lookup_insert_fresh(
    entries: Seq<(Seq<char>, Seq<u8>)>,
    p: int,
    pair: (Seq<char>, Seq<u8>),
    name: Seq<char>,
)
    requires
        0 <= p <= entries.len(),
        forall|i: int| 0 <= i < entries.len() ==> (#[trigger] entries[i]).0 != pair.0,
    ensures
        lookup(entries.insert(p, pair), name) == if name == pair.0 {
            Some(pair.1)
        } else {
            lookup(entries, name)
        },
    decreases p,
{
    let grown = entries.insert(p, pair);
    if p == 0 {
        assert(grown =~= seq![pair] + entries);
        assert(grown.drop_first() =~= entries);
        if name == pair.0 {
            assert(lookup(grown, name) == Some(pair.1));
        }
    } else {
        assert(grown[0] == entries[0]);
        assert(grown.drop_first() =~= entries.drop_first().insert(p - 1, pair));
        assert forall|i: int| 0 <= i < entries.drop_first().len() implies (
        #[trigger] entries.drop_first()[i]).0 != pair.0 by {
            assert(entries.drop_first()[i] == entries[i + 1]);
        }
        lemma_lookup_insert_fresh(entries.drop_first(), p - 1, pair, name);
        if name == pair.0 {
            assert(entries[0].0 != pair.0);
        }
    }
}

/// Sort a unique-name table by name. Lookups are unchanged; the names come
/// out in strictly increasing lexicographic order.
pub(crate) fn sort_by_name(input: Vec<(String, MacAddress)>) -> (r: Vec<(String, MacAddress)>)
    requires
        unique_names(entries_of(input@)),
    ensures
        sorted_names(entries_of(r@)),
        unique_names(entries_of(r@)),
        forall|n: Seq<char>| #[trigger]
            lookup(entries_of(r@), n) == lookup(entries_of(input@), n),
{
    let ghost all = entries_of(input@);
    let mut out: Vec<(String, MacAddress)> = Vec::new();
    let mut k: usize = 0;
    proof {
        assert(all.take(0) =~= Seq::<(Seq<char>, Seq<u8>)>::empty());
    }
    while k < input.len()
        invariant
            k <= input.len(),
            all == entries_of(input@),
            all.len() == input@.len(),
            unique_names(all),
            sorted_names(entries_of(out@)),
            forall|n: Seq<char>| #[trigger]
                lookup(entries_of(out@), n) == lookup(all.take(k as int), n),
        decreases input.len() - k,
    {
        let ghost before = entries_of(out@);
        let ghost pair = all[k as int];
        let entry = (input[k].0.clone(), input[k].1);
        proof {
            assert((entry.0@, entry.1@) == pair);
            // the new name is absent: it is absent from the processed prefix
            // (names are unique), and `out` answers exactly the prefix's lookups
            lemma_lookup_some_iff_present(all.take(k as int), pair.0);
            if lookup(all.take(k as int), pair.0) is Some {
                let w = choose|w: int|
                    0 <= w < all.take(k as int).len() && (#[trigger] all.take(k as int)[w]).0
                        == pair.0;
                assert(all[w].0 == all[k as int].0);
                assert(false);
            }
            assert(lookup(all.take(k as int), pair.0) is None);
            assert(lookup(before, pair.0) == lookup(all.take(k as int), pair.0));
            lemma_lookup_some_iff_present(before, pair.0);
            assert forall|i: int| 0 <= i < before.len() implies (#[trigger] before[i]).0
                != pair.0 by {}
        }
        // scan to the first position whose name is not below the new one
        let mut p: usize = 0;
        while p < out.len() && str_lex_lt(out[p].0.as_str(), entry.0.as_str())
            invariant
                p <= out.len(),
                entry.0@ == pair.0,
                before == entries_of(out@),
                forall|i: int| 0 <= i < p ==> lex_lt((#[trigger] before[i]).0, pair.0),
            decreases out.len() - p,
        {
            p += 1;
        }
        proof {
            if p < out.len() {
                assert(!lex_lt(before[p as int].0, pair.0));
            }
        }
        out.insert(p, entry);
        proof {
            let grown = entries_of(out@);
            assert(grown =~= before.insert(p as int, pair));
            // sortedness: entries before p are below the new name; the one at
            // p (previously at p) is not below it and differs from it, so by
            // connexity it is above; later ones follow by transitivity
            assert forall|i: int, j: int| 0 <= i < j < grown.len() implies lex_lt(
                (#[trigger] grown[i]).0,
                (#[trigger] grown[j]).0,
            ) by {
                let pi = p as int;
                if j < pi {
                    assert(grown[i] == before[i] && grown[j] == before[j]);
                } else if i > pi {
                    assert(grown[i] == before[i - 1] && grown[j] == before[j - 1]);
                } else if i < pi && j == pi {
                    assert(grown[i] == before[i] && grown[j] == pair);
                } else if i == pi && j > pi {
                    assert(grown[i] == pair && grown[j] == before[j - 1]);
                    assert(before[pi].0 != pair.0);
                    assert(!lex_lt(before[pi].0, pair.0));
                    if !lex_lt(pair.0, before[pi].0) {
                        lemma_lex_connex(before[pi].0, pair.0);
                    }
                    assert(lex_lt(pair.0, before[pi].0));
                    if j - 1 > pi {
                        assert(lex_lt(before[pi].0, before[j - 1].0));
                        lemma_lex_trans(pair.0, before[pi].0, before[j - 1].0);
                    }
                } else if i < pi && j > pi {
                    assert(grown[i] == before[i] && grown[j] == before[j - 1]);
                    assert(i < j - 1);
                    assert(lex_lt(before[i].0, before[j - 1].0));
                }
            }
            // lookups now cover the one-longer prefix
            assert(all.take(k as int + 1).drop_last() =~= all.take(k as int));
            assert forall|n: Seq<char>| #[trigger]
                lookup(grown, n) == lookup(all.take(k as int + 1), n) by {
                lemma_lookup_insert_fresh(before, p as int, pair, n);
                assert(lookup(before, n) == lookup(all.take(k as int), n));
                assert(lookup(all.take(k as int), pair.0) is None);
                lemma_lookup_push(all.take(k as int), pair, n);
                assert(all.take(k as int + 1) =~= all.take(k as int).push(pair));
            }
        }
        k += 1;
    }
    proof {
        assert(all.take(k as int) =~= all);
        let es = entries_of(out@);
        assert forall|i: int, j: int| 0 <= i < j < es.len() implies (#[trigger] es[i]).0 != (
        #[trigger] es[j]).0 by {
            lemma_lex_irrefl(es[i].0);
        }
    }
    out
}

/// Find the first entry carrying `name`, by linear scan.
pub(crate) fn lookup_name(hosts: &Vec<(String, MacAddress)>, name: &str) -> (r: Option<MacAddress>)
    ensures
        match r {
            Some(m) => lookup(entries_of(hosts@), name@) == Some(m@),
            None => lookup(entries_of(hosts@), name@) is None,
        },
{
    let ghost es = entries_of(hosts@);
    let owned: String = name.to_owned();
    let mut i: usize = 0;
    proof {
        assert(es.skip(0) =~= es);
    }
    while i < hosts.len()
        invariant
            i <= hosts.len(),
            owned@ == name@,
            es == entries_of(hosts@),
            es.len() == hosts@.len(),
            lookup(es, name@) == lookup(es.skip(i as int), name@),
        decreases hosts.len() - i,
    {
        if hosts[i].0 == owned {
            proof {
                assert(es.skip(i as int)[0] == es[i as int]);
            }
            return Some(hosts[i].1);
        }
        proof {
            assert(es.skip(i as int)[0] == es[i as int]);
            assert(es.skip(i as int).drop_first() =~= es.skip(i as int + 1));
        }
        i += 1;
    }
    proof {
        assert(es.skip(i as int) =~= Seq::<(Seq<char>, Seq<u8>)>::empty());
    }
    None
}

/// Collapse a table so that for every name only its last entry remains; the
/// result has unique names and answers first-match lookups exactly as the
/// input answers last-match lookups.
pub(crate) fn dedup_keep_last(pairs: Vec<(String, MacAddress)>) -> (r: Vec<(String, MacAddress)>)
    ensures
        unique_names(entries_of(r@)),
        forall|n: Seq<char>| #[trigger]
            lookup(entries_of(r@), n) == last_wins_lookup(entries_of(pairs@), n),
{
    let ghost input = entries_of(pairs@);
    let mut out: Vec<(String, MacAddress)> = Vec::new();
    let mut k: usize = pairs.len();
    proof {
        assert(input.skip(k as int) =~= Seq::<(Seq<char>, Seq<u8>)>::empty());
    }
    while k > 0
        invariant
            k <= pairs.len(),
            input == entries_of(pairs@),
            input.len() == pairs@.len(),
            unique_names(entries_of(out@)),
            forall|n: Seq<char>| #[trigger]
                lookup(entries_of(out@), n) == last_wins_lookup(input.skip(k as int), n),
        decreases k,
    {
        k -= 1;
        let ghost before = entries_of(out@);
        let ghost suffix = input.skip(k as int + 1);
        proof {
            assert(input.skip(k as int) =~= seq![input[k as int]] + suffix);
        }
        let name_ref: &String = &pairs[k].0;
        let found = lookup_name(&out, name_ref.as_str());
        if found.is_none() {
            let entry = (pairs[k].0.clone(), pairs[k].1);
            proof {
                assert(entry.0@ == input[k as int].0 && entry.1@ == input[k as int].1);
            }
            out.push(entry);
            proof {
                assert(entries_of(out@) =~= before.push(input[k as int]));
                lemma_lookup_some_iff_present(before, input[k as int].0);
                assert forall|i: int, j: int|
                    0 <= i < j < entries_of(out@).len() implies (#[trigger] entries_of(
                    out@,
                )[i]).0 != (#[trigger] entries_of(out@)[j]).0 by {
                    if j == entries_of(out@).len() - 1 {
                        assert(entries_of(out@)[i] == before[i]);
                    }
                }
                assert forall|n: Seq<char>| #[trigger]
                    lookup(entries_of(out@), n) == last_wins_lookup(
                    input.skip(k as int),
                    n,
                ) by {
                    lemma_lookup_push(before, input[k as int], n);
                    lemma_last_wins_prepend(input[k as int], suffix, n);
                }
            }
        } else {
            proof {
                assert forall|n: Seq<char>| #[trigger]
                    lookup(entries_of(out@), n) == last_wins_lookup(
                    input.skip(k as int),
                    n,
                ) by {
                    lemma_last_wins_prepend(input[k as int], suffix, n);
                }
            }
        }
    }
    proof {
        assert(input.skip(0) =~= input);
    }
    out
}

} // verus!
