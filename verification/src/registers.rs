//! Registers: lists of keys with their values, in which entering a key anew refreshes its value in
//! place.

use vstd::prelude::*;

use crate::tables;

verus! {

/// Whether an entry has this key.
pub open spec fn keyed<K, V>(key: K) -> spec_fn((K, V)) -> bool {
    |e: (K, V)| e.0 == key
}

/// Where a key stands.
pub open spec fn place_of<K, V>(register: Seq<(K, V)>, key: K) -> Option<int> {
    tables::first_where(register, keyed::<K, V>(key))
}

/// A register with an entry: in place where its key is there, else at the end.
pub open spec fn entered<K, V>(register: Seq<(K, V)>, entry: (K, V)) -> Seq<(K, V)> {
    match place_of(register, entry.0) {
        Some(i) => register.update(i, entry),
        None => register.push(entry),
    }
}

/// A register with a list of entries, one after the other.
pub open spec fn all_entered<K, V>(register: Seq<(K, V)>, entries: Seq<(K, V)>) -> Seq<(K, V)>
    decreases entries.len(),
{
    if entries.len() == 0 {
        register
    } else {
        entered(all_entered(register, entries.drop_last()), entries.last())
    }
}

/// The last value that a list of entries gives a key.
pub open spec fn last_value<K, V>(entries: Seq<(K, V)>, key: K) -> Option<V>
    decreases entries.len(),
{
    if entries.len() == 0 {
        None
    } else if entries.last().0 == key {
        Some(entries.last().1)
    } else {
        last_value(entries.drop_last(), key)
    }
}

/// What entering one entry does to the place of a key.
proof fn lemma_entered<K, V>(register: Seq<(K, V)>, entry: (K, V), key: K)
    ensures
        register.len() <= entered(register, entry).len(),
        ({
            let next = entered(register, entry);
            if key == entry.0 {
                place_of(next, key) matches Some(i) && 0 <= i < next.len() && next[i] == entry
            } else {
                place_of(next, key) == place_of(register, key) && (place_of(
                    register,
                    key,
                ) matches Some(i) ==> 0 <= i < register.len() && next[i] == register[i])
            }
        }),
{
    let fits = keyed::<K, V>(entry.0);
    let next = entered(register, entry);
    tables::lemma_first_where(register, fits);
    if key == entry.0 {
        tables::lemma_set_row_is_found(register, next, entry, fits);
    } else {
        tables::lemma_set_row_keeps(register, next, entry, fits, keyed::<K, V>(key));
    }
}

/// Once a list is entered, each of its keys has the last value that the list gives it.
pub proof fn lemma_last_entry_counts<K, V>(register: Seq<(K, V)>, entries: Seq<(K, V)>, key: K)
    ensures
        last_value(entries, key) matches Some(v) ==> (place_of(
            all_entered(register, entries),
            key,
        ) matches Some(i) && 0 <= i < all_entered(register, entries).len() && all_entered(
            register,
            entries,
        )[i] == (key, v)),
    decreases entries.len(),
{
    if entries.len() > 0 {
        lemma_last_entry_counts(register, entries.drop_last(), key);
        lemma_entered(all_entered(register, entries.drop_last()), entries.last(), key);
    }
}

/// Two registers with the same keys in the same places have every key in the same place.
proof fn lemma_same_places<K, V>(a: Seq<(K, V)>, b: Seq<(K, V)>, key: K)
    requires
        a.len() == b.len(),
        forall|k: int| 0 <= k < a.len() ==> (#[trigger] a[k]).0 == b[k].0,
    ensures
        place_of(a, key) == place_of(b, key),
{
    let fits = keyed::<K, V>(key);
    tables::lemma_first_where(a, fits);
    match place_of(a, key) {
        Some(i) => {
            assert forall|k: int| 0 <= k < i implies !fits(#[trigger] b[k]) by {
                assert(!fits(a[k]));
            }
            assert(fits(a[i]));
            tables::lemma_first_is(b, fits, i);
        },
        None => {
            assert forall|k: int| 0 <= k < b.len() implies !fits(#[trigger] b[k]) by {
                assert(!fits(a[k]));
            }
            tables::lemma_none_fits(b, fits);
        },
    }
}

/// Entering keys that are all there moves nothing, and changes no value but those of the keys.
proof fn lemma_refreshed<K, V>(register: Seq<(K, V)>, entries: Seq<(K, V)>)
    requires
        forall|k: int|
            0 <= k < entries.len() ==> place_of(register, (#[trigger] entries[k]).0) is Some,
    ensures
        all_entered(register, entries).len() == register.len(),
        forall|k: int|
            0 <= k < register.len() ==> (#[trigger] all_entered(register, entries)[k]).0
                == register[k].0,
        forall|k: int|
            0 <= k < register.len() ==> (#[trigger] all_entered(register, entries)[k]).1 == (
            if place_of(register, register[k].0) == Some(k) && last_value(
                entries,
                register[k].0,
            ) is Some {
                last_value(entries, register[k].0)->Some_0
            } else {
                register[k].1
            }),
    decreases entries.len(),
{
    if entries.len() > 0 {
        let rest = entries.drop_last();
        let entry = entries.last();
        assert forall|k: int| 0 <= k < rest.len() implies place_of(
            register,
            (#[trigger] rest[k]).0,
        ) is Some by {
            assert(rest[k] == entries[k]);
        }
        lemma_refreshed(register, rest);
        let before = all_entered(register, rest);
        assert(place_of(register, entries[entries.len() - 1].0) is Some);
        lemma_same_places(before, register, entry.0);
        tables::lemma_first_where(register, keyed::<K, V>(entry.0));
        let i = place_of(register, entry.0)->Some_0;
        let after = all_entered(register, entries);
        assert(after == before.update(i, entry));
        assert forall|k: int| 0 <= k < register.len() implies (#[trigger] after[k]).0
            == register[k].0 && after[k].1 == (if place_of(register, register[k].0) == Some(k)
            && last_value(entries, register[k].0) is Some {
            last_value(entries, register[k].0)->Some_0
        } else {
            register[k].1
        }) by {
            assert(before[k].0 == register[k].0);
            if k == i {
                assert(register[k].0 == entry.0);
            } else if register[k].0 == entry.0 {
                assert(place_of(register, register[k].0) == Some(i));
            }
        }
    }
}

/// A value that a list of entries gives a key is given by one of them.
proof fn lemma_has_last_value<K, V>(entries: Seq<(K, V)>, k: int)
    requires
        0 <= k < entries.len(),
    ensures
        last_value(entries, entries[k].0) is Some,
    decreases entries.len(),
{
    if k < entries.len() - 1 {
        lemma_has_last_value(entries.drop_last(), k);
        assert(entries.drop_last()[k] == entries[k]);
    }
}

/// Entering a list again changes nothing.
pub proof fn lemma_entering_again<K, V>(register: Seq<(K, V)>, entries: Seq<(K, V)>)
    ensures
        all_entered(all_entered(register, entries), entries) == all_entered(register, entries),
{
    let once = all_entered(register, entries);
    assert forall|k: int| 0 <= k < entries.len() implies place_of(
        once,
        (#[trigger] entries[k]).0,
    ) is Some by {
        lemma_has_last_value(entries, k);
        lemma_last_entry_counts(register, entries, entries[k].0);
    }
    lemma_refreshed(once, entries);
    let twice = all_entered(once, entries);
    assert forall|k: int| 0 <= k < once.len() implies twice[k] == once[k] by {
        assert(twice[k].0 == once[k].0);
        lemma_last_entry_counts(register, entries, once[k].0);
    }
    assert(twice =~= once);
}

/// Of entries with the same key the last one counts, and a key without an entry has no value.
pub proof fn lemma_last_of_a_key<K, V>(entries: Seq<(K, V)>, key: K, k: int)
    requires
        0 <= k < entries.len() ==> entries[k].0 == key,
        forall|j: int|
            (k < j || !(0 <= k < entries.len())) && 0 <= j < entries.len() ==> (
            #[trigger] entries[j]).0 != key,
    ensures
        0 <= k < entries.len() ==> last_value(entries, key) == Some(entries[k].1),
        !(0 <= k < entries.len()) ==> last_value(entries, key) is None,
    decreases entries.len(),
{
    if entries.len() > 0 {
        let rest = entries.drop_last();
        let last = entries.len() - 1;
        assert(entries.last() == entries[last]);
        if k != last {
            assert(entries[last].0 != key);
            assert forall|j: int|
                (k < j || !(0 <= k < rest.len())) && 0 <= j < rest.len() implies (
            #[trigger] rest[j]).0 != key by {
                assert(rest[j] == entries[j]);
            }
            if 0 <= k < rest.len() {
                assert(rest[k] == entries[k]);
            }
            lemma_last_of_a_key(rest, key, k);
        }
    }
}

} // verus!
