//! Text keyed by text, in the order in which the keys were first inserted.

use indexmap::IndexMap;
use vstd::prelude::*;

verus! {

/// The insertion-ordered map of the `indexmap` crate, carried as an opaque value.
#[verifier::external_type_specification]
#[verifier::external_body]
#[verifier::reject_recursive_types(K)]
#[verifier::reject_recursive_types(V)]
#[verifier::reject_recursive_types(S)]
pub struct ExIndexMap<K, V, S>(indexmap::IndexMap<K, V, S>);

/// The pairs that a map holds, in its own order.
pub uninterp spec fn entries_of(map: IndexMap<String, String>) -> Seq<(Seq<char>, Seq<char>)>;

/// The entry of `key`, if there is one.
pub open spec fn lookup(entries: Seq<(Seq<char>, Seq<char>)>, key: Seq<char>) -> Option<Seq<char>>
    decreases entries.len(),
{
    if entries.len() == 0 {
        None
    } else if entries.last().0 == key {
        Some(entries.last().1)
    } else {
        lookup(entries.drop_last(), key)
    }
}

/// `entries` with `value` in place of every value of `key`.
pub open spec fn replaced(
    entries: Seq<(Seq<char>, Seq<char>)>,
    key: Seq<char>,
    value: Seq<char>,
) -> Seq<(Seq<char>, Seq<char>)> {
    Seq::new(
        entries.len(),
        |i: int|
            if entries[i].0 == key {
                (key, value)
            } else {
                entries[i]
            },
    )
}

/// `entries` with `key` bound to `value`: in the key's place if it has one, last otherwise.
pub open spec fn put(
    entries: Seq<(Seq<char>, Seq<char>)>,
    key: Seq<char>,
    value: Seq<char>,
) -> Seq<(Seq<char>, Seq<char>)> {
    if lookup(entries, key) is Some {
        replaced(entries, key, value)
    } else {
        entries.push((key, value))
    }
}

/// No key occurs twice.
pub open spec fn keys_distinct(entries: Seq<(Seq<char>, Seq<char>)>) -> bool {
    forall|i: int, j: int|
        0 <= i < j < entries.len() ==> (#[trigger] entries[i]).0 != (#[trigger] entries[j]).0
}

proof fn lemma_lookup_replaced(
    entries: Seq<(Seq<char>, Seq<char>)>,
    key: Seq<char>,
    value: Seq<char>,
    other: Seq<char>,
)
    ensures
        other != key ==> lookup(replaced(entries, key, value), other) == lookup(entries, other),
        lookup(entries, key) is Some ==> lookup(replaced(entries, key, value), key) == Some(value),
    decreases entries.len(),
{
    if entries.len() > 0 {
        lemma_lookup_replaced(entries.drop_last(), key, value, other);
        assert(replaced(entries, key, value).drop_last() =~= replaced(
            entries.drop_last(),
            key,
            value,
        ));
    }
}

/// A key that is looked up has the value that was last put, and putting one
/// key leaves the values of the others alone.
pub proof fn law_lookup_after_put(
    entries: Seq<(Seq<char>, Seq<char>)>,
    key: Seq<char>,
    value: Seq<char>,
    other: Seq<char>,
)
    ensures
        lookup(put(entries, key, value), key) == Some(value),
        other != key ==> lookup(put(entries, key, value), other) == lookup(entries, other),
{
    lemma_lookup_replaced(entries, key, value, other);
    assert(entries.push((key, value)).drop_last() =~= entries);
}

proof fn lemma_lookup_finds(entries: Seq<(Seq<char>, Seq<char>)>, i: int)
    requires
        0 <= i < entries.len(),
    ensures
        lookup(entries, entries[i].0) is Some,
    decreases entries.len(),
{
    if i < entries.len() - 1 {
        lemma_lookup_finds(entries.drop_last(), i);
    }
}

/// Keys stay where they are, and no key comes to occur twice.
pub proof fn law_put_keeps_keys(
    entries: Seq<(Seq<char>, Seq<char>)>,
    key: Seq<char>,
    value: Seq<char>,
)
    ensures
        entries.len() <= put(entries, key, value).len(),
        forall|i: int|
            0 <= i < entries.len() ==> (#[trigger] put(entries, key, value)[i]).0 == entries[i].0,
        keys_distinct(entries) ==> keys_distinct(put(entries, key, value)),
{
    let after = put(entries, key, value);
    if lookup(entries, key) is None {
        assert forall|i: int| 0 <= i < entries.len() implies (#[trigger] entries[i]).0 != key by {
            lemma_lookup_finds(entries, i);
        }
    }
    if keys_distinct(entries) {
        assert forall|i: int, j: int| 0 <= i < j < after.len() implies (#[trigger] after[i]).0 != (
        #[trigger] after[j]).0 by {
            assert(entries[i].0 == after[i].0);
            if j < entries.len() {
                assert(entries[j].0 == after[j].0);
            }
        }
    }
}

/// Calls `IndexMap::default`, which returns a map without entries.
#[verifier::external_body]
pub(crate) fn empty_map() -> (map: IndexMap<String, String>)
    ensures
        entries_of(map) == Seq::<(Seq<char>, Seq<char>)>::empty(),
{
    IndexMap::default()
}

/// Calls `IndexMap::clone`, which returns a map with the same entries in the same order.
#[verifier::external_body]
pub(crate) fn copy_map(map: &IndexMap<String, String>) -> (copy: IndexMap<String, String>)
    ensures
        entries_of(copy) == entries_of(*map),
{
    map.clone()
}

/// Calls `IndexMap::insert`. A key that is there keeps its place and gets the
/// new value; any other key is added last. The old value is handed back.
#[verifier::external_body]
pub(crate) fn insert_entry(map: &mut IndexMap<String, String>, key: String, value: String) -> (old_value: Option<String>)
    ensures
        entries_of(*final(map)) == put(entries_of(*old(map)), key@, value@),
        old_value is Some == lookup(entries_of(*old(map)), key@) is Some,
        old_value is Some ==> Some(old_value->0@) == lookup(entries_of(*old(map)), key@),
{
    map.insert(key, value)
}

/// Calls `IndexMap::get`, which finds the value of a key, if it is there.
#[verifier::external_body]
pub(crate) fn get_entry<'a>(map: &'a IndexMap<String, String>, key: &str) -> (value: Option<&'a String>)
    ensures
        value is Some == lookup(entries_of(*map), key@) is Some,
        value is Some ==> Some(value->0@) == lookup(entries_of(*map), key@),
{
    map.get(key)
}

/// What is found under a key stands in an entry of that key, and nothing is
/// found exactly when no entry has it.
pub proof fn law_lookup_finds_entries(entries: Seq<(Seq<char>, Seq<char>)>, key: Seq<char>)
    ensures
        lookup(entries, key) is None <==> forall|i: int|
            0 <= i < entries.len() ==> (#[trigger] entries[i]).0 != key,
        lookup(entries, key) is Some ==> entries.contains((key, lookup(entries, key)->0)),
    decreases entries.len(),
{
    if entries.len() > 0 {
        let fewer = entries.drop_last();
        law_lookup_finds_entries(fewer, key);
        if entries.last().0 == key {
            assert(entries[entries.len() - 1] == (key, entries.last().1));
        } else if lookup(fewer, key) is Some {
            let i = choose|i: int| 0 <= i < fewer.len() && fewer[i] == (key, lookup(fewer, key)->0);
            assert(entries[i] == fewer[i]);
        } else {
            assert forall|i: int| 0 <= i < entries.len() implies (#[trigger] entries[i]).0 != key by {
                if i < fewer.len() {
                    assert(fewer[i].0 != key);
                }
            }
        }
    }
}

/// Where no key occurs twice, each entry is found under its key.
pub proof fn law_every_entry_is_found(entries: Seq<(Seq<char>, Seq<char>)>, i: int)
    requires
        0 <= i < entries.len(),
        forall|j: int, k: int|
            0 <= j < k < entries.len() ==> (#[trigger] entries[j]).0 != (#[trigger] entries[k]).0,
    ensures
        lookup(entries, entries[i].0) == Some(entries[i].1),
{
    law_lookup_finds_entries(entries, entries[i].0);
    let found = lookup(entries, entries[i].0)->0;
    let k = choose|k: int| 0 <= k < entries.len() && entries[k] == (entries[i].0, found);
    assert(k < i ==> entries[k].0 != entries[i].0);
    assert(i < k ==> entries[i].0 != entries[k].0);
}

/// A new key is added last. A known one gets the new value in its place, and no
/// entry is added or moved.
pub proof fn law_put_touches_one_key(
    entries: Seq<(Seq<char>, Seq<char>)>,
    key: Seq<char>,
    value: Seq<char>,
)
    ensures
        (forall|i: int| 0 <= i < entries.len() ==> (#[trigger] entries[i]).0 != key) ==> put(
            entries,
            key,
            value,
        ) == entries.push((key, value)),
        (exists|i: int| 0 <= i < entries.len() && (#[trigger] entries[i]).0 == key) ==> put(
            entries,
            key,
            value,
        ).len() == entries.len(),
        forall|i: int|
            #![trigger put(entries, key, value)[i]]
            0 <= i < entries.len() ==> put(entries, key, value)[i] == if entries[i].0 == key {
                (key, value)
            } else {
                entries[i]
            },
{
    law_lookup_finds_entries(entries, key);
}

} // verus!
