//! Association vectors: the id-keyed maps of the planet store. Keys are
//! unique, insertion order is preserved, and inserting an existing key
//! overwrites in place — the last write for an id wins.

use vstd::prelude::*;

verus! {

/// No two entries share a key.
pub open spec fn assoc_unique<V>(s: Seq<(i64, V)>) -> bool {
    forall|i: int, j: int| 0 <= i < j < s.len() ==> s[i].0 != s[j].0
}

/// The value stored under `key`, if any.
pub open spec fn assoc_get<V>(s: Seq<(i64, V)>, key: i64) -> Option<V>
    decreases s.len(),
{
    if s.len() == 0 {
        None
    } else if s.last().0 == key {
        Some(s.last().1)
    } else {
        assoc_get(s.drop_last(), key)
    }
}

/// The list after `key = value`: replaces the entry holding `key` in
/// place, or appends a new entry at the end.
pub open spec fn spec_assoc_insert<V>(s: Seq<(i64, V)>, key: i64, value: V) -> Seq<(i64, V)>
    decreases s.len(),
{
    if s.len() == 0 {
        seq![(key, value)]
    } else if s.first().0 == key {
        seq![(key, value)] + s.drop_first()
    } else {
        seq![s.first()] + spec_assoc_insert(s.drop_first(), key, value)
    }
}

/// A key is stored exactly when some entry carries it.
pub proof fn lemma_assoc_get_exists<V>(s: Seq<(i64, V)>, key: i64)
    ensures
        assoc_get(s, key) is Some <==> exists|i: int| 0 <= i < s.len() && s[i].0 == key,
    decreases s.len(),
{
    if s.len() > 0 {
        lemma_assoc_get_exists(s.drop_last(), key);
        if s.last().0 == key {
            assert(s[s.len() - 1].0 == key);
        } else {
            if assoc_get(s, key) is Some {
                let i = choose|i: int| 0 <= i < s.len() - 1 && s.drop_last()[i].0 == key;
                assert(s[i].0 == key);
            }
            if exists|i: int| 0 <= i < s.len() && s[i].0 == key {
                let i = choose|i: int| 0 <= i < s.len() && s[i].0 == key;
                assert(s.drop_last()[i].0 == key);
            }
        }
    }
}

/// With unique keys, lookup returns the value at the key's entry.
pub proof fn lemma_assoc_get_index<V>(s: Seq<(i64, V)>, i: int)
    requires
        assoc_unique(s),
        0 <= i < s.len(),
    ensures
        assoc_get(s, s[i].0) == Some(s[i].1),
    decreases s.len(),
{
    if i < s.len() - 1 {
        lemma_assoc_get_index(s.drop_last(), i);
        assert(s.drop_last()[i] == s[i]);
        assert(s.last().0 != s[i].0);
    }
}

/// A successful lookup's value sits in some entry.
pub proof fn lemma_assoc_get_some_index<V>(s: Seq<(i64, V)>, key: i64)
    requires
        assoc_get(s, key) is Some,
    ensures
        exists|i: int| 0 <= i < s.len() && s[i] == (key, assoc_get(s, key)->Some_0),
    decreases s.len(),
{
    if s.last().0 == key {
        assert(s[s.len() - 1] == (key, assoc_get(s, key)->Some_0));
    } else {
        lemma_assoc_get_some_index(s.drop_last(), key);
        let i = choose|i: int|
            0 <= i < s.drop_last().len() && s.drop_last()[i] == (key, assoc_get(s, key)->Some_0);
        assert(s[i] == (key, assoc_get(s, key)->Some_0));
    }
}

/// Replacing the entry that holds a key leaves every other lookup alone.
proof fn lemma_assoc_get_update<V>(s: Seq<(i64, V)>, i: int, p: (i64, V), key: i64)
    requires
        assoc_unique(s),
        0 <= i < s.len(),
        s[i].0 == p.0,
    ensures
        assoc_get(s.update(i, p), key) == (if key == p.0 {
            Some(p.1)
        } else {
            assoc_get(s, key)
        }),
    decreases s.len(),
{
    let u = s.update(i, p);
    if i == s.len() - 1 {
        assert(u.drop_last() =~= s.drop_last());
        if key != p.0 {
            lemma_assoc_get_exists(s.drop_last(), key);
        }
    } else {
        assert(u.last() == s.last());
        assert(u.drop_last() =~= s.drop_last().update(i, p));
        assert(s.drop_last()[i] == s[i]);
        lemma_assoc_get_update(s.drop_last(), i, p, key);
        assert(s.last().0 != p.0);
    }
}

/// The insert spec is an in-place update when the key is present.
proof fn lemma_assoc_insert_is_update<V>(s: Seq<(i64, V)>, i: int, key: i64, value: V)
    requires
        0 <= i < s.len(),
        s[i].0 == key,
        forall|j: int| 0 <= j < s.len() && j != i ==> s[j].0 != key,
    ensures
        spec_assoc_insert(s, key, value) =~= s.update(i, (key, value)),
    decreases s.len(),
{
    if i == 0 {
        assert(spec_assoc_insert(s, key, value) =~= seq![(key, value)] + s.drop_first());
    } else {
        assert(s.first().0 != key);
        assert(s.drop_first()[i - 1].0 == key);
        assert forall|j: int| 0 <= j < s.drop_first().len() && j != i - 1 implies s.drop_first()[j].0
            != key by {
            assert(s.drop_first()[j] == s[j + 1]);
        }
        lemma_assoc_insert_is_update(s.drop_first(), i - 1, key, value);
        assert(s.drop_first().update(i - 1, (key, value)) =~= s.update(i, (key, value)).drop_first());
    }
}

/// The insert spec is an append when the key is absent.
proof fn lemma_assoc_insert_is_push<V>(s: Seq<(i64, V)>, key: i64, value: V)
    requires
        forall|j: int| 0 <= j < s.len() ==> s[j].0 != key,
    ensures
        spec_assoc_insert(s, key, value) =~= s.push((key, value)),
    decreases s.len(),
{
    if s.len() > 0 {
        assert forall|j: int| 0 <= j < s.drop_first().len() implies s.drop_first()[j].0 != key by {
            assert(s.drop_first()[j] == s[j + 1]);
        }
        lemma_assoc_insert_is_push(s.drop_first(), key, value);
    }
}

/// What an insert does to lookups, lengths and well-formedness.
pub proof fn lemma_assoc_insert_properties<V>(s: Seq<(i64, V)>, key: i64, value: V)
    requires
        assoc_unique(s),
    ensures
        assoc_unique(spec_assoc_insert(s, key, value)),
        assoc_get(spec_assoc_insert(s, key, value), key) == Some(value),
        forall|k2: i64| k2 != key ==> assoc_get(spec_assoc_insert(s, key, value), k2) == assoc_get(
            s,
            k2,
        ),
        assoc_get(s, key) is Some ==> spec_assoc_insert(s, key, value).len() == s.len(),
        assoc_get(s, key) is None ==> spec_assoc_insert(s, key, value).len() == s.len() + 1,
{
    let r = spec_assoc_insert(s, key, value);
    lemma_assoc_get_exists(s, key);
    if assoc_get(s, key) is Some {
        let i = choose|i: int| 0 <= i < s.len() && s[i].0 == key;
        assert forall|j: int| 0 <= j < s.len() && j != i implies s[j].0 != key by {}
        lemma_assoc_insert_is_update(s, i, key, value);
        assert(r =~= s.update(i, (key, value)));
        lemma_assoc_get_update(s, i, (key, value), key);
        assert forall|k2: i64| k2 != key implies assoc_get(r, k2) == assoc_get(s, k2) by {
            lemma_assoc_get_update(s, i, (key, value), k2);
        }
    } else {
        lemma_assoc_insert_is_push(s, key, value);
        assert(r =~= s.push((key, value)));
        assert(r.drop_last() =~= s);
        assert forall|a: int, b: int| 0 <= a < b < r.len() implies r[a].0 != r[b].0 by {
            if b < r.len() - 1 {
                assert(s[a].0 != s[b].0);
            } else {
                assert(r[a] == s[a]);
            }
        }
    }
}

/// Every entry after an insert is the inserted pair or an old entry.
pub proof fn lemma_assoc_insert_entries<V>(s: Seq<(i64, V)>, key: i64, value: V)
    requires
        assoc_unique(s),
    ensures
        forall|i: int|
            0 <= i < spec_assoc_insert(s, key, value).len() ==> (spec_assoc_insert(s, key, value)[i]
                == (key, value) || s.contains(spec_assoc_insert(s, key, value)[i])),
{
    let r = spec_assoc_insert(s, key, value);
    lemma_assoc_get_exists(s, key);
    if assoc_get(s, key) is Some {
        let i = choose|i: int| 0 <= i < s.len() && s[i].0 == key;
        lemma_assoc_insert_is_update(s, i, key, value);
        assert(r =~= s.update(i, (key, value)));
        assert forall|j: int| 0 <= j < r.len() implies (r[j] == (key, value) || s.contains(
            r[j],
        )) by {
            if j != i {
                assert(r[j] == s[j]);
            }
        }
    } else {
        lemma_assoc_insert_is_push(s, key, value);
        assert(r =~= s.push((key, value)));
        assert forall|j: int| 0 <= j < r.len() implies (r[j] == (key, value) || s.contains(
            r[j],
        )) by {
            if j < r.len() - 1 {
                assert(r[j] == s[j]);
            }
        }
    }
}

/// Law: inserting a key twice keeps a single entry for it, holding the
/// most recently inserted value — no duplicate is ever stored.
pub proof fn lemma_assoc_insert_last_wins<V>(s: Seq<(i64, V)>, key: i64, v1: V, v2: V)
    requires
        assoc_unique(s),
    ensures
        ({
            let once = spec_assoc_insert(s, key, v1);
            let twice = spec_assoc_insert(once, key, v2);
            &&& assoc_get(twice, key) == Some(v2)
            &&& twice.len() == once.len()
            &&& forall|k2: i64| k2 != key ==> assoc_get(twice, k2) == assoc_get(s, k2)
        }),
{
    let once = spec_assoc_insert(s, key, v1);
    lemma_assoc_insert_properties(s, key, v1);
    lemma_assoc_insert_properties(once, key, v2);
}

/// The index of the entry holding `key`, if any.
pub fn assoc_find<V>(entries: &Vec<(i64, V)>, key: i64) -> (r: Option<usize>)
    ensures
        match r {
            Some(i) => 0 <= i < entries@.len() && entries@[i as int].0 == key,
            None => forall|i: int| 0 <= i < entries@.len() ==> entries@[i].0 != key,
        },
{
    let n = entries.len();
    let mut i: usize = 0;
    while i < n
        invariant
            0 <= i <= n,
            n == entries@.len(),
            forall|j: int| 0 <= j < i ==> entries@[j].0 != key,
        decreases n - i,
    {
        if entries[i].0 == key {
            return Some(i);
        }
        i += 1;
    }
    None
}

/// A borrow of the value stored under `key`, if any.
pub fn assoc_get_ref<'a, V>(entries: &'a Vec<(i64, V)>, key: i64) -> (r: Option<&'a V>)
    requires
        assoc_unique(entries@),
    ensures
        match r {
            Some(v) => assoc_get(entries@, key) == Some(*v),
            None => assoc_get(entries@, key) is None,
        },
{
    proof {
        lemma_assoc_get_exists(entries@, key);
    }
    match assoc_find(entries, key) {
        Some(i) => {
            proof {
                lemma_assoc_get_index(entries@, i as int);
            }
            Some(&entries[i].1)
        },
        None => None,
    }
}

/// Stores `key = value`, overwriting the entry already holding `key` if
/// there is one.
pub fn assoc_insert<V>(entries: &mut Vec<(i64, V)>, key: i64, value: V)
    requires
        assoc_unique(old(entries)@),
    ensures
        final(entries)@ == spec_assoc_insert(old(entries)@, key, value),
        assoc_unique(final(entries)@),
{
    proof {
        lemma_assoc_insert_properties(old(entries)@, key, value);
    }
    match assoc_find(entries, key) {
        Some(i) => {
            proof {
                lemma_assoc_insert_is_update(entries@, i as int, key, value);
            }
            entries[i] = (key, value);
            proof {
                assert(entries@ =~= spec_assoc_insert(old(entries)@, key, value));
            }
        },
        None => {
            proof {
                lemma_assoc_insert_is_push(entries@, key, value);
            }
            entries.push((key, value));
            proof {
                assert(entries@ =~= spec_assoc_insert(old(entries)@, key, value));
            }
        },
    }
}

} // verus!
