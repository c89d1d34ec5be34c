//! String tag maps, and the display metadata derived from them.

use vstd::prelude::*;

verus! {

/// A tag map: string keys to string values, keys unique, kept as a list of
/// pairs in insertion order.
pub struct Tags {
    pub pairs: Vec<(String, String)>,
}

/// No two pairs share a key.
pub open spec fn unique_keys(pairs: Seq<(String, String)>) -> bool {
    forall|i: int, j: int| 0 <= i < j < pairs.len() ==> pairs[i].0@ != pairs[j].0@
}

/// The mathematical map a pair list stands for, later pairs winning.
pub open spec fn tags_map_of(pairs: Seq<(String, String)>) -> Map<Seq<char>, Seq<char>>
    decreases pairs.len(),
{
    if pairs.len() == 0 {
        Map::empty()
    } else {
        tags_map_of(pairs.drop_last()).insert(pairs.last().0@, pairs.last().1@)
    }
}

/// A key is in the map exactly when some pair carries it.
pub proof fn lemma_tags_map_contains(pairs: Seq<(String, String)>, k: Seq<char>)
    ensures
        tags_map_of(pairs).contains_key(k) <==> exists|i: int|
            0 <= i < pairs.len() && pairs[i].0@ == k,
    decreases pairs.len(),
{
    if pairs.len() > 0 {
        lemma_tags_map_contains(pairs.drop_last(), k);
        if tags_map_of(pairs).contains_key(k) {
            if pairs.last().0@ == k {
                assert(pairs[pairs.len() - 1].0@ == k);
            } else {
                let i = choose|i: int| 0 <= i < pairs.len() - 1 && pairs.drop_last()[i].0@ == k;
                assert(pairs[i].0@ == k);
            }
        }
        if exists|i: int| 0 <= i < pairs.len() && pairs[i].0@ == k {
            let i = choose|i: int| 0 <= i < pairs.len() && pairs[i].0@ == k;
            if i < pairs.len() - 1 {
                assert(pairs.drop_last()[i].0@ == k);
            }
        }
    }
}

/// With unique keys, the map sends each pair's key to that pair's value.
pub proof fn lemma_tags_map_value(pairs: Seq<(String, String)>, i: int)
    requires
        unique_keys(pairs),
        0 <= i < pairs.len(),
    ensures
        tags_map_of(pairs).contains_key(pairs[i].0@),
        tags_map_of(pairs)[pairs[i].0@] == pairs[i].1@,
    decreases pairs.len(),
{
    if i == pairs.len() - 1 {
    } else {
        lemma_tags_map_value(pairs.drop_last(), i);
        assert(pairs.drop_last()[i] == pairs[i]);
        assert(pairs.last().0@ != pairs[i].0@);
    }
}

/// Replacing the pair that holds a key acts as a map insert of that key.
proof fn lemma_tags_map_update(pairs: Seq<(String, String)>, i: int, p: (String, String))
    requires
        unique_keys(pairs),
        0 <= i < pairs.len(),
        p.0@ == pairs[i].0@,
    ensures
        tags_map_of(pairs.update(i, p)) =~= tags_map_of(pairs).insert(p.0@, p.1@),
    decreases pairs.len(),
{
    let updated = pairs.update(i, p);
    if i == pairs.len() - 1 {
        assert(updated.drop_last() =~= pairs.drop_last());
        assert(updated.last() == p);
    } else {
        lemma_tags_map_update(pairs.drop_last(), i, p);
        assert(updated.drop_last() =~= pairs.drop_last().update(i, p));
        assert(updated.last() == pairs.last());
        assert(pairs.last().0@ != p.0@);
    }
}

impl View for Tags {
    type V = Map<Seq<char>, Seq<char>>;

    open spec fn view(&self) -> Map<Seq<char>, Seq<char>> {
        tags_map_of(self.pairs@)
    }
}

impl Tags {
    /// The underlying pair list.
    pub open spec fn spec_pairs(self) -> Seq<(String, String)> {
        self.pairs@
    }

    /// Well-formed: keys are unique.
    pub open spec fn wf(self) -> bool {
        unique_keys(self.pairs@)
    }

    /// An empty tag map.
    pub fn new() -> (r: Tags)
        ensures
            r.wf(),
            r@ == Map::<Seq<char>, Seq<char>>::empty(),
            r.spec_pairs().len() == 0,
    {
        Tags { pairs: Vec::new() }
    }

    /// The index of the pair holding `key`, if any.
    fn find_key(&self, key: &str) -> (r: Option<usize>)
        ensures
            match r {
                Some(i) => 0 <= i < self.pairs@.len() && self.pairs@[i as int].0@ == key@,
                None => forall|i: int| 0 <= i < self.pairs@.len() ==> self.pairs@[i].0@ != key@,
            },
    {
        let owned = key.to_owned();
        let n = self.pairs.len();
        let mut i: usize = 0;
        while i < n
            invariant
                0 <= i <= n,
                n == self.pairs@.len(),
                owned@ == key@,
                forall|j: int| 0 <= j < i ==> self.pairs@[j].0@ != key@,
            decreases n - i,
        {
            if self.pairs[i].0 == owned {
                return Some(i);
            }
            i += 1;
        }
        None
    }

    /// Puts `key = value`, overwriting any earlier value of `key`.
    pub fn insert(&mut self, key: String, value: String)
        requires
            old(self).wf(),
        ensures
            final(self).wf(),
            final(self)@ == old(self)@.insert(key@, value@),
    {
        let ghost pairs0 = self.pairs@;
        match self.find_key(key.as_str()) {
            Some(i) => {
                proof {
                    lemma_tags_map_update(pairs0, i as int, (key, value));
                }
                self.pairs[i] = (key, value);
                proof {
                    assert forall|a: int, b: int|
                        0 <= a < b < self.pairs@.len() implies self.pairs@[a].0@
                        != self.pairs@[b].0@ by {
                        assert(pairs0[a].0@ != pairs0[b].0@);
                    }
                }
            },
            None => {
                self.pairs.push((key, value));
                proof {
                    assert(self.pairs@.drop_last() =~= pairs0);
                    assert forall|a: int, b: int|
                        0 <= a < b < self.pairs@.len() implies self.pairs@[a].0@
                        != self.pairs@[b].0@ by {
                        if b < self.pairs@.len() - 1 {
                            assert(pairs0[a].0@ != pairs0[b].0@);
                        }
                    }
                }
            },
        }
    }

    /// The value of `key`, if present.
    pub fn get<'a>(&'a self, key: &str) -> (r: Option<&'a String>)
        requires
            self.wf(),
        ensures
            match r {
                Some(v) => self@.contains_key(key@) && self@[key@] == v@,
                None => !self@.contains_key(key@),
            },
    {
        proof {
            lemma_tags_map_contains(self.pairs@, key@);
        }
        match self.find_key(key) {
            Some(i) => {
                proof {
                    lemma_tags_map_value(self.pairs@, i as int);
                }
                Some(&self.pairs[i].1)
            },
            None => None,
        }
    }

    /// Whether `key` is present at all.
    pub fn contains_key(&self, key: &str) -> (r: bool)
        requires
            self.wf(),
        ensures
            r == self@.contains_key(key@),
    {
        proof {
            lemma_tags_map_contains(self.pairs@, key@);
        }
        self.find_key(key).is_some()
    }

    /// Whether `key` is present and holds exactly `value`.
    pub fn contains_kv(&self, key: &str, value: &str) -> (r: bool)
        requires
            self.wf(),
        ensures
            r == (self@.contains_key(key@) && self@[key@] == value@),
    {
        match self.get(key) {
            Some(v) => {
                let owned = value.to_owned();
                *v == owned
            },
            None => false,
        }
    }
}

/// The optional display name a tagged object carries: only objects tagged
/// `amenity` or `building` are named, and then by their `name` tag.
pub struct Meta {
    pub name: Option<String>,
}

impl View for Meta {
    type V = Option<Seq<char>>;

    open spec fn view(&self) -> Option<Seq<char>> {
        match self.name {
            Some(ref s) => Some(s@),
            None => None,
        }
    }
}

/// What [`Meta::from_tags`] produces, over the tag map.
pub open spec fn spec_meta_of(t: Map<Seq<char>, Seq<char>>) -> Option<Seq<char>> {
    if (t.contains_key("amenity"@) || t.contains_key("building"@)) && t.contains_key("name"@) {
        Some(t["name"@])
    } else {
        None
    }
}

impl Meta {
    /// Derives the display metadata of an object from its tags.
    pub fn from_tags(tags: &Tags) -> (m: Meta)
        requires
            tags.wf(),
        ensures
            m@ == spec_meta_of(tags@),
    {
        if !tags.contains_key("amenity") && !tags.contains_key("building") {
            return Meta { name: None };
        }
        match tags.get("name") {
            Some(v) => Meta { name: Some(v.clone()) },
            None => Meta { name: None },
        }
    }
}

} // verus!
