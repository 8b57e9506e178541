use vstd::prelude::*;

verus! {

/// A typed value of the chart document; carried through untouched.
#[derive(Debug, Clone)]
pub struct UnityObjectValue {
    pub key: String,
    pub json_key: String,
    pub full_type: String,
}

#[derive(Debug, Clone)]
pub struct UnityObjectValuesContainer {
    pub values: Vec<UnityObjectValue>,
}

/// One named string of the chart document.
#[derive(Debug, Clone)]
pub struct LargeStringValue {
    pub key: String,
    pub val: String,
}

#[derive(Debug, Clone)]
pub struct LargeStringValuesContainer {
    pub values: Vec<LargeStringValue>,
}

/// A chart document: its typed values, its named strings, and the fields that
/// this library does not read, kept as the text of one JSON object.
#[derive(Debug, Clone)]
pub struct RawSrtbFile {
    pub unity_object_values_container: UnityObjectValuesContainer,
    pub large_string_values_container: LargeStringValuesContainer,
    pub clip_info_count: Option<i32>,
    pub other_fields: String,
}

/// The (key, value) pairs of named strings, in order.
pub open spec fn entries_of(v: Seq<LargeStringValue>) -> Seq<(Seq<char>, Seq<char>)> {
    v.map_values(|e: LargeStringValue| (e.key@, e.val@))
}

/// The first position whose key is `k`.
pub open spec fn first_index(e: Seq<(Seq<char>, Seq<char>)>, k: Seq<char>) -> Option<int>
    decreases e.len(),
{
    if e.len() == 0 {
        None
    } else if e[0].0 == k {
        Some(0)
    } else {
        match first_index(e.drop_first(), k) {
            Some(i) => Some(i + 1),
            None => None,
        }
    }
}

/// The value stored under `k`: the first entry with that key.
pub open spec fn lookup(e: Seq<(Seq<char>, Seq<char>)>, k: Seq<char>) -> Option<Seq<char>> {
    match first_index(e, k) {
        Some(i) => Some(e[i].1),
        None => None,
    }
}

/// The entries after setting `k` to `v`: the first entry with that key gets
/// the new value, or a new entry is appended.
pub open spec fn upsert(e: Seq<(Seq<char>, Seq<char>)>, k: Seq<char>, v: Seq<char>) -> Seq<(Seq<char>, Seq<char>)> {
    match first_index(e, k) {
        Some(i) => e.update(i, (k, v)),
        None => e.push((k, v)),
    }
}

/// The entries without the first one whose key is `k`.
pub open spec fn without(e: Seq<(Seq<char>, Seq<char>)>, k: Seq<char>) -> Seq<(Seq<char>, Seq<char>)> {
    match first_index(e, k) {
        Some(i) => e.remove(i),
        None => e,
    }
}

/// Each key occurs at most once.
pub open spec fn keys_unique(e: Seq<(Seq<char>, Seq<char>)>) -> bool {
    forall|i: int, j: int| 0 <= i < j < e.len() ==> e[i].0 != e[j].0
}

proof fn lemma_first_index(e: Seq<(Seq<char>, Seq<char>)>, k: Seq<char>)
    ensures
        match first_index(e, k) {
            Some(i) => 0 <= i < e.len() && e[i].0 == k && forall|j: int| 0 <= j < i ==> e[j].0 != k,
            None => forall|j: int| 0 <= j < e.len() ==> e[j].0 != k,
        },
    decreases e.len(),
{
    if e.len() > 0 {
        lemma_first_index(e.drop_first(), k);
        if e[0].0 != k {
            match first_index(e.drop_first(), k) {
                Some(i) => {
                    assert forall|j: int| 0 <= j < i + 1 implies e[j].0 != k by {
                        if j > 0 {
                            assert(e[j] == e.drop_first()[j - 1]);
                        }
                    }
                },
                None => {
                    assert forall|j: int| 0 <= j < e.len() implies e[j].0 != k by {
                        if j > 0 {
                            assert(e[j] == e.drop_first()[j - 1]);
                        }
                    }
                },
            }
        }
    }
}

impl RawSrtbFile {
    /// The named strings as (key, value) pairs.
    pub open spec fn entries(&self) -> Seq<(Seq<char>, Seq<char>)> {
        entries_of(self.large_string_values_container.values@)
    }

    /// Everything but the named strings.
    pub open spec fn same_but_strings(&self, other: &RawSrtbFile) -> bool {
        &&& self.unity_object_values_container == other.unity_object_values_container
        &&& self.clip_info_count == other.clip_info_count
        &&& self.other_fields == other.other_fields
    }

    fn find(&self, key: &String) -> (r: Option<usize>)
        ensures
            self.entries().len() == self.large_string_values_container.values@.len(),
            r.is_some() ==> r.unwrap() < self.large_string_values_container.values@.len(),
            match r {
                Some(i) => first_index(self.entries(), key@) == Some(i as int),
                None => first_index(self.entries(), key@) is None,
            },
    {
        let values = &self.large_string_values_container.values;
        let mut i: usize = 0;
        assert(self.entries().len() == values@.len());
        proof {
            lemma_first_index(self.entries(), key@);
        }
        while i < values.len()
            invariant
                i <= values.len(),
                values@ == self.large_string_values_container.values@,
                self.entries().len() == values@.len(),
                forall|j: int| 0 <= j < i ==> (#[trigger] self.entries()[j]).0 != key@,
                match first_index(self.entries(), key@) {
                    Some(f) => 0 <= f < values.len() && self.entries()[f].0 == key@ && forall|j: int| 0 <= j < f ==> self.entries()[j].0 != key@,
                    None => forall|j: int| 0 <= j < values.len() ==> self.entries()[j].0 != key@,
                },
            decreases values.len() - i,
        {
            assert(self.entries()[i as int] == (values@[i as int].key@, values@[i as int].val@));
            if values[i].key == *key {
                return Some(i);
            }
            i = i + 1;
        }
        None
    }

    /// The value stored under `key_string`, if any.
    pub fn get_large_string_value(&self, key_string: &str) -> (r: Option<String>)
        ensures
            r.is_some() == lookup(self.entries(), key_string@).is_some(),
            r.is_some() ==> r.unwrap()@ == lookup(self.entries(), key_string@).unwrap(),
    {
        let key = key_string.to_owned();
        match self.find(&key) {
            Some(i) => {
                assert(first_index(self.entries(), key@) == Some(i as int));
                assert(self.entries()[i as int].1 == self.large_string_values_container.values@[i as int].val@);
                Some(self.large_string_values_container.values[i].val.clone())
            },
            None => None,
        }
    }

    /// Stores `value` under `key_string`: replaces the value of the first entry
    /// with that key, or appends an entry.
    pub fn set_large_string_value(&mut self, key_string: &str, value: &str)
        ensures
            final(self).entries() == upsert(old(self).entries(), key_string@, value@),
            final(self).same_but_strings(old(self)),
    {
        let key = key_string.to_owned();
        let val = value.to_owned();
        match self.find(&key) {
            Some(i) => {
                let ghost before = self.large_string_values_container.values@;
                assert(first_index(entries_of(before), key_string@) == Some(i as int));
                self.large_string_values_container.values.set(i, LargeStringValue { key, val });
                assert(self.entries() =~= upsert(entries_of(before), key_string@, value@));
            },
            None => {
                let ghost before = self.large_string_values_container.values@;
                self.large_string_values_container.values.push(LargeStringValue { key, val });
                assert(self.entries() =~= upsert(entries_of(before), key_string@, value@));
            },
        }
    }

    /// Deletes the first entry with key `key_string`; nothing happens if there is none.
    pub fn remove_large_string_value(&mut self, key_string: &str)
        ensures
            final(self).entries() == without(old(self).entries(), key_string@),
            final(self).same_but_strings(old(self)),
    {
        let key = key_string.to_owned();
        match self.find(&key) {
            Some(i) => {
                let ghost before = self.large_string_values_container.values@;
                assert(first_index(entries_of(before), key_string@) == Some(i as int));
                self.large_string_values_container.values.remove(i);
                assert(self.entries() =~= without(entries_of(before), key_string@));
            },
            None => {},
        }
    }
}

/// Setting a key twice leaves one entry for it, holding the latest value, and
/// the other entries as one set would have left them.
pub proof fn lemma_set_twice(e: Seq<(Seq<char>, Seq<char>)>, k: Seq<char>, v1: Seq<char>, v2: Seq<char>)
    ensures
        upsert(upsert(e, k, v1), k, v2) == upsert(e, k, v2),
        lookup(upsert(upsert(e, k, v1), k, v2), k) == Some(v2),
        keys_unique(e) ==> keys_unique(upsert(upsert(e, k, v1), k, v2)),
{
    lemma_first_index(e, k);
    let e1 = upsert(e, k, v1);
    lemma_first_index(e1, k);
    let e2 = upsert(e1, k, v2);
    match first_index(e, k) {
        Some(i) => {
            assert(e1[i].0 == k);
            assert(forall|j: int| 0 <= j < i ==> e1[j] == e[j]);
            assert(first_index(e1, k) == Some(i));
            assert(e2 =~= upsert(e, k, v2));
        },
        None => {
            assert(e1[e.len() as int].0 == k);
            assert(forall|j: int| 0 <= j < e.len() ==> e1[j] == e[j]);
            assert(first_index(e1, k) == Some(e.len() as int));
            assert(e2 =~= upsert(e, k, v2));
        },
    }
    lemma_get_after_set(e, k, v2);
    if keys_unique(e) {
        assert forall|i: int, j: int| 0 <= i < j < e2.len() implies e2[i].0 != e2[j].0 by {
            match first_index(e, k) {
                Some(f) => {
                    if i != f && j != f {
                        assert(e2[i] == e[i] && e2[j] == e[j]);
                    }
                },
                None => {
                    if j < e.len() {
                        assert(e2[i] == e[i] && e2[j] == e[j]);
                    }
                },
            }
        }
    }
}

/// Removing a key that no entry has changes nothing.
pub proof fn lemma_remove_absent(e: Seq<(Seq<char>, Seq<char>)>, k: Seq<char>)
    requires
        lookup(e, k) is None,
    ensures
        without(e, k) == e,
{
}

/// After a set, a lookup of that key gives the value set.
pub proof fn lemma_get_after_set(e: Seq<(Seq<char>, Seq<char>)>, k: Seq<char>, v: Seq<char>)
    ensures
        lookup(upsert(e, k, v), k) == Some(v),
{
    lemma_first_index(e, k);
    let e1 = upsert(e, k, v);
    lemma_first_index(e1, k);
    match first_index(e, k) {
        Some(i) => {
            assert(e1[i].0 == k);
            assert(forall|j: int| 0 <= j < i ==> e1[j] == e[j]);
            assert(first_index(e1, k) == Some(i));
        },
        None => {
            assert(e1[e.len() as int].0 == k);
            assert(forall|j: int| 0 <= j < e.len() ==> e1[j] == e[j]);
            assert(first_index(e1, k) == Some(e.len() as int));
        },
    }
}

} // verus!
