//! A small association map from strings to values, kept as an insertion-
//! ordered list of entries with pairwise distinct keys. The extraction
//! results are delivered in maps of this shape.
use vstd::prelude::*;
use vstd::string::*;

verus! {

/// Compares two string slices by their characters.
#[verifier::loop_isolation(false)]
pub fn str_eq(a: &str, b: &str) -> (r: bool)
    ensures
        r == (a@ == b@),
{
    let n = a.unicode_len();
    if n != b.unicode_len() {
        return false;
    }
    let mut i: usize = 0;
    while i < n
        invariant
            0 <= i <= n,
            n == a@.len() == b@.len(),
            forall|j: int| 0 <= j < i ==> a@[j] == b@[j],
        decreases n - i,
    {
        if a.get_char(i) != b.get_char(i) {
            return false;
        }
        i = i + 1;
    }
    proof {
        assert(a@ =~= b@);
    }
    true
}

/// A map from strings to values: entries in insertion order, keys unique.
#[derive(Debug, PartialEq)]
pub struct StrMap<V> {
    entries: Vec<(String, V)>,
}

impl<V> View for StrMap<V> {
    type V = Seq<(String, V)>;

    closed spec fn view(&self) -> Seq<(String, V)> {
        self.entries@
    }
}

impl<V> StrMap<V> {
    /// Keys are pairwise distinct.
    pub open spec fn wf(self) -> bool {
        forall|i: int, j: int|
            0 <= i < j < self@.len() ==> (#[trigger] self@[i].0@) != (#[trigger] self@[j].0@)
    }

    /// Some entry carries the key.
    pub open spec fn spec_contains_key(self, key: Seq<char>) -> bool {
        exists|i: int| 0 <= i < self@.len() && (#[trigger] self@[i].0@) == key
    }

    /// An empty map.
    pub fn new() -> (r: StrMap<V>)
        ensures
            r@ =~= Seq::<(String, V)>::empty(),
            r.wf(),
    {
        StrMap { entries: Vec::new() }
    }

    /// Number of entries.
    pub fn len(&self) -> (r: usize)
        ensures
            r == self@.len(),
    {
        self.entries.len()
    }

    /// Whether the key is present.
    pub fn contains_key(&self, key: &str) -> (r: bool)
        ensures
            r == self.spec_contains_key(key@),
    {
        let mut i: usize = 0;
        while i < self.entries.len()
            invariant
                0 <= i <= self@.len(),
                forall|j: int| 0 <= j < i ==> (#[trigger] self@[j].0@) != key@,
            decreases self@.len() - i,
        {
            if str_eq(self.entries[i].0.as_str(), key) {
                return true;
            }
            i = i + 1;
        }
        false
    }

    /// Looks a key up.
    pub fn get(&self, key: &str) -> (r: Option<&V>)
        ensures
            (match r {
                Some(v) => exists|i: int|
                    0 <= i < self@.len() && (#[trigger] self@[i].0@) == key@ && *v == self@[i].1,
                None => !self.spec_contains_key(key@),
            }),
    {
        let mut i: usize = 0;
        while i < self.entries.len()
            invariant
                0 <= i <= self@.len(),
                forall|j: int| 0 <= j < i ==> (#[trigger] self@[j].0@) != key@,
            decreases self@.len() - i,
        {
            if str_eq(self.entries[i].0.as_str(), key) {
                return Some(&self.entries[i].1);
            }
            i = i + 1;
        }
        None
    }

    /// Hands the entries out, in insertion order.
    pub fn into_entries(self) -> (r: Vec<(String, V)>)
        ensures
            r@ == self@,
    {
        self.entries
    }

    /// Inserts a value under a key; an existing entry keeps its place (and
    /// its stored key) and only its value is replaced.
    #[verifier::loop_isolation(false)]
    pub fn insert(&mut self, key: String, value: V)
        requires
            old(self).wf(),
        ensures
            final(self).wf(),
            old(self).spec_contains_key(key@) ==> exists|i: int|
                0 <= i < old(self)@.len() && (#[trigger] old(self)@[i].0@) == key@ && final(self)@
                    =~= old(self)@.update(i, (old(self)@[i].0, value)),
            !old(self).spec_contains_key(key@) ==> final(self)@ =~= old(self)@.push(
                (key, value),
            ),
    {
        let mut i: usize = 0;
        while i < self.entries.len()
            invariant
                0 <= i <= self@.len(),
                *self == *old(self),
                forall|j: int| 0 <= j < i ==> (#[trigger] self@[j].0@) != key@,
            decreases self@.len() - i,
        {
            if str_eq(self.entries[i].0.as_str(), key.as_str()) {
                let entry = self.entries.remove(i);
                self.entries.insert(i, (entry.0, value));
                proof {
                    assert(self@ =~= old(self)@.update(i as int, (old(self)@[i as int].0, value)));
                    assert(forall|x: int|
                        0 <= x < self@.len() ==> (#[trigger] self@[x].0) == old(self)@[x].0);
                    assert forall|a: int, b: int| 0 <= a < b < self@.len() implies (
                    #[trigger] self@[a].0@) != (#[trigger] self@[b].0@) by {
                        assert(old(self)@[a].0@ != old(self)@[b].0@);
                        assert(self@[a].0 == old(self)@[a].0);
                        assert(self@[b].0 == old(self)@[b].0);
                    }
                }
                return ;
            }
            i = i + 1;
        }
        self.entries.push((key, value));
        proof {
            assert forall|a: int, b: int| 0 <= a < b < self@.len() implies (#[trigger] self@[a].0@)
                != (#[trigger] self@[b].0@) by {
                if b < self@.len() - 1 {
                    assert(old(self)@[a].0@ != old(self)@[b].0@);
                } else {
                    assert(self@[b].0@ == key@);
                }
            }
        }
    }
}

/// Inserts a value under a key that must not be present yet; a duplicate
/// key leaves the map unchanged and reports an error.
pub fn insert_to_vacant<V>(map: &mut StrMap<V>, key: String, value: V) -> (r: Result<(), String>)
    requires
        old(map).wf(),
    ensures
        final(map).wf(),
        (match r {
            Ok(()) => !old(map).spec_contains_key(key@) && final(map)@ =~= old(map)@.push(
                (key, value),
            ),
            Err(e) => old(map).spec_contains_key(key@) && final(map)@ =~= old(map)@ && e@
                == "Duplicate insertion"@,
        }),
{
    if map.contains_key(key.as_str()) {
        Err(String::from_str("Duplicate insertion"))
    } else {
        let ghost old_map = *map;
        map.insert(key, value);
        proof {
            assert(map@ =~= old_map@.push((key, value)));
        }
        Ok(())
    }
}

/// A key is present in an association table.
pub open spec fn assoc_contains<T>(acc: Seq<(Seq<char>, T)>, key: Seq<char>) -> bool {
    exists|i: int| 0 <= i < acc.len() && (#[trigger] acc[i].0) == key
}

/// The first index carrying a key (the table length if the key is absent).
pub open spec fn assoc_first_index<T>(acc: Seq<(Seq<char>, T)>, key: Seq<char>) -> int
    decreases acc,
{
    if acc.len() == 0 {
        0
    } else if acc[0].0 == key {
        0
    } else {
        1 + assoc_first_index(acc.drop_first(), key)
    }
}

/// Sets a key's value: an existing entry (the first, which under unique
/// keys is the only one) is replaced in place, a new key is appended.
pub open spec fn assoc_upsert<T>(acc: Seq<(Seq<char>, T)>, key: Seq<char>, v: T) -> Seq<
    (Seq<char>, T),
> {
    if assoc_contains(acc, key) {
        acc.update(assoc_first_index(acc, key), (key, v))
    } else {
        acc.push((key, v))
    }
}

pub proof fn lemma_assoc_first_index<T>(acc: Seq<(Seq<char>, T)>, key: Seq<char>)
    requires
        assoc_contains(acc, key),
    ensures
        0 <= assoc_first_index(acc, key) < acc.len(),
        acc[assoc_first_index(acc, key)].0 == key,
        forall|j: int| 0 <= j < assoc_first_index(acc, key) ==> (#[trigger] acc[j].0) != key,
    decreases acc,
{
    if acc.len() > 0 && acc[0].0 != key {
        let rest = acc.drop_first();
        assert(assoc_contains(rest, key)) by {
            let i = choose|i: int| 0 <= i < acc.len() && (#[trigger] acc[i].0) == key;
            assert(rest[i - 1] == acc[i]);
        }
        lemma_assoc_first_index(rest, key);
        assert(forall|j: int|
            0 <= j < assoc_first_index(rest, key) ==> (#[trigger] rest[j].0) != key);
        assert(forall|j: int|
            1 <= j < assoc_first_index(acc, key) ==> acc[j].0 == rest[j - 1].0);
    }
}

/// The ghost image of an association table of built entries, each mapped
/// by `f`.
pub open spec fn assoc_view<V, TV>(entries: Seq<(String, V)>, f: spec_fn(V) -> TV) -> Seq<
    (Seq<char>, TV),
> {
    Seq::new(entries.len(), |i: int| (entries[i].0@, f(entries[i].1)))
}

/// What `StrMap::insert` did, seen on the ghost table: exactly the upsert.
pub proof fn lemma_strmap_upsert<V, TV>(
    old_map: StrMap<V>,
    new_map: StrMap<V>,
    key_str: String,
    value: V,
    f: spec_fn(V) -> TV,
)
    requires
        old_map.wf(),
        old_map.spec_contains_key(key_str@) ==> exists|i: int|
            0 <= i < old_map@.len() && (#[trigger] old_map@[i].0@) == key_str@ && new_map@
                =~= old_map@.update(i, (old_map@[i].0, value)),
        !old_map.spec_contains_key(key_str@) ==> new_map@ =~= old_map@.push((key_str, value)),
    ensures
        assoc_view(new_map@, f) =~= assoc_upsert(assoc_view(old_map@, f), key_str@, f(value)),
{
    let key = key_str@;
    let oldv = assoc_view(old_map@, f);
    if old_map.spec_contains_key(key) {
        let i = choose|i: int|
            0 <= i < old_map@.len() && (#[trigger] old_map@[i].0@) == key && new_map@
                =~= old_map@.update(i, (old_map@[i].0, value));
        assert(oldv[i].0 == key);
        assert(assoc_contains(oldv, key));
        lemma_assoc_first_index(oldv, key);
        let fi = assoc_first_index(oldv, key);
        assert(fi == i) by {
            if fi < i {
                assert(old_map@[fi].0@ != old_map@[i].0@);
                assert(oldv[fi].0 == old_map@[fi].0@);
            } else if i < fi {
                assert(oldv[i].0 != key);
            }
        }
    } else {
        if assoc_contains(oldv, key) {
            let k = choose|k: int| 0 <= k < oldv.len() && (#[trigger] oldv[k].0) == key;
            assert(old_map@[k].0@ == key);
        }
    }
}

} // verus!
