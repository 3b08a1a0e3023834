//! A map from strings to values, kept as a list of entries in the order in
//! which their keys were first inserted.

use vstd::prelude::*;

use crate::text::same_chars;
use crate::text::chars_of;

verus! {

/// The map that a list of entries stands for: each entry binds its key, and a
/// later entry for a key overrides an earlier one.
pub open spec fn map_of<V>(s: Seq<(String, V)>) -> Map<Seq<char>, V>
    decreases s.len(),
{
    if s.len() == 0 {
        Map::empty()
    } else {
        map_of(s.drop_last()).insert(s.last().0@, s.last().1)
    }
}

/// Index of the last entry of `s` whose key is `k`, or -1.
pub open spec fn last_index<V>(s: Seq<(String, V)>, k: Seq<char>) -> int
    decreases s.len(),
{
    if s.len() == 0 {
        -1
    } else if s.last().0@ == k {
        s.len() - 1
    } else {
        last_index(s.drop_last(), k)
    }
}

/// The map holds `k` exactly when some entry has it, with the value of the
/// last such entry.
pub proof fn lemma_map_of_last<V>(s: Seq<(String, V)>, k: Seq<char>)
    ensures
        -1 <= last_index(s, k) < s.len(),
        map_of(s).dom().contains(k) == (last_index(s, k) >= 0),
        last_index(s, k) >= 0 ==> map_of(s)[k] == s[last_index(s, k)].1 && s[last_index(s, k)].0@ == k,
        forall|j: int| last_index(s, k) < j < s.len() ==> (#[trigger] s[j]).0@ != k,
    decreases s.len(),
{
    if s.len() > 0 {
        lemma_map_of_last(s.drop_last(), k);
        assert forall|j: int| last_index(s, k) < j < s.len() implies (#[trigger] s[j]).0@ != k by {
            if j < s.len() - 1 {
                assert(s.drop_last()[j] == s[j]);
            }
        }
    }
}

/// Changing the value of the last entry for a key changes the map at that key.
proof fn lemma_map_of_update<V>(s: Seq<(String, V)>, i: int, e: (String, V))
    requires
        0 <= i < s.len(),
        i == last_index(s, e.0@),
    ensures
        map_of(s.update(i, e)) == map_of(s).insert(e.0@, e.1),
    decreases s.len(),
{
    lemma_map_of_last(s, e.0@);
    let t = s.update(i, e);
    if i == s.len() - 1 {
        assert(t.drop_last() =~= s.drop_last());
        assert(map_of(t) =~= map_of(s).insert(e.0@, e.1));
    } else {
        assert(t.drop_last() =~= s.drop_last().update(i, e));
        lemma_map_of_update(s.drop_last(), i, e);
        assert(s.last().0@ != e.0@);
        assert(map_of(t) =~= map_of(s).insert(e.0@, e.1));
    }
}

/// The keys that a list of strings holds.
pub open spec fn key_set(keep: Seq<String>) -> Set<Seq<char>> {
    Set::new(|k: Seq<char>| exists|q: int| 0 <= q < keep.len() && (#[trigger] keep[q])@ == k)
}

/// A map from strings to values.
#[derive(Debug, Clone)]
pub struct TextMap<V> {
    entries: Vec<(String, V)>,
}

impl<V> View for TextMap<V> {
    type V = Map<Seq<char>, V>;

    open spec fn view(&self) -> Map<Seq<char>, V> {
        map_of(self.entries())
    }
}

impl<V> TextMap<V> {
    /// The entries, in the order in which their keys were first inserted.
    pub closed spec fn entries(&self) -> Seq<(String, V)> {
        self.entries@
    }

    /// An empty map.
    pub fn new() -> (r: TextMap<V>)
        ensures
            r@ == Map::<Seq<char>, V>::empty(),
            r.entries().len() == 0,
    {
        TextMap { entries: Vec::new() }
    }

    /// Index of the last entry whose key is `key`, if any.
    fn find(&self, key: &[char]) -> (r: Option<usize>)
        ensures
            match r {
                Some(i) => i as int == last_index(self.entries@, key@),
                None => last_index(self.entries@, key@) == -1,
            },
    {
        proof {
            lemma_map_of_last(self.entries@, key@);
        }
        let mut i = self.entries.len();
        while i > 0
            invariant
                i <= self.entries@.len(),
                forall|j: int| i <= j < self.entries@.len() ==> (#[trigger] self.entries@[j]).0@ != key@,
            decreases i,
        {
            let k = chars_of(self.entries[i - 1].0.as_str());
            if same_chars(k.as_slice(), key) {
                proof {
                    lemma_last_index_is(self.entries@, key@, i - 1);
                }
                return Some(i - 1);
            }
            i = i - 1;
        }
        proof {
            lemma_last_index_none(self.entries@, key@);
        }
        None
    }

    /// The value bound to `key`, if any.
    pub fn get(&self, key: &str) -> (r: Option<&V>)
        ensures
            match r {
                Some(v) => self@.dom().contains(key@) && *v == self@[key@],
                None => !self@.dom().contains(key@),
            },
    {
        proof {
            lemma_map_of_last(self.entries@, key@);
        }
        let k = chars_of(key);
        match self.find(k.as_slice()) {
            Some(i) => Some(&self.entries[i].1),
            None => None,
        }
    }

    /// Binds `key` to `value`: a new key goes after the others, a known key
    /// keeps its place.
    pub fn insert(&mut self, key: String, value: V)
        ensures
            final(self)@ == old(self)@.insert(key@, value),
            old(self)@.dom().contains(key@) ==> final(self).entries().len() == old(self).entries().len(),
            !old(self)@.dom().contains(key@) ==> final(self).entries() == old(self).entries().push((key, value)),
    {
        proof {
            lemma_map_of_last(self.entries@, key@);
        }
        let k = chars_of(key.as_str());
        match self.find(k.as_slice()) {
            Some(i) => {
                proof {
                    lemma_map_of_update(self.entries@, i as int, (key, value));
                }
                self.entries.set(i, (key, value));
            },
            None => {
                let ghost old_entries = self.entries@;
                self.entries.push((key, value));
                assert(self.entries@.drop_last() =~= old_entries);
            },
        }
    }

    /// Keeps only the keys that `keep` holds, in their order.
    pub fn retain_keys(&mut self, keep: &Vec<String>)
        ensures
            final(self)@ == old(self)@.restrict(key_set(keep@)),
    {
        let ghost ks = key_set(keep@);
        let mut kept: Vec<(String, V)> = Vec::new();
        let ghost all = self.entries@;
        let mut old_entries = Vec::new();
        std::mem::swap(&mut old_entries, &mut self.entries);
        let mut rest = old_entries;
        let ghost mut taken: Seq<(String, V)> = Seq::empty();
        assert(taken + rest@ =~= all);
        assert(map_of(kept@) =~= map_of(taken).restrict(ks));
        while rest.len() > 0
            invariant
                taken + rest@ == all,
                map_of(kept@) == map_of(taken).restrict(ks),
                ks == key_set(keep@),
            decreases rest@.len(),
        {
            let ghost before_rest = rest@;
            let e = rest.remove(0);
            proof {
                assert(before_rest =~= seq![e] + rest@);
            }
            let ghost before_taken = taken;
            let k = chars_of(e.0.as_str());
            let mut found = false;
            let mut j: usize = 0;
            while j < keep.len()
                invariant
                    j <= keep@.len(),
                    k@ == e.0@,
                    found == exists|q: int| 0 <= q < j && (#[trigger] keep@[q])@ == k@,
                decreases keep@.len() - j,
            {
                let kc = chars_of(keep[j].as_str());
                if same_chars(kc.as_slice(), k.as_slice()) {
                    found = true;
                }
                j = j + 1;
            }
            assert(found == ks.contains(e.0@));
            let ghost ev = e;
            let ghost kept_before = kept@;
            if found {
                kept.push(e);
                assert(kept@.drop_last() =~= kept_before);
                assert(map_of(kept@) == map_of(kept_before).insert(ev.0@, ev.1));
            }
            proof {
                taken = taken.push(ev);
                assert(taken + rest@ =~= all);
                assert(taken.drop_last() =~= before_taken);
                assert(map_of(taken) == map_of(before_taken).insert(ev.0@, ev.1));
                if found {
                    assert(ks.contains(ev.0@));
                } else {
                    assert(!ks.contains(ev.0@));
                    assert(kept@ == kept_before);
                }
                assert(map_of(kept@) =~= map_of(taken).restrict(ks));
            }
        }
        assert(taken =~= all);
        self.entries = kept;
    }

    /// The number of keys.
    pub fn len(&self) -> (r: usize)
        ensures
            r == self.entries().len(),
    {
        self.entries.len()
    }

    /// The `i`-th entry in insertion order.
    pub fn entry(&self, i: usize) -> (r: &(String, V))
        requires
            i < self.entries().len(),
        ensures
            *r == self.entries()[i as int],
    {
        &self.entries[i]
    }
}

/// `i` is the last index of `k` when no later entry has it.
proof fn lemma_last_index_is<V>(s: Seq<(String, V)>, k: Seq<char>, i: int)
    requires
        0 <= i < s.len(),
        s[i].0@ == k,
        forall|j: int| i < j < s.len() ==> (#[trigger] s[j]).0@ != k,
    ensures
        last_index(s, k) == i,
    decreases s.len(),
{
    if i < s.len() - 1 {
        lemma_last_index_is(s.drop_last(), k, i);
    }
}

/// No entry has `k`.
proof fn lemma_last_index_none<V>(s: Seq<(String, V)>, k: Seq<char>)
    requires
        forall|j: int| 0 <= j < s.len() ==> (#[trigger] s[j]).0@ != k,
    ensures
        last_index(s, k) == -1,
    decreases s.len(),
{
    if s.len() > 0 {
        lemma_last_index_none(s.drop_last(), k);
    }
}

} // verus!
