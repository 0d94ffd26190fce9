//! The map of user-defined metadata of an object version.
use crate::text::same_text;
use vstd::prelude::*;

verus! {

/// The map that a sequence of key-value pairs stands for. A later pair replaces an earlier one
/// with the same key.
pub open spec fn pairs_map(s: Seq<(String, String)>) -> Map<Seq<char>, Seq<char>>
    decreases s.len(),
{
    if s.len() == 0 {
        Map::empty()
    } else {
        pairs_map(s.drop_last()).insert(s.last().0@, s.last().1@)
    }
}

/// Arbitrary user-defined metadata (for example Content-Type, ACL, custom headers), by key.
#[derive(Debug)]
pub struct MetadataMap {
    entries: Vec<(String, String)>,
}

impl View for MetadataMap {
    type V = Map<Seq<char>, Seq<char>>;

    closed spec fn view(&self) -> Map<Seq<char>, Seq<char>> {
        pairs_map(self.entries@)
    }
}

proof fn lemma_pairs_absent(s: Seq<(String, String)>, key: Seq<char>)
    requires
        forall|i: int| 0 <= i < s.len() ==> (#[trigger] s[i]).0@ != key,
    ensures
        !pairs_map(s).contains_key(key),
    decreases s.len(),
{
    if s.len() > 0 {
        assert forall|i: int| 0 <= i < s.drop_last().len() implies (#[trigger] s.drop_last()[i]).0@
            != key by {
            assert(s.drop_last()[i] == s[i]);
        }
        lemma_pairs_absent(s.drop_last(), key);
        assert(s.last().0@ != key);
    }
}

proof fn lemma_pairs_present(s: Seq<(String, String)>, j: int)
    requires
        0 <= j < s.len(),
        forall|i: int| j < i < s.len() ==> (#[trigger] s[i]).0@ != s[j].0@,
    ensures
        pairs_map(s).contains_key(s[j].0@),
        pairs_map(s)[s[j].0@] == s[j].1@,
    decreases s.len(),
{
    if j < s.len() - 1 {
        assert(s.drop_last()[j] == s[j]);
        assert forall|i: int| j < i < s.drop_last().len() implies (#[trigger] s.drop_last()[i]).0@
            != s[j].0@ by {
            assert(s.drop_last()[i] == s[i]);
        }
        lemma_pairs_present(s.drop_last(), j);
        assert(s.last().0@ != s[j].0@);
    }
}

proof fn lemma_pairs_replace(s: Seq<(String, String)>, j: int, pair: (String, String))
    requires
        0 <= j < s.len(),
        pair.0@ == s[j].0@,
        forall|i: int| j < i < s.len() ==> (#[trigger] s[i]).0@ != s[j].0@,
    ensures
        pairs_map(s.update(j, pair)) == pairs_map(s).insert(pair.0@, pair.1@),
    decreases s.len(),
{
    let t = s.update(j, pair);
    if j < s.len() - 1 {
        assert(s.drop_last()[j] == s[j]);
        assert forall|i: int| j < i < s.drop_last().len() implies (#[trigger] s.drop_last()[i]).0@
            != s[j].0@ by {
            assert(s.drop_last()[i] == s[i]);
        }
        lemma_pairs_replace(s.drop_last(), j, pair);
        assert(t.drop_last() =~= s.drop_last().update(j, pair));
        assert(t.last() == s.last());
        assert(s.last().0@ != s[j].0@);
        assert(pairs_map(t) =~= pairs_map(s).insert(pair.0@, pair.1@));
    } else {
        assert(t.drop_last() =~= s.drop_last());
        assert(pairs_map(t) =~= pairs_map(s).insert(pair.0@, pair.1@));
    }
}

impl MetadataMap {
    /// An empty map.
    pub fn new() -> (m: Self)
        ensures
            m@ == Map::<Seq<char>, Seq<char>>::empty(),
    {
        MetadataMap { entries: Vec::new() }
    }

    /// The map that a list of pairs stands for.
    pub fn from_pairs(entries: Vec<(String, String)>) -> (m: Self)
        ensures
            m@ == pairs_map(entries@),
    {
        MetadataMap { entries }
    }

    /// Pairs that stand for this map.
    pub fn pairs(&self) -> (entries: &Vec<(String, String)>)
        ensures
            pairs_map(entries@) == self@,
    {
        &self.entries
    }

    fn find(&self, key: &str) -> (r: Option<usize>)
        ensures
            r matches Some(j) ==> j < self.entries@.len() && self.entries@[j as int].0@ == key@
                && forall|i: int|
                j < i < self.entries@.len() ==> (#[trigger] self.entries@[i]).0@ != key@,
            r is None ==> forall|i: int|
                0 <= i < self.entries@.len() ==> (#[trigger] self.entries@[i]).0@ != key@,
    {
        let mut i: usize = self.entries.len();
        while i > 0
            invariant
                i <= self.entries@.len(),
                forall|j: int|
                    i <= j < self.entries@.len() ==> (#[trigger] self.entries@[j]).0@ != key@,
            decreases i,
        {
            i -= 1;
            if same_text(self.entries[i].0.as_str(), key) {
                return Some(i);
            }
        }
        None
    }

    /// The value of a key.
    pub fn get(&self, key: &str) -> (r: Option<String>)
        ensures
            r is Some <==> self@.contains_key(key@),
            r matches Some(v) ==> v@ == self@[key@],
    {
        match self.find(key) {
            Some(j) => {
                proof {
                    lemma_pairs_present(self.entries@, j as int);
                }
                Some(self.entries[j].1.clone())
            },
            None => {
                proof {
                    lemma_pairs_absent(self.entries@, key@);
                }
                None
            },
        }
    }

    /// Set the value of a key.
    pub fn insert(&mut self, key: String, value: String)
        ensures
            final(self)@ == old(self)@.insert(key@, value@),
    {
        match self.find(key.as_str()) {
            Some(j) => {
                proof {
                    lemma_pairs_replace(self.entries@, j as int, (key, value));
                }
                self.entries.set(j, (key, value));
            },
            None => {
                let ghost before = self.entries@;
                self.entries.push((key, value));
                assert(self.entries@.drop_last() =~= before);
            },
        }
    }
}

impl Clone for MetadataMap {
    fn clone(&self) -> (m: Self)
        ensures
            m@ == self@,
    {
        let mut entries: Vec<(String, String)> = Vec::new();
        let mut i: usize = 0;
        while i < self.entries.len()
            invariant
                i <= self.entries@.len(),
                entries@ == self.entries@.take(i as int),
            decreases self.entries.len() - i,
        {
            let pair = (self.entries[i].0.clone(), self.entries[i].1.clone());
            entries.push(pair);
            i += 1;
            assert(entries@ =~= self.entries@.take(i as int));
        }
        assert(self.entries@.take(self.entries@.len() as int) =~= self.entries@);
        MetadataMap { entries }
    }
}

} // verus!
