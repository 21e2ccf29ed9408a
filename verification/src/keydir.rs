//! The keydir: the in-memory index from each live key to the place of its
//! latest record.

use vstd::hash_map::StringHashMap;
use vstd::prelude::*;
use crate::text::same_text;
use crate::timestamp::Timestamp;

verus! {

/// Where the latest record of a key lies: `entry_size` bytes at offset
/// `entry_pos` of the segment named `file_id`, written at `timestamp`.
#[derive(Debug)]
pub struct KeydirVal {
    pub entry_size: usize,
    pub entry_pos: u64,
    pub file_id: String,
    pub timestamp: Timestamp,
}

/// An index entry as mathematical values.
pub struct KeydirValView {
    pub entry_size: usize,
    pub entry_pos: u64,
    pub file_id: Seq<char>,
    pub timestamp: Timestamp,
}

impl View for KeydirVal {
    type V = KeydirValView;

    open spec fn view(&self) -> KeydirValView {
        KeydirValView {
            entry_size: self.entry_size,
            entry_pos: self.entry_pos,
            file_id: self.file_id@,
            timestamp: self.timestamp,
        }
    }
}

impl KeydirValView {
    /// The same place in the segment `to`, if the entry lies in the segment
    /// `from`; the entry itself otherwise.
    pub open spec fn moved(self, from: Seq<char>, to: Seq<char>) -> KeydirValView {
        if self.file_id == from {
            KeydirValView { file_id: to, ..self }
        } else {
            self
        }
    }
}

impl Clone for KeydirVal {
    fn clone(&self) -> (res: KeydirVal)
        ensures
            res@ == self@,
    {
        KeydirVal {
            entry_size: self.entry_size,
            entry_pos: self.entry_pos,
            file_id: self.file_id.clone(),
            timestamp: self.timestamp,
        }
    }
}

/// The index. Lookups go through a hash map keyed by strings, which offers
/// no way to walk its keys; so the keys are also kept in a list, each once,
/// from which they are enumerated.
pub struct Keydir {
    map: StringHashMap<KeydirVal>,
    keys: Vec<String>,
}

impl View for Keydir {
    type V = Map<Seq<char>, KeydirValView>;

    closed spec fn view(&self) -> Map<Seq<char>, KeydirValView> {
        Map::new(|k: Seq<char>| self.map@.contains_key(k), |k: Seq<char>| self.map@[k]@)
    }
}

/// Every entry of `index` that lies in the segment `from` moved to `to`.
pub open spec fn moved_entries(
    index: Map<Seq<char>, KeydirValView>,
    from: Seq<char>,
    to: Seq<char>,
) -> Map<Seq<char>, KeydirValView> {
    Map::new(|k: Seq<char>| index.contains_key(k), |k: Seq<char>| index[k].moved(from, to))
}

impl Keydir {
    /// The list of keys holds each key of the map once, and no other.
    pub closed spec fn wf(&self) -> bool {
        &&& self.map@.dom().finite()
        &&& forall|i: int, j: int|
            0 <= i < j < self.keys@.len() ==> (#[trigger] self.keys@[i])@ != (
            #[trigger] self.keys@[j])@
        &&& forall|i: int|
            0 <= i < self.keys@.len() ==> self.map@.contains_key((#[trigger] self.keys@[i])@)
        &&& forall|k: Seq<char>| #[trigger]
            self.map@.contains_key(k) ==> exists|i: int|
                0 <= i < self.keys@.len() && (#[trigger] self.keys@[i])@ == k
    }

    /// An empty index.
    pub fn new() -> (res: Keydir)
        ensures
            res.wf(),
            res@ == Map::<Seq<char>, KeydirValView>::empty(),
    {
        let res = Keydir { map: StringHashMap::new(), keys: Vec::new() };
        assert(res@ =~= Map::<Seq<char>, KeydirValView>::empty());
        res
    }

    /// The place of the key in the list of keys, if the index holds it.
    fn position(&self, key: &str) -> (res: Option<usize>)
        requires
            self.wf(),
        ensures
            match res {
                Some(i) => i < self.keys@.len() && self.keys@[i as int]@ == key@,
                None => !self.map@.contains_key(key@),
            },
    {
        let mut i: usize = 0;
        while i < self.keys.len()
            invariant
                i <= self.keys@.len(),
                forall|j: int| 0 <= j < i ==> (#[trigger] self.keys@[j])@ != key@,
            decreases self.keys@.len() - i,
        {
            if same_text(self.keys[i].as_str(), key) {
                return Some(i);
            }
            i += 1;
        }
        None
    }

    /// Whether the index holds `key`.
    pub fn contains_key(&self, key: &str) -> (res: bool)
        requires
            self.wf(),
        ensures
            res == self@.contains_key(key@),
    {
        self.map.contains_key(key)
    }

    /// The number of keys.
    pub fn len(&self) -> (res: usize)
        requires
            self.wf(),
        ensures
            res == self@.len(),
            self@.dom().finite(),
    {
        broadcast use vstd::hash_map::axiom_string_hash_map_spec_len;

        assert(self@.dom() =~= self.map@.dom());
        self.map.len()
    }

    /// The entry of `key`, if the index holds one.
    pub fn lookup(&self, key: &str) -> (res: Option<KeydirVal>)
        requires
            self.wf(),
        ensures
            match res {
                Some(entry) => self@.contains_key(key@) && entry@ == self@[key@],
                None => !self@.contains_key(key@),
            },
    {
        match self.map.get(key) {
            Some(entry) => Some(entry.clone()),
            None => None,
        }
    }

    /// Sets the entry of `key`, whatever the index held for it.
    pub fn insert(&mut self, key: &str, entry: KeydirVal)
        requires
            old(self).wf(),
        ensures
            final(self).wf(),
            final(self)@ == old(self)@.insert(key@, entry@),
    {
        if !self.map.contains_key(key) {
            self.keys.push(key.to_owned());
        }
        self.map.insert(key.to_owned(), entry);
        assert(self@ =~= old(self)@.insert(key@, entry@));
        assert forall|k: Seq<char>| #[trigger] self.map@.contains_key(k) implies exists|i: int|
            0 <= i < self.keys@.len() && (#[trigger] self.keys@[i])@ == k by {
            if k == key@ {
                if old(self).map@.contains_key(k) {
                    let i = choose|i: int|
                        0 <= i < old(self).keys@.len() && (#[trigger] old(self).keys@[i])@ == k;
                    assert(self.keys@[i]@ == k);
                } else {
                    assert(self.keys@[self.keys@.len() - 1]@ == k);
                }
            } else {
                let i = choose|i: int|
                    0 <= i < old(self).keys@.len() && (#[trigger] old(self).keys@[i])@ == k;
                assert(self.keys@[i]@ == k);
            }
        }
    }

    /// Drops `key` from the index; nothing changes if the index does not hold
    /// it.
    pub fn remove(&mut self, key: &str)
        requires
            old(self).wf(),
        ensures
            final(self).wf(),
            final(self)@ == old(self)@.remove(key@),
    {
        match self.position(key) {
            Some(i) => {
                let _ = self.keys.swap_remove(i);
                self.map.remove(key);
                assert forall|k: Seq<char>| #[trigger] self.map@.contains_key(k) implies exists|
                    j: int,
                | 0 <= j < self.keys@.len() && (#[trigger] self.keys@[j])@ == k by {
                    let j = choose|j: int|
                        0 <= j < old(self).keys@.len() && (#[trigger] old(self).keys@[j])@ == k;
                    if j == old(self).keys@.len() - 1 {
                        assert(self.keys@[i as int]@ == k);
                    } else {
                        assert(self.keys@[j]@ == k);
                    }
                }
            },
            None => {
                self.map.remove(key);
                assert(self.map@ =~= old(self).map@);
            },
        }
        assert(self@ =~= old(self)@.remove(key@));
    }

    /// The keys of the index, each once, in no particular order.
    pub fn keys(&self) -> (res: Vec<String>)
        requires
            self.wf(),
        ensures
            res@.len() == self@.len(),
            forall|i: int, j: int|
                0 <= i < j < res@.len() ==> (#[trigger] res@[i])@ != (#[trigger] res@[j])@,
            forall|i: int| 0 <= i < res@.len() ==> self@.contains_key((#[trigger] res@[i])@),
            forall|k: Seq<char>| #[trigger]
                self@.contains_key(k) ==> exists|i: int|
                    0 <= i < res@.len() && (#[trigger] res@[i])@ == k,
    {
        let mut res: Vec<String> = Vec::new();
        let mut i: usize = 0;
        while i < self.keys.len()
            invariant
                i <= self.keys@.len(),
                res@.len() == i,
                forall|j: int| 0 <= j < i ==> (#[trigger] res@[j])@ == self.keys@[j]@,
            decreases self.keys@.len() - i,
        {
            res.push(self.keys[i].clone());
            i += 1;
        }
        proof {
            self.lemma_count();
            assert forall|k: Seq<char>| #[trigger] self@.contains_key(k) implies exists|i: int|
                0 <= i < res@.len() && (#[trigger] res@[i])@ == k by {
                let i = choose|i: int|
                    0 <= i < self.keys@.len() && (#[trigger] self.keys@[i])@ == k;
                assert(res@[i]@ == k);
            }
        }
        res
    }

    /// The list of keys is as long as the index is large.
    proof fn lemma_count(&self)
        requires
            self.wf(),
        ensures
            self.keys@.len() == self@.len(),
            self@.dom().finite(),
    {
        let names = self.keys@.map_values(|s: String| s@);
        assert(names.no_duplicates());
        names.unique_seq_to_set();
        assert(names.to_set() =~= self@.dom()) by {
            assert forall|k: Seq<char>| self@.dom().contains(k) implies names.to_set().contains(
                k,
            ) by {
                let i = choose|i: int|
                    0 <= i < self.keys@.len() && (#[trigger] self.keys@[i])@ == k;
                assert(names[i] == k);
            }
            assert forall|k: Seq<char>| names.to_set().contains(k) implies self@.dom().contains(
                k,
            ) by {
                let i = choose|i: int| 0 <= i < names.len() && names[i] == k;
                assert(self.keys@[i]@ == k);
            }
        }
    }

    /// Moves every entry that lies in the segment `from` to the segment `to`,
    /// at the same offset.
    pub fn repoint(&mut self, from: &str, to: &str)
        requires
            old(self).wf(),
        ensures
            final(self).wf(),
            final(self)@ == moved_entries(old(self)@, from@, to@),
    {
        let mut i: usize = 0;
        while i < self.keys.len()
            invariant
                i <= self.keys@.len(),
                self.wf(),
                self.keys@ == old(self).keys@,
                self.map@.dom() == old(self).map@.dom(),
                forall|j: int|
                    0 <= j < i ==> self.map@[(#[trigger] self.keys@[j])@]@ == old(
                        self,
                    ).map@[self.keys@[j]@]@.moved(from@, to@),
                forall|j: int|
                    i <= j < self.keys@.len() ==> self.map@[(#[trigger] self.keys@[j])@]@ == old(
                        self,
                    ).map@[self.keys@[j]@]@,
            decreases self.keys@.len() - i,
        {
            let ghost before = self.map@;
            let name = self.keys[i].clone();
            let moved: Option<KeydirVal> = match self.map.get(name.as_str()) {
                Some(entry) => if same_text(entry.file_id.as_str(), from) {
                    Some(
                        KeydirVal {
                            entry_size: entry.entry_size,
                            entry_pos: entry.entry_pos,
                            file_id: to.to_owned(),
                            timestamp: entry.timestamp,
                        },
                    )
                } else {
                    None
                },
                None => None,
            };
            if let Some(entry) = moved {
                self.map.insert(name, entry);
                assert(self.map@.dom() =~= before.dom());
            }
            assert forall|j: int| i < j < self.keys@.len() implies self.map@[(
            #[trigger] self.keys@[j])@]@ == old(self).map@[self.keys@[j]@]@ by {
                assert(self.keys@[i as int]@ != self.keys@[j]@);
            }
            assert forall|j: int| 0 <= j < i implies self.map@[(#[trigger] self.keys@[j])@]@
                == old(self).map@[self.keys@[j]@]@.moved(from@, to@) by {
                assert(self.keys@[j]@ != self.keys@[i as int]@);
            }
            i += 1;
        }
        assert(self@ =~= moved_entries(old(self)@, from@, to@)) by {
            assert forall|k: Seq<char>| self@.contains_key(k) implies self@[k] == moved_entries(
                old(self)@,
                from@,
                to@,
            )[k] by {
                let j = choose|j: int|
                    0 <= j < self.keys@.len() && (#[trigger] self.keys@[j])@ == k;
                assert(self.map@[self.keys@[j]@]@ == old(self).map@[self.keys@[j]@]@.moved(
                    from@,
                    to@,
                ));
            }
        }
    }
}

} // verus!
