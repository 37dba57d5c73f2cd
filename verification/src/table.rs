use vstd::prelude::*;

verus! {

/// Association table from `u64` keys (entity ids) to component values.
/// Entries are kept in strictly ascending key order, so iteration over a
/// table is deterministic: it follows the order the keys induce.
pub struct Table<T> {
    entries: Vec<(u64, T)>,
}

/// The keys of an entry sequence, in entry order.
pub open spec fn entry_keys<K, T>(s: Seq<(K, T)>) -> Seq<K> {
    s.map_values(|e: (K, T)| e.0)
}

/// The finite map an entry sequence denotes (later entries win;
/// with distinct keys the order is irrelevant).
pub open spec fn entries_map<K, T>(s: Seq<(K, T)>) -> Map<K, T>
    decreases s.len(),
{
    if s.len() == 0 {
        Map::empty()
    } else {
        entries_map(s.drop_last()).insert(s.last().0, s.last().1)
    }
}

pub proof fn lemma_entries_map_dom<K, T>(s: Seq<(K, T)>)
    ensures
        entries_map(s).dom() =~= entry_keys(s).to_set(),
        entries_map(s).dom().finite(),
    decreases s.len(),
{
    if s.len() == 0 {
        assert forall|k: K| !entry_keys(s).to_set().contains(k) by {
            assert(!entry_keys(s).contains(k));
        }
    } else {
        lemma_entries_map_dom(s.drop_last());
        assert forall|k: K| entries_map(s).dom().contains(k)
            <==> entry_keys(s).to_set().contains(k) by {
            if entries_map(s).dom().contains(k) {
                if k == s.last().0 {
                    assert(entry_keys(s)[s.len() - 1] == k);
                    assert(entry_keys(s).contains(k));
                } else {
                    assert(entry_keys(s.drop_last()).contains(k));
                    let i = choose|i: int|
                        0 <= i < entry_keys(s.drop_last()).len() && entry_keys(s.drop_last())[i]
                            == k;
                    assert(entry_keys(s)[i] == k);
                    assert(entry_keys(s).contains(k));
                }
            }
            if entry_keys(s).contains(k) {
                let i = choose|i: int| 0 <= i < entry_keys(s).len() && entry_keys(s)[i] == k;
                if i == s.len() - 1 {
                    assert(entries_map(s).dom().contains(k));
                } else {
                    assert(entry_keys(s.drop_last())[i] == k);
                    assert(entry_keys(s.drop_last()).contains(k));
                }
            }
        }
    }
}

pub proof fn lemma_entries_map_index<K, T>(s: Seq<(K, T)>, i: int)
    requires
        entry_keys(s).no_duplicates(),
        0 <= i < s.len(),
    ensures
        entries_map(s).dom().contains(s[i].0),
        entries_map(s)[s[i].0] == s[i].1,
    decreases s.len(),
{
    if i == s.len() - 1 {
    } else {
        assert(entry_keys(s.drop_last()) =~= entry_keys(s).drop_last());
        lemma_entries_map_index(s.drop_last(), i);
        assert(entry_keys(s)[i] != entry_keys(s)[s.len() - 1]);
    }
}

pub proof fn lemma_entries_map_insert_at<K, T>(s: Seq<(K, T)>, idx: int, k: K, v: T)
    requires
        0 <= idx <= s.len(),
        !entry_keys(s).contains(k),
    ensures
        entries_map(s.insert(idx, (k, v))) =~= entries_map(s).insert(k, v),
    decreases s.len(),
{
    let s2 = s.insert(idx, (k, v));
    if idx == s.len() {
        assert(s2.drop_last() =~= s);
        assert(s2.last() == (k, v));
    } else {
        assert(s2.last() == s.last());
        assert(s2.drop_last() =~= s.drop_last().insert(idx, (k, v)));
        assert(!entry_keys(s.drop_last()).contains(k)) by {
            if entry_keys(s.drop_last()).contains(k) {
                let i = choose|i: int|
                    0 <= i < entry_keys(s.drop_last()).len() && entry_keys(s.drop_last())[i] == k;
                assert(entry_keys(s)[i] == k);
            }
        }
        lemma_entries_map_insert_at(s.drop_last(), idx, k, v);
        assert(s.last().0 != k) by {
            assert(entry_keys(s)[s.len() - 1] == s.last().0);
        }
    }
}

pub proof fn lemma_entries_map_update_at<K, T>(s: Seq<(K, T)>, idx: int, v: T)
    requires
        entry_keys(s).no_duplicates(),
        0 <= idx < s.len(),
    ensures
        entries_map(s.update(idx, (s[idx].0, v))) =~= entries_map(s).insert(s[idx].0, v),
    decreases s.len(),
{
    let k = s[idx].0;
    let s2 = s.update(idx, (k, v));
    if idx == s.len() - 1 {
        assert(s2.drop_last() =~= s.drop_last());
    } else {
        assert(s2.last() == s.last());
        assert(s2.drop_last() =~= s.drop_last().update(idx, (k, v)));
        assert(entry_keys(s.drop_last()) =~= entry_keys(s).drop_last());
        lemma_entries_map_update_at(s.drop_last(), idx, v);
        assert(s.last().0 != k) by {
            assert(entry_keys(s)[s.len() - 1] == s.last().0);
            assert(entry_keys(s)[idx] == k);
        }
    }
}

pub proof fn lemma_entries_map_remove_at<K, T>(s: Seq<(K, T)>, idx: int)
    requires
        entry_keys(s).no_duplicates(),
        0 <= idx < s.len(),
    ensures
        entries_map(s.remove(idx)) =~= entries_map(s).remove(s[idx].0),
    decreases s.len(),
{
    let k = s[idx].0;
    let s2 = s.remove(idx);
    if idx == s.len() - 1 {
        assert(s2 =~= s.drop_last());
        lemma_entries_map_dom(s.drop_last());
        assert(entry_keys(s.drop_last()) =~= entry_keys(s).drop_last());
        assert(!entry_keys(s.drop_last()).contains(k)) by {
            if entry_keys(s.drop_last()).contains(k) {
                let i = choose|i: int|
                    0 <= i < entry_keys(s.drop_last()).len() && entry_keys(s.drop_last())[i] == k;
                assert(entry_keys(s)[i] == k);
                assert(entry_keys(s)[idx] == k);
            }
        }
        assert(entries_map(s.drop_last()) =~= entries_map(s).remove(k));
    } else {
        assert(s2.last() == s.last());
        assert(s2.drop_last() =~= s.drop_last().remove(idx));
        assert(entry_keys(s.drop_last()) =~= entry_keys(s).drop_last());
        lemma_entries_map_remove_at(s.drop_last(), idx);
        assert(s.last().0 != k) by {
            assert(entry_keys(s)[s.len() - 1] == s.last().0);
            assert(entry_keys(s)[idx] == k);
        }
    }
}

impl<T> Table<T> {
    /// Representation invariant: keys strictly ascend.
    pub closed spec fn wf(self) -> bool {
        forall|i: int, j: int|
            0 <= i < j < self.entries@.len() ==> self.entries@[i].0 < self.entries@[j].0
    }

    /// The keys, ascending: the iteration order of the table.
    pub closed spec fn key_seq(self) -> Seq<u64> {
        entry_keys(self.entries@)
    }

    /// The values, in key order.
    pub closed spec fn val_seq(self) -> Seq<T> {
        self.entries@.map_values(|e: (u64, T)| e.1)
    }

    pub proof fn lemma_keys_no_duplicates(self)
        requires
            self.wf(),
        ensures
            self.key_seq().no_duplicates(),
            self.key_seq().to_set() =~= self@.dom(),
            forall|i: int, j: int|
                0 <= i < j < self.key_seq().len() ==> self.key_seq()[i] < self.key_seq()[j],
            self.key_seq().len() == self.val_seq().len(),
            forall|i: int|
                0 <= i < self.key_seq().len() ==> self@.dom().contains(#[trigger] self.key_seq()[i])
                    && self@[self.key_seq()[i]] == self.val_seq()[i],
            self@.dom().finite(),
    {
        lemma_entries_map_dom(self.entries@);
        assert forall|i: int| 0 <= i < self.key_seq().len() implies self@.dom().contains(
            #[trigger] self.key_seq()[i],
        ) && self@[self.key_seq()[i]] == self.val_seq()[i] by {
            lemma_entries_map_index(self.entries@, i);
        }
    }

    pub fn new() -> (r: Table<T>)
        ensures
            r.wf(),
            r@ =~= Map::<u64, T>::empty(),
            r.key_seq() =~= Seq::<u64>::empty(),
    {
        let r = Table { entries: Vec::new() };
        proof {
            lemma_entries_map_dom(r.entries@);
        }
        r
    }

    pub fn len(&self) -> (r: usize)
        requires
            self.wf(),
        ensures
            r == self.key_seq().len(),
            r == self@.dom().len(),
    {
        proof {
            self.lemma_keys_no_duplicates();
            self.key_seq().unique_seq_to_set();
        }
        self.entries.len()
    }

    /// The key at iteration position `i`.
    pub fn key_at(&self, i: usize) -> (r: u64)
        requires
            self.wf(),
            i < self.key_seq().len(),
        ensures
            r == self.key_seq()[i as int],
            self@.dom().contains(r),
    {
        proof {
            self.lemma_keys_no_duplicates();
            assert(self.key_seq()[i as int] == self.entries@[i as int].0);
            assert(self@.dom().contains(self.key_seq()[i as int]));
        }
        self.entries[i].0
    }

    /// The value at iteration position `i`.
    pub fn val_at(&self, i: usize) -> (r: &T)
        requires
            self.wf(),
            i < self.key_seq().len(),
        ensures
            *r == self@[self.key_seq()[i as int]],
            self@.dom().contains(self.key_seq()[i as int]),
    {
        proof {
            self.lemma_keys_no_duplicates();
        }
        &self.entries[i].1
    }

    pub fn contains(&self, key: u64) -> (r: bool)
        requires
            self.wf(),
        ensures
            r == self@.dom().contains(key),
    {
        self.get(key).is_some()
    }

    pub fn get(&self, key: u64) -> (r: Option<&T>)
        requires
            self.wf(),
        ensures
            match r {
                Some(v) => self@.dom().contains(key) && *v == self@[key],
                None => !self@.dom().contains(key),
            },
    {
        proof {
            self.lemma_keys_no_duplicates();
        }
        let n = self.entries.len();
        let mut i: usize = 0;
        while i < n
            invariant
                n == self.entries@.len(),
                0 <= i <= n,
                self.wf(),
                forall|j: int| 0 <= j < i ==> self.key_seq()[j] != key,
            decreases n - i,
        {
            if self.entries[i].0 == key {
                proof {
                    lemma_entries_map_index(self.entries@, i as int);
                }
                return Some(&self.entries[i].1);
            }
            assert(self.key_seq()[i as int] == self.entries@[i as int].0);
            i += 1;
        }
        proof {
            if self@.dom().contains(key) {
                assert(self.key_seq().to_set().contains(key));
                let j = choose|j: int|
                    0 <= j < self.key_seq().len() && self.key_seq()[j] == key;
                assert(false);
            }
        }
        None
    }

    /// Insert or replace: afterwards `key` maps to `value`.
    pub fn set(&mut self, key: u64, value: T)
        requires
            old(self).wf(),
        ensures
            final(self).wf(),
            final(self)@ =~= old(self)@.insert(key, value),
            old(self)@.dom().contains(key) ==> final(self).key_seq() =~= old(self).key_seq(),
    {
        proof {
            self.lemma_keys_no_duplicates();
        }
        let n = self.entries.len();
        let mut i: usize = 0;
        while i < n
            invariant
                self == old(self),
                n == self.entries@.len(),
                0 <= i <= n,
                self.wf(),
                forall|j: int| 0 <= j < i ==> self.key_seq()[j] < key,
            decreases n - i,
        {
            assert(self.key_seq()[i as int] == self.entries@[i as int].0);
            if self.entries[i].0 == key {
                let ghost s = self.entries@;
                self.entries.remove(i);
                self.entries.insert(i, (key, value));
                proof {
                    assert(self.entries@ =~= s.update(i as int, (key, value)));
                    lemma_entries_map_update_at(s, i as int, value);
                    assert(entry_keys(self.entries@) =~= entry_keys(s));
                }
                return ;
            } else if self.entries[i].0 > key {
                let ghost s = self.entries@;
                self.entries.insert(i, (key, value));
                proof {
                    assert(!entry_keys(s).contains(key)) by {
                        if entry_keys(s).contains(key) {
                            let j = choose|j: int|
                                0 <= j < entry_keys(s).len() && entry_keys(s)[j] == key;
                            assert(s[j].0 == key);
                        }
                    }
                    lemma_entries_map_insert_at(s, i as int, key, value);
                    s.insert_ensures(i as int, (key, value));
                    assert(self.entries@ == s.insert(i as int, (key, value)));
                    assert forall|x: int| i < x < self.entries@.len() implies self.entries@[x]
                        == s[x - 1] by {
                        let j = x - 1;
                        assert(s.insert(i as int, (key, value))[j + 1] == s[j]);
                    }
                    assert forall|x: int| 0 <= x < i implies old(self).key_seq()[x] == s[x].0 by {}
                    assert forall|a: int, b: int|
                        0 <= a < b < self.entries@.len() implies self.entries@[a].0
                        < self.entries@[b].0 by {
                        if a < i && b == i {
                            assert(self.entries@[a] == s[a]);
                            assert(old(self).key_seq()[a] == s[a].0);
                        } else if a < i && b > i {
                            assert(self.entries@[a] == s[a]);
                            assert(self.entries@[b] == s[b - 1]);
                        } else if a == i && b > i {
                            assert(self.entries@[b] == s[b - 1]);
                            assert(s[i as int].0 <= s[b - 1].0);
                        }
                    }
                    assert(!old(self)@.dom().contains(key)) by {
                        lemma_entries_map_dom(s);
                    }
                }
                return ;
            }
            i += 1;
        }
        let ghost s = self.entries@;
        self.entries.push((key, value));
        proof {
            assert(self.entries@ =~= s.insert(s.len() as int, (key, value)));
            assert(!entry_keys(s).contains(key)) by {
                if entry_keys(s).contains(key) {
                    let j = choose|j: int| 0 <= j < entry_keys(s).len() && entry_keys(s)[j] == key;
                    assert(old(self).key_seq()[j] == key);
                }
            }
            lemma_entries_map_insert_at(s, s.len() as int, key, value);
            s.insert_ensures(s.len() as int, (key, value));
            assert(self.entries@ == s.insert(s.len() as int, (key, value)));
            assert forall|a: int, b: int|
                0 <= a < b < self.entries@.len() implies self.entries@[a].0
                < self.entries@[b].0 by {
                if b == s.len() as int {
                    assert(old(self).key_seq()[a] == s[a].0);
                    assert(self.entries@[b] == (key, value));
                }
            }
            assert(!old(self)@.dom().contains(key)) by {
                lemma_entries_map_dom(s);
            }
        }
    }

    /// Remove the binding for `key`, if any.
    pub fn remove(&mut self, key: u64) -> (r: Option<T>)
        requires
            old(self).wf(),
        ensures
            final(self).wf(),
            final(self)@ =~= old(self)@.remove(key),
            r is Some <==> old(self)@.dom().contains(key),
            r is Some ==> r->0 == old(self)@[key],
    {
        proof {
            self.lemma_keys_no_duplicates();
        }
        let n = self.entries.len();
        let mut i: usize = 0;
        while i < n
            invariant
                self == old(self),
                n == self.entries@.len(),
                0 <= i <= n,
                self.wf(),
                forall|j: int| 0 <= j < i ==> self.key_seq()[j] != key,
            decreases n - i,
        {
            assert(self.key_seq()[i as int] == self.entries@[i as int].0);
            if self.entries[i].0 == key {
                let ghost s = self.entries@;
                let e = self.entries.remove(i);
                proof {
                    lemma_entries_map_index(s, i as int);
                    lemma_entries_map_remove_at(s, i as int);
                    assert forall|a: int, b: int|
                        0 <= a < b < self.entries@.len() implies self.entries@[a].0
                        < self.entries@[b].0 by {
                        if b < i {
                        } else if a < i {
                            assert(self.entries@[b] == s[b + 1]);
                        } else {
                            assert(self.entries@[a] == s[a + 1]);
                            assert(self.entries@[b] == s[b + 1]);
                        }
                    }
                }
                return Some(e.1);
            }
            i += 1;
        }
        proof {
            if self@.dom().contains(key) {
                assert(self.key_seq().to_set().contains(key));
                let j = choose|j: int|
                    0 <= j < self.key_seq().len() && self.key_seq()[j] == key;
                assert(false);
            }
            assert(self@ =~= self@.remove(key));
        }
        None
    }
}

impl<T> View for Table<T> {
    type V = Map<u64, T>;

    closed spec fn view(&self) -> Map<u64, T> {
        entries_map(self.entries@)
    }
}

} // verus!
