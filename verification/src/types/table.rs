//! Tables keyed by identifiers.

use crate::outside::slots;
use dashmap::DashMap;
use vstd::prelude::*;

verus! {

/// A table of rows, each under a key of 32 bytes. A hash map finds the slot of a key; the
/// rows can also be walked slot by slot.
pub struct KeyTable<V> {
    index: DashMap<[u8; 32], usize>,
    keys: Vec<[u8; 32]>,
    rows: Vec<V>,
}

impl<V> View for KeyTable<V> {
    type V = Map<Seq<u8>, V>;

    closed spec fn view(&self) -> Map<Seq<u8>, V> {
        Map::new(
            |k: Seq<u8>| slots::slot_map(self.index).contains_key(k),
            |k: Seq<u8>| self.rows@[slots::slot_map(self.index)[k] as int],
        )
    }
}

impl<V> KeyTable<V> {
    /// The keys, slot by slot.
    pub closed spec fn key_list(&self) -> Seq<Seq<u8>> {
        self.keys@.map_values(|k: [u8; 32]| k@)
    }

    /// The hash map leads every key to its slot, and leads nowhere else.
    pub closed spec fn wf(&self) -> bool {
        let map = slots::slot_map(self.index);
        &&& self.keys@.len() == self.rows@.len()
        &&& forall|i: int|
            0 <= i < self.keys@.len() ==> #[trigger] map.contains_key(self.keys@[i]@)
                && map[self.keys@[i]@] == i
        &&& forall|k: Seq<u8>| #[trigger]
            map.contains_key(k) ==> map[k] < self.keys@.len() && self.keys@[map[k] as int]@ == k
    }

    /// The keys of the table are those of its slots, each in one slot, 32 bytes long.
    pub proof fn lemma_keys(&self)
        requires
            self.wf(),
        ensures
            self.key_list().no_duplicates(),
            self.key_list().to_set() == self@.dom(),
            self@.dom().finite(),
            self@.dom().len() == self.key_list().len(),
            forall|k: Seq<u8>| #[trigger] self@.contains_key(k) ==> k.len() == 32,
    {
        let list = self.key_list();
        let map = slots::slot_map(self.index);
        assert forall|i: int, j: int|
            0 <= i < list.len() && 0 <= j < list.len() && i != j implies list[i] != list[j] by {
            assert(map.contains_key(self.keys@[i]@));
            assert(map.contains_key(self.keys@[j]@));
        }
        assert forall|k: Seq<u8>| list.to_set().contains(k) <==> self@.dom().contains(k) by {
            if self@.dom().contains(k) {
                assert(map.contains_key(k));
                assert(list[map[k] as int] == k);
            }
            if list.to_set().contains(k) {
                let i = choose|i: int| 0 <= i < list.len() && list[i] == k;
                assert(map.contains_key(self.keys@[i]@));
            }
        }
        assert(list.to_set() =~= self@.dom());
        list.unique_seq_to_set();
        assert forall|k: Seq<u8>| #[trigger] self@.contains_key(k) implies k.len() == 32 by {
            assert(map.contains_key(k));
            assert(self.keys@[map[k] as int]@ == k);
        }
    }

    /// An empty table.
    pub fn new() -> (table: KeyTable<V>)
        ensures
            table.wf(),
            table@ == Map::<Seq<u8>, V>::empty(),
            table.key_list() == Seq::<Seq<u8>>::empty(),
    {
        let table = KeyTable { index: slots::new_slots(), keys: Vec::new(), rows: Vec::new() };
        assert(table@ =~= Map::<Seq<u8>, V>::empty());
        assert(table.key_list() =~= Seq::<Seq<u8>>::empty());
        table
    }

    /// The number of rows.
    pub fn len(&self) -> (n: usize)
        requires
            self.wf(),
        ensures
            n == self@.dom().len(),
            n == self.key_list().len(),
    {
        proof {
            self.lemma_keys();
        }
        self.keys.len()
    }

    /// Whether there is a row under the key.
    pub fn contains(&self, key: &[u8; 32]) -> (present: bool)
        requires
            self.wf(),
        ensures
            present == self@.contains_key(key@),
    {
        slots::find_slot(&self.index, key).is_some()
    }

    /// The row under the key.
    pub fn get(&self, key: &[u8; 32]) -> (row: Option<&V>)
        requires
            self.wf(),
        ensures
            row == (if self@.contains_key(key@) {
                Some(&self@[key@])
            } else {
                None
            }),
    {
        match slots::find_slot(&self.index, key) {
            Some(slot) => Some(&self.rows[slot]),
            None => None,
        }
    }

    /// The key of a slot.
    pub fn key_at(&self, slot: usize) -> (key: [u8; 32])
        requires
            self.wf(),
            slot < self.key_list().len(),
        ensures
            key@ == self.key_list()[slot as int],
            self@.contains_key(key@),
    {
        assert(slots::slot_map(self.index).contains_key(self.keys@[slot as int]@));
        self.keys[slot]
    }

    /// The row of a slot.
    pub fn row_at(&self, slot: usize) -> (row: &V)
        requires
            self.wf(),
            slot < self.key_list().len(),
        ensures
            self@.contains_key(self.key_list()[slot as int]),
            *row == self@[self.key_list()[slot as int]],
    {
        assert(slots::slot_map(self.index).contains_key(self.keys@[slot as int]@));
        &self.rows[slot]
    }

    /// Puts a row under the key, in place of the one there or in a new slot behind the
    /// others.
    pub fn set(&mut self, key: [u8; 32], row: V)
        requires
            old(self).wf(),
        ensures
            final(self).wf(),
            final(self)@ == old(self)@.insert(key@, row),
            final(self).key_list() == (if old(self)@.contains_key(key@) {
                old(self).key_list()
            } else {
                old(self).key_list().push(key@)
            }),
    {
        let ghost map = slots::slot_map(self.index);
        match slots::find_slot(&self.index, &key) {
            Some(slot) => {
                self.rows[slot] = row;
                assert(self@ =~= old(self)@.insert(key@, row)) by {
                    assert forall|k: Seq<u8>| map.contains_key(k) && k != key@ implies map[k]
                        != slot by {
                        assert(self.keys@[map[k] as int]@ == k);
                        assert(self.keys@[slot as int]@ == key@);
                    }
                }
                assert(self.key_list() =~= old(self).key_list());
            },
            None => {
                let slot: usize = self.keys.len();
                slots::put_slot(&mut self.index, key, slot);
                self.keys.push(key);
                self.rows.push(row);
                proof {
                    let new_map = slots::slot_map(self.index);
                    assert forall|i: int| 0 <= i < self.keys@.len() implies #[trigger]
                        new_map.contains_key(self.keys@[i]@) && new_map[self.keys@[i]@] == i by {
                        if i < slot {
                            assert(map.contains_key(old(self).keys@[i]@));
                        }
                    }
                    assert forall|k: Seq<u8>| #[trigger] new_map.contains_key(k) implies new_map[k]
                        < self.keys@.len() && self.keys@[new_map[k] as int]@ == k by {
                        if k != key@ {
                            assert(map.contains_key(k));
                        }
                    }
                    assert(self@ =~= old(self)@.insert(key@, row)) by {
                        assert forall|k: Seq<u8>| map.contains_key(k) implies #[trigger] map[k]
                            < slot by {
                            assert(map.contains_key(k));
                        }
                    }
                    assert(self.key_list() =~= old(self).key_list().push(key@));
                }
            },
        }
    }

    /// Takes the row under the key out of the table; the last row moves into its slot.
    pub fn remove(&mut self, key: &[u8; 32]) -> (row: Option<V>)
        requires
            old(self).wf(),
        ensures
            final(self).wf(),
            final(self)@ == old(self)@.remove(key@),
            row == (if old(self)@.contains_key(key@) {
                Some(old(self)@[key@])
            } else {
                None
            }),
            !old(self)@.contains_key(key@) ==> final(self).key_list() == old(self).key_list(),
    {
        let ghost map = slots::slot_map(self.index);
        match slots::drop_slot(&mut self.index, key) {
            None => {
                assert(slots::slot_map(self.index) =~= map);
                assert(self@ =~= old(self)@.remove(key@));
                None
            },
            Some(slot) => {
                proof {
                    assert(map.contains_key(key@));
                }
                let last: usize = self.keys.len() - 1;
                let moved = self.keys[last];
                self.keys.swap_remove(slot);
                let row = self.rows.swap_remove(slot);
                if slot != last {
                    slots::put_slot(&mut self.index, moved, slot);
                }
                proof {
                    let new_map = slots::slot_map(self.index);
                    let keys = old(self).keys@;
                    assert(map.contains_key(keys[last as int]@));
                    assert(slot != last ==> moved@ != key@);
                    assert forall|i: int| 0 <= i < self.keys@.len() implies #[trigger]
                        new_map.contains_key(self.keys@[i]@) && new_map[self.keys@[i]@] == i by {
                        assert(map.contains_key(keys[i]@));
                        if i != slot {
                            assert(self.keys@[i] == keys[i]);
                            assert(keys[i]@ != moved@);
                            assert(keys[i]@ != key@);
                        }
                    }
                    assert forall|k: Seq<u8>| #[trigger] new_map.contains_key(k) implies new_map[k]
                        < self.keys@.len() && self.keys@[new_map[k] as int]@ == k by {
                        assert(map.contains_key(k));
                        if k != moved@ {
                            assert(map[k] != slot) by {
                                assert(keys[map[k] as int]@ == k);
                                assert(keys[slot as int]@ == key@);
                            }
                            assert(map[k] != last);
                        }
                    }
                    assert(self@.dom() =~= old(self)@.remove(key@).dom());
                    assert forall|k: Seq<u8>| self@.contains_key(k) implies #[trigger] self@[k]
                        == old(self)@[k] by {
                        assert(new_map.contains_key(k));
                        assert(map.contains_key(k));
                    }
                    assert(self@ =~= old(self)@.remove(key@));
                }
                Some(row)
            },
        }
    }

    /// Takes the last row out of the table, with its key.
    pub fn pop(&mut self) -> (entry: Option<([u8; 32], V)>)
        requires
            old(self).wf(),
        ensures
            final(self).wf(),
            match entry {
                None => old(self).key_list().len() == 0 && *final(self) == *old(self),
                Some((key, row)) => {
                    &&& old(self).key_list().len() > 0
                    &&& key@ == old(self).key_list().last()
                    &&& old(self)@.contains_key(key@)
                    &&& row == old(self)@[key@]
                    &&& final(self)@ == old(self)@.remove(key@)
                    &&& final(self).key_list() == old(self).key_list().drop_last()
                },
            },
    {
        let n: usize = self.keys.len();
        if n == 0 {
            return None;
        }
        let key = self.keys[n - 1];
        proof {
            assert(slots::slot_map(self.index).contains_key(self.keys@[n - 1]@));
            assert(self.key_list().last() == key@);
        }
        let ghost expected = self.key_list().drop_last();
        let removed = self.remove_last();
        match removed {
            Some(row) => {
                assert(self.key_list() =~= expected);
                Some((key, row))
            },
            None => None,
        }
    }

    fn remove_last(&mut self) -> (row: Option<V>)
        requires
            old(self).wf(),
            old(self).keys@.len() > 0,
        ensures
            final(self).wf(),
            row == Some(old(self)@[old(self).keys@.last()@]),
            final(self)@ == old(self)@.remove(old(self).keys@.last()@),
            final(self).keys@ == old(self).keys@.drop_last(),
    {
        let ghost map = slots::slot_map(self.index);
        let n: usize = self.keys.len();
        let key = self.keys[n - 1];
        proof {
            assert(map.contains_key(self.keys@[n - 1]@));
        }
        slots::drop_slot(&mut self.index, &key);
        self.keys.pop();
        let row = self.rows.pop();
        proof {
            let new_map = slots::slot_map(self.index);
            let keys = old(self).keys@;
            assert forall|i: int| 0 <= i < self.keys@.len() implies #[trigger] new_map.contains_key(
                self.keys@[i]@,
            ) && new_map[self.keys@[i]@] == i by {
                assert(map.contains_key(keys[i]@));
                assert(keys[i]@ != key@);
            }
            assert forall|k: Seq<u8>| #[trigger] new_map.contains_key(k) implies new_map[k]
                < self.keys@.len() && self.keys@[new_map[k] as int]@ == k by {
                assert(map.contains_key(k));
                assert(map[k] != n - 1);
            }
            assert(self@.dom() =~= old(self)@.remove(key@).dom());
            assert forall|k: Seq<u8>| self@.contains_key(k) implies #[trigger] self@[k] == old(
                self,
            )@[k] by {
                assert(new_map.contains_key(k));
                assert(map.contains_key(k));
            }
            assert(self@ =~= old(self)@.remove(key@));
        }
        row
    }
}

/// The part of a table that the first `n` keys of its list make up.
pub open spec fn first_rows<V>(all: Map<Seq<u8>, V>, keys: Seq<Seq<u8>>, n: int) -> Map<
    Seq<u8>,
    V,
> {
    all.restrict(keys.take(n).to_set())
}

/// Taking out the last of the first `n` keys leaves the part of one key less.
pub proof fn lemma_first_rows<V>(all: Map<Seq<u8>, V>, keys: Seq<Seq<u8>>, n: int)
    requires
        0 < n <= keys.len(),
        keys.no_duplicates(),
        keys.to_set() == all.dom(),
    ensures
        first_rows(all, keys, n).remove(keys[n - 1]) == first_rows(all, keys, n - 1),
        first_rows(all, keys, n).contains_key(keys[n - 1]),
        first_rows(all, keys, n)[keys[n - 1]] == all[keys[n - 1]],
        keys.take(n).last() == keys[n - 1],
        keys.take(n).drop_last() == keys.take(n - 1),
        all.contains_key(keys[n - 1]),
{
    let a = first_rows(all, keys, n).remove(keys[n - 1]);
    let b = first_rows(all, keys, n - 1);
    assert(keys.to_set().contains(keys[n - 1]));
    assert(keys.take(n)[n - 1] == keys[n - 1]);
    assert(keys.take(n).to_set().contains(keys[n - 1]));
    assert forall|k: Seq<u8>| a.contains_key(k) <==> b.contains_key(k) by {
        if a.contains_key(k) {
            let more = keys.take(n);
            let i = choose|i: int| 0 <= i < n && more[i] == k;
            assert(keys.take(n - 1)[i] == k);
            assert(keys.take(n - 1).contains(k));
        }
        if b.contains_key(k) {
            let less = keys.take(n - 1);
            let i = choose|i: int| 0 <= i < n - 1 && less[i] == k;
            assert(keys.take(n)[i] == k);
            assert(keys.take(n).contains(k));
            assert(keys[i] != keys[n - 1]);
        }
    }
    assert(a =~= b);
    assert(keys.take(n).drop_last() =~= keys.take(n - 1));
}

/// All keys make up the whole table, and no keys nothing.
pub proof fn lemma_all_rows<V>(all: Map<Seq<u8>, V>, keys: Seq<Seq<u8>>)
    requires
        keys.to_set() == all.dom(),
    ensures
        first_rows(all, keys, keys.len() as int) == all,
        first_rows(all, keys, 0) == Map::<Seq<u8>, V>::empty(),
{
    assert(keys.take(keys.len() as int) =~= keys);
    assert(first_rows(all, keys, keys.len() as int) =~= all);
    assert(first_rows(all, keys, 0) =~= Map::<Seq<u8>, V>::empty());
}

}
