//! Row numbers grouped by a text key.

use vstd::hash_map::StringHashMap;
use vstd::prelude::*;

verus! {

/// The numbers of the rows whose key is `key`, ascending.
pub open spec fn rows_with(keys: Seq<Seq<char>>, key: Seq<char>) -> Seq<int>
    decreases keys.len(),
{
    if keys.len() == 0 {
        Seq::empty()
    } else {
        let before = rows_with(keys.drop_last(), key);
        if keys.last() == key {
            before.push(keys.len() - 1)
        } else {
            before
        }
    }
}

/// A vector of row numbers as integers.
pub open spec fn ints(rows: Seq<usize>) -> Seq<int> {
    rows.map_values(|row: usize| row as int)
}

/// The texts of a list of strings.
pub open spec fn texts(strings: Seq<String>) -> Seq<Seq<char>> {
    strings.map_values(|s: String| s@)
}

/// The texts of a list of string slices.
pub open spec fn slice_texts(slices: Seq<&str>) -> Seq<Seq<char>> {
    slices.map_values(|s: &str| s@)
}

/// What the rows with a key are: those numbers at which the key stands, in
/// ascending order.
pub proof fn lemma_rows_with(keys: Seq<Seq<char>>, key: Seq<char>)
    ensures
        forall|row: int|
            #![trigger rows_with(keys, key).contains(row)]
            rows_with(keys, key).contains(row) <==> 0 <= row < keys.len() && keys[row] == key,
        forall|i: int, j: int|
            #![trigger rows_with(keys, key)[i], rows_with(keys, key)[j]]
            0 <= i < j < rows_with(keys, key).len() ==> rows_with(keys, key)[i] < rows_with(
                keys,
                key,
            )[j],
        forall|i: int|
            #![trigger rows_with(keys, key)[i]]
            0 <= i < rows_with(keys, key).len() ==> 0 <= rows_with(keys, key)[i] < keys.len()
                && keys[rows_with(keys, key)[i]] == key,
        rows_with(keys, key).len() <= keys.len(),
        rows_with(keys, key).len() > 0 <==> keys.contains(key),
    decreases keys.len(),
{
    let all = rows_with(keys, key);
    if keys.len() > 0 {
        let shorter = keys.drop_last();
        let before = rows_with(shorter, key);
        lemma_rows_with(shorter, key);
        assert(forall|i: int| 0 <= i < shorter.len() ==> shorter[i] == keys[i]);
        assert forall|i: int| 0 <= i < all.len() implies 0 <= all[i] < keys.len() && keys[all[i]]
            == key by {
            if i < before.len() {
                assert(all[i] == before[i]);
            }
        }
        assert forall|i: int, j: int| 0 <= i < j < all.len() implies all[i] < all[j] by {
            assert(all[i] == before[i]);
            if j < before.len() {
                assert(all[j] == before[j]);
            }
        }
        assert forall|row: int| 0 <= row < keys.len() && keys[row] == key implies all.contains(
            row,
        ) by {
            if row == keys.len() - 1 {
                assert(all[all.len() - 1] == row);
            } else {
                assert(before.contains(row));
                let i = choose|i: int| 0 <= i < before.len() && before[i] == row;
                assert(all[i] == row);
            }
        }
        if keys.contains(key) {
            let row = choose|row: int| 0 <= row < keys.len() && keys[row] == key;
            assert(all.contains(row));
        }
        if all.len() > 0 {
            assert(keys[all[0]] == key);
        }
    }
}

/// Row numbers grouped by key. The view is the key of every row, in row order.
pub struct KeyIndex {
    slots: StringHashMap<usize>,
    keys: Vec<String>,
    rows: Vec<Vec<usize>>,
    added: Ghost<Seq<Seq<char>>>,
}

impl View for KeyIndex {
    type V = Seq<Seq<char>>;

    closed spec fn view(&self) -> Seq<Seq<char>> {
        self.added@
    }
}

impl KeyIndex {
    /// What holds of an index between calls.
    pub closed spec fn well_formed(self) -> bool {
        &&& self.keys@.len() == self.rows@.len()
        &&& forall|key: Seq<char>| #[trigger]
            self.slots@.contains_key(key) <==> self.added@.contains(key)
        &&& forall|key: Seq<char>| #[trigger]
            self.slots@.contains_key(key) ==> self.slots@[key] < self.keys@.len()
                && self.keys@[self.slots@[key] as int]@ == key && ints(
                self.rows@[self.slots@[key] as int]@,
            ) == rows_with(self.added@, key)
        &&& forall|i: int|
            0 <= i < self.keys@.len() ==> self.slots@.contains_key((#[trigger] self.keys@[i])@)
                && self.slots@[self.keys@[i]@] == i
    }

    /// The distinct keys, in the order in which they first came.
    pub closed spec fn distinct(self) -> Seq<Seq<char>> {
        texts(self.keys@)
    }

    /// What the distinct keys are: each key of a row, once.
    pub proof fn lemma_distinct(self)
        requires
            self.well_formed(),
        ensures
            self.distinct().no_duplicates(),
            forall|key: Seq<char>| #[trigger]
                self.distinct().contains(key) <==> self@.contains(key),
            self.distinct().len() == self.distinct().to_set().len(),
            self.distinct().to_set() == self@.to_set(),
    {
        let keys = self.distinct();
        assert forall|i: int, j: int|
            0 <= i < keys.len() && 0 <= j < keys.len() && i != j implies keys[i] != keys[j] by {
            assert(keys[i] == self.keys@[i]@);
            assert(keys[j] == self.keys@[j]@);
        }
        assert forall|key: Seq<char>| #[trigger] keys.contains(key) <==> self@.contains(key) by {
            if keys.contains(key) {
                let i = choose|i: int| 0 <= i < keys.len() && keys[i] == key;
                assert(self.slots@.contains_key(self.keys@[i]@));
            }
            if self@.contains(key) {
                assert(self.slots@.contains_key(key));
                assert(keys[self.slots@[key] as int] == key);
            }
        }
        keys.unique_seq_to_set();
        assert(keys.to_set() =~= self@.to_set());
    }

    /// An index of no rows.
    pub fn new() -> (r: KeyIndex)
        ensures
            r.well_formed(),
            r@ == Seq::<Seq<char>>::empty(),
    {
        KeyIndex {
            slots: StringHashMap::new(),
            keys: Vec::new(),
            rows: Vec::new(),
            added: Ghost(Seq::empty()),
        }
    }

    /// Adds the next row, whose number is `row`.
    pub fn push(&mut self, key: &str, row: usize)
        requires
            old(self).well_formed(),
            row == old(self)@.len(),
        ensures
            final(self).well_formed(),
            final(self)@ == old(self)@.push(key@),
    {
        let ghost before = self.added@;
        let ghost after = before.push(key@);
        let slot: Option<usize> = match self.slots.get(key) {
            Some(slot) => Some(*slot),
            None => None,
        };
        proof {
            assert(after.drop_last() =~= before);
            assert forall|other: Seq<char>| #[trigger]
                after.contains(other) <==> before.contains(other) || other == key@ by {
                if before.contains(other) {
                    let i = choose|i: int| 0 <= i < before.len() && before[i] == other;
                    assert(after[i] == other);
                }
                assert(after[before.len() as int] == key@);
            }
        }
        match slot {
            Some(slot) => {
                let ghost old_rows = self.rows@;
                self.rows[slot].push(row);
                proof {
                    assert(ints(self.rows@[slot as int]@) =~= ints(
                        old_rows[slot as int]@,
                    ).push(row as int));
                }
            },
            None => {
                let slot: usize = self.keys.len();
                let mut first: Vec<usize> = Vec::new();
                first.push(row);
                proof {
                    lemma_rows_with(before, key@);
                    assert(rows_with(before, key@) =~= Seq::<int>::empty());
                    assert(ints(first@) =~= Seq::<int>::empty().push(row as int));
                }
                self.keys.push(key.to_string());
                self.rows.push(first);
                self.slots.insert(key.to_string(), slot);
            },
        }
        proof {
            self.added@ = after;
        }
    }

    /// The slot of a key, if a row has it.
    pub fn slot_of(&self, key: &str) -> (r: Option<usize>)
        requires
            self.well_formed(),
        ensures
            match r {
                Some(slot) => self@.contains(key@) && slot < self.distinct().len()
                    && self.distinct()[slot as int] == key@,
                None => !self@.contains(key@),
            },
    {
        match self.slots.get(key) {
            Some(slot) => {
                assert(self.slots@.contains_key(key@));
                Some(*slot)
            },
            None => None,
        }
    }

    /// The number of distinct keys.
    pub fn key_count(&self) -> (r: usize)
        ensures
            r == self.distinct().len(),
    {
        self.keys.len()
    }

    /// The key of a slot.
    pub fn key_at(&self, slot: usize) -> (r: &str)
        requires
            slot < self.distinct().len(),
        ensures
            r@ == self.distinct()[slot as int],
    {
        self.keys[slot].as_str()
    }

    /// The rows with the key of a slot, ascending.
    pub fn rows_at(&self, slot: usize) -> (r: &Vec<usize>)
        requires
            self.well_formed(),
            slot < self.distinct().len(),
        ensures
            ints(r@) == rows_with(self@, self.distinct()[slot as int]),
    {
        assert(self.slots@.contains_key(self.keys@[slot as int]@));
        &self.rows[slot]
    }
}

} // verus!
