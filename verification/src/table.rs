//! A table from byte strings to values, for the few entries that a guild
//! holds: a list that is searched from its end.

use vstd::prelude::*;

verus! {

/// The mapping that a list of entries stands for: of two entries with one
/// key the later one counts.
pub open spec fn table_of<V>(entries: Seq<(Vec<u8>, V)>) -> Map<Seq<u8>, V>
    decreases entries.len(),
{
    if entries.len() == 0 {
        Map::empty()
    } else {
        table_of(entries.drop_last()).insert(entries.last().0@, entries.last().1)
    }
}

/// Whether `i` is the place of the last entry with the key `key`.
pub open spec fn last_match<V>(entries: Seq<(Vec<u8>, V)>, key: Seq<u8>, i: int) -> bool {
    &&& 0 <= i < entries.len()
    &&& entries[i].0@ == key
    &&& forall|j: int| i < j < entries.len() ==> entries[j].0@ != key
}

/// The last entry with a key is what the table holds under the key.
pub proof fn lemma_table_found<V>(entries: Seq<(Vec<u8>, V)>, key: Seq<u8>, i: int)
    requires
        last_match(entries, key, i),
    ensures
        table_of(entries).contains_key(key),
        table_of(entries)[key] == entries[i].1,
    decreases entries.len(),
{
    if i < entries.len() - 1 {
        lemma_table_found(entries.drop_last(), key, i);
    }
}

/// A key of no entry is no key of the table.
pub proof fn lemma_table_missing<V>(entries: Seq<(Vec<u8>, V)>, key: Seq<u8>)
    requires
        forall|j: int| 0 <= j < entries.len() ==> entries[j].0@ != key,
    ensures
        !table_of(entries).contains_key(key),
    decreases entries.len(),
{
    if entries.len() > 0 {
        lemma_table_missing(entries.drop_last(), key);
    }
}

/// Taking an entry out changes the table under the key of that entry alone.
pub proof fn lemma_table_without<V>(entries: Seq<(Vec<u8>, V)>, i: int)
    requires
        0 <= i < entries.len(),
    ensures
        table_of(entries.remove(i)).remove(entries[i].0@) == table_of(entries).remove(
            entries[i].0@,
        ),
    decreases entries.len(),
{
    let key = entries[i].0@;
    if i == entries.len() - 1 {
        assert(entries.remove(i) =~= entries.drop_last());
        assert(table_of(entries.drop_last()).remove(key) =~= table_of(entries).remove(key));
    } else {
        let front = entries.drop_last();
        let shorter = entries.remove(i);
        assert(front.len() == entries.len() - 1);
        assert(front[i] == entries[i]);
        lemma_table_without(front, i);
        assert(shorter.len() == entries.len() - 1);
        assert(shorter.drop_last() =~= front.remove(i));
        assert(shorter.last() == entries.last());
        let a = table_of(front.remove(i));
        let b = table_of(front);
        assert(a.remove(key) == b.remove(key));
        assert(table_of(shorter) == a.insert(entries.last().0@, entries.last().1));
        assert(table_of(entries) == b.insert(entries.last().0@, entries.last().1));
        let left = table_of(shorter).remove(key);
        let right = table_of(entries).remove(key);
        assert forall|k: Seq<u8>| #[trigger] left.dom().contains(k) == right.dom().contains(
            k,
        ) by {
            if k != key && k != entries.last().0@ {
                assert(a.dom().contains(k) == a.remove(key).dom().contains(k));
                assert(b.dom().contains(k) == b.remove(key).dom().contains(k));
            }
        }
        assert(left.dom() =~= right.dom());
        assert forall|k: Seq<u8>| left.dom().contains(k) implies #[trigger] left[k] == right[k] by {
            if k != key && k != entries.last().0@ {
                assert(a.dom().contains(k) == a.remove(key).dom().contains(k));
                assert(b.dom().contains(k) == b.remove(key).dom().contains(k));
                assert(a[k] == a.remove(key)[k]);
                assert(b[k] == b.remove(key)[k]);
            }
        }
        assert(left =~= right);
    }
}

/// A table from byte strings to values.
pub struct Table<V> {
    entries: Vec<(Vec<u8>, V)>,
}

impl<V> View for Table<V> {
    type V = Map<Seq<u8>, V>;

    closed spec fn view(&self) -> Map<Seq<u8>, V> {
        table_of(self.entries@)
    }
}

/// Whether two byte strings are the same.
pub fn same_bytes(a: &[u8], b: &[u8]) -> (r: bool)
    ensures
        r == (a@ == b@),
{
    if a.len() != b.len() {
        return false;
    }
    let mut i: usize = 0;
    while i < a.len()
        invariant
            i <= a@.len() == b@.len(),
            forall|j: int| 0 <= j < i ==> a@[j] == b@[j],
        decreases a@.len() - i,
    {
        if a[i] != b[i] {
            return false;
        }
        i = i + 1;
    }
    proof {
        assert(a@ =~= b@);
    }
    true
}

impl<V> Table<V> {
    /// A table without entries.
    pub fn new() -> (r: Self)
        ensures
            r@ == Map::<Seq<u8>, V>::empty(),
    {
        Table { entries: Vec::new() }
    }

    /// The place of the last entry with the key `key`.
    fn find(&self, key: &[u8]) -> (r: Option<usize>)
        ensures
            match r {
                Some(i) => last_match(self.entries@, key@, i as int),
                None => forall|j: int| 0 <= j < self.entries@.len() ==> self.entries@[j].0@ != key@,
            },
    {
        let mut i: usize = self.entries.len();
        while i > 0
            invariant
                i <= self.entries@.len(),
                forall|j: int| i <= j < self.entries@.len() ==> self.entries@[j].0@ != key@,
            decreases i,
        {
            i = i - 1;
            if same_bytes(self.entries[i].0.as_slice(), key) {
                return Some(i);
            }
        }
        None
    }

    /// The value under `key`.
    pub fn get(&self, key: &[u8]) -> (r: Option<&V>)
        ensures
            r == (if self@.contains_key(key@) {
                Some(&self@[key@])
            } else {
                None
            }),
    {
        match self.find(key) {
            Some(i) => {
                proof {
                    lemma_table_found(self.entries@, key@, i as int);
                }
                Some(&self.entries[i].1)
            },
            None => {
                proof {
                    lemma_table_missing(self.entries@, key@);
                }
                None
            },
        }
    }

    /// Whether there is a value under `key`.
    pub fn contains_key(&self, key: &[u8]) -> (r: bool)
        ensures
            r == self@.contains_key(key@),
    {
        self.get(key).is_some()
    }

    /// Takes out what is under `key` and gives it back.
    pub fn remove(&mut self, key: &[u8]) -> (r: Option<V>)
        ensures
            final(self)@ == old(self)@.remove(key@),
            r == (if old(self)@.contains_key(key@) {
                Some(old(self)@[key@])
            } else {
                None
            }),
    {
        let mut taken: Option<V> = None;
        loop
            invariant
                self@.remove(key@) == old(self)@.remove(key@),
                taken == (if old(self)@.contains_key(key@) && (taken is Some || !self@.contains_key(
                    key@,
                )) {
                    Some(old(self)@[key@])
                } else {
                    None::<V>
                }),
                taken is None ==> self@ == old(self)@,
                taken is Some ==> old(self)@.contains_key(key@),
            ensures
                !self@.contains_key(key@),
                self@.remove(key@) == old(self)@.remove(key@),
                taken == (if old(self)@.contains_key(key@) {
                    Some(old(self)@[key@])
                } else {
                    None::<V>
                }),
            decreases self.entries@.len(),
        {
            match self.find(key) {
                Some(i) => {
                    proof {
                        lemma_table_found(self.entries@, key@, i as int);
                        lemma_table_without(self.entries@, i as int);
                    }
                    let entry = self.entries.remove(i);
                    if taken.is_none() {
                        taken = Some(entry.1);
                    }
                },
                None => {
                    proof {
                        lemma_table_missing(self.entries@, key@);
                    }
                    break ;
                },
            }
        }
        proof {
            assert(self@.remove(key@) =~= self@);
        }
        taken
    }

    /// Puts `value` under `key`, in place of what was there.
    pub fn insert(&mut self, key: Vec<u8>, value: V)
        ensures
            final(self)@ == old(self)@.insert(key@, value),
    {
        let _ = self.remove(key.as_slice());
        let ghost before = self.entries@;
        self.entries.push((key, value));
        proof {
            assert(self.entries@.drop_last() =~= before);
            assert(self@ =~= old(self)@.insert(key@, value));
        }
    }
}

} // verus!
