//! A dictionary that counts texts, and keeps them in the order in which
//! they were first counted.

use vstd::prelude::*;

verus! {

/// The entries of a dictionary as plain values: each key with its count.
pub type Entries = Seq<(Seq<char>, i32)>;

/// No key stands in two entries.
pub open spec fn distinct_keys(entries: Entries) -> bool {
    forall|i: int, j: int|
        0 <= i < entries.len() && 0 <= j < entries.len() && i != j ==> (#[trigger] entries[i]).0 != (
        #[trigger] entries[j]).0
}

/// The key has an entry.
pub open spec fn has_key(entries: Entries, key: Seq<char>) -> bool {
    exists|i: int| 0 <= i < entries.len() && (#[trigger] entries[i]).0 == key
}

/// The index of the entry of a key that has one.
pub open spec fn index_of_key(entries: Entries, key: Seq<char>) -> int {
    choose|i: int| 0 <= i < entries.len() && (#[trigger] entries[i]).0 == key
}

/// The count of a key; 0 where it has no entry.
pub open spec fn count_of(entries: Entries, key: Seq<char>) -> int {
    if has_key(entries, key) {
        entries[index_of_key(entries, key)].1 as int
    } else {
        0
    }
}

/// The entries after `amount` was added to the count of a key: its entry is
/// changed where it stands, and a key without entry gets one at the end.
pub open spec fn added(entries: Entries, key: Seq<char>, amount: int) -> Entries {
    if has_key(entries, key) {
        entries.update(
            index_of_key(entries, key),
            (key, (count_of(entries, key) + amount) as i32),
        )
    } else {
        entries.push((key, amount as i32))
    }
}

/// The count of a key can take `amount` more.
pub open spec fn has_room(entries: Entries, key: Seq<char>, amount: int) -> bool {
    i32::MIN <= count_of(entries, key) + amount <= i32::MAX
}

/// The entries after each of the keys was counted once, in order.
pub open spec fn counted(entries: Entries, keys: Seq<Seq<char>>) -> Entries
    decreases keys.len(),
{
    if keys.len() == 0 {
        entries
    } else {
        added(counted(entries, keys.drop_last()), keys.last(), 1)
    }
}

/// Each of the keys can be counted once, in order.
pub open spec fn can_count(entries: Entries, keys: Seq<Seq<char>>) -> bool
    decreases keys.len(),
{
    keys.len() > 0 ==> can_count(entries, keys.drop_last()) && has_room(
        counted(entries, keys.drop_last()),
        keys.last(),
        1,
    )
}

/// The entries after the counts of `other` were added, entry by entry.
pub open spec fn merged(entries: Entries, other: Entries) -> Entries
    decreases other.len(),
{
    if other.len() == 0 {
        entries
    } else {
        added(merged(entries, other.drop_last()), other.last().0, other.last().1 as int)
    }
}

/// The counts of `other` can be added, entry by entry.
pub open spec fn can_merge(entries: Entries, other: Entries) -> bool
    decreases other.len(),
{
    other.len() > 0 ==> can_merge(entries, other.drop_last()) && has_room(
        merged(entries, other.drop_last()),
        other.last().0,
        other.last().1 as int,
    )
}

/// In entries with distinct keys, the entry at `i` is the entry of its key.
pub proof fn lemma_index_of_key(entries: Entries, i: int)
    requires
        distinct_keys(entries),
        0 <= i < entries.len(),
    ensures
        has_key(entries, entries[i].0),
        index_of_key(entries, entries[i].0) == i,
        count_of(entries, entries[i].0) == entries[i].1,
{
    let key = entries[i].0;
    let chosen = index_of_key(entries, key);
    assert(0 <= chosen < entries.len() && entries[chosen].0 == key);
}

/// Adding to a count keeps the keys distinct, changes the count of that key
/// alone, and gives an entry to that key alone.
pub proof fn lemma_added(entries: Entries, key: Seq<char>, amount: int, other: Seq<char>)
    requires
        distinct_keys(entries),
        has_room(entries, key, amount),
    ensures
        distinct_keys(added(entries, key, amount)),
        has_key(added(entries, key, amount), key),
        count_of(added(entries, key, amount), key) == count_of(entries, key) + amount,
        other != key ==> has_key(added(entries, key, amount), other) == has_key(entries, other),
        other != key ==> count_of(added(entries, key, amount), other) == count_of(entries, other),
{
    let after = added(entries, key, amount);
    if has_key(entries, key) {
        let p = index_of_key(entries, key);
        assert(0 <= p < entries.len() && entries[p].0 == key);
        assert(after[p].0 == key);
        assert forall|i: int, j: int|
            0 <= i < after.len() && 0 <= j < after.len() && i != j implies (#[trigger] after[i]).0
            != (#[trigger] after[j]).0 by {
            assert(after[i].0 == entries[i].0);
            assert(after[j].0 == entries[j].0);
        }
        lemma_index_of_key(after, p);
        if other != key {
            if has_key(entries, other) {
                let q = index_of_key(entries, other);
                assert(0 <= q < entries.len() && entries[q].0 == other);
                assert(after[q] == entries[q]);
                lemma_index_of_key(after, q);
            }
            if has_key(after, other) {
                let q = index_of_key(after, other);
                assert(0 <= q < after.len() && after[q].0 == other);
                assert(entries[q].0 == other);
            }
        }
    } else {
        let p = entries.len() as int;
        assert(after[p].0 == key);
        assert forall|i: int, j: int|
            0 <= i < after.len() && 0 <= j < after.len() && i != j implies (#[trigger] after[i]).0
            != (#[trigger] after[j]).0 by {
            if i < p {
                assert(after[i] == entries[i]);
            }
            if j < p {
                assert(after[j] == entries[j]);
            }
        }
        lemma_index_of_key(after, p);
        if other != key {
            if has_key(entries, other) {
                let q = index_of_key(entries, other);
                assert(0 <= q < entries.len() && entries[q].0 == other);
                assert(after[q] == entries[q]);
                lemma_index_of_key(after, q);
            }
            if has_key(after, other) {
                let q = index_of_key(after, other);
                assert(0 <= q < after.len() && after[q].0 == other);
                assert(entries[q].0 == other);
            }
        }
    }
}

/// A dictionary of counts.
#[derive(Debug)]
pub struct Dictionary {
    entries: Vec<(String, i32)>,
}

impl View for Dictionary {
    type V = Entries;

    closed spec fn view(&self) -> Entries {
        Seq::new(self.entries.len() as nat, |i: int| (self.entries[i].0@, self.entries[i].1))
    }
}

impl Dictionary {
    #[verifier::type_invariant]
    spec fn keys_are_distinct(&self) -> bool {
        distinct_keys(self@)
    }

    /// A dictionary without entries.
    pub fn new() -> (r: Dictionary)
        ensures
            r@ == Entries::empty(),
    {
        let r = Dictionary { entries: Vec::new() };
        assert(r@ =~= Entries::empty());
        r
    }

    /// The number of entries. No key stands in two of them.
    pub fn len(&self) -> (n: usize)
        ensures
            n == self@.len(),
            distinct_keys(self@),
    {
        proof {
            use_type_invariant(self);
        }
        self.entries.len()
    }

    /// The key of the entry at `i`.
    pub fn key_at(&self, i: usize) -> (r: &str)
        requires
            i < self@.len(),
        ensures
            r@ == self@[i as int].0,
    {
        self.entries[i].0.as_str()
    }

    /// The count of the entry at `i`.
    pub fn count_at(&self, i: usize) -> (r: i32)
        requires
            i < self@.len(),
        ensures
            r == self@[i as int].1,
    {
        self.entries[i].1
    }

    /// The index of the entry of a key, if it has one.
    pub fn find(&self, key: &str) -> (r: Option<usize>)
        ensures
            r is Some <==> has_key(self@, key@),
            r is Some ==> r->0 == index_of_key(self@, key@) && r->0 < self@.len(),
    {
        proof {
            use_type_invariant(self);
        }
        let wanted = key.to_owned();
        let mut i: usize = 0;
        while i < self.entries.len()
            invariant
                i <= self.entries.len(),
                wanted@ == key@,
                distinct_keys(self@),
                forall|k: int| 0 <= k < i ==> (#[trigger] self@[k]).0 != key@,
            decreases self.entries.len() - i,
        {
            if self.entries[i].0 == wanted {
                proof {
                    assert(self@[i as int].0 == key@);
                    lemma_index_of_key(self@, i as int);
                }
                return Some(i);
            }
            i += 1;
        }
        None
    }

    /// The count of a key; 0 where it has no entry.
    pub fn get(&self, key: &str) -> (r: i32)
        ensures
            r == count_of(self@, key@),
    {
        match self.find(key) {
            Some(i) => self.entries[i].1,
            None => 0,
        }
    }

    /// Adds `amount` to the count of a key.
    pub fn add(&mut self, key: String, amount: i32)
        requires
            has_room(old(self)@, key@, amount as int),
        ensures
            final(self)@ == added(old(self)@, key@, amount as int),
    {
        proof {
            use_type_invariant(&*self);
            lemma_added(self@, key@, amount as int, key@);
        }
        let found = self.find(key.as_str());
        let mut entries: Vec<(String, i32)> = Vec::new();
        std::mem::swap(&mut self.entries, &mut entries);
        match found {
            Some(i) => {
                let count = entries[i].1;
                entries[i] = (key, count + amount);
            },
            None => {
                entries.push((key, amount));
            },
        }
        assert(Seq::new(entries.len() as nat, |i: int| (entries[i].0@, entries[i].1)) =~= added(
            old(self)@,
            key@,
            amount as int,
        ));
        std::mem::swap(&mut self.entries, &mut entries);
    }

    /// Whether each of the keys can be counted once.
    pub fn has_room_for(&self, keys: &Vec<String>) -> (r: bool)
        ensures
            r == can_count(self@, keys.deep_view()),
    {
        let mut probe = self.clone();
        let ghost ks = keys.deep_view();
        let mut i: usize = 0;
        assert(ks.take(0) =~= Seq::<Seq<char>>::empty());
        while i < keys.len()
            invariant
                i <= keys.len(),
                ks == keys.deep_view(),
                can_count(self@, ks.take(i as int)),
                probe@ == counted(self@, ks.take(i as int)),
            decreases keys.len() - i,
        {
            assert(ks.take(i + 1).drop_last() =~= ks.take(i as int));
            if probe.get(keys[i].as_str()) == i32::MAX {
                proof {
                    lemma_can_count_prefix(self@, ks, i + 1);
                }
                return false;
            }
            probe.add(keys[i].clone(), 1);
            i += 1;
        }
        assert(ks.take(keys.len() as int) =~= ks);
        true
    }

    /// Counts each of the keys once, in order.
    pub fn count_all(&mut self, keys: &Vec<String>)
        requires
            can_count(old(self)@, keys.deep_view()),
        ensures
            final(self)@ == counted(old(self)@, keys.deep_view()),
    {
        let ghost ks = keys.deep_view();
        let mut i: usize = 0;
        assert(ks.take(0) =~= Seq::<Seq<char>>::empty());
        while i < keys.len()
            invariant
                i <= keys.len(),
                ks == keys.deep_view(),
                can_count(old(self)@, ks),
                self@ == counted(old(self)@, ks.take(i as int)),
            decreases keys.len() - i,
        {
            proof {
                assert(ks.take(i + 1).drop_last() =~= ks.take(i as int));
                lemma_can_count_prefix(old(self)@, ks, i + 1);
            }
            self.add(keys[i].clone(), 1);
            i += 1;
        }
        assert(ks.take(keys.len() as int) =~= ks);
    }

    /// Whether the counts of `other` can be added.
    pub fn has_room_for_all(&self, other: &Dictionary) -> (r: bool)
        ensures
            r == can_merge(self@, other@),
    {
        let mut probe = self.clone();
        let ghost es = other@;
        let mut i: usize = 0;
        assert(es.take(0) =~= Entries::empty());
        while i < other.len()
            invariant
                i <= other@.len(),
                es == other@,
                can_merge(self@, es.take(i as int)),
                probe@ == merged(self@, es.take(i as int)),
            decreases other@.len() - i,
        {
            assert(es.take(i + 1).drop_last() =~= es.take(i as int));
            let amount = other.count_at(i);
            let count = probe.get(other.key_at(i));
            let fits = if amount >= 0 {
                count <= i32::MAX - amount
            } else {
                count >= i32::MIN - amount
            };
            if !fits {
                proof {
                    lemma_can_merge_prefix(self@, es, i + 1);
                }
                return false;
            }
            probe.add(other.key_at(i).to_owned(), amount);
            i += 1;
        }
        assert(es.take(other@.len() as int) =~= es);
        true
    }

    /// Adds the counts of `other`, entry by entry.
    pub fn merge(&mut self, other: &Dictionary)
        requires
            can_merge(old(self)@, other@),
        ensures
            final(self)@ == merged(old(self)@, other@),
    {
        let ghost es = other@;
        let mut i: usize = 0;
        assert(es.take(0) =~= Entries::empty());
        while i < other.len()
            invariant
                i <= other@.len(),
                es == other@,
                can_merge(old(self)@, es),
                self@ == merged(old(self)@, es.take(i as int)),
            decreases other@.len() - i,
        {
            proof {
                assert(es.take(i + 1).drop_last() =~= es.take(i as int));
                lemma_can_merge_prefix(old(self)@, es, i + 1);
            }
            self.add(other.key_at(i).to_owned(), other.count_at(i));
            i += 1;
        }
        assert(es.take(other@.len() as int) =~= es);
    }

    /// The entries, each key with its count, in their order.
    pub fn entries(&self) -> (r: Vec<(String, i32)>)
        ensures
            r.len() == self@.len(),
            forall|i: int| 0 <= i < r.len() ==> (#[trigger] r[i]).0@ == self@[i].0 && r[i].1 == self@[i].1,
    {
        let mut r: Vec<(String, i32)> = Vec::new();
        let mut i: usize = 0;
        while i < self.entries.len()
            invariant
                i <= self.entries.len(),
                r.len() == i,
                forall|k: int|
                    0 <= k < i ==> (#[trigger] r[k]).0@ == self@[k].0 && r[k].1 == self@[k].1,
            decreases self.entries.len() - i,
        {
            r.push((self.entries[i].0.clone(), self.entries[i].1));
            i += 1;
        }
        r
    }
}

impl Clone for Dictionary {
    fn clone(&self) -> (r: Self)
        ensures
            r@ == self@,
    {
        proof {
            use_type_invariant(self);
        }
        let mut entries: Vec<(String, i32)> = Vec::new();
        let mut i: usize = 0;
        while i < self.entries.len()
            invariant
                i <= self.entries.len(),
                entries.len() == i,
                forall|k: int|
                    0 <= k < i ==> (#[trigger] entries[k]).0@ == self@[k].0 && entries[k].1
                        == self@[k].1,
            decreases self.entries.len() - i,
        {
            entries.push((self.entries[i].0.clone(), self.entries[i].1));
            i += 1;
        }
        let ghost copy = Seq::new(entries.len() as nat, |i: int| (entries[i].0@, entries[i].1));
        assert(copy =~= self@);
        Dictionary { entries }
    }
}

/// Where keys can be counted, the first of them can.
pub proof fn lemma_can_count_prefix(entries: Entries, keys: Seq<Seq<char>>, n: int)
    requires
        0 <= n <= keys.len(),
    ensures
        can_count(entries, keys) ==> can_count(entries, keys.take(n)),
    decreases keys.len(),
{
    if n < keys.len() {
        lemma_can_count_prefix(entries, keys.drop_last(), n);
        assert(keys.drop_last().take(n) =~= keys.take(n));
    } else {
        assert(keys.take(n) =~= keys);
    }
}

/// Where entries can be merged, the first of them can.
pub proof fn lemma_can_merge_prefix(entries: Entries, other: Entries, n: int)
    requires
        0 <= n <= other.len(),
    ensures
        can_merge(entries, other) ==> can_merge(entries, other.take(n)),
    decreases other.len(),
{
    if n < other.len() {
        lemma_can_merge_prefix(entries, other.drop_last(), n);
        assert(other.drop_last().take(n) =~= other.take(n));
    } else {
        assert(other.take(n) =~= other);
    }
}

} // verus!
