//! The in-memory collection of task records and its identifier counter.
//!
//! The collection is modelled as a finite map from identifier to record
//! image; the executable representation is a vector whose records carry
//! pairwise distinct identifiers.

use vstd::prelude::*;

use crate::todo::{clone_todo, stored, Status, Todo, TodoView};

verus! {

/// The key under which a record is held: its identifier.
pub open spec fn key_of(t: TodoView) -> u32 {
    t.id->0
}

/// Every record in `s` carries an identifier.
pub open spec fn all_identified(s: Seq<Todo>) -> bool {
    forall|i: int| 0 <= i < s.len() ==> (#[trigger] s[i])@.id is Some
}

/// No two records in `s` share an identifier.
pub open spec fn distinct_ids(s: Seq<Todo>) -> bool {
    forall|i: int, j: int|
        0 <= i < s.len() && 0 <= j < s.len() && i != j ==> key_of(#[trigger] s[i]@) != key_of(
            #[trigger] s[j]@,
        )
}

/// The records of `s`, keyed by identifier; a later record wins a shared key.
pub open spec fn map_of(s: Seq<Todo>) -> Map<u32, TodoView>
    decreases s.len(),
{
    if s.len() == 0 {
        Map::empty()
    } else {
        map_of(s.drop_last()).insert(key_of(s.last()@), s.last()@)
    }
}

/// `r` is a faithful listing of the collection `m`: every record identified,
/// identifiers pairwise distinct, and the records, keyed by identifier, are
/// exactly the entries of `m`.
pub open spec fn snapshot_of(r: Seq<Todo>, m: Map<u32, TodoView>) -> bool {
    &&& all_identified(r)
    &&& distinct_ids(r)
    &&& map_of(r) == m
    &&& r.len() == m.len()
}

proof fn lemma_map_of_contains(s: Seq<Todo>, k: u32)
    ensures
        map_of(s).contains_key(k) <==> (exists|i: int| 0 <= i < s.len() && key_of(s[i]@) == k),
        map_of(s).dom().finite(),
    decreases s.len(),
{
    if s.len() > 0 {
        let dl = s.drop_last();
        lemma_map_of_contains(dl, k);
        assert(forall|i: int| 0 <= i < dl.len() ==> #[trigger] dl[i] == s[i]);
        if key_of(s.last()@) == k {
            assert(key_of(s[s.len() - 1]@) == k);
        } else {
            if map_of(s).contains_key(k) {
                let i = choose|i: int| 0 <= i < dl.len() && key_of(dl[i]@) == k;
                assert(key_of(s[i]@) == k);
            }
            if exists|i: int| 0 <= i < s.len() && key_of(s[i]@) == k {
                let i = choose|i: int| 0 <= i < s.len() && key_of(s[i]@) == k;
                assert(i < s.len() - 1);
                assert(key_of(dl[i]@) == k);
            }
        }
    }
}

proof fn lemma_map_of_len(s: Seq<Todo>)
    requires
        distinct_ids(s),
    ensures
        map_of(s).len() == s.len(),
    decreases s.len(),
{
    if s.len() > 0 {
        let dl = s.drop_last();
        assert(forall|i: int| 0 <= i < dl.len() ==> #[trigger] dl[i] == s[i]);
        assert(distinct_ids(dl));
        lemma_map_of_len(dl);
        let k = key_of(s.last()@);
        lemma_map_of_contains(dl, k);
        assert(!map_of(dl).contains_key(k)) by {
            if exists|i: int| 0 <= i < dl.len() && key_of(dl[i]@) == k {
                let i = choose|i: int| 0 <= i < dl.len() && key_of(dl[i]@) == k;
                assert(key_of(s[i]@) == key_of(s[s.len() - 1]@));
            }
        }
    }
}

proof fn lemma_map_of_update(s: Seq<Todo>, i: int, v: Todo)
    requires
        0 <= i < s.len(),
        distinct_ids(s),
        key_of(v@) == key_of(s[i]@),
    ensures
        map_of(s.update(i, v)) == map_of(s).insert(key_of(v@), v@),
    decreases s.len(),
{
    let t = s.update(i, v);
    let k = key_of(v@);
    if i == s.len() - 1 {
        assert(t.drop_last() =~= s.drop_last());
        assert(t.last() == v);
        assert(map_of(s.drop_last()).insert(k, v@) =~= map_of(s.drop_last()).insert(
            key_of(s.last()@),
            s.last()@,
        ).insert(k, v@));
    } else {
        let dl = s.drop_last();
        assert(forall|j: int| 0 <= j < dl.len() ==> #[trigger] dl[j] == s[j]);
        assert(distinct_ids(dl));
        assert(t.drop_last() =~= dl.update(i, v));
        assert(t.last() == s.last());
        lemma_map_of_update(dl, i, v);
        let kl = key_of(s.last()@);
        assert(k != kl);
        assert(map_of(dl).insert(k, v@).insert(kl, s.last()@) =~= map_of(dl).insert(
            kl,
            s.last()@,
        ).insert(k, v@));
    }
}

proof fn lemma_map_of_remove(s: Seq<Todo>, i: int)
    requires
        0 <= i < s.len(),
        distinct_ids(s),
    ensures
        map_of(s.remove(i)) == map_of(s).remove(key_of(s[i]@)),
    decreases s.len(),
{
    let t = s.remove(i);
    let k = key_of(s[i]@);
    if i == s.len() - 1 {
        assert(t =~= s.drop_last());
        lemma_map_of_contains(s.drop_last(), k);
        assert(!map_of(s.drop_last()).contains_key(k)) by {
            if exists|j: int| 0 <= j < s.drop_last().len() && key_of(s.drop_last()[j]@) == k {
                let j = choose|j: int|
                    0 <= j < s.drop_last().len() && key_of(s.drop_last()[j]@) == k;
                assert(s.drop_last()[j] == s[j]);
                assert(key_of(s[j]@) == key_of(s[s.len() - 1]@));
            }
        }
        assert(map_of(s).remove(k) =~= map_of(s.drop_last()));
    } else {
        let dl = s.drop_last();
        assert(forall|j: int| 0 <= j < dl.len() ==> #[trigger] dl[j] == s[j]);
        assert(distinct_ids(dl));
        assert(t.drop_last() =~= dl.remove(i));
        assert(t.last() == s.last());
        lemma_map_of_remove(dl, i);
        let kl = key_of(s.last()@);
        assert(k != kl);
        assert(map_of(dl).remove(k).insert(kl, s.last()@) =~= map_of(dl).insert(
            kl,
            s.last()@,
        ).remove(k));
    }
}

proof fn lemma_map_of_index(s: Seq<Todo>, i: int)
    requires
        distinct_ids(s),
        0 <= i < s.len(),
    ensures
        map_of(s).contains_key(key_of(s[i]@)),
        map_of(s)[key_of(s[i]@)] == s[i]@,
    decreases s.len(),
{
    let dl = s.drop_last();
    assert(forall|j: int| 0 <= j < dl.len() ==> #[trigger] dl[j] == s[j]);
    if i < s.len() - 1 {
        assert(distinct_ids(dl));
        lemma_map_of_index(dl, i);
        assert(key_of(s[i]@) != key_of(s.last()@));
    }
}

/// A listing can be read entry by entry: each record of a faithful listing
/// of `m` is an entry of `m` under its own identifier, and every entry of
/// `m` appears in the listing.
pub proof fn lemma_snapshot_entries(r: Seq<Todo>, m: Map<u32, TodoView>)
    requires
        snapshot_of(r, m),
    ensures
        forall|i: int|
            0 <= i < r.len() ==> m.contains_key(key_of(#[trigger] r[i]@)) && m[key_of(r[i]@)]
                == r[i]@,
        forall|k: u32| #[trigger]
            m.contains_key(k) ==> exists|i: int| 0 <= i < r.len() && r[i]@ == m[k],
{
    assert forall|i: int| 0 <= i < r.len() implies m.contains_key(key_of(#[trigger] r[i]@))
        && m[key_of(r[i]@)] == r[i]@ by {
        lemma_map_of_index(r, i);
    }
    assert forall|k: u32| #[trigger] m.contains_key(k) implies exists|i: int|
        0 <= i < r.len() && r[i]@ == m[k] by {
        lemma_map_of_contains(r, k);
        let i = choose|i: int| 0 <= i < r.len() && key_of(r[i]@) == k;
        lemma_map_of_index(r, i);
        assert(r[i]@ == m[k]);
    }
}

proof fn lemma_map_of_keyed(s: Seq<Todo>)
    requires
        all_identified(s),
    ensures
        forall|k: u32| map_of(s).contains_key(k) ==> (#[trigger] map_of(s)[k]).id == Some(k),
    decreases s.len(),
{
    if s.len() > 0 {
        let dl = s.drop_last();
        assert(forall|i: int| 0 <= i < dl.len() ==> #[trigger] dl[i] == s[i]);
        lemma_map_of_keyed(dl);
        assert(s.last()@.id is Some);
    }
}

/// The authoritative collection of task records, plus the counter from which
/// created records take their identifiers.
pub struct Store {
    items: Vec<Todo>,
    next_id: u32,
}

impl Store {
    /// The collection, keyed by identifier.
    pub closed spec fn todos(&self) -> Map<u32, TodoView> {
        map_of(self.items@)
    }

    /// The counter value: the identifier the next created record receives.
    pub closed spec fn counter(&self) -> u32 {
        self.next_id
    }

    /// Internal consistency: every held record is identified, identifiers
    /// are pairwise distinct, and each record is keyed by its own identifier.
    pub closed spec fn wf(&self) -> bool {
        all_identified(self.items@) && distinct_ids(self.items@)
    }

    /// Every record held in the collection has its identifier equal to the
    /// key it is stored under.
    pub proof fn lemma_keyed_by_id(&self)
        requires
            self.wf(),
        ensures
            forall|k: u32|
                self.todos().contains_key(k) ==> (#[trigger] self.todos()[k]).id == Some(k),
    {
        lemma_map_of_keyed(self.items@);
    }

    /// A fresh, empty store whose counter starts at 1.
    pub fn new() -> (s: Store)
        ensures
            s.wf(),
            s.todos() == Map::<u32, TodoView>::empty(),
            s.counter() == 1,
    {
        Store { items: Vec::new(), next_id: 1 }
    }

    /// The identifier the next created record will receive.
    pub fn next_id(&self) -> (n: u32)
        ensures
            n == self.counter(),
    {
        self.next_id
    }

    fn find_index(&self, id: u32) -> (r: Option<usize>)
        ensures
            match r {
                Some(i) => i < self.items@.len() && self.items@[i as int]@.id == Some(id),
                None => forall|i: int| 0 <= i < self.items@.len() ==> (#[trigger] self.items@[i])@.id
                    != Some(id),
            },
    {
        let n = self.items.len();
        let mut i: usize = 0;
        while i < n
            invariant
                n == self.items@.len(),
                i <= n,
                forall|j: int| 0 <= j < i ==> (#[trigger] self.items@[j])@.id != Some(id),
            decreases n - i,
        {
            let hit = match self.items[i].id {
                Some(k) => k == id,
                None => false,
            };
            if hit {
                return Some(i);
            }
            i += 1;
        }
        None
    }

    /// Snapshot of the current collection; order unspecified.
    pub fn list(&self) -> (r: Vec<Todo>)
        requires
            self.wf(),
        ensures
            snapshot_of(r@, self.todos()),
    {
        let n = self.items.len();
        let mut r: Vec<Todo> = Vec::new();
        let mut i: usize = 0;
        while i < n
            invariant
                n == self.items@.len(),
                i <= n,
                r@.len() == i,
                forall|j: int| 0 <= j < i ==> #[trigger] r@[j] == self.items@[j],
            decreases n - i,
        {
            r.push(clone_todo(&self.items[i]));
            i += 1;
        }
        proof {
            assert(r@ =~= self.items@);
            lemma_map_of_len(self.items@);
        }
        r
    }

    /// Insert or overwrite the record under `id`, leaving the counter as it
    /// is.
    fn upsert(&mut self, id: u32, text: String, status: Status)
        requires
            old(self).wf(),
        ensures
            final(self).wf(),
            final(self).todos() == old(self).todos().insert(id, stored(id, text@, status)),
            final(self).counter() == old(self).counter(),
    {
        let todo = Todo { id: Some(id), text, status };
        let ghost v = todo@;
        match self.find_index(id) {
            Some(i) => {
                let ghost s = self.items@;
                self.items[i] = todo;
                proof {
                    lemma_map_of_update(s, i as int, final(self).items@[i as int]);
                    assert(all_identified(final(self).items@));
                    assert(distinct_ids(final(self).items@));
                }
            },
            None => {
                let ghost s = self.items@;
                self.items.push(todo);
                proof {
                    assert(final(self).items@.drop_last() =~= s);
                    assert(final(self).items@.last()@ == v);
                    assert(all_identified(final(self).items@));
                    assert forall|i: int, j: int|
                        0 <= i < final(self).items@.len() && 0 <= j < final(self).items@.len() && i
                            != j implies key_of(final(self).items@[i]@) != key_of(
                        final(self).items@[j]@,
                    ) by {
                        if i == s.len() as int {
                            assert(s[j]@.id != Some(id));
                        } else if j == s.len() as int {
                            assert(s[i]@.id != Some(id));
                        }
                    }
                }
            },
        }
    }

    /// Insert a freshly identified record and advance the counter: the new
    /// record takes the current counter value as its identifier, and the
    /// counter moves up by one.  Returns the resulting full collection.
    pub fn create(&mut self, text: String, status: Status) -> (r: Vec<Todo>)
        requires
            old(self).wf(),
            old(self).counter() < u32::MAX,
        ensures
            final(self).wf(),
            final(self).todos() == old(self).todos().insert(
                old(self).counter(),
                stored(old(self).counter(), text@, status),
            ),
            final(self).counter() == old(self).counter() + 1,
            snapshot_of(r@, final(self).todos()),
    {
        let id = self.next_id;
        self.upsert(id, text, status);
        self.next_id = id + 1;
        self.list()
    }

    /// Insert or overwrite the record under `id` (upsert: an absent
    /// identifier is created).  Returns the resulting full collection.
    pub fn update(&mut self, id: u32, text: String, status: Status) -> (r: Vec<Todo>)
        requires
            old(self).wf(),
        ensures
            final(self).wf(),
            final(self).todos() == old(self).todos().insert(id, stored(id, text@, status)),
            final(self).counter() == old(self).counter(),
            snapshot_of(r@, final(self).todos()),
    {
        self.upsert(id, text, status);
        self.list()
    }

    /// Remove the record under `id`; an absent identifier is a no-op, not an
    /// error.  Returns the resulting full collection.
    pub fn delete(&mut self, id: u32) -> (r: Vec<Todo>)
        requires
            old(self).wf(),
        ensures
            final(self).wf(),
            final(self).todos() == old(self).todos().remove(id),
            final(self).counter() == old(self).counter(),
            snapshot_of(r@, final(self).todos()),
    {
        match self.find_index(id) {
            Some(i) => {
                let ghost s = self.items@;
                self.items.remove(i);
                proof {
                    lemma_map_of_remove(s, i as int);
                    assert(s[i as int]@.id == Some(id));
                    assert(key_of(s[i as int]@) == id);
                    assert(forall|j: int|
                        0 <= j < final(self).items@.len() ==> #[trigger] final(self).items@[j]
                            == if j < i as int {
                            s[j]
                        } else {
                            s[j + 1]
                        });
                    assert(all_identified(final(self).items@));
                    assert(distinct_ids(final(self).items@));
                }
            },
            None => {
                proof {
                    lemma_map_of_contains(self.items@, id);
                    assert(!map_of(self.items@).contains_key(id)) by {
                        if exists|j: int|
                            0 <= j < self.items@.len() && key_of(self.items@[j]@) == id {
                            let j = choose|j: int|
                                0 <= j < self.items@.len() && key_of(self.items@[j]@) == id;
                            assert(self.items@[j]@.id is Some);
                        }
                    }
                    assert(map_of(self.items@).remove(id) =~= map_of(self.items@));
                }
            },
        }
        self.list()
    }
}

} // verus!
