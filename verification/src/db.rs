//! Partitions of the identifier space and the store-level descriptor.  A
//! partition is a named, bounded, monotonically increasing range of entity
//! identifiers; allocation is a pure cursor bump and never reuses or skips
//! identifiers.

use vstd::prelude::*;
use core::ops::Range;
use crate::assoc::{assoc_map, distinct_keys, lemma_assoc_map_domain, lemma_assoc_map_entry,
    lemma_assoc_map_push, lemma_assoc_map_update};
use crate::types::{Entid, Schema};

verus! {

/// Represents one partition of the entid space.
#[derive(Clone, Copy, Debug, Hash, PartialEq, Eq, Structural)]
pub struct Partition {
    /// The first entid in the partition.
    pub start: Entid,
    /// Maximum allowed entid in the partition.
    pub end: Entid,
    /// `true` if entids in the partition can be excised.
    pub allow_excision: bool,
    /// The next entid to be allocated in the partition.  Prefer the provided
    /// setter and getter helpers over touching this directly.
    pub next_entid_to_allocate: Entid,
}

impl Partition {
    /// A partition represents a monotonically increasing sequence of entids:
    /// the cursor always sits between the bounds.
    pub open spec fn wf(self) -> bool {
        self.start <= self.next_entid_to_allocate <= self.end
    }

    /// Whether `n` more identifiers fit: the cursor would stay within the
    /// bounds, and the count fits the identifier arithmetic.
    pub open spec fn has_room(self, n: int) -> bool {
        self.next_entid_to_allocate + n <= self.end && n <= i64::MAX
    }

    pub fn new(start: Entid, end: Entid, next_entid_to_allocate: Entid, allow_excision: bool) -> (p:
        Partition)
        requires
            start <= next_entid_to_allocate <= end,
        ensures
            p == (Partition { start, end, allow_excision, next_entid_to_allocate }),
            p.wf(),
    {
        Partition { start, end, allow_excision, next_entid_to_allocate }
    }

    /// Whether the partition has already handed this entid out.
    pub fn contains_entid(&self, e: Entid) -> (r: bool)
        ensures
            r == (self.start <= e < self.next_entid_to_allocate),
    {
        (e >= self.start) && (e < self.next_entid_to_allocate)
    }

    /// Whether this entid lies within the partition's bounds.
    pub fn allows_entid(&self, e: Entid) -> (r: bool)
        ensures
            r == (self.start <= e <= self.end),
    {
        (e >= self.start) && (e <= self.end)
    }

    pub fn next_entid(&self) -> (e: Entid)
        ensures
            e == self.next_entid_to_allocate,
    {
        self.next_entid_to_allocate
    }

    /// Move the allocation cursor.  The index must be within the partition's
    /// allocated space.
    pub fn set_next_entid(&mut self, e: Entid)
        requires
            old(self).start <= e <= old(self).end,
        ensures
            *final(self) == (Partition { next_entid_to_allocate: e, ..*old(self) }),
            final(self).wf(),
    {
        self.next_entid_to_allocate = e;
    }

    /// Hand out `n` fresh contiguous entids: the range starting at the old
    /// cursor, which must not be pushed past the partition's end.
    pub fn allocate_entids(&mut self, n: usize) -> (r: Range<i64>)
        requires
            old(self).wf(),
            old(self).next_entid_to_allocate as int + n as int <= old(self).end as int,
            n as int <= i64::MAX as int,
        ensures
            r.start == old(self).next_entid_to_allocate,
            r.end as int == r.start as int + n as int,
            *final(self) == (Partition { next_entid_to_allocate: r.end, ..*old(self) }),
            final(self).wf(),
    {
        let idx = self.next_entid();
        self.set_next_entid(idx + n as i64);
        idx..self.next_entid()
    }
}

/// The key/value shape of a partition map's entries: names as character
/// sequences.
pub open spec fn partition_entries_kv(s: Seq<(String, Partition)>) -> Seq<(Seq<char>, Partition)> {
    s.map_values(|p: (String, Partition)| (p.0@, p.1))
}

/// Map partition names to [`Partition`] instances.  Created at store-open
/// time; mutated only by allocation.
pub struct PartitionMap {
    entries: Vec<(String, Partition)>,
}

impl View for PartitionMap {
    type V = Map<Seq<char>, Partition>;

    closed spec fn view(&self) -> Map<Seq<char>, Partition> {
        assoc_map(partition_entries_kv(self.entries@))
    }
}

impl PartitionMap {
    /// The entries carry pairwise-distinct partition names.
    pub closed spec fn wf(self) -> bool {
        distinct_keys(partition_entries_kv(self.entries@))
    }

    pub fn new() -> (m: PartitionMap)
        ensures
            m@ == Map::<Seq<char>, Partition>::empty(),
            m.wf(),
    {
        PartitionMap { entries: Vec::new() }
    }

    /// Add a partition under a name not yet present.
    pub fn insert(&mut self, name: String, partition: Partition)
        requires
            old(self).wf(),
            !old(self)@.contains_key(name@),
        ensures
            final(self)@ == old(self)@.insert(name@, partition),
            final(self).wf(),
    {
        proof {
            lemma_assoc_map_push(partition_entries_kv(self.entries@), name@, partition);
            assert(partition_entries_kv(self.entries@.push((name, partition))) =~= partition_entries_kv(
                self.entries@,
            ).push((name@, partition)));
        }
        self.entries.push((name, partition));
    }

    /// Look a partition up by name.
    #[verifier::loop_isolation(false)]
    pub fn get(&self, name: &String) -> (r: Option<Partition>)
        requires
            self.wf(),
        ensures
            r == if self@.contains_key(name@) {
                Some(self@[name@])
            } else {
                None::<Partition>
            },
    {
        proof {
            lemma_assoc_map_domain(partition_entries_kv(self.entries@));
        }
        let n = self.entries.len();
        let mut i: usize = 0;
        while i < n
            invariant
                n == self.entries@.len(),
                i <= n,
                self.wf(),
                forall|j: int| 0 <= j < i ==> partition_entries_kv(self.entries@)[j].0 != name@,
            decreases n - i,
        {
            if self.entries[i].0.eq(name) {
                proof {
                    lemma_assoc_map_entry(partition_entries_kv(self.entries@), i as int);
                }
                return Some(self.entries[i].1);
            }
            i += 1;
        }
        None
    }

    /// Move the named partition's allocation cursor.  The index must be
    /// within the partition's allocated space.
    #[verifier::loop_isolation(false)]
    pub fn set_next_entid(&mut self, name: &String, e: Entid)
        requires
            old(self).wf(),
            old(self)@.contains_key(name@),
            old(self)@[name@].start <= e <= old(self)@[name@].end,
        ensures
            final(self)@ == old(self)@.insert(
                name@,
                (Partition { next_entid_to_allocate: e, ..old(self)@[name@] }),
            ),
            final(self).wf(),
    {
        proof {
            lemma_assoc_map_domain(partition_entries_kv(self.entries@));
        }
        let len = self.entries.len();
        let mut i: usize = 0;
        while i < len
            invariant
                len == self.entries@.len(),
                i <= len,
                *self == *old(self),
                forall|j: int| 0 <= j < i ==> partition_entries_kv(self.entries@)[j].0 != name@,
            decreases len - i,
        {
            if self.entries[i].0.eq(name) {
                proof {
                    assert(partition_entries_kv(self.entries@)[i as int] == (self.entries@[i as int].0@,
                        self.entries@[i as int].1,
                    ));
                    lemma_assoc_map_entry(partition_entries_kv(self.entries@), i as int);
                    assert(self@[name@] == self.entries@[i as int].1);
                }
                let ghost old_entries = self.entries@;
                let mut part = self.entries[i].1;
                part.set_next_entid(e);
                self.entries[i].1 = part;
                proof {
                    let kv_old = partition_entries_kv(old_entries);
                    assert(self.entries@ == old_entries.update(
                        i as int,
                        (old_entries[i as int].0, part),
                    ));
                    assert forall|j: int|
                        0 <= j < old_entries.len() implies partition_entries_kv(self.entries@)[j]
                        == kv_old.update(i as int, (name@, part))[j] by {
                        assert(partition_entries_kv(self.entries@)[j] == (self.entries@[j].0@,
                            self.entries@[j].1,
                        ));
                        assert(kv_old[j] == (old_entries[j].0@, old_entries[j].1));
                    }
                    assert(partition_entries_kv(self.entries@) =~= kv_old.update(
                        i as int,
                        (name@, part),
                    ));
                    lemma_assoc_map_update(kv_old, i as int, part);
                    assert(kv_old[i as int].0 == name@);
                }
                return ;
            }
            i += 1;
        }
        proof {
            // The partition is in the map, so some entry carries its name.
            assert(false);
        }
    }

    /// Hand out `n` fresh contiguous entids from the named partition, which
    /// must be present and must have `n` identifiers of room left.
    #[verifier::loop_isolation(false)]
    pub fn allocate_entids(&mut self, name: &String, n: usize) -> (r: Range<i64>)
        requires
            old(self).wf(),
            old(self)@.contains_key(name@),
            old(self)@[name@].wf(),
            old(self)@[name@].next_entid_to_allocate as int + n as int <= old(
                self,
            )@[name@].end as int,
            n as int <= i64::MAX as int,
        ensures
            r.start == old(self)@[name@].next_entid_to_allocate,
            r.end as int == r.start as int + n as int,
            final(self)@ == old(self)@.insert(
                name@,
                (Partition { next_entid_to_allocate: r.end, ..old(self)@[name@] }),
            ),
            final(self).wf(),
    {
        proof {
            lemma_assoc_map_domain(partition_entries_kv(self.entries@));
        }
        let len = self.entries.len();
        let mut i: usize = 0;
        while i < len
            invariant
                len == self.entries@.len(),
                i <= len,
                *self == *old(self),
                forall|j: int| 0 <= j < i ==> partition_entries_kv(self.entries@)[j].0 != name@,
            decreases len - i,
        {
            if self.entries[i].0.eq(name) {
                proof {
                    assert(partition_entries_kv(self.entries@)[i as int] == (self.entries@[i as int].0@,
                        self.entries@[i as int].1,
                    ));
                    lemma_assoc_map_entry(partition_entries_kv(self.entries@), i as int);
                    assert(self@[name@] == self.entries@[i as int].1);
                }
                let ghost old_entries = self.entries@;
                let mut part = self.entries[i].1;
                let r = part.allocate_entids(n);
                self.entries[i].1 = part;
                proof {
                    let kv_old = partition_entries_kv(old_entries);
                    assert(self.entries@ == old_entries.update(
                        i as int,
                        (old_entries[i as int].0, part),
                    ));
                    assert forall|j: int|
                        0 <= j < old_entries.len() implies partition_entries_kv(self.entries@)[j]
                        == kv_old.update(i as int, (name@, part))[j] by {
                        assert(partition_entries_kv(self.entries@)[j] == (self.entries@[j].0@,
                            self.entries@[j].1,
                        ));
                        assert(kv_old[j] == (old_entries[j].0@, old_entries[j].1));
                    }
                    assert(partition_entries_kv(self.entries@) =~= kv_old.update(
                        i as int,
                        (name@, part),
                    ));
                    lemma_assoc_map_update(kv_old, i as int, part);
                    assert(kv_old[i as int].0 == name@);
                }
                return r;
            }
            i += 1;
        }
        proof {
            // The partition is in the map, so some entry carries its name.
            assert(false);
        }
        unreached()
    }
}

/// The metadata required to apply transactions to a store: the partition map
/// and the schema.
pub struct DB {
    /// Map partition name to `Partition`.
    pub partition_map: PartitionMap,
    /// The schema of the store.
    pub schema: Schema,
}

impl DB {
    pub fn new(partition_map: PartitionMap, schema: Schema) -> (db: DB)
        ensures
            db.partition_map == partition_map,
            db.schema == schema,
    {
        DB { partition_map, schema }
    }
}

} // verus!
