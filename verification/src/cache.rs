//! The cache of locally held blob containers. An entry is pinned while a
//! snapshot holds a handle on it, and can be evicted only when no handle is
//! left; among those, the one released longest ago goes first.

use crate::puffin::PuffinStore;
use crate::text::{decimal_digits, push_decimal};
use vstd::prelude::*;
use vstd::string::*;

verus! {

/// One cached container as the contracts see it.
pub struct EntryView {
    pub file_id: u64,
    pub size: u64,
    pub pins: u64,
}

/// Whether one of the entries is the container `id`.
pub open spec fn listed(entries: Seq<EntryView>, id: u64) -> bool {
    exists|i: int| 0 <= i < entries.len() && (#[trigger] entries[i]).file_id == id
}

/// The index of the entry of container `id`, where there is one.
pub open spec fn index_of(entries: Seq<EntryView>, id: u64) -> int {
    choose|i: int| 0 <= i < entries.len() && (#[trigger] entries[i]).file_id == id
}

/// Whether no two entries are of the same container.
pub open spec fn distinct(entries: Seq<EntryView>) -> bool {
    forall|i: int, j: int|
        0 <= i < j < entries.len() ==> (#[trigger] entries[i]).file_id != (
        #[trigger] entries[j]).file_id
}

/// The bytes that the entries take together.
pub open spec fn total(entries: Seq<EntryView>) -> nat
    decreases entries.len(),
{
    if entries.len() == 0 {
        0
    } else {
        total(entries.drop_last()) + entries.last().size as nat
    }
}

/// How many entries leave, from the front, to free at least `excess` bytes: none
/// where nothing is in excess, all where all together do not suffice.
pub open spec fn evict_count(entries: Seq<EntryView>, excess: int) -> nat
    decreases entries.len(),
{
    if excess <= 0 || entries.len() == 0 {
        0
    } else {
        1 + evict_count(entries.drop_first(), excess - entries.first().size)
    }
}

/// Why a container could not be pinned.
#[derive(Clone, Copy, Debug, PartialEq, Eq, Structural)]
pub enum CacheError {
    /// The container is not cached and the store does not hold it.
    BlobMissing,
    /// The container already has as many pins as can be counted.
    PinLimit,
    /// With the container the cache would hold more bytes than can be counted.
    SpaceLimit,
}

/// The state of the cache: the pinned entries, and the evictable ones in the
/// order of their release, the one released longest ago first.
pub struct CacheView {
    pub pinned: Seq<EntryView>,
    pub evictable: Seq<EntryView>,
    /// The directory that holds the local copies.
    pub root: Seq<char>,
}

impl CacheView {
    /// The invariant: a pinned entry has at least one pin, an evictable one
    /// none, and no container has two entries.
    pub open spec fn wf(self) -> bool {
        &&& forall|i: int| 0 <= i < self.pinned.len() ==> (#[trigger] self.pinned[i]).pins >= 1
        &&& forall|i: int|
            0 <= i < self.evictable.len() ==> (#[trigger] self.evictable[i]).pins == 0
        &&& distinct(self.pinned)
        &&& distinct(self.evictable)
        &&& forall|i: int, j: int|
            0 <= i < self.pinned.len() && 0 <= j < self.evictable.len() ==> (
            #[trigger] self.pinned[i]).file_id != (#[trigger] self.evictable[j]).file_id
    }

    /// Whether container `id` is cached.
    pub open spec fn contains(self, id: u64) -> bool {
        listed(self.pinned, id) || listed(self.evictable, id)
    }

    /// The number of pins on container `id`: zero where it is evictable or not
    /// cached.
    pub open spec fn pins(self, id: u64) -> nat {
        if listed(self.pinned, id) {
            self.pinned[index_of(self.pinned, id)].pins as nat
        } else {
            0
        }
    }

    /// The bytes held locally.
    pub open spec fn usage(self) -> nat {
        total(self.pinned) + total(self.evictable)
    }

    /// Why pinning container `id` fails, if it does. `remote` is the size of
    /// the container in the store, `None` where the store does not hold it.
    pub open spec fn acquire_fault(self, id: u64, remote: Option<u64>) -> Option<CacheError> {
        if listed(self.pinned, id) {
            if self.pinned[index_of(self.pinned, id)].pins == u64::MAX {
                Some(CacheError::PinLimit)
            } else {
                None
            }
        } else if listed(self.evictable, id) {
            None
        } else {
            match remote {
                None => Some(CacheError::BlobMissing),
                Some(size) => if self.usage() + size > u64::MAX {
                    Some(CacheError::SpaceLimit)
                } else {
                    None
                },
            }
        }
    }

    /// The cache after pinning container `id`: one pin more on a pinned entry;
    /// an evictable entry back among the pinned with one pin; a container that
    /// is not cached fetched and pinned once. Unchanged where pinning fails.
    pub open spec fn acquired(self, id: u64, remote: Option<u64>) -> CacheView {
        if self.acquire_fault(id, remote).is_some() {
            self
        } else if listed(self.pinned, id) {
            let i = index_of(self.pinned, id);
            CacheView {
                pinned: self.pinned.update(
                    i,
                    EntryView { pins: (self.pinned[i].pins + 1) as u64, ..self.pinned[i] },
                ),
                evictable: self.evictable,
                root: self.root,
            }
        } else if listed(self.evictable, id) {
            let j = index_of(self.evictable, id);
            CacheView {
                pinned: self.pinned.push(EntryView { pins: 1, ..self.evictable[j] }),
                evictable: self.evictable.remove(j),
                root: self.root,
            }
        } else {
            CacheView {
                pinned: self.pinned.push(
                    EntryView { file_id: id, size: remote.unwrap(), pins: 1 },
                ),
                evictable: self.evictable,
                root: self.root,
            }
        }
    }

    /// The cache after one pin on container `id` is given back: one pin less,
    /// and with the last pin the entry becomes evictable, behind all that
    /// already are. Unchanged where the container is not pinned.
    pub open spec fn released(self, id: u64) -> CacheView {
        if !listed(self.pinned, id) {
            self
        } else {
            let i = index_of(self.pinned, id);
            if self.pinned[i].pins > 1 {
                CacheView {
                    pinned: self.pinned.update(
                        i,
                        EntryView { pins: (self.pinned[i].pins - 1) as u64, ..self.pinned[i] },
                    ),
                    evictable: self.evictable,
                    root: self.root,
                }
            } else {
                CacheView {
                    pinned: self.pinned.remove(i),
                    evictable: self.evictable.push(EntryView { pins: 0, ..self.pinned[i] }),
                    root: self.root,
                }
            }
        }
    }

    /// The cache after reclaiming space down to `target` bytes: evictable
    /// entries leave, the one released longest ago first, until the usage is at
    /// most `target` or none is left. No pinned entry leaves.
    pub open spec fn evicted_to(self, target: u64) -> CacheView {
        CacheView {
            pinned: self.pinned,
            evictable: self.evictable.skip(
                evict_count(self.evictable, self.usage() - target) as int,
            ),
            root: self.root,
        }
    }
}

/// The entries before index `k` and those from it on take together what all
/// take.
pub proof fn lemma_total_split(entries: Seq<EntryView>, k: int)
    requires
        0 <= k <= entries.len(),
    ensures
        total(entries) == total(entries.take(k)) + total(entries.skip(k)),
    decreases entries.len(),
{
    if k == entries.len() {
        assert(entries.take(k) =~= entries);
        assert(entries.skip(k) =~= Seq::<EntryView>::empty());
    } else {
        let init = entries.drop_last();
        lemma_total_split(init, k);
        assert(init.take(k) =~= entries.take(k));
        assert(entries.skip(k).drop_last() =~= init.skip(k));
    }
}

/// Without the entry at `i` the entries take its size less.
pub proof fn lemma_total_remove(entries: Seq<EntryView>, i: int)
    requires
        0 <= i < entries.len(),
    ensures
        total(entries.remove(i)) + entries[i].size == total(entries),
{
    lemma_total_split(entries, i);
    lemma_total_split(entries.skip(i), 1);
    let gone = entries.remove(i);
    lemma_total_split(gone, i);
    assert(gone.take(i) =~= entries.take(i));
    assert(gone.skip(i) =~= entries.skip(i).skip(1));
    assert(entries.skip(i).take(1) =~= seq![entries[i]]);
    lemma_total_one(entries[i]);
}

/// One entry alone takes its own size.
pub proof fn lemma_total_one(entry: EntryView)
    ensures
        total(seq![entry]) == entry.size,
{
    assert(seq![entry].drop_last() =~= Seq::<EntryView>::empty());
    assert(total(seq![entry].drop_last()) == 0);
}

/// Replacing an entry by one of the same size changes nothing in the total.
pub proof fn lemma_total_update(entries: Seq<EntryView>, i: int, entry: EntryView)
    requires
        0 <= i < entries.len(),
        entry.size == entries[i].size,
    ensures
        total(entries.update(i, entry)) == total(entries),
{
    let next = entries.update(i, entry);
    lemma_total_remove(entries, i);
    lemma_total_remove(next, i);
    assert(next.remove(i) =~= entries.remove(i));
}

/// With one more entry the entries take its size more.
pub proof fn lemma_total_push(entries: Seq<EntryView>, entry: EntryView)
    ensures
        total(entries.push(entry)) == total(entries) + entry.size,
{
    assert(entries.push(entry).drop_last() =~= entries);
}

/// In distinct entries the container `id` has one index only.
pub proof fn lemma_index_of(entries: Seq<EntryView>, id: u64, i: int)
    requires
        distinct(entries),
        0 <= i < entries.len(),
        entries[i].file_id == id,
    ensures
        listed(entries, id),
        index_of(entries, id) == i,
{
    let j = index_of(entries, id);
    if j < i {
        assert(entries[j].file_id != entries[i].file_id);
    } else if i < j {
        assert(entries[i].file_id != entries[j].file_id);
    }
}

/// Pinning keeps the invariant, keeps every cached container cached and takes
/// no pin away.
pub proof fn lemma_acquired(c: CacheView, id: u64, remote: Option<u64>)
    requires
        c.wf(),
    ensures
        c.acquired(id, remote).wf(),
        forall|other: u64| c.contains(other) ==> c.acquired(id, remote).contains(other),
        forall|other: u64| c.pins(other) <= c.acquired(id, remote).pins(other),
        forall|other: u64| other != id ==> c.acquired(id, remote).pins(other) == c.pins(other),
        c.acquire_fault(id, remote).is_none() ==> c.acquired(id, remote).pins(id) == c.pins(id)
            + 1,
{
    let next = c.acquired(id, remote);
    if c.acquire_fault(id, remote).is_some() {
    } else if listed(c.pinned, id) {
        let i = index_of(c.pinned, id);
        assert forall|other: u64| c.contains(other) implies next.contains(other) by {
            if listed(c.pinned, other) {
                let k = index_of(c.pinned, other);
                assert(next.pinned[k].file_id == other);
            }
        }
        assert forall|other: u64| c.pins(other) <= next.pins(other) by {
            if listed(c.pinned, other) {
                let k = index_of(c.pinned, other);
                assert(next.pinned[k].file_id == other);
                lemma_index_of(next.pinned, other, k);
            }
        }
        assert(next.pinned[i].file_id == id);
        lemma_index_of(next.pinned, id, i);
        assert forall|other: u64| other != id implies next.pins(other) == c.pins(other) by {
            if listed(c.pinned, other) {
                let k = index_of(c.pinned, other);
                assert(next.pinned[k].file_id == other);
                lemma_index_of(next.pinned, other, k);
            } else if listed(next.pinned, other) {
                let k = index_of(next.pinned, other);
                assert(c.pinned[k].file_id == other);
            }
        }
    } else if listed(c.evictable, id) {
        let j = index_of(c.evictable, id);
        let n = c.pinned.len() as int;
        assert(next.pinned[n].file_id == id);
        assert forall|a: int, b: int| 0 <= a < b < next.pinned.len() implies (
        #[trigger] next.pinned[a]).file_id != (#[trigger] next.pinned[b]).file_id by {
            if b == n {
                assert(c.pinned[a].file_id != c.evictable[j].file_id);
            }
        }
        assert forall|a: int, b: int|
            0 <= a < next.pinned.len() && 0 <= b < next.evictable.len() implies (
        #[trigger] next.pinned[a]).file_id != (#[trigger] next.evictable[b]).file_id by {
            let from = if b < j {
                b
            } else {
                b + 1
            };
            assert(next.evictable[b] == c.evictable[from]);
            if a == n {
                if from < j {
                    assert(c.evictable[from].file_id != c.evictable[j].file_id);
                } else {
                    assert(c.evictable[j].file_id != c.evictable[from].file_id);
                }
            } else {
                assert(c.pinned[a].file_id != c.evictable[from].file_id);
            }
        }
        assert forall|a: int, b: int| 0 <= a < b < next.evictable.len() implies (
        #[trigger] next.evictable[a]).file_id != (#[trigger] next.evictable[b]).file_id by {
            let fa = if a < j {
                a
            } else {
                a + 1
            };
            let fb = if b < j {
                b
            } else {
                b + 1
            };
            assert(c.evictable[fa].file_id != c.evictable[fb].file_id);
        }
        assert forall|other: u64| c.contains(other) implies next.contains(other) by {
            if listed(c.pinned, other) {
                let k = index_of(c.pinned, other);
                assert(next.pinned[k].file_id == other);
            } else {
                let k = index_of(c.evictable, other);
                if k == j {
                    assert(next.pinned[n].file_id == other);
                } else if k < j {
                    assert(next.evictable[k].file_id == other);
                } else {
                    assert(next.evictable[k - 1].file_id == other);
                }
            }
        }
        assert forall|other: u64| c.pins(other) <= next.pins(other) by {
            if listed(c.pinned, other) {
                let k = index_of(c.pinned, other);
                assert(next.pinned[k].file_id == other);
                lemma_index_of(next.pinned, other, k);
            }
        }
        lemma_index_of(next.pinned, id, n);
        assert forall|other: u64| other != id implies next.pins(other) == c.pins(other) by {
            if listed(c.pinned, other) {
                let k = index_of(c.pinned, other);
                assert(next.pinned[k].file_id == other);
                lemma_index_of(next.pinned, other, k);
            } else if listed(next.pinned, other) {
                let k = index_of(next.pinned, other);
                if k < n {
                    assert(c.pinned[k].file_id == other);
                }
            }
        }
    } else {
        let n = c.pinned.len() as int;
        assert(next.pinned[n].file_id == id);
        assert forall|other: u64| c.contains(other) implies next.contains(other) by {
            if listed(c.pinned, other) {
                let k = index_of(c.pinned, other);
                assert(next.pinned[k].file_id == other);
            }
        }
        assert forall|other: u64| c.pins(other) <= next.pins(other) by {
            if listed(c.pinned, other) {
                let k = index_of(c.pinned, other);
                assert(next.pinned[k].file_id == other);
                lemma_index_of(next.pinned, other, k);
            }
        }
        lemma_index_of(next.pinned, id, n);
        assert forall|other: u64| other != id implies next.pins(other) == c.pins(other) by {
            if listed(c.pinned, other) {
                let k = index_of(c.pinned, other);
                assert(next.pinned[k].file_id == other);
                lemma_index_of(next.pinned, other, k);
            } else if listed(next.pinned, other) {
                let k = index_of(next.pinned, other);
                if k < n {
                    assert(c.pinned[k].file_id == other);
                }
            }
        }
    }
}

/// Giving a pin back keeps the invariant and keeps every cached container
/// cached; only the pins of the container released change.
pub proof fn lemma_released(c: CacheView, id: u64)
    requires
        c.wf(),
    ensures
        c.released(id).wf(),
        forall|other: u64| c.contains(other) ==> c.released(id).contains(other),
        forall|other: u64| other != id ==> c.released(id).pins(other) == c.pins(other),
        c.pins(id) > 0 ==> c.released(id).pins(id) == c.pins(id) - 1,
        c.pins(id) == 0 ==> c.released(id) == c,
        c.released(id).usage() == c.usage(),
{
    let next = c.released(id);
    if !listed(c.pinned, id) {
    } else {
        let i = index_of(c.pinned, id);
        if c.pinned[i].pins > 1 {
            let entry = EntryView { pins: (c.pinned[i].pins - 1) as u64, ..c.pinned[i] };
            lemma_total_update(c.pinned, i, entry);
            assert forall|other: u64| c.contains(other) implies next.contains(other) by {
                if listed(c.pinned, other) {
                    let k = index_of(c.pinned, other);
                    assert(next.pinned[k].file_id == other);
                }
            }
            assert forall|other: u64| other != id implies next.pins(other) == c.pins(other) by {
                if listed(c.pinned, other) {
                    let k = index_of(c.pinned, other);
                    assert(next.pinned[k].file_id == other);
                    lemma_index_of(next.pinned, other, k);
                } else if listed(next.pinned, other) {
                    let k = index_of(next.pinned, other);
                    assert(c.pinned[k].file_id == other);
                }
            }
            assert(next.pinned[i].file_id == id);
            lemma_index_of(next.pinned, id, i);
        } else {
            let entry = EntryView { pins: 0, ..c.pinned[i] };
            lemma_total_remove(c.pinned, i);
            lemma_total_push(c.evictable, entry);
            let m = c.evictable.len() as int;
            assert forall|a: int, b: int| 0 <= a < b < next.pinned.len() implies (
            #[trigger] next.pinned[a]).file_id != (#[trigger] next.pinned[b]).file_id by {
                let fa = if a < i {
                    a
                } else {
                    a + 1
                };
                let fb = if b < i {
                    b
                } else {
                    b + 1
                };
                assert(c.pinned[fa].file_id != c.pinned[fb].file_id);
            }
            assert forall|a: int, b: int| 0 <= a < b < next.evictable.len() implies (
            #[trigger] next.evictable[a]).file_id != (#[trigger] next.evictable[b]).file_id by {
                if b == m {
                    assert(c.pinned[i].file_id != c.evictable[a].file_id);
                }
            }
            assert forall|a: int, b: int|
                0 <= a < next.pinned.len() && 0 <= b < next.evictable.len() implies (
            #[trigger] next.pinned[a]).file_id != (#[trigger] next.evictable[b]).file_id by {
                let fa = if a < i {
                    a
                } else {
                    a + 1
                };
                assert(next.pinned[a] == c.pinned[fa]);
                if b == m {
                    if fa < i {
                        assert(c.pinned[fa].file_id != c.pinned[i].file_id);
                    } else {
                        assert(c.pinned[i].file_id != c.pinned[fa].file_id);
                    }
                } else {
                    assert(c.pinned[fa].file_id != c.evictable[b].file_id);
                }
            }
            assert forall|k: int| 0 <= k < next.pinned.len() implies (
            #[trigger] next.pinned[k]).pins >= 1 by {
                let fk = if k < i {
                    k
                } else {
                    k + 1
                };
                assert(next.pinned[k] == c.pinned[fk]);
            }
            assert forall|other: u64| c.contains(other) implies next.contains(other) by {
                if listed(c.pinned, other) {
                    let k = index_of(c.pinned, other);
                    if k == i {
                        assert(next.evictable[m].file_id == other);
                    } else if k < i {
                        assert(next.pinned[k].file_id == other);
                    } else {
                        assert(next.pinned[k - 1].file_id == other);
                    }
                } else {
                    let k = index_of(c.evictable, other);
                    assert(next.evictable[k].file_id == other);
                }
            }
            assert forall|other: u64| other != id implies next.pins(other) == c.pins(other) by {
                if listed(c.pinned, other) {
                    let k = index_of(c.pinned, other);
                    let to = if k < i {
                        k
                    } else {
                        k - 1
                    };
                    assert(next.pinned[to] == c.pinned[k]);
                    lemma_index_of(next.pinned, other, to);
                } else if listed(next.pinned, other) {
                    let k = index_of(next.pinned, other);
                    let from = if k < i {
                        k
                    } else {
                        k + 1
                    };
                    assert(c.pinned[from].file_id == other);
                }
            }
            assert(!listed(next.pinned, id)) by {
                if listed(next.pinned, id) {
                    let k = index_of(next.pinned, id);
                    let from = if k < i {
                        k
                    } else {
                        k + 1
                    };
                    assert(next.pinned[k] == c.pinned[from]);
                    if from < i {
                        assert(c.pinned[from].file_id != c.pinned[i].file_id);
                    } else {
                        assert(c.pinned[i].file_id != c.pinned[from].file_id);
                    }
                }
            }
        }
    }
}

/// Reclaiming space never touches a pinned entry: the invariant holds after
/// it, every container with a pin is still cached with the same pins, and what
/// is left of the evictable entries is what was released last.
pub proof fn lemma_evicted_to(c: CacheView, target: u64)
    requires
        c.wf(),
    ensures
        c.evicted_to(target).wf(),
        c.evicted_to(target).pinned == c.pinned,
        forall|id: u64| c.evicted_to(target).pins(id) == c.pins(id),
        forall|id: u64| c.pins(id) > 0 ==> c.evicted_to(target).contains(id),
        evict_count(c.evictable, c.usage() - target) <= c.evictable.len(),
{
    let k = evict_count(c.evictable, c.usage() - target) as int;
    lemma_evict_count(c.evictable, c.usage() - target);
    let next = c.evicted_to(target);
    assert forall|a: int, b: int| 0 <= a < b < next.evictable.len() implies (
    #[trigger] next.evictable[a]).file_id != (#[trigger] next.evictable[b]).file_id by {
        assert(c.evictable[a + k].file_id != c.evictable[b + k].file_id);
    }
    assert forall|a: int, b: int|
        0 <= a < next.pinned.len() && 0 <= b < next.evictable.len() implies (
    #[trigger] next.pinned[a]).file_id != (#[trigger] next.evictable[b]).file_id by {
        assert(c.pinned[a].file_id != c.evictable[b + k].file_id);
    }
    assert forall|i: int| 0 <= i < next.evictable.len() implies (
    #[trigger] next.evictable[i]).pins == 0 by {
        assert(next.evictable[i] == c.evictable[i + k]);
    }
}

/// No more entries leave than there are, and the entries that leave free, all
/// but the last of them, less than the excess.
pub proof fn lemma_evict_count(entries: Seq<EntryView>, excess: int)
    ensures
        evict_count(entries, excess) <= entries.len(),
        excess > 0 ==> (evict_count(entries, excess) == entries.len() || total(
            entries.take(evict_count(entries, excess) as int),
        ) >= excess),
        forall|k: int|
            0 <= k < evict_count(entries, excess) ==> total(#[trigger] entries.take(k)) < excess,
    decreases entries.len(),
{
    if excess <= 0 || entries.len() == 0 {
        assert forall|k: int| 0 <= k < evict_count(entries, excess) implies total(
            #[trigger] entries.take(k),
        ) < excess by {}
    } else {
        let rest = entries.drop_first();
        let less = excess - entries.first().size;
        lemma_evict_count(rest, less);
        let n = evict_count(entries, excess) as int;
        lemma_total_split(entries.take(n), 1);
        assert(entries.take(n).skip(1) =~= rest.take(n - 1));
        assert(entries.take(n).take(1) =~= seq![entries.first()]);
        lemma_total_one(entries.first());
        assert forall|k: int| 0 <= k < n implies total(#[trigger] entries.take(k)) < excess by {
            if k == 0 {
                assert(entries.take(0) =~= Seq::<EntryView>::empty());
            } else {
                lemma_total_split(entries.take(k), 1);
                assert(entries.take(k).skip(1) =~= rest.take(k - 1));
                assert(entries.take(k).take(1) =~= seq![entries.first()]);
                assert(total(rest.take(k - 1)) < less);
            }
        }
    }
}

/// One request to the cache.
pub enum CacheOp {
    /// Pin a container; `remote` is its size in the store, if the store holds it.
    GetOrFetch { id: u64, remote: Option<u64> },
    /// Give back one pin on a container.
    Release { id: u64 },
    /// Reclaim space down to `target` bytes.
    EvictTo { target: u64 },
}

/// The cache after one request.
pub open spec fn step(c: CacheView, op: CacheOp) -> CacheView {
    match op {
        CacheOp::GetOrFetch { id, remote } => c.acquired(id, remote),
        CacheOp::Release { id } => c.released(id),
        CacheOp::EvictTo { target } => c.evicted_to(target),
    }
}

/// The cache after a sequence of requests, taken in order.
pub open spec fn run(c: CacheView, ops: Seq<CacheOp>) -> CacheView
    decreases ops.len(),
{
    if ops.len() == 0 {
        c
    } else {
        step(run(c, ops.drop_last()), ops.last())
    }
}

/// Whatever requests come in whatever order, a container that has a pin is
/// never evicted: the invariant holds after every request, and a container
/// pinned before a request is still cached after it, with its pins untouched
/// where the request reclaims space.
pub proof fn lemma_pinned_never_evicted(c: CacheView, ops: Seq<CacheOp>, k: int, id: u64)
    requires
        c.wf(),
        0 <= k < ops.len(),
        run(c, ops.take(k)).pins(id) > 0,
    ensures
        run(c, ops.take(k)).wf(),
        run(c, ops.take(k + 1)).wf(),
        run(c, ops.take(k + 1)).contains(id),
        ops[k] is EvictTo ==> run(c, ops.take(k + 1)).pins(id) == run(c, ops.take(k)).pins(id),
{
    lemma_run_wf(c, ops.take(k));
    lemma_run_wf(c, ops.take(k + 1));
    let before = run(c, ops.take(k));
    assert(ops.take(k + 1).drop_last() =~= ops.take(k));
    assert(run(c, ops.take(k + 1)) == step(before, ops[k]));
    assert(before.contains(id));
    match ops[k] {
        CacheOp::GetOrFetch { id: pinned, remote } => {
            lemma_acquired(before, pinned, remote);
        },
        CacheOp::Release { id: given } => {
            lemma_released(before, given);
        },
        CacheOp::EvictTo { target } => {
            lemma_evicted_to(before, target);
        },
    }
}

/// The invariant holds after any sequence of requests.
pub proof fn lemma_run_wf(c: CacheView, ops: Seq<CacheOp>)
    requires
        c.wf(),
    ensures
        run(c, ops).wf(),
    decreases ops.len(),
{
    if ops.len() > 0 {
        lemma_run_wf(c, ops.drop_last());
        let before = run(c, ops.drop_last());
        match ops.last() {
            CacheOp::GetOrFetch { id, remote } => {
                lemma_acquired(before, id, remote);
            },
            CacheOp::Release { id } => {
                lemma_released(before, id);
            },
            CacheOp::EvictTo { target } => {
                lemma_evicted_to(before, target);
            },
        }
    }
}

/// The local path of container `id` in a cache rooted at `root`.
pub open spec fn cache_path(root: Seq<char>, id: u64) -> Seq<char> {
    root + seq!['/', 'p', 'u', 'f', 'f', 'i', 'n', '-'] + decimal_digits(id as nat)
}

/// A lease on a cached container: while it is held the container is not
/// evicted. It is given back with [`ObjectStorageCache::release`].
#[derive(Debug)]
pub struct NonEvictableHandle {
    file_id: u64,
    cache_filepath: String,
}

impl NonEvictableHandle {
    /// The container that the handle pins.
    pub closed spec fn file_id(&self) -> u64 {
        self.file_id
    }

    /// The local path of the container.
    pub closed spec fn path(&self) -> Seq<char> {
        self.cache_filepath@
    }

    /// The container that the handle pins.
    pub fn get_file_id(&self) -> (id: u64)
        ensures
            id == self.file_id(),
    {
        self.file_id
    }

    /// The local path of the container.
    pub fn get_cache_filepath(&self) -> (path: &str)
        ensures
            path@ == self.path(),
    {
        self.cache_filepath.as_str()
    }
}

/// One cached container.
#[derive(Debug)]
struct CacheEntry {
    file_id: u64,
    size: u64,
    pins: u64,
}

impl View for CacheEntry {
    type V = EntryView;

    closed spec fn view(&self) -> EntryView {
        EntryView { file_id: self.file_id, size: self.size, pins: self.pins }
    }
}

spec fn entries_view(entries: Seq<CacheEntry>) -> Seq<EntryView> {
    Seq::new(entries.len(), |i: int| entries[i]@)
}

fn find(entries: &Vec<CacheEntry>, id: u64) -> (at: Option<usize>)
    ensures
        at.is_some() == listed(entries_view(entries@), id),
        at matches Some(i) ==> i < entries.len() && entries@[i as int].file_id == id,
{
    let mut i: usize = 0;
    while i < entries.len()
        invariant
            i <= entries.len(),
            forall|k: int| 0 <= k < i ==> entries@[k].file_id != id,
        decreases entries.len() - i,
    {
        if entries[i].file_id == id {
            assert(entries_view(entries@)[i as int].file_id == id);
            return Some(i);
        }
        i += 1;
    }
    assert(!listed(entries_view(entries@), id)) by {
        if listed(entries_view(entries@), id) {
            let k = index_of(entries_view(entries@), id);
            assert(entries_view(entries@)[k].file_id == entries@[k].file_id);
        }
    }
    None
}

/// The size of container `id` in the store, `None` where the store does not
/// hold it.
pub open spec fn remote_size(store: Seq<Seq<u8>>, id: u64) -> Option<u64> {
    if id < store.len() {
        Some(store[id as int].len() as u64)
    } else {
        None
    }
}

/// The cache of locally held containers.
#[derive(Debug)]
pub struct ObjectStorageCache {
    root: String,
    pinned: Vec<CacheEntry>,
    evictable: Vec<CacheEntry>,
    usage: u64,
}

impl View for ObjectStorageCache {
    type V = CacheView;

    closed spec fn view(&self) -> CacheView {
        CacheView {
            pinned: entries_view(self.pinned@),
            evictable: entries_view(self.evictable@),
            root: self.root@,
        }
    }
}

impl ObjectStorageCache {
    /// The directory that holds the local copies.
    pub open spec fn root(&self) -> Seq<char> {
        self@.root
    }

    /// Whether the byte count kept by the cache is that of its entries.
    pub closed spec fn counted(&self) -> bool {
        self.usage == self@.usage()
    }

    /// The invariant of the cache.
    pub open spec fn wf(&self) -> bool {
        self@.wf() && self.counted()
    }

    /// An empty cache that keeps its local copies under `root`.
    pub fn new(root: &str) -> (cache: Self)
        ensures
            cache.wf(),
            cache@.root == root@,
            cache@.pinned.len() == 0,
            cache@.evictable.len() == 0,
    {
        ObjectStorageCache {
            root: String::from_str(root),
            pinned: Vec::new(),
            evictable: Vec::new(),
            usage: 0,
        }
    }

    /// Forgets every entry and every pin, as after a restart.
    pub fn clear(&mut self)
        ensures
            final(self).wf(),
            final(self)@ == (CacheView {
                pinned: Seq::<EntryView>::empty(),
                evictable: Seq::<EntryView>::empty(),
                root: old(self)@.root,
            }),
    {
        self.pinned = Vec::new();
        self.evictable = Vec::new();
        self.usage = 0;
        assert(self@.pinned =~= Seq::<EntryView>::empty());
        assert(self@.evictable =~= Seq::<EntryView>::empty());
    }

    /// The bytes held locally.
    pub fn usage(&self) -> (bytes: u64)
        requires
            self.wf(),
        ensures
            bytes == self@.usage(),
    {
        self.usage
    }

    /// The number of pins on container `file_id`.
    pub fn pin_count(&self, file_id: u64) -> (pins: u64)
        requires
            self.wf(),
        ensures
            pins == self@.pins(file_id),
    {
        match find(&self.pinned, file_id) {
            Some(i) => {
                proof {
                    lemma_index_of(self@.pinned, file_id, i as int);
                }
                self.pinned[i].pins
            },
            None => 0,
        }
    }

    /// Whether container `file_id` is cached.
    pub fn is_cached(&self, file_id: u64) -> (cached: bool)
        ensures
            cached == self@.contains(file_id),
    {
        find(&self.pinned, file_id).is_some() || find(&self.evictable, file_id).is_some()
    }

    fn handle(&self, file_id: u64) -> (handle: NonEvictableHandle)
        ensures
            handle.file_id() == file_id,
            handle.path() == cache_path(self.root(), file_id),
    {
        proof {
            reveal_strlit("/puffin-");
        }
        let mut path = self.root.clone();
        path.append("/puffin-");
        push_decimal(&mut path, file_id);
        assert(path@ =~= cache_path(self.root(), file_id));
        NonEvictableHandle { file_id, cache_filepath: path }
    }

    /// Pins container `file_id` and returns a handle on it. A container that
    /// is not cached is fetched from `store` first. On failure nothing changes.
    pub fn get_or_fetch(&mut self, file_id: u64, store: &PuffinStore) -> (got: Result<
        NonEvictableHandle,
        CacheError,
    >)
        requires
            old(self).wf(),
        ensures
            final(self).wf(),
            final(self).root() == old(self).root(),
            final(self)@ == old(self)@.acquired(file_id, remote_size(store@, file_id)),
            match got {
                Ok(handle) => {
                    &&& old(self)@.acquire_fault(file_id, remote_size(store@, file_id)).is_none()
                    &&& handle.file_id() == file_id
                    &&& handle.path() == cache_path(old(self).root(), file_id)
                },
                Err(fault) => old(self)@.acquire_fault(file_id, remote_size(store@, file_id))
                    == Some(fault),
            },
    {
        let ghost before = self@;
        let ghost remote = remote_size(store@, file_id);
        proof {
            lemma_acquired(before, file_id, remote);
        }
        match find(&self.pinned, file_id) {
            Some(i) => {
                proof {
                    lemma_index_of(before.pinned, file_id, i as int);
                }
                if self.pinned[i].pins == u64::MAX {
                    return Err(CacheError::PinLimit);
                }
                let entry = CacheEntry {
                    file_id,
                    size: self.pinned[i].size,
                    pins: self.pinned[i].pins + 1,
                };
                proof {
                    lemma_total_update(before.pinned, i as int, entry@);
                }
                self.pinned.set(i, entry);
                assert(self@.pinned =~= before.acquired(file_id, remote).pinned);
                return Ok(self.handle(file_id));
            },
            None => {},
        }
        match find(&self.evictable, file_id) {
            Some(j) => {
                proof {
                    lemma_index_of(before.evictable, file_id, j as int);
                    lemma_total_remove(before.evictable, j as int);
                }
                let gone = self.evictable.remove(j);
                let entry = CacheEntry { file_id, size: gone.size, pins: 1 };
                proof {
                    lemma_total_push(before.pinned, entry@);
                }
                self.pinned.push(entry);
                assert(self@.pinned =~= before.acquired(file_id, remote).pinned);
                assert(self@.evictable =~= before.acquired(file_id, remote).evictable);
                return Ok(self.handle(file_id));
            },
            None => {},
        }
        match store.get(file_id) {
            None => Err(CacheError::BlobMissing),
            Some(file) => {
                let size = file.len() as u64;
                if size > u64::MAX - self.usage {
                    return Err(CacheError::SpaceLimit);
                }
                let entry = CacheEntry { file_id, size, pins: 1 };
                proof {
                    lemma_total_push(before.pinned, entry@);
                }
                self.pinned.push(entry);
                self.usage = self.usage + size;
                assert(self@.pinned =~= before.acquired(file_id, remote).pinned);
                Ok(self.handle(file_id))
            },
        }
    }

    /// Gives back the pin that `handle` stands for. With its last pin the
    /// container becomes evictable. Returns whether the container was pinned;
    /// where it was not, nothing changes.
    pub fn release(&mut self, handle: NonEvictableHandle) -> (was_pinned: bool)
        requires
            old(self).wf(),
        ensures
            final(self).wf(),
            final(self).root() == old(self).root(),
            final(self)@ == old(self)@.released(handle.file_id()),
            was_pinned == (old(self)@.pins(handle.file_id()) > 0),
    {
        let ghost before = self@;
        let file_id = handle.file_id;
        proof {
            lemma_released(before, file_id);
        }
        match find(&self.pinned, file_id) {
            None => false,
            Some(i) => {
                proof {
                    lemma_index_of(before.pinned, file_id, i as int);
                }
                if self.pinned[i].pins > 1 {
                    let entry = CacheEntry {
                        file_id,
                        size: self.pinned[i].size,
                        pins: self.pinned[i].pins - 1,
                    };
                    self.pinned.set(i, entry);
                    assert(self@.pinned =~= before.released(file_id).pinned);
                } else {
                    let gone = self.pinned.remove(i);
                    self.evictable.push(CacheEntry { file_id, size: gone.size, pins: 0 });
                    assert(self@.pinned =~= before.released(file_id).pinned);
                    assert(self@.evictable =~= before.released(file_id).evictable);
                }
                true
            },
        }
    }

    /// Reclaims space until at most `target_bytes` are held or nothing
    /// evictable is left, the entry released longest ago first, and returns the
    /// containers evicted, in that order. Pinned entries stay, also where the
    /// cache then remains over the target.
    pub fn evict_to(&mut self, target_bytes: u64) -> (evicted: Vec<u64>)
        requires
            old(self).wf(),
        ensures
            final(self).wf(),
            final(self).root() == old(self).root(),
            final(self)@ == old(self)@.evicted_to(target_bytes),
            evicted@.len() == evict_count(
                old(self)@.evictable,
                old(self)@.usage() - target_bytes,
            ),
            forall|k: int|
                0 <= k < evicted@.len() ==> evicted@[k] == old(self)@.evictable[k].file_id,
            final(self)@.usage() <= target_bytes || final(self)@.evictable.len() == 0,
    {
        let ghost before = self@;
        let ghost excess = before.usage() - target_bytes;
        proof {
            lemma_evicted_to(before, target_bytes);
            lemma_evict_count(before.evictable, excess);
        }
        let mut evicted: Vec<u64> = Vec::new();
        let mut k: usize = 0;
        let mut freed: u64 = 0;
        assert(before.evictable.skip(0) =~= before.evictable);
        while k < self.evictable.len() && self.usage - freed > target_bytes
            invariant
                self@ == before,
                self.wf(),
                k <= self.evictable.len(),
                freed == total(before.evictable.take(k as int)),
                freed <= self.usage,
                excess == before.usage() - target_bytes,
                evict_count(before.evictable, excess) == k + evict_count(
                    before.evictable.skip(k as int),
                    excess - freed,
                ),
                evicted@.len() == k,
                forall|i: int| 0 <= i < k ==> evicted@[i] == before.evictable[i].file_id,
            decreases self.evictable.len() - k,
        {
            proof {
                assert(before.evictable.take(k + 1).drop_last() =~= before.evictable.take(
                    k as int,
                ));
                assert(before.evictable.skip(k as int).drop_first() =~= before.evictable.skip(
                    k + 1,
                ));
                lemma_total_split(before.evictable, k + 1);
            }
            evicted.push(self.evictable[k].file_id);
            freed = freed + self.evictable[k].size;
            k += 1;
        }
        proof {
            lemma_total_split(before.evictable, k as int);
            assert(evict_count(before.evictable, excess) == k);
        }
        let mut kept = self.evictable.split_off(k);
        std::mem::swap(&mut self.evictable, &mut kept);
        self.usage = self.usage - freed;
        assert(self@.evictable =~= before.evicted_to(target_bytes).evictable);
        assert(self@.pinned =~= before.pinned);
        evicted
    }
}

} // verus!
