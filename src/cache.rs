use vstd::prelude::*;
use crate::index::{DefinitionIndex, Reference};

verus! {

/// What the cache holds for one package root.
pub enum SlotView {
    /// Nothing: no build has started, or the last one failed.
    Absent,
    /// A build has started and has not finished.
    Building,
    /// A build finished with this index.
    Ready(Seq<Reference>),
}

/// What a resolution must do to obtain the index of a package.
#[derive(Debug, Clone, Copy, PartialEq, Eq, Structural)]
pub enum BuildStatus {
    /// The index is cached: read it with `get`.
    Cached,
    /// Another resolution is building it: wait for that build to finish.
    InFlight,
    /// This resolution must build it, then hand the outcome to `finish`.
    Started,
}

/// Status that `begin` reports for a package in state `s`.
pub open spec fn begin_status(s: SlotView) -> BuildStatus {
    match s {
        SlotView::Absent => BuildStatus::Started,
        SlotView::Building => BuildStatus::InFlight,
        SlotView::Ready(_) => BuildStatus::Cached,
    }
}

/// State of a package in state `s` after `begin`: a build starts only where
/// none is cached or running.
pub open spec fn begin_slot(s: SlotView) -> SlotView {
    match s {
        SlotView::Absent => SlotView::Building,
        _ => s,
    }
}

/// State of a package after its build finished with `built`: a failed build
/// leaves nothing behind.
pub open spec fn finish_slot(built: Option<Seq<Reference>>) -> SlotView {
    match built {
        Some(refs) => SlotView::Ready(refs),
        None => SlotView::Absent,
    }
}

enum Slot {
    Building,
    Ready(DefinitionIndex),
}

struct CacheEntry {
    root: String,
    slot: Slot,
}

spec fn slot_view(s: Slot) -> SlotView {
    match s {
        Slot::Building => SlotView::Building,
        Slot::Ready(ix) => SlotView::Ready(ix@),
    }
}

/// The definition indexes of the packages compiled so far, keyed by package
/// root, with at most one build running per package.
pub struct CompilationCache {
    entries: Vec<CacheEntry>,
}

impl CompilationCache {
    pub closed spec fn wf(&self) -> bool {
        forall|i: int, j: int|
            0 <= i < j < self.entries@.len() ==> #[trigger] self.entries@[i].root@
                != #[trigger] self.entries@[j].root@
    }

    /// State of the package whose root is `root`.
    pub closed spec fn slot(&self, root: Seq<char>) -> SlotView {
        if exists|i: int| 0 <= i < self.entries@.len() && #[trigger] self.entries@[i].root@ == root {
            let i = choose|i: int|
                0 <= i < self.entries@.len() && #[trigger] self.entries@[i].root@ == root;
            slot_view(self.entries@[i].slot)
        } else {
            SlotView::Absent
        }
    }

    /// An empty cache.
    pub fn new() -> (r: CompilationCache)
        ensures
            r.wf(),
            forall|root: Seq<char>| #[trigger] r.slot(root) == SlotView::Absent,
    {
        CompilationCache { entries: Vec::new() }
    }

    fn find(&self, root: &String) -> (r: Option<usize>)
        requires
            self.wf(),
        ensures
            match r {
                Some(i) => i < self.entries@.len() && self.entries@[i as int].root@ == root@
                    && self.slot(root@) == slot_view(self.entries@[i as int].slot),
                None => forall|j: int|
                    0 <= j < self.entries@.len() ==> #[trigger] self.entries@[j].root@ != root@,
            },
    {
        let mut i: usize = 0;
        while i < self.entries.len()
            invariant
                self.wf(),
                i <= self.entries@.len(),
                forall|j: int| 0 <= j < i ==> #[trigger] self.entries@[j].root@ != root@,
            decreases self.entries@.len() - i,
        {
            if self.entries[i].root == *root {
                proof {
                    let k = choose|k: int|
                        0 <= k < self.entries@.len() && #[trigger] self.entries@[k].root@ == root@;
                    if k != i {
                        if k < i {
                            assert(self.entries@[k].root@ != self.entries@[i as int].root@);
                        } else {
                            assert(self.entries@[i as int].root@ != self.entries@[k].root@);
                        }
                    }
                }
                return Some(i);
            }
            i = i + 1;
        }
        None
    }

    /// The cached index of the package at `root`, if its build has finished.
    pub fn get(&self, root: &String) -> (r: Option<&DefinitionIndex>)
        requires
            self.wf(),
        ensures
            match self.slot(root@) {
                SlotView::Ready(refs) => r is Some && r->0@ == refs,
                _ => r is None,
            },
    {
        match self.find(root) {
            Some(i) => match &self.entries[i].slot {
                Slot::Ready(ix) => Some(ix),
                Slot::Building => None,
            },
            None => None,
        }
    }

    /// Claims the build of the package at `root`: `Started` where nothing is
    /// cached or running for it, and the package is then marked as building.
    pub fn begin(&mut self, root: &String) -> (r: BuildStatus)
        requires
            old(self).wf(),
        ensures
            final(self).wf(),
            r == begin_status(old(self).slot(root@)),
            final(self).slot(root@) == begin_slot(old(self).slot(root@)),
            forall|other: Seq<char>|
                other != root@ ==> #[trigger] final(self).slot(other) == old(self).slot(other),
    {
        match self.find(root) {
            Some(i) => match &self.entries[i].slot {
                Slot::Ready(_) => BuildStatus::Cached,
                Slot::Building => BuildStatus::InFlight,
            },
            None => {
                let ghost pre = self.entries@;
                self.entries.push(CacheEntry { root: root.clone(), slot: Slot::Building });
                proof {
                    let n = pre.len() as int;
                    assert(self.entries@[n].root@ == root@);
                    assert forall|other: Seq<char>| other != root@ implies #[trigger] self.slot(
                        other,
                    ) == old(self).slot(other) by {
                        if exists|i: int|
                            0 <= i < pre.len() && #[trigger] pre[i].root@ == other {
                            let i = choose|i: int|
                                0 <= i < pre.len() && #[trigger] pre[i].root@ == other;
                            assert(self.entries@[i].root@ == other);
                            let j = choose|j: int|
                                0 <= j < self.entries@.len() && #[trigger] self.entries@[j].root@
                                    == other;
                            if i < j {
                                assert(self.entries@[i].root@ != self.entries@[j].root@);
                            } else if j < i {
                                assert(self.entries@[j].root@ != self.entries@[i].root@);
                            }
                        } else {
                            assert forall|j: int|
                                0 <= j < self.entries@.len() implies #[trigger] self.entries@[j].root@
                                != other by {
                                if j < n {
                                    assert(self.entries@[j] == pre[j]);
                                }
                            }
                        }
                    }
                    let j = choose|j: int|
                        0 <= j < self.entries@.len() && #[trigger] self.entries@[j].root@
                            == root@;
                    if j < n {
                        assert(self.entries@[j] == pre[j]);
                    }
                }
                BuildStatus::Started
            },
        }
    }

    /// Records the outcome of the build of the package at `root`: its index,
    /// or `None` where it failed, which leaves nothing cached so that the
    /// next resolution builds again.
    pub fn finish(&mut self, root: &String, built: Option<DefinitionIndex>)
        requires
            old(self).wf(),
            old(self).slot(root@) == SlotView::Building,
        ensures
            final(self).wf(),
            final(self).slot(root@) == finish_slot(
                match built {
                    Some(ix) => Some(ix@),
                    None => None,
                },
            ),
            forall|other: Seq<char>|
                other != root@ ==> #[trigger] final(self).slot(other) == old(self).slot(other),
    {
        let i = match self.find(root) {
            Some(i) => i,
            None => {
                return;
            },
        };
        let ghost pre = self.entries@;
        match built {
            Some(ix) => {
                self.entries.set(i, CacheEntry { root: root.clone(), slot: Slot::Ready(ix) });
                proof {
                    assert forall|a: int, b: int|
                        0 <= a < b < self.entries@.len() implies #[trigger] self.entries@[a].root@
                        != #[trigger] self.entries@[b].root@ by {
                        assert(pre[a].root@ != pre[b].root@);
                    }
                    assert forall|other: Seq<char>| true implies (#[trigger] self.slot(other))
                        == (if other == root@ { self.slot(root@) } else { old(self).slot(other) }) by {
                        if other != root@ {
                            if exists|k: int| 0 <= k < pre.len() && #[trigger] pre[k].root@ == other {
                                let k = choose|k: int|
                                    0 <= k < pre.len() && #[trigger] pre[k].root@ == other;
                                assert(self.entries@[k].root@ == other);
                            } else {
                                assert forall|j: int|
                                    0 <= j < self.entries@.len() implies #[trigger] self.entries@[j].root@
                                    != other by {
                                    assert(pre[j].root@ != other || j == i);
                                }
                            }
                        }
                    }
                    assert(self.entries@[i as int].root@ == root@);
                    let j = choose|j: int|
                        0 <= j < self.entries@.len() && #[trigger] self.entries@[j].root@ == root@;
                    if j != i as int {
                        assert(pre[j].root@ == root@);
                        if j < i {
                            assert(pre[j].root@ != pre[i as int].root@);
                        } else {
                            assert(pre[i as int].root@ != pre[j].root@);
                        }
                    }
                }
            },
            None => {
                self.entries.remove(i);
                proof {
                    assert forall|a: int, b: int|
                        0 <= a < b < self.entries@.len() implies #[trigger] self.entries@[a].root@
                        != #[trigger] self.entries@[b].root@ by {
                        let pa = if a < i { a } else { a + 1 };
                        let pb = if b < i { b } else { b + 1 };
                        assert(self.entries@[a] == pre[pa]);
                        assert(self.entries@[b] == pre[pb]);
                        assert(pre[pa].root@ != pre[pb].root@);
                    }
                    assert forall|j: int|
                        0 <= j < self.entries@.len() implies #[trigger] self.entries@[j].root@
                        != root@ by {
                        let pj = if j < i { j } else { j + 1 };
                        assert(self.entries@[j] == pre[pj]);
                        if pj < i {
                            assert(pre[pj].root@ != pre[i as int].root@);
                        } else {
                            assert(pre[i as int].root@ != pre[pj].root@);
                        }
                    }
                    assert forall|other: Seq<char>| other != root@ implies #[trigger] self.slot(other)
                        == old(self).slot(other) by {
                        if exists|k: int| 0 <= k < pre.len() && #[trigger] pre[k].root@ == other {
                            let k = choose|k: int|
                                0 <= k < pre.len() && #[trigger] pre[k].root@ == other;
                            assert(k != i);
                            let nk = if k < i { k } else { k - 1 };
                            assert(self.entries@[nk] == pre[k]);
                            let j = choose|j: int|
                                0 <= j < self.entries@.len() && #[trigger] self.entries@[j].root@
                                    == other;
                            let pj = if j < i { j } else { j + 1 };
                            assert(self.entries@[j] == pre[pj]);
                            if pj < k {
                                assert(pre[pj].root@ != pre[k].root@);
                            } else if k < pj {
                                assert(pre[k].root@ != pre[pj].root@);
                            }
                        } else {
                            assert forall|j: int|
                                0 <= j < self.entries@.len() implies #[trigger] self.entries@[j].root@
                                != other by {
                                let pj = if j < i { j } else { j + 1 };
                                assert(self.entries@[j] == pre[pj]);
                            }
                        }
                    }
                }
            },
        }
    }
}

/// Resolutions of one package that nothing has built coalesce: the first
/// starts the build and the second, arriving while it runs, waits for it.
/// Once it has produced an index, a third resolution reuses that index and
/// starts no build; once it has failed, the next resolution builds afresh.
pub proof fn lemma_builds_coalesce(s: SlotView, refs: Seq<Reference>)
    requires
        s == SlotView::Absent,
    ensures
        begin_status(s) == BuildStatus::Started,
        begin_status(begin_slot(s)) == BuildStatus::InFlight,
        begin_slot(begin_slot(s)) == SlotView::Building,
        begin_status(finish_slot(Some(refs))) == BuildStatus::Cached,
        begin_slot(finish_slot(Some(refs))) == SlotView::Ready(refs),
        begin_status(finish_slot(None)) == BuildStatus::Started,
{
}

} // verus!
