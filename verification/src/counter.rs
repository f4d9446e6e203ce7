//! Per-worker reference counts, as kept on every node of the prefix tree.

use vstd::prelude::*;

verus! {

/// One worker together with the number of stored texts attributed to it.
struct Tally {
    worker: String,
    count: u64,
}

/// A finite map from worker URL to a positive count.
///
/// A worker that is absent counts as zero; an entry never holds zero.
pub struct Counter {
    entries: Vec<Tally>,
}

/// Whether `r` is the position in `order` of the leading worker of `counts`:
/// the earliest worker of `order` whose count is positive and is not exceeded
/// by the count of any other worker of `order`. `None` says that no worker of
/// `order` has a positive count.
pub open spec fn is_lead(counts: Map<Seq<char>, nat>, order: Seq<Seq<char>>, r: Option<int>) -> bool {
    match r {
        Some(i) => {
            &&& 0 <= i < order.len()
            &&& amount(counts, order[i]) > 0
            &&& forall|j: int| 0 <= j < order.len() ==> amount(counts, #[trigger] order[j]) <= amount(counts, order[i])
            &&& forall|j: int| 0 <= j < i ==> amount(counts, #[trigger] order[j]) < amount(counts, order[i])
        },
        None => forall|j: int| 0 <= j < order.len() ==> amount(counts, #[trigger] order[j]) == 0,
    }
}

/// The count that `counts` holds for `worker`, zero when it holds none.
pub open spec fn amount(counts: Map<Seq<char>, nat>, worker: Seq<char>) -> nat {
    if counts.contains_key(worker) {
        counts[worker]
    } else {
        0
    }
}

impl View for Counter {
    type V = Map<Seq<char>, nat>;

    closed spec fn view(&self) -> Map<Seq<char>, nat> {
        Map::new(
            |w: Seq<char>| exists|i: int| 0 <= i < self.entries@.len() && #[trigger] self.entries@[i].worker@ == w,
            |w: Seq<char>| self.entries@[Self::place(self.entries@, w)].count as nat,
        )
    }
}

impl Counter {
    spec fn place(entries: Seq<Tally>, w: Seq<char>) -> int {
        choose|i: int| 0 <= i < entries.len() && #[trigger] entries[i].worker@ == w
    }

    /// Every worker occurs once and every count is positive.
    pub closed spec fn wf(&self) -> bool {
        &&& forall|i: int, j: int|
            0 <= i < j < self.entries@.len() ==> #[trigger] self.entries@[i].worker@ != #[trigger] self.entries@[j].worker@
        &&& forall|i: int| 0 <= i < self.entries@.len() ==> (#[trigger] self.entries@[i]).count > 0
    }

    /// The count of `worker`, zero when absent.
    pub open spec fn of(&self, worker: Seq<char>) -> nat {
        amount(self@, worker)
    }

    /// A well-formed counter never maps a worker to zero and stays within `u64`.
    pub proof fn lemma_positive(&self)
        requires
            self.wf(),
        ensures
            forall|w: Seq<char>| self@.contains_key(w) ==> 0 < #[trigger] self@[w] <= u64::MAX,
            forall|w: Seq<char>| #[trigger] self.of(w) <= u64::MAX,
    {
        assert forall|w: Seq<char>| self@.contains_key(w) implies 0 < #[trigger] self@[w] <= u64::MAX by {
            let i = Self::place(self.entries@, w);
            assert(self.entries@[i].count > 0);
        }
    }

    proof fn lemma_entry(&self, i: int)
        requires
            self.wf(),
            0 <= i < self.entries@.len(),
        ensures
            self@.contains_key(self.entries@[i].worker@),
            self@[self.entries@[i].worker@] == self.entries@[i].count,
    {
        let w = self.entries@[i].worker@;
        let j = Self::place(self.entries@, w);
        assert(self.entries@[j].worker@ == w);
        if j < i {
            assert(self.entries@[j].worker@ != self.entries@[i].worker@);
        } else if i < j {
            assert(self.entries@[i].worker@ != self.entries@[j].worker@);
        }
    }

    pub fn new() -> (r: Counter)
        ensures
            r.wf(),
            r@ == Map::<Seq<char>, nat>::empty(),
    {
        let r = Counter { entries: Vec::new() };
        assert(r@ =~= Map::<Seq<char>, nat>::empty());
        r
    }

    fn find(&self, worker: &String) -> (r: Option<usize>)
        requires
            self.wf(),
        ensures
            match r {
                Some(i) => i < self.entries@.len() && self.entries@[i as int].worker@ == worker@,
                None => !self@.contains_key(worker@),
            },
    {
        let mut i: usize = 0;
        while i < self.entries.len()
            invariant
                i <= self.entries@.len(),
                forall|j: int| 0 <= j < i ==> (#[trigger] self.entries@[j]).worker@ != worker@,
            decreases self.entries@.len() - i,
        {
            if self.entries[i].worker == *worker {
                return Some(i);
            }
            i += 1;
        }
        None
    }

    /// The count of `worker`, zero when absent.
    pub fn get(&self, worker: &String) -> (r: u64)
        requires
            self.wf(),
        ensures
            r == self.of(worker@),
    {
        match self.find(worker) {
            Some(i) => {
                proof {
                    self.lemma_entry(i as int);
                }
                self.entries[i].count
            },
            None => 0,
        }
    }

    /// Whether no worker has a count.
    pub fn is_empty(&self) -> (r: bool)
        requires
            self.wf(),
        ensures
            r <==> self@ == Map::<Seq<char>, nat>::empty(),
    {
        let r = self.entries.len() == 0;
        proof {
            if r {
                assert(self@ =~= Map::<Seq<char>, nat>::empty());
            } else {
                self.lemma_entry(0);
            }
        }
        r
    }

    /// Adds one to the count of `worker`, entering it with count one when absent.
    pub fn bump(&mut self, worker: &String)
        requires
            old(self).wf(),
            old(self).of(worker@) < u64::MAX,
        ensures
            final(self).wf(),
            final(self)@ == old(self)@.insert(worker@, old(self).of(worker@) + 1),
    {
        let found = self.find(worker);
        match found {
            Some(i) => {
                proof {
                    self.lemma_entry(i as int);
                }
                let n: u64 = self.entries[i].count;
                let e = &mut self.entries[i];
                e.count = n + 1;
                proof {
                    let before = old(self).entries@;
                    let after = self.entries@;
                    assert(after.len() == before.len());
                    assert forall|j: int| 0 <= j < after.len() implies (#[trigger] after[j]).worker@ == before[j].worker@ by {}
                    assert(self.wf());
                    assert forall|w: Seq<char>| #[trigger] self@.contains_key(w) == old(self)@.insert(worker@, (n + 1) as nat).contains_key(w) by {
                        if self@.contains_key(w) {
                            let j = Self::place(after, w);
                            assert(before[j].worker@ == w);
                        }
                        if old(self)@.contains_key(w) {
                            let j = Self::place(before, w);
                            assert(after[j].worker@ == w);
                        }
                        if w == worker@ {
                            assert(after[i as int].worker@ == w);
                        }
                    }
                    assert forall|w: Seq<char>| self@.contains_key(w) implies #[trigger] self@[w] == old(self)@.insert(worker@, (n + 1) as nat)[w] by {
                        let j = Self::place(after, w);
                        self.lemma_entry(j);
                        assert(before[j].worker@ == w);
                        old(self).lemma_entry(j);
                    }
                    assert(self@ =~= old(self)@.insert(worker@, (n + 1) as nat));
                }
            },
            None => {
                self.entries.push(Tally { worker: worker.clone(), count: 1 });
                proof {
                    let before = old(self).entries@;
                    let after = self.entries@;
                    let last = before.len() as int;
                    assert(after[last].worker@ == worker@);
                    assert forall|j: int| 0 <= j < before.len() implies #[trigger] after[j] == before[j] by {}
                    assert forall|a: int, b: int| 0 <= a < b < after.len() implies #[trigger] after[a].worker@ != #[trigger] after[b].worker@ by {
                        if b == last {
                            assert(before[a].worker@ != worker@);
                        } else {
                            assert(before[a].worker@ != before[b].worker@);
                        }
                    }
                    assert(self.wf());
                    assert forall|w: Seq<char>| #[trigger] self@.contains_key(w) == old(self)@.insert(worker@, 1nat).contains_key(w) by {
                        if self@.contains_key(w) && w != worker@ {
                            let j = Self::place(after, w);
                            assert(before[j].worker@ == w);
                        }
                        if old(self)@.contains_key(w) {
                            let j = Self::place(before, w);
                            assert(after[j].worker@ == w);
                        }
                    }
                    assert forall|w: Seq<char>| self@.contains_key(w) implies #[trigger] self@[w] == old(self)@.insert(worker@, 1nat)[w] by {
                        let j = Self::place(after, w);
                        self.lemma_entry(j);
                        if j < last {
                            old(self).lemma_entry(j);
                        }
                    }
                    assert(self@ =~= old(self)@.insert(worker@, 1nat));
                }
            },
        }
    }

    /// Forgets `worker`; a counter that holds no such worker is left as it is.
    pub fn remove(&mut self, worker: &String)
        requires
            old(self).wf(),
        ensures
            final(self).wf(),
            final(self)@ == old(self)@.remove(worker@),
    {
        let found = self.find(worker);
        match found {
            Some(i) => {
                let gone = self.entries.remove(i);
                proof {
                    let before = old(self).entries@;
                    let after = self.entries@;
                    assert(after == before.remove(i as int));
                    assert forall|j: int| 0 <= j < after.len() implies #[trigger] after[j] == before[if j < i { j } else { j + 1 }] by {}
                    assert forall|a: int, b: int| 0 <= a < b < after.len() implies #[trigger] after[a].worker@ != #[trigger] after[b].worker@ by {
                        let a0 = if a < i { a } else { a + 1 };
                        let b0 = if b < i { b } else { b + 1 };
                        assert(before[a0].worker@ != before[b0].worker@);
                    }
                    assert forall|j: int| 0 <= j < after.len() implies (#[trigger] after[j]).count > 0 by {
                        let j0 = if j < i { j } else { j + 1 };
                        assert(before[j0].count > 0);
                    }
                    assert(self.wf());
                    assert forall|w: Seq<char>| #[trigger] self@.contains_key(w) == old(self)@.remove(worker@).contains_key(w) by {
                        if self@.contains_key(w) {
                            let j = Self::place(after, w);
                            let j0 = if j < i { j } else { j + 1 };
                            assert(before[j0].worker@ == w);
                            if j0 < i {
                                assert(before[j0].worker@ != before[i as int].worker@);
                            } else {
                                assert(before[i as int].worker@ != before[j0].worker@);
                            }
                        }
                        if old(self)@.contains_key(w) && w != worker@ {
                            let j = Self::place(before, w);
                            let j1 = if j < i { j } else { j - 1 };
                            assert(after[j1].worker@ == w);
                        }
                    }
                    assert forall|w: Seq<char>| self@.contains_key(w) implies #[trigger] self@[w] == old(self)@.remove(worker@)[w] by {
                        let j = Self::place(after, w);
                        let j0 = if j < i { j } else { j + 1 };
                        self.lemma_entry(j);
                        old(self).lemma_entry(j0);
                    }
                    assert(self@ =~= old(self)@.remove(worker@));
                }
            },
            None => {
                assert(self@ =~= old(self)@.remove(worker@));
            },
        }
    }

    /// A copy with the same counts.
    pub fn duplicate(&self) -> (r: Counter)
        requires
            self.wf(),
        ensures
            r.wf(),
            r@ == self@,
    {
        let mut entries: Vec<Tally> = Vec::new();
        let mut i: usize = 0;
        while i < self.entries.len()
            invariant
                i <= self.entries@.len(),
                entries@.len() == i,
                forall|j: int| 0 <= j < i ==> (#[trigger] entries@[j]).worker@ == self.entries@[j].worker@ && entries@[j].count == self.entries@[j].count,
            decreases self.entries@.len() - i,
        {
            entries.push(Tally { worker: self.entries[i].worker.clone(), count: self.entries[i].count });
            i += 1;
        }
        let r = Counter { entries };
        proof {
            assert forall|a: int, b: int| 0 <= a < b < r.entries@.len() implies #[trigger] r.entries@[a].worker@ != #[trigger] r.entries@[b].worker@ by {
                assert(self.entries@[a].worker@ != self.entries@[b].worker@);
            }
            assert forall|j: int| 0 <= j < r.entries@.len() implies (#[trigger] r.entries@[j]).count > 0 by {
                assert(self.entries@[j].count > 0);
            }
            assert forall|w: Seq<char>| #[trigger] r@.contains_key(w) == self@.contains_key(w) by {
                if r@.contains_key(w) {
                    let j = Self::place(r.entries@, w);
                    assert(self.entries@[j].worker@ == w);
                }
                if self@.contains_key(w) {
                    let j = Self::place(self.entries@, w);
                    assert(r.entries@[j].worker@ == w);
                }
            }
            assert forall|w: Seq<char>| r@.contains_key(w) implies #[trigger] r@[w] == self@[w] by {
                let j = Self::place(r.entries@, w);
                r.lemma_entry(j);
                self.lemma_entry(j);
            }
            assert(r@ =~= self@);
        }
        r
    }

    /// Whether every count here is matched or exceeded in `other`.
    pub fn within(&self, other: &Counter) -> (r: bool)
        requires
            self.wf(),
            other.wf(),
        ensures
            r <==> forall|w: Seq<char>| self.of(w) <= #[trigger] other.of(w),
    {
        let mut i: usize = 0;
        while i < self.entries.len()
            invariant
                self.wf(),
                other.wf(),
                i <= self.entries@.len(),
                forall|j: int| 0 <= j < i ==> (#[trigger] self.entries@[j]).count <= other.of(self.entries@[j].worker@),
            decreases self.entries@.len() - i,
        {
            let c = other.get(&self.entries[i].worker);
            if c < self.entries[i].count {
                proof {
                    self.lemma_entry(i as int);
                    assert(self.of(self.entries@[i as int].worker@) > other.of(self.entries@[i as int].worker@));
                }
                return false;
            }
            i += 1;
        }
        proof {
            assert forall|w: Seq<char>| self.of(w) <= #[trigger] other.of(w) by {
                if self@.contains_key(w) {
                    let j = Self::place(self.entries@, w);
                    self.lemma_entry(j);
                    assert(self.entries@[j].count <= other.of(self.entries@[j].worker@));
                }
            }
        }
        true
    }

    /// The position in `order` of the leading worker: the earliest among those
    /// of `order` with the highest count, provided that count is positive.
    pub fn lead(&self, order: &Vec<String>) -> (r: Option<usize>)
        requires
            self.wf(),
        ensures
            is_lead(self@, order.deep_view(), match r { Some(i) => Some(i as int), None => None }),
    {
        let ghost names = order.deep_view();
        let mut best: Option<usize> = None;
        let mut top: u64 = 0;
        let mut i: usize = 0;
        while i < order.len()
            invariant
                self.wf(),
                names == order.deep_view(),
                names.len() == order@.len(),
                i <= order@.len(),
                best is None ==> top == 0,
                best matches Some(b) ==> b < i && top == self.of(names[b as int]) && top > 0,
                forall|j: int| 0 <= j < i ==> self.of(#[trigger] names[j]) <= top,
                best matches Some(b) ==> forall|j: int| 0 <= j < b ==> self.of(#[trigger] names[j]) < top,
            decreases order@.len() - i,
        {
            assert(names[i as int] == order@[i as int]@);
            let c = self.get(&order[i]);
            if c > top {
                top = c;
                best = Some(i);
            }
            i += 1;
        }
        best
    }
}

} // verus!
