//! The register file of the scheduler: memory slots that hold names, and
//! the count of the reads that remain of each name.

use vstd::prelude::*;
use crate::ssa_block::{Name, NameView};

verus! {

/// Why a block cannot be scheduled.
#[derive(Clone, Debug, PartialEq, Eq)]
pub enum ScheduleError {
    /// The name is read while no slot holds it.
    UndefinedReference(Name),
    /// The name is read more often than the block was counted to read it.
    UseAfterRelease(Name),
}

/// The mathematical value of a `ScheduleError`.
pub ghost enum ScheduleErrorView {
    UndefinedReference(NameView),
    UseAfterRelease(NameView),
}

impl View for ScheduleError {
    type V = ScheduleErrorView;

    open spec fn view(&self) -> ScheduleErrorView {
        match self {
            ScheduleError::UndefinedReference(n) => ScheduleErrorView::UndefinedReference(n@),
            ScheduleError::UseAfterRelease(n) => ScheduleErrorView::UseAfterRelease(n@),
        }
    }
}

/// The lowest index at or above `k` at which `slots` holds `target`.
pub open spec fn first_index_of(slots: Seq<Option<NameView>>, target: Option<NameView>, k: int) -> Option<nat>
    decreases slots.len() - k,
{
    if k < 0 || k >= slots.len() {
        None
    } else if slots[k] == target {
        Some(k as nat)
    } else {
        first_index_of(slots, target, k + 1)
    }
}

/// `first_index_of` finds the lowest index that holds the target, and finds
/// nothing only where no index holds it.
pub proof fn lemma_first_index_of(slots: Seq<Option<NameView>>, target: Option<NameView>, k: int)
    requires
        0 <= k,
    ensures
        match first_index_of(slots, target, k) {
            Some(i) => k <= i < slots.len() && slots[i as int] == target && forall|j: int|
                k <= j < i ==> slots[j] != target,
            None => forall|j: int| k <= j < slots.len() ==> slots[j] != target,
        },
    decreases slots.len() - k,
{
    if k < slots.len() && slots[k] != target {
        lemma_first_index_of(slots, target, k + 1);
    }
}

/// How many of the slots from index `k` on hold a name.
pub open spec fn live(slots: Seq<Option<NameView>>, k: int) -> nat
    decreases slots.len() - k,
{
    if k < 0 || k >= slots.len() {
        0
    } else if slots[k] is Some {
        1 + live(slots, k + 1)
    } else {
        live(slots, k + 1)
    }
}

/// The register file as the scheduler sees it: which name each memory slot
/// holds, how many reads of each name are still to come, and the greatest
/// number of slots that have held a name at one time.
pub ghost struct Registers {
    pub slots: Seq<Option<NameView>>,
    pub remaining: Map<NameView, nat>,
    pub peak: nat,
}

impl Registers {
    /// Every name has a count; a name that is never read has count zero.
    pub open spec fn wf(self) -> bool {
        forall|n: NameView| self.remaining.dom().contains(n)
    }

    /// The register file with `slots` in place of its own, the peak
    /// raised to the number of names that they hold.
    pub open spec fn holding(self, slots: Seq<Option<NameView>>) -> Registers {
        Registers {
            slots,
            peak: if live(slots, 0) > self.peak {
                live(slots, 0)
            } else {
                self.peak
            },
            ..self
        }
    }

    /// The slot that holds `name`, if one does.
    pub open spec fn get_loc(self, name: NameView) -> Option<nat> {
        first_index_of(self.slots, Some(name), 0)
    }

    /// The slot of `name`; a name that has none takes the lowest empty
    /// slot, or a new slot behind the others where none is empty.
    pub open spec fn get_or_assign_loc(self, name: NameView) -> (Registers, nat) {
        match self.get_loc(name) {
            Some(i) => (self, i),
            None => match first_index_of(self.slots, None, 0) {
                Some(i) => (self.holding(self.slots.update(i as int, Some(name))), i),
                None => (self.holding(self.slots.push(Some(name))), self.slots.len()),
            },
        }
    }

    /// One read of `name`: its count goes down by one, and its slot is
    /// released when the count reaches zero.
    pub open spec fn use_reference(self, name: NameView) -> Result<(Registers, nat), ScheduleErrorView> {
        match self.get_loc(name) {
            None => Err(ScheduleErrorView::UndefinedReference(name)),
            Some(loc) => if self.remaining[name] == 0 {
                Err(ScheduleErrorView::UseAfterRelease(name))
            } else {
                let count = (self.remaining[name] - 1) as nat;
                Ok((
                    Registers {
                        slots: if count == 0 {
                            self.slots.update(loc as int, None)
                        } else {
                            self.slots
                        },
                        remaining: self.remaining.insert(name, count),
                        peak: self.peak,
                    },
                    loc,
                ))
            },
        }
    }
}

/// How many reads of one name are still to come.
#[derive(Clone, Debug)]
pub struct RefCount {
    pub name: Name,
    pub count: usize,
}

/// The count that `list` records for `n` at or above index `k`: that of the
/// first entry with this name, zero where there is none.
pub open spec fn lookup_count(list: Seq<RefCount>, n: NameView, k: int) -> nat
    decreases list.len() - k,
{
    if k < 0 || k >= list.len() {
        0
    } else if list[k].name@ == n {
        list[k].count as nat
    } else {
        lookup_count(list, n, k + 1)
    }
}

/// Whether no name has two entries in the list.
pub open spec fn counted_once(list: Seq<RefCount>) -> bool {
    forall|i: int, j: int| 0 <= i < j < list.len() ==> list[i].name@ != list[j].name@
}

/// The counts that a list of entries records, as a map on all names.
pub open spec fn counts_view(list: Seq<RefCount>) -> Map<NameView, nat> {
    Map::new(|n: NameView| true, |n: NameView| lookup_count(list, n, 0))
}

/// The names that a file of slots holds.
pub open spec fn slots_view(slots: Seq<Option<Name>>) -> Seq<Option<NameView>> {
    Seq::new(
        slots.len(),
        |i: int|
            match slots[i] {
                Some(n) => Some(n@),
                None => None,
            },
    )
}

/// The scheduler's register file: memory slots used as registers, the
/// reads that remain of each name, and the greatest number of slots that
/// have held a name at one time.
pub struct MemoryAsRegisters {
    pub slots: Vec<Option<Name>>,
    pub remaining_ref_counts: Vec<RefCount>,
    pub peak: Ghost<nat>,
}

impl View for MemoryAsRegisters {
    type V = Registers;

    open spec fn view(&self) -> Registers {
        Registers {
            slots: slots_view(self.slots@),
            remaining: counts_view(self.remaining_ref_counts@),
            peak: self.peak@,
        }
    }
}

/// Replacing the first entry of a name changes the count of that name and
/// of no other.
pub proof fn lemma_lookup_update(list: Seq<RefCount>, i: int, entry: RefCount, n: NameView, k: int)
    requires
        0 <= k <= i < list.len(),
        entry.name@ == list[i].name@,
        forall|j: int| k <= j < i ==> list[j].name@ != entry.name@,
    ensures
        lookup_count(list.update(i, entry), n, k) == if n == entry.name@ {
            entry.count as nat
        } else {
            lookup_count(list, n, k)
        },
    decreases i - k,
{
    if k < i {
        lemma_lookup_update(list, i, entry, n, k + 1);
    } else {
        lemma_lookup_same_tail(list, list.update(i, entry), n, i + 1);
    }
}

/// Two lists that agree from `k` on record the same counts from `k` on.
pub proof fn lemma_lookup_same_tail(a: Seq<RefCount>, b: Seq<RefCount>, n: NameView, k: int)
    requires
        a.len() == b.len(),
        0 <= k,
        forall|j: int| k <= j < a.len() ==> a[j] == b[j],
    ensures
        lookup_count(a, n, k) == lookup_count(b, n, k),
    decreases a.len() - k,
{
    if k < a.len() {
        lemma_lookup_same_tail(a, b, n, k + 1);
    }
}

/// A new entry behind a list that lacks its name gives that name its count
/// and changes no other.
pub proof fn lemma_lookup_push(list: Seq<RefCount>, entry: RefCount, n: NameView, k: int)
    requires
        0 <= k <= list.len(),
        forall|j: int| k <= j < list.len() ==> list[j].name@ != entry.name@,
    ensures
        lookup_count(list.push(entry), n, k) == if n == entry.name@ {
            entry.count as nat
        } else {
            lookup_count(list, n, k)
        },
    decreases list.len() - k,
{
    if k < list.len() {
        lemma_lookup_push(list, entry, n, k + 1);
    } else {
        assert(lookup_count(list.push(entry), n, k + 1) == 0);
    }
}

/// A list in which no entry from `k` on has the name records zero for it.
pub proof fn lemma_lookup_absent(list: Seq<RefCount>, n: NameView, k: int)
    requires
        0 <= k,
        forall|j: int| k <= j < list.len() ==> list[j].name@ != n,
    ensures
        lookup_count(list, n, k) == 0,
    decreases list.len() - k,
{
    if k < list.len() {
        lemma_lookup_absent(list, n, k + 1);
    }
}

/// The count of a name is that of its first entry.
pub proof fn lemma_lookup_found(list: Seq<RefCount>, n: NameView, i: int, k: int)
    requires
        0 <= k <= i < list.len(),
        list[i].name@ == n,
        forall|j: int| k <= j < i ==> list[j].name@ != n,
    ensures
        lookup_count(list, n, k) == list[i].count,
    decreases i - k,
{
    if k < i {
        lemma_lookup_found(list, n, i, k + 1);
    }
}

/// Where the first entry of `name` stands in a list of counts.
pub fn find_entry(list: &Vec<RefCount>, name: &Name) -> (r: Option<usize>)
    ensures
        match r {
            Some(i) => i < list.len() && list[i as int].name@ == name@ && forall|j: int|
                0 <= j < i ==> list[j].name@ != name@,
            None => forall|j: int| 0 <= j < list.len() ==> list[j].name@ != name@,
        },
{
    let mut i: usize = 0;
    while i < list.len()
        invariant
            i <= list.len(),
            forall|j: int| 0 <= j < i ==> list[j].name@ != name@,
        decreases list.len() - i,
    {
        if list[i].name.same(name) {
            return Some(i);
        }
        i += 1;
    }
    None
}

impl MemoryAsRegisters {
    /// No name has two entries in the list of counts.
    pub open spec fn wf(&self) -> bool {
        counted_once(self.remaining_ref_counts@)
    }

    /// How many slots there are, released ones included.
    pub fn len(&self) -> (r: usize)
        ensures
            r == self@.slots.len(),
    {
        self.slots.len()
    }

    /// How many reads of `name` are still to come.
    pub fn get_rem_ref_count(&self, name: &Name) -> (r: usize)
        ensures
            r == self@.remaining[name@],
    {
        match find_entry(&self.remaining_ref_counts, name) {
            Some(i) => {
                proof {
                    lemma_lookup_found(self.remaining_ref_counts@, name@, i as int, 0);
                }
                self.remaining_ref_counts[i].count
            },
            None => {
                proof {
                    lemma_lookup_absent(self.remaining_ref_counts@, name@, 0);
                }
                0
            },
        }
    }

    /// The slot that holds `name`, if one does.
    pub fn get_loc(&self, name: &Name) -> (r: Option<usize>)
        ensures
            match r {
                Some(i) => self@.get_loc(name@) == Some(i as nat) && i < self.slots.len(),
                None => self@.get_loc(name@) is None,
            },
    {
        let mut i: usize = 0;
        while i < self.slots.len()
            invariant
                i <= self.slots.len(),
                first_index_of(self@.slots, Some(name@), 0) == first_index_of(
                    self@.slots,
                    Some(name@),
                    i as int,
                ),
            decreases self.slots.len() - i,
        {
            let found = match &self.slots[i] {
                Some(inner) => inner.same(name),
                None => false,
            };
            if found {
                return Some(i);
            }
            i += 1;
        }
        None
    }

    /// The lowest slot that holds no name, if there is one.
    fn first_empty(&self) -> (r: Option<usize>)
        ensures
            match r {
                Some(i) => first_index_of(self@.slots, None, 0) == Some(i as nat),
                None => first_index_of(self@.slots, None, 0) is None,
            },
    {
        let mut i: usize = 0;
        while i < self.slots.len()
            invariant
                i <= self.slots.len(),
                first_index_of(self@.slots, None, 0) == first_index_of(self@.slots, None, i as int),
            decreases self.slots.len() - i,
        {
            if self.slots[i].is_none() {
                return Some(i);
            }
            i += 1;
        }
        None
    }

    /// The slot of `name`; a name that has none takes the lowest empty
    /// slot, or a new slot behind the others where none is empty.
    pub fn get_or_assign_loc(&mut self, name: &Name) -> (r: usize)
        ensures
            old(self)@.get_or_assign_loc(name@) == (final(self)@, r as nat),
            final(self).remaining_ref_counts == old(self).remaining_ref_counts,
    {
        if let Some(slot) = self.get_loc(name) {
            return slot;
        }
        match self.first_empty() {
            Some(i) => {
                proof {
                    lemma_first_index_of(self@.slots, None, 0);
                }
                self.slots.set(i, Some(name.duplicate()));
                assert(self@.slots =~= old(self)@.slots.update(i as int, Some(name@)));
                self.peak = Ghost(old(self)@.holding(self@.slots).peak);
                i
            },
            None => {
                let index = self.slots.len();
                self.slots.push(Some(name.duplicate()));
                assert(self@.slots =~= old(self)@.slots.push(Some(name@)));
                self.peak = Ghost(old(self)@.holding(self@.slots).peak);
                index
            },
        }
    }

    /// One read of `name`: its count goes down by one, and its slot is
    /// released when the count reaches zero. Fails, and changes nothing,
    /// where no slot holds the name or its count is zero already.
    pub fn use_reference(&mut self, name: &Name) -> (r: Result<usize, ScheduleError>)
        ensures
            match r {
                Ok(loc) => old(self)@.use_reference(name@) == Ok::<
                    (Registers, nat),
                    ScheduleErrorView,
                >((final(self)@, loc as nat)) && loc < old(self).slots.len(),
                Err(e) => old(self)@.use_reference(name@) == Err::<
                    (Registers, nat),
                    ScheduleErrorView,
                >(e@) && final(self)@ == old(self)@,
            },
            old(self).wf() ==> final(self).wf(),
    {
        let loc = match self.get_loc(name) {
            Some(loc) => loc,
            None => {
                return Err(ScheduleError::UndefinedReference(name.duplicate()));
            },
        };
        proof {
            lemma_first_index_of(self@.slots, Some(name@), 0);
        }
        let entry = find_entry(&self.remaining_ref_counts, name);
        let index = match entry {
            Some(index) => index,
            None => {
                proof {
                    lemma_lookup_absent(self.remaining_ref_counts@, name@, 0);
                }
                return Err(ScheduleError::UseAfterRelease(name.duplicate()));
            },
        };
        proof {
            lemma_lookup_found(self.remaining_ref_counts@, name@, index as int, 0);
        }
        let count = self.remaining_ref_counts[index].count;
        if count == 0 {
            return Err(ScheduleError::UseAfterRelease(name.duplicate()));
        }
        let entry = RefCount { name: name.duplicate(), count: count - 1 };
        proof {
            assert forall|n: NameView|
                lookup_count(self.remaining_ref_counts@.update(index as int, entry), n, 0) == if n
                    == name@ {
                    (count - 1) as nat
                } else {
                    lookup_count(self.remaining_ref_counts@, n, 0)
                } by {
                lemma_lookup_update(self.remaining_ref_counts@, index as int, entry, n, 0);
            }
        }
        self.remaining_ref_counts.set(index, entry);
        assert(self@.remaining =~= old(self)@.remaining.insert(name@, (count - 1) as nat));
        if count - 1 == 0 {
            self.slots.set(loc, None);
            assert(self@.slots =~= old(self)@.slots.update(loc as int, None));
        }
        Ok(loc)
    }
}

} // verus!
