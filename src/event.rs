//! Decisions of event dispatch: the order in which pending events run, and
//! whether a system may run beside the systems already active.
use vstd::prelude::*;

use crate::bit_set::BitSet;

verus! {

/// The pending events, most recent on top. Events sent by one handler are
/// pushed so that the first sent is dispatched first, and all of them (with
/// what they send in turn) run before older pending events: dispatch is
/// depth first.
pub struct EventStack {
    stack: Vec<u32>,
}

impl View for EventStack {
    type V = Seq<u32>;

    /// The pending events, the next one to run last.
    closed spec fn view(&self) -> Seq<u32> {
        self.stack@
    }
}

impl EventStack {
    pub fn new() -> (r: Self)
        ensures
            r@ == Seq::<u32>::empty(),
    {
        EventStack { stack: Vec::new() }
    }

    pub fn is_empty(&self) -> (r: bool)
        ensures
            r == (self@.len() == 0),
    {
        self.stack.len() == 0
    }

    /// Records the events one handler sent, in the order it sent them. The
    /// first of them becomes the next to run.
    pub fn push_sent(&mut self, sent: &Vec<u32>)
        ensures
            final(self)@ == old(self)@ + sent@.reverse(),
    {
        let mut k: usize = sent.len();
        while k > 0
            invariant
                k <= sent@.len(),
                self@ == old(self)@ + sent@.skip(k as int).reverse(),
            decreases k,
        {
            k -= 1;
            self.stack.push(sent[k]);
            proof {
                assert(sent@.skip(k as int).reverse() =~= sent@.skip(k + 1).reverse().push(sent@[k as int]));
            }
        }
        assert(sent@.skip(0) =~= sent@);
    }

    /// Takes the next event to run: the most recently pushed one.
    pub fn next(&mut self) -> (r: Option<u32>)
        ensures
            old(self)@.len() == 0 ==> r.is_none() && final(self)@ == old(self)@,
            old(self)@.len() > 0 ==> r == Some(old(self)@.last()) && final(self)@
                == old(self)@.drop_last(),
    {
        self.stack.pop()
    }
}

/// What a system reads and writes, as sets of component indices.
pub struct Footprint {
    pub reads: BitSet,
    pub writes: BitSet,
}

/// Two footprints conflict when one writes what the other reads or writes.
pub open spec fn footprints_conflict(a: (Set<nat>, Set<nat>), b: (Set<nat>, Set<nat>)) -> bool {
    ||| !a.1.disjoint(b.1)
    ||| !a.1.disjoint(b.0)
    ||| !a.0.disjoint(b.1)
}

impl Footprint {
    pub open spec fn view(&self) -> (Set<nat>, Set<nat>) {
        (self.reads@, self.writes@)
    }

    pub fn new() -> (r: Self)
        ensures
            r.view() == (Set::<nat>::empty(), Set::<nat>::empty()),
    {
        Footprint { reads: BitSet::new(), writes: BitSet::new() }
    }

    /// Declares a read of `c`. Refused, changing nothing, when `c` is
    /// already written.
    pub fn add_read(&mut self, c: usize) -> (r: bool)
        ensures
            r == !old(self).writes@.contains(c as nat),
            r ==> final(self).view() == (old(self).reads@.insert(c as nat), old(self).writes@),
            !r ==> final(self).view() == old(self).view(),
    {
        if self.writes.contains(c) {
            return false;
        }
        self.reads.insert(c);
        true
    }

    /// Declares a write of `c`. Refused, changing nothing, when `c` is
    /// already read or written.
    pub fn add_write(&mut self, c: usize) -> (r: bool)
        ensures
            r == !(old(self).reads@.contains(c as nat) || old(self).writes@.contains(c as nat)),
            r ==> final(self).view() == (old(self).reads@, old(self).writes@.insert(c as nat)),
            !r ==> final(self).view() == old(self).view(),
    {
        if self.reads.contains(c) || self.writes.contains(c) {
            return false;
        }
        self.writes.insert(c);
        true
    }

    /// Whether `self` and `other` conflict: a write of one meets a read or
    /// a write of the other.
    pub fn conflicts_with(&self, other: &Footprint) -> (r: bool)
        ensures
            r == footprints_conflict(self.view(), other.view()),
    {
        !self.writes.is_disjoint(&other.writes) || !self.writes.is_disjoint(&other.reads)
            || !self.reads.is_disjoint(&other.writes)
    }
}

/// The footprints of the systems now running, innermost last.
pub struct ActiveSystems {
    active: Vec<Footprint>,
}

impl ActiveSystems {
    pub closed spec fn views(&self) -> Seq<(Set<nat>, Set<nat>)> {
        self.active@.map_values(|f: Footprint| f.view())
    }

    pub fn new() -> (r: Self)
        ensures
            r.views() == Seq::<(Set<nat>, Set<nat>)>::empty(),
    {
        let r = ActiveSystems { active: Vec::new() };
        assert(r.views() =~= Seq::<(Set<nat>, Set<nat>)>::empty());
        r
    }

    /// Starts a system with footprint `f` when it conflicts with no active
    /// system, and returns true. On a conflict nothing changes and the
    /// result is false: the caller reports it.
    pub fn enter(&mut self, f: Footprint) -> (r: bool)
        ensures
            r == forall|k: int|
                0 <= k < old(self).views().len() ==> !footprints_conflict(
                    #[trigger] old(self).views()[k],
                    f.view(),
                ),
            r ==> final(self).views() == old(self).views().push(f.view()),
            !r ==> final(self).views() == old(self).views(),
    {
        let mut k: usize = 0;
        while k < self.active.len()
            invariant
                k <= self.active@.len(),
                self.views() == old(self).views(),
                forall|j: int| 0 <= j < k ==> !footprints_conflict(#[trigger] self.views()[j], f.view()),
            decreases self.active@.len() - k,
        {
            if self.active[k].conflicts_with(&f) {
                assert(footprints_conflict(self.views()[k as int], f.view()));
                return false;
            }
            k += 1;
        }
        let ghost before = self.active@;
        self.active.push(f);
        assert(self.views() =~= old(self).views().push(f.view()));
        true
    }

    /// Ends the innermost running system.
    pub fn leave(&mut self)
        ensures
            old(self).views().len() > 0 ==> final(self).views() == old(self).views().drop_last(),
            old(self).views().len() == 0 ==> final(self).views() == old(self).views(),
    {
        let _ = self.active.pop();
        assert(old(self).views().len() > 0 ==> self.views() =~= old(self).views().drop_last());
    }
}

/// The systems subscribed to `event`, in the order they were registered.
pub open spec fn handlers_of(subs: Seq<(u32, u32)>, event: u32) -> Seq<u32>
    decreases subs.len(),
{
    if subs.len() == 0 {
        Seq::empty()
    } else {
        let rest = handlers_of(subs.drop_last(), event);
        if subs.last().1 == event {
            rest.push(subs.last().0)
        } else {
            rest
        }
    }
}

/// The registered systems, each as its id and the event it handles, in
/// registration order. Ids are handed out in increasing order.
pub struct Systems {
    subs: Vec<(u32, u32)>,
    next: u32,
}

impl Systems {
    /// Each registered system as (id, event), oldest first.
    pub closed spec fn subscriptions(&self) -> Seq<(u32, u32)> {
        self.subs@
    }

    /// The id that the next registered system receives.
    pub closed spec fn next_id(&self) -> nat {
        self.next as nat
    }

    /// Every id is below the next one and ids increase with registration.
    pub closed spec fn wf(&self) -> bool {
        &&& forall|i: int| 0 <= i < self.subs@.len() ==> #[trigger] self.subs@[i].0 < self.next
        &&& forall|i: int, j: int|
            0 <= i < j < self.subs@.len() ==> #[trigger] self.subs@[i].0 < #[trigger] self.subs@[j].0
    }

    pub fn new() -> (r: Self)
        ensures
            r.wf(),
            r.subscriptions() == Seq::<(u32, u32)>::empty(),
            r.next_id() == 0,
    {
        Systems { subs: Vec::new(), next: 0 }
    }

    /// Registers a system that handles `event` and returns its id.
    pub fn add_system(&mut self, event: u32) -> (r: u32)
        requires
            old(self).wf(),
            old(self).next_id() < u32::MAX,
        ensures
            final(self).wf(),
            r == old(self).next_id(),
            final(self).next_id() == old(self).next_id() + 1,
            final(self).subscriptions() == old(self).subscriptions().push((r, event)),
    {
        let id = self.next;
        let ghost before = self.subs@;
        self.subs.push((id, event));
        self.next = id + 1;
        proof {
            assert forall|i: int| 0 <= i < self.subs@.len() implies #[trigger] self.subs@[i].0 < self.next by {
                if i < before.len() {
                    assert(self.subs@[i] == before[i]);
                }
            }
            assert forall|i: int, j: int|
                0 <= i < j < self.subs@.len() implies #[trigger] self.subs@[i].0 < #[trigger] self.subs@[j].0 by {
                assert(self.subs@[i] == before[i]);
                if j < before.len() {
                    assert(self.subs@[j] == before[j]);
                }
            }
        }
        id
    }

    /// Unregisters system `id`; returns false, changing nothing, when no
    /// such system is registered.
    pub fn remove_system(&mut self, id: u32) -> (r: bool)
        requires
            old(self).wf(),
        ensures
            final(self).wf(),
            final(self).next_id() == old(self).next_id(),
            r == exists|k: int| 0 <= k < old(self).subscriptions().len() && #[trigger] old(self).subscriptions()[k].0 == id,
            r ==> exists|k: int|
                0 <= k < old(self).subscriptions().len() && #[trigger] old(self).subscriptions()[k].0 == id
                    && final(self).subscriptions() == old(self).subscriptions().remove(k),
            !r ==> final(self).subscriptions() == old(self).subscriptions(),
    {
        let mut k: usize = 0;
        while k < self.subs.len()
            invariant
                self.wf(),
                self.next == old(self).next,
                self.subs@ == old(self).subs@,
                k <= self.subs@.len(),
                forall|j: int| 0 <= j < k ==> self.subs@[j].0 != id,
            decreases self.subs@.len() - k,
        {
            if self.subs[k].0 == id {
                let ghost before = self.subs@;
                let _ = self.subs.remove(k);
                proof {
                    assert(before[k as int].0 == id);
                    assert(old(self).subscriptions()[k as int].0 == id);
                    assert(self.subscriptions() == old(self).subscriptions().remove(k as int));
                    assert forall|i: int| 0 <= i < self.subs@.len() implies #[trigger] self.subs@[i].0
                        < self.next by {
                        let bi = if i < k { i } else { i + 1 };
                        assert(self.subs@[i] == before[bi]);
                    }
                    assert forall|i: int, j: int|
                        0 <= i < j < self.subs@.len() implies #[trigger] self.subs@[i].0
                        < #[trigger] self.subs@[j].0 by {                        let bi = if i < k { i } else { i + 1 };
                        let bj = if j < k { j } else { j + 1 };
                        assert(self.subs@[i] == before[bi]);
                        assert(self.subs@[j] == before[bj]);
                        assert(0 <= bi < bj < before.len());
                    }
                }
                return true;
            }
            k += 1;
        }
        false
    }

    /// The systems that handle `event`, in registration order.
    pub fn handlers_for(&self, event: u32) -> (r: Vec<u32>)
        ensures
            r@ == handlers_of(self.subscriptions(), event),
    {
        let mut r: Vec<u32> = Vec::new();
        let mut i: usize = 0;
        while i < self.subs.len()
            invariant
                i <= self.subs@.len(),
                r@ == handlers_of(self.subs@.take(i as int), event),
            decreases self.subs@.len() - i,
        {
            let (id, e) = self.subs[i];
            proof {
                assert(self.subs@.take(i + 1).drop_last() =~= self.subs@.take(i as int));
                assert(self.subs@.take(i + 1).last() == self.subs@[i as int]);
            }
            if e == event {
                r.push(id);
            }
            i += 1;
        }
        assert(self.subs@.take(i as int) =~= self.subs@);
        r
    }
}

} // verus!
