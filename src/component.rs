//! The component registry: stable ids for component types and the layout
//! and destruction needs recorded for each.
use vstd::prelude::*;

use crate::bit_set::BitSet;
use crate::layout::ElemLayout;
use crate::sparse::BitSetIndex;

verus! {

#[verifier::external_type_specification]
#[verifier::external_body]
pub struct ExTypeId(core::any::TypeId);

/// Relies on `TypeId::of`: the identity token of type `C`.
#[verifier::external_body]
fn type_id_of<C: 'static>() -> (r: core::any::TypeId) {
    core::any::TypeId::of::<C>()
}

/// Relies on `TypeId`'s `==`: two tokens compare equal exactly when they
/// are the same token.
#[verifier::external_body]
fn same_type_id(a: &core::any::TypeId, b: &core::any::TypeId) -> (r: bool)
    ensures
        r == (*a == *b),
{
    *a == *b
}

/// Relies on `core::mem::needs_drop`: whether values of `C` have drop glue.
#[verifier::external_body]
fn type_needs_drop<C>() -> (r: bool) {
    core::mem::needs_drop::<C>()
}

/// A type that can be stored as a component of an entity.
pub trait Component: Send + Sync + 'static {}

/// The dense integer id of a registered component type.
#[derive(Copy, Clone, PartialEq, Eq, Structural, PartialOrd, Ord, Hash, Debug)]
pub struct ComponentId(u32);

impl ComponentId {
    pub closed spec fn spec_bits(self) -> u32 {
        self.0
    }

    pub fn to_bits(self) -> (r: u32)
        ensures
            r == self.spec_bits(),
    {
        self.0
    }

    pub fn from_bits(bits: u32) -> (r: Self)
        ensures
            r.spec_bits() == bits,
            forall|c: ComponentId| c.spec_bits() == bits ==> r == c,
    {
        ComponentId(bits)
    }
}

/// The default id is the null id, `u32::MAX`, which no registered
/// component ever receives.
impl Default for ComponentId {
    fn default() -> (r: Self)
        ensures
            r.spec_bits() == u32::MAX,
    {
        ComponentId(u32::MAX)
    }
}

impl BitSetIndex for ComponentId {
    open spec fn spec_index(self) -> nat {
        self.spec_bits() as nat
    }

    open spec fn spec_index_valid(idx: nat) -> bool {
        idx <= u32::MAX
    }

    closed spec fn spec_from_index(idx: nat) -> ComponentId {
        ComponentId(idx as u32)
    }

    fn bit_set_index(self) -> (r: usize) {
        self.0 as usize
    }

    fn from_bit_set_index(idx: usize) -> (r: ComponentId) {
        ComponentId(idx as u32)
    }
}

/// What the registry knows of one component type.
pub struct ComponentInfo {
    type_id: Option<core::any::TypeId>,
    layout: ElemLayout,
    needs_drop: bool,
    /// The archetypes that hold this component in one of their columns.
    member_of: BitSet,
}

impl ComponentInfo {
    pub closed spec fn spec_type_id(&self) -> Option<core::any::TypeId> {
        self.type_id
    }

    pub closed spec fn spec_layout(&self) -> ElemLayout {
        self.layout
    }

    pub closed spec fn spec_needs_drop(&self) -> bool {
        self.needs_drop
    }

    pub closed spec fn spec_member_of(&self) -> Set<nat> {
        self.member_of@
    }

    /// The record for component type `C`, not yet a member of any archetype.
    pub fn new<C: Component>() -> (r: Self)
        ensures
            r.spec_type_id().is_some(),
            r.spec_layout().size as nat == vstd::layout::size_of::<C>(),
            r.spec_layout().align as nat == vstd::layout::align_of::<C>(),
            r.spec_layout().is_valid(),
            r.spec_member_of() == Set::<nat>::empty(),
    {
        Self::of_type::<C>(type_id_of::<C>())
    }

    /// The record for component type `C`, whose identity token is `t`.
    fn of_type<C: Component>(t: core::any::TypeId) -> (r: Self)
        ensures
            r.spec_type_id() == Some(t),
            r.spec_layout().size as nat == vstd::layout::size_of::<C>(),
            r.spec_layout().align as nat == vstd::layout::align_of::<C>(),
            r.spec_layout().is_valid(),
            r.spec_member_of() == Set::<nat>::empty(),
    {
        ComponentInfo {
            type_id: Some(t),
            layout: ElemLayout::of::<C>(),
            needs_drop: type_needs_drop::<C>(),
            member_of: BitSet::new(),
        }
    }

    /// A record for a component with no Rust type behind it.
    pub fn from_layout(layout: ElemLayout, needs_drop: bool) -> (r: Self)
        ensures
            r.spec_type_id().is_none(),
            r.spec_layout() == layout,
            r.spec_needs_drop() == needs_drop,
            r.spec_member_of() == Set::<nat>::empty(),
    {
        ComponentInfo { type_id: None, layout, needs_drop, member_of: BitSet::new() }
    }

    pub fn type_id(&self) -> (r: Option<core::any::TypeId>)
        ensures
            r == self.spec_type_id(),
    {
        self.type_id
    }

    pub fn layout(&self) -> (r: ElemLayout)
        ensures
            r == self.spec_layout(),
    {
        self.layout
    }

    /// Whether values of this component must be destroyed when removed.
    pub fn drop(&self) -> (r: bool)
        ensures
            r == self.spec_needs_drop(),
    {
        self.needs_drop
    }

    /// Whether archetype `archetype` has a column of this component.
    pub fn is_member_of(&self, archetype: usize) -> (r: bool)
        ensures
            r == self.spec_member_of().contains(archetype as nat),
    {
        self.member_of.contains(archetype)
    }
}

/// The registry of component types. Ids are handed out in increasing order
/// and never reused, even after a component is removed.
pub struct Components {
    infos: Vec<Option<ComponentInfo>>,
    by_typeid: Vec<(core::any::TypeId, ComponentId)>,
}

impl Components {
    /// The id that the next registered component receives.
    pub closed spec fn next_id(&self) -> nat {
        self.infos@.len()
    }

    /// The record held under id `id`, if it is registered and not removed.
    pub closed spec fn slot(&self, id: nat) -> Option<ComponentInfo> {
        if id < self.infos@.len() {
            self.infos@[id as int]
        } else {
            None
        }
    }

    /// The id recorded for the type with token `t`.
    pub closed spec fn id_of(&self, t: core::any::TypeId) -> Option<ComponentId> {
        if exists|k: int| 0 <= k < self.by_typeid@.len() && self.by_typeid@[k].0 == t {
            let k = choose|k: int| 0 <= k < self.by_typeid@.len() && self.by_typeid@[k].0 == t;
            Some(self.by_typeid@[k].1)
        } else {
            None
        }
    }

    /// Each type token is recorded once, under an id already handed out.
    pub closed spec fn wf(&self) -> bool {
        &&& self.infos@.len() <= u32::MAX
        &&& forall|k: int|
            0 <= k < self.by_typeid@.len() ==> (#[trigger] self.by_typeid@[k]).1.spec_bits()
                < self.infos@.len() && self.infos@[self.by_typeid@[k].1.spec_bits() as int].is_some()
                && self.infos@[self.by_typeid@[k].1.spec_bits() as int].unwrap().type_id == Some(
                self.by_typeid@[k].0,
            )
        &&& forall|k: int, l: int|
            0 <= k < l < self.by_typeid@.len() ==> #[trigger] self.by_typeid@[k].0
                != #[trigger] self.by_typeid@[l].0
    }

    /// Only ids already handed out hold a record.
    pub proof fn lemma_slots_below_next(&self, n: nat)
        ensures
            self.slot(n).is_some() ==> n < self.next_id(),
    {
    }

    /// A recorded type's id holds a record carrying that type's token.
    pub proof fn lemma_recorded_slot(&self, t: core::any::TypeId)
        requires
            self.wf(),
            self.id_of(t).is_some(),
        ensures
            self.slot(self.id_of(t).unwrap().spec_bits() as nat).is_some(),
            self.slot(self.id_of(t).unwrap().spec_bits() as nat).unwrap().spec_type_id() == Some(t),
    {
        let k = choose|k: int| 0 <= k < self.by_typeid@.len() && self.by_typeid@[k].0 == t;
        assert(self.by_typeid@[k].0 == t);
    }

    /// Distinct recorded types have distinct ids.
    pub proof fn lemma_distinct_types_distinct_ids(&self, t: core::any::TypeId, u: core::any::TypeId)
        requires
            self.wf(),
            self.id_of(t).is_some(),
            self.id_of(u).is_some(),
            t != u,
        ensures
            self.id_of(t) != self.id_of(u),
    {
        self.lemma_recorded_slot(t);
        self.lemma_recorded_slot(u);
    }

    pub fn new() -> (r: Self)
        ensures
            r.wf(),
            r.next_id() == 0,
            forall|id: nat| r.slot(id).is_none(),
            forall|t: core::any::TypeId| r.id_of(t).is_none(),
    {
        Components { infos: Vec::new(), by_typeid: Vec::new() }
    }

    pub fn get(&self, id: ComponentId) -> (r: Option<&ComponentInfo>)
        ensures
            r.is_some() == self.slot(id.spec_bits() as nat).is_some(),
            r.is_some() ==> *r.unwrap() == self.slot(id.spec_bits() as nat).unwrap(),
    {
        let i = id.to_bits() as usize;
        if i < self.infos.len() {
            match &self.infos[i] {
                Some(info) => Some(info),
                None => None,
            }
        } else {
            None
        }
    }

    /// The id recorded for the type with token `t`, if any.
    pub fn lookup(&self, t: &core::any::TypeId) -> (r: Option<ComponentId>)
        requires
            self.wf(),
        ensures
            r == self.id_of(*t),
    {
        let mut k: usize = 0;
        while k < self.by_typeid.len()
            invariant
                self.wf(),
                k <= self.by_typeid@.len(),
                forall|j: int| 0 <= j < k ==> self.by_typeid@[j].0 != *t,
            decreases self.by_typeid@.len() - k,
        {
            if same_type_id(&self.by_typeid[k].0, t) {
                let id = self.by_typeid[k].1;
                assert(self.by_typeid@[k as int].0 == *t);
                proof {
                    let c = choose|c: int| 0 <= c < self.by_typeid@.len() && self.by_typeid@[c].0 == *t;
                    if c != k {
                        if c < k {
                            assert(self.by_typeid@[c].0 != *t);
                        } else {
                            assert(self.by_typeid@[k as int].0 != self.by_typeid@[c].0);
                        }
                    }
                }
                return Some(id);
            }
            k += 1;
        }
        None
    }

    /// Registers the type with token `t`: returns the id already recorded
    /// for it, changing nothing, or else records `info` under the next id
    /// and returns that.
    pub fn register(&mut self, t: core::any::TypeId, info: ComponentInfo) -> (r: ComponentId)
        requires
            old(self).wf(),
            info.spec_type_id() == Some(t),
            old(self).next_id() < u32::MAX,
        ensures
            final(self).wf(),
            final(self).id_of(t) == Some(r),
            match old(self).id_of(t) {
                Some(id) => r == id && final(self).next_id() == old(self).next_id() && (forall|n: nat|
                    final(self).slot(n) == old(self).slot(n)),
                None => r.spec_bits() == old(self).next_id() && final(self).next_id() == old(
                    self,
                ).next_id() + 1 && final(self).slot(r.spec_bits() as nat) == Some(info) && (forall|
                    n: nat,
                | n != r.spec_bits() ==> final(self).slot(n) == old(self).slot(n)),
            },
            forall|u: core::any::TypeId| u != t ==> #[trigger] final(self).id_of(u) == old(self).id_of(u),
    {
        match self.lookup(&t) {
            Some(id) => id,
            None => {
                let id = Self::add_info(&mut self.infos, info);
                let ghost before = self.by_typeid@;
                self.by_typeid.push((t, id));
                proof {
                    let after = self.by_typeid@;
                    assert(after[before.len() as int] == (t, id));
                    assert forall|k: int| 0 <= k < before.len() implies after[k] == before[k] by {}
                    assert forall|k: int| 0 <= k < before.len() implies before[k].0 != t by {}
                    assert forall|k: int| 0 <= k < after.len() implies (#[trigger] after[k]).1.spec_bits()
                        < self.infos@.len() && self.infos@[after[k].1.spec_bits() as int].is_some()
                        && self.infos@[after[k].1.spec_bits() as int].unwrap().type_id == Some(after[k].0) by {
                        if k < before.len() {
                            assert(after[k] == before[k]);
                            assert(old(self).by_typeid@[k] == before[k]);
                        }
                    }
                    assert(self.id_of(t) == Some(id));
                    assert forall|u: core::any::TypeId| u != t implies #[trigger] self.id_of(u)
                        == old(self).id_of(u) by {
                        if old(self).id_of(u).is_some() {
                            let c = choose|c: int| 0 <= c < before.len() && before[c].0 == u;
                            assert(after[c].0 == u);
                            let d = choose|d: int| 0 <= d < after.len() && after[d].0 == u;
                            if d != c {
                                assert(d < before.len());
                                if d < c {
                                    assert(before[d].0 != before[c].0);
                                } else {
                                    assert(before[c].0 != before[d].0);
                                }
                            }
                        } else if exists|k: int| 0 <= k < after.len() && after[k].0 == u {
                            let k = choose|k: int| 0 <= k < after.len() && after[k].0 == u;
                            assert(k < before.len());
                            assert(before[k].0 == u);
                        }
                    }
                }
                id
            },
        }
    }

    /// Registers the component type `C`: returns the id already recorded for
    /// it, or else records its layout under the next id and returns that.
    pub fn init_component<C: Component>(&mut self) -> (r: ComponentId)
        requires
            old(self).wf(),
            old(self).next_id() < u32::MAX,
        ensures
            final(self).wf(),
            exists|t: core::any::TypeId|
                #![trigger final(self).id_of(t)]
                final(self).id_of(t) == Some(r) && (forall|u: core::any::TypeId|
                    u != t ==> #[trigger] final(self).id_of(u) == old(self).id_of(u)) && (match old(
                    self,
                ).id_of(t) {
                    Some(id) => r == id && final(self).next_id() == old(self).next_id() && (forall|
                        n: nat,
                    | final(self).slot(n) == old(self).slot(n)),
                    None => r.spec_bits() == old(self).next_id() && final(self).next_id() == old(
                        self,
                    ).next_id() + 1 && final(self).slot(r.spec_bits() as nat).is_some() && ({
                        let info = final(self).slot(r.spec_bits() as nat).unwrap();
                        &&& info.spec_type_id() == Some(t)
                        &&& info.spec_layout().size as nat == vstd::layout::size_of::<C>()
                        &&& info.spec_layout().align as nat == vstd::layout::align_of::<C>()
                        &&& info.spec_member_of() == Set::<nat>::empty()
                    }) && (forall|n: nat|
                        n != r.spec_bits() ==> final(self).slot(n) == old(self).slot(n)),
                }),
    {
        let t = type_id_of::<C>();
        match self.lookup(&t) {
            Some(id) => {
                proof {
                    assert forall|u: core::any::TypeId| u != t implies #[trigger] self.id_of(u)
                        == old(self).id_of(u) by {}
                }
                id
            },
            None => self.register(t, ComponentInfo::of_type::<C>(t)),
        }
    }

    /// Registers a component described only by `info`, under the next id.
    pub fn add(&mut self, info: ComponentInfo) -> (r: ComponentId)
        requires
            old(self).wf(),
            old(self).next_id() < u32::MAX,
        ensures
            final(self).wf(),
            r.spec_bits() == old(self).next_id(),
            final(self).next_id() == old(self).next_id() + 1,
            final(self).slot(r.spec_bits() as nat) == Some(info),
            forall|n: nat| n != r.spec_bits() ==> final(self).slot(n) == old(self).slot(n),
            forall|t: core::any::TypeId| final(self).id_of(t) == old(self).id_of(t),
    {
        let r = Self::add_info(&mut self.infos, info);
        assert(self.by_typeid@ == old(self).by_typeid@);
        assert forall|k: int| 0 <= k < self.by_typeid@.len() implies (#[trigger] self.by_typeid@[k]).1.spec_bits()
            < self.infos@.len() && self.infos@[self.by_typeid@[k].1.spec_bits() as int].is_some()
            && self.infos@[self.by_typeid@[k].1.spec_bits() as int].unwrap().type_id == Some(
            self.by_typeid@[k].0,
        ) by {
            assert(old(self).by_typeid@[k] == self.by_typeid@[k]);
        }
        assert forall|t: core::any::TypeId| self.id_of(t) == old(self).id_of(t) by {}
        r
    }

    fn add_info(infos: &mut Vec<Option<ComponentInfo>>, info: ComponentInfo) -> (r: ComponentId)
        requires
            old(infos)@.len() < u32::MAX,
        ensures
            final(infos)@ == old(infos)@.push(Some(info)),
            r.spec_bits() == old(infos)@.len(),
    {
        let id = infos.len() as u32;
        infos.push(Some(info));
        ComponentId(id)
    }

    /// Removes the component `id` and returns its record, when it is
    /// registered and no archetype holds it. Otherwise nothing changes and
    /// `None` is returned. The id is not handed out again.
    pub fn remove(&mut self, id: ComponentId) -> (r: Option<ComponentInfo>)
        requires
            old(self).wf(),
        ensures
            final(self).wf(),
            final(self).next_id() == old(self).next_id(),
            r.is_none() ==> forall|t: core::any::TypeId| final(self).id_of(t) == old(self).id_of(t),
            r.is_some() ==> forall|t: core::any::TypeId|
                #[trigger] final(self).id_of(t) == if old(self).id_of(t) == Some(id) {
                    None
                } else {
                    old(self).id_of(t)
                },
            forall|n: nat| n != id.spec_bits() ==> final(self).slot(n) == old(self).slot(n),
            match old(self).slot(id.spec_bits() as nat) {
                Some(info) => if info.spec_member_of() == Set::<nat>::empty() {
                    r == Some(info) && final(self).slot(id.spec_bits() as nat).is_none()
                } else {
                    r.is_none() && final(self).slot(id.spec_bits() as nat) == Some(info)
                },
                None => r.is_none() && final(self).slot(id.spec_bits() as nat).is_none(),
            },
    {
        let i = id.to_bits() as usize;
        if i >= self.infos.len() {
            proof {
                assert forall|t: core::any::TypeId| self.id_of(t) == old(self).id_of(t) by {}
            }
            return None;
        }
        let removable = match &self.infos[i] {
            Some(info) => info.member_of.is_empty(),
            None => false,
        };
        if !removable {
            proof {
                assert forall|t: core::any::TypeId| self.id_of(t) == old(self).id_of(t) by {}
            }
            return None;
        }
        let mut k: usize = 0;
        let mut found = false;
        while !found && k < self.by_typeid.len()
            invariant
                self.wf(),
                self.by_typeid@ == old(self).by_typeid@,
                self.infos@ == old(self).infos@,
                i == id.spec_bits(),
                k <= self.by_typeid@.len(),
                found ==> k < self.by_typeid@.len() && self.by_typeid@[k as int].1 == id,
                forall|j: int| 0 <= j < k ==> self.by_typeid@[j].1 != id,
            decreases self.by_typeid@.len() - k + (if found { 0int } else { 1int }),
        {
            if self.by_typeid[k].1.to_bits() == id.to_bits() {
                found = true;
            } else {
                k += 1;
            }
        }
        let ghost before = self.by_typeid@;
        if found {
            let _ = self.by_typeid.remove(k);
        }
        self.infos.push(None);
        let taken = self.infos.swap_remove(i);
        proof {
            let after = self.by_typeid@;
            assert(self.infos@ =~= old(self).infos@.update(i as int, None));
            // No entry other than the one removed names `id`.
            assert forall|j: int| 0 <= j < before.len() && (!found || j != k) implies #[trigger] before[j].1
                != id by {
                if found && before[j].1 == id {
                    assert(before[j].1.spec_bits() == before[k as int].1.spec_bits());
                    assert(before[j].0 == before[k as int].0);
                    if j < k {
                        assert(before[j].0 != before[k as int].0);
                    } else {
                        assert(before[k as int].0 != before[j].0);
                    }
                }
            }
            assert forall|j: int| 0 <= j < after.len() implies #[trigger] after[j] == (if found && j >= k {
                before[j + 1]
            } else {
                before[j]
            }) by {}
            assert forall|j: int| 0 <= j < after.len() implies (#[trigger] after[j]).1.spec_bits()
                < self.infos@.len() && self.infos@[after[j].1.spec_bits() as int].is_some()
                && self.infos@[after[j].1.spec_bits() as int].unwrap().type_id == Some(after[j].0) by {
                let bj = if found && j >= k { j + 1 } else { j };
                assert(after[j] == before[bj]);
                assert(before[bj].1 != id);
            }
            assert forall|j: int, l: int| 0 <= j < l < after.len() implies #[trigger] after[j].0
                != #[trigger] after[l].0 by {
                let bj = if found && j >= k { j + 1 } else { j };
                let bl = if found && l >= k { l + 1 } else { l };
                assert(after[j] == before[bj] && after[l] == before[bl]);
            }
            assert forall|t: core::any::TypeId| #[trigger] self.id_of(t) == if old(self).id_of(t) == Some(id) {
                None
            } else {
                old(self).id_of(t)
            } by {
                if exists|c: int| 0 <= c < before.len() && before[c].0 == t {
                    let c = choose|c: int| 0 <= c < before.len() && before[c].0 == t;
                    if before[c].1 == id {
                        assert(found && c == k);
                        if exists|d: int| 0 <= d < after.len() && after[d].0 == t {
                            let d = choose|d: int| 0 <= d < after.len() && after[d].0 == t;
                            let bd = if d >= k { d + 1 } else { d };
                            assert(before[bd].0 == t);
                            if bd < c {
                                assert(before[bd].0 != before[c].0);
                            } else {
                                assert(before[c].0 != before[bd].0);
                            }
                        }
                    } else {
                        let ac = if found && c > k { c - 1 } else { c };
                        assert(!(found && c == k));
                        assert(after[ac] == before[c]);
                        let d = choose|d: int| 0 <= d < after.len() && after[d].0 == t;
                        let bd = if found && d >= k { d + 1 } else { d };
                        assert(before[bd].0 == t);
                        if bd != c {
                            if bd < c {
                                assert(before[bd].0 != before[c].0);
                            } else {
                                assert(before[c].0 != before[bd].0);
                            }
                        }
                    }
                } else {
                    if exists|d: int| 0 <= d < after.len() && after[d].0 == t {
                        let d = choose|d: int| 0 <= d < after.len() && after[d].0 == t;
                        let bd = if found && d >= k { d + 1 } else { d };
                        assert(before[bd].0 == t);
                    }
                }
            }
        }
        taken
    }

    /// Records that archetype `archetype` holds component `id`. Returns
    /// false, changing nothing, when `id` is not registered.
    pub fn insert_member(&mut self, id: ComponentId, archetype: usize) -> (r: bool)
        requires
            old(self).wf(),
        ensures
            final(self).wf(),
            r == old(self).slot(id.spec_bits() as nat).is_some(),
            final(self).next_id() == old(self).next_id(),
            forall|t: core::any::TypeId| final(self).id_of(t) == old(self).id_of(t),
            forall|n: nat| n != id.spec_bits() ==> final(self).slot(n) == old(self).slot(n),
            r ==> final(self).slot(id.spec_bits() as nat).unwrap().spec_member_of() == old(
                self,
            ).slot(id.spec_bits() as nat).unwrap().spec_member_of().insert(archetype as nat),
            !r ==> final(self).slot(id.spec_bits() as nat).is_none(),
    {
        let i = id.to_bits() as usize;
        if i >= self.infos.len() {
            return false;
        }
        self.infos.push(None);
        let taken = self.infos.swap_remove(i);
        match taken {
            Some(mut info) => {
                info.member_of.insert(archetype);
                self.infos.set(i, Some(info));
                proof {
                    assert(self.infos@ =~= old(self).infos@.update(i as int, Some(info)));
                    assert(self.by_typeid@ == old(self).by_typeid@);
                    assert forall|t: core::any::TypeId| self.id_of(t) == old(self).id_of(t) by {}
                }
                true
            },
            None => {
                proof {
                    assert(self.infos@ =~= old(self).infos@);
                    assert(self.by_typeid@ == old(self).by_typeid@);
                    assert forall|t: core::any::TypeId| self.id_of(t) == old(self).id_of(t) by {}
                }
                false
            },
        }
    }

    /// Records that archetype `archetype` no longer holds component `id`.
    /// Returns false, changing nothing, when `id` is not registered.
    pub fn remove_member(&mut self, id: ComponentId, archetype: usize) -> (r: bool)
        requires
            old(self).wf(),
        ensures
            final(self).wf(),
            r == old(self).slot(id.spec_bits() as nat).is_some(),
            final(self).next_id() == old(self).next_id(),
            forall|t: core::any::TypeId| final(self).id_of(t) == old(self).id_of(t),
            forall|n: nat| n != id.spec_bits() ==> final(self).slot(n) == old(self).slot(n),
            r ==> final(self).slot(id.spec_bits() as nat).unwrap().spec_member_of() == old(
                self,
            ).slot(id.spec_bits() as nat).unwrap().spec_member_of().remove(archetype as nat),
            !r ==> final(self).slot(id.spec_bits() as nat).is_none(),
    {
        let i = id.to_bits() as usize;
        if i >= self.infos.len() {
            return false;
        }
        self.infos.push(None);
        let taken = self.infos.swap_remove(i);
        match taken {
            Some(mut info) => {
                info.member_of.remove(archetype);
                self.infos.set(i, Some(info));
                proof {
                    assert(self.infos@ =~= old(self).infos@.update(i as int, Some(info)));
                    assert(self.by_typeid@ == old(self).by_typeid@);
                    assert forall|t: core::any::TypeId| self.id_of(t) == old(self).id_of(t) by {}
                }
                true
            },
            None => {
                proof {
                    assert(self.infos@ =~= old(self).infos@);
                    assert(self.by_typeid@ == old(self).by_typeid@);
                    assert forall|t: core::any::TypeId| self.id_of(t) == old(self).id_of(t) by {}
                }
                false
            },
        }
    }
}

} // verus!
