//! Entities placed in archetypes: the directory, the archetype shapes and
//! the rows of each archetype kept in step through structural changes.
use vstd::prelude::*;

use crate::archetype::{Archetypes, bits_as_nat, lemma_bits_insert, lemma_bits_remove};
use crate::component::ComponentId;
use crate::entity::{Entities, EntityId, EntityLocation};

verus! {

/// The entities of a world, each in the archetype whose shape is its
/// current set of components.
pub struct World {
    entities: Entities,
    archetypes: Archetypes,
    /// The entities of each archetype, by row.
    rows: Vec<Vec<EntityId>>,
    /// The component set of each live entity, as built up by the calls.
    components: Ghost<Map<EntityId, Set<nat>>>,
}

impl World {
    /// The components of live entity `e`.
    pub closed spec fn components_of(&self, e: EntityId) -> Set<nat> {
        self.components@[e]
    }

    pub closed spec fn is_live(&self, e: EntityId) -> bool {
        self.entities.is_live(e)
    }

    /// The shape of the archetype that the directory gives for `e`.
    pub closed spec fn directory_shape(&self, e: EntityId) -> Set<nat> {
        bits_as_nat(self.archetypes.shape(self.entities.location_of(e).unwrap().archetype as nat).to_set())
    }

    /// Room is left for one more entity or one more archetype row.
    pub closed spec fn has_room(&self) -> bool {
        &&& self.entities.can_spawn()
        &&& self.archetypes.count() < u32::MAX
        &&& forall|a: int| 0 <= a < self.rows@.len() ==> #[trigger] self.rows@[a]@.len() < u32::MAX
    }

    pub closed spec fn wf(&self) -> bool {
        &&& self.entities.wf()
        &&& self.archetypes.wf()
        &&& self.rows@.len() == self.archetypes.count()
        &&& self.rows@.len() <= u32::MAX
        &&& forall|a: int| 0 <= a < self.rows@.len() ==> #[trigger] self.rows@[a]@.len() <= u32::MAX
        &&& forall|e: EntityId|
            #![trigger self.entities.location_of(e)]
            self.entities.is_live(e) ==> {
                let l = self.entities.location_of(e).unwrap();
                &&& l.archetype < self.rows@.len()
                &&& l.row < self.rows@[l.archetype as int]@.len()
                &&& self.rows@[l.archetype as int]@[l.row as int] == e
                &&& self.components@.contains_key(e)
                &&& bits_as_nat(self.archetypes.shape(l.archetype as nat).to_set())
                    == self.components@[e]
            }
        &&& forall|a: int, r: int|
            0 <= a < self.rows@.len() && 0 <= r < self.rows@[a]@.len()
                ==> self.entities.location_of(#[trigger] self.rows@[a]@[r]) == Some(
                EntityLocation { archetype: a as u32, row: r as u32 },
            )
    }

    /// The invariant with entity `x` taken out of every row: `x` is still
    /// live in the directory while it moves or leaves.
    closed spec fn wf_but(&self, x: EntityId) -> bool {
        &&& self.entities.wf()
        &&& self.archetypes.wf()
        &&& self.rows@.len() == self.archetypes.count()
        &&& self.rows@.len() <= u32::MAX
        &&& forall|a: int| 0 <= a < self.rows@.len() ==> #[trigger] self.rows@[a]@.len() <= u32::MAX
        &&& forall|e: EntityId|
            #![trigger self.entities.location_of(e)]
            e != x && self.entities.is_live(e) ==> {
                let l = self.entities.location_of(e).unwrap();
                &&& l.archetype < self.rows@.len()
                &&& l.row < self.rows@[l.archetype as int]@.len()
                &&& self.rows@[l.archetype as int]@[l.row as int] == e
                &&& self.components@.contains_key(e)
                &&& bits_as_nat(self.archetypes.shape(l.archetype as nat).to_set())
                    == self.components@[e]
            }
        &&& forall|a: int, r: int|
            0 <= a < self.rows@.len() && 0 <= r < self.rows@[a]@.len()
                ==> #[trigger] self.rows@[a]@[r] != x && self.entities.location_of(self.rows@[a]@[r]) == Some(
                EntityLocation { archetype: a as u32, row: r as u32 },
            )
    }

    /// Every live entity's directory entry names the row that holds it, in
    /// an archetype whose shape is exactly the entity's component set.
    pub proof fn lemma_directory_matches_components(&self, e: EntityId)
        requires
            self.wf(),
            self.is_live(e),
        ensures
            self.directory_shape(e) == self.components_of(e),
    {
        assert(self.entities.is_live(e));
    }

    pub fn new() -> (r: Self)
        ensures
            r.wf(),
            r.has_room(),
            forall|e: EntityId| !r.is_live(e),
    {
        let mut rows: Vec<Vec<EntityId>> = Vec::new();
        rows.push(Vec::new());
        let r = World {
            entities: Entities::new(),
            archetypes: Archetypes::new(),
            rows,
            components: Ghost(Map::empty()),
        };
        r
    }

    /// Takes live entity `e` out of its row; the last row of that archetype
    /// moves into the gap and its entity is pointed there.
    fn detach(&mut self, e: EntityId)
        requires
            old(self).wf(),
            old(self).is_live(e),
        ensures
            final(self).wf_but(e),
            final(self).is_live(e),
            final(self).archetypes == old(self).archetypes,
            final(self).components == old(self).components,
            final(self).rows@.len() == old(self).rows@.len(),
            forall|a: int| 0 <= a < final(self).rows@.len() ==> #[trigger] final(self).rows@[a]@.len()
                <= old(self).rows@[a]@.len(),
            final(self).entities.can_spawn() == old(self).entities.can_spawn(),
            forall|f: EntityId| #[trigger] final(self).is_live(f) == old(self).is_live(f),
    {
        let l = self.entities.get(e).unwrap();
        assert(self.entities.location_of(e) == Some(l));
        let a = l.archetype as usize;
        let r = l.row as usize;
        let ghost old_rows = self.rows@;
        let ghost old_entities = self.entities;
        self.rows.push(Vec::new());
        let mut v = self.rows.swap_remove(a);
        let ghost v0 = v@;
        let last = v.len() - 1;
        let _ = v.swap_remove(r);
        if r != last {
            let m = v[r];
            assert(m == v0[last as int]);
            assert(self.entities.location_of(m) == Some(
                EntityLocation { archetype: a as u32, row: last as u32 },
            ));
            let ok = self.entities.set_location(m, EntityLocation { archetype: l.archetype, row: l.row });
        }
        self.rows.set(a, v);
        proof {
            assert(self.rows@.len() == old_rows.len());
            assert forall|b: int| 0 <= b < self.rows@.len() && b != a implies #[trigger] self.rows@[b]
                == old_rows[b] by {}
            assert(self.rows@[a as int]@ == v0.update(r as int, v0.last()).drop_last());
            assert forall|f: EntityId|
                #![trigger self.entities.location_of(f)]
                f != e && self.entities.is_live(f) implies {
                    let lf = self.entities.location_of(f).unwrap();
                    &&& lf.archetype < self.rows@.len()
                    &&& lf.row < self.rows@[lf.archetype as int]@.len()
                    &&& self.rows@[lf.archetype as int]@[lf.row as int] == f
                    &&& self.components@.contains_key(f)
                    &&& bits_as_nat(self.archetypes.shape(lf.archetype as nat).to_set())
                        == self.components@[f]
                } by {
                assert(old(self).entities.is_live(f));
                let lo = old(self).entities.location_of(f).unwrap();
                if r != last && f == v0[last as int] {
                } else {
                    assert(self.entities.location_of(f) == old(self).entities.location_of(f));
                    if lo.archetype == a {
                        assert(lo.row != r);
                        assert(lo.row != last || r == last);
                    }
                }
            }
            assert forall|b: int, q: int|
                0 <= b < self.rows@.len() && 0 <= q < self.rows@[b]@.len() implies #[trigger] self.rows@[b]@[q]
                != e && self.entities.location_of(self.rows@[b]@[q]) == Some(
                EntityLocation { archetype: b as u32, row: q as u32 },
            ) by {
                let m = v0[last as int];
                assert(old_entities.location_of(m) == Some(
                    EntityLocation { archetype: a as u32, row: last as u32 },
                ));
                assert(old_entities.location_of(e) == Some(l));
                if b == a {
                    if q == r {
                        assert(self.rows@[b]@[q] == m);
                        assert(r != last);
                        assert(m != e);
                        assert(self.entities.location_of(m) == Some(
                            EntityLocation { archetype: a as u32, row: r as u32 },
                        ));
                    } else {
                        let f = v0[q];
                        assert(self.rows@[b]@[q] == f);
                        assert(old_entities.location_of(f) == Some(
                            EntityLocation { archetype: a as u32, row: q as u32 },
                        ));
                        assert(f != e);
                        assert(f != m);
                        assert(self.entities.location_of(f) == old_entities.location_of(f));
                    }
                } else {
                    let f = old_rows[b]@[q];
                    assert(self.rows@[b]@[q] == f);
                    assert(old_entities.location_of(f) == Some(
                        EntityLocation { archetype: b as u32, row: q as u32 },
                    ));
                    assert(f != e);
                    assert(r == last || f != m);
                    assert(self.entities.location_of(f) == old_entities.location_of(f));
                }
            }
        }
    }


    /// Puts live entity `e`, which is in no row, at a new last row of
    /// archetype `a`, whose shape is `comps`.
    fn place(&mut self, e: EntityId, a: usize, Ghost(comps): Ghost<Set<nat>>)
        requires
            old(self).wf_but(e),
            old(self).entities.is_live(e),
            a < old(self).rows@.len(),
            old(self).rows@[a as int]@.len() < u32::MAX,
            bits_as_nat(old(self).archetypes.shape(a as nat).to_set()) == comps,
        ensures
            final(self).wf(),
            final(self).components@ == old(self).components@.insert(e, comps),
            final(self).archetypes == old(self).archetypes,
            final(self).rows@.len() == old(self).rows@.len(),
            forall|b: int| 0 <= b < final(self).rows@.len() && b != a ==> #[trigger] final(self).rows@[b]@.len()
                == old(self).rows@[b]@.len(),
            final(self).rows@[a as int]@.len() == old(self).rows@[a as int]@.len() + 1,
            final(self).entities.can_spawn() == old(self).entities.can_spawn(),
            forall|f: EntityId| #[trigger] final(self).is_live(f) == old(self).is_live(f),
    {
        let ghost old_rows = self.rows@;
        let ghost old_entities = self.entities;
        self.rows.push(Vec::new());
        let mut v = self.rows.swap_remove(a);
        let row = v.len();
        v.push(e);
        self.rows.set(a, v);
        let ok = self.entities.set_location(e, EntityLocation { archetype: a as u32, row: row as u32 });
        self.components = Ghost(self.components@.insert(e, comps));
        proof {
            assert forall|b: int| 0 <= b < self.rows@.len() && b != a implies #[trigger] self.rows@[b]
                == old_rows[b] by {}
            assert forall|f: EntityId|
                #![trigger self.entities.location_of(f)]
                self.entities.is_live(f) implies {
                    let lf = self.entities.location_of(f).unwrap();
                    &&& lf.archetype < self.rows@.len()
                    &&& lf.row < self.rows@[lf.archetype as int]@.len()
                    &&& self.rows@[lf.archetype as int]@[lf.row as int] == f
                    &&& self.components@.contains_key(f)
                    &&& bits_as_nat(self.archetypes.shape(lf.archetype as nat).to_set())
                        == self.components@[f]
                } by {
                if f != e {
                    assert(old_entities.is_live(f));
                    assert(self.entities.location_of(f) == old_entities.location_of(f));
                }
            }
            assert forall|b: int, q: int|
                0 <= b < self.rows@.len() && 0 <= q < self.rows@[b]@.len() implies self.entities.location_of(
                #[trigger] self.rows@[b]@[q],
            ) == Some(EntityLocation { archetype: b as u32, row: q as u32 }) by {
                if b == a && q == row {
                } else {
                    assert(self.rows@[b]@[q] == old_rows[b]@[q]);
                    assert(old_rows[b]@[q] != e);
                }
            }
        }
    }

    /// A new entity with no components.
    pub fn spawn(&mut self) -> (r: EntityId)
        requires
            old(self).wf(),
            old(self).has_room(),
        ensures
            final(self).wf(),
            !old(self).is_live(r),
            final(self).is_live(r),
            final(self).components_of(r) == Set::<nat>::empty(),
            forall|f: EntityId| f != r ==> #[trigger] final(self).is_live(f) == old(self).is_live(f),
            forall|f: EntityId| f != r && old(self).is_live(f) ==> #[trigger] final(self).components_of(f)
                == old(self).components_of(f),
    {
        proof {
            self.archetypes.lemma_empty_archetype();
            assert(self.rows@[0]@.len() < u32::MAX);
        }
        let row = self.rows[0].len();
        let e = self.entities.spawn(EntityLocation { archetype: 0, row: row as u32 });
        proof {
            assert forall|b: int, q: int|
                0 <= b < self.rows@.len() && 0 <= q < self.rows@[b]@.len() implies #[trigger] self.rows@[b]@[q]
                != e && self.entities.location_of(self.rows@[b]@[q]) == Some(
                EntityLocation { archetype: b as u32, row: q as u32 },
            ) by {
                let f = self.rows@[b]@[q];
                assert(old(self).entities.location_of(f).is_some());
            }
            assert(bits_as_nat(self.archetypes.shape(0).to_set()) =~= Set::<nat>::empty());
        }
        self.place(e, 0, Ghost(Set::empty()));
        e
    }

    /// Ends entity `e` and its components. Returns false, changing nothing,
    /// for an unknown or stale id.
    pub fn despawn(&mut self, e: EntityId) -> (r: bool)
        requires
            old(self).wf(),
        ensures
            final(self).wf(),
            r == old(self).is_live(e),
            !final(self).is_live(e),
            forall|f: EntityId| f != e ==> #[trigger] final(self).is_live(f) == old(self).is_live(f),
            forall|f: EntityId| f != e && old(self).is_live(f) ==> #[trigger] final(self).components_of(f)
                == old(self).components_of(f),
            old(self).has_room() ==> final(self).has_room(),
    {
        if self.entities.get(e).is_none() {
            return false;
        }
        self.detach(e);
        let ghost mid = self.entities;
        let ghost detached = *self;
        let _ = self.entities.despawn(e);
        proof {
            assert forall|f: EntityId| f != e implies #[trigger] self.is_live(f) == old(self).is_live(f) by {
                assert(mid.location_of(f) == self.entities.location_of(f));
                assert(detached.is_live(f) == old(self).is_live(f));
            }
            assert forall|f: EntityId|
                #![trigger self.entities.location_of(f)]
                self.entities.is_live(f) implies {
                    let lf = self.entities.location_of(f).unwrap();
                    &&& lf.archetype < self.rows@.len()
                    &&& lf.row < self.rows@[lf.archetype as int]@.len()
                    &&& self.rows@[lf.archetype as int]@[lf.row as int] == f
                    &&& self.components@.contains_key(f)
                    &&& bits_as_nat(self.archetypes.shape(lf.archetype as nat).to_set())
                        == self.components@[f]
                } by {
                assert(f != e);
                assert(mid.location_of(f) == self.entities.location_of(f));
            }
            assert forall|b: int, q: int|
                0 <= b < self.rows@.len() && 0 <= q < self.rows@[b]@.len() implies self.entities.location_of(
                #[trigger] self.rows@[b]@[q],
            ) == Some(EntityLocation { archetype: b as u32, row: q as u32 }) by {
                assert(self.rows@[b]@[q] != e);
            }
        }
        true
    }


    /// Brings `rows` level with the archetypes after an edge was followed,
    /// which may have created one archetype.
    fn sync_rows(&mut self, Ghost(prev): Ghost<Archetypes>)
        requires
            old(self).entities.wf(),
            old(self).archetypes.wf(),
            old(self).rows@.len() == prev.count(),
            prev.count() <= old(self).archetypes.count() <= prev.count() + 1,
            prev.count() < u32::MAX,
            forall|b: nat| b < prev.count() ==> old(self).archetypes.shape(b) == prev.shape(b),
            ({
                let w = World { archetypes: prev, ..*old(self) };
                w.wf()
            }),
        ensures
            final(self).wf(),
            final(self).entities == old(self).entities,
            final(self).archetypes == old(self).archetypes,
            final(self).components == old(self).components,
            forall|b: int| 0 <= b < old(self).rows@.len() ==> #[trigger] final(self).rows@[b] == old(self).rows@[b],
            forall|b: int| old(self).rows@.len() <= b < final(self).rows@.len() ==> #[trigger] final(self).rows@[b]@.len() == 0,
    {
        let ghost w = World { archetypes: prev, ..*old(self) };
        if self.rows.len() < self.archetypes.len() {
            self.rows.push(Vec::new());
        }
        proof {
            assert forall|f: EntityId|
                #![trigger self.entities.location_of(f)]
                self.entities.is_live(f) implies {
                    let lf = self.entities.location_of(f).unwrap();
                    &&& lf.archetype < self.rows@.len()
                    &&& lf.row < self.rows@[lf.archetype as int]@.len()
                    &&& self.rows@[lf.archetype as int]@[lf.row as int] == f
                    &&& self.components@.contains_key(f)
                    &&& bits_as_nat(self.archetypes.shape(lf.archetype as nat).to_set())
                        == self.components@[f]
                } by {
                assert(w.entities.location_of(f) == self.entities.location_of(f));
                let lf = self.entities.location_of(f).unwrap();
                assert(self.rows@[lf.archetype as int] == old(self).rows@[lf.archetype as int]);
                assert(self.archetypes.shape(lf.archetype as nat) == prev.shape(lf.archetype as nat));
            }
            assert forall|b: int, q: int|
                0 <= b < self.rows@.len() && 0 <= q < self.rows@[b]@.len() implies self.entities.location_of(
                #[trigger] self.rows@[b]@[q],
            ) == Some(EntityLocation { archetype: b as u32, row: q as u32 }) by {
                assert(self.rows@[b] == old(self).rows@[b]);
            }
        }
    }

    /// Adds component `c` to live entity `e`, moving it to the archetype of
    /// its new shape. An entity that already has `c` stays where it is.
    /// Returns false, changing nothing, for an unknown or stale id.
    pub fn insert_component(&mut self, e: EntityId, c: ComponentId) -> (r: bool)
        requires
            old(self).wf(),
            old(self).has_room(),
        ensures
            final(self).wf(),
            r == old(self).is_live(e),
            r ==> final(self).components_of(e) == old(self).components_of(e).insert(c.spec_bits() as nat),
            forall|f: EntityId| #[trigger] final(self).is_live(f) == old(self).is_live(f),
            forall|f: EntityId| f != e && old(self).is_live(f) ==> #[trigger] final(self).components_of(f)
                == old(self).components_of(f),
    {
        let l = match self.entities.get(e) {
            None => return false,
            Some(l) => l,
        };
        let a = l.archetype as usize;
        let ghost prev = self.archetypes;
        let ghost comps = self.components@[e].insert(c.spec_bits() as nat);
        let a2 = self.archetypes.add_component(a, c);
        proof {
            lemma_bits_insert(prev.shape(a as nat).to_set(), c.spec_bits());
        }
        self.sync_rows(Ghost(prev));
        if a2 == a {
            proof {
                assert(self.components@[e] == comps);
            }
            return true;
        }
        proof {
            assert(a2 < old(self).rows@.len() ==> self.rows@[a2 as int]@.len() < u32::MAX);
        }
        self.detach(e);
        self.place(e, a2, Ghost(comps));
        true
    }

    /// Removes component `c` from live entity `e`, moving it to the
    /// archetype of its new shape. An entity that lacks `c` stays where it
    /// is. Returns false, changing nothing, for an unknown or stale id.
    pub fn remove_component(&mut self, e: EntityId, c: ComponentId) -> (r: bool)
        requires
            old(self).wf(),
            old(self).has_room(),
        ensures
            final(self).wf(),
            r == old(self).is_live(e),
            r ==> final(self).components_of(e) == old(self).components_of(e).remove(c.spec_bits() as nat),
            forall|f: EntityId| #[trigger] final(self).is_live(f) == old(self).is_live(f),
            forall|f: EntityId| f != e && old(self).is_live(f) ==> #[trigger] final(self).components_of(f)
                == old(self).components_of(f),
    {
        let l = match self.entities.get(e) {
            None => return false,
            Some(l) => l,
        };
        let a = l.archetype as usize;
        let ghost prev = self.archetypes;
        let ghost comps = self.components@[e].remove(c.spec_bits() as nat);
        let a2 = self.archetypes.remove_component(a, c);
        proof {
            lemma_bits_remove(prev.shape(a as nat).to_set(), c.spec_bits());
        }
        self.sync_rows(Ghost(prev));
        if a2 == a {
            proof {
                assert(self.components@[e] == comps);
            }
            return true;
        }
        proof {
            assert(a2 < old(self).rows@.len() ==> self.rows@[a2 as int]@.len() < u32::MAX);
        }
        self.detach(e);
        self.place(e, a2, Ghost(comps));
        true
    }


    /// Whether `e` is a live entity.
    pub fn contains(&self, e: EntityId) -> (r: bool)
        ensures
            r == self.is_live(e),
    {
        self.entities.get(e).is_some()
    }

    /// Whether live entity `e` has component `c`; false for an unknown or
    /// stale id.
    pub fn has_component(&self, e: EntityId, c: ComponentId) -> (r: bool)
        requires
            self.wf(),
        ensures
            r == (self.is_live(e) && self.components_of(e).contains(c.spec_bits() as nat)),
    {
        match self.entities.get(e) {
            None => false,
            Some(l) => {
                let r = self.archetypes.has_component(l.archetype as usize, c);
                proof {
                    let s = self.archetypes.shape(l.archetype as nat).to_set();
                    assert(s.contains(c.spec_bits()) == self.archetypes.shape(l.archetype as nat).contains(c.spec_bits()));
                    if bits_as_nat(s).contains(c.spec_bits() as nat) {
                        let b = choose|b: u32| s.contains(b) && b as nat == c.spec_bits() as nat;
                    }
                    if s.contains(c.spec_bits()) {
                        assert(bits_as_nat(s).contains(c.spec_bits() as nat));
                    }
                }
                r
            },
        }
    }


    /// Whether one more spawn, or one more structural change, can be
    /// served: the test behind the `requires` of those operations.
    pub fn room_left(&self) -> (r: bool)
        ensures
            r == self.has_room(),
    {
        if !self.entities.has_free_slot() || self.archetypes.len() >= 0xffff_ffff {
            return false;
        }
        let mut a: usize = 0;
        while a < self.rows.len()
            invariant
                a <= self.rows@.len(),
                forall|b: int| 0 <= b < a ==> #[trigger] self.rows@[b]@.len() < u32::MAX,
            decreases self.rows@.len() - a,
        {
            if self.rows[a].len() >= 0xffff_ffff {
                return false;
            }
            a += 1;
        }
        true
    }

}

} // verus!
