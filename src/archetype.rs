//! Archetype shapes: each archetype is identified by the sorted list of the
//! component ids its entities hold, and no two archetypes share a shape.
use vstd::prelude::*;

use crate::bit_set::BitSet;
use crate::bool_expr::{BoolExpr, dnf_holds};
use crate::component::ComponentId;

verus! {

/// Component bits read as natural numbers.
pub open spec fn bits_as_nat(s: Set<u32>) -> Set<nat> {
    s.map(|b: u32| b as nat)
}

/// Adding a bit adds its number.
pub proof fn lemma_bits_insert(s: Set<u32>, x: u32)
    ensures
        bits_as_nat(s.insert(x)) == bits_as_nat(s).insert(x as nat),
{
    assert forall|n: nat| #[trigger] bits_as_nat(s.insert(x)).contains(n) == bits_as_nat(s).insert(
        x as nat,
    ).contains(n) by {
        if bits_as_nat(s.insert(x)).contains(n) {
            let b = choose|b: u32| s.insert(x).contains(b) && b as nat == n;
            if b != x {
                assert(s.contains(b));
            }
        }
        if bits_as_nat(s).contains(n) {
            let b = choose|b: u32| s.contains(b) && b as nat == n;
            assert(s.insert(x).contains(b));
        }
        if n == x as nat {
            assert(s.insert(x).contains(x));
        }
    }
    assert(bits_as_nat(s.insert(x)) =~= bits_as_nat(s).insert(x as nat));
}

/// Removing a bit removes its number.
pub proof fn lemma_bits_remove(s: Set<u32>, x: u32)
    ensures
        bits_as_nat(s.remove(x)) == bits_as_nat(s).remove(x as nat),
{
    assert forall|n: nat| #[trigger] bits_as_nat(s.remove(x)).contains(n) == bits_as_nat(s).remove(
        x as nat,
    ).contains(n) by {
        if bits_as_nat(s.remove(x)).contains(n) {
            let b = choose|b: u32| s.remove(x).contains(b) && b as nat == n;
            assert(s.contains(b));
        }
        if bits_as_nat(s).remove(x as nat).contains(n) {
            let b = choose|b: u32| s.contains(b) && b as nat == n;
            assert(s.remove(x).contains(b));
        }
    }
    assert(bits_as_nat(s.remove(x)) =~= bits_as_nat(s).remove(x as nat));
}

/// A shape in canonical form: strictly increasing component bits.
pub open spec fn is_canonical(s: Seq<u32>) -> bool {
    forall|i: int, j: int| 0 <= i < j < s.len() ==> s[i] < s[j]
}

/// The shapes of all archetypes, indexed by archetype id. Archetype 0 is
/// the empty archetype.
pub struct Archetypes {
    shapes: Vec<Vec<u32>>,
}

impl Archetypes {
    /// The shape of archetype `a`, as component bits.
    pub closed spec fn shape(&self, a: nat) -> Seq<u32> {
        self.shapes@[a as int]@
    }

    pub closed spec fn count(&self) -> nat {
        self.shapes@.len()
    }

    /// Every shape is canonical, archetype 0 is empty, and no two
    /// archetypes have the same shape.
    pub closed spec fn wf(&self) -> bool {
        &&& self.shapes@.len() >= 1
        &&& self.shapes@[0]@.len() == 0
        &&& forall|a: int| 0 <= a < self.shapes@.len() ==> is_canonical(#[trigger] self.shapes@[a]@)
        &&& forall|a: int, b: int|
            0 <= a < b < self.shapes@.len() ==> #[trigger] self.shapes@[a]@ != #[trigger] self.shapes@[b]@
    }

    /// Archetype 0 exists and is the empty archetype.
    pub proof fn lemma_empty_archetype(&self)
        requires
            self.wf(),
        ensures
            self.count() >= 1,
            self.shape(0) == Seq::<u32>::empty(),
    {
        assert(self.shapes@[0]@ =~= Seq::<u32>::empty());
    }

    /// No two archetypes have the same shape.
    pub proof fn lemma_shapes_distinct(&self)
        requires
            self.wf(),
        ensures
            forall|a: nat, b: nat|
                a < b < self.count() ==> #[trigger] self.shape(a) != #[trigger] self.shape(b),
    {
        assert forall|a: nat, b: nat| a < b < self.count() implies #[trigger] self.shape(a)
            != #[trigger] self.shape(b) by {
            assert(self.shapes@[a as int]@ != self.shapes@[b as int]@);
        }
    }

    pub fn new() -> (r: Self)
        ensures
            r.wf(),
            r.count() == 1,
            r.shape(0) == Seq::<u32>::empty(),
    {
        let mut shapes: Vec<Vec<u32>> = Vec::new();
        shapes.push(Vec::new());
        Archetypes { shapes }
    }

    pub fn len(&self) -> (r: usize)
        ensures
            r == self.count(),
    {
        self.shapes.len()
    }

    /// Whether archetype `a` holds component `c`.
    pub fn has_component(&self, a: usize, c: ComponentId) -> (r: bool)
        requires
            a < self.count(),
        ensures
            r == self.shape(a as nat).contains(c.spec_bits()),
    {
        let bits = c.to_bits();
        let shape = &self.shapes[a];
        let mut i: usize = 0;
        while i < shape.len()
            invariant
                i <= shape@.len(),
                bits == c.spec_bits(),
                shape@ == self.shape(a as nat),
                forall|k: int| 0 <= k < i ==> shape@[k] != bits,
            decreases shape@.len() - i,
        {
            if shape[i] == bits {
                assert(self.shape(a as nat)[i as int] == bits);
                assert(0 <= i < self.shape(a as nat).len());
                assert(self.shape(a as nat).contains(bits));
                return true;
            }
            i += 1;
        }
        false
    }

    /// The archetype whose shape is `shape`, if any.
    fn find(&self, shape: &Vec<u32>) -> (r: Option<usize>)
        requires
            self.wf(),
        ensures
            r.is_some() ==> r.unwrap() < self.count() && self.shape(r.unwrap() as nat) == shape@,
            r.is_none() ==> forall|a: nat| a < self.count() ==> #[trigger] self.shape(a) != shape@,
    {
        let mut a: usize = 0;
        while a < self.shapes.len()
            invariant
                a <= self.shapes@.len(),
                self.wf(),
                forall|b: nat| b < a ==> #[trigger] self.shape(b) != shape@,
            decreases self.shapes@.len() - a,
        {
            if same_shape(&self.shapes[a], shape) {
                return Some(a);
            }
            a += 1;
        }
        None
    }

    /// The archetype of shape `shape`, created if there is none.
    fn find_or_insert(&mut self, shape: Vec<u32>) -> (r: usize)
        requires
            old(self).wf(),
            is_canonical(shape@),
        ensures
            final(self).wf(),
            r < final(self).count(),
            final(self).shape(r as nat) == shape@,
            final(self).count() >= old(self).count(),
            final(self).count() <= old(self).count() + 1,
            forall|a: nat| a < old(self).count() ==> final(self).shape(a) == old(self).shape(a),
            (exists|a: nat| a < old(self).count() && old(self).shape(a) == shape@)
                ==> final(self).count() == old(self).count(),
    {
        match self.find(&shape) {
            Some(a) => a,
            None => {
                let r = self.shapes.len();
                let ghost before = self.shapes@;
                self.shapes.push(shape);
                proof {
                    assert forall|a: int| 0 <= a < self.shapes@.len() implies is_canonical(
                        #[trigger] self.shapes@[a]@,
                    ) by {
                        if a < before.len() {
                            assert(self.shapes@[a] == before[a]);
                        }
                    }
                    assert forall|a: int, b: int|
                        0 <= a < b < self.shapes@.len() implies #[trigger] self.shapes@[a]@
                        != #[trigger] self.shapes@[b]@ by {
                        assert(self.shapes@[a] == before[a]);
                        if b < before.len() {
                            assert(self.shapes@[b] == before[b]);
                        } else {
                            assert(old(self).shape(a as nat) != shape@);
                        }
                    }
                    assert forall|a: nat| a < old(self).count() implies self.shape(a) == old(self).shape(a) by {
                        assert(self.shapes@[a as int] == before[a as int]);
                    }
                }
                r
            },
        }
    }

    /// The archetype reached from `a` by adding component `c`: the shape of
    /// `a` with `c` added, created if needed. When `a` already holds `c`,
    /// the result is `a` itself and nothing changes.
    pub fn add_component(&mut self, a: usize, c: ComponentId) -> (r: usize)
        requires
            old(self).wf(),
            a < old(self).count(),
        ensures
            final(self).wf(),
            r < final(self).count(),
            final(self).shape(r as nat).to_set() == old(self).shape(a as nat).to_set().insert(
                c.spec_bits(),
            ),
            forall|b: nat| b < old(self).count() ==> final(self).shape(b) == old(self).shape(b),
            old(self).count() <= final(self).count() <= old(self).count() + 1,
            old(self).shape(a as nat).contains(c.spec_bits()) ==> r == a && final(self).count()
                == old(self).count(),
    {
        if self.has_component(a, c) {
            proof {
                assert(self.shape(a as nat).to_set() =~= self.shape(a as nat).to_set().insert(c.spec_bits()));
            }
            return a;
        }
        let shape = with_bit(&self.shapes[a], c.to_bits());
        self.find_or_insert(shape)
    }

    /// The archetype reached from `a` by removing component `c`. When `a`
    /// lacks `c`, the result is `a` itself and nothing changes.
    pub fn remove_component(&mut self, a: usize, c: ComponentId) -> (r: usize)
        requires
            old(self).wf(),
            a < old(self).count(),
        ensures
            final(self).wf(),
            r < final(self).count(),
            final(self).shape(r as nat).to_set() == old(self).shape(a as nat).to_set().remove(
                c.spec_bits(),
            ),
            forall|b: nat| b < old(self).count() ==> final(self).shape(b) == old(self).shape(b),
            old(self).count() <= final(self).count() <= old(self).count() + 1,
            !old(self).shape(a as nat).contains(c.spec_bits()) ==> r == a && final(self).count()
                == old(self).count(),
    {
        if !self.has_component(a, c) {
            proof {
                assert(self.shape(a as nat).to_set() =~= self.shape(a as nat).to_set().remove(c.spec_bits()));
            }
            return a;
        }
        let shape = without_bit(&self.shapes[a], c.to_bits());
        self.find_or_insert(shape)
    }

    /// Whether archetype `a` matches the filter `expr`: its shape, read as
    /// present and absent components, satisfies the expression.
    pub fn matches(&self, a: usize, expr: &BoolExpr<ComponentId>) -> (r: bool)
        requires
            a < self.count(),
        ensures
            r == dnf_holds(expr@, |v: nat| bits_as_nat(self.shape(a as nat).to_set()).contains(v)),
    {
        let shape = &self.shapes[a];
        let mut present = BitSet::new();
        let mut i: usize = 0;
        while i < shape.len()
            invariant
                i <= shape@.len(),
                shape@ == self.shape(a as nat),
                present@ == bits_as_nat(shape@.take(i as int).to_set()),
            decreases shape@.len() - i,
        {
            let b = shape[i];
            present.insert(b as usize);
            proof {
                assert(shape@.take(i + 1) =~= shape@.take(i as int).push(b));
                shape@.take(i as int).lemma_push_to_set_commute(b);
                lemma_bits_insert(shape@.take(i as int).to_set(), b);
            }
            i += 1;
        }
        assert(shape@.take(i as int) =~= shape@);
        let r = expr.eval_set(&present);
        assert((|v: nat| present@.contains(v)) =~= (|v: nat| bits_as_nat(self.shape(a as nat).to_set()).contains(v)));
        r
    }

}

fn same_shape(x: &Vec<u32>, y: &Vec<u32>) -> (r: bool)
    ensures
        r == (x@ == y@),
{
    if x.len() != y.len() {
        return false;
    }
    let mut i: usize = 0;
    while i < x.len()
        invariant
            x@.len() == y@.len(),
            i <= x@.len(),
            forall|k: int| 0 <= k < i ==> x@[k] == y@[k],
        decreases x@.len() - i,
    {
        if x[i] != y[i] {
            return false;
        }
        i += 1;
    }
    assert(x@ =~= y@);
    true
}

/// The canonical shape `s` with `bit` added.
fn with_bit(s: &Vec<u32>, bit: u32) -> (r: Vec<u32>)
    requires
        is_canonical(s@),
        !s@.contains(bit),
    ensures
        is_canonical(r@),
        r@.to_set() == s@.to_set().insert(bit),
{
    let mut r: Vec<u32> = Vec::new();
    let mut placed = false;
    let mut i: usize = 0;
    while i < s.len()
        invariant
            is_canonical(s@),
            !s@.contains(bit),
            i <= s@.len(),
            is_canonical(r@),
            placed ==> r@.to_set() == s@.take(i as int).to_set().insert(bit),
            !placed ==> r@ == s@.take(i as int),
            !placed ==> forall|k: int| 0 <= k < i ==> s@[k] < bit,
            r@.len() > 0 && i < s@.len() ==> r@.last() < s@[i as int],
        decreases s@.len() - i,
    {
        let x = s[i];
        let ghost before = r@;
        let ghost was_placed = placed;
        if !placed && bit < x {
            r.push(bit);
            placed = true;
        }
        let ghost mid = r@;
        r.push(x);
        proof {
            assert(s@.take(i + 1) =~= s@.take(i as int).push(x));
            s@.take(i as int).lemma_push_to_set_commute(x);
            assert(x != bit);
            if !was_placed && bit < x {
                assert(before.len() > 0 ==> before.last() < bit);
                assert(is_canonical(mid));
                before.lemma_push_to_set_commute(bit);
            }
            assert(mid.len() > 0 ==> mid.last() < x);
            mid.lemma_push_to_set_commute(x);
            if i + 1 < s@.len() {
                assert(x < s@[i + 1]);
            }
        }
        i += 1;
    }
    if !placed {
        proof {
            assert(r@.len() > 0 ==> r@.last() < bit);
        }
        let ghost before = r@;
        r.push(bit);
        proof {
            before.lemma_push_to_set_commute(bit);
        }
    }
    proof {
        assert(s@.take(s@.len() as int) =~= s@);
    }
    r
}

/// The canonical shape `s` with `bit` taken out.
fn without_bit(s: &Vec<u32>, bit: u32) -> (r: Vec<u32>)
    requires
        is_canonical(s@),
    ensures
        is_canonical(r@),
        r@.to_set() == s@.to_set().remove(bit),
{
    let mut r: Vec<u32> = Vec::new();
    let mut i: usize = 0;
    while i < s.len()
        invariant
            is_canonical(s@),
            i <= s@.len(),
            is_canonical(r@),
            r@.to_set() == s@.take(i as int).to_set().remove(bit),
            r@.len() > 0 && i < s@.len() ==> r@.last() < s@[i as int],
        decreases s@.len() - i,
    {
        let x = s[i];
        let ghost before = r@;
        if x != bit {
            r.push(x);
        }
        proof {
            assert(s@.take(i + 1) =~= s@.take(i as int).push(x));
            s@.take(i as int).lemma_push_to_set_commute(x);
            if x != bit {
                assert(r@ == before.push(x));
                before.lemma_push_to_set_commute(x);
            }
            assert(r@.to_set() =~= s@.take(i + 1).to_set().remove(bit));
        }
        i += 1;
    }
    proof {
        assert(s@.take(s@.len() as int) =~= s@);
    }
    r
}

} // verus!
