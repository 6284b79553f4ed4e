//! Boolean expressions in disjunctive normal form over id-indexed variables.
use vstd::prelude::*;

use crate::bit_set::{BitSet, ascending};
use crate::sparse::BitSetIndex;

verus! {

/// A clause as a pair: the variables that must be true and the variables
/// that must be false.
pub type ClauseView = (Set<nat>, Set<nat>);

/// Whether the assignment `a` meets every demand of clause `c`.
pub open spec fn clause_holds(c: ClauseView, a: spec_fn(nat) -> bool) -> bool {
    &&& forall|v: nat| #[trigger] c.0.contains(v) ==> a(v)
    &&& forall|v: nat| #[trigger] c.1.contains(v) ==> !a(v)
}

/// Whether some clause of `ands` holds under `a`.
pub open spec fn dnf_holds(ands: Seq<ClauseView>, a: spec_fn(nat) -> bool) -> bool {
    exists|i: int| 0 <= i < ands.len() && #[trigger] clause_holds(ands[i], a)
}

/// The assignment that a deterministic `get_var` gives: variable `v` is true
/// when `get_var` returns true on the id whose index is `v`.
pub open spec fn assignment_of<T: BitSetIndex, F: Fn(T) -> bool>(get_var: F) -> spec_fn(nat) -> bool {
    |v: nat| get_var.ensures((T::spec_from_index(v),), true)
}

/// Whether the assignment `a` gives every answer of `get_var`: whatever
/// `get_var` returns on an id is `a` at that id's index.
pub open spec fn agrees<T: BitSetIndex, F: Fn(T) -> bool>(get_var: F, a: spec_fn(nat) -> bool) -> bool {
    forall|t: T, b: bool| get_var.ensures((t,), b) ==> b == a(t.spec_index())
}

/// A clause that both requires and forbids some variable.
pub open spec fn self_contradictory(c: ClauseView) -> bool {
    !c.0.disjoint(c.1)
}

/// Whether the clauses `c` and `d` cannot hold together for a reason that
/// shows in their text: one of them contradicts itself, or one requires a
/// variable that the other forbids.
pub open spec fn clauses_conflict(c: ClauseView, d: ClauseView) -> bool {
    ||| self_contradictory(c)
    ||| self_contradictory(d)
    ||| !c.0.disjoint(d.1)
    ||| !d.0.disjoint(c.1)
}

/// The clause that requires exactly what `c` or `d` requires and forbids
/// exactly what either forbids.
pub open spec fn clause_and(c: ClauseView, d: ClauseView) -> ClauseView {
    (c.0.union(d.0), c.1.union(d.1))
}

/// Every clause of `s` conflicts with every clause of `o`.
pub open spec fn all_pairs_conflict(s: Seq<ClauseView>, o: Seq<ClauseView>) -> bool {
    forall|p: int, q: int|
        0 <= p < s.len() && 0 <= q < o.len() ==> #[trigger] clauses_conflict(s[p], o[q])
}

/// Two clauses in conflict never hold together.
pub proof fn lemma_conflict_sound(c: ClauseView, d: ClauseView, a: spec_fn(nat) -> bool)
    requires
        clauses_conflict(c, d),
    ensures
        !(clause_holds(c, a) && clause_holds(d, a)),
{
    if clause_holds(c, a) && clause_holds(d, a) {
        if self_contradictory(c) {
            let v = choose|v: nat| c.0.contains(v) && c.1.contains(v);
        } else if self_contradictory(d) {
            let v = choose|v: nat| d.0.contains(v) && d.1.contains(v);
        } else if !c.0.disjoint(d.1) {
            let v = choose|v: nat| c.0.contains(v) && d.1.contains(v);
        } else {
            let v = choose|v: nat| d.0.contains(v) && c.1.contains(v);
        }
    }
}

/// Disjointness by conflict is sound: when every clause of `s` conflicts
/// with every clause of `o`, no assignment makes both formulas true.
pub proof fn lemma_all_pairs_conflict_sound(
    s: Seq<ClauseView>,
    o: Seq<ClauseView>,
    a: spec_fn(nat) -> bool,
)
    requires
        all_pairs_conflict(s, o),
    ensures
        !(dnf_holds(s, a) && dnf_holds(o, a)),
{
    if dnf_holds(s, a) && dnf_holds(o, a) {
        let p = choose|p: int| 0 <= p < s.len() && clause_holds(s[p], a);
        let q = choose|q: int| 0 <= q < o.len() && clause_holds(o[q], a);
        assert(clauses_conflict(s[p], o[q]));
        lemma_conflict_sound(s[p], o[q], a);
    }
}

/// The clause `c` joined with each clause of `o` in order, leaving out the
/// joins that contradict themselves.
pub open spec fn joined(c: ClauseView, o: Seq<ClauseView>) -> Seq<ClauseView>
    decreases o.len(),
{
    if o.len() == 0 {
        Seq::empty()
    } else {
        let rest = joined(c, o.drop_last());
        let d = clause_and(c, o.last());
        if self_contradictory(d) {
            rest
        } else {
            rest.push(d)
        }
    }
}

/// Every clause of `s` joined with every clause of `o`, row by row (the
/// clauses of `s` outer), self-contradictory joins left out.
pub open spec fn and_clauses(s: Seq<ClauseView>, o: Seq<ClauseView>) -> Seq<ClauseView>
    decreases s.len(),
{
    if s.len() == 0 {
        Seq::empty()
    } else {
        and_clauses(s.drop_last(), o) + joined(s.last(), o)
    }
}

/// One single-variable clause requiring each variable of `q`, in order.
pub open spec fn pos_lits(q: Seq<nat>) -> Seq<ClauseView> {
    q.map_values(|v: nat| (set![v], Set::<nat>::empty()))
}

/// One single-variable clause forbidding each variable of `q`, in order.
pub open spec fn neg_lits(q: Seq<nat>) -> Seq<ClauseView> {
    q.map_values(|v: nat| (Set::<nat>::empty(), set![v]))
}

/// The negation of clause `c` by De Morgan's laws: a clause requiring each
/// variable `c` forbids, then one forbidding each variable `c` requires,
/// each group in ascending order.
pub open spec fn neg_clause(c: ClauseView) -> Seq<ClauseView> {
    pos_lits(ascending(c.1)) + neg_lits(ascending(c.0))
}

/// The clauses of the negation of `s`: starting from the single empty
/// clause, joined with the negation of each clause of `s` in turn.
pub open spec fn not_clauses(s: Seq<ClauseView>) -> Seq<ClauseView>
    decreases s.len(),
{
    if s.len() == 0 {
        seq![(Set::<nat>::empty(), Set::<nat>::empty())]
    } else {
        and_clauses(not_clauses(s.drop_last()), neg_clause(s.last()))
    }
}

proof fn lemma_joined_shape(c: ClauseView, o: Seq<ClauseView>)
    ensures
        joined(c, o).len() <= o.len(),
        forall|k: int| 0 <= k < joined(c, o).len() ==> !self_contradictory(#[trigger] joined(c, o)[k]),
    decreases o.len(),
{
    if o.len() > 0 {
        lemma_joined_shape(c, o.drop_last());
    }
}

/// The clauses of a conjunction: at most one per pair of clauses, none of
/// them self-contradictory, and none at all when either side has none.
pub proof fn lemma_and_clauses_shape(s: Seq<ClauseView>, o: Seq<ClauseView>)
    ensures
        and_clauses(s, o).len() <= s.len() * o.len(),
        forall|k: int|
            0 <= k < and_clauses(s, o).len() ==> !self_contradictory(#[trigger] and_clauses(s, o)[k]),
        s.len() == 0 || o.len() == 0 ==> and_clauses(s, o).len() == 0,
    decreases s.len(),
{
    if s.len() > 0 {
        lemma_and_clauses_shape(s.drop_last(), o);
        lemma_joined_shape(s.last(), o);
        let a = and_clauses(s.drop_last(), o);
        let j = joined(s.last(), o);
        assert(a.len() + j.len() <= s.len() * o.len()) by (nonlinear_arith)
            requires
                a.len() <= (s.len() - 1) * o.len(),
                j.len() <= o.len(),
        ;
        assert forall|k: int| 0 <= k < (a + j).len() implies !self_contradictory(#[trigger] (a + j)[k]) by {
            if k < a.len() {
                assert((a + j)[k] == a[k]);
            } else {
                assert((a + j)[k] == j[k - a.len()]);
            }
        }
    }
}

proof fn lemma_dnf_push(s: Seq<ClauseView>, c: ClauseView, a: spec_fn(nat) -> bool)
    ensures
        dnf_holds(s.push(c), a) == (dnf_holds(s, a) || clause_holds(c, a)),
{
    if dnf_holds(s, a) {
        let i = choose|i: int| 0 <= i < s.len() && clause_holds(s[i], a);
        assert(s.push(c)[i] == s[i]);
    }
    if clause_holds(c, a) {
        assert(s.push(c)[s.len() as int] == c);
    }
    if dnf_holds(s.push(c), a) {
        let i = choose|i: int| 0 <= i < s.push(c).len() && clause_holds(s.push(c)[i], a);
        if i < s.len() {
            assert(s.push(c)[i] == s[i]);
        }
    }
}

proof fn lemma_dnf_take_next(s: Seq<ClauseView>, i: int, a: spec_fn(nat) -> bool)
    requires
        0 <= i < s.len(),
    ensures
        dnf_holds(s.take(i + 1), a) == (dnf_holds(s.take(i), a) || clause_holds(s[i], a)),
{
    assert(s.take(i + 1) =~= s.take(i).push(s[i]));
    lemma_dnf_push(s.take(i), s[i], a);
}

proof fn lemma_clause_and(c: ClauseView, d: ClauseView, a: spec_fn(nat) -> bool)
    ensures
        clause_holds(clause_and(c, d), a) == (clause_holds(c, a) && clause_holds(d, a)),
        self_contradictory(clause_and(c, d)) ==> !clause_holds(clause_and(c, d), a),
{
    let e = clause_and(c, d);
    if clause_holds(c, a) && clause_holds(d, a) {
        assert forall|v: nat| #[trigger] e.0.contains(v) implies a(v) by {
            if c.0.contains(v) {
            } else {
                assert(d.0.contains(v));
            }
        }
        assert forall|v: nat| #[trigger] e.1.contains(v) implies !a(v) by {
            if c.1.contains(v) {
            } else {
                assert(d.1.contains(v));
            }
        }
    }
    if clause_holds(e, a) {
        assert forall|v: nat| #[trigger] c.0.contains(v) implies a(v) by {
            assert(e.0.contains(v));
        }
        assert forall|v: nat| #[trigger] c.1.contains(v) implies !a(v) by {
            assert(e.1.contains(v));
        }
        assert forall|v: nat| #[trigger] d.0.contains(v) implies a(v) by {
            assert(e.0.contains(v));
        }
        assert forall|v: nat| #[trigger] d.1.contains(v) implies !a(v) by {
            assert(e.1.contains(v));
        }
    }
    if self_contradictory(e) {
        let v = choose|v: nat| e.0.contains(v) && e.1.contains(v);
        assert(!(e.0.contains(v) && e.1.contains(v)) || !clause_holds(e, a));
    }
}

proof fn lemma_literal(i: nat, a: spec_fn(nat) -> bool)
    ensures
        clause_holds((set![i], Set::<nat>::empty()), a) == a(i),
        clause_holds((Set::<nat>::empty(), set![i]), a) == !a(i),
{
    let p = (set![i], Set::<nat>::empty());
    let q = (Set::<nat>::empty(), set![i]);
    assert(p.0.contains(i));
    assert(q.1.contains(i));
}

/// One conjunction: all of `vars` true and all of `negated_vars` false.
struct Ands {
    vars: BitSet,
    negated_vars: BitSet,
}

impl Ands {
    spec fn view(&self) -> ClauseView {
        (self.vars@, self.negated_vars@)
    }

    fn new() -> (r: Self)
        ensures
            r.view() == (Set::<nat>::empty(), Set::<nat>::empty()),
    {
        Ands { vars: BitSet::new(), negated_vars: BitSet::new() }
    }

    fn clone_ands(&self) -> (r: Self)
        ensures
            r.view() == self.view(),
    {
        Ands { vars: self.vars.clone(), negated_vars: self.negated_vars.clone() }
    }
}

/// A formula in disjunctive normal form: an OR of clauses, each an AND of
/// variables and negated variables, such as (A ∧ B ∧ ¬C) ∨ (D ∧ ¬E).
/// Variables are ids of type `T`, stored by their dense index.
pub struct BoolExpr<T> {
    ands: Vec<Ands>,
    marker: core::marker::PhantomData<T>,
}

spec fn view_of(v: Seq<Ands>) -> Seq<ClauseView> {
    v.map_values(|c: Ands| c.view())
}

proof fn lemma_view_push(v: Seq<Ands>, x: Ands)
    ensures
        view_of(v.push(x)) == view_of(v).push(x.view()),
{
    assert(view_of(v.push(x)) =~= view_of(v).push(x.view()));
}

impl<T: BitSetIndex> View for BoolExpr<T> {
    type V = Seq<ClauseView>;

    closed spec fn view(&self) -> Seq<ClauseView> {
        view_of(self.ands@)
    }
}

impl<T: BitSetIndex> Clone for BoolExpr<T> {
    fn clone(&self) -> (r: Self)
        ensures
            r@ == self@,
    {
        let mut ands: Vec<Ands> = Vec::new();
        let mut i: usize = 0;
        while i < self.ands.len()
            invariant
                i <= self.ands@.len(),
                view_of(ands@) == view_of(self.ands@.take(i as int)),
            decreases self.ands@.len() - i,
        {
            let c = self.ands[i].clone_ands();
            proof {
                lemma_view_push(ands@, c);
                lemma_view_push(self.ands@.take(i as int), self.ands@[i as int]);
                assert(self.ands@.take(i + 1) =~= self.ands@.take(i as int).push(self.ands@[i as int]));
            }
            ands.push(c);
            i += 1;
        }
        assert(self.ands@.take(i as int) =~= self.ands@);
        BoolExpr { ands, marker: core::marker::PhantomData }
    }
}

/// Every variable of every clause is the index of some id of type `T`.
pub open spec fn vars_valid<T: BitSetIndex>(ands: Seq<ClauseView>) -> bool {
    forall|i: int, v: nat|
        #![trigger ands[i].0.contains(v)]
        #![trigger ands[i].1.contains(v)]
        0 <= i < ands.len() && (ands[i].0.contains(v) || ands[i].1.contains(v))
            ==> T::spec_index_valid(v)
}

impl<T: BitSetIndex> BoolExpr<T> {
    /// The expression is well formed: each variable stands for an id of `T`.
    pub open spec fn wf(&self) -> bool {
        vars_valid::<T>(self@)
    }

    /// The expression that is always false: the identity of `or`.
    pub fn zero() -> (r: Self)
        ensures
            r.wf(),
            r@ == Seq::<ClauseView>::empty(),
            forall|a: spec_fn(nat) -> bool| !dnf_holds(r@, a),
    {
        let r = BoolExpr { ands: Vec::new(), marker: core::marker::PhantomData };
        assert(r@ =~= Seq::<ClauseView>::empty());
        r
    }

    /// The expression that is always true: the identity of `and`.
    pub fn one() -> (r: Self)
        ensures
            r.wf(),
            r@ == seq![(Set::<nat>::empty(), Set::<nat>::empty())],
            forall|a: spec_fn(nat) -> bool| dnf_holds(r@, a),
    {
        let mut ands: Vec<Ands> = Vec::new();
        ands.push(Ands::new());
        let r = BoolExpr { ands, marker: core::marker::PhantomData };
        assert(r@ =~= seq![(Set::<nat>::empty(), Set::<nat>::empty())]);
        assert forall|a: spec_fn(nat) -> bool| dnf_holds(r@, a) by {
            assert(clause_holds(r@[0], a));
        }
        r
    }

    /// The expression that holds exactly when `value` is true.
    pub fn with(value: T) -> (r: Self)
        ensures
            r.wf(),
            r@ == seq![(set![value.spec_index()], Set::<nat>::empty())],
            forall|a: spec_fn(nat) -> bool| dnf_holds(r@, a) == a(value.spec_index()),
    {
        let idx = value.bit_set_index();
        let mut vars = BitSet::new();
        vars.insert(idx);
        let mut ands: Vec<Ands> = Vec::new();
        ands.push(Ands { vars, negated_vars: BitSet::new() });
        let r = BoolExpr { ands, marker: core::marker::PhantomData };
        assert(r@ =~= seq![(set![idx as nat], Set::<nat>::empty())]);
        assert forall|a: spec_fn(nat) -> bool| dnf_holds(r@, a) == a(idx as nat) by {
            if a(idx as nat) {
                assert(clause_holds(r@[0], a));
            } else {
                assert(r@[0].0.contains(idx as nat));
            }
        }
        r
    }

    /// The expression that holds exactly when `value` is false.
    pub fn without(value: T) -> (r: Self)
        ensures
            r.wf(),
            r@ == seq![(Set::<nat>::empty(), set![value.spec_index()])],
            forall|a: spec_fn(nat) -> bool| dnf_holds(r@, a) == !a(value.spec_index()),
    {
        let idx = value.bit_set_index();
        let mut negated_vars = BitSet::new();
        negated_vars.insert(idx);
        let mut ands: Vec<Ands> = Vec::new();
        ands.push(Ands { vars: BitSet::new(), negated_vars });
        let r = BoolExpr { ands, marker: core::marker::PhantomData };
        assert(r@ =~= seq![(Set::<nat>::empty(), set![idx as nat])]);
        assert forall|a: spec_fn(nat) -> bool| dnf_holds(r@, a) == !a(idx as nat) by {
            if !a(idx as nat) {
                assert(clause_holds(r@[0], a));
            } else {
                assert(r@[0].1.contains(idx as nat));
            }
        }
        r
    }

    /// Evaluates the expression; `get_var` gives the value of each variable.
    /// Clauses are tried in order, each abandoned at its first unmet demand.
    pub fn eval<F: Fn(T) -> bool>(&self, get_var: F) -> (r: bool)
        requires
            self.wf(),
            forall|t: T| get_var.requires((t,)),
            forall|t: T, b1: bool, b2: bool|
                get_var.ensures((t,), b1) && get_var.ensures((t,), b2) ==> b1 == b2,
        ensures
            r == dnf_holds(self@, assignment_of(get_var)),
            forall|a: spec_fn(nat) -> bool| #[trigger] agrees(get_var, a) ==> r == dnf_holds(self@, a),
    {
        let ghost a = assignment_of(get_var);
        let mut k: usize = 0;
        while k < self.ands.len()
            invariant
                self.wf(),
                k <= self.ands@.len(),
                forall|t: T| get_var.requires((t,)),
                forall|t: T, b1: bool, b2: bool|
                    get_var.ensures((t,), b1) && get_var.ensures((t,), b2) ==> b1 == b2,
                forall|j: int| 0 <= j < k ==> !clause_holds(#[trigger] self@[j], a),
                forall|a2: spec_fn(nat) -> bool, j: int|
                    #![trigger agrees(get_var, a2), self@[j]]
                    agrees(get_var, a2) && 0 <= j < k ==> !clause_holds(self@[j], a2),
                a == assignment_of(get_var),
            decreases self.ands@.len() - k,
        {
            let ands = &self.ands[k];
            assert(self@[k as int] == ands.view());
            let mut ok = true;
            let vs = ands.vars.to_vec();
            let mut i: usize = 0;
            while i < vs.len()
                invariant
                    self.wf(),
                    k < self.ands@.len(),
                    ands == self.ands@[k as int],
                    self@[k as int] == ands.view(),
                    a == assignment_of(get_var),
                    forall|t: T| get_var.requires((t,)),
                    forall|t: T, b1: bool, b2: bool|
                        get_var.ensures((t,), b1) && get_var.ensures((t,), b2) ==> b1 == b2,
                    forall|q: int| 0 <= q < vs@.len() ==> ands.vars@.contains(#[trigger] vs@[q] as nat),
                    ok ==> forall|q: int| 0 <= q < i ==> a(#[trigger] vs@[q] as nat),
                    !ok ==> !clause_holds(ands.view(), a),
                    forall|a2: spec_fn(nat) -> bool| #[trigger] agrees(get_var, a2) ==> (ok ==> forall|q: int|
                        0 <= q < i ==> a2(#[trigger] vs@[q] as nat)),
                    forall|a2: spec_fn(nat) -> bool| #[trigger] agrees(get_var, a2) ==> (!ok ==> !clause_holds(
                        ands.view(),
                        a2,
                    )),
                decreases vs@.len() - i,
            {
                if ok {
                    let v = vs[i];
                    assert(ands.vars@.contains(vs@[i as int] as nat));
                    assert(self@[k as int].0.contains(v as nat));
                    let t = T::from_bit_set_index(v);
                    let b = get_var(t);
                    assert(a(v as nat) == get_var.ensures((t,), true));
                    proof {
                        assert forall|a2: spec_fn(nat) -> bool| #[trigger] agrees(get_var, a2) implies a2(
                            v as nat,
                        ) == b by {
                            assert(get_var.ensures((t,), b));
                        }
                    }
                    if !b {
                        ok = false;
                        proof {
                            assert forall|a2: spec_fn(nat) -> bool| #[trigger] agrees(get_var, a2) implies !clause_holds(
                                ands.view(),
                                a2,
                            ) by {
                                assert(ands.view().0.contains(v as nat));
                            }
                        }
                    }
                }
                i += 1;
            }
            proof {
                if ok {
                    assert forall|v: nat| #[trigger] ands.vars@.contains(v) implies a(v) by {
                        let q = choose|q: int| 0 <= q < vs@.len() && vs@[q] == v as usize;
                        assert(a(vs@[q] as nat));
                    }
                }
            }
            let ghost okp = ok;
            let ws = ands.negated_vars.to_vec();
            let mut i: usize = 0;
            while i < ws.len()
                invariant
                    self.wf(),
                    k < self.ands@.len(),
                    ands == self.ands@[k as int],
                    self@[k as int] == ands.view(),
                    a == assignment_of(get_var),
                    forall|t: T| get_var.requires((t,)),
                    forall|t: T, b1: bool, b2: bool|
                        get_var.ensures((t,), b1) && get_var.ensures((t,), b2) ==> b1 == b2,
                    forall|q: int| 0 <= q < ws@.len() ==> ands.negated_vars@.contains(#[trigger] ws@[q] as nat),
                    forall|q: int| 0 <= q < vs@.len() ==> ands.vars@.contains(#[trigger] vs@[q] as nat),
                    forall|v: nat| #[trigger] ands.vars@.contains(v) ==> v <= usize::MAX && vs@.contains(v as usize),
                    ok ==> okp,
                    okp ==> forall|v: nat| #[trigger] ands.vars@.contains(v) ==> a(v),
                    ok ==> forall|q: int| 0 <= q < i ==> !a(#[trigger] ws@[q] as nat),
                    !ok ==> !clause_holds(ands.view(), a),
                    forall|a2: spec_fn(nat) -> bool| #[trigger] agrees(get_var, a2) ==> (okp ==> forall|q: int|
                        0 <= q < vs@.len() ==> a2(#[trigger] vs@[q] as nat)),
                    forall|a2: spec_fn(nat) -> bool| #[trigger] agrees(get_var, a2) ==> (ok ==> forall|q: int|
                        0 <= q < i ==> !a2(#[trigger] ws@[q] as nat)),
                    forall|a2: spec_fn(nat) -> bool| #[trigger] agrees(get_var, a2) ==> (!ok ==> !clause_holds(
                        ands.view(),
                        a2,
                    )),
                decreases ws@.len() - i,
            {
                if ok {
                    let v = ws[i];
                    assert(ands.negated_vars@.contains(ws@[i as int] as nat));
                    assert(self@[k as int].1.contains(v as nat));
                    let t = T::from_bit_set_index(v);
                    let b = get_var(t);
                    assert(a(v as nat) == get_var.ensures((t,), true));
                    proof {
                        assert forall|a2: spec_fn(nat) -> bool| #[trigger] agrees(get_var, a2) implies a2(
                            v as nat,
                        ) == b by {
                            assert(get_var.ensures((t,), b));
                        }
                    }
                    if b {
                        ok = false;
                        proof {
                            assert forall|a2: spec_fn(nat) -> bool| #[trigger] agrees(get_var, a2) implies !clause_holds(
                                ands.view(),
                                a2,
                            ) by {
                                assert(ands.view().1.contains(v as nat));
                            }
                        }
                    }
                }
                i += 1;
            }
            proof {
                if ok {
                    assert forall|v: nat| #[trigger] ands.negated_vars@.contains(v) implies !a(v) by {
                        let q = choose|q: int| 0 <= q < ws@.len() && ws@[q] == v as usize;
                        assert(!a(ws@[q] as nat));
                    }
                }
            }
            if ok {
                assert(clause_holds(self@[k as int], a));
                proof {
                    assert forall|a2: spec_fn(nat) -> bool| #[trigger] agrees(get_var, a2) implies dnf_holds(
                        self@,
                        a2,
                    ) by {
                        assert forall|v: nat| #[trigger] ands.view().0.contains(v) implies a2(v) by {
                            let q = choose|q: int| 0 <= q < vs@.len() && vs@[q] == v as usize;
                            assert(a2(vs@[q] as nat));
                        }
                        assert forall|v: nat| #[trigger] ands.view().1.contains(v) implies !a2(v) by {
                            let q = choose|q: int| 0 <= q < ws@.len() && ws@[q] == v as usize;
                            assert(!a2(ws@[q] as nat));
                        }
                        assert(clause_holds(self@[k as int], a2));
                    }
                }
                return true;
            }
            k += 1;
        }
        false
    }

    /// The expression that holds when both `self` and `other` hold: every
    /// clause of `self` joined with every clause of `other`, dropping joined
    /// clauses that require and forbid the same variable.
    pub fn and(self, other: &Self) -> (r: Self)
        requires
            self.wf(),
            other.wf(),
        ensures
            r.wf(),
            r@ == and_clauses(self@, other@),
            forall|a: spec_fn(nat) -> bool|
                #![trigger dnf_holds(r@, a)]
                dnf_holds(r@, a) == (dnf_holds(self@, a) && dnf_holds(other@, a)),
    {
        let mut res: Vec<Ands> = Vec::new();
        assert(view_of(res@) =~= and_clauses(self@.take(0), other@));
        let mut i: usize = 0;
        while i < self.ands.len()
            invariant
                self.wf(),
                other.wf(),
                i <= self.ands@.len(),
                vars_valid::<T>(view_of(res@)),
                view_of(res@) == and_clauses(self@.take(i as int), other@),
                forall|a: spec_fn(nat) -> bool|
                    #![trigger dnf_holds(view_of(res@), a)]
                    dnf_holds(view_of(res@), a) == (dnf_holds(self@.take(i as int), a)
                        && dnf_holds(other@, a)),
            decreases self.ands@.len() - i,
        {
            let ghost before = view_of(res@);
            assert(self@[i as int] == self.ands@[i as int].view());
            assert forall|v: nat| #[trigger] self.ands@[i as int].vars@.contains(v)
                implies T::spec_index_valid(v) by {
                assert(self@[i as int].0.contains(v));
            }
            assert forall|v: nat| #[trigger] self.ands@[i as int].negated_vars@.contains(v)
                implies T::spec_index_valid(v) by {
                assert(self@[i as int].1.contains(v));
            }
            Self::push_joined(&self.ands[i], other, &mut res);
            proof {
                assert(self@.take(i + 1).drop_last() =~= self@.take(i as int));
                assert(self@.take(i + 1).last() == self@[i as int]);
                assert forall|a: spec_fn(nat) -> bool|
                    #![trigger dnf_holds(view_of(res@), a)]
                    dnf_holds(view_of(res@), a) == (dnf_holds(self@.take(i + 1), a)
                        && dnf_holds(other@, a)) by {
                    lemma_dnf_take_next(self@, i as int, a);
                    assert(dnf_holds(before, a) == (dnf_holds(self@.take(i as int), a)
                        && dnf_holds(other@, a)));
                }
            }
            i += 1;
        }
        assert(self@.take(i as int) =~= self@);
        BoolExpr { ands: res, marker: core::marker::PhantomData }
    }

    /// Appends to `res` the clause `c` joined with each clause of `other`,
    /// leaving out those that contradict themselves.
    fn push_joined(c: &Ands, other: &Self, res: &mut Vec<Ands>)
        requires
            other.wf(),
            vars_valid::<T>(view_of(old(res)@)),
            forall|v: nat| #[trigger] c.vars@.contains(v) ==> T::spec_index_valid(v),
            forall|v: nat| #[trigger] c.negated_vars@.contains(v) ==> T::spec_index_valid(v),
        ensures
            vars_valid::<T>(view_of(final(res)@)),
            view_of(final(res)@) == view_of(old(res)@) + joined(c.view(), other@),
            forall|a: spec_fn(nat) -> bool|
                #![trigger dnf_holds(view_of(final(res)@), a)]
                dnf_holds(view_of(final(res)@), a) == (dnf_holds(view_of(old(res)@), a) || (
                clause_holds(c.view(), a) && dnf_holds(other@, a))),
    {
        let mut j: usize = 0;
        while j < other.ands.len()
            invariant
                other.wf(),
                j <= other.ands@.len(),
                vars_valid::<T>(view_of(res@)),
                forall|v: nat| #[trigger] c.vars@.contains(v) ==> T::spec_index_valid(v),
                forall|v: nat| #[trigger] c.negated_vars@.contains(v) ==> T::spec_index_valid(v),
                view_of(res@) == view_of(old(res)@) + joined(c.view(), other@.take(j as int)),
                forall|a: spec_fn(nat) -> bool|
                    #![trigger dnf_holds(view_of(res@), a)]
                    dnf_holds(view_of(res@), a) == (dnf_holds(view_of(old(res)@), a) || (
                    clause_holds(c.view(), a) && dnf_holds(other@.take(j as int), a))),
            decreases other.ands@.len() - j,
        {
            let d = &other.ands[j];
            assert(other@[j as int] == d.view());
            let mut n = c.clone_ands();
            n.vars.union_with(&d.vars);
            n.negated_vars.union_with(&d.negated_vars);
            assert(n.view() == clause_and(c.view(), d.view()));
            let ghost before = view_of(res@);
            if n.vars.is_disjoint(&n.negated_vars) {
                proof {
                    lemma_view_push(res@, n);
                    let w = view_of(res@.push(n));
                    assert forall|k: int, v: nat|
                        #![trigger w[k].0.contains(v)]
                        #![trigger w[k].1.contains(v)]
                        0 <= k < w.len() && (w[k].0.contains(v) || w[k].1.contains(v))
                        implies T::spec_index_valid(v) by {
                        if k < before.len() {
                            assert(w[k] == before[k]);
                        } else {
                            assert(w[k] == n.view());
                            if !(c.vars@.contains(v) || c.negated_vars@.contains(v)) {
                                assert(other@[j as int].0.contains(v) || other@[j as int].1.contains(v));
                            }
                        }
                    }
                }
                res.push(n);
            }
            proof {
                let o1 = other@.take(j + 1);
                assert(o1.drop_last() =~= other@.take(j as int));
                assert(o1.last() == d.view());
                if n.vars@.disjoint(n.negated_vars@) {
                    assert(view_of(res@) =~= view_of(old(res)@) + joined(c.view(), o1));
                } else {
                    assert(self_contradictory(n.view()));
                }
                assert forall|a: spec_fn(nat) -> bool|
                    #![trigger dnf_holds(view_of(res@), a)]
                    dnf_holds(view_of(res@), a) == (dnf_holds(view_of(old(res)@), a) || (
                    clause_holds(c.view(), a) && dnf_holds(other@.take(j + 1), a))) by {
                    lemma_dnf_take_next(other@, j as int, a);
                    lemma_clause_and(c.view(), d.view(), a);
                    if !n.vars@.disjoint(n.negated_vars@) {
                        assert(self_contradictory(n.view()));
                    } else {
                        lemma_dnf_push(before, n.view(), a);
                    }
                }
            }
            j += 1;
        }
        assert(other@.take(j as int) =~= other@);
    }

    /// The expression that holds when `self` or `other` holds: the clauses
    /// of both, side by side.
    pub fn or(self, other: &Self) -> (r: Self)
        requires
            self.wf(),
            other.wf(),
        ensures
            r.wf(),
            r@ == self@ + other@,
            forall|a: spec_fn(nat) -> bool|
                #![trigger dnf_holds(r@, a)]
                dnf_holds(r@, a) == (dnf_holds(self@, a) || dnf_holds(other@, a)),
    {
        let mut ands = self.ands;
        let ghost start = ands@;
        let mut j: usize = 0;
        while j < other.ands.len()
            invariant
                j <= other.ands@.len(),
                view_of(start) == self@,
                view_of(ands@) == self@ + other@.take(j as int),
            decreases other.ands@.len() - j,
        {
            let c = other.ands[j].clone_ands();
            proof {
                lemma_view_push(ands@, c);
                assert(self@ + other@.take(j + 1) =~= (self@ + other@.take(j as int)).push(
                    other@[j as int],
                ));
            }
            ands.push(c);
            j += 1;
        }
        assert(other@.take(j as int) =~= other@);
        let r = BoolExpr { ands, marker: core::marker::PhantomData };
        assert forall|a: spec_fn(nat) -> bool|
            #![trigger dnf_holds(r@, a)]
            dnf_holds(r@, a) == (dnf_holds(self@, a) || dnf_holds(other@, a)) by {
            let s = self@;
            let o = other@;
            if dnf_holds(s, a) {
                let i = choose|i: int| 0 <= i < s.len() && clause_holds(s[i], a);
                assert(r@[i] == s[i]);
            }
            if dnf_holds(o, a) {
                let i = choose|i: int| 0 <= i < o.len() && clause_holds(o[i], a);
                assert(r@[s.len() + i] == o[i]);
            }
            if dnf_holds(r@, a) {
                let i = choose|i: int| 0 <= i < r@.len() && clause_holds(r@[i], a);
                if i < s.len() {
                    assert(r@[i] == s[i]);
                } else {
                    assert(r@[i] == o[i - s.len()]);
                }
            }
        }
        r
    }


    /// The expression that holds when `self` does not, by De Morgan's laws:
    /// each clause becomes the OR of its negated literals, and these are
    /// joined by `and`.
    pub fn not(self) -> (r: Self)
        requires
            self.wf(),
        ensures
            r.wf(),
            forall|a: spec_fn(nat) -> bool|
                #![trigger dnf_holds(r@, a)]
                dnf_holds(r@, a) == !dnf_holds(self@, a),
            r@ == not_clauses(self@),
            self@.len() == 0 ==> r@ == seq![(Set::<nat>::empty(), Set::<nat>::empty())],
            (exists|i: int| 0 <= i < self@.len() && #[trigger] self@[i] == (Set::<nat>::empty(), Set::<nat>::empty()))
                ==> r@.len() == 0,
    {
        let mut res = Self::one();
        let mut k: usize = 0;
        while k < self.ands.len()
            invariant
                self.wf(),
                res.wf(),
                k <= self.ands@.len(),
                k == 0 ==> res@ == seq![(Set::<nat>::empty(), Set::<nat>::empty())],
                res@ == not_clauses(self@.take(k as int)),
                (exists|i: int| 0 <= i < k && #[trigger] self@[i] == (Set::<nat>::empty(), Set::<nat>::empty()))
                    ==> res@.len() == 0,
                forall|a: spec_fn(nat) -> bool|
                    #![trigger dnf_holds(res@, a)]
                    dnf_holds(res@, a) == !dnf_holds(self@.take(k as int), a),
            decreases self.ands@.len() - k,
        {
            assert(self@[k as int] == self.ands@[k as int].view());
            assert forall|v: nat| #[trigger] self.ands@[k as int].vars@.contains(v)
                implies T::spec_index_valid(v) by {
                assert(self@[k as int].0.contains(v));
            }
            assert forall|v: nat| #[trigger] self.ands@[k as int].negated_vars@.contains(v)
                implies T::spec_index_valid(v) by {
                assert(self@[k as int].1.contains(v));
            }
            let ors = Self::negate_clause(&self.ands[k]);
            let ghost prev = res@;
            res = res.and(&ors);
            proof {
                assert(self@.take(k + 1).drop_last() =~= self@.take(k as int));
                assert(self@.take(k + 1).last() == self@[k as int]);
                lemma_and_clauses_shape(prev, ors@);
                if exists|i: int| 0 <= i < k + 1 && #[trigger] self@[i] == (Set::<nat>::empty(), Set::<nat>::empty()) {
                    let i = choose|i: int| 0 <= i < k + 1 && #[trigger] self@[i] == (Set::<nat>::empty(), Set::<nat>::empty());
                    if i == k {
                        assert(ors@.len() == 0);
                    } else {
                        assert(prev.len() == 0);
                    }
                }
                assert forall|a: spec_fn(nat) -> bool|
                    #![trigger dnf_holds(res@, a)]
                    dnf_holds(res@, a) == !dnf_holds(self@.take(k + 1), a) by {
                    lemma_dnf_take_next(self@, k as int, a);
                    assert(dnf_holds(prev, a) == !dnf_holds(self@.take(k as int), a));
                }
            }
            k += 1;
        }
        assert(self@.take(k as int) =~= self@);
        res
    }

    /// The OR of single-literal clauses that holds exactly when clause `c`
    /// fails: one requiring each variable that `c` forbids, one forbidding
    /// each variable that `c` requires.
    fn negate_clause(c: &Ands) -> (r: Self)
        requires
            forall|v: nat| #[trigger] c.vars@.contains(v) ==> T::spec_index_valid(v),
            forall|v: nat| #[trigger] c.negated_vars@.contains(v) ==> T::spec_index_valid(v),
        ensures
            r.wf(),
            forall|a: spec_fn(nat) -> bool|
                #![trigger dnf_holds(r@, a)]
                dnf_holds(r@, a) == !clause_holds(c.view(), a),
            c.view() == (Set::<nat>::empty(), Set::<nat>::empty()) ==> r@.len() == 0,
            r@ == neg_clause(c.view()),
    {
        let mut ors = Self::zero();
        let ws = c.negated_vars.to_vec();
        let ghost wn = ws@.map_values(|x: usize| x as nat);
        proof {
            if c.negated_vars@ == Set::<nat>::empty() && ws@.len() > 0 {
                assert(c.negated_vars@.contains(ws@[0] as nat));
            }
        }
        let mut i: usize = 0;
        while i < ws.len()
            invariant
                i <= ws@.len(),
                ors@.len() == i,
                c.negated_vars@ == Set::<nat>::empty() ==> ws@.len() == 0,
                wn == ws@.map_values(|x: usize| x as nat),
                wn == ascending(c.negated_vars@),
                ors@ == pos_lits(wn.take(i as int)),
                ors.wf(),
                forall|v: nat| #[trigger] c.vars@.contains(v) ==> T::spec_index_valid(v),
                forall|v: nat| #[trigger] c.negated_vars@.contains(v) ==> T::spec_index_valid(v),
                forall|q: int| 0 <= q < ws@.len() ==> c.negated_vars@.contains(#[trigger] ws@[q] as nat),
                forall|a: spec_fn(nat) -> bool|
                    #![trigger dnf_holds(ors@, a)]
                    dnf_holds(ors@, a) == exists|q: int| 0 <= q < i && a(#[trigger] ws@[q] as nat),
            decreases ws@.len() - i,
        {
            let ghost prev = ors@;
            let v = ws[i];
            assert(c.negated_vars@.contains(ws@[i as int] as nat));
            let mut lit = Ands::new();
            lit.vars.insert(v);
            assert(lit.view() =~= (set![v as nat], Set::<nat>::empty()));
            Self::push_literal(&mut ors, lit);
            assert(pos_lits(wn.take(i + 1)) =~= pos_lits(wn.take(i as int)).push(lit.view()));
            proof {
                assert forall|a: spec_fn(nat) -> bool|
                    #![trigger dnf_holds(ors@, a)]
                    dnf_holds(ors@, a) == exists|q: int| 0 <= q < i + 1 && a(#[trigger] ws@[q] as nat) by {
                    lemma_literal(v as nat, a);
                    if exists|q: int| 0 <= q < i + 1 && a(#[trigger] ws@[q] as nat) {
                        let q = choose|q: int| 0 <= q < i + 1 && a(#[trigger] ws@[q] as nat);
                        if q < i {
                            assert(exists|q: int| 0 <= q < i && a(#[trigger] ws@[q] as nat));
                        }
                    }
                    if a(v as nat) {
                        assert(a(ws@[i as int] as nat));
                    }
                }
            }
            i += 1;
        }
        proof {
            assert forall|a: spec_fn(nat) -> bool|
                #![trigger dnf_holds(ors@, a)]
                dnf_holds(ors@, a) == (exists|v: nat| #[trigger] c.negated_vars@.contains(v) && a(v)) by {
                if exists|v: nat| #[trigger] c.negated_vars@.contains(v) && a(v) {
                    let v = choose|v: nat| #[trigger] c.negated_vars@.contains(v) && a(v);
                    let q = choose|q: int| 0 <= q < ws@.len() && ws@[q] == v as usize;
                    assert(a(ws@[q] as nat));
                }
                if dnf_holds(ors@, a) {
                    let q = choose|q: int| 0 <= q < ws@.len() && a(#[trigger] ws@[q] as nat);
                    assert(c.negated_vars@.contains(ws@[q] as nat));
                }
            }
        }
        let vs = c.vars.to_vec();
        let ghost nw = ws@.len();
        let ghost vn = vs@.map_values(|x: usize| x as nat);
        assert(wn.take(nw as int) =~= wn);
        proof {
            if c.vars@ == Set::<nat>::empty() && vs@.len() > 0 {
                assert(c.vars@.contains(vs@[0] as nat));
            }
        }
        let mut i: usize = 0;
        while i < vs.len()
            invariant
                i <= vs@.len(),
                ors@.len() == nw + i,
                c.vars@ == Set::<nat>::empty() ==> vs@.len() == 0,
                c.negated_vars@ == Set::<nat>::empty() ==> nw == 0,
                vn == vs@.map_values(|x: usize| x as nat),
                vn == ascending(c.vars@),
                wn == ascending(c.negated_vars@),
                ors@ == pos_lits(wn) + neg_lits(vn.take(i as int)),
                ors.wf(),
                forall|v: nat| #[trigger] c.vars@.contains(v) ==> T::spec_index_valid(v),
                forall|q: int| 0 <= q < vs@.len() ==> c.vars@.contains(#[trigger] vs@[q] as nat),
                forall|a: spec_fn(nat) -> bool|
                    #![trigger dnf_holds(ors@, a)]
                    dnf_holds(ors@, a) == ((exists|v: nat| #[trigger] c.negated_vars@.contains(v) && a(v))
                        || exists|q: int| 0 <= q < i && !a(#[trigger] vs@[q] as nat)),
            decreases vs@.len() - i,
        {
            let ghost prev = ors@;
            let v = vs[i];
            assert(c.vars@.contains(vs@[i as int] as nat));
            let mut lit = Ands::new();
            lit.negated_vars.insert(v);
            assert(lit.view() =~= (Set::<nat>::empty(), set![v as nat]));
            Self::push_literal(&mut ors, lit);
            assert(pos_lits(wn) + neg_lits(vn.take(i + 1)) =~= (pos_lits(wn) + neg_lits(vn.take(i as int))).push(lit.view()));
            proof {
                assert forall|a: spec_fn(nat) -> bool|
                    #![trigger dnf_holds(ors@, a)]
                    dnf_holds(ors@, a) == ((exists|v: nat| #[trigger] c.negated_vars@.contains(v) && a(v))
                        || exists|q: int| 0 <= q < i + 1 && !a(#[trigger] vs@[q] as nat)) by {
                    lemma_literal(v as nat, a);
                    if exists|q: int| 0 <= q < i + 1 && !a(#[trigger] vs@[q] as nat) {
                        let q = choose|q: int| 0 <= q < i + 1 && !a(#[trigger] vs@[q] as nat);
                        if q < i {
                            assert(exists|q: int| 0 <= q < i && !a(#[trigger] vs@[q] as nat));
                        }
                    }
                    if !a(v as nat) {
                        assert(!a(vs@[i as int] as nat));
                    }
                }
            }
            i += 1;
        }
        proof {
            assert forall|a: spec_fn(nat) -> bool|
                #![trigger dnf_holds(ors@, a)]
                dnf_holds(ors@, a) == ((exists|v: nat| #[trigger] c.negated_vars@.contains(v) && a(v))
                    || exists|v: nat| #[trigger] c.vars@.contains(v) && !a(v)) by {
                if exists|v: nat| #[trigger] c.vars@.contains(v) && !a(v) {
                    let v = choose|v: nat| #[trigger] c.vars@.contains(v) && !a(v);
                    let q = choose|q: int| 0 <= q < vs@.len() && vs@[q] == v as usize;
                    assert(!a(vs@[q] as nat));
                }
                if exists|q: int| 0 <= q < vs@.len() && !a(#[trigger] vs@[q] as nat) {
                    let q = choose|q: int| 0 <= q < vs@.len() && !a(#[trigger] vs@[q] as nat);
                    assert(c.vars@.contains(vs@[q] as nat));
                }
            }
        }
        proof {
            assert forall|a: spec_fn(nat) -> bool|
                #![trigger dnf_holds(ors@, a)]
                dnf_holds(ors@, a) == !clause_holds(c.view(), a) by {
                let cv = c.view();
                assert(cv.0 == c.vars@ && cv.1 == c.negated_vars@);
                if exists|v: nat| #[trigger] c.vars@.contains(v) && !a(v) {
                    let v = choose|v: nat| #[trigger] c.vars@.contains(v) && !a(v);
                    assert(cv.0.contains(v));
                }
                if exists|v: nat| #[trigger] c.negated_vars@.contains(v) && a(v) {
                    let v = choose|v: nat| #[trigger] c.negated_vars@.contains(v) && a(v);
                    assert(cv.1.contains(v));
                }
                if !clause_holds(cv, a) {
                    if !(forall|v: nat| #[trigger] cv.0.contains(v) ==> a(v)) {
                        let v = choose|v: nat| !(#[trigger] cv.0.contains(v) ==> a(v));
                        assert(c.vars@.contains(v) && !a(v));
                    } else {
                        let v = choose|v: nat| !(#[trigger] cv.1.contains(v) ==> !a(v));
                        assert(c.negated_vars@.contains(v) && a(v));
                    }
                }
            }
        }
        ors
    }

    /// Appends the single-literal clause `lit` to `ors`.
    fn push_literal(ors: &mut Self, lit: Ands)
        requires
            old(ors).wf(),
            forall|v: nat| #[trigger] lit.vars@.contains(v) ==> T::spec_index_valid(v),
            forall|v: nat| #[trigger] lit.negated_vars@.contains(v) ==> T::spec_index_valid(v),
        ensures
            final(ors).wf(),
            final(ors)@ == old(ors)@.push(lit.view()),
            forall|a: spec_fn(nat) -> bool|
                #![trigger dnf_holds(final(ors)@, a)]
                dnf_holds(final(ors)@, a) == (dnf_holds(old(ors)@, a) || clause_holds(lit.view(), a)),
    {
        proof {
            lemma_view_push(ors.ands@, lit);
        }
        ors.ands.push(lit);
        proof {
            let w = ors@;
            let before = old(ors)@;
            assert forall|k: int, v: nat|
                #![trigger w[k].0.contains(v)]
                #![trigger w[k].1.contains(v)]
                0 <= k < w.len() && (w[k].0.contains(v) || w[k].1.contains(v))
                implies T::spec_index_valid(v) by {
                if k < before.len() {
                    assert(w[k] == before[k]);
                }
            }
            assert forall|a: spec_fn(nat) -> bool|
                #![trigger dnf_holds(ors@, a)]
                dnf_holds(ors@, a) == (dnf_holds(old(ors)@, a) || clause_holds(lit.view(), a)) by {
                lemma_dnf_push(old(ors)@, lit.view(), a);
            }
        }
    }


    /// The expression that holds when exactly one of `self` and `other`
    /// holds: `(self ∧ ¬other) ∨ (other ∧ ¬self)`.
    pub fn xor(self, other: &Self) -> (r: Self)
        requires
            self.wf(),
            other.wf(),
        ensures
            r.wf(),
            forall|a: spec_fn(nat) -> bool|
                #![trigger dnf_holds(r@, a)]
                dnf_holds(r@, a) == (dnf_holds(self@, a) != dnf_holds(other@, a)),
    {
        let not_other = other.clone().not();
        let left = self.clone().and(&not_other);
        let ghost s = self@;
        let not_self = self.not();
        let right = other.clone().and(&not_self);
        let r = left.or(&right);
        assert forall|a: spec_fn(nat) -> bool|
            #![trigger dnf_holds(r@, a)]
            dnf_holds(r@, a) == (dnf_holds(s, a) != dnf_holds(other@, a)) by {
            assert(dnf_holds(left@, a) == (dnf_holds(s, a) && dnf_holds(not_other@, a)));
            assert(dnf_holds(right@, a) == (dnf_holds(other@, a) && dnf_holds(not_self@, a)));
            assert(dnf_holds(not_other@, a) == !dnf_holds(other@, a));
            assert(dnf_holds(not_self@, a) == !dnf_holds(s, a));
        }
        r
    }

    /// Whether `self` and `other` are disjoint by a test on their text:
    /// true exactly when each clause of `self` conflicts with each clause of
    /// `other`. It may miss a disjointness, but never reports a false one.
    pub fn is_disjoint(&self, other: &Self) -> (r: bool)
        ensures
            r == all_pairs_conflict(self@, other@),
            r ==> forall|a: spec_fn(nat) -> bool| !(dnf_holds(self@, a) && dnf_holds(other@, a)),
    {
        let mut p: usize = 0;
        while p < self.ands.len()
            invariant
                p <= self.ands@.len(),
                forall|i: int, q: int|
                    0 <= i < p && 0 <= q < other@.len() ==> #[trigger] clauses_conflict(
                        self@[i],
                        other@[q],
                    ),
            decreases self.ands@.len() - p,
        {
            let c = &self.ands[p];
            assert(self@[p as int] == c.view());
            let mut q: usize = 0;
            while q < other.ands.len()
                invariant
                    p < self.ands@.len(),
                    c == self.ands@[p as int],
                    self@[p as int] == c.view(),
                    q <= other.ands@.len(),
                    forall|j: int| 0 <= j < q ==> #[trigger] clauses_conflict(self@[p as int], other@[j]),
                decreases other.ands@.len() - q,
            {
                let d = &other.ands[q];
                assert(other@[q as int] == d.view());
                let conflict = !c.vars.is_disjoint(&c.negated_vars) || !d.vars.is_disjoint(
                    &d.negated_vars,
                ) || !c.vars.is_disjoint(&d.negated_vars) || !d.vars.is_disjoint(&c.negated_vars);
                if !conflict {
                    assert(!clauses_conflict(self@[p as int], other@[q as int]));
                    return false;
                }
                q += 1;
            }
            p += 1;
        }
        proof {
            assert forall|a: spec_fn(nat) -> bool| !(dnf_holds(self@, a) && dnf_holds(other@, a)) by {
                lemma_all_pairs_conflict_sound(self@, other@, a);
            }
        }
        true
    }


    /// Evaluates the expression with the variables in `present` true and
    /// all others false, as when matching an archetype's shape.
    pub fn eval_set(&self, present: &BitSet) -> (r: bool)
        ensures
            r == dnf_holds(self@, |v: nat| present@.contains(v)),
    {
        let ghost a = |v: nat| present@.contains(v);
        let mut k: usize = 0;
        while k < self.ands.len()
            invariant
                k <= self.ands@.len(),
                a == (|v: nat| present@.contains(v)),
                forall|j: int| 0 <= j < k ==> !clause_holds(#[trigger] self@[j], a),
            decreases self.ands@.len() - k,
        {
            let ands = &self.ands[k];
            assert(self@[k as int] == ands.view());
            let holds = ands.vars.is_subset_of(present) && ands.negated_vars.is_disjoint(present);
            proof {
                let c = ands.view();
                if holds {
                    assert forall|v: nat| #[trigger] c.1.contains(v) implies !a(v) by {
                        assert(!(ands.negated_vars@.contains(v) && present@.contains(v)));
                    }
                } else if !ands.vars@.subset_of(present@) {
                    let v = choose|v: nat| ands.vars@.contains(v) && !present@.contains(v);
                    assert(c.0.contains(v) && !a(v));
                } else {
                    let v = choose|v: nat| ands.negated_vars@.contains(v) && present@.contains(v);
                    assert(c.1.contains(v) && a(v));
                }
            }
            if holds {
                assert(clause_holds(self@[k as int], a));
                return true;
            }
            k += 1;
        }
        false
    }

}

} // verus!
