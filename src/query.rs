//! Query compilation: a filter and an access list become one expression
//! over component ids that an archetype's shape must satisfy.
use vstd::prelude::*;

use crate::bool_expr::{BoolExpr, dnf_holds};
use crate::component::ComponentId;
use crate::event::Footprint;
use crate::sparse::BitSetIndex;

verus! {

/// The expression a query matches archetypes with: `filter`, and every
/// component that the query reads or writes present.
pub fn compile(filter: BoolExpr<ComponentId>, access: &Footprint) -> (r: BoolExpr<ComponentId>)
    requires
        filter.wf(),
        forall|c: nat| #[trigger] access.reads@.contains(c) ==> c <= u32::MAX,
        forall|c: nat| #[trigger] access.writes@.contains(c) ==> c <= u32::MAX,
    ensures
        r.wf(),
        forall|a: spec_fn(nat) -> bool|
            #![trigger dnf_holds(r@, a)]
            dnf_holds(r@, a) == (dnf_holds(filter@, a) && (forall|c: nat|
                #[trigger] access.reads@.contains(c) ==> a(c)) && (forall|c: nat|
                #[trigger] access.writes@.contains(c) ==> a(c))),
{
    let ghost f = filter@;
    let mut expr = filter;
    let reads = access.reads.to_vec();
    let mut i: usize = 0;
    while i < reads.len()
        invariant
            i <= reads@.len(),
            expr.wf(),
            forall|q: int| 0 <= q < reads@.len() ==> access.reads@.contains(#[trigger] reads@[q] as nat),
            forall|c: nat| #[trigger] access.reads@.contains(c) ==> c <= u32::MAX,
            forall|a: spec_fn(nat) -> bool|
                #![trigger dnf_holds(expr@, a)]
                dnf_holds(expr@, a) == (dnf_holds(f, a) && forall|q: int|
                    0 <= q < i ==> a(#[trigger] reads@[q] as nat)),
        decreases reads@.len() - i,
    {
        let c = reads[i];
        assert(access.reads@.contains(reads@[i as int] as nat));
        let id = ComponentId::from_bit_set_index(c);
        let ghost prev = expr@;
        expr = expr.and(&BoolExpr::with(id));
        proof {
            assert forall|a: spec_fn(nat) -> bool|
                #![trigger dnf_holds(expr@, a)]
                dnf_holds(expr@, a) == (dnf_holds(f, a) && forall|q: int|
                    0 <= q < i + 1 ==> a(#[trigger] reads@[q] as nat)) by {
                assert(dnf_holds(prev, a) == (dnf_holds(f, a) && forall|q: int|
                    0 <= q < i ==> a(#[trigger] reads@[q] as nat)));
            }
        }
        i += 1;
    }
    let ghost after_reads = expr@;
    let writes = access.writes.to_vec();
    let mut j: usize = 0;
    while j < writes.len()
        invariant
            j <= writes@.len(),
            expr.wf(),
            forall|q: int| 0 <= q < writes@.len() ==> access.writes@.contains(#[trigger] writes@[q] as nat),
            forall|c: nat| #[trigger] access.writes@.contains(c) ==> c <= u32::MAX,
            forall|a: spec_fn(nat) -> bool|
                #![trigger dnf_holds(expr@, a)]
                dnf_holds(expr@, a) == (dnf_holds(after_reads, a) && forall|q: int|
                    0 <= q < j ==> a(#[trigger] writes@[q] as nat)),
        decreases writes@.len() - j,
    {
        let c = writes[j];
        assert(access.writes@.contains(writes@[j as int] as nat));
        let id = ComponentId::from_bit_set_index(c);
        let ghost prev = expr@;
        expr = expr.and(&BoolExpr::with(id));
        proof {
            assert forall|a: spec_fn(nat) -> bool|
                #![trigger dnf_holds(expr@, a)]
                dnf_holds(expr@, a) == (dnf_holds(after_reads, a) && forall|q: int|
                    0 <= q < j + 1 ==> a(#[trigger] writes@[q] as nat)) by {
                assert(dnf_holds(prev, a) == (dnf_holds(after_reads, a) && forall|q: int|
                    0 <= q < j ==> a(#[trigger] writes@[q] as nat)));
            }
        }
        j += 1;
    }
    proof {
        assert forall|a: spec_fn(nat) -> bool|
            #![trigger dnf_holds(expr@, a)]
            dnf_holds(expr@, a) == (dnf_holds(f, a) && (forall|c: nat|
                #[trigger] access.reads@.contains(c) ==> a(c)) && (forall|c: nat|
                #[trigger] access.writes@.contains(c) ==> a(c))) by {
            if forall|q: int| 0 <= q < reads@.len() ==> a(#[trigger] reads@[q] as nat) {
                assert forall|c: nat| #[trigger] access.reads@.contains(c) implies a(c) by {
                    let q = choose|q: int| 0 <= q < reads@.len() && reads@[q] == c as usize;
                    assert(a(reads@[q] as nat));
                }
            }
            if forall|q: int| 0 <= q < writes@.len() ==> a(#[trigger] writes@[q] as nat) {
                assert forall|c: nat| #[trigger] access.writes@.contains(c) implies a(c) by {
                    let q = choose|q: int| 0 <= q < writes@.len() && writes@[q] == c as usize;
                    assert(a(writes@[q] as nat));
                }
            }
        }
    }
    expr
}

} // verus!
