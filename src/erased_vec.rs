//! A growable array whose elements are known only by their layout: a byte
//! arena with its own length, capacity and element layout.
use vstd::multiset::Multiset;
use vstd::prelude::*;

use crate::layout::ElemLayout;

verus! {

/// The bytes of element `i` in an arena of elements of `size` bytes.
pub open spec fn elem_bytes(data: Seq<u8>, size: nat, i: nat) -> Seq<u8> {
    data.subrange((i * size) as int, (i * size + size) as int)
}

/// The elements after removing row `row` by moving the last element into it.
pub open spec fn swap_removed(s: Seq<Seq<u8>>, row: int) -> Seq<Seq<u8>> {
    s.update(row, s.last()).drop_last()
}

/// Removing a row by swapping loses no element and duplicates none: the
/// elements left, with the removed one, are exactly the elements before.
pub proof fn lemma_swap_remove_conserves(s: Seq<Seq<u8>>, row: int)
    requires
        0 <= row < s.len(),
    ensures
        swap_removed(s, row).to_multiset().insert(s[row]) == s.to_multiset(),
{
    broadcast use vstd::seq_lib::group_to_multiset_ensures;

    let u = s.update(row, s.last());
    let d = u.drop_last();
    assert(d.push(u.last()) =~= u);
    assert(u.last() == s.last());
    assert(u.to_multiset() == d.to_multiset().insert(s.last()));
    assert(u.to_multiset() == s.to_multiset().insert(s.last()).remove(s[row]));
    assert(s.to_multiset().contains(s[row]));
    assert forall|x: Seq<u8>| #[trigger] d.to_multiset().insert(s[row]).count(x) == s.to_multiset().count(x) by {
        broadcast use vstd::multiset::group_multiset_axioms;

        assert(d.to_multiset().insert(s.last()).count(x) == s.to_multiset().insert(s.last()).remove(
            s[row],
        ).count(x));
    }
    assert(d.to_multiset().insert(s[row]) =~= s.to_multiset());
}

/// Moving a row from one array to another keeps every element in exactly
/// one of them: the two arrays together hold the same elements as before.
pub proof fn lemma_transfer_conserves(s: Seq<Seq<u8>>, o: Seq<Seq<u8>>, row: int)
    requires
        0 <= row < s.len(),
    ensures
        swap_removed(s, row).to_multiset().add(o.push(s[row]).to_multiset()) == s.to_multiset().add(
            o.to_multiset(),
        ),
{
    broadcast use vstd::seq_lib::group_to_multiset_ensures;

    lemma_swap_remove_conserves(s, row);
    assert(o.push(s[row]).to_multiset() == o.to_multiset().insert(s[row]));
    assert(swap_removed(s, row).to_multiset().add(o.push(s[row]).to_multiset()) =~= s.to_multiset().add(
        o.to_multiset(),
    ));
}

/// Every element of every column, with its multiplicity.
pub open spec fn all_elems(cols: Seq<Seq<Seq<u8>>>) -> Multiset<Seq<u8>>
    decreases cols.len(),
{
    if cols.len() == 0 {
        Multiset::empty()
    } else {
        all_elems(cols.drop_last()).add(cols.last().to_multiset())
    }
}

/// Replacing column `c` changes the total by exactly that column's change.
proof fn lemma_all_elems_update(cols: Seq<Seq<Seq<u8>>>, c: int, x: Seq<Seq<u8>>)
    requires
        0 <= c < cols.len(),
    ensures
        all_elems(cols.update(c, x)).add(cols[c].to_multiset()) == all_elems(cols).add(x.to_multiset()),
    decreases cols.len(),
{
    broadcast use vstd::multiset::group_multiset_axioms;

    let u = cols.update(c, x);
    let ud = if c == cols.len() - 1 {
        cols.drop_last()
    } else {
        cols.drop_last().update(c, x)
    };
    assert(u.drop_last() =~= ud);
    assert(all_elems(u) == all_elems(ud).add(u.last().to_multiset()));
    assert(all_elems(cols) == all_elems(cols.drop_last()).add(cols.last().to_multiset()));
    if c < cols.len() - 1 {
        lemma_all_elems_update(cols.drop_last(), c, x);
        assert(u.last() == cols.last());
        assert(cols.drop_last()[c] == cols[c]);
    } else {
        assert(u.last() == x);
    }
    assert forall|e: Seq<u8>| #[trigger] all_elems(u).add(cols[c].to_multiset()).count(e) == all_elems(cols).add(
        x.to_multiset(),
    ).count(e) by {
        if c < cols.len() - 1 {
            assert(all_elems(ud).add(cols[c].to_multiset()).count(e) == all_elems(cols.drop_last()).add(
                x.to_multiset(),
            ).count(e));
        }
    }
    assert(all_elems(u).add(cols[c].to_multiset()) =~= all_elems(cols).add(x.to_multiset()));
}

/// One step on a set of columns: `(true, c, r, _)` swap-removes row `r` of
/// column `c`, destroying its element; `(false, c, d, r)` transfers row `r`
/// of column `c` to column `d`. A step whose rows or columns do not exist
/// changes nothing. The second component gathers the destroyed elements.
pub open spec fn column_step(
    state: (Seq<Seq<Seq<u8>>>, Multiset<Seq<u8>>),
    op: (bool, nat, nat, nat),
) -> (Seq<Seq<Seq<u8>>>, Multiset<Seq<u8>>) {
    let (cols, destroyed) = state;
    if op.0 {
        let c = op.1 as int;
        let r = op.2 as int;
        if c < cols.len() && r < cols[c].len() {
            (cols.update(c, swap_removed(cols[c], r)), destroyed.insert(cols[c][r]))
        } else {
            state
        }
    } else {
        let c = op.1 as int;
        let d = op.2 as int;
        let r = op.3 as int;
        if c < cols.len() && d < cols.len() && c != d && r < cols[c].len() {
            (cols.update(c, swap_removed(cols[c], r)).update(d, cols[d].push(cols[c][r])), destroyed)
        } else {
            state
        }
    }
}

/// The state after running `ops` in order.
pub open spec fn column_run(
    state: (Seq<Seq<Seq<u8>>>, Multiset<Seq<u8>>),
    ops: Seq<(bool, nat, nat, nat)>,
) -> (Seq<Seq<Seq<u8>>>, Multiset<Seq<u8>>)
    decreases ops.len(),
{
    if ops.len() == 0 {
        state
    } else {
        column_step(column_run(state, ops.drop_last()), ops.last())
    }
}

proof fn lemma_step_conserves(state: (Seq<Seq<Seq<u8>>>, Multiset<Seq<u8>>), op: (bool, nat, nat, nat))
    ensures
        all_elems(column_step(state, op).0).add(column_step(state, op).1) == all_elems(state.0).add(
            state.1,
        ),
{
    broadcast use vstd::multiset::group_multiset_axioms;

    let (cols, destroyed) = state;
    let c = op.1 as int;
    if op.0 {
        let r = op.2 as int;
        if c < cols.len() && r < cols[c].len() {
            let x = swap_removed(cols[c], r);
            lemma_swap_remove_conserves(cols[c], r);
            lemma_all_elems_update(cols, c, x);
            let v = cols[c][r];
            assert forall|e: Seq<u8>| #[trigger] all_elems(cols.update(c, x)).add(destroyed.insert(v)).count(e)
                == all_elems(cols).add(destroyed).count(e) by {
                assert(all_elems(cols.update(c, x)).add(cols[c].to_multiset()).count(e) == all_elems(cols).add(
                    x.to_multiset(),
                ).count(e));
                assert(x.to_multiset().insert(v).count(e) == cols[c].to_multiset().count(e));
            }
            assert(all_elems(cols.update(c, x)).add(destroyed.insert(v)) =~= all_elems(cols).add(
                destroyed,
            ));
        }
    } else {
        let d = op.2 as int;
        let r = op.3 as int;
        if c < cols.len() && d < cols.len() && c != d && r < cols[c].len() {
            let x = swap_removed(cols[c], r);
            let c1 = cols.update(c, x);
            let y = cols[d].push(cols[c][r]);
            lemma_transfer_conserves(cols[c], cols[d], r);
            lemma_all_elems_update(cols, c, x);
            assert(c1[d] == cols[d]);
            lemma_all_elems_update(c1, d, y);
            assert forall|e: Seq<u8>| #[trigger] all_elems(c1.update(d, y)).add(destroyed).count(e)
                == all_elems(cols).add(destroyed).count(e) by {
                assert(all_elems(c1).add(cols[c].to_multiset()).count(e) == all_elems(cols).add(
                    x.to_multiset(),
                ).count(e));
                assert(all_elems(c1.update(d, y)).add(cols[d].to_multiset()).count(e) == all_elems(c1).add(
                    y.to_multiset(),
                ).count(e));
                assert(x.to_multiset().add(y.to_multiset()).count(e) == cols[c].to_multiset().add(
                    cols[d].to_multiset(),
                ).count(e));
            }
            assert(all_elems(c1.update(d, y)).add(destroyed) =~= all_elems(cols).add(destroyed));
        }
    }
}

/// Each element is destroyed exactly once over a whole run: after any
/// sequence of swap-removes and transfers between columns, the elements
/// still held together with those destroyed are exactly the elements held
/// at the start with those destroyed before it. Clearing every column then
/// hands back the rest, so across the run each element is destroyed once.
pub proof fn lemma_run_destroys_each_once(
    state: (Seq<Seq<Seq<u8>>>, Multiset<Seq<u8>>),
    ops: Seq<(bool, nat, nat, nat)>,
)
    ensures
        all_elems(column_run(state, ops).0).add(column_run(state, ops).1) == all_elems(state.0).add(
            state.1,
        ),
    decreases ops.len(),
{
    if ops.len() > 0 {
        lemma_run_destroys_each_once(state, ops.drop_last());
        lemma_step_conserves(column_run(state, ops.drop_last()), ops.last());
    }
}

/// The capacity after growing from `cap` to hold `needed` elements: twice
/// the old one, or `needed` if that is more.
pub open spec fn grown_cap(cap: nat, needed: nat) -> nat {
    if 2 * cap > needed {
        2 * cap
    } else {
        needed
    }
}

proof fn lemma_elem_bounds(size: nat, i: nat, n: nat)
    requires
        i < n,
    ensures
        i * size + size <= n * size,
{
    assert(i * size + size <= n * size) by (nonlinear_arith)
        requires
            i < n,
    ;
}

proof fn lemma_rows_fit(size: nat, len: nat, cap: nat)
    requires
        len <= cap,
    ensures
        len * size <= cap * size,
{
    assert(len * size <= cap * size) by (nonlinear_arith)
        requires
            len <= cap,
    ;
}

proof fn lemma_elems_apart(size: nat, i: nat, j: nat)
    requires
        i < j,
    ensures
        i * size + size <= j * size,
{
    lemma_elem_bounds(size, i, j);
}

/// Bytes outside the region of element `dst` are untouched, so each other
/// element keeps its bytes.
proof fn lemma_other_elems_kept(old_data: Seq<u8>, new_data: Seq<u8>, size: nat, dst: nat, n: nat)
    requires
        dst < n,
        n * size <= old_data.len(),
        new_data.len() == old_data.len(),
        forall|b: int|
            0 <= b < old_data.len() && !(dst * size <= b < dst * size + size) ==> #[trigger] new_data[b]
                == old_data[b],
    ensures
        forall|j: nat| j < n && j != dst ==> #[trigger] elem_bytes(new_data, size, j) == elem_bytes(old_data, size, j),
{
    assert forall|j: nat| j < n && j != dst implies #[trigger] elem_bytes(new_data, size, j) == elem_bytes(
        old_data,
        size,
        j,
    ) by {
        lemma_elem_bounds(size, j, n);
        if j < dst {
            lemma_elems_apart(size, j, dst);
        } else {
            lemma_elems_apart(size, dst, j);
        }
        assert(elem_bytes(new_data, size, j) =~= elem_bytes(old_data, size, j));
    }
}

/// Copies `n` bytes of `data` from offset `from` to offset `to`; the two
/// ranges are the same or do not overlap.
fn copy_bytes(data: &mut Vec<u8>, from: usize, to: usize, n: usize)
    requires
        old(data)@.len() <= isize::MAX,
        from + n <= old(data)@.len(),
        to + n <= old(data)@.len(),
        from == to || from + n <= to || to + n <= from,
    ensures
        final(data)@.len() == old(data)@.len(),
        forall|b: int|
            0 <= b < old(data)@.len() ==> #[trigger] final(data)@[b] == if to <= b < to + n {
                old(data)@[from + b - to]
            } else {
                old(data)@[b]
            },
{
    let mut k: usize = 0;
    while k < n
        invariant
            k <= n,
            old(data)@.len() <= isize::MAX,
            from + n <= old(data)@.len(),
            to + n <= old(data)@.len(),
            from == to || from + n <= to || to + n <= from,
            data@.len() == old(data)@.len(),
            forall|b: int|
                0 <= b < old(data)@.len() ==> #[trigger] data@[b] == if to <= b < to + k {
                    old(data)@[from + b - to]
                } else {
                    old(data)@[b]
                },
        decreases n - k,
    {
        let byte = data[from + k];
        data.set(to + k, byte);
        k += 1;
    }
}

/// A growable array of elements that share one layout. Element `i` is held
/// in bytes `i * size .. (i + 1) * size` of `data`. Elements of size zero
/// take no room: their capacity is `usize::MAX` and nothing is allocated.
/// When `needs_drop` holds, each element leaving the array other than by
/// `transfer_elem` is handed back to the caller to be destroyed.
pub struct ErasedVec {
    elem_layout: ElemLayout,
    len: usize,
    cap: usize,
    data: Vec<u8>,
    needs_drop: bool,
}

impl View for ErasedVec {
    type V = Seq<Seq<u8>>;

    closed spec fn view(&self) -> Seq<Seq<u8>> {
        Seq::new(self.len as nat, |i: int| elem_bytes(self.data@, self.elem_layout.size as nat, i as nat))
    }
}

impl ErasedVec {
    pub closed spec fn wf(&self) -> bool {
        &&& self.elem_layout.is_valid()
        &&& self.len <= self.cap
        &&& self.elem_layout.size == 0 ==> self.cap == usize::MAX && self.data@.len() == 0
        &&& self.elem_layout.size > 0 ==> self.data@.len() == self.cap * self.elem_layout.size
            && self.cap * self.elem_layout.size <= isize::MAX
    }

    pub closed spec fn spec_layout(&self) -> ElemLayout {
        self.elem_layout
    }

    pub closed spec fn spec_cap(&self) -> nat {
        self.cap as nat
    }

    pub closed spec fn spec_needs_drop(&self) -> bool {
        self.needs_drop
    }

    /// Whether room for `additional` more elements can be had: already
    /// there, or in a buffer of the grown capacity that stays within
    /// `isize::MAX` bytes.
    pub open spec fn can_reserve(&self, additional: nat) -> bool {
        let len = self@.len();
        let cap = self.spec_cap();
        let size = self.spec_layout().size as nat;
        ||| len + additional <= cap
        ||| (len + additional <= usize::MAX && size > 0 && grown_cap(cap, len + additional)
            * size
            <= isize::MAX)
    }

    /// An empty array of elements of layout `layout`.
    pub fn new(layout: ElemLayout, needs_drop: bool) -> (r: Self)
        requires
            layout.is_valid(),
        ensures
            r.wf(),
            r@ == Seq::<Seq<u8>>::empty(),
            r.spec_layout() == layout,
            r.spec_needs_drop() == needs_drop,
            r.spec_cap() == if layout.size == 0 {
                usize::MAX as nat
            } else {
                0
            },
    {
        let r = ErasedVec {
            elem_layout: layout,
            len: 0,
            cap: if layout.size == 0 {
                usize::MAX
            } else {
                0
            },
            data: Vec::new(),
            needs_drop,
        };
        assert(r@ =~= Seq::<Seq<u8>>::empty());
        r
    }

    pub fn len(&self) -> (r: usize)
        ensures
            r == self@.len(),
    {
        self.len
    }

    pub fn capacity(&self) -> (r: usize)
        ensures
            r == self.spec_cap(),
    {
        self.cap
    }

    pub fn elem_layout(&self) -> (r: ElemLayout)
        ensures
            r == self.spec_layout(),
    {
        self.elem_layout
    }

    /// The layout of the whole buffer: `capacity * size` bytes.
    pub fn capacity_layout(&self) -> (r: ElemLayout)
        requires
            self.wf(),
        ensures
            r.size == self.spec_cap() * self.spec_layout().size,
            r.align == self.spec_layout().align,
    {
        if self.elem_layout.size == 0 {
            ElemLayout { size: 0, align: self.elem_layout.align }
        } else {
            ElemLayout { size: self.cap * self.elem_layout.size, align: self.elem_layout.align }
        }
    }

    /// Makes room for `additional` more elements. When the room is not
    /// there, the capacity becomes twice the old one, or the length needed
    /// if that is more.
    pub fn reserve(&mut self, additional: usize)
        requires
            old(self).wf(),
            old(self).can_reserve(additional as nat),
        ensures
            final(self).wf(),
            final(self)@ == old(self)@,
            final(self).spec_layout() == old(self).spec_layout(),
            final(self).spec_needs_drop() == old(self).spec_needs_drop(),
            final(self)@.len() + additional <= final(self).spec_cap(),
            old(self)@.len() + additional <= old(self).spec_cap() ==> final(self).spec_cap()
                == old(self).spec_cap(),
            old(self)@.len() + additional > old(self).spec_cap() ==> final(self).spec_cap() == grown_cap(
                old(self).spec_cap(),
                (old(self)@.len() + additional) as nat,
            ),
    {
        let available = self.cap - self.len;
        if additional > available {
            let required = self.len + additional;
            let size = self.elem_layout.size;
            assert(size > 0);
            assert(self.cap <= self.cap * size) by (nonlinear_arith)
                requires
                    size > 0,
            ;
            let new_cap = if self.cap * 2 > required {
                self.cap * 2
            } else {
                required
            };
            let ghost old_data = self.data@;
            assert(new_cap * size <= isize::MAX);
            assert(new_cap * size >= self.cap * size) by (nonlinear_arith)
                requires
                    new_cap >= self.cap,
            ;
            self.data.resize(new_cap * size, 0u8);
            self.cap = new_cap;
            proof {
                assert forall|i: int| 0 <= i < self.len implies #[trigger] elem_bytes(
                    self.data@,
                    size as nat,
                    i as nat,
                ) == elem_bytes(old_data, size as nat, i as nat) by {
                    lemma_elem_bounds(size as nat, i as nat, old(self).cap as nat);
                    assert(self.data@.subrange(0, old_data.len() as int) == old_data);
                    assert(elem_bytes(self.data@, size as nat, i as nat) =~= elem_bytes(
                        old_data,
                        size as nat,
                        i as nat,
                    ));
                }
                assert(self@ =~= old(self)@);
            }
        }
    }

    /// Appends one element and returns its row. Its bytes are not yet
    /// meaningful: the caller writes them with `write` before any read.
    pub fn push(&mut self) -> (r: usize)
        requires
            old(self).wf(),
            old(self).can_reserve(1),
        ensures
            final(self).wf(),
            r == old(self)@.len(),
            final(self)@.len() == old(self)@.len() + 1,
            final(self)@.take(r as int) == old(self)@,
            final(self)@[r as int].len() == old(self).spec_layout().size,
            final(self)@.len() <= final(self).spec_cap(),
            old(self)@.len() + 1 <= old(self).spec_cap() ==> final(self).spec_cap() == old(self).spec_cap(),
            old(self)@.len() + 1 > old(self).spec_cap() ==> final(self).spec_cap() == grown_cap(
                old(self).spec_cap(),
                (old(self)@.len() + 1) as nat,
            ),
            final(self).spec_layout() == old(self).spec_layout(),
            final(self).spec_needs_drop() == old(self).spec_needs_drop(),
    {
        self.reserve(1);
        let ghost mid = self@;
        let r = self.len;
        self.len = self.len + 1;
        proof {
            assert(self@.take(r as int) =~= mid);
            if self.elem_layout.size > 0 {
                lemma_elem_bounds(self.elem_layout.size as nat, r as nat, self.cap as nat);
            } else {
                assert((r as nat) * 0 == 0) by (nonlinear_arith);
            }
            assert(self@[r as int] == elem_bytes(self.data@, self.elem_layout.size as nat, r as nat));
            assert(self@[r as int].len() == self.elem_layout.size);
        }
        r
    }

    /// Sets the bytes of element `row`.
    pub fn write(&mut self, row: usize, bytes: &Vec<u8>)
        requires
            old(self).wf(),
            row < old(self)@.len(),
            bytes@.len() == old(self).spec_layout().size,
        ensures
            final(self).wf(),
            final(self)@ == old(self)@.update(row as int, bytes@),
            final(self).spec_layout() == old(self).spec_layout(),
            final(self).spec_cap() == old(self).spec_cap(),
            final(self).spec_needs_drop() == old(self).spec_needs_drop(),
    {
        let size = self.elem_layout.size;
        if size == 0 {
            assert(bytes@ =~= Seq::<u8>::empty());
            assert forall|i: int| 0 <= i < self@.len() implies #[trigger] self@[i] =~= Seq::<u8>::empty() by {}
            assert(self@ =~= old(self)@.update(row as int, bytes@));
            return;
        }
        proof {
            lemma_elem_bounds(size as nat, row as nat, self.cap as nat);
        }
        let base = row * size;
        let mut k: usize = 0;
        while k < size
            invariant
                self.wf(),
                self.elem_layout == old(self).elem_layout,
                self.len == old(self).len,
                self.cap == old(self).cap,
                self.needs_drop == old(self).needs_drop,
                size == self.elem_layout.size,
                bytes@.len() == size,
                base == row * size,
                base + size <= self.data@.len(),
                k <= size,
                forall|b: int|
                    0 <= b < self.data@.len() ==> #[trigger] self.data@[b] == if base <= b < base + k {
                        bytes@[b - base]
                    } else {
                        old(self).data@[b]
                    },
            decreases size - k,
        {
            self.data.set(base + k, bytes[k]);
            k += 1;
        }
        proof {
            lemma_rows_fit(size as nat, self.len as nat, self.cap as nat);
            lemma_other_elems_kept(old(self).data@, self.data@, size as nat, row as nat, self.len as nat);
            assert(elem_bytes(self.data@, size as nat, row as nat) =~= bytes@);
            assert(self@ =~= old(self)@.update(row as int, bytes@));
        }
    }

    /// A copy of the bytes of element `row`.
    pub fn read(&self, row: usize) -> (r: Vec<u8>)
        requires
            self.wf(),
            row < self@.len(),
        ensures
            r@ == self@[row as int],
            r@.len() == self.spec_layout().size,
    {
        self.read_raw(row, self.len)
    }

    /// Moves the last element into row `row` and shrinks the array by one,
    /// without handing the removed element back.
    fn swap_remove_no_drop(&mut self, row: usize)
        requires
            old(self).wf(),
            row < old(self)@.len(),
        ensures
            final(self).wf(),
            final(self)@ == swap_removed(old(self)@, row as int),
            final(self).spec_layout() == old(self).spec_layout(),
            final(self).spec_cap() == old(self).spec_cap(),
            final(self).spec_needs_drop() == old(self).spec_needs_drop(),
    {
        let size = self.elem_layout.size;
        let last = self.len - 1;
        if size > 0 && last != row {
            proof {
                lemma_elem_bounds(size as nat, row as nat, self.cap as nat);
                lemma_elem_bounds(size as nat, last as nat, self.cap as nat);
                if row < last {
                    lemma_elems_apart(size as nat, row as nat, last as nat);
                } else {
                    lemma_elems_apart(size as nat, last as nat, row as nat);
                }
            }
            copy_bytes(&mut self.data, last * size, row * size, size);
            proof {
                lemma_rows_fit(size as nat, self.len as nat, self.cap as nat);
                lemma_other_elems_kept(old(self).data@, self.data@, size as nat, row as nat, self.len as nat);
                assert(elem_bytes(self.data@, size as nat, row as nat) =~= elem_bytes(
                    old(self).data@,
                    size as nat,
                    last as nat,
                ));
            }
        }
        self.len = last;
        proof {
            let expected = swap_removed(old(self)@, row as int);
            assert forall|i: int| 0 <= i < last implies #[trigger] self@[i] == expected[i] by {
                if size == 0 {
                    assert(self.data@.len() == 0);
                    assert((i as nat) * 0 == 0) by (nonlinear_arith);
                    assert(self@[i].len() == 0);
                    assert((last as nat) * 0 == 0) by (nonlinear_arith);
                    assert(old(self).data@.len() == 0);
                    assert(old(self)@[last as int].len() == 0);
                    assert(old(self)@[i].len() == 0);
                    assert(self@[i] =~= expected[i]);
                } else if i != row {
                    assert(self@[i] == old(self)@[i]);
                } else {
                    assert(self@[i] == old(self)@[last as int]);
                }
            }
        }
    }

    /// Removes element `row`, moving the last element into its place. The
    /// removed element is returned to be destroyed when the elements need
    /// dropping, and `None` is returned otherwise. A reference to the old
    /// last row must be updated to `row`.
    pub fn swap_remove(&mut self, row: usize) -> (r: Option<Vec<u8>>)
        requires
            old(self).wf(),
            row < old(self)@.len(),
        ensures
            final(self).wf(),
            final(self)@ == swap_removed(old(self)@, row as int),
            r.is_some() == old(self).spec_needs_drop(),
            r.is_some() ==> r.unwrap()@ == old(self)@[row as int],
            final(self).spec_layout() == old(self).spec_layout(),
            final(self).spec_cap() == old(self).spec_cap(),
            final(self).spec_needs_drop() == old(self).spec_needs_drop(),
    {
        let removed = if self.needs_drop {
            Some(self.read(row))
        } else {
            None
        };
        self.swap_remove_no_drop(row);
        removed
    }

    /// Moves element `row` of `self` to a new last row of `other`, without
    /// destroying it, and fills its place in `self` with the last element.
    pub fn transfer_elem(&mut self, other: &mut Self, row: usize)
        requires
            old(self).wf(),
            old(other).wf(),
            old(self).spec_layout() == old(other).spec_layout(),
            row < old(self)@.len(),
            old(other).can_reserve(1),
        ensures
            final(self).wf(),
            final(other).wf(),
            final(other)@ == old(other)@.push(old(self)@[row as int]),
            final(self)@ == swap_removed(old(self)@, row as int),
            final(self).spec_layout() == old(self).spec_layout(),
            final(other).spec_layout() == old(other).spec_layout(),
            final(self).spec_needs_drop() == old(self).spec_needs_drop(),
            final(other).spec_needs_drop() == old(other).spec_needs_drop(),
    {
        let bytes = self.read(row);
        let dst = other.push();
        other.write(dst, &bytes);
        proof {
            assert(other@ =~= old(other)@.push(old(self)@[row as int]));
        }
        self.swap_remove_no_drop(row);
    }

    /// Empties the array. When the elements need dropping, they are all
    /// returned in row order to be destroyed; otherwise nothing is returned.
    /// The length is zero before any element is handed out.
    pub fn clear(&mut self) -> (r: Vec<Vec<u8>>)
        requires
            old(self).wf(),
        ensures
            final(self).wf(),
            final(self)@ == Seq::<Seq<u8>>::empty(),
            r@.map_values(|e: Vec<u8>| e@) == if old(self).spec_needs_drop() {
                old(self)@
            } else {
                Seq::<Seq<u8>>::empty()
            },
            final(self).spec_layout() == old(self).spec_layout(),
            final(self).spec_cap() == old(self).spec_cap(),
            final(self).spec_needs_drop() == old(self).spec_needs_drop(),
    {
        let len = self.len;
        self.len = 0;
        let mut r: Vec<Vec<u8>> = Vec::new();
        if self.needs_drop {
            let ghost elems = old(self)@;
            let mut i: usize = 0;
            while i < len
                invariant
                    self.wf(),
                    self.len == 0,
                    self.data == old(self).data,
                    self.elem_layout == old(self).elem_layout,
                    self.cap == old(self).cap,
                    len == old(self).len,
                    len <= self.cap,
                    i <= len,
                    elems == old(self)@,
                    r@.map_values(|e: Vec<u8>| e@) == elems.take(i as int),
                decreases len - i,
            {
                let ghost before = r@;
                let e = self.read_raw(i, len);
                r.push(e);
                proof {
                    assert(r@.map_values(|e: Vec<u8>| e@) =~= before.map_values(|e: Vec<u8>| e@).push(e@));
                    assert(elems.take(i + 1) =~= elems.take(i as int).push(elems[i as int]));
                }
                i += 1;
            }
            proof {
                assert(elems.take(len as int) =~= elems);
            }
        } else {
            assert(r@.map_values(|e: Vec<u8>| e@) =~= Seq::<Seq<u8>>::empty());
        }
        assert(self@ =~= Seq::<Seq<u8>>::empty());
        r
    }

    /// A copy of the bytes at row `row` of the buffer, below `bound` rows.
    fn read_raw(&self, row: usize, bound: usize) -> (r: Vec<u8>)
        requires
            self.wf(),
            row < bound <= self.cap,
        ensures
            r@ == elem_bytes(self.data@, self.elem_layout.size as nat, row as nat),
            r@.len() == self.elem_layout.size,
    {
        let size = self.elem_layout.size;
        let mut r: Vec<u8> = Vec::new();
        if size == 0 {
            assert((row as nat) * 0 == 0) by (nonlinear_arith);
            assert(r@ =~= elem_bytes(self.data@, 0, row as nat));
            return r;
        }
        proof {
            lemma_elem_bounds(size as nat, row as nat, self.cap as nat);
        }
        let base = row * size;
        let mut k: usize = 0;
        while k < size
            invariant
                self.wf(),
                size == self.elem_layout.size,
                base == row * size,
                base + size <= self.data@.len(),
                k <= size,
                r@ == self.data@.subrange(base as int, base + k),
            decreases size - k,
        {
            r.push(self.data[base + k]);
            proof {
                assert(r@ =~= self.data@.subrange(base as int, base + k + 1));
            }
            k += 1;
        }
        r
    }

}

} // verus!
