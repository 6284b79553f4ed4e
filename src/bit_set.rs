//! A set of small integers packed into 64-bit words, growing to fit its
//! largest element.
use vstd::prelude::*;

verus! {

/// Whether bit `k` of `w` is set.
pub open spec fn bit(w: u64, k: u64) -> bool {
    (w >> k) & 1u64 == 1u64
}

proof fn lemma_bit_set(w: u64, k: u64, j: u64)
    requires
        k < 64,
        j < 64,
    ensures
        bit(w | (1u64 << k), j) == (j == k || bit(w, j)),
{
    assert(((w | (1u64 << k)) >> j) & 1u64 == 1u64 <==> (j == k || (w >> j) & 1u64 == 1u64))
        by (bit_vector)
        requires
            k < 64,
            j < 64,
    ;
}

proof fn lemma_bit_clear(w: u64, k: u64, j: u64)
    requires
        k < 64,
        j < 64,
    ensures
        bit(w & !(1u64 << k), j) == (j != k && bit(w, j)),
{
    assert(((w & !(1u64 << k)) >> j) & 1u64 == 1u64 <==> (j != k && (w >> j) & 1u64 == 1u64))
        by (bit_vector)
        requires
            k < 64,
            j < 64,
    ;
}

proof fn lemma_bit_or(a: u64, b: u64, j: u64)
    requires
        j < 64,
    ensures
        bit(a | b, j) == (bit(a, j) || bit(b, j)),
{
    assert(((a | b) >> j) & 1u64 == 1u64 <==> ((a >> j) & 1u64 == 1u64 || (b >> j) & 1u64 == 1u64))
        by (bit_vector)
        requires
            j < 64,
    ;
}

proof fn lemma_bit_and_zero(a: u64, b: u64, j: u64)
    requires
        j < 64,
        a & b == 0,
    ensures
        !(bit(a, j) && bit(b, j)),
{
    assert(!((a >> j) & 1u64 == 1u64 && (b >> j) & 1u64 == 1u64)) by (bit_vector)
        requires
            j < 64,
            a & b == 0,
    ;
}

proof fn lemma_bit_zero(j: u64)
    requires
        j < 64,
    ensures
        !bit(0, j),
{
    assert(!((0u64 >> j) & 1u64 == 1u64)) by (bit_vector)
        requires
            j < 64,
    ;
}

/// Index `i` sits in word `i / 64` at bit `i % 64`, and that place is
/// unique to it.
proof fn lemma_place(i: nat, w: nat, k: nat)
    requires
        k < 64,
    ensures
        (i / 64 == w && i % 64 == k) <==> i == w * 64 + k,
{
    vstd::arithmetic::div_mod::lemma_fundamental_div_mod(i as int, 64);
    if i == w * 64 + k {
        vstd::arithmetic::div_mod::lemma_fundamental_div_mod_converse(i as int, 64, w as int, k as int);
    }
}

/// Strictly increasing.
pub open spec fn is_ascending(q: Seq<nat>) -> bool {
    forall|a: int, b: int| 0 <= a < b < q.len() ==> q[a] < q[b]
}

/// The members of a finite set, in ascending order.
pub open spec fn ascending(s: Set<nat>) -> Seq<nat> {
    choose|q: Seq<nat>| is_ascending(q) && q.to_set() == s
}

/// Two ascending sequences with the same members are equal.
pub proof fn lemma_ascending_unique(p: Seq<nat>, q: Seq<nat>)
    requires
        is_ascending(p),
        is_ascending(q),
        p.to_set() == q.to_set(),
    ensures
        p == q,
    decreases p.len(),
{
    if p.len() == 0 {
        if q.len() > 0 {
            assert(q.to_set().contains(q[0]));
        }
        assert(p =~= q);
    } else {
        assert(p.to_set().contains(p[0]));
        assert(q.len() > 0);
        assert(q.to_set().contains(q[0]));
        let j = choose|j: int| 0 <= j < q.len() && q[j] == p[0];
        let k = choose|k: int| 0 <= k < p.len() && p[k] == q[0];
        if j > 0 {
            assert(q[0] < q[j]);
        }
        if k > 0 {
            assert(p[0] < p[k]);
        }
        assert(p[0] == q[0]);
        let p_rest = p.drop_first();
        let q_rest = q.drop_first();
        assert forall|x: nat| p_rest.to_set().contains(x) == q_rest.to_set().contains(x) by {
            if p_rest.to_set().contains(x) {
                let a = choose|a: int| 0 <= a < p_rest.len() && p_rest[a] == x;
                assert(p[a + 1] == x && p[0] < x);
                assert(q.to_set().contains(x));
                let b = choose|b: int| 0 <= b < q.len() && q[b] == x;
                assert(b != 0);
                assert(q_rest[b - 1] == x);
            }
            if q_rest.to_set().contains(x) {
                let a = choose|a: int| 0 <= a < q_rest.len() && q_rest[a] == x;
                assert(q[a + 1] == x && q[0] < x);
                assert(p.to_set().contains(x));
                let b = choose|b: int| 0 <= b < p.len() && p[b] == x;
                assert(b != 0);
                assert(p_rest[b - 1] == x);
            }
        }
        assert(p_rest.to_set() =~= q_rest.to_set());
        lemma_ascending_unique(p_rest, q_rest);
        assert(p.len() == q.len());
        assert forall|i: int| 0 <= i < p.len() implies p[i] == q[i] by {
            if i > 0 {
                assert(p[i] == p_rest[i - 1] && q[i] == q_rest[i - 1]);
            }
        }
        assert(p =~= q);
    }
}

/// The number of words that can hold a `usize` member, out of `len`.
pub open spec fn scan_words(len: nat) -> nat {
    if len <= usize::MAX / 64 {
        len
    } else {
        (usize::MAX / 64 + 1) as nat
    }
}

/// A member's word is among the scanned ones, and each scanned place
/// names an index that fits in `usize`.
proof fn lemma_scan_bounds(len: nat, i: nat, w: nat, k: nat)
    ensures
        i <= usize::MAX && i / 64 < len ==> i / 64 < scan_words(len),
        w < scan_words(len) && k < 64 ==> w * 64 + k <= usize::MAX,
{
    vstd::arithmetic::div_mod::lemma_fundamental_div_mod(i as int, 64);
    vstd::arithmetic::div_mod::lemma_fundamental_div_mod(usize::MAX as int, 64);
    assert(usize::MAX % 64 == 63);
    if i <= usize::MAX {
        assert(i / 64 <= usize::MAX / 64) by (nonlinear_arith)
            requires
                i <= usize::MAX,
        ;
    }
    if w < scan_words(len) && k < 64 {
        assert(w * 64 + k <= usize::MAX) by (nonlinear_arith)
            requires
                w <= usize::MAX / 64,
                k < 64,
                usize::MAX % 64 == 63,
        ;
    }
}

/// A set of `usize` values, one bit per possible member, in 64-bit words.
/// The words grow, doubling, to fit the largest inserted value and never
/// shrink.
pub struct BitSet {
    words: Vec<u64>,
}

impl View for BitSet {
    type V = Set<nat>;

    closed spec fn view(&self) -> Set<nat> {
        Set::new(
            |i: nat|
                i <= usize::MAX && i / 64 < self.words@.len() && bit(
                    self.words@[(i / 64) as int],
                    (i % 64) as u64,
                ),
        )
    }
}

impl Clone for BitSet {
    fn clone(&self) -> (r: Self)
        ensures
            r@ == self@,
    {
        BitSet { words: self.words.clone() }
    }
}

impl BitSet {
    pub fn new() -> (r: Self)
        ensures
            r@ == Set::<nat>::empty(),
    {
        let r = BitSet { words: Vec::new() };
        assert(r@ =~= Set::<nat>::empty());
        r
    }

    pub fn contains(&self, idx: usize) -> (r: bool)
        ensures
            r == self@.contains(idx as nat),
    {
        let w = idx / 64;
        w < self.words.len() && (self.words[w] >> ((idx % 64) as u64)) & 1u64 == 1u64
    }

    /// Makes room for at least `n` words, doubling the word count when it
    /// grows, without changing the members.
    fn grow(&mut self, n: usize)
        ensures
            final(self)@ == old(self)@,
            final(self).words@.len() >= n,
            final(self).words@.len() >= old(self).words@.len(),
            forall|j: int| 0 <= j < old(self).words@.len() ==> final(self).words@[j] == old(self).words@[j],
    {
        let len = self.words.len();
        if len >= n {
            return;
        }
        let doubled = if len <= usize::MAX / 2 { 2 * len } else { len };
        let target = if doubled > n { doubled } else { n };
        while self.words.len() < target
            invariant
                self.words@.len() <= target,
                self.words@.len() >= len,
                target >= n,
                forall|j: int| 0 <= j < len ==> self.words@[j] == old(self).words@[j],
                forall|j: int| len <= j < self.words@.len() ==> self.words@[j] == 0,
            decreases target - self.words@.len(),
        {
            self.words.push(0u64);
        }
        proof {
            assert forall|i: nat| self@.contains(i) == old(self)@.contains(i) by {
                if i / 64 < self.words@.len() && i / 64 >= len {
                    lemma_bit_zero((i % 64) as u64);
                }
            }
            assert(self@ =~= old(self)@);
        }
    }

    /// Adds `idx`; returns whether it was absent before.
    pub fn insert(&mut self, idx: usize) -> (r: bool)
        ensures
            final(self)@ == old(self)@.insert(idx as nat),
            r == !old(self)@.contains(idx as nat),
    {
        let was = self.contains(idx);
        let w = idx / 64;
        let k = (idx % 64) as u64;
        self.grow(w + 1);
        let ghost mid = self.words@;
        let word = self.words[w];
        self.words.set(w, word | (1u64 << k));
        proof {
            assert forall|i: nat| #[trigger] self@.contains(i) == old(self)@.insert(idx as nat).contains(i) by {
                lemma_place(i, w as nat, k as nat);
                lemma_place(idx as nat, w as nat, k as nat);
                if i / 64 == w {
                    lemma_bit_set(word, k, (i % 64) as u64);
                }
            }
            assert(self@ =~= old(self)@.insert(idx as nat));
        }
        !was
    }

    /// Removes `idx`; returns whether it was present before.
    pub fn remove(&mut self, idx: usize) -> (r: bool)
        ensures
            final(self)@ == old(self)@.remove(idx as nat),
            r == old(self)@.contains(idx as nat),
    {
        let was = self.contains(idx);
        let w = idx / 64;
        let k = (idx % 64) as u64;
        if w < self.words.len() {
            let word = self.words[w];
            self.words.set(w, word & !(1u64 << k));
            proof {
                assert forall|i: nat| #[trigger] self@.contains(i) == old(self)@.remove(idx as nat).contains(i) by {
                    lemma_place(i, w as nat, k as nat);
                    lemma_place(idx as nat, w as nat, k as nat);
                    if i / 64 == w {
                        lemma_bit_clear(word, k, (i % 64) as u64);
                    }
                }
            }
        }
        assert(self@ =~= old(self)@.remove(idx as nat));
        was
    }

    pub fn is_empty(&self) -> (r: bool)
        ensures
            r == (self@ == Set::<nat>::empty()),
    {
        let last = if self.words.len() <= usize::MAX / 64 {
            self.words.len()
        } else {
            usize::MAX / 64 + 1
        };
        let mut w: usize = 0;
        while w < last
            invariant
                last == scan_words(self.words@.len() as nat),
                last <= self.words@.len(),
                w <= last,
                forall|i: nat| i / 64 < w ==> !#[trigger] self@.contains(i),
            decreases last - w,
        {
            let word = self.words[w];
            let mut k: u64 = 0;
            while k < 64
                invariant
                    last == scan_words(self.words@.len() as nat),
                    w < last <= self.words@.len(),
                    word == self.words@[w as int],
                    k <= 64,
                    forall|i: nat| i / 64 < w ==> !#[trigger] self@.contains(i),
                    forall|j: u64| j < k ==> !bit(word, j),
                decreases 64 - k,
            {
                if (word >> k) & 1u64 == 1u64 {
                    proof {
                        lemma_scan_bounds(self.words@.len() as nat, 0, w as nat, k as nat);
                        lemma_place((w * 64 + k) as nat, w as nat, k as nat);
                        assert(self@.contains((w * 64 + k) as nat));
                    }
                    return false;
                }
                k += 1;
            }
            proof {
                assert forall|i: nat| i / 64 < w + 1 implies !#[trigger] self@.contains(i) by {
                    if i / 64 == w {
                        assert(((i % 64) as u64) < 64);
                    }
                }
            }
            w += 1;
        }
        proof {
            assert forall|i: nat| !#[trigger] self@.contains(i) by {
                lemma_scan_bounds(self.words@.len() as nat, i, 0, 0);
            }
        }
        assert(self@ =~= Set::<nat>::empty());
        true
    }

    /// Adds every member of `other` to `self`, growing as needed.
    pub fn union_with(&mut self, other: &BitSet)
        ensures
            final(self)@ == old(self)@.union(other@),
    {
        let n = other.words.len();
        self.grow(n);
        let ghost mid = self.words@;
        let mut w: usize = 0;
        while w < n
            invariant
                n == other.words@.len(),
                w <= n <= self.words@.len(),
                self.words@.len() == mid.len(),
                forall|j: int| 0 <= j < w ==> #[trigger] self.words@[j] == mid[j] | other.words@[j],
                forall|j: int| w <= j < mid.len() ==> #[trigger] self.words@[j] == mid[j],
            decreases n - w,
        {
            let word = self.words[w] | other.words[w];
            self.words.set(w, word);
            w += 1;
        }
        proof {
            assert forall|i: nat| #[trigger] self@.contains(i) == old(self)@.union(other@).contains(i) by {
                let q = (i / 64) as int;
                if q < mid.len() {
                    assert(old(self)@.contains(i) == (i <= usize::MAX && q < old(self).words@.len() && bit(mid[q], (i % 64) as u64)));
                    if q < n {
                        lemma_bit_or(mid[q], other.words@[q], (i % 64) as u64);
                    }
                }
            }
            assert(self@ =~= old(self)@.union(other@));
        }
    }

    /// Whether no value belongs to both sets.
    pub fn is_disjoint(&self, other: &BitSet) -> (r: bool)
        ensures
            r == self@.disjoint(other@),
    {
        let shorter = if self.words.len() < other.words.len() {
            self.words.len()
        } else {
            other.words.len()
        };
        let n = if shorter <= usize::MAX / 64 {
            shorter
        } else {
            usize::MAX / 64 + 1
        };
        let ghost sl = shorter as nat;
        let mut w: usize = 0;
        while w < n
            invariant
                n == scan_words(sl),
                w <= n,
                n <= self.words@.len(),
                n <= other.words@.len(),
                forall|i: nat| i / 64 < w ==> !(#[trigger] self@.contains(i) && other@.contains(i)),
            decreases n - w,
        {
            let a = self.words[w];
            let b = other.words[w];
            if a & b != 0 {
                let mut k: u64 = 0;
                while k < 64
                    invariant
                        n == scan_words(sl),
                        w < n,
                        n <= self.words@.len(),
                        n <= other.words@.len(),
                        a == self.words@[w as int],
                        b == other.words@[w as int],
                        k <= 64,
                        forall|j: u64| j < k ==> !(bit(a, j) && bit(b, j)),
                    decreases 64 - k,
                {
                    if (a >> k) & 1u64 == 1u64 && (b >> k) & 1u64 == 1u64 {
                        proof {
                            lemma_scan_bounds(sl, 0, w as nat, k as nat);
                            lemma_place((w * 64 + k) as nat, w as nat, k as nat);
                            assert(self@.contains((w * 64 + k) as nat));
                            assert(other@.contains((w * 64 + k) as nat));
                        }
                        return false;
                    }
                    k += 1;
                }
                proof {
                    assert forall|i: nat| i / 64 < w + 1 implies !(#[trigger] self@.contains(i)
                        && other@.contains(i)) by {
                        if i / 64 == w {
                            assert(((i % 64) as u64) < 64);
                        }
                    }
                }
            } else {
                proof {
                    assert forall|i: nat| i / 64 < w + 1 implies !(#[trigger] self@.contains(i)
                        && other@.contains(i)) by {
                        if i / 64 == w {
                            lemma_bit_and_zero(a, b, (i % 64) as u64);
                        }
                    }
                }
            }
            w += 1;
        }
        assert forall|i: nat| !(#[trigger] self@.contains(i) && other@.contains(i)) by {
            lemma_scan_bounds(sl, i, 0, 0);
            if i / 64 >= w {
                assert(!(i <= usize::MAX && i / 64 < self.words@.len() && i / 64 < other.words@.len()));
            }
        }
        true
    }

    /// The members in ascending order.
    pub fn to_vec(&self) -> (r: Vec<usize>)
        ensures
            forall|k: int| 0 <= k < r@.len() ==> self@.contains(r@[k] as nat),
            forall|i: nat| self@.contains(i) ==> i <= usize::MAX && r@.contains(i as usize),
            forall|a: int, b: int| 0 <= a < b < r@.len() ==> r@[a] < r@[b],
            r@.map_values(|x: usize| x as nat) == ascending(self@),
    {
        proof {
            assert(usize::MAX % 64 == 63);
        }
        let last = if self.words.len() <= usize::MAX / 64 {
            self.words.len()
        } else {
            usize::MAX / 64 + 1
        };
        let mut r: Vec<usize> = Vec::new();
        let mut w: usize = 0;
        while w < last
            invariant
                last <= self.words@.len(),
                last <= usize::MAX / 64 + 1,
                w <= last,
                usize::MAX % 64 == 63,
                forall|k: int| 0 <= k < r@.len() ==> self@.contains(r@[k] as nat) && r@[k] / 64 < w,
                forall|i: nat| i / 64 < w && self@.contains(i) ==> r@.contains(i as usize),
                forall|a: int, b: int| 0 <= a < b < r@.len() ==> r@[a] < r@[b],
            decreases last - w,
        {
            let word = self.words[w];
            let mut k: usize = 0;
            while k < 64
                invariant
                    last <= self.words@.len(),
                    last <= usize::MAX / 64 + 1,
                    w < last,
                    usize::MAX % 64 == 63,
                    word == self.words@[w as int],
                    k <= 64,
                    forall|q: int| 0 <= q < r@.len() ==> self@.contains(r@[q] as nat) && (r@[q] / 64 < w
                        || (r@[q] / 64 == w && r@[q] % 64 < k)),
                    forall|i: nat|
                        (i / 64 < w || (i / 64 == w && i % 64 < k)) && self@.contains(i) ==> r@.contains(
                            i as usize,
                        ),
                    forall|a: int, b: int| 0 <= a < b < r@.len() ==> r@[a] < r@[b],
                decreases 64 - k,
            {
                if (word >> (k as u64)) & 1u64 == 1u64 {
                    assert(w * 64 + k <= usize::MAX) by (nonlinear_arith)
                        requires
                            w <= usize::MAX / 64,
                            k < 64,
                            usize::MAX % 64 == 63,
                    ;
                    let i = w * 64 + k;
                    proof {
                        lemma_place(i as nat, w as nat, k as nat);
                        assert(self@.contains(i as nat));
                        assert forall|q: int| 0 <= q < r@.len() implies r@[q] < i by {
                            lemma_place(r@[q] as nat, (r@[q] / 64) as nat, (r@[q] % 64) as nat);
                        }
                        assert forall|j: nat|
                            (j / 64 < w || (j / 64 == w && j % 64 < k + 1)) && self@.contains(j)
                            implies r@.push(i).contains(j as usize) by {
                            if j / 64 == w && j % 64 == k {
                                lemma_place(j, w as nat, k as nat);
                                assert(r@.push(i)[r@.len() as int] == i);
                            } else {
                                let q = choose|q: int| 0 <= q < r@.len() && r@[q] == j as usize;
                                assert(r@.push(i)[q] == j as usize);
                            }
                        }
                    }
                    r.push(i);
                }
                k += 1;
            }
            w += 1;
        }
        proof {
            assert forall|i: nat| self@.contains(i) implies r@.contains(i as usize) by {
                vstd::arithmetic::div_mod::lemma_fundamental_div_mod(i as int, 64);
                vstd::arithmetic::div_mod::lemma_fundamental_div_mod(usize::MAX as int, 64);
                assert(i / 64 <= usize::MAX / 64) by (nonlinear_arith)
                    requires
                        i <= usize::MAX,
                ;
            }
            let q = r@.map_values(|x: usize| x as nat);
            assert forall|x: nat| q.to_set().contains(x) == self@.contains(x) by {
                if q.to_set().contains(x) {
                    let a = choose|a: int| 0 <= a < q.len() && q[a] == x;
                    assert(self@.contains(r@[a] as nat));
                }
                if self@.contains(x) {
                    let a = choose|a: int| 0 <= a < r@.len() && r@[a] == x as usize;
                    assert(q[a] == x);
                }
            }
            assert(q.to_set() =~= self@);
            assert(is_ascending(q));
            let p = ascending(self@);
            assert(is_ascending(p) && p.to_set() == self@);
            lemma_ascending_unique(p, q);
        }
        r
    }

    /// Whether every member of `self` belongs to `other`.
    pub fn is_subset_of(&self, other: &BitSet) -> (r: bool)
        ensures
            r == self@.subset_of(other@),
    {
        let vs = self.to_vec();
        let mut q: usize = 0;
        while q < vs.len()
            invariant
                q <= vs@.len(),
                forall|j: int| 0 <= j < vs@.len() ==> self@.contains(#[trigger] vs@[j] as nat),
                forall|j: int| 0 <= j < q ==> other@.contains(#[trigger] vs@[j] as nat),
            decreases vs@.len() - q,
        {
            if !other.contains(vs[q]) {
                assert(self@.contains(vs@[q as int] as nat));
                return false;
            }
            q += 1;
        }
        assert forall|i: nat| self@.contains(i) implies other@.contains(i) by {
            let j = choose|j: int| 0 <= j < vs@.len() && vs@[j] == i as usize;
            assert(other@.contains(vs@[j] as nat));
        }
        true
    }

}

} // verus!
