use vstd::prelude::*;
use crate::model::{
    added, assigned, at, covered, covers, lemma_add_span, lemma_at_witness, lemma_splice, lemma_split_at,
    lemma_pick_skip, lemma_straddle_unique, lemma_weighted_skip, lemma_weighted_tail, nth_of, pick,
    pow_sum_of, reaches, split_at, straddles, weighted, well_formed, Run,
};
use crate::arith::{lemma_square_step, lemma_sum_step};
use vstd::arithmetic::power::pow;
use crate::node::ChthollyNode;

verus! {

/// A Chtholly tree: runs of equal values over an integer index space, kept
/// sorted by position and never overlapping.
pub struct ChthollyTree(Vec<ChthollyNode>);

impl View for ChthollyTree {
    type V = Seq<Run>;

    closed spec fn view(&self) -> Seq<Run> {
        self.0@.map_values(|n: ChthollyNode| n@)
    }
}

impl ChthollyTree {
    /// The tree's runs satisfy its invariant.
    pub open spec fn wf(&self) -> bool {
        well_formed(self@)
    }

    /// Builds a tree from a slice: one node `[i, i]` per element.
    pub fn from_slice(data: &[usize]) -> (r: Self)
        ensures
            r.wf(),
            r@.len() == data@.len(),
            forall|i: int|
                0 <= i < data@.len() ==> #[trigger] r@[i] == (Run { left: i as nat, right: i as nat, value: data@[i] as nat }),
            forall|x: int| #[trigger] at(r@, x) == if 0 <= x < data@.len() { Some(data@[x] as nat) } else { None },
            covers(r@, data@.len()),
    {
        let mut nodes: Vec<ChthollyNode> = Vec::new();
        let mut i: usize = 0;
        while i < data.len()
            invariant
                i <= data@.len(),
                nodes@.len() == i,
                forall|j: int|
                    0 <= j < i ==> #[trigger] nodes@[j]@ == (Run { left: j as nat, right: j as nat, value: data@[j] as nat }),
            decreases data@.len() - i,
        {
            nodes.push(ChthollyNode::new(i, i, data[i]));
            i = i + 1;
        }
        let r = ChthollyTree(nodes);
        assert forall|j: int| 0 <= j < r@.len() implies #[trigger] r@[j] == nodes@[j]@ by {}
        assert forall|x: int| #[trigger] at(r@, x) == if 0 <= x < data@.len() { Some(data@[x] as nat) } else { None } by {
            if 0 <= x < data@.len() {
                lemma_at_witness(r@, x, x);
            } else if covered(r@, x) {
                let j = choose|j: int| 0 <= j < r@.len() && #[trigger] r@[j].has(x);
                assert(r@[j] == nodes@[j]@);
            }
        }
        assert forall|x: int| #[trigger] covered(r@, x) <==> 0 <= x < data@.len() by {
            if 0 <= x < data@.len() {
                lemma_at_witness(r@, x, x);
            }
            assert(at(r@, x) is Some <==> covered(r@, x));
        }
        r
    }

    /// The nodes of the tree, in order.
    pub fn nodes(&self) -> (r: &[ChthollyNode])
        ensures
            r@.len() == self@.len(),
            forall|i: int| 0 <= i < r@.len() ==> #[trigger] r@[i]@ == self@[i],
    {
        self.0.as_slice()
    }

    /// Position of the last run that starts at or before `x`.
    fn locate(&self, x: usize) -> (r: Option<usize>)
        requires
            self.wf(),
        ensures
            r is None <==> !reaches(self@, x as int),
            r matches Some(k) ==> {
                &&& k < self@.len()
                &&& self@[k as int].left <= x
                &&& (k + 1 < self@.len() ==> self@[k + 1].left > x)
            },
    {
        let n = self.0.len();
        if n == 0 || self.0[0].left() > x {
            return None;
        }
        let mut lo: usize = 0;
        let mut hi: usize = n;
        while lo + 1 < hi
            invariant
                self.wf(),
                n == self@.len(),
                lo < hi <= n,
                self@[lo as int].left <= x,
                hi < n ==> self@[hi as int].left > x,
            decreases hi - lo,
        {
            let mid = lo + (hi - lo) / 2;
            if self.0[mid].left() <= x {
                lo = mid;
            } else {
                hi = mid;
            }
        }
        if lo + 1 < n {
            assert(self@[lo + 1].left > x);
        }
        Some(lo)
    }

    /// Cuts the run that holds `middle` (if it does not start there) into
    /// `[left, middle - 1]` and `[middle, right]`; returns the position of
    /// the run that now starts at `middle`, if any run holds `middle`.
    fn split_inner(&mut self, middle: usize) -> (r: Option<usize>)
        requires
            old(self).wf(),
        ensures
            final(self).wf(),
            final(self)@ == split_at(old(self)@, middle as nat),
            r is None <==> !covered(old(self)@, middle as int),
            r matches Some(k) ==> k < final(self)@.len() && final(self)@[k as int].left == middle,
    {
        proof {
            lemma_split_at(self@, middle as nat);
        }
        let k = match self.locate(middle) {
            Some(k) => k,
            None => {
                assert(!straddles(self@, middle as int));
                assert(!covered(self@, middle as int)) by {
                    if covered(self@, middle as int) {
                        let j = choose|j: int| 0 <= j < self@.len() && #[trigger] self@[j].has(middle as int);
                        assert(self@[0].left <= self@[j].left);
                    }
                }
                return None;
            },
        };
        let node = self.0[k];
        assert(node@ == self@[k as int]);
        if node.left() == middle {
            assert(self@[k as int].has(middle as int));
            assert(!straddles(self@, middle as int)) by {
                if straddles(self@, middle as int) {
                    let j = choose|j: int| 0 <= j < self@.len() && #[trigger] self@[j].left < middle && middle <= self@[j].right;
                    if j < k {
                        assert(self@[j].right < self@[k as int].left);
                    } else if j > k {
                        assert(self@[k as int].right < self@[j].left);
                    }
                }
            }
            return Some(k);
        }
        if node.right() < middle {
            assert(!covered(self@, middle as int) && !straddles(self@, middle as int)) by {
                if covered(self@, middle as int) {
                    let j = choose|j: int| 0 <= j < self@.len() && #[trigger] self@[j].has(middle as int);
                    if j < k {
                        assert(self@[j].right < self@[k as int].left);
                    } else if j > k {
                        assert(self@[j].left > middle);
                    }
                }
                if straddles(self@, middle as int) {
                    let j = choose|j: int| 0 <= j < self@.len() && #[trigger] self@[j].left < middle && middle <= self@[j].right;
                    if j < k {
                        assert(self@[j].right < self@[k as int].left);
                    } else if j > k {
                        assert(self@[j].left > middle);
                    }
                }
            }
            return None;
        }
        proof {
            lemma_straddle_unique(self@, k as int, middle as int);
            assert(self@[k as int].has(middle as int));
        }
        let ghost s = self@;
        let upper = ChthollyNode::new(middle, node.right(), node.value());
        let lower = ChthollyNode::new(node.left(), middle - 1, node.value());
        self.0.set(k, lower);
        assert(k < self.0.len());
        self.0.insert(k + 1, upper);
        assert(self@ =~= split_at(s, middle as nat));
        Some(k + 1)
    }

    /// Splits the range between `[left, middle - 1]` and `[middle, right]`.
    /// Returns the node representing `[middle, right]`, if a node holds
    /// `middle`.
    pub fn split(&mut self, middle: usize) -> (r: Option<&ChthollyNode>)
        requires
            old(self).wf(),
        ensures
            final(self).wf(),
            final(self)@ == split_at(old(self)@, middle as nat),
            r is None <==> !covered(old(self)@, middle as int),
            r matches Some(n) ==> exists|k: int|
                0 <= k < final(self)@.len() && final(self)@[k] == n@ && n@.left == middle,
    {
        match self.split_inner(middle) {
            Some(index) => {
                let n = &self.0[index];
                assert(self@[index as int] == n@);
                Some(n)
            },
            None => None,
        }
    }
    /// Position of the first run that starts at or after the boundary `x`.
    fn first_from(&self, x: usize) -> (p: usize)
        requires
            self.wf(),
            !straddles(self@, x as int),
        ensures
            p <= self@.len(),
            forall|j: int| 0 <= j < p ==> #[trigger] self@[j].right < x,
            forall|j: int| p <= j < self@.len() ==> #[trigger] self@[j].left >= x,
    {
        match self.locate(x) {
            None => {
                assert forall|j: int| 0 <= j < self@.len() implies #[trigger] self@[j].left >= x by {
                    if j > 0 {
                        assert(self@[0].right < self@[j].left);
                    }
                }
                0
            },
            Some(k) => {
                let node = &self.0[k];
                assert(node@ == self@[k as int]);
                assert forall|j: int| 0 <= j < k implies #[trigger] self@[j].right < self@[k as int].left by {}
                assert forall|j: int| k < j < self@.len() implies #[trigger] self@[j].left >= self@[k + 1].left by {
                    if j > k + 1 {
                        assert(self@[k + 1].right < self@[j].left);
                    }
                }
                if node.left() == x {
                    k
                } else {
                    assert(!(self@[k as int].left < x && x <= self@[k as int].right));
                    assert(k < self.0.len());
                    k + 1
                }
            },
        }
    }

    /// Cuts the runs so that `left` starts a run and `right + 1` does too.
    fn align(&mut self, left: usize, right: usize) -> (p: usize)
        requires
            old(self).wf(),
        ensures
            final(self).wf(),
            forall|x: int| #[trigger] at(final(self)@, x) == at(old(self)@, x),
            reaches(final(self)@, left as int) == reaches(old(self)@, left as int),
            old(self)@.len() > 0 ==> final(self)@[0].left == old(self)@[0].left,
            p <= final(self)@.len(),
            forall|j: int| 0 <= j < p ==> #[trigger] final(self)@[j].right < left,
            forall|j: int| p <= j < final(self)@.len() ==> #[trigger] final(self)@[j].left >= left,
            forall|j: int|
                0 <= j < final(self)@.len() && final(self)@[j].left <= right ==> #[trigger] final(self)@[j].right <= right,
    {
        let ghost s0 = self@;
        if right < usize::MAX {
            self.split_inner(right + 1);
        }
        let ghost s1 = self@;
        proof {
            lemma_split_at(s0, (right + 1) as nat);
            lemma_split_at(s1, left as nat);
        }
        self.split_inner(left);
        proof {
            if right < usize::MAX {
                assert(!straddles(self@, right + 1));
            }
            assert forall|j: int|
                0 <= j < self@.len() && self@[j].left <= right implies #[trigger] self@[j].right <= right by {
                if self@[j].right > right {
                    assert(self@[j].left < right + 1 && right + 1 <= self@[j].right);
                }
            }
        }
        self.first_from(left)
    }

    /// Sets all values between `[left, right]` to `value`, and merges them
    /// into one node.
    pub fn merge(&mut self, left: usize, right: usize, value: usize)
        requires
            old(self).wf(),
            left <= right,
        ensures
            final(self).wf(),
            forall|x: int| #[trigger] at(final(self)@, x) == assigned(old(self)@, left as int, right as int, value as nat, x),
            exists|k: int|
                0 <= k < final(self)@.len() && final(self)@[k] == (Run { left: left as nat, right: right as nat, value: value as nat })
                && forall|j: int| 0 <= j < final(self)@.len() && j != k ==>
                    #[trigger] final(self)@[j].right < left || final(self)@[j].left > right,
    {
        let p = self.align(left, right);
        let ghost mid = self@;
        let ghost mut q: int = p as int;
        while p < self.0.len() && self.0[p].left() <= right
            invariant
                well_formed(mid),
                p <= q <= mid.len(),
                self@ == mid.take(p as int) + mid.skip(q),
                forall|j: int| p <= j < q ==> left <= #[trigger] mid[j].left && mid[j].left <= right,
                forall|j: int| p <= j < mid.len() ==> #[trigger] mid[j].left >= left,
            decreases self.0.len() - p,
        {
            let ghost before = self@;
            assert(self@[p as int] == self.0@[p as int]@);
            assert(self@[p as int] == mid[q]);
            self.0.remove(p);
            assert(self@ =~= before.remove(p as int));
            proof {
                q = q + 1;
            }
            assert(before.remove(p as int) =~= mid.take(p as int) + mid.skip(q));
        }
        proof {
            assert forall|j: int| q <= j < mid.len() implies #[trigger] mid[j].left > right by {
                if j > q {
                    assert(mid[q].right < mid[j].left);
                }
                assert(mid[q] == self@[p as int]);
            }
            lemma_splice(mid, p as int, q, left as nat, right as nat, value as nat);
        }
        let ghost before = self@;
        self.0.insert(p, ChthollyNode::new(left, right, value));
        assert(self@ =~= before.insert(p as int, Run { left: left as nat, right: right as nat, value: value as nat }));
        assert(self@ =~= mid.take(p as int) + seq![Run { left: left as nat, right: right as nat, value: value as nat }] + mid.skip(q));
    }

    /// Adds `value` to all values between `[left, right]`; does nothing when
    /// no node starts at or before `left`.
    pub fn add(&mut self, left: usize, right: usize, value: usize)
        requires
            old(self).wf(),
            reaches(old(self)@, left as int) ==> forall|x: int|
                left <= x <= right && covered(old(self)@, x) ==> #[trigger] at(old(self)@, x).unwrap() + value <= usize::MAX,
        ensures
            final(self).wf(),
            !reaches(old(self)@, left as int) ==> final(self)@ == old(self)@,
            reaches(old(self)@, left as int) ==> forall|x: int|
                #[trigger] at(final(self)@, x) == added(old(self)@, left as int, right as int, value as nat, x),
    {
        if self.0.len() == 0 || self.0[0].left() > left {
            return;
        }
        let ghost s0 = self@;
        let start = self.align(left, right);
        let ghost mid = self@;
        let mut i: usize = start;
        while i < self.0.len() && self.0[i].left() <= right
            invariant
                well_formed(mid),
                well_formed(s0),
                reaches(s0, left as int),
                forall|x: int| #[trigger] at(mid, x) == at(s0, x),
                forall|x: int|
                    left <= x <= right && covered(s0, x) ==> #[trigger] at(s0, x).unwrap() + value <= usize::MAX,
                start <= i <= mid.len(),
                self@.len() == mid.len(),
                forall|j: int| 0 <= j < start ==> #[trigger] mid[j].right < left,
                forall|j: int| start <= j < mid.len() ==> #[trigger] mid[j].left >= left,
                forall|j: int| 0 <= j < mid.len() && mid[j].left <= right ==> #[trigger] mid[j].right <= right,
                forall|j: int| 0 <= j < mid.len() && !(start <= j < i) ==> #[trigger] self@[j] == mid[j],
                forall|j: int| start <= j < i ==> mid[j].left <= right,
                forall|j: int| start <= j < i ==> #[trigger] mid[j].value + value <= usize::MAX,
                forall|j: int|
                    start <= j < i ==> #[trigger] self@[j] == (Run {
                        left: mid[j].left,
                        right: mid[j].right,
                        value: (mid[j].value + value) as nat,
                    }),
            decreases self.0.len() - i,
        {
            let node = self.0[i];
            assert(self@[i as int] == self.0@[i as int]@);
            assert(node@ == mid[i as int]);
            proof {
                let x = mid[i as int].left as int;
                lemma_at_witness(mid, i as int, x);
                assert(at(s0, x) == Some(mid[i as int].value));
                assert(covered(s0, x));
                assert(at(s0, x).unwrap() == mid[i as int].value);
            }
            let ghost before = self@;
            self.0.set(i, ChthollyNode::new(node.left(), node.right(), node.value() + value));
            assert(self@ =~= before.update(i as int, Run {
                left: mid[i as int].left,
                right: mid[i as int].right,
                value: (mid[i as int].value + value) as nat,
            }));
            i = i + 1;
        }
        proof {
            assert forall|j: int| i <= j < mid.len() implies #[trigger] mid[j].left > right by {
                if j > i {
                    assert(mid[i as int].right < mid[j].left);
                }
                assert(mid[i as int] == self@[i as int]);
            }
            lemma_add_span(mid, self@, start as int, i as int, left as nat, right as nat, value as nat);
        }
    }
    /// Finds the `x`-th (0-indexed) value at an index at or after `left`.
    pub fn nth(&self, left: usize, x: usize) -> (r: Option<usize>)
        requires
            self.wf(),
        ensures
            r is None <==> nth_of(self@, left as int, x as int) is None,
            r matches Some(v) ==> nth_of(self@, left as int, x as int) == Some(v as nat),
    {
        let mut index = match self.locate(left) {
            Some(k) => k,
            None => return None,
        };
        proof {
            lemma_pick_skip(self@, 0, index as int, left as int, x as int);
        }
        let mut rest = x;
        loop
            invariant
                self.wf(),
                reaches(self@, left as int),
                index < self@.len(),
                rest <= x,
                pick(self@, index as int, left as int, rest as int) == pick(self@, 0, left as int, x as int),
            decreases self@.len() - index,
        {
            let node = &self.0[index];
            assert(node@ == self@[index as int]);
            if node.right() >= left {
                let start = if node.left() < left { left } else { node.left() };
                let d = node.right() - start;
                if rest <= d {
                    return Some(node.value());
                }
                rest = rest - d - 1;
            }
            assert(self.0@.len() == self@.len());
            if index >= self.0.len() - 1 {
                assert(pick(self@, index + 1, left as int, rest as int) is None);
                return None;
            }
            index = index + 1;
        }
    }

    /// `base^exp mod m`, by repeated squaring.
    fn pow_mod(base: usize, exp: u32, m: usize) -> (r: usize)
        requires
            m > 0,
        ensures
            r == pow(base as int, exp as nat) % (m as int),
    {
        let mm = m as u128;
        let mut b: u128 = (base as u128) % mm;
        let mut e: u32 = exp;
        let mut acc: u128 = 1 % mm;
        proof {
            vstd::arithmetic::power::lemma_pow_mod_noop(base as int, exp as nat, m as int);
            if m == 1 {
                assert(acc == 0);
                assert(pow(base as int, exp as nat) % 1 == 0);
            } else {
                vstd::arithmetic::div_mod::lemma_small_mod(1, m as nat);
            }
        }
        while e > 0
            invariant
                mm == m,
                m > 0,
                b < mm,
                acc < mm,
                acc * pow(b as int, e as nat) % (m as int) == pow(base as int, exp as nat) % (m as int),
            decreases e,
        {
            assert(mm <= 0xffff_ffff_ffff_ffff);
            assert(b * b < 0x1_0000_0000_0000_0000_0000_0000_0000_0000) by (nonlinear_arith)
                requires
                    b < 0x1_0000_0000_0000_0000u128,
            ;
            assert(acc * b < 0x1_0000_0000_0000_0000_0000_0000_0000_0000) by (nonlinear_arith)
                requires
                    acc < 0x1_0000_0000_0000_0000u128,
                    b < 0x1_0000_0000_0000_0000u128,
            ;
            proof {
                lemma_square_step(acc as int, b as int, e as nat, m as int);
            }
            if e % 2 == 1 {
                acc = (acc * b) % mm;
            }
            b = (b * b) % mm;
            e = e / 2;
        }
        proof {
            vstd::arithmetic::power::lemma_pow0(b as int);
            vstd::arithmetic::div_mod::lemma_small_mod(acc as nat, m as nat);
        }
        acc as usize
    }

    /// Sums `value^power mod modulo` over `[left, right]`, modulo `modulo`.
    pub fn pow_sum(&self, left: usize, right: usize, power: u32, modulo: usize) -> (r: usize)
        requires
            self.wf(),
            modulo > 0,
        ensures
            r == pow_sum_of(self@, left as int, right as int, power as nat, modulo as int),
    {
        let k = match self.locate(left) {
            Some(k) => k,
            None => return 0,
        };
        let ghost s = self@;
        let ghost m = modulo as int;
        let ghost p = power as nat;
        proof {
            lemma_weighted_skip(s, 0, k as int, left as int, right as int, p, m);
        }
        let mm = modulo as u128;
        let mut sum: u128 = 0;
        let mut i: usize = k;
        while i < self.0.len() && self.0[i].left() <= right
            invariant
                self.wf(),
                s == self@,
                mm == modulo,
                m == modulo,
                modulo > 0,
                p == power,
                k <= i <= s.len(),
                sum < mm,
                (sum + weighted(s, i as int, left as int, right as int, p, m)) % m
                    == weighted(s, k as int, left as int, right as int, p, m) % m,
            decreases s.len() - i,
        {
            let node = &self.0[i];
            assert(node@ == s[i as int]);
            let lo = if node.left() < left { left } else { node.left() };
            let hi = if node.right() > right { right } else { node.right() };
            let ghost w = weighted(s, i + 1, left as int, right as int, p, m);
            let ghost ts = pow(s[i as int].value as int, p) % m;
            let ghost ov = s[i as int].overlap(left as int, right as int);
            assert(weighted(s, i as int, left as int, right as int, p, m) == ov * ts + w);
            if lo <= hi {
                assert(ov == hi - lo + 1);
                let len: u128 = (((hi - lo) as u128) + 1) % mm;
                assert(len == ov % m);
                let t = Self::pow_mod(node.value(), power, modulo) as u128;
                assert(t == ts);
                assert(len * t < 0x1_0000_0000_0000_0000_0000_0000_0000_0000 - 0x1_0000_0000_0000_0000) by (nonlinear_arith)
                    requires
                        len < mm,
                        t < mm,
                        mm <= 0xffff_ffff_ffff_ffffu128,
                ;
                proof {
                    lemma_sum_step(sum as int, (hi - lo + 1) as int, t as int, w, m);
                }
                sum = (sum + len * t) % mm;
            } else {
                assert(ov == 0);
                assert(ov * ts == 0) by (nonlinear_arith)
                    requires
                        ov == 0,
                ;
            }
            i = i + 1;
        }
        proof {
            assert forall|j: int| i <= j < s.len() implies #[trigger] s[j].left > right by {
                if j > i {
                    assert(s[i as int].right < s[j].left);
                }
                assert(s[i as int] == self.0@[i as int]@);
            }
            lemma_weighted_tail(s, i as int, left as int, right as int, p, m);
            vstd::arithmetic::div_mod::lemma_small_mod(sum as nat, m as nat);
        }
        sum as usize
    }
}

impl Default for ChthollyTree {
    /// The empty tree.
    fn default() -> (r: Self)
        ensures
            r@ == Seq::<Run>::empty(),
    {
        let r = ChthollyTree(Vec::new());
        assert(r@ =~= Seq::<Run>::empty());
        r
    }
}

} // verus!
