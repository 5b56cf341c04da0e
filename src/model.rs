use vstd::prelude::*;
use vstd::arithmetic::power::pow;

verus! {

/// The mathematical value of one run: the inclusive index range
/// `[left, right]`, every index of which holds `value`.
pub struct Run {
    pub left: nat,
    pub right: nat,
    pub value: nat,
}

impl Run {
    /// Index `x` lies inside the run.
    pub open spec fn has(self, x: int) -> bool {
        self.left <= x <= self.right
    }

    /// Number of indices that the run covers.
    pub open spec fn length(self) -> int {
        self.right - self.left + 1
    }

    /// Number of indices of the run at or after `from`.
    pub open spec fn tail_len(self, from: int) -> int {
        if self.right < from {
            0
        } else if self.left < from {
            self.right - from + 1
        } else {
            self.length()
        }
    }

    /// Number of indices of the run inside `[lo, hi]`.
    pub open spec fn overlap(self, lo: int, hi: int) -> int {
        let a = if self.left < lo { lo } else { self.left as int };
        let b = if self.right > hi { hi } else { self.right as int };
        if a <= b { b - a + 1 } else { 0 }
    }
}

/// Runs are non-empty, fit in machine words, and are sorted by position
/// without overlapping.
pub open spec fn well_formed(s: Seq<Run>) -> bool {
    &&& forall|k: int|
        0 <= k < s.len() ==> {
            &&& #[trigger] s[k].left <= s[k].right
            &&& s[k].right <= usize::MAX
            &&& s[k].value <= usize::MAX
        }
    &&& forall|i: int, j: int| 0 <= i < j < s.len() ==> #[trigger] s[i].right < #[trigger] s[j].left
}

/// Some run holds index `x`.
pub open spec fn covered(s: Seq<Run>, x: int) -> bool {
    exists|k: int| 0 <= k < s.len() && #[trigger] s[k].has(x)
}

/// The runs hold exactly the indices `[0, n)`.
pub open spec fn covers(s: Seq<Run>, n: nat) -> bool {
    forall|x: int| #[trigger] covered(s, x) <==> 0 <= x < n
}

/// The value at index `x`, if some run holds it.
pub open spec fn at(s: Seq<Run>, x: int) -> Option<nat> {
    if covered(s, x) {
        Some(s[choose|k: int| 0 <= k < s.len() && #[trigger] s[k].has(x)].value)
    } else {
        None
    }
}

/// Some run starts at or before `x`.
pub open spec fn reaches(s: Seq<Run>, x: int) -> bool {
    s.len() > 0 && s[0].left <= x
}

/// Some run holds both `b - 1` and `b`: `b` is not a boundary.
pub open spec fn straddles(s: Seq<Run>, b: int) -> bool {
    exists|k: int| 0 <= k < s.len() && #[trigger] s[k].left < b && b <= s[k].right
}

/// The runs after cutting the run that straddles `m` into `[left, m - 1]`
/// and `[m, right]`; unchanged where `m` is already a boundary.
pub open spec fn split_at(s: Seq<Run>, m: nat) -> Seq<Run> {
    if straddles(s, m as int) {
        let k = choose|k: int| 0 <= k < s.len() && #[trigger] s[k].left < m && m <= s[k].right;
        s.take(k) + seq![
            Run { left: s[k].left, right: (m - 1) as nat, value: s[k].value },
            Run { left: m, right: s[k].right, value: s[k].value },
        ] + s.skip(k + 1)
    } else {
        s
    }
}

/// The value at `x` after every index of `[lo, hi]` was set to `v`.
pub open spec fn assigned(s: Seq<Run>, lo: int, hi: int, v: nat, x: int) -> Option<nat> {
    if lo <= x <= hi {
        Some(v)
    } else {
        at(s, x)
    }
}

/// The value at `x` after `d` was added to every held index of `[lo, hi]`.
pub open spec fn added(s: Seq<Run>, lo: int, hi: int, d: nat, x: int) -> Option<nat> {
    if lo <= x <= hi && covered(s, x) {
        Some(at(s, x).unwrap() + d)
    } else {
        at(s, x)
    }
}

/// The `x`-th (from 0) held value at an index at or after `from`, scanning
/// the runs from position `i` on.
pub open spec fn pick(s: Seq<Run>, i: int, from: int, x: int) -> Option<nat>
    decreases s.len() - i,
{
    if i < 0 || i >= s.len() {
        None
    } else if x < s[i].tail_len(from) {
        Some(s[i].value)
    } else {
        pick(s, i + 1, from, x - s[i].tail_len(from))
    }
}

/// Order statistic: nothing when no run starts at or before `from`, else
/// the `x`-th held value at an index at or after `from`.
pub open spec fn nth_of(s: Seq<Run>, from: int, x: int) -> Option<nat> {
    if reaches(s, from) {
        pick(s, 0, from, x)
    } else {
        None
    }
}

/// Sum, over the runs from position `i` on, of the run's overlap with
/// `[lo, hi]` times `value^p mod m`.
pub open spec fn weighted(s: Seq<Run>, i: int, lo: int, hi: int, p: nat, m: int) -> int
    decreases s.len() - i,
{
    if i < 0 || i >= s.len() {
        0
    } else {
        s[i].overlap(lo, hi) * (pow(s[i].value as int, p) % m) + weighted(s, i + 1, lo, hi, p, m)
    }
}

/// Power sum over `[lo, hi]` modulo `m`: zero when no run starts at or
/// before `lo`.
pub open spec fn pow_sum_of(s: Seq<Run>, lo: int, hi: int, p: nat, m: int) -> int {
    if reaches(s, lo) {
        weighted(s, 0, lo, hi, p, m) % m
    } else {
        0
    }
}

/// Run `k` holds `x`, so the value at `x` is run `k`'s.
pub proof fn lemma_at_witness(s: Seq<Run>, k: int, x: int)
    requires
        well_formed(s),
        0 <= k < s.len(),
        s[k].has(x),
    ensures
        covered(s, x),
        at(s, x) == Some(s[k].value),
{
    let j = choose|j: int| 0 <= j < s.len() && #[trigger] s[j].has(x);
    if j < k {
        assert(s[j].right < s[k].left);
    } else if j > k {
        assert(s[k].right < s[j].left);
    }
}

/// The run that straddles `m` is the only one.
pub proof fn lemma_straddle_unique(s: Seq<Run>, k: int, m: int)
    requires
        well_formed(s),
        0 <= k < s.len(),
        s[k].left < m <= s[k].right,
    ensures
        straddles(s, m),
        (choose|j: int| 0 <= j < s.len() && #[trigger] s[j].left < m && m <= s[j].right) == k,
{
    assert(s[k].left < m && m <= s[k].right);
    let j = choose|j: int| 0 <= j < s.len() && #[trigger] s[j].left < m && m <= s[j].right;
    if j < k {
        assert(s[j].right < s[k].left);
    } else if j > k {
        assert(s[k].right < s[j].left);
    }
}

/// Cutting at `m` keeps the runs well formed, keeps every value, keeps every
/// boundary, and makes `m` a boundary.
pub proof fn lemma_split_at(s: Seq<Run>, m: nat)
    requires
        well_formed(s),
    ensures
        well_formed(split_at(s, m)),
        forall|x: int| at(split_at(s, m), x) == #[trigger] at(s, x),
        forall|b: int| !straddles(s, b) ==> !#[trigger] straddles(split_at(s, m), b),
        !straddles(split_at(s, m), m as int),
        s.len() <= split_at(s, m).len() <= s.len() + 1,
        reaches(split_at(s, m), m as int) == reaches(s, m as int),
        s.len() > 0 ==> split_at(s, m)[0].left == s[0].left,
{
    if straddles(s, m as int) {
        let k = choose|k: int| 0 <= k < s.len() && #[trigger] s[k].left < m && m <= s[k].right;
        let t = split_at(s, m);
        let a = Run { left: s[k].left, right: (m - 1) as nat, value: s[k].value };
        let c = Run { left: m, right: s[k].right, value: s[k].value };
        assert(t.len() == s.len() + 1);
        assert(t[k] == a && t[k + 1] == c);
        assert(forall|j: int| 0 <= j < k ==> t[j] == s[j]);
        assert(forall|j: int| k + 1 < j < t.len() ==> t[j] == s[j - 1]);
        assert(well_formed(t)) by {
            assert forall|i: int, j: int| 0 <= i < j < t.len() implies #[trigger] t[i].right
                < #[trigger] t[j].left by {
                let si = if i <= k { i } else { i - 1 };
                let sj = if j <= k { j } else { j - 1 };
                if si < sj {
                    assert(s[si].right < s[sj].left);
                }
            }
        }
        assert forall|x: int| at(t, x) == #[trigger] at(s, x) by {
            if covered(s, x) {
                let j = choose|j: int| 0 <= j < s.len() && #[trigger] s[j].has(x);
                lemma_at_witness(s, j, x);
                if j < k {
                    lemma_at_witness(t, j, x);
                } else if j > k {
                    lemma_at_witness(t, j + 1, x);
                } else if x < m {
                    lemma_at_witness(t, k, x);
                } else {
                    lemma_at_witness(t, k + 1, x);
                }
            } else if covered(t, x) {
                let j = choose|j: int| 0 <= j < t.len() && #[trigger] t[j].has(x);
                if j < k {
                    assert(s[j].has(x));
                } else if j > k + 1 {
                    assert(s[j - 1].has(x));
                } else {
                    assert(s[k].has(x));
                }
            }
        }
        assert forall|b: int| !straddles(s, b) implies !#[trigger] straddles(t, b) by {
            if straddles(t, b) {
                let j = choose|j: int| 0 <= j < t.len() && #[trigger] t[j].left < b && b <= t[j].right;
                if j < k {
                    assert(s[j].left < b && b <= s[j].right);
                } else if j > k + 1 {
                    assert(s[j - 1].left < b && b <= s[j - 1].right);
                } else {
                    assert(s[k].left < b && b <= s[k].right);
                }
            }
        }
        if straddles(t, m as int) {
            let j = choose|j: int| 0 <= j < t.len() && #[trigger] t[j].left < m && m <= t[j].right;
            if j < k {
                assert(t[j].right < t[k + 1].left);
            } else if j > k + 1 {
                assert(t[k + 1].right < t[j].left);
            }
        }
        if k == 0 {
            assert(t[0].left == s[0].left);
        } else {
            assert(t[0] == s[0]);
        }
    }
}

/// Replacing the runs at positions `[p, q)`, all inside `[lo, hi]`, by the
/// single run `[lo, hi] = v` sets `[lo, hi]` to `v` and keeps the rest.
pub proof fn lemma_splice(s: Seq<Run>, p: int, q: int, lo: nat, hi: nat, v: nat)
    requires
        well_formed(s),
        0 <= p <= q <= s.len(),
        lo <= hi <= usize::MAX,
        v <= usize::MAX,
        forall|j: int| 0 <= j < p ==> #[trigger] s[j].right < lo,
        forall|j: int| q <= j < s.len() ==> #[trigger] s[j].left > hi,
        forall|j: int| p <= j < q ==> lo <= #[trigger] s[j].left && s[j].right <= hi,
    ensures
        ({
            let t = s.take(p) + seq![Run { left: lo, right: hi, value: v }] + s.skip(q);
            &&& well_formed(t)
            &&& forall|x: int| #[trigger] at(t, x) == assigned(s, lo as int, hi as int, v, x)
            &&& t[p] == Run { left: lo, right: hi, value: v }
            &&& forall|j: int| 0 <= j < t.len() && j != p ==> #[trigger] t[j].right < lo || t[j].left > hi
            &&& s.len() > 0 && lo >= s[0].left ==> t[0].left == s[0].left
        }),
{
    let r = Run { left: lo, right: hi, value: v };
    let t = s.take(p) + seq![r] + s.skip(q);
    assert(t.len() == p + 1 + s.len() - q);
    assert(t[p] == r);
    assert(forall|j: int| 0 <= j < p ==> t[j] == s[j]);
    assert(forall|j: int| p < j < t.len() ==> t[j] == s[j - 1 - p + q]);
    assert(well_formed(t)) by {
        assert forall|k: int| 0 <= k < t.len() implies {
            &&& #[trigger] t[k].left <= t[k].right
            &&& t[k].right <= usize::MAX
            &&& t[k].value <= usize::MAX
        } by {
            if k < p {
                assert(t[k] == s[k]);
                assert(s[k].left <= s[k].right);
            } else if k > p {
                let k2 = k - 1 - p + q;
                assert(t[k] == s[k2]);
                assert(s[k2].left <= s[k2].right);
            } else {
                assert(t[k] == r);
            }
        }
        assert forall|i: int, j: int| 0 <= i < j < t.len() implies #[trigger] t[i].right
            < #[trigger] t[j].left by {
            if i < p && j > p {
                assert(s[i].right < s[j - 1 - p + q].left);
            } else if i < p && j == p {
                assert(t[i] == s[i]);
            } else if i == p && j > p {
                assert(t[j] == s[j - 1 - p + q]);
            } else if i > p {
                assert(t[i] == s[i - 1 - p + q]);
                assert(t[j] == s[j - 1 - p + q]);
            } else {
                assert(t[i] == s[i]);
                assert(t[j] == s[j]);
            }
        }
    }
    assert forall|x: int| #[trigger] at(t, x) == assigned(s, lo as int, hi as int, v, x) by {
        if lo <= x <= hi {
            lemma_at_witness(t, p, x);
        } else {
            if covered(s, x) {
                let j = choose|j: int| 0 <= j < s.len() && #[trigger] s[j].has(x);
                lemma_at_witness(s, j, x);
                if j < p {
                    lemma_at_witness(t, j, x);
                } else {
                    assert(j >= q);
                    lemma_at_witness(t, j + 1 + p - q, x);
                }
            } else if covered(t, x) {
                let j = choose|j: int| 0 <= j < t.len() && #[trigger] t[j].has(x);
                if j < p {
                    assert(s[j].has(x));
                } else if j > p {
                    assert(s[j - 1 - p + q].has(x));
                }
            }
        }
    }
    if s.len() > 0 && lo >= s[0].left {
        if p == 0 {
            if q < s.len() {
                assert(s[0].left <= s[q].left);
            } else if q > 0 {
                assert(lo <= s[0].left);
            }
        }
    }
}

/// Adding `d` to the runs at positions `[p, q)` adds `d` to every held index
/// of `[lo, hi]` when those runs are exactly the ones inside it.
pub proof fn lemma_add_span(s: Seq<Run>, t: Seq<Run>, p: int, q: int, lo: nat, hi: nat, d: nat)
    requires
        well_formed(s),
        0 <= p <= q <= s.len(),
        t.len() == s.len(),
        forall|j: int| 0 <= j < p ==> #[trigger] s[j].right < lo,
        forall|j: int| q <= j < s.len() ==> #[trigger] s[j].left > hi,
        forall|j: int| p <= j < q ==> lo <= #[trigger] s[j].left && s[j].right <= hi,
        forall|j: int| 0 <= j < s.len() && !(p <= j < q) ==> #[trigger] t[j] == s[j],
        forall|j: int|
            p <= j < q ==> #[trigger] t[j] == (Run {
                left: s[j].left,
                right: s[j].right,
                value: s[j].value + d,
            }),
        forall|j: int| p <= j < q ==> #[trigger] s[j].value + d <= usize::MAX,
    ensures
        well_formed(t),
        forall|x: int| #[trigger] at(t, x) == added(s, lo as int, hi as int, d, x),
{
    assert(forall|j: int| 0 <= j < s.len() ==> #[trigger] t[j].left == s[j].left && t[j].right == s[j].right);
    assert(well_formed(t)) by {
        assert forall|i: int, j: int| 0 <= i < j < t.len() implies #[trigger] t[i].right
            < #[trigger] t[j].left by {
            assert(s[i].right < s[j].left);
        }
        assert forall|k: int| 0 <= k < t.len() implies #[trigger] t[k].left <= t[k].right
            && t[k].right <= usize::MAX && t[k].value <= usize::MAX by {
            assert(s[k].left <= s[k].right);
        }
    }
    assert forall|x: int| #[trigger] at(t, x) == added(s, lo as int, hi as int, d, x) by {
        if covered(s, x) {
            let j = choose|j: int| 0 <= j < s.len() && #[trigger] s[j].has(x);
            lemma_at_witness(s, j, x);
            assert(t[j].has(x));
            lemma_at_witness(t, j, x);
        } else if covered(t, x) {
            let j = choose|j: int| 0 <= j < t.len() && #[trigger] t[j].has(x);
            assert(s[j].has(x));
        }
    }
}

/// Runs that end before `from` add nothing to the scan.
pub proof fn lemma_pick_skip(s: Seq<Run>, j: int, k: int, from: int, x: int)
    requires
        well_formed(s),
        0 <= j <= k < s.len(),
        s[k].left <= from,
        x >= 0,
    ensures
        pick(s, j, from, x) == pick(s, k, from, x),
    decreases k - j,
{
    if j < k {
        assert(s[j].right < s[k].left);
        lemma_pick_skip(s, j + 1, k, from, x);
    }
}

/// Runs that end before `lo` add nothing to the sum.
pub proof fn lemma_weighted_skip(s: Seq<Run>, j: int, k: int, lo: int, hi: int, p: nat, m: int)
    requires
        well_formed(s),
        0 <= j <= k < s.len(),
        s[k].left <= lo,
    ensures
        weighted(s, j, lo, hi, p, m) == weighted(s, k, lo, hi, p, m),
    decreases k - j,
{
    if j < k {
        assert(s[j].right < s[k].left);
        lemma_weighted_skip(s, j + 1, k, lo, hi, p, m);
    }
}

/// Runs that start after `hi` add nothing to the sum.
pub proof fn lemma_weighted_tail(s: Seq<Run>, i: int, lo: int, hi: int, p: nat, m: int)
    requires
        well_formed(s),
        0 <= i <= s.len(),
        forall|j: int| i <= j < s.len() ==> #[trigger] s[j].left > hi,
    ensures
        weighted(s, i, lo, hi, p, m) == 0,
    decreases s.len() - i,
{
    if i < s.len() {
        assert(s[i].left > hi);
        lemma_weighted_tail(s, i + 1, lo, hi, p, m);
    }
}

} // verus!
