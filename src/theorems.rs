use vstd::prelude::*;
use crate::model::{
    added, assigned, at, covered, covers, lemma_at_witness, lemma_split_at, nth_of, pick, reaches,
    pow_sum_of, split_at, straddles, weighted, well_formed, Run,
};
use vstd::arithmetic::power::pow;

verus! {

/// Splitting twice at the same index leaves the runs as splitting once.
pub proof fn split_twice_is_split_once(s: Seq<Run>, m: nat)
    requires
        well_formed(s),
    ensures
        split_at(split_at(s, m), m) == split_at(s, m),
{
    lemma_split_at(s, m);
}

/// Splitting at an index before the first run changes nothing, and no run
/// holds that index.
pub proof fn split_before_first_run(s: Seq<Run>, m: nat)
    requires
        well_formed(s),
        !reaches(s, m as int),
    ensures
        split_at(s, m) == s,
        !covered(s, m as int),
{
    if straddles(s, m as int) {
        let k = choose|k: int| 0 <= k < s.len() && #[trigger] s[k].left < m && m <= s[k].right;
        assert(s[0].left <= s[k].left);
    }
    if covered(s, m as int) {
        let k = choose|k: int| 0 <= k < s.len() && #[trigger] s[k].has(m as int);
        assert(s[0].left <= s[k].left);
    }
}

/// The first value at or after an index that a run holds is that run's
/// value.
pub proof fn nth_zero_is_run_value(s: Seq<Run>, k: int, x: int)
    requires
        well_formed(s),
        0 <= k < s.len(),
        s[k].has(x),
    ensures
        nth_of(s, x, 0) == Some(s[k].value),
{
    assert(s[0].left <= s[k].left) by {
        if k > 0 {
            assert(s[0].right < s[k].left);
        }
    }
    assert forall|j: int| 0 <= j < k implies #[trigger] s[j].tail_len(x) == 0 by {
        assert(s[j].right < s[k].left);
    }
    lemma_pick_from_run(s, 0, k, x);
}

proof fn lemma_pick_from_run(s: Seq<Run>, j: int, k: int, x: int)
    requires
        0 <= j <= k < s.len(),
        s[k].has(x),
        forall|i: int| 0 <= i < k ==> #[trigger] s[i].tail_len(x) == 0,
    ensures
        pick(s, j, x, 0) == Some(s[k].value),
    decreases k - j,
{
    if j < k {
        lemma_pick_from_run(s, j + 1, k, x);
    }
}

/// Splitting keeps the held indices `[0, n)`.
pub proof fn split_keeps_coverage(s: Seq<Run>, n: nat, m: nat)
    requires
        well_formed(s),
        covers(s, n),
    ensures
        covers(split_at(s, m), n),
{
    lemma_split_at(s, m);
    assert forall|x: int| #[trigger] covered(split_at(s, m), x) <==> 0 <= x < n by {
        assert(at(split_at(s, m), x) == at(s, x));
    }
}

/// Setting a range inside `[0, n)` keeps exactly the indices `[0, n)` held.
pub proof fn assign_keeps_coverage(s: Seq<Run>, n: nat, lo: int, hi: int, v: nat)
    requires
        covers(s, n),
        0 <= lo <= hi < n,
    ensures
        forall|x: int| #[trigger] assigned(s, lo, hi, v, x) is Some <==> 0 <= x < n,
{
    assert forall|x: int| #[trigger] assigned(s, lo, hi, v, x) is Some <==> 0 <= x < n by {
        assert(covered(s, x) <==> 0 <= x < n);
    }
}

/// Adding to a range keeps exactly the indices `[0, n)` held.
pub proof fn add_keeps_coverage(s: Seq<Run>, n: nat, lo: int, hi: int, d: nat)
    requires
        covers(s, n),
    ensures
        forall|x: int| #[trigger] added(s, lo, hi, d, x) is Some <==> 0 <= x < n,
{
    assert forall|x: int| #[trigger] added(s, lo, hi, d, x) is Some <==> 0 <= x < n by {
        assert(covered(s, x) <==> 0 <= x < n);
    }
}

/// Runs that hold exactly `[0, n)` follow one another without gaps.
proof fn lemma_gap_free(s: Seq<Run>, n: nat)
    requires
        well_formed(s),
        covers(s, n),
        n > 0,
    ensures
        s.len() > 0,
        s[0].left == 0,
        s[s.len() - 1].right == n - 1,
        forall|i: int| 0 <= i < s.len() - 1 ==> #[trigger] s[i + 1].left == s[i].right + 1,
{
    assert(covered(s, 0));
    let j0 = choose|j: int| 0 <= j < s.len() && #[trigger] s[j].has(0);
    assert(s[0].left <= s[j0].left) by {
        if j0 > 0 {
            assert(s[0].right < s[j0].left);
        }
    }
    let last = s.len() - 1;
    assert(s[last].has(s[last].right as int));
    assert(covered(s, s[last].right as int));
    if s[last].right < n - 1 {
        let y = s[last].right + 1int;
        assert(covered(s, y));
        let j = choose|j: int| 0 <= j < s.len() && #[trigger] s[j].has(y);
        if j < last {
            assert(s[j].right < s[last].left);
        }
    }
    assert forall|i: int| 0 <= i < s.len() - 1 implies #[trigger] s[i + 1].left == s[i].right + 1 by {
        assert(s[i].right < s[i + 1].left);
        assert(s[i + 1].has(s[i + 1].left as int));
        assert(covered(s, s[i + 1].left as int));
        let y = s[i].right + 1int;
        assert(covered(s, y));
        let j = choose|j: int| 0 <= j < s.len() && #[trigger] s[j].has(y);
        if j < i {
            assert(s[j].right < s[i].left);
        } else if j > i + 1 {
            assert(s[i + 1].right < s[j].left);
        }
    }
}

proof fn lemma_pick_dense(s: Seq<Run>, n: nat, i: int, from: int, x: int)
    requires
        well_formed(s),
        covers(s, n),
        n > 0,
        0 <= i < s.len(),
        s[s.len() - 1].right == n - 1,
        forall|j: int| 0 <= j < s.len() - 1 ==> #[trigger] s[j + 1].left == s[j].right + 1,
        from >= 0,
        x >= 0,
    ensures
        ({
            let c = if s[i].left < from { from } else { s[i].left as int };
            pick(s, i, from, x) == if c + x < n { at(s, c + x) } else { None }
        }),
    decreases s.len() - i,
{
    let c = if s[i].left < from { from } else { s[i].left as int };
    let t = s[i].tail_len(from);
    if x < t {
        lemma_at_witness(s, i, c + x);
    } else if i + 1 < s.len() {
        assert(s[i + 1].left == s[i].right + 1);
        lemma_pick_dense(s, n, i + 1, from, x - t);
    } else {
        assert(pick(s, i + 1, from, x - t) is None);
    }
}

/// On runs that hold exactly `[0, n)`, the order statistic from `from` is
/// the value at index `from + x`, and nothing past the end.
pub proof fn nth_matches_dense_array(s: Seq<Run>, n: nat, from: int, x: int)
    requires
        well_formed(s),
        covers(s, n),
        from >= 0,
        x >= 0,
    ensures
        nth_of(s, from, x) == if from + x < n { at(s, from + x) } else { None },
{
    if n == 0 {
        if s.len() > 0 {
            assert(s[0].has(s[0].left as int));
            assert(covered(s, s[0].left as int));
        }
    } else {
        lemma_gap_free(s, n);
        lemma_pick_dense(s, n, 0, from, x);
    }
}

/// The sum of `(value at i)^p mod m` over the indices `i` of `[lo, hi]`,
/// taken one index at a time.
pub open spec fn index_sum(s: Seq<Run>, lo: int, hi: int, p: nat, m: int) -> int
    decreases hi - lo + 1,
{
    if hi < lo {
        0
    } else {
        index_sum(s, lo, hi - 1, p, m) + pow(at(s, hi).unwrap() as int, p) % m
    }
}

proof fn lemma_index_sum_split(s: Seq<Run>, a: int, b: int, c: int, p: nat, m: int)
    requires
        a - 1 <= b <= c,
    ensures
        index_sum(s, a, c, p, m) == index_sum(s, a, b, p, m) + index_sum(s, b + 1, c, p, m),
    decreases c - b,
{
    if c > b {
        lemma_index_sum_split(s, a, b, c - 1, p, m);
    }
}

proof fn lemma_index_sum_const(s: Seq<Run>, a: int, b: int, v: nat, p: nat, m: int)
    requires
        a - 1 <= b,
        forall|x: int| a <= x <= b ==> #[trigger] at(s, x) == Some(v),
    ensures
        index_sum(s, a, b, p, m) == (b - a + 1) * (pow(v as int, p) % m),
    decreases b - a + 1,
{
    let t = pow(v as int, p) % m;
    if b >= a {
        assert(at(s, b) == Some(v));
        assert(at(s, b).unwrap() == v);
        lemma_index_sum_const(s, a, b - 1, v, p, m);
        assert(index_sum(s, a, b, p, m) == index_sum(s, a, b - 1, p, m) + t);
        assert((b - a) * t + t == (b - a + 1) * t) by (nonlinear_arith);
    } else {
        assert(index_sum(s, a, b, p, m) == 0);
        assert((b - a + 1) * t == 0) by (nonlinear_arith)
            requires
                b - a + 1 == 0,
        ;
    }
}

proof fn lemma_weighted_dense(s: Seq<Run>, n: nat, i: int, lo: int, hi: int, p: nat, m: int)
    requires
        well_formed(s),
        covers(s, n),
        0 <= i < s.len(),
        s[s.len() - 1].right == n - 1,
        forall|j: int| 0 <= j < s.len() - 1 ==> #[trigger] s[j + 1].left == s[j].right + 1,
        0 <= lo,
        hi < n,
    ensures
        ({
            let c = if s[i].left < lo { lo } else { s[i].left as int };
            weighted(s, i, lo, hi, p, m) == index_sum(s, c, hi, p, m)
        }),
    decreases s.len() - i,
{
    let c = if s[i].left < lo { lo } else { s[i].left as int };
    let e = if s[i].right > hi { hi } else { s[i].right as int };
    if i + 1 < s.len() {
        assert(s[i + 1].left == s[i].right + 1);
        lemma_weighted_dense(s, n, i + 1, lo, hi, p, m);
    }
    let t = pow(s[i].value as int, p) % m;
    let w = weighted(s, i + 1, lo, hi, p, m);
    assert(weighted(s, i, lo, hi, p, m) == s[i].overlap(lo, hi) * t + w);
    if i + 1 == s.len() {
        assert(w == 0);
    }
    if c <= e {
        assert(s[i].overlap(lo, hi) == e - c + 1);
        assert forall|x: int| c <= x <= e implies #[trigger] at(s, x) == Some(s[i].value) by {
            lemma_at_witness(s, i, x);
        }
        lemma_index_sum_const(s, c, e, s[i].value, p, m);
        lemma_index_sum_split(s, c, e, hi, p, m);
        if e == hi {
            assert(index_sum(s, e + 1, hi, p, m) == 0);
            if i + 1 < s.len() {
                let c2 = if s[i + 1].left < lo { lo } else { s[i + 1].left as int };
                assert(index_sum(s, c2, hi, p, m) == 0);
            }
        } else {
            assert(i + 1 < s.len());
        }
    } else {
        assert(s[i].overlap(lo, hi) == 0);
        let ov = s[i].overlap(lo, hi);
        assert(ov * t == 0) by (nonlinear_arith)
            requires
                ov == 0,
        ;
        if c > hi {
            assert(index_sum(s, c, hi, p, m) == 0);
            if i + 1 < s.len() {
                let c2 = if s[i + 1].left < lo { lo } else { s[i + 1].left as int };
                assert(index_sum(s, c2, hi, p, m) == 0);
            }
        }
    }
}

/// On runs that hold exactly `[0, n)`, the power sum over `[lo, hi]` is the
/// sum over the indices one by one, modulo `m`.
pub proof fn pow_sum_matches_dense_array(s: Seq<Run>, n: nat, lo: int, hi: int, p: nat, m: int)
    requires
        well_formed(s),
        covers(s, n),
        0 <= lo,
        hi < n,
        m > 0,
    ensures
        pow_sum_of(s, lo, hi, p, m) == index_sum(s, lo, hi, p, m) % m,
{
    if n == 0 {
        if s.len() > 0 {
            assert(s[0].has(s[0].left as int));
            assert(covered(s, s[0].left as int));
        }
        assert(index_sum(s, lo, hi, p, m) == 0);
        assert(0int % m == 0);
    } else {
        lemma_gap_free(s, n);
        lemma_weighted_dense(s, n, 0, lo, hi, p, m);
        assert(reaches(s, lo));
    }
}

} // verus!
