//! Lists of addresses in rising order: how to get one, and how to search it.

use vstd::prelude::*;

verus! {

/// The values of `s` rise strictly.
pub open spec fn ascending(s: Seq<u64>) -> bool {
    forall|i: int, j: int| 0 <= i < j < s.len() ==> s[i] < s[j]
}

/// The values of `s` never fall.
pub open spec fn sorted(s: Seq<u64>) -> bool {
    forall|i: int, j: int| 0 <= i < j < s.len() ==> s[i] <= s[j]
}

/// A list that rises strictly never falls, and holds nothing twice.
pub proof fn lemma_ascending_sorted(s: Seq<u64>)
    requires
        ascending(s),
    ensures
        sorted(s),
        s.no_duplicates(),
{
}

/// The index of the first value of `v` that is not below `x`, or the
/// length of `v` where there is none.
pub fn lower_bound(v: &[u64], x: u64) -> (k: usize)
    requires
        sorted(v@),
    ensures
        k <= v.len(),
        forall|i: int| 0 <= i < k ==> v[i] < x,
        forall|i: int| k <= i < v.len() ==> v[i] >= x,
{
    let mut lo: usize = 0;
    let mut hi: usize = v.len();
    while lo < hi
        invariant
            sorted(v@),
            lo <= hi <= v.len(),
            forall|i: int| 0 <= i < lo ==> v[i] < x,
            forall|i: int| hi <= i < v.len() ==> v[i] >= x,
        decreases hi - lo,
    {
        let mid: usize = lo + (hi - lo) / 2;
        if v[mid] < x {
            assert forall|i: int| 0 <= i < mid + 1 implies v[i] < x by {
                assert(v[i] <= v[mid as int]);
            }
            lo = mid + 1;
        } else {
            assert forall|i: int| mid <= i < v.len() implies v[i] >= x by {
                assert(v[mid as int] <= v[i]);
            }
            hi = mid;
        }
    }
    lo
}

/// Merges two strictly rising lists that share no value into one.
fn merge(a: &Vec<u64>, b: &Vec<u64>) -> (r: Vec<u64>)
    requires
        ascending(a@),
        ascending(b@),
        forall|i: int, j: int| 0 <= i < a.len() && 0 <= j < b.len() ==> a[i] != b[j],
    ensures
        ascending(r@),
        r.len() == a.len() + b.len(),
        forall|x: u64| r@.contains(x) <==> a@.contains(x) || b@.contains(x),
{
    let mut r: Vec<u64> = Vec::new();
    let mut i: usize = 0;
    let mut j: usize = 0;
    while i < a.len() || j < b.len()
        invariant
            ascending(a@),
            ascending(b@),
            forall|i: int, j: int| 0 <= i < a.len() && 0 <= j < b.len() ==> a[i] != b[j],
            i <= a.len(),
            j <= b.len(),
            r.len() == i + j,
            ascending(r@),
            forall|k: int| 0 <= k < r.len() && i < a.len() ==> r[k] < a[i as int],
            forall|k: int| 0 <= k < r.len() && j < b.len() ==> r[k] < b[j as int],
            forall|x: u64|
                r@.contains(x) <==> a@.take(i as int).contains(x) || b@.take(j as int).contains(x),
        decreases a.len() - i + (b.len() - j),
    {
        let ghost prev = r@;
        let from_a = j >= b.len() || (i < a.len() && a[i] < b[j]);
        let x: u64 = if from_a {
            a[i]
        } else {
            b[j]
        };
        proof {
            if i + 1 < a.len() {
                assert(a[i as int] < a[i + 1]);
            }
            if j + 1 < b.len() {
                assert(b[j as int] < b[j + 1]);
            }
        }
        r.push(x);
        if from_a {
            i += 1;
        } else {
            j += 1;
        }
        proof {
            let ta = a@.take(i as int);
            let tb = b@.take(j as int);
            assert forall|y: u64| r@.contains(y) <==> ta.contains(y) || tb.contains(y) by {
                let pa = if from_a {
                    a@.take(i - 1)
                } else {
                    ta
                };
                let pb = if from_a {
                    tb
                } else {
                    b@.take(j - 1)
                };
                if r@.contains(y) {
                    let q = choose|q: int| 0 <= q < r.len() && r[q] == y;
                    if q < prev.len() {
                        assert(prev[q] == y);
                        assert(prev.contains(y));
                        if pa.contains(y) {
                            let w = choose|w: int| 0 <= w < pa.len() && pa[w] == y;
                            assert(ta[w] == y);
                        } else {
                            let w = choose|w: int| 0 <= w < pb.len() && pb[w] == y;
                            assert(tb[w] == y);
                        }
                    } else {
                        if from_a {
                            assert(ta[i - 1] == y);
                        } else {
                            assert(tb[j - 1] == y);
                        }
                    }
                }
                if ta.contains(y) {
                    let w = choose|w: int| 0 <= w < ta.len() && ta[w] == y;
                    if from_a && w == i - 1 {
                        assert(r[prev.len() as int] == y);
                    } else {
                        assert(pa[w] == y);
                        assert(prev.contains(y));
                        let q = choose|q: int| 0 <= q < prev.len() && prev[q] == y;
                        assert(r[q] == y);
                    }
                }
                if tb.contains(y) {
                    let w = choose|w: int| 0 <= w < tb.len() && tb[w] == y;
                    if !from_a && w == j - 1 {
                        assert(r[prev.len() as int] == y);
                    } else {
                        assert(pb[w] == y);
                        assert(prev.contains(y));
                        let q = choose|q: int| 0 <= q < prev.len() && prev[q] == y;
                        assert(r[q] == y);
                    }
                }
            }
        }
    }
    proof {
        assert(a@.take(a.len() as int) =~= a@);
        assert(b@.take(b.len() as int) =~= b@);
    }
    r
}

/// The values of `v`, none of which occurs twice, in strictly rising order.
pub fn sort_distinct(v: &Vec<u64>) -> (r: Vec<u64>)
    requires
        v@.no_duplicates(),
    ensures
        ascending(r@),
        r.len() == v.len(),
        forall|x: u64| r@.contains(x) <==> v@.contains(x),
    decreases v.len(),
{
    let n = v.len();
    if n <= 1 {
        let mut r: Vec<u64> = Vec::new();
        if n == 1 {
            r.push(v[0]);
        }
        proof {
            assert forall|x: u64| r@.contains(x) <==> v@.contains(x) by {
                if r@.contains(x) {
                    assert(v[0] == x);
                }
                if v@.contains(x) {
                    assert(r[0] == x);
                }
            }
        }
        return r;
    }
    let mid: usize = n / 2;
    let mut left: Vec<u64> = Vec::new();
    let mut right: Vec<u64> = Vec::new();
    let mut k: usize = 0;
    while k < n
        invariant
            n == v.len(),
            0 < mid < n,
            k <= n,
            left@ == v@.take(if k < mid { k as int } else { mid as int }),
            right@ == v@.subrange(mid as int, if k < mid { mid as int } else { k as int }),
        decreases n - k,
    {
        if k < mid {
            left.push(v[k]);
            assert(left@ =~= v@.take(k + 1));
        } else {
            right.push(v[k]);
            assert(right@ =~= v@.subrange(mid as int, k + 1));
        }
        k += 1;
        proof {
            if k <= mid {
                assert(right@ =~= v@.subrange(mid as int, mid as int));
            }
        }
    }
    proof {
        assert forall|i: int, j: int| 0 <= i < j < left.len() implies left[i] != left[j] by {
            assert(v[i] != v[j]);
        }
        assert forall|i: int, j: int| 0 <= i < j < right.len() implies right[i] != right[j] by {
            assert(v[mid + i] != v[mid + j]);
        }
    }
    let a = sort_distinct(&left);
    let b = sort_distinct(&right);
    proof {
        assert forall|i: int, j: int| 0 <= i < a.len() && 0 <= j < b.len() implies a[i]
            != b[j] by {
            assert(a@.contains(a[i]));
            assert(b@.contains(b[j]));
            let p = choose|p: int| 0 <= p < left.len() && left[p] == a[i];
            let q = choose|q: int| 0 <= q < right.len() && right[q] == b[j];
            assert(v[p] != v[mid + q]);
        }
    }
    let r = merge(&a, &b);
    proof {
        assert forall|x: u64| r@.contains(x) <==> v@.contains(x) by {
            if left@.contains(x) {
                let p = choose|p: int| 0 <= p < left.len() && left[p] == x;
                assert(v[p] == x);
            }
            if right@.contains(x) {
                let q = choose|q: int| 0 <= q < right.len() && right[q] == x;
                assert(v[mid + q] == x);
            }
            if v@.contains(x) {
                let w = choose|w: int| 0 <= w < v.len() && v[w] == x;
                if w < mid {
                    assert(left[w] == x);
                } else {
                    assert(right[w - mid] == x);
                }
            }
        }
    }
    r
}

} // verus!
