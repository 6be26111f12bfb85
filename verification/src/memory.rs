//! A captured picture of an address space: which bytes can be read, what
//! they hold, and where the memory layer fails outright.

use crate::error::Error;
use vstd::prelude::*;

verus! {

/// A contiguous span `[base, base + size)` of an address space.
#[derive(Clone, Copy, Debug, PartialEq, Eq, Structural)]
pub struct MemoryRange {
    /// The first address of the span.
    pub base: u64,
    /// The number of addresses in the span.
    pub size: u64,
}

impl MemoryRange {
    /// One past the last address of the span.
    pub open spec fn end(self) -> int {
        self.base + self.size
    }

    /// Whether address `a` lies in the span.
    pub open spec fn contains(self, a: int) -> bool {
        self.base <= a < self.base + self.size
    }

    /// Whether `a` lies in the span.
    pub fn has(&self, a: u64) -> (r: bool)
        ensures
            r == self.contains(a as int),
    {
        a >= self.base && a - self.base < self.size
    }
}

/// Every address of `[a, a + n)` is readable in `m`.
pub open spec fn readable(m: Map<int, u8>, a: int, n: int) -> bool {
    forall|x: int| a <= x < a + n ==> m.contains_key(x)
}

/// The bytes `p` stand at address `a` in `m`.
pub open spec fn holds(m: Map<int, u8>, a: int, p: Seq<u8>) -> bool {
    forall|j: int| 0 <= j < p.len() ==> m.contains_key(a + j) && m[a + j] == #[trigger] p[j]
}

/// The `n` bytes of `m` from address `a` on.
pub open spec fn bytes_at(m: Map<int, u8>, a: int, n: int) -> Seq<u8> {
    Seq::new(n as nat, |j: int| m[a + j])
}

/// How many bytes, at most `n`, can be read from `a` on before the first
/// byte that is not readable.
pub open spec fn readable_prefix(m: Map<int, u8>, a: int, n: nat) -> nat
    decreases n,
{
    if n == 0 || !m.contains_key(a) {
        0
    } else {
        1 + readable_prefix(m, a + 1, (n - 1) as nat)
    }
}

/// The prefix is the one length `k <= n` up to which all is readable and at
/// which reading stops.
pub proof fn lemma_readable_prefix(m: Map<int, u8>, a: int, n: nat, k: nat)
    requires
        k <= n,
        readable(m, a, k as int),
        k < n ==> !m.contains_key(a + k),
    ensures
        readable_prefix(m, a, n) == k,
    decreases n,
{
    if n == 0 || !m.contains_key(a) {
        if k > 0 {
            assert(m.contains_key(a));
        }
    } else {
        assert(k > 0);
        assert forall|x: int| a + 1 <= x < a + 1 + (k - 1) implies m.contains_key(x) by {
            assert(a <= x < a + k);
        }
        lemma_readable_prefix(m, a + 1, (n - 1) as nat, (k - 1) as nat);
    }
}

/// What the prefix says of each address.
pub proof fn lemma_readable_prefix_bounds(m: Map<int, u8>, a: int, n: nat)
    ensures
        readable_prefix(m, a, n) <= n,
        readable(m, a, readable_prefix(m, a, n) as int),
        readable_prefix(m, a, n) < n ==> !m.contains_key(a + readable_prefix(m, a, n)),
    decreases n,
{
    if n == 0 || !m.contains_key(a) {
    } else {
        lemma_readable_prefix_bounds(m, a + 1, (n - 1) as nat);
        let k = readable_prefix(m, a + 1, (n - 1) as nat);
        assert forall|x: int| a <= x < a + 1 + k implies m.contains_key(x) by {
            if x > a {
                assert(a + 1 <= x < a + 1 + k);
            }
        }
    }
}

/// The spans stand in ascending order, none is empty, and each ends more
/// than `gap` addresses below the start of the next.
pub open spec fn spans_apart(r: Seq<MemoryRange>, gap: int) -> bool {
    &&& forall|i: int|
        0 <= i < r.len() ==> (#[trigger] r[i]).size > 0 && r[i].base + r[i].size <= u64::MAX
    &&& forall|i: int, j: int|
        0 <= i < j < r.len() ==> (#[trigger] r[i]).base + r[i].size + gap < (#[trigger] r[j]).base
}

/// Address `a` lies in one of the spans.
pub open spec fn in_spans(r: Seq<MemoryRange>, a: int) -> bool {
    exists|i: int| 0 <= i < r.len() && (#[trigger] r[i]).contains(a)
}

/// A readable address stands at `a` or at most `gap` above it, below `end`.
pub open spec fn readable_near(m: Map<int, u8>, a: int, gap: int, end: int) -> bool {
    exists|x: int| a <= x <= a + gap && x < end && #[trigger] m.contains_key(x)
}

/// The spans `r` are what is readable in `m` between `from` and `to`, with
/// holes of at most `gap` addresses bridged: they lie within the bounds and
/// more than `gap` apart, they hold every readable address within the
/// bounds, each starts and ends on a readable address, and none has a hole
/// wider than `gap`.
#[verifier::opaque]
pub open spec fn coalesced(m: Map<int, u8>, r: Seq<MemoryRange>, gap: int, from: int, to: int) -> bool {
    &&& spans_apart(r, gap)
    &&& forall|i: int| 0 <= i < r.len() ==> from <= (#[trigger] r[i]).base && r[i].end() <= to
    &&& forall|a: int| from <= a < to && #[trigger] m.contains_key(a) ==> in_spans(r, a)
    &&& forall|i: int|
        0 <= i < r.len() ==> m.contains_key((#[trigger] r[i]).base as int) && m.contains_key(
            r[i].end() - 1,
        )
    &&& forall|i: int, a: int|
        0 <= i < r.len() && (#[trigger] r[i]).contains(a) ==> #[trigger] readable_near(
            m,
            a,
            gap,
            r[i].end(),
        )
}

/// The spans that are what is readable in `m` between `from` and `to`, with
/// holes of at most `gap` addresses bridged.
pub open spec fn mapped_spans(m: Map<int, u8>, gap: int, from: int, to: int) -> Seq<MemoryRange> {
    choose|r: Seq<MemoryRange>| coalesced(m, r, gap, from, to)
}

/// A readable address within the bounds lies in a span of a coalesced
/// list.
pub proof fn lemma_coalesced_cover(
    m: Map<int, u8>,
    r: Seq<MemoryRange>,
    gap: int,
    from: int,
    to: int,
    a: int,
) -> (i: int)
    requires
        coalesced(m, r, gap, from, to),
        from <= a < to,
        m.contains_key(a),
    ensures
        0 <= i < r.len(),
        r[i].contains(a),
{
    reveal(coalesced);
    assert(in_spans(r, a));
    choose|i: int| 0 <= i < r.len() && (#[trigger] r[i]).contains(a)
}

/// What a coalesced list says of one of its spans.
pub proof fn lemma_coalesced_span(
    m: Map<int, u8>,
    r: Seq<MemoryRange>,
    gap: int,
    from: int,
    to: int,
    i: int,
)
    requires
        coalesced(m, r, gap, from, to),
        0 <= i < r.len(),
    ensures
        r[i].size > 0,
        from <= r[i].base,
        r[i].end() <= to,
        r[i].end() <= u64::MAX,
        m.contains_key(r[i].base as int),
        m.contains_key(r[i].end() - 1),
{
    reveal(coalesced);
}

/// Two spans of a coalesced list are more than the gap apart.
pub proof fn lemma_coalesced_apart(
    m: Map<int, u8>,
    r: Seq<MemoryRange>,
    gap: int,
    from: int,
    to: int,
    i: int,
    j: int,
)
    requires
        coalesced(m, r, gap, from, to),
        0 <= i < j < r.len(),
    ensures
        r[i].end() + gap < r[j].base,
{
    reveal(coalesced);
}

/// From every address of a span of a coalesced list a readable address of
/// the span is no more than the gap away.
pub proof fn lemma_coalesced_near(
    m: Map<int, u8>,
    r: Seq<MemoryRange>,
    gap: int,
    from: int,
    to: int,
    i: int,
    a: int,
) -> (x: int)
    requires
        coalesced(m, r, gap, from, to),
        0 <= i < r.len(),
        r[i].contains(a),
    ensures
        a <= x <= a + gap,
        x < r[i].end(),
        m.contains_key(x),
{
    reveal(coalesced);
    assert(readable_near(m, a, gap, r[i].end()));
    choose|x: int| a <= x <= a + gap && x < r[i].end() && #[trigger] m.contains_key(x)
}

/// A span of one coalesced list starts where a span of every other one
/// starts.
proof fn lemma_base_shared(
    m: Map<int, u8>,
    r1: Seq<MemoryRange>,
    r2: Seq<MemoryRange>,
    gap: int,
    from: int,
    to: int,
    i: int,
) -> (j: int)
    requires
        gap >= 0,
        coalesced(m, r1, gap, from, to),
        coalesced(m, r2, gap, from, to),
        0 <= i < r1.len(),
    ensures
        0 <= j < r2.len(),
        r2[j].base == r1[i].base,
{
    let b = r1[i].base as int;
    lemma_coalesced_span(m, r1, gap, from, to, i);
    let j = lemma_coalesced_cover(m, r2, gap, from, to, b);
    lemma_coalesced_span(m, r2, gap, from, to, j);
    if r2[j].base < b {
        let c = b - 1 - gap;
        let x: int = if r2[j].base >= c {
            r2[j].base as int
        } else {
            lemma_coalesced_near(m, r2, gap, from, to, j, c)
        };
        let k = lemma_coalesced_cover(m, r1, gap, from, to, x);
        if k > i {
            lemma_coalesced_apart(m, r1, gap, from, to, i, k);
        } else if k < i {
            lemma_coalesced_apart(m, r1, gap, from, to, k, i);
        }
        assert(false);
    }
    j
}

/// The spans of a coalesced list start at rising addresses.
pub proof fn lemma_coalesced_ascending(
    m: Map<int, u8>,
    r: Seq<MemoryRange>,
    gap: int,
    from: int,
    to: int,
)
    requires
        gap >= 0,
        coalesced(m, r, gap, from, to),
    ensures
        spans_apart(r, gap),
        spans_apart(r, 0),
        forall|i: int, j: int| 0 <= i < j < r.len() ==> (#[trigger] r[i]).base < (#[trigger] r[j]).base,
        forall|i: int| 0 <= i < r.len() ==> from <= (#[trigger] r[i]).base && r[i].end() <= to,
{
    reveal(coalesced);
    assert forall|i: int, j: int| 0 <= i < j < r.len() implies (#[trigger] r[i]).base < (
    #[trigger] r[j]).base by {
        assert(r[i].base + r[i].size + gap < r[j].base);
    }
}

/// Two coalesced lists start their spans at the same addresses, one by one.
proof fn lemma_bases_aligned(
    m: Map<int, u8>,
    r1: Seq<MemoryRange>,
    r2: Seq<MemoryRange>,
    gap: int,
    from: int,
    to: int,
    n: int,
)
    requires
        gap >= 0,
        coalesced(m, r1, gap, from, to),
        coalesced(m, r2, gap, from, to),
        0 <= n <= r1.len(),
    ensures
        n <= r2.len(),
        forall|k: int| 0 <= k < n ==> (#[trigger] r1[k]).base == r2[k].base,
    decreases n,
{
    if n > 0 {
        lemma_bases_aligned(m, r1, r2, gap, from, to, n - 1);
        lemma_coalesced_ascending(m, r1, gap, from, to);
        lemma_coalesced_ascending(m, r2, gap, from, to);
        let i = n - 1;
        let j = lemma_base_shared(m, r1, r2, gap, from, to, i);
        if j < i {
            assert(r1[j].base == r2[j].base);
            assert(r1[j].base < r1[i].base);
            assert(false);
        }
        if j > i {
            let k = lemma_base_shared(m, r2, r1, gap, from, to, i);
            assert(r2[i].base < r2[j].base);
            if k < i {
                assert(r1[k].base == r2[k].base);
                assert(r2[k].base < r2[i].base);
            } else if k > i {
                assert(r1[i].base < r1[k].base);
            }
            assert(false);
        }
    }
}

/// Two coalesced lists whose spans start alike end them alike.
proof fn lemma_ends_aligned(
    m: Map<int, u8>,
    r1: Seq<MemoryRange>,
    r2: Seq<MemoryRange>,
    gap: int,
    from: int,
    to: int,
    k: int,
)
    requires
        gap >= 0,
        coalesced(m, r1, gap, from, to),
        coalesced(m, r2, gap, from, to),
        0 <= k < r1.len(),
        k < r2.len(),
        r1[k].base == r2[k].base,
    ensures
        r1[k].end() >= r2[k].end(),
{
    lemma_coalesced_span(m, r1, gap, from, to, k);
    lemma_coalesced_span(m, r2, gap, from, to, k);
    if r1[k].end() < r2[k].end() {
        let a = r1[k].end();
        let x = lemma_coalesced_near(m, r2, gap, from, to, k, a);
        let q = lemma_coalesced_cover(m, r1, gap, from, to, x);
        if q < k {
            lemma_coalesced_apart(m, r1, gap, from, to, q, k);
        } else if q > k {
            lemma_coalesced_apart(m, r1, gap, from, to, k, q);
        }
        assert(false);
    }
}

/// There is one list of spans that is what is readable between two bounds
/// with holes of a given width bridged.
pub proof fn lemma_coalesced_unique(
    m: Map<int, u8>,
    r1: Seq<MemoryRange>,
    r2: Seq<MemoryRange>,
    gap: int,
    from: int,
    to: int,
)
    requires
        gap >= 0,
        coalesced(m, r1, gap, from, to),
        coalesced(m, r2, gap, from, to),
    ensures
        r1 == r2,
{
    lemma_bases_aligned(m, r1, r2, gap, from, to, r1.len() as int);
    lemma_bases_aligned(m, r2, r1, gap, from, to, r2.len() as int);
    assert forall|k: int| 0 <= k < r1.len() implies r1[k] == r2[k] by {
        lemma_ends_aligned(m, r1, r2, gap, from, to, k);
        lemma_ends_aligned(m, r2, r1, gap, from, to, k);
    }
    assert(r1 =~= r2);
}

/// The map of a target of which nothing is known but its highest address:
/// the one span from `from` up to `to` or to `max_address`, whichever is
/// lower, where `from` lies below `max_address`, and no span else.
pub fn view_map(from: u64, to: u64, max_address: u64) -> (r: Vec<MemoryRange>)
    ensures
        from >= max_address ==> r.len() == 0,
        from < max_address ==> r.len() == 1 && r[0].base == from && r[0].size == (if to
            < max_address {
            if to < from {
                0
            } else {
                to - from
            }
        } else {
            max_address - from
        }),
{
    let mut r: Vec<MemoryRange> = Vec::new();
    if from < max_address {
        let end: u64 = if to < max_address {
            to
        } else {
            max_address
        };
        let size: u64 = if end < from {
            0
        } else {
            end - from
        };
        r.push(MemoryRange { base: from, size });
    }
    r
}

/// A run of readable bytes that starts at `base`.
struct Region {
    base: u64,
    data: Vec<u8>,
}

/// Address `a` lies in run `i` of `runs`, each run a start and its bytes.
spec fn in_run(runs: Seq<(int, Seq<u8>)>, i: int, a: int) -> bool {
    &&& 0 <= i < runs.len()
    &&& runs[i].0 <= a < runs[i].0 + runs[i].1.len()
}

/// The runs are not empty, lie within the address space, and stand in
/// ascending order without overlap.
spec fn runs_wf(runs: Seq<(int, Seq<u8>)>) -> bool {
    &&& forall|i: int|
        0 <= i < runs.len() ==> (#[trigger] runs[i]).1.len() > 0 && 0 <= runs[i].0
            && runs[i].0 + runs[i].1.len() <= u64::MAX
    &&& forall|i: int, j: int|
        0 <= i < j < runs.len() ==> (#[trigger] runs[i]).0 + runs[i].1.len()
            <= (#[trigger] runs[j]).0
}

/// The addresses that the runs cover, each with its byte.
spec fn runs_view(runs: Seq<(int, Seq<u8>)>) -> Map<int, u8> {
    Map::new(
        |a: int| exists|i: int| in_run(runs, i, a),
        |a: int|
            {
                let i = choose|i: int| in_run(runs, i, a);
                runs[i].1[a - runs[i].0]
            },
    )
}

proof fn lemma_in_run(runs: Seq<(int, Seq<u8>)>, i: int, a: int)
    requires
        runs_wf(runs),
        in_run(runs, i, a),
    ensures
        runs_view(runs).contains_key(a),
        runs_view(runs)[a] == runs[i].1[a - runs[i].0],
{
    let c = choose|c: int| in_run(runs, c, a);
    if c < i {
        assert(runs[c].0 + runs[c].1.len() <= runs[i].0);
    } else if i < c {
        assert(runs[i].0 + runs[i].1.len() <= runs[c].0);
    }
}

proof fn lemma_not_in_any_run(runs: Seq<(int, Seq<u8>)>, k: int, a: int)
    requires
        runs_wf(runs),
        0 <= k <= runs.len(),
        k > 0 ==> runs[k - 1].0 + runs[k - 1].1.len() <= a,
        k < runs.len() ==> a < runs[k].0,
    ensures
        !runs_view(runs).contains_key(a),
{
    if runs_view(runs).contains_key(a) {
        let c = choose|c: int| in_run(runs, c, a);
        if c > k {
            assert(runs[k].0 + runs[k].1.len() <= runs[c].0);
        } else if c < k - 1 {
            assert(runs[c].0 + runs[c].1.len() <= runs[k - 1].0);
        }
    }
}

proof fn lemma_insert_run(runs: Seq<(int, Seq<u8>)>, k: int, base: int, data: Seq<u8>)
    requires
        runs_wf(runs),
        0 <= k <= runs.len(),
        data.len() > 0,
        0 <= base,
        base + data.len() <= u64::MAX,
        k > 0 ==> runs[k - 1].0 + runs[k - 1].1.len() <= base,
        k < runs.len() ==> base + data.len() <= runs[k].0,
    ensures
        runs_wf(runs.insert(k, (base, data))),
        runs_view(runs.insert(k, (base, data))) == runs_view(runs).union_prefer_right(
            Map::new(|a: int| base <= a < base + data.len(), |a: int| data[a - base]),
        ),
{
    let after = runs.insert(k, (base, data));
    let added = Map::new(|a: int| base <= a < base + data.len(), |a: int| data[a - base]);
    assert forall|i: int, j: int| 0 <= i < j < after.len() implies (#[trigger] after[i]).0
        + after[i].1.len() <= (#[trigger] after[j]).0 by {
        if j < k {
            assert(runs[i].0 + runs[i].1.len() <= runs[j].0);
        } else if j == k {
            if i < k - 1 {
                assert(runs[i].0 + runs[i].1.len() <= runs[k - 1].0);
            }
        } else if i == k {
            if j - 1 > k {
                assert(runs[k].0 + runs[k].1.len() <= runs[j - 1].0);
            }
        } else if i < k {
            assert(runs[i].0 + runs[i].1.len() <= runs[j - 1].0);
        } else {
            assert(runs[i - 1].0 + runs[i - 1].1.len() <= runs[j - 1].0);
        }
    }
    assert(runs_wf(after));
    let goal = runs_view(runs).union_prefer_right(added);
    assert forall|a: int| runs_view(after).contains_key(a) <==> goal.contains_key(a) by {
        if runs_view(after).contains_key(a) {
            let c = choose|c: int| in_run(after, c, a);
            if c < k {
                assert(in_run(runs, c, a));
            } else if c > k {
                assert(in_run(runs, c - 1, a));
            }
        }
        if runs_view(runs).contains_key(a) {
            let c = choose|c: int| in_run(runs, c, a);
            if c < k {
                assert(in_run(after, c, a));
            } else {
                assert(in_run(after, c + 1, a));
            }
        }
        if added.contains_key(a) {
            assert(in_run(after, k, a));
        }
    }
    assert forall|a: int| runs_view(after).contains_key(a) implies runs_view(after)[a]
        == goal[a] by {
        if added.contains_key(a) {
            assert(in_run(after, k, a));
            lemma_in_run(after, k, a);
        } else {
            assert(goal.contains_key(a));
            assert(runs_view(runs).contains_key(a));
            let c = choose|c: int| in_run(runs, c, a);
            lemma_in_run(runs, c, a);
            if c < k {
                assert(in_run(after, c, a));
                lemma_in_run(after, c, a);
            } else {
                assert(in_run(after, c + 1, a));
                lemma_in_run(after, c + 1, a);
            }
        }
    }
    assert(runs_view(after) =~= goal);
}

proof fn lemma_update_run(runs: Seq<(int, Seq<u8>)>, k: int, off: int, v: u8)
    requires
        runs_wf(runs),
        0 <= k < runs.len(),
        0 <= off < runs[k].1.len(),
    ensures
        runs_wf(runs.update(k, (runs[k].0, runs[k].1.update(off, v)))),
        runs_view(runs.update(k, (runs[k].0, runs[k].1.update(off, v)))) == runs_view(
            runs,
        ).insert(runs[k].0 + off, v),
{
    let after = runs.update(k, (runs[k].0, runs[k].1.update(off, v)));
    assert forall|i: int, j: int| 0 <= i < j < after.len() implies (#[trigger] after[i]).0
        + after[i].1.len() <= (#[trigger] after[j]).0 by {
        assert(runs[i].0 + runs[i].1.len() <= runs[j].0);
    }
    assert forall|i: int| 0 <= i < after.len() implies (#[trigger] after[i]).1.len() > 0 && 0
        <= after[i].0 && after[i].0 + after[i].1.len() <= u64::MAX by {
        assert(runs[i].1.len() > 0);
    }
    let goal = runs_view(runs).insert(runs[k].0 + off, v);
    assert forall|a: int, i: int| in_run(after, i, a) == in_run(runs, i, a) by {}
    assert(in_run(runs, k, runs[k].0 + off));
    assert forall|a: int| runs_view(after).contains_key(a) implies runs_view(after)[a]
        == goal[a] by {
        let c = choose|c: int| in_run(runs, c, a);
        lemma_in_run(runs, c, a);
        assert(in_run(after, c, a));
        lemma_in_run(after, c, a);
    }
    assert(runs_view(after) =~= goal);
}

/// A picture of an address space.
///
/// It holds the readable bytes as runs that do not touch one another's
/// addresses, and the spans on which any read fails for good.
pub struct MemoryImage {
    regions: Vec<Region>,
    faults: Vec<MemoryRange>,
}

impl View for MemoryImage {
    type V = Map<int, u8>;

    /// The readable addresses, each with its byte.
    closed spec fn view(&self) -> Map<int, u8> {
        runs_view(self.runs())
    }
}

impl MemoryImage {
    spec fn runs(&self) -> Seq<(int, Seq<u8>)> {
        Seq::new(
            self.regions.len() as nat,
            |i: int| (self.regions[i].base as int, self.regions[i].data@),
        )
    }

    /// The runs are not empty, end within the address space, and stand in
    /// ascending order without overlap.
    pub closed spec fn wf(&self) -> bool {
        runs_wf(self.runs())
    }

    /// Whether a read that touches address `a` fails for good.
    pub closed spec fn faulty(&self, a: int) -> bool {
        exists|j: int| 0 <= j < self.faults.len() && #[trigger] self.faults[j].contains(a)
    }

    /// Whether some address of `[a, a + n)` is faulty.
    pub open spec fn faulty_in(&self, a: int, n: int) -> bool {
        exists|x: int| a <= x < a + n && self.faulty(x)
    }

    /// Readable addresses fit in 64 bits.
    pub proof fn lemma_view_bounds(&self)
        requires
            self.wf(),
        ensures
            forall|a: int| #[trigger] self@.contains_key(a) ==> 0 <= a < u64::MAX,
    {
        assert forall|a: int| #[trigger] self@.contains_key(a) implies 0 <= a < u64::MAX by {
            let i = choose|i: int| in_run(self.runs(), i, a);
            assert(self.runs()[i].0 + self.runs()[i].1.len() <= u64::MAX);
        }
    }

    /// An image in which nothing is readable and nothing is faulty.
    pub fn new() -> (r: Self)
        ensures
            r.wf(),
            r@ == Map::<int, u8>::empty(),
            forall|a: int| !r.faulty(a),
    {
        let r = MemoryImage { regions: Vec::new(), faults: Vec::new() };
        assert(r@ =~= Map::<int, u8>::empty());
        r
    }

    /// The number of runs that start at or below `a`.
    fn runs_from_below(&self, a: u64) -> (k: usize)
        requires
            self.wf(),
        ensures
            k <= self.regions.len(),
            forall|j: int| 0 <= j < k ==> self.regions[j].base <= a,
            forall|j: int| k <= j < self.regions.len() ==> self.regions[j].base > a,
    {
        let mut lo: usize = 0;
        let mut hi: usize = self.regions.len();
        while lo < hi
            invariant
                self.wf(),
                lo <= hi <= self.regions.len(),
                forall|j: int| 0 <= j < lo ==> self.regions[j].base <= a,
                forall|j: int| hi <= j < self.regions.len() ==> self.regions[j].base > a,
            decreases hi - lo,
        {
            let mid: usize = lo + (hi - lo) / 2;
            if self.regions[mid].base <= a {
                assert forall|j: int| 0 <= j < mid + 1 implies self.regions[j].base <= a by {
                    if j < mid {
                        assert(self.runs()[j].0 + self.runs()[j].1.len() <= self.runs()[mid as int].0);
                    }
                }
                lo = mid + 1;
            } else {
                assert forall|j: int| mid <= j < self.regions.len() implies self.regions[j].base
                    > a by {
                    if j > mid {
                        assert(self.runs()[mid as int].0 + self.runs()[mid as int].1.len()
                            <= self.runs()[j].0);
                    }
                }
                hi = mid;
            }
        }
        lo
    }

    /// One past the last address of run `k`.
    fn run_end(&self, k: usize) -> (e: u64)
        requires
            self.wf(),
            k < self.regions.len(),
        ensures
            e == self.runs()[k as int].0 + self.runs()[k as int].1.len(),
    {
        assert(self.runs()[k as int].0 + self.runs()[k as int].1.len() <= u64::MAX);
        self.regions[k].base + self.regions[k].data.len() as u64
    }

    /// The lowest readable address that is not below `addr`, if there is
    /// one.
    pub fn next_readable(&self, addr: u64) -> (r: Option<u64>)
        requires
            self.wf(),
        ensures
            match r {
                Some(x) => addr <= x && self@.contains_key(x as int) && forall|y: int|
                    addr <= y < x ==> !self@.contains_key(y),
                None => forall|y: int| addr <= y ==> !self@.contains_key(y),
            },
    {
        let k = self.runs_from_below(addr);
        if k > 0 && self.run_end(k - 1) > addr {
            proof {
                assert(in_run(self.runs(), k - 1, addr as int));
                lemma_in_run(self.runs(), k - 1, addr as int);
            }
            return Some(addr);
        }
        if k < self.regions.len() {
            let x: u64 = self.regions[k].base;
            proof {
                assert(self.runs()[k as int].1.len() > 0);
                assert(in_run(self.runs(), k as int, x as int));
                lemma_in_run(self.runs(), k as int, x as int);
                assert forall|y: int| addr <= y < x implies !self@.contains_key(y) by {
                    lemma_not_in_any_run(self.runs(), k as int, y);
                }
            }
            return Some(x);
        }
        proof {
            assert forall|y: int| addr <= y implies !self@.contains_key(y) by {
                lemma_not_in_any_run(self.runs(), k as int, y);
            }
        }
        None
    }

    /// Adds the run of bytes `data` at `base`.
    ///
    /// The run is refused, and the image left as it was, when it is empty,
    /// would reach past the last address, or touches an address that is
    /// readable already.
    pub fn map_region(&mut self, base: u64, data: Vec<u8>) -> (r: Result<(), Error>)
        requires
            old(self).wf(),
        ensures
            final(self).wf(),
            forall|a: int| final(self).faulty(a) == old(self).faulty(a),
            r is Ok <==> data.len() > 0 && base + data.len() <= u64::MAX && forall|a: int|
                base <= a < base + data.len() ==> !old(self)@.contains_key(a),
            r is Ok ==> final(self)@ == old(self)@.union_prefer_right(
                Map::new(|a: int| base <= a < base + data.len(), |a: int| data[a - base]),
            ),
            r is Err ==> r == Err::<(), Error>(Error::InvalidArgument) && final(self)@ == old(
                self,
            )@,
    {
        let n = data.len();
        if n == 0 || n as u64 > u64::MAX - base {
            return Err(Error::InvalidArgument);
        }
        let k = self.runs_from_below(base);
        if k > 0 {
            let prev = &self.regions[k - 1];
            assert(self.runs()[k - 1].0 + self.runs()[k - 1].1.len() <= u64::MAX);
            if prev.base + prev.data.len() as u64 > base {
                proof {
                    assert(in_run(self.runs(), k - 1, base as int));
                    lemma_in_run(self.runs(), k - 1, base as int);
                    assert(self@.contains_key(base as int));
                }
                return Err(Error::InvalidArgument);
            }
        }
        if k < self.regions.len() {
            let next = &self.regions[k];
            if next.base - base < n as u64 {
                proof {
                    assert(self.runs()[k as int].1.len() > 0);
                    assert(in_run(self.runs(), k as int, next.base as int));
                    lemma_in_run(self.runs(), k as int, next.base as int);
                    assert(self@.contains_key(next.base as int));
                }
                return Err(Error::InvalidArgument);
            }
        }
        proof {
            assert forall|a: int| base <= a < base + n implies !self@.contains_key(a) by {
                lemma_not_in_any_run(self.runs(), k as int, a);
            }
            lemma_insert_run(self.runs(), k as int, base as int, data@);
        }
        let ghost before = *self;
        self.regions.insert(k, Region { base, data });
        proof {
            assert(self.faults == before.faults);
            assert(self.runs() =~= before.runs().insert(k as int, (base as int, data@)));
        }
        Ok(())
    }

    /// Declares that every read which touches `range` fails for good.
    pub fn mark_faulty(&mut self, range: MemoryRange)
        requires
            old(self).wf(),
        ensures
            final(self).wf(),
            final(self)@ == old(self)@,
            forall|a: int| final(self).faulty(a) == (old(self).faulty(a) || range.contains(a)),
    {
        let ghost before = *self;
        self.faults.push(range);
        proof {
            assert(self.regions == before.regions);
            assert(self.runs() =~= before.runs());
            assert forall|a: int| self.faulty(a) == (before.faulty(a) || range.contains(a)) by {
                if before.faulty(a) {
                    let j = choose|j: int|
                        0 <= j < before.faults.len() && #[trigger] before.faults[j].contains(a);
                    assert(self.faults[j].contains(a));
                }
                if range.contains(a) {
                    assert(self.faults[before.faults.len() as int].contains(a));
                }
            }
        }
    }

    /// Whether one of the `len` addresses from `addr` on is faulty.
    fn fault_within(&self, addr: u64, len: u128) -> (r: bool)
        ensures
            r == self.faulty_in(addr as int, len as int),
    {
        let mut j: usize = 0;
        while j < self.faults.len()
            invariant
                j <= self.faults.len(),
                forall|i: int, x: int|
                    0 <= i < j && addr <= x < addr + len ==> !#[trigger] self.faults[i].contains(
                        x,
                    ),
            decreases self.faults.len() - j,
        {
            let f = &self.faults[j];
            // Two spans meet when each starts below the other's end.
            if f.size > 0 && len > 0 && len - 1 >= (f.base as u128).saturating_sub(addr as u128)
                && (addr as u128) < f.base as u128 + f.size as u128 {
                proof {
                    let x: int = if f.base >= addr {
                        f.base as int
                    } else {
                        addr as int
                    };
                    assert(self.faults[j as int].contains(x));
                    assert(self.faulty(x));
                }
                return true;
            }
            j += 1;
        }
        proof {
            if self.faulty_in(addr as int, len as int) {
                let x = choose|x: int| addr <= x < addr + len && self.faulty(x);
                let i = choose|i: int|
                    0 <= i < self.faults.len() && #[trigger] self.faults[i].contains(x);
                assert(false);
            }
        }
        false
    }

    /// Whether a read of `len` bytes at `addr` touches a faulty address.
    pub fn fault_hits(&self, addr: u64, len: u64) -> (r: bool)
        ensures
            r == self.faulty_in(addr as int, len as int),
    {
        self.fault_within(addr, len as u128)
    }

    /// Whether a faulty address lies in `span` or among the `n - 1`
    /// addresses behind it: where a sweep of the span for windows of `n`
    /// bytes reads.
    pub fn fault_in_extent(&self, span: MemoryRange, n: usize) -> (r: bool)
        requires
            n >= 1,
        ensures
            r == self.faulty_in(span.base as int, span.size + n - 1),
    {
        self.fault_within(span.base, span.size as u128 + (n - 1) as u128)
    }
}

impl MemoryImage {
    /// Reads from `addr` on into `buf`, as far as the bytes are readable.
    ///
    /// The result is the number of bytes read: the whole of `buf`, or less
    /// where an address that is not readable stands in the way. What lies
    /// behind that address is not looked at, and the rest of `buf` is left
    /// as it was. A read that touches a faulty address reads nothing.
    pub fn read_raw_into(&self, addr: u64, buf: &mut Vec<u8>) -> (r: Result<usize, Error>)
        requires
            self.wf(),
        ensures
            final(buf).len() == old(buf).len(),
            r is Err <==> self.faulty_in(addr as int, old(buf).len() as int),
            match r {
                Ok(n) => {
                    &&& n == readable_prefix(self@, addr as int, old(buf).len() as nat)
                    &&& forall|i: int| 0 <= i < n ==> final(buf)[i] == self@[addr + i]
                    &&& forall|i: int| n <= i < old(buf).len() ==> final(buf)[i] == old(buf)[i]
                },
                Err(e) => e == Error::MemoryFatal && final(buf)@ == old(buf)@,
            },
    {
        let len = buf.len();
        self.read_prefix(addr, buf, len)
    }

    /// Reads up to `len` bytes from `addr` on into the front of `buf`, as
    /// far as the bytes are readable. The result is the number of bytes
    /// read; the rest of `buf` is left as it was. A read that touches a
    /// faulty address reads nothing.
    pub fn read_prefix(&self, addr: u64, buf: &mut Vec<u8>, len: usize) -> (r: Result<usize, Error>)
        requires
            self.wf(),
            len <= old(buf).len(),
        ensures
            final(buf).len() == old(buf).len(),
            r is Err <==> self.faulty_in(addr as int, len as int),
            match r {
                Ok(n) => {
                    &&& n == readable_prefix(self@, addr as int, len as nat)
                    &&& forall|i: int| 0 <= i < n ==> final(buf)[i] == self@[addr + i]
                    &&& forall|i: int| n <= i < old(buf).len() ==> final(buf)[i] == old(buf)[i]
                },
                Err(e) => e == Error::MemoryFatal && final(buf)@ == old(buf)@,
            },
    {
        let held: usize = buf.len();
        if self.fault_hits(addr, len as u64) {
            return Err(Error::MemoryFatal);
        }
        let ghost before = buf@;
        let mut n: usize = 0;
        let mut k: usize = self.runs_from_below(addr);
        if k > 0 {
            k = k - 1;
        }
        proof {
            if k > 0 {
                assert(self.runs()[k - 1].0 + self.runs()[k - 1].1.len() <= self.runs()[k as int].0);
            }
        }
        while n < len
            invariant
                self.wf(),
                buf.len() == held,
                before.len() == held,
                len <= held,
                n <= len,
                k <= self.regions.len(),
                readable(self@, addr as int, n as int),
                forall|i: int| 0 <= i < n ==> buf[i] == self@[addr + i],
                forall|i: int| n <= i < held ==> buf[i] == before[i],
                k > 0 ==> self.runs()[k - 1].0 + self.runs()[k - 1].1.len() <= addr + n,
            ensures
                n < len ==> !self@.contains_key(addr + n),
            decreases len - n,
        {
            if n as u64 > u64::MAX - addr {
                proof {
                    self.lemma_view_bounds();
                }
                break ;
            }
            let a: u64 = addr + n as u64;
            while k < self.regions.len() && self.run_end(k) <= a
                invariant
                    self.wf(),
                    k <= self.regions.len(),
                    k > 0 ==> self.runs()[k - 1].0 + self.runs()[k - 1].1.len() <= a,
                decreases self.regions.len() - k,
            {
                k += 1;
            }
            if k == self.regions.len() || self.regions[k].base > a {
                proof {
                    lemma_not_in_any_run(self.runs(), k as int, a as int);
                }
                break ;
            }
            let run = &self.regions[k];
            let off: usize = (a - run.base) as usize;
            let avail: usize = run.data.len() - off;
            let want: usize = len - n;
            let c: usize = if avail < want {
                avail
            } else {
                want
            };
            let mut j: usize = 0;
            while j < c
                invariant
                    buf.len() == held,
                    len <= held,
                    j <= c,
                    n + c <= len,
                    off + c <= run.data.len(),
                    forall|i: int| 0 <= i < n ==> buf[i] == self@[addr + i],
                    forall|i: int| n <= i < n + j ==> buf[i] == run.data[off + (i - n)],
                    forall|i: int| n + j <= i < held ==> buf[i] == before[i],
                decreases c - j,
            {
                buf.set(n + j, run.data[off + j]);
                j += 1;
            }
            proof {
                assert forall|x: int| addr <= x < addr + n + c implies self@.contains_key(x) by {
                    if x >= addr + n {
                        assert(in_run(self.runs(), k as int, x));
                        lemma_in_run(self.runs(), k as int, x);
                    }
                }
                assert forall|i: int| 0 <= i < n + c implies buf[i] == self@[addr + i] by {
                    if i >= n {
                        assert(in_run(self.runs(), k as int, addr + i));
                        lemma_in_run(self.runs(), k as int, addr + i);
                    }
                }
            }
            n += c;
        }
        proof {
            lemma_readable_prefix(self@, addr as int, len as nat, n as nat);
        }
        Ok(n)
    }

    /// Writes `data` at `addr`, on addresses that are all readable.
    ///
    /// The write succeeds when it touches no faulty address and every
    /// address that it touches is readable. Nothing is written when it
    /// fails.
    pub fn write_raw(&mut self, addr: u64, data: &[u8]) -> (r: Result<(), Error>)
        requires
            old(self).wf(),
        ensures
            final(self).wf(),
            forall|a: int| final(self).faulty(a) == old(self).faulty(a),
            r is Ok <==> !old(self).faulty_in(addr as int, data.len() as int) && readable(
                old(self)@,
                addr as int,
                data.len() as int,
            ),
            r == Err::<(), Error>(Error::MemoryFatal) <==> old(self).faulty_in(
                addr as int,
                data.len() as int,
            ),
            r == Err::<(), Error>(Error::MemoryData) <==> !old(self).faulty_in(
                addr as int,
                data.len() as int,
            ) && !readable(old(self)@, addr as int, data.len() as int),
            r is Err ==> final(self)@ == old(self)@,
            r is Ok ==> final(self)@ == Map::new(
                |a: int| old(self)@.contains_key(a),
                |a: int|
                    if addr <= a < addr + data.len() {
                        data[a - addr]
                    } else {
                        old(self)@[a]
                    },
            ),
    {
        let len = data.len();
        if self.fault_hits(addr, len as u64) {
            return Err(Error::MemoryFatal);
        }
        let ghost before = *self;
        let mut n: usize = 0;
        let mut k: usize = self.runs_from_below(addr);
        if k > 0 {
            k = k - 1;
        }
        proof {
            if k > 0 {
                assert(self.runs()[k - 1].0 + self.runs()[k - 1].1.len() <= self.runs()[k as int].0);
            }
        }
        // First pass: nothing may be written unless all of it can be.
        while n < len
            invariant
                self.wf(),
                n <= len,
                k <= self.regions.len(),
                readable(self@, addr as int, n as int),
                k > 0 ==> self.runs()[k - 1].0 + self.runs()[k - 1].1.len() <= addr + n,
            ensures
                n < len ==> !self@.contains_key(addr + n),
            decreases len - n,
        {
            if n as u64 > u64::MAX - addr {
                proof {
                    self.lemma_view_bounds();
                }
                break ;
            }
            let a: u64 = addr + n as u64;
            while k < self.regions.len() && self.run_end(k) <= a
                invariant
                    self.wf(),
                    k <= self.regions.len(),
                    k > 0 ==> self.runs()[k - 1].0 + self.runs()[k - 1].1.len() <= a,
                decreases self.regions.len() - k,
            {
                k += 1;
            }
            if k == self.regions.len() || self.regions[k].base > a {
                proof {
                    lemma_not_in_any_run(self.runs(), k as int, a as int);
                }
                break ;
            }
            let run = &self.regions[k];
            let avail: usize = run.data.len() - (a - run.base) as usize;
            let want: usize = len - n;
            let c: usize = if avail < want {
                avail
            } else {
                want
            };
            proof {
                assert forall|x: int| addr <= x < addr + n + c implies self@.contains_key(x) by {
                    if x >= addr + n {
                        assert(in_run(self.runs(), k as int, x));
                        lemma_in_run(self.runs(), k as int, x);
                    }
                }
            }
            n += c;
        }
        if n < len {
            return Err(Error::MemoryData);
        }
        proof {
            self.lemma_view_bounds();
            if len > 0 {
                assert(self@.contains_key(addr + len - 1));
            }
        }
        // Second pass: every address is in a run.
        let mut n: usize = 0;
        let mut k: usize = 0;
        while n < len
            invariant
                self.wf(),
                before.wf(),
                self.faults == before.faults,
                len == data.len(),
                n <= len,
                k <= self.regions.len(),
                addr + len <= u64::MAX,
                readable(before@, addr as int, len as int),
                k > 0 ==> self.runs()[k - 1].0 + self.runs()[k - 1].1.len() <= addr + n,
                self@ == Map::new(
                    |a: int| before@.contains_key(a),
                    |a: int|
                        if addr <= a < addr + n {
                            data[a - addr]
                        } else {
                            before@[a]
                        },
                ),
            decreases len - n,
        {
            let a: u64 = addr + n as u64;
            assert(self@.contains_key(a as int)) by {
                assert(before@.contains_key(a as int));
            }
            while k < self.regions.len() && self.run_end(k) <= a
                invariant
                    self.wf(),
                    k <= self.regions.len(),
                    k > 0 ==> self.runs()[k - 1].0 + self.runs()[k - 1].1.len() <= a,
                decreases self.regions.len() - k,
            {
                k += 1;
            }
            proof {
                if k == self.regions.len() || self.regions[k as int].base > a {
                    lemma_not_in_any_run(self.runs(), k as int, a as int);
                }
                assert(k < self.regions.len());
                assert(self.runs()[k as int].0 <= a < self.runs()[k as int].0 + self.runs()[k as int].1.len());
            }
            assert(self.runs()[k as int].1.len() == self.regions[k as int].data.len());
            let off: usize = (a - self.regions[k].base) as usize;
            let ghost mid = *self;
            proof {
                lemma_update_run(self.runs(), k as int, off as int, data[n as int]);
            }
            self.regions[k].data.set(off, data[n]);
            proof {
                assert(self.runs() =~= mid.runs().update(
                    k as int,
                    (mid.runs()[k as int].0, mid.runs()[k as int].1.update(off as int, data[n as int])),
                ));
                assert(mid.runs()[k as int].0 + off == a);
                assert(self@ == mid@.insert(a as int, data[n as int]));
                assert(mid@.contains_key(a as int));
                assert(self@ =~= Map::new(
                    |a: int| before@.contains_key(a),
                    |a: int|
                        if addr <= a < addr + n + 1 {
                            data[a - addr]
                        } else {
                            before@[a]
                        },
                ));
            }
            n += 1;
        }
        Ok(())
    }
}

impl MemoryImage {
    /// The readable spans between `from` and `to`, with holes of at most
    /// `gap` addresses bridged.
    pub fn mapped_mem_range_vec(&self, gap: u64, from: u64, to: u64) -> (r: Vec<MemoryRange>)
        requires
            self.wf(),
        ensures
            coalesced(self@, r@, gap as int, from as int, to as int),
            r@ == mapped_spans(self@, gap as int, from as int, to as int),
    {
        let mut out: Vec<MemoryRange> = Vec::new();
        let mut open: bool = false;
        let mut cur_base: u64 = 0;
        let mut cur_end: u64 = 0;
        let mut i: usize = 0;
        while i < self.regions.len()
            invariant
                self.wf(),
                i <= self.regions.len(),
                spans_apart(out@, gap as int),
                forall|q: int|
                    0 <= q < out.len() ==> from <= (#[trigger] out[q]).base && out[q].end() <= to,
                forall|q: int|
                    0 <= q < out.len() ==> self@.contains_key((#[trigger] out[q]).base as int)
                        && self@.contains_key(out[q].end() - 1),
                forall|q: int, a: int|
                    0 <= q < out.len() && (#[trigger] out[q]).contains(a) ==> #[trigger] readable_near(
                        self@,
                        a,
                        gap as int,
                        out[q].end(),
                    ),
                out.len() > 0 ==> open,
                open ==> from <= cur_base < cur_end <= to,
                open ==> self@.contains_key(cur_base as int) && self@.contains_key(cur_end - 1),
                open ==> forall|a: int|
                    cur_base <= a < cur_end ==> #[trigger] readable_near(
                        self@,
                        a,
                        gap as int,
                        cur_end as int,
                    ),
                open ==> forall|q: int|
                    0 <= q < out.len() ==> (#[trigger] out[q]).end() + gap < cur_base,
                open ==> i > 0 && cur_end <= self.runs()[i - 1].0 + self.runs()[i - 1].1.len(),
                forall|a: int, j: int|
                    from <= a < to && 0 <= j < i && #[trigger] in_run(self.runs(), j, a) ==> in_spans(
                        out@,
                        a,
                    ) || (open && cur_base <= a < cur_end),
            decreases self.regions.len() - i,
        {
            let rb: u64 = self.regions[i].base;
            let re: u64 = self.run_end(i);
            let b: u64 = if rb < from {
                from
            } else {
                rb
            };
            let e: u64 = if re > to {
                to
            } else {
                re
            };
            proof {
                assert(self.runs()[i as int].1.len() > 0);
                if i > 0 {
                    assert(self.runs()[i - 1].0 + self.runs()[i - 1].1.len() <= self.runs()[i as int].0);
                }
            }
            if b < e {
                proof {
                    assert(in_run(self.runs(), i as int, b as int));
                    lemma_in_run(self.runs(), i as int, b as int);
                    assert(in_run(self.runs(), i as int, e - 1));
                    lemma_in_run(self.runs(), i as int, e - 1);
                    assert forall|a: int| b <= a < e implies self@.contains_key(a) by {
                        assert(in_run(self.runs(), i as int, a));
                        lemma_in_run(self.runs(), i as int, a);
                    }
                }
                if open && b - cur_end <= gap {
                    proof {
                        assert forall|a: int| cur_base <= a < e implies #[trigger] readable_near(
                            self@,
                            a,
                            gap as int,
                            e as int,
                        ) by {
                            if a < cur_end {
                                assert(readable_near(self@, a, gap as int, cur_end as int));
                                let x = choose|x: int|
                                    a <= x <= a + gap && x < cur_end && #[trigger] self@.contains_key(
                                        x,
                                    );
                                assert(a <= x <= a + gap && x < e && self@.contains_key(x));
                            } else if a < b {
                                assert(a <= b <= a + gap && b < e && self@.contains_key(b as int));
                            } else {
                                assert(a <= a <= a + gap && a < e && self@.contains_key(a));
                            }
                        }
                    }
                    cur_end = e;
                } else {
                    if open {
                        let ghost prev = out@;
                        out.push(MemoryRange { base: cur_base, size: cur_end - cur_base });
                        proof {
                            let last = prev.len() as int;
                            assert(out[last].end() == cur_end);
                            assert forall|a: int| in_spans(prev, a) implies in_spans(out@, a) by {
                                let q = choose|q: int|
                                    0 <= q < prev.len() && (#[trigger] prev[q]).contains(a);
                                assert(out[q].contains(a));
                            }
                            assert forall|a: int| cur_base <= a < cur_end implies in_spans(
                                out@,
                                a,
                            ) by {
                                assert(out[last].contains(a));
                            }
                            assert forall|q: int, j: int| 0 <= q < j < out.len() implies (
                            #[trigger] out[q]).base + out[q].size + gap < (#[trigger] out[j]).base by {
                                if j == last {
                                    assert(prev[q].end() + gap < cur_base);
                                }
                            }
                        }
                    }
                    proof {
                        assert forall|a: int| b <= a < e implies #[trigger] readable_near(
                            self@,
                            a,
                            gap as int,
                            e as int,
                        ) by {
                            assert(a <= a <= a + gap && a < e && self@.contains_key(a));
                        }
                    }
                    cur_base = b;
                    cur_end = e;
                    open = true;
                }
            }
            proof {
                assert forall|a: int, j: int|
                    from <= a < to && 0 <= j < i + 1 && #[trigger] in_run(
                        self.runs(),
                        j,
                        a,
                    ) implies in_spans(out@, a) || (open && cur_base <= a < cur_end) by {
                    if j == i {
                        assert(b <= a < e);
                    }
                }
            }
            i += 1;
        }
        if open {
            let ghost prev = out@;
            out.push(MemoryRange { base: cur_base, size: cur_end - cur_base });
            proof {
                let last = prev.len() as int;
                assert(out[last].end() == cur_end);
                assert forall|a: int| in_spans(prev, a) implies in_spans(out@, a) by {
                    let q = choose|q: int| 0 <= q < prev.len() && (#[trigger] prev[q]).contains(a);
                    assert(out[q].contains(a));
                }
                assert forall|a: int| cur_base <= a < cur_end implies in_spans(out@, a) by {
                    assert(out[last].contains(a));
                }
                assert forall|q: int, j: int| 0 <= q < j < out.len() implies (#[trigger] out[q]).base
                    + out[q].size + gap < (#[trigger] out[j]).base by {
                    if j == last {
                        assert(prev[q].end() + gap < cur_base);
                    }
                }
            }
        }
        proof {
            assert forall|a: int| from <= a < to && #[trigger] self@.contains_key(a) implies in_spans(
                out@,
                a,
            ) by {
                let j = choose|j: int| in_run(self.runs(), j, a);
                assert(in_run(self.runs(), j, a));
            }
            assert(coalesced(self@, out@, gap as int, from as int, to as int)) by {
                reveal(coalesced);
            }
            lemma_coalesced_unique(
                self@,
                out@,
                mapped_spans(self@, gap as int, from as int, to as int),
                gap as int,
                from as int,
                to as int,
            );
        }
        out
    }
}

} // verus!
