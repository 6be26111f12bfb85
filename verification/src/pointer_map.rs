//! The pointers of an address space: every word that holds an address of
//! the space, as an edge from where it stands to where it points, and the
//! chains of such edges that lead from an entry point to a target.

use crate::error::Error;
use crate::links::{lemma_edge_map, LinkMap, Links};
use crate::memory::{bytes_at, in_spans, lemma_coalesced_ascending};
use crate::memory::{readable, spans_apart, MemoryImage, MemoryRange};
use crate::sweep::{block_end, extent_faulty, read_block, scan_map};
use crate::order::{lemma_ascending_sorted, sorted};
use crate::sweep::{sweep_faulty, ADDRESS_LIMIT, MAP_GAP, STRIDE};
use crate::walk::{all_chains, chains_of, find_chains};
use std::collections::BTreeMap;
use vstd::prelude::*;

verus! {

/// The number that the bytes `s` spell, the first byte the lowest.
pub open spec fn le_value(s: Seq<u8>) -> int
    decreases s.len(),
{
    if s.len() == 0 {
        0
    } else {
        s[0] as int + 256 * le_value(s.drop_first())
    }
}

/// 256 to the power of `n`.
pub open spec fn pow256(n: nat) -> int
    decreases n,
{
    if n == 0 {
        1
    } else {
        256 * pow256((n - 1) as nat)
    }
}

/// A number of `n` bytes is below 256 to the power of `n`.
pub proof fn lemma_le_value_bound(s: Seq<u8>)
    ensures
        0 <= le_value(s) < pow256(s.len()),
    decreases s.len(),
{
    if s.len() > 0 {
        lemma_le_value_bound(s.drop_first());
    }
}

/// The word of `n` bytes that stands at address `a`.
pub open spec fn word_at(m: Map<int, u8>, a: int, n: int) -> int {
    le_value(bytes_at(m, a, n))
}

/// A sweep of `span` finds a pointer of `n` bytes at `a`: the address lies
/// in the span, the word there can be read, and it is an address within
/// `spans`.
pub open spec fn is_pointer_in(
    m: Map<int, u8>,
    spans: Seq<MemoryRange>,
    span: MemoryRange,
    n: int,
    a: int,
) -> bool {
    span.contains(a) && readable(m, a, n) && in_spans(spans, word_at(m, a, n))
}

/// A sweep of `spans` finds a pointer of `n` bytes at `a`.
pub open spec fn is_pointer(m: Map<int, u8>, spans: Seq<MemoryRange>, n: int, a: int) -> bool {
    exists|i: int| 0 <= i < spans.len() && is_pointer_in(m, spans, #[trigger] spans[i], n, a)
}

/// The word of `n` bytes at offset `o` of `buf`.
pub fn le_u64(buf: &[u8], o: usize, n: usize) -> (v: u64)
    requires
        n <= 8,
        o + n <= buf.len(),
    ensures
        v == le_value(buf@.subrange(o as int, o + n)),
{
    let mut acc: u64 = 0;
    let mut j: usize = n;
    proof {
        assert(buf@.subrange(o + n, o + n).len() == 0);
    }
    while j > 0
        invariant
            n <= 8,
            o + n <= buf.len(),
            j <= n,
            acc == le_value(buf@.subrange(o + j, o + n)),
        decreases j,
    {
        proof {
            let rest = buf@.subrange(o + j, o + n);
            let all = buf@.subrange(o + j - 1, o + n);
            assert(all.drop_first() =~= rest);
            lemma_le_value_bound(rest);
            reveal_with_fuel(pow256, 9);
        }
        j -= 1;
        acc = acc * 256 + buf[o + j] as u64;
    }
    acc
}

/// Whether `a` lies in one of `spans`.
pub fn in_any_span(spans: &[MemoryRange], a: u64) -> (r: bool)
    requires
        spans_apart(spans@, 0),
    ensures
        r == in_spans(spans@, a as int),
{
    let mut lo: usize = 0;
    let mut hi: usize = spans.len();
    while lo < hi
        invariant
            spans_apart(spans@, 0),
            lo <= hi <= spans.len(),
            forall|j: int| 0 <= j < lo ==> (#[trigger] spans[j]).base <= a,
            forall|j: int| hi <= j < spans.len() ==> (#[trigger] spans[j]).base > a,
        decreases hi - lo,
    {
        let mid: usize = lo + (hi - lo) / 2;
        if spans[mid].base <= a {
            assert forall|j: int| 0 <= j < mid + 1 implies (#[trigger] spans[j]).base <= a by {
                if j < mid {
                    assert(spans[j].base + spans[j].size + 0 < spans[mid as int].base);
                }
            }
            lo = mid + 1;
        } else {
            assert forall|j: int| mid <= j < spans.len() implies (#[trigger] spans[j]).base > a by {
                if j > mid {
                    assert(spans[mid as int].base + spans[mid as int].size + 0 < spans[j].base);
                }
            }
            hi = mid;
        }
    }
    if lo == 0 {
        proof {
            if in_spans(spans@, a as int) {
                let i = choose|i: int| 0 <= i < spans.len() && (#[trigger] spans[i]).contains(a as int);
                assert(spans[i].base > a);
            }
        }
        return false;
    }
    let s = &spans[lo - 1];
    let r = a - s.base < s.size;
    proof {
        if r {
            assert(spans[lo - 1].contains(a as int));
        }
        if in_spans(spans@, a as int) {
            let i = choose|i: int| 0 <= i < spans.len() && (#[trigger] spans[i]).contains(a as int);
            if i < lo - 1 {
                assert(spans[i].base + spans[i].size + 0 < spans[lo - 1].base);
            } else if i >= lo {
                assert(spans[i].base > a);
            }
        }
    }
    r
}

/// Some edge of `es` from index `lo` on starts at `a`.
pub open spec fn has_key_from(es: Seq<(u64, u64)>, lo: int, a: u64) -> bool {
    exists|q: int| lo <= q < es.len() && (#[trigger] es[q]).0 == a
}

/// Appends to `out`, in ascending order of `o`, an edge from `start + o` to
/// the word of `n` bytes at offset `o` of `buf`, for every offset below
/// `limit` whose word lies within the first `got` bytes and is an address
/// within `spans`.
pub fn pointers_in_window(
    start: u64,
    buf: &[u8],
    got: usize,
    limit: usize,
    n: usize,
    spans: &[MemoryRange],
    out: &mut Vec<(u64, u64)>,
)
    requires
        got <= buf.len(),
        start + limit <= u64::MAX,
        1 <= n <= 8,
        spans_apart(spans@, 0),
    ensures
        final(out).len() >= old(out).len(),
        forall|q: int| 0 <= q < old(out).len() ==> final(out)[q] == old(out)[q],
        forall|q: int|
            old(out).len() <= q < final(out).len() ==> {
                let o = (#[trigger] final(out)[q]).0 - start;
                &&& 0 <= o < limit
                &&& o + n <= got
                &&& final(out)[q].1 == le_value(buf@.subrange(o, o + n))
                &&& in_spans(spans@, final(out)[q].1 as int)
            },
        forall|p: int, q: int|
            old(out).len() <= p < q < final(out).len() ==> (#[trigger] final(out)[p]).0 < (
            #[trigger] final(out)[q]).0,
        forall|o: int|
            0 <= o < limit && o + n <= got && in_spans(
                spans@,
                le_value(buf@.subrange(o, o + n)),
            ) ==> has_key_from(final(out)@, old(out).len() as int, #[trigger] ((start + o) as u64)),
{
    let ghost before = out@;
    if n > got {
        return ;
    }
    let last: usize = got - n;
    let mut o: usize = 0;
    while o < limit && o <= last
        invariant
            got <= buf.len(),
            last == got - n,
            1 <= n <= 8,
            start + limit <= u64::MAX,
            spans_apart(spans@, 0),
            o <= limit,
            out.len() >= before.len(),
            forall|q: int| 0 <= q < before.len() ==> out[q] == before[q],
            forall|q: int|
                before.len() <= q < out.len() ==> {
                    let x = (#[trigger] out[q]).0 - start;
                    &&& 0 <= x < o
                    &&& x + n <= got
                    &&& out[q].1 == le_value(buf@.subrange(x, x + n))
                    &&& in_spans(spans@, out[q].1 as int)
                },
            forall|p: int, q: int|
                before.len() <= p < q < out.len() ==> (#[trigger] out[p]).0 < (#[trigger] out[q]).0,
            forall|x: int|
                0 <= x < o && x + n <= got && in_spans(spans@, le_value(buf@.subrange(x, x + n)))
                    ==> has_key_from(out@, before.len() as int, #[trigger] ((start + x) as u64)),
        decreases limit - o,
    {
        let v = le_u64(buf, o, n);
        let ghost prev = out@;
        if in_any_span(spans, v) {
            out.push((start + o as u64, v));
            proof {
                assert forall|x: int|
                    0 <= x < o + 1 && x + n <= got && in_spans(
                        spans@,
                        le_value(buf@.subrange(x, x + n)),
                    ) implies has_key_from(
                    out@,
                    before.len() as int,
                    #[trigger] ((start + x) as u64),
                ) by {
                    if x < o {
                        assert(has_key_from(prev, before.len() as int, (start + x) as u64));
                        let q = choose|q: int|
                            before.len() <= q < prev.len() && (#[trigger] prev[q]).0 == (start
                                + x) as u64;
                        assert(out[q] == prev[q]);
                    } else {
                        assert(out[prev.len() as int].0 == (start + x) as u64);
                    }
                }
            }
        } else {
            proof {
                assert forall|x: int|
                    0 <= x < o + 1 && x + n <= got && in_spans(
                        spans@,
                        le_value(buf@.subrange(x, x + n)),
                    ) implies has_key_from(
                    out@,
                    before.len() as int,
                    #[trigger] ((start + x) as u64),
                ) by {}
            }
        }
        o += 1;
    }
}

/// Edge `e` is a pointer that a sweep of `span` finds.
pub open spec fn edge_in(
    m: Map<int, u8>,
    spans: Seq<MemoryRange>,
    span: MemoryRange,
    n: int,
    e: (u64, u64),
) -> bool {
    is_pointer_in(m, spans, span, n, e.0 as int) && e.1 == word_at(m, e.0 as int, n)
}

/// Sweeps one span for pointers: appends to `out`, in ascending order of the
/// address at which it stands, every pointer that the sweep finds. `buf` is
/// the room for one read.
fn link_span(
    mem: &MemoryImage,
    spans: &Vec<MemoryRange>,
    span: MemoryRange,
    n: usize,
    buf: &mut Vec<u8>,
    out: &mut Vec<(u64, u64)>,
) -> (r: Result<(), Error>)
    requires
        mem.wf(),
        spans_apart(spans@, 0),
        span.base + span.size <= u64::MAX,
        1 <= n <= 8,
        old(buf).len() == STRIDE + n - 1,
    ensures
        final(buf).len() == old(buf).len(),
        r is Err <==> extent_faulty(mem, span, n as int),
        r matches Err(e) ==> e == Error::MemoryFatal && final(out)@ == old(out)@,
        r is Ok ==> {
            &&& final(out).len() >= old(out).len()
            &&& forall|q: int| 0 <= q < old(out).len() ==> final(out)[q] == old(out)[q]
            &&& forall|q: int|
                old(out).len() <= q < final(out).len() ==> edge_in(
                    mem@,
                    spans@,
                    span,
                    n as int,
                    #[trigger] final(out)[q],
                )
            &&& forall|p: int, q: int|
                old(out).len() <= p < q < final(out).len() ==> (#[trigger] final(out)[p]).0 < (
                #[trigger] final(out)[q]).0
            &&& forall|a: u64|
                is_pointer_in(mem@, spans@, span, n as int, a as int) ==> has_key_from(
                    final(out)@,
                    old(out).len() as int,
                    a,
                )
        },
{
    if mem.fault_in_extent(span, n) {
        return Err(Error::MemoryFatal);
    }
    let ghost before = out@;
    let span_end: u64 = span.base + span.size;
    let mut pos: u64 = span.base;
    while pos < span_end
        invariant
            mem.wf(),
            spans_apart(spans@, 0),
            span_end == span.base + span.size,
            1 <= n <= 8,
            buf.len() == STRIDE + n - 1,
            buf.len() == old(buf).len(),
            !mem.faulty_in(span.base as int, span.size + n - 1),
            span.base <= pos <= span_end,
            out.len() >= before.len(),
            forall|q: int| 0 <= q < before.len() ==> out[q] == before[q],
            forall|q: int|
                before.len() <= q < out.len() ==> edge_in(mem@, spans@, span, n as int, #[trigger] out[q])
                    && out[q].0 < pos,
            forall|p: int, q: int|
                before.len() <= p < q < out.len() ==> (#[trigger] out[p]).0 < (#[trigger] out[q]).0,
            forall|a: u64|
                is_pointer_in(mem@, spans@, span, n as int, a as int) && a < pos ==> has_key_from(
                    out@,
                    before.len() as int,
                    a,
                ),
        decreases span_end - pos,
    {
        let end: u64 = block_end(pos, span_end, STRIDE);
        let ghost prev = out@;
        proof {
            if mem.faulty_in(pos as int, end - pos + n - 1) {
                let x = choose|x: int| pos <= x < pos + (end - pos + n - 1) && mem.faulty(x);
                assert(span.base <= x < span.base + (span.size + n - 1));
            }
        }
        let (got, next) = read_block(mem, pos, end, n, buf);
        pointers_in_window(
            pos,
            buf.as_slice(),
            got,
            (next - pos) as usize,
            n,
            spans.as_slice(),
            out,
        );
        proof {
            assert forall|q: int| before.len() <= q < out.len() implies edge_in(
                mem@,
                spans@,
                span,
                n as int,
                #[trigger] out[q],
            ) && out[q].0 < next by {
                if q >= prev.len() {
                    let a = out[q].0;
                    let o = a - pos;
                    assert(a - pos + n <= got <==> readable(mem@, a as int, n as int));
                    assert(buf@.subrange(o, o + n) =~= bytes_at(mem@, pos + o, n as int));
                } else {
                    assert(out[q] == prev[q]);
                }
            }
            assert forall|p: int, q: int| before.len() <= p < q < out.len() implies (
            #[trigger] out[p]).0 < (#[trigger] out[q]).0 by {
                if q < prev.len() {
                    assert(prev[p].0 < prev[q].0);
                } else if p < prev.len() {
                    assert(out[p] == prev[p]);
                    assert(edge_in(mem@, spans@, span, n as int, prev[p]));
                }
            }
            assert forall|a: u64|
                is_pointer_in(mem@, spans@, span, n as int, a as int) && a < next implies has_key_from(
                out@,
                before.len() as int,
                a,
            ) by {
                if a < pos {
                    assert(has_key_from(prev, before.len() as int, a));
                    let q = choose|q: int|
                        before.len() <= q < prev.len() && (#[trigger] prev[q]).0 == a;
                    assert(out[q] == prev[q]);
                } else {
                    let o = a - pos;
                    assert(a - pos + n <= got <==> readable(mem@, a as int, n as int));
                    assert(buf@.subrange(o, o + n) =~= bytes_at(mem@, pos + o, n as int));
                    assert(has_key_from(out@, prev.len() as int, (pos + o) as u64));
                    let q = choose|q: int| prev.len() <= q < out.len() && (#[trigger] out[q]).0 == a;
                    assert(out[q].0 == a);
                }
            }
        }
        pos = next;
    }
    proof {
        assert forall|a: u64|
            is_pointer_in(mem@, spans@, span, n as int, a as int) implies has_key_from(
            out@,
            before.len() as int,
            a,
        ) by {
            assert(span.contains(a as int));
        }
    }
    Ok(())
}

/// The pointers of `n` bytes that a sweep of `spans` finds: an edge from the
/// address of each to the address that it holds, in ascending order of the
/// first.
pub fn collect_pointers(mem: &MemoryImage, spans: &Vec<MemoryRange>, n: usize) -> (r: Result<
    Vec<(u64, u64)>,
    Error,
>)
    requires
        mem.wf(),
        spans_apart(spans@, 0),
        1 <= n <= 8,
    ensures
        r is Err <==> sweep_faulty(mem, spans@, n as int),
        match r {
            Ok(es) => {
                &&& forall|p: int, q: int|
                    0 <= p < q < es.len() ==> (#[trigger] es[p]).0 < (#[trigger] es[q]).0
                &&& forall|q: int|
                    0 <= q < es.len() ==> is_pointer(mem@, spans@, n as int, (#[trigger] es[q]).0 as int)
                        && es[q].1 == word_at(mem@, es[q].0 as int, n as int)
                &&& forall|a: u64|
                    is_pointer(mem@, spans@, n as int, a as int) ==> has_key_from(es@, 0, a)
            },
            Err(e) => e == Error::MemoryFatal,
        },
{
    let want: usize = STRIDE + n - 1;
    let mut buf: Vec<u8> = vec![0u8; want];
    let mut out: Vec<(u64, u64)> = Vec::new();
    let mut i: usize = 0;
    while i < spans.len()
        invariant
            mem.wf(),
            spans_apart(spans@, 0),
            1 <= n <= 8,
            buf.len() == STRIDE + n - 1,
            i <= spans.len(),
            forall|p: int, q: int|
                0 <= p < q < out.len() ==> (#[trigger] out[p]).0 < (#[trigger] out[q]).0,
            forall|q: int, j: int|
                0 <= q < out.len() && i <= j < spans.len() ==> (#[trigger] out[q]).0 < (
                #[trigger] spans[j]).base,
            forall|q: int|
                0 <= q < out.len() ==> is_pointer(mem@, spans@, n as int, (#[trigger] out[q]).0 as int)
                    && out[q].1 == word_at(mem@, out[q].0 as int, n as int),
            forall|a: u64, j: int|
                0 <= j < i && #[trigger] is_pointer_in(mem@, spans@, spans[j], n as int, a as int)
                    ==> has_key_from(out@, 0, a),
            forall|j: int| 0 <= j < i ==> !extent_faulty(mem, #[trigger] spans[j], n as int),
        decreases spans.len() - i,
    {
        let ghost prev = out@;
        let span = spans[i];
        match link_span(mem, spans, span, n, &mut buf, &mut out) {
            Err(_) => {
                assert(extent_faulty(mem, spans[i as int], n as int));
                return Err(Error::MemoryFatal);
            },
            Ok(()) => {
                proof {
                    assert forall|q: int| 0 <= q < out.len() implies is_pointer(
                        mem@,
                        spans@,
                        n as int,
                        (#[trigger] out[q]).0 as int,
                    ) && out[q].1 == word_at(mem@, out[q].0 as int, n as int) by {
                        if q < prev.len() {
                            assert(out[q] == prev[q]);
                        } else {
                            assert(edge_in(mem@, spans@, spans[i as int], n as int, out[q]));
                        }
                    }
                    assert forall|p: int, q: int| 0 <= p < q < out.len() implies (#[trigger] out[p]).0
                        < (#[trigger] out[q]).0 by {
                        if q < prev.len() {
                            assert(prev[p].0 < prev[q].0);
                        } else if p < prev.len() {
                            assert(out[p] == prev[p]);
                            assert(prev[p].0 < spans[i as int].base);
                            assert(edge_in(mem@, spans@, span, n as int, out[q]));
                        }
                    }
                    assert forall|q: int, j: int|
                        0 <= q < out.len() && i + 1 <= j < spans.len() implies (#[trigger] out[q]).0
                        < (#[trigger] spans[j]).base by {
                        if q < prev.len() {
                            assert(out[q] == prev[q]);
                            assert(prev[q].0 < spans[j].base);
                        } else {
                            assert(edge_in(mem@, spans@, span, n as int, out[q]));
                            assert(spans[i as int].base + spans[i as int].size + 0 < spans[j].base);
                        }
                    }
                    assert forall|a: u64, j: int|
                        0 <= j < i + 1 && #[trigger] is_pointer_in(
                            mem@,
                            spans@,
                            spans[j],
                            n as int,
                            a as int,
                        ) implies has_key_from(out@, 0, a) by {
                        if j < i {
                            assert(has_key_from(prev, 0, a));
                            let q = choose|q: int| 0 <= q < prev.len() && (#[trigger] prev[q]).0 == a;
                            assert(out[q] == prev[q]);
                        } else {
                            assert(has_key_from(out@, prev.len() as int, a));
                            let q = choose|q: int|
                                prev.len() <= q < out.len() && (#[trigger] out[q]).0 == a;
                            assert(out[q].0 == a);
                        }
                    }
                }
            },
        }
        i += 1;
    }
    proof {
        assert forall|a: u64| is_pointer(mem@, spans@, n as int, a as int) implies has_key_from(
            out@,
            0,
            a,
        ) by {
            let j = choose|j: int|
                0 <= j < spans.len() && is_pointer_in(
                    mem@,
                    spans@,
                    #[trigger] spans[j],
                    n as int,
                    a as int,
                );
            assert(is_pointer_in(mem@, spans@, spans[j], n as int, a as int));
        }
    }
    Ok(out)
}

/// The pointers of an address space, to be followed both ways.
pub struct PointerMap {
    links: LinkMap,
}

impl View for PointerMap {
    type V = Links;

    closed spec fn view(&self) -> Links {
        self.links@
    }
}

impl Default for PointerMap {
    fn default() -> (r: Self)
        ensures
            r@ == Links::empty(),
            r@.wf(),
    {
        PointerMap { links: LinkMap::new() }
    }
}

impl PointerMap {
    /// A map without pointers.
    pub fn new() -> (r: Self)
        ensures
            r@ == Links::empty(),
            r@.wf(),
    {
        PointerMap { links: LinkMap::new() }
    }

    /// Forgets every pointer.
    pub fn reset(&mut self)
        ensures
            final(self)@ == Links::empty(),
            final(self)@.wf(),
    {
        self.links = LinkMap::new();
    }

    /// Fills the map with the pointers of `size_addr` bytes in `mem`.
    ///
    /// The map of a scan is swept for words of `size_addr` bytes, the first
    /// byte the lowest, at every address, aligned or not. A word counts as a
    /// pointer when it can be read and is an address within the map.
    /// Afterwards an address has a target exactly when the sweep finds a
    /// pointer there, and the target is the word that stands there.
    ///
    /// The sweep fails when a faulty address lies where it reads, and then
    /// leaves the map empty.
    pub fn create_map(&mut self, mem: &MemoryImage, size_addr: usize) -> (r: Result<(), Error>)
        requires
            mem.wf(),
            1 <= size_addr <= 8,
        ensures
            r is Err <==> sweep_faulty(mem, scan_map(mem@), size_addr as int),
            match r {
                Ok(()) => {
                    &&& final(self)@.wf()
                    &&& forall|k: u64|
                        final(self)@.forward.contains_key(k) <==> is_pointer(
                            mem@,
                            scan_map(mem@),
                            size_addr as int,
                            k as int,
                        )
                    &&& forall|k: u64| #[trigger]
                        final(self)@.forward.contains_key(k) ==> final(self)@.forward[k] == word_at(
                            mem@,
                            k as int,
                            size_addr as int,
                        )
                },
                Err(e) => e == Error::MemoryFatal && final(self)@ == Links::empty(),
            },
    {
        self.links = LinkMap::new();
        let spans = mem.mapped_mem_range_vec(MAP_GAP, 0, ADDRESS_LIMIT);
        proof {
            lemma_coalesced_ascending(mem@, spans@, MAP_GAP as int, 0, ADDRESS_LIMIT as int);
        }
        match collect_pointers(mem, &spans, size_addr) {
            Err(e) => Err(e),
            Ok(edges) => {
                self.links = LinkMap::from_edges(&edges);
                proof {
                    assert forall|k: u64|
                        self@.forward.contains_key(k) <==> is_pointer(
                            mem@,
                            scan_map(mem@),
                            size_addr as int,
                            k as int,
                        ) by {
                        lemma_edge_map(edges@, k);
                        if is_pointer(mem@, scan_map(mem@), size_addr as int, k as int) {
                            assert(has_key_from(edges@, 0, k));
                        }
                    }
                    assert forall|k: u64| #[trigger] self@.forward.contains_key(k) implies self@.forward[k]
                        == word_at(mem@, k as int, size_addr as int) by {
                        lemma_edge_map(edges@, k);
                    }
                }
                Ok(())
            },
        }
    }

    /// The target of each pointer.
    pub fn map(&self) -> (r: &BTreeMap<u64, u64>)
        ensures
            r@ == self@.forward,
    {
        self.links.map()
    }

    /// The pointers to each target.
    pub fn inverse_map(&self) -> (r: &BTreeMap<u64, Vec<u64>>)
        ensures
            forall|t: u64| r@.contains_key(t) <==> self@.inverse.contains_key(t),
            forall|t: u64| r@.contains_key(t) ==> r@[t]@ == self@.inverse[t],
    {
        self.links.inverse_map()
    }

    /// The addresses at which the pointers stand, in ascending order.
    pub fn pointers(&self) -> (r: &Vec<u64>)
        ensures
            r@ == self@.sources,
    {
        self.links.sources()
    }

    /// The offset chains that lead from one of `entry_points`, which stand
    /// in ascending order, to one of `search_for`.
    ///
    /// `range` says how far the neighbourhood of an address reaches: the
    /// first number upwards, the second downwards. For each address of
    /// `search_for` in turn the search starts there at level 1. Where it
    /// stands, it hands out a chain from the entry point nearest in the
    /// neighbourhood, the higher one of two that are equally near. Below
    /// level `max_depth` it then goes on from every pointer to an address
    /// in the neighbourhood, one level deeper. A pointer that leads back to
    /// where the search has been is followed again.
    pub fn find_matches_addrs(
        &self,
        range: (usize, usize),
        max_depth: usize,
        search_for: &[u64],
        entry_points: &[u64],
    ) -> (r: Vec<(u64, Vec<(u64, i64)>)>)
        requires
            self@.wf(),
            sorted(entry_points@),
        ensures
            chains_of(r@) == all_chains(self@, range, max_depth, search_for@, entry_points@, 0),
    {
        find_chains(&self.links, range, max_depth, search_for, entry_points)
    }

    /// The offset chains that lead from one of the pointers to one of
    /// `search_for`.
    pub fn find_matches(&self, range: (usize, usize), max_depth: usize, search_for: &[u64]) -> (r:
        Vec<(u64, Vec<(u64, i64)>)>)
        requires
            self@.wf(),
        ensures
            chains_of(r@) == all_chains(self@, range, max_depth, search_for@, self@.sources, 0),
    {
        proof {
            lemma_ascending_sorted(self@.sources);
        }
        find_chains(&self.links, range, max_depth, search_for, self.links.sources().as_slice())
    }
}

/// A pointer that a sweep finds stands on readable bytes and holds an
/// address of the map.
pub proof fn lemma_pointer_sound(m: Map<int, u8>, spans: Seq<MemoryRange>, n: int, a: int)
    requires
        is_pointer(m, spans, n, a),
    ensures
        readable(m, a, n),
        in_spans(spans, word_at(m, a, n)),
        in_spans(spans, a),
{
    let i = choose|i: int| 0 <= i < spans.len() && is_pointer_in(m, spans, #[trigger] spans[i], n, a);
    assert(spans[i].contains(a));
}

} // verus!
