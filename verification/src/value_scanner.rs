//! Search of an address space for a byte pattern, and refinement of what
//! was found against the same or a later picture of the space.

use crate::error::Error;
use crate::memory::{holds, in_spans, readable, MemoryImage, MemoryRange};
use crate::memory::{lemma_coalesced_ascending, lemma_readable_prefix_bounds};
use crate::memory::{readable_prefix, spans_apart};
use crate::order::ascending;
use crate::sweep::{block_end, block_width, extent_faulty, read_block, scan_map, sweep_faulty};
use crate::sweep::{ADDRESS_LIMIT, MAP_GAP};
use vstd::prelude::*;

verus! {

/// The pattern `p` stands in `buf` at offset `o`.
pub open spec fn window_eq(buf: Seq<u8>, o: int, p: Seq<u8>) -> bool {
    &&& 0 <= o
    &&& o + p.len() <= buf.len()
    &&& forall|j: int| 0 <= j < p.len() ==> buf[o + j] == p[j]
}

/// A sweep of `span` reports `a`: the address lies in the span, and the
/// pattern stands there.
pub open spec fn is_hit_in(m: Map<int, u8>, span: MemoryRange, p: Seq<u8>, a: int) -> bool {
    span.contains(a) && holds(m, a, p)
}

/// A sweep of `spans` reports `a`.
pub open spec fn is_hit(m: Map<int, u8>, spans: Seq<MemoryRange>, p: Seq<u8>, a: int) -> bool {
    exists|i: int| 0 <= i < spans.len() && is_hit_in(m, #[trigger] spans[i], p, a)
}

/// What a refinement keeps of `matches`: nothing for the empty pattern,
/// else the addresses at which the pattern stands, in their order.
pub open spec fn refined(m: Map<int, u8>, matches: Seq<u64>, p: Seq<u8>) -> Seq<u64> {
    if p.len() == 0 {
        Seq::empty()
    } else {
        matches.filter(|a: u64| holds(m, a as int, p))
    }
}

/// Some read of a refinement of `matches` touches a faulty address.
pub open spec fn refine_faulty(mem: &MemoryImage, matches: Seq<u64>, plen: int) -> bool {
    plen > 0 && exists|k: int|
        0 <= k < matches.len() && #[trigger] mem.faulty_in(matches[k] as int, plen)
}

/// Whether `data` stands in `buf` at offset `o`.
pub fn matches_at(buf: &[u8], o: usize, data: &[u8]) -> (r: bool)
    ensures
        r == window_eq(buf@, o as int, data@),
{
    if data.len() > buf.len() || o > buf.len() - data.len() {
        return false;
    }
    let mut j: usize = 0;
    while j < data.len()
        invariant
            j <= data.len(),
            o + data.len() <= buf.len(),
            forall|i: int| 0 <= i < j ==> buf[o + i] == data[i],
        decreases data.len() - j,
    {
        if buf[o + j] != data[j] {
            return false;
        }
        j += 1;
    }
    true
}

/// Appends to `out`, in ascending order, the address `start + o` of every
/// offset `o` below `limit` at which `data` stands in the first `n` bytes
/// of `buf`.
pub fn find_in_window(
    start: u64,
    buf: &[u8],
    n: usize,
    limit: usize,
    data: &[u8],
    out: &mut Vec<u64>,
)
    requires
        n <= buf.len(),
        start + limit <= u64::MAX,
    ensures
        final(out).len() >= old(out).len(),
        final(out)@.take(old(out).len() as int) == old(out)@,
        ascending(final(out)@.skip(old(out).len() as int)),
        forall|k: int|
            old(out).len() <= k < final(out).len() ==> start <= #[trigger] final(out)[k] < start
                + limit,
        forall|o: int|
            0 <= o < limit ==> (final(out)@.skip(old(out).len() as int).contains(
                (start + o) as u64,
            ) <==> window_eq(buf@.take(n as int), o, data@)),
{
    let ghost before = out@;
    let ghost head = buf@.take(n as int);
    let mut o: usize = 0;
    if data.len() > n {
        assert(out@.take(before.len() as int) =~= before);
        assert(out@.skip(before.len() as int) =~= Seq::<u64>::empty());
        return ;
    }
    let last: usize = n - data.len();
    while o < limit && o <= last
        invariant
            n <= buf.len(),
            head == buf@.take(n as int),
            last == n - data.len(),
            start + limit <= u64::MAX,
            o <= limit,
            out.len() >= before.len(),
            out@.take(before.len() as int) == before,
            ascending(out@.skip(before.len() as int)),
            forall|k: int| before.len() <= k < out.len() ==> start <= #[trigger] out[k] < start + o,
            forall|x: int|
                0 <= x < o ==> (out@.skip(before.len() as int).contains((start + x) as u64)
                    <==> window_eq(head, x, data@)),
        decreases limit - o,
    {
        let ghost prev = out@;
        let hit = matches_at(buf, o, data);
        proof {
            // Within the first `n` bytes the window is that of the whole buffer.
            assert(window_eq(buf@, o as int, data@) <==> window_eq(head, o as int, data@));
        }
        if hit {
            out.push(start + o as u64);
            proof {
                let tail = out@.skip(before.len() as int);
                let ptail = prev.skip(before.len() as int);
                assert(tail =~= ptail.push((start + o) as u64));
                assert(out@.take(before.len() as int) =~= before);
                assert forall|x: int| 0 <= x < o + 1 implies (tail.contains((start + x) as u64)
                    <==> window_eq(head, x, data@)) by {
                    if x < o {
                        if ptail.contains((start + x) as u64) {
                            let q = choose|q: int|
                                0 <= q < ptail.len() && ptail[q] == (start + x) as u64;
                            assert(tail[q] == (start + x) as u64);
                        }
                        if tail.contains((start + x) as u64) {
                            let q = choose|q: int|
                                0 <= q < tail.len() && tail[q] == (start + x) as u64;
                            assert(q < ptail.len());
                            assert(ptail[q] == (start + x) as u64);
                        }
                    } else {
                        assert(tail[tail.len() - 1] == (start + x) as u64);
                    }
                }
                assert forall|i: int, j: int| 0 <= i < j < tail.len() implies tail[i] < tail[j] by {
                    if j < ptail.len() {
                        assert(ptail[i] < ptail[j]);
                    } else {
                        assert(tail[i] == prev[before.len() + i]);
                    }
                }
            }
        } else {
            proof {
                let tail = out@.skip(before.len() as int);
                assert forall|x: int| 0 <= x < o + 1 implies (tail.contains((start + x) as u64)
                    <==> window_eq(head, x, data@)) by {
                    if x == o && tail.contains((start + x) as u64) {
                        let q = choose|q: int|
                            0 <= q < tail.len() && tail[q] == (start + x) as u64;
                        assert(tail[q] == out[before.len() + q]);
                    }
                }
            }
        }
        o += 1;
    }
    proof {
        let tail = out@.skip(before.len() as int);
        assert forall|x: int| 0 <= x < limit implies (tail.contains((start + x) as u64)
            <==> window_eq(head, x, data@)) by {
            if x >= o {
                assert(!window_eq(head, x, data@));
                if tail.contains((start + x) as u64) {
                    let q = choose|q: int| 0 <= q < tail.len() && tail[q] == (start + x) as u64;
                    assert(tail[q] == out[before.len() + q]);
                }
            }
        }
    }
}

/// The pattern stands in what was read if and only if it stands in
/// memory and can be read there.
proof fn lemma_window_holds(m: Map<int, u8>, pos: int, head: Seq<u8>, p: Seq<u8>, a: int)
    requires
        pos <= a,
        p.len() > 0,
        forall|i: int| 0 <= i < head.len() ==> head[i] == m[pos + i],
        a - pos + p.len() <= head.len() <==> readable(m, a, p.len() as int),
    ensures
        window_eq(head, a - pos, p) <==> holds(m, a, p),
{
    let o = a - pos;
    if window_eq(head, o, p) {
        assert forall|j: int| 0 <= j < p.len() implies m.contains_key(a + j) && m[a + j]
            == #[trigger] p[j] by {
            assert(head[o + j] == m[pos + (o + j)]);
            assert(a <= a + j < a + p.len());
        }
    }
    if holds(m, a, p) {
        assert forall|x: int| a <= x < a + p.len() implies m.contains_key(x) by {
            assert(m[a + (x - a)] == p[x - a]);
        }
        assert forall|j: int| 0 <= j < p.len() implies head[o + j] == p[j] by {
            assert(head[o + j] == m[pos + (o + j)]);
        }
    }
}

/// Sweeps one span: appends to `out`, in ascending order, every address of
/// the span at which `data` stands. `buf` is the room for one read.
fn scan_span(
    mem: &MemoryImage,
    span: MemoryRange,
    data: &[u8],
    width: usize,
    buf: &mut Vec<u8>,
    out: &mut Vec<u64>,
) -> (r: Result<(), Error>)
    requires
        mem.wf(),
        span.base + span.size <= u64::MAX,
        0 < data.len(),
        1 <= width,
        old(buf).len() == width + data.len() - 1,
    ensures
        final(buf).len() == old(buf).len(),
        r is Err <==> extent_faulty(mem, span, data.len() as int),
        r matches Err(e) ==> e == Error::MemoryFatal && final(out)@ == old(out)@,
        r is Ok ==> {
            &&& final(out).len() >= old(out).len()
            &&& final(out)@.take(old(out).len() as int) == old(out)@
            &&& ascending(final(out)@.skip(old(out).len() as int))
            &&& forall|k: int|
                old(out).len() <= k < final(out).len() ==> span.contains(
                    #[trigger] final(out)[k] as int,
                )
            &&& forall|a: u64|
                final(out)@.skip(old(out).len() as int).contains(a) <==> is_hit_in(
                    mem@,
                    span,
                    data@,
                    a as int,
                )
        },
{
    if mem.fault_in_extent(span, data.len()) {
        return Err(Error::MemoryFatal);
    }
    let ghost before = out@;
    let span_end: u64 = span.base + span.size;
    let mut pos: u64 = span.base;
    assert(out@.take(before.len() as int) =~= before);
    assert(out@.skip(before.len() as int) =~= Seq::<u64>::empty());
    while pos < span_end
        invariant
            mem.wf(),
            span_end == span.base + span.size,
            0 < data.len(),
            1 <= width,
            buf.len() == width + data.len() - 1,
            buf.len() == old(buf).len(),
            !mem.faulty_in(span.base as int, span.size + data.len() - 1),
            span.base <= pos <= span_end,
            out.len() >= before.len(),
            out@.take(before.len() as int) == before,
            ascending(out@.skip(before.len() as int)),
            forall|k: int| before.len() <= k < out.len() ==> span.base <= #[trigger] out[k] < pos,
            forall|a: u64|
                out@.skip(before.len() as int).contains(a) <==> is_hit_in(mem@, span, data@, a as int)
                    && a < pos,
        decreases span_end - pos,
    {
        let end: u64 = block_end(pos, span_end, width);
        let ghost prev = out@;
        let ghost ptail = prev.skip(before.len() as int);
        proof {
            if mem.faulty_in(pos as int, end - pos + data.len() - 1) {
                let x = choose|x: int| pos <= x < pos + (end - pos + data.len() - 1) && mem.faulty(x);
                assert(span.base <= x < span.base + (span.size + data.len() - 1));
            }
        }
        let (got, next) = read_block(mem, pos, end, data.len(), buf);
        find_in_window(pos, buf.as_slice(), got, (next - pos) as usize, data, out);
        proof {
            let head = buf@.take(got as int);
            let tail = out@.skip(before.len() as int);
            let fresh = out@.skip(prev.len() as int);
            assert(out@.take(prev.len() as int) == prev);
            assert(out@.take(before.len() as int) =~= before) by {
                assert(out@.take(before.len() as int) =~= out@.take(prev.len() as int).take(
                    before.len() as int,
                ));
            }
            assert(tail =~= ptail + fresh) by {
                assert forall|q: int| 0 <= q < ptail.len() implies tail[q] == ptail[q] by {
                    assert(out@.take(prev.len() as int)[before.len() + q] == prev[before.len() + q]);
                }
            }
            assert forall|k: int| before.len() <= k < out.len() implies span.base
                <= #[trigger] out[k] < next by {
                if k < prev.len() {
                    assert(out@.take(prev.len() as int)[k] == prev[k]);
                }
            }
            assert forall|i: int, j: int| 0 <= i < j < tail.len() implies tail[i] < tail[j] by {
                if j < ptail.len() {
                    assert(ptail[i] < ptail[j]);
                } else if i >= ptail.len() {
                    assert(fresh[i - ptail.len()] < fresh[j - ptail.len()]);
                } else {
                    assert(tail[i] == prev[before.len() + i]);
                    assert(tail[j] == out[prev.len() + (j - ptail.len())]);
                }
            }
            assert forall|a: u64|
                tail.contains(a) <==> is_hit_in(mem@, span, data@, a as int) && a < next by {
                if ptail.contains(a) {
                    let q = choose|q: int| 0 <= q < ptail.len() && ptail[q] == a;
                    assert(tail[q] == a);
                }
                if fresh.contains(a) {
                    let q = choose|q: int| 0 <= q < fresh.len() && fresh[q] == a;
                    assert(tail[ptail.len() + q] == a);
                    assert(fresh[q] == out[prev.len() + q]);
                }
                if tail.contains(a) {
                    let q = choose|q: int| 0 <= q < tail.len() && tail[q] == a;
                    if q < ptail.len() {
                        assert(ptail[q] == a);
                    } else {
                        assert(fresh[q - ptail.len()] == a);
                    }
                }
                if pos <= a < next {
                    assert(a - pos + data.len() <= got <==> readable(
                        mem@,
                        a as int,
                        data.len() as int,
                    ));
                    lemma_window_holds(mem@, pos as int, head, data@, a as int);
                    assert((pos + (a - pos)) as u64 == a);
                }
            }
        }
        pos = next;
    }
    Ok(())
}

/// Sweeps `spans` for `data`: the addresses that the sweep reports, in
/// ascending order.
///
/// The sweep reports every address of the spans at which `data` stands in
/// readable memory, and fails where a faulty address lies in a span or
/// among the bytes that a window at its end reaches.
pub fn sweep(mem: &MemoryImage, spans: &Vec<MemoryRange>, data: &[u8]) -> (r: Result<
    Vec<u64>,
    Error,
>)
    requires
        mem.wf(),
        spans_apart(spans@, 0),
        0 < data.len(),
    ensures
        r is Err <==> sweep_faulty(mem, spans@, data.len() as int),
        match r {
            Ok(v) => ascending(v@) && forall|a: u64|
                v@.contains(a) <==> is_hit(mem@, spans@, data@, a as int),
            Err(e) => e == Error::MemoryFatal,
        },
{
    let width: usize = block_width(data.len());
    let want: usize = data.len() - 1 + width;
    let mut buf: Vec<u8> = vec![0u8; want];
    let mut out: Vec<u64> = Vec::new();
    let mut i: usize = 0;
    while i < spans.len()
        invariant
            mem.wf(),
            spans_apart(spans@, 0),
            0 < data.len(),
            1 <= width,
            buf.len() == width + data.len() - 1,
            i <= spans.len(),
            ascending(out@),
            forall|k: int, j: int|
                0 <= k < out.len() && i <= j < spans.len() ==> #[trigger] out[k] < (
                #[trigger] spans[j]).base,
            forall|a: u64|
                out@.contains(a) <==> exists|j: int|
                    0 <= j < i && is_hit_in(mem@, #[trigger] spans[j], data@, a as int),
            forall|j: int| 0 <= j < i ==> !extent_faulty(mem, #[trigger] spans[j], data.len() as int),
        decreases spans.len() - i,
    {
        let ghost prev = out@;
        let span = spans[i];
        match scan_span(mem, span, data, width, &mut buf, &mut out) {
            Err(_) => {
                assert(extent_faulty(mem, spans[i as int], data.len() as int));
                return Err(Error::MemoryFatal);
            },
            Ok(()) => {
                proof {
                    let fresh = out@.skip(prev.len() as int);
                    assert(out@ =~= prev + fresh) by {
                        assert(out@.take(prev.len() as int) == prev);
                        assert forall|q: int| 0 <= q < prev.len() implies out[q] == prev[q] by {
                            assert(out@.take(prev.len() as int)[q] == prev[q]);
                        }
                    }
                    assert forall|x: int, y: int| 0 <= x < y < out.len() implies out[x] < out[y] by {
                        if y < prev.len() {
                            assert(prev[x] < prev[y]);
                        } else if x >= prev.len() {
                            assert(fresh[x - prev.len()] < fresh[y - prev.len()]);
                        } else {
                            assert(prev[x] < spans[i as int].base);
                            assert(span.contains(out[y] as int));
                        }
                    }
                    assert forall|k: int, j: int|
                        0 <= k < out.len() && i + 1 <= j < spans.len() implies #[trigger] out[k] < (
                    #[trigger] spans[j]).base by {
                        if k >= prev.len() {
                            assert(span.contains(out[k] as int));
                            assert(spans[i as int].base + spans[i as int].size + 0 < spans[j].base);
                        } else {
                            assert(prev[k] < spans[j].base);
                        }
                    }
                    assert forall|a: u64|
                        out@.contains(a) <==> exists|j: int|
                            0 <= j < i + 1 && is_hit_in(mem@, #[trigger] spans[j], data@, a as int) by {
                        if prev.contains(a) {
                            let q = choose|q: int| 0 <= q < prev.len() && prev[q] == a;
                            assert(out[q] == a);
                        }
                        if fresh.contains(a) {
                            let q = choose|q: int| 0 <= q < fresh.len() && fresh[q] == a;
                            assert(out[prev.len() + q] == a);
                            assert(is_hit_in(mem@, spans[i as int], data@, a as int));
                        }
                        if out@.contains(a) {
                            let q = choose|q: int| 0 <= q < out.len() && out[q] == a;
                            if q < prev.len() {
                                assert(prev[q] == a);
                            } else {
                                assert(fresh[q - prev.len()] == a);
                            }
                        }
                        if exists|j: int|
                            0 <= j < i + 1 && is_hit_in(mem@, #[trigger] spans[j], data@, a as int) {
                            let j = choose|j: int|
                                0 <= j < i + 1 && is_hit_in(
                                    mem@,
                                    #[trigger] spans[j],
                                    data@,
                                    a as int,
                                );
                            if j == i {
                                assert(fresh.contains(a));
                            } else {
                                assert(prev.contains(a));
                            }
                        }
                    }
                }
            },
        }
        i += 1;
    }
    proof {
        assert forall|a: u64| out@.contains(a) <==> is_hit(mem@, spans@, data@, a as int) by {
            if is_hit(mem@, spans@, data@, a as int) {
                let j = choose|j: int|
                    0 <= j < spans.len() && is_hit_in(mem@, #[trigger] spans[j], data@, a as int);
                assert(is_hit_in(mem@, spans[j], data@, a as int));
            }
        }
    }
    Ok(out)
}

/// A read of as many bytes as the pattern has shows whether the pattern
/// stands at the address.
proof fn lemma_reread(m: Map<int, u8>, a: int, p: Seq<u8>, buf: Seq<u8>, n: int)
    requires
        buf.len() == p.len(),
        n == readable_prefix(m, a, p.len()),
        forall|i: int| 0 <= i < n ==> buf[i] == m[a + i],
    ensures
        holds(m, a, p) <==> n == p.len() && window_eq(buf, 0, p),
{
    lemma_readable_prefix_bounds(m, a, p.len());
    if holds(m, a, p) {
        if n < p.len() {
            assert(m[a + n] == p[n]);
        }
        assert forall|j: int| 0 <= j < p.len() implies buf[0 + j] == p[j] by {
            assert(m[a + j] == p[j]);
        }
    }
    if n == p.len() && window_eq(buf, 0, p) {
        assert forall|j: int| 0 <= j < p.len() implies m.contains_key(a + j) && m[a + j]
            == #[trigger] p[j] by {
            assert(buf[0 + j] == p[j]);
        }
    }
}

/// Re-reads every address of `matches` and keeps, in their order, those at
/// which `data` stands. For the empty pattern nothing is read and nothing
/// is kept. The first read that touches a faulty address ends the
/// refinement.
pub fn refine(mem: &MemoryImage, matches: &Vec<u64>, data: &[u8]) -> (r: Result<Vec<u64>, Error>)
    requires
        mem.wf(),
    ensures
        r is Err <==> refine_faulty(mem, matches@, data.len() as int),
        match r {
            Ok(v) => v@ == refined(mem@, matches@, data@),
            Err(e) => e == Error::MemoryFatal,
        },
{
    let mut out: Vec<u64> = Vec::new();
    if data.len() == 0 {
        return Ok(out);
    }
    let ghost pred = |a: u64| holds(mem@, a as int, data@);
    let mut buf: Vec<u8> = vec![0u8; data.len()];
    let mut k: usize = 0;
    assert(matches@.take(0).filter(pred) =~= Seq::<u64>::empty());
    while k < matches.len()
        invariant
            mem.wf(),
            0 < data.len(),
            buf.len() == data.len(),
            k <= matches.len(),
            pred == |a: u64| holds(mem@, a as int, data@),
            out@ == matches@.take(k as int).filter(pred),
            forall|q: int| 0 <= q < k ==> !#[trigger] mem.faulty_in(matches[q] as int, data.len() as int),
        decreases matches.len() - k,
    {
        let a: u64 = matches[k];
        match mem.read_raw_into(a, &mut buf) {
            Err(_) => {
                assert(mem.faulty_in(matches[k as int] as int, data.len() as int));
                return Err(Error::MemoryFatal);
            },
            Ok(n) => {
                let keep = n == data.len() && matches_at(buf.as_slice(), 0, data);
                proof {
                    lemma_reread(mem@, a as int, data@, buf@, n as int);
                    assert(keep == pred(a));
                    matches@.take(k as int).lemma_filter_push(a, pred);
                    assert(matches@.take(k as int).push(a) =~= matches@.take(k + 1));
                }
                if keep {
                    out.push(a);
                }
            },
        }
        k += 1;
    }
    proof {
        assert(matches@.take(matches.len() as int) =~= matches@);
        if refine_faulty(mem, matches@, data.len() as int) {
            let q = choose|q: int|
                0 <= q < matches.len() && #[trigger] mem.faulty_in(
                    matches[q] as int,
                    data.len() as int,
                );
            assert(false);
        }
    }
    Ok(out)
}

/// What a [`ValueScanner`] holds.
pub struct ScannerState {
    /// Whether the address space has been swept.
    pub scanned: bool,
    /// The addresses found and not yet refined away.
    pub matches: Seq<u64>,
    /// The spans that the sweep went through.
    pub mem_map: Seq<MemoryRange>,
}

/// A search for a value: the first scan sweeps the address space for a
/// pattern, every later one keeps of the matches those at which its
/// pattern stands.
pub struct ValueScanner {
    scanned: bool,
    matches: Vec<u64>,
    mem_map: Vec<MemoryRange>,
}

impl View for ValueScanner {
    type V = ScannerState;

    closed spec fn view(&self) -> ScannerState {
        ScannerState { scanned: self.scanned, matches: self.matches@, mem_map: self.mem_map@ }
    }
}

impl Default for ValueScanner {
    fn default() -> (r: Self)
        ensures
            !r@.scanned,
            r@.matches.len() == 0,
            r@.mem_map.len() == 0,
    {
        ValueScanner { scanned: false, matches: Vec::new(), mem_map: Vec::new() }
    }
}

impl ValueScanner {
    /// A scanner that has not scanned yet.
    pub fn new() -> (r: Self)
        ensures
            !r@.scanned,
            r@.matches.len() == 0,
            r@.mem_map.len() == 0,
    {
        ValueScanner { scanned: false, matches: Vec::new(), mem_map: Vec::new() }
    }

    /// Forgets everything: the next scan sweeps again.
    pub fn reset(&mut self)
        ensures
            !final(self)@.scanned,
            final(self)@.matches.len() == 0,
            final(self)@.mem_map.len() == 0,
    {
        self.scanned = false;
        self.matches.clear();
        self.mem_map.clear();
    }

    /// The matches.
    pub fn matches(&self) -> (r: &Vec<u64>)
        ensures
            r@ == self@.matches,
    {
        &self.matches
    }

    /// The matches, for the caller to add to or remove from.
    pub fn matches_mut(&mut self) -> (r: &mut Vec<u64>)
        ensures
            r@ == old(self)@.matches,
            final(self)@.matches == final(r)@,
            final(self)@.scanned == old(self)@.scanned,
            final(self)@.mem_map == old(self)@.mem_map,
    {
        &mut self.matches
    }

    /// The spans that the sweep went through.
    pub fn mem_map(&self) -> (r: &Vec<MemoryRange>)
        ensures
            r@ == self@.mem_map,
    {
        &self.mem_map
    }

    /// Whether the address space has been swept.
    pub fn scanned(&self) -> (r: bool)
        ensures
            r == self@.scanned,
    {
        self.scanned
    }
}

impl ValueScanner {
    /// Scans `mem` for `data`.
    ///
    /// The first scan takes the map of what is readable below
    /// [`ADDRESS_LIMIT`], holes of up to [`MAP_GAP`] addresses bridged, and
    /// sweeps it: the matches are then the addresses of the map at which
    /// `data` stands in readable memory, in ascending order. A later scan
    /// keeps of the matches those at which `data` stands now, in their
    /// order, and none at all where `data` is empty. A first scan needs a
    /// pattern that is not empty.
    ///
    /// A scan fails when a faulty address lies where it reads, and then
    /// leaves the scanner as it was. A first scan reads the spans of the map
    /// and as far behind each as a window at its end reaches; a later scan
    /// reads the bytes at each match.
    pub fn scan_for(&mut self, mem: &MemoryImage, data: &[u8]) -> (r: Result<(), Error>)
        requires
            mem.wf(),
            !old(self)@.scanned ==> data.len() > 0,
        ensures
            r is Err <==> (if old(self)@.scanned {
                refine_faulty(mem, old(self)@.matches, data.len() as int)
            } else {
                sweep_faulty(mem, scan_map(mem@), data.len() as int)
            }),
            match r {
                Ok(()) => {
                    &&& final(self)@.scanned
                    &&& old(self)@.scanned ==> {
                        &&& final(self)@.mem_map == old(self)@.mem_map
                        &&& final(self)@.matches == refined(mem@, old(self)@.matches, data@)
                    }
                    &&& !old(self)@.scanned ==> {
                        &&& final(self)@.mem_map == scan_map(mem@)
                        &&& ascending(final(self)@.matches)
                        &&& forall|a: u64|
                            final(self)@.matches.contains(a) <==> is_hit(
                                mem@,
                                scan_map(mem@),
                                data@,
                                a as int,
                            )
                    }
                },
                Err(e) => e == Error::MemoryFatal && final(self)@ == old(self)@,
            },
            r is Ok && data.len() > 0 ==> forall|a: u64|
                final(self)@.matches.contains(a) ==> holds(mem@, a as int, data@),
            r is Ok && old(self)@.scanned ==> final(self)@.matches.len() <= old(
                self,
            )@.matches.len() && forall|a: u64|
                final(self)@.matches.contains(a) ==> old(self)@.matches.contains(a),
    {
        let ghost before = self@.matches;
        if !self.scanned {
            let map = mem.mapped_mem_range_vec(MAP_GAP, 0, ADDRESS_LIMIT);
            proof {
                lemma_coalesced_ascending(mem@, map@, MAP_GAP as int, 0, ADDRESS_LIMIT as int);
            }
            match sweep(mem, &map, data) {
                Err(e) => Err(e),
                Ok(found) => {
                    proof {
                        assert forall|a: u64| found@.contains(a) implies holds(
                            mem@,
                            a as int,
                            data@,
                        ) by {
                            lemma_hit_holds(mem@, map@, data@, a as int);
                        }
                    }
                    self.mem_map = map;
                    self.matches = found;
                    self.scanned = true;
                    Ok(())
                },
            }
        } else {
            match refine(mem, &self.matches, data) {
                Err(e) => Err(e),
                Ok(kept) => {
                    proof {
                        lemma_refined_monotone(mem@, before, data@);
                        assert forall|a: u64| data.len() > 0 && kept@.contains(a) implies holds(
                            mem@,
                            a as int,
                            data@,
                        ) by {
                            lemma_refined_sound(mem@, before, data@, a);
                        }
                    }
                    self.matches = kept;
                    Ok(())
                },
            }
        }
    }
}

/// What a sweep reports holds the pattern.
pub proof fn lemma_hit_holds(m: Map<int, u8>, spans: Seq<MemoryRange>, p: Seq<u8>, a: int)
    requires
        is_hit(m, spans, p, a),
    ensures
        holds(m, a, p),
        in_spans(spans, a),
{
    let i = choose|i: int| 0 <= i < spans.len() && is_hit_in(m, #[trigger] spans[i], p, a);
    assert(spans[i].contains(a));
}

/// What a refinement keeps was there before, and holds the pattern.
pub proof fn lemma_refined_sound(m: Map<int, u8>, matches: Seq<u64>, p: Seq<u8>, a: u64)
    requires
        refined(m, matches, p).contains(a),
    ensures
        matches.contains(a),
        holds(m, a as int, p),
        p.len() > 0,
{
    let pred = |x: u64| holds(m, x as int, p);
    let kept = matches.filter(pred);
    let k = choose|k: int| 0 <= k < kept.len() && kept[k] == a;
    matches.lemma_filter_pred(pred, k);
    matches.lemma_filter_contains_rev(pred, a);
}

/// A refinement keeps the whole of a list on whose every address the
/// pattern stands.
pub proof fn lemma_refined_keeps(m: Map<int, u8>, matches: Seq<u64>, p: Seq<u8>)
    requires
        p.len() > 0,
        forall|k: int| 0 <= k < matches.len() ==> holds(m, #[trigger] matches[k] as int, p),
    ensures
        refined(m, matches, p) == matches,
    decreases matches.len(),
{
    let pred = |x: u64| holds(m, x as int, p);
    if matches.len() == 0 {
        reveal(Seq::filter);
    } else {
        let front = matches.drop_last();
        assert forall|k: int| 0 <= k < front.len() implies holds(
            m,
            #[trigger] front[k] as int,
            p,
        ) by {
            assert(front[k] == matches[k]);
        }
        lemma_refined_keeps(m, front, p);
        front.lemma_filter_push(matches.last(), pred);
        assert(front.push(matches.last()) =~= matches);
    }
}

/// Scanning twice for one pattern in one picture of the address space
/// gives what scanning once gives: a refinement keeps all that a sweep
/// reported, and all that a refinement kept.
pub proof fn lemma_scan_idempotent(
    m: Map<int, u8>,
    spans: Seq<MemoryRange>,
    swept: Seq<u64>,
    matches: Seq<u64>,
    p: Seq<u8>,
)
    requires
        forall|a: u64| swept.contains(a) ==> is_hit(m, spans, p, a as int),
    ensures
        p.len() > 0 ==> refined(m, swept, p) == swept,
        refined(m, refined(m, matches, p), p) == refined(m, matches, p),
{
    if p.len() > 0 {
        assert forall|k: int| 0 <= k < swept.len() implies holds(
            m,
            #[trigger] swept[k] as int,
            p,
        ) by {
            assert(swept.contains(swept[k]));
            lemma_hit_holds(m, spans, p, swept[k] as int);
        }
        lemma_refined_keeps(m, swept, p);
        let kept = refined(m, matches, p);
        assert forall|k: int| 0 <= k < kept.len() implies holds(m, #[trigger] kept[k] as int, p) by {
            assert(kept.contains(kept[k]));
            lemma_refined_sound(m, matches, p, kept[k]);
        }
        lemma_refined_keeps(m, kept, p);
    } else {
        reveal(Seq::filter);
    }
}

/// A scan that follows a scan for the same pattern in the same picture of
/// the address space reads no faulty address: neither at what a sweep
/// reported, nor at what a refinement kept.
pub proof fn lemma_rescan_reads_no_fault(
    mem: &MemoryImage,
    spans: Seq<MemoryRange>,
    swept: Seq<u64>,
    matches: Seq<u64>,
    p: Seq<u8>,
)
    requires
        forall|a: u64| swept.contains(a) ==> is_hit(mem@, spans, p, a as int),
    ensures
        !sweep_faulty(mem, spans, p.len() as int) ==> !refine_faulty(mem, swept, p.len() as int),
        !refine_faulty(mem, matches, p.len() as int) ==> !refine_faulty(
            mem,
            refined(mem@, matches, p),
            p.len() as int,
        ),
{
    let n = p.len() as int;
    if !sweep_faulty(mem, spans, n) && refine_faulty(mem, swept, n) {
        let k = choose|k: int| 0 <= k < swept.len() && #[trigger] mem.faulty_in(swept[k] as int, n);
        let a = swept[k];
        assert(swept.contains(a));
        let i = choose|i: int| 0 <= i < spans.len() && is_hit_in(mem@, #[trigger] spans[i], p, a as int);
        let x = choose|x: int| a <= x < a + n && mem.faulty(x);
        assert(spans[i].base <= x < spans[i].base + (spans[i].size + n - 1));
        assert(extent_faulty(mem, spans[i], n));
    }
    let kept = refined(mem@, matches, p);
    if !refine_faulty(mem, matches, n) && refine_faulty(mem, kept, n) {
        let k = choose|k: int| 0 <= k < kept.len() && #[trigger] mem.faulty_in(kept[k] as int, n);
        assert(kept.contains(kept[k]));
        lemma_refined_sound(mem@, matches, p, kept[k]);
        let q = choose|q: int| 0 <= q < matches.len() && matches[q] == kept[k];
        assert(mem.faulty_in(matches[q] as int, n));
    }
}

/// A refinement adds nothing: what it keeps is no longer than what it was
/// given, and every address of it was there before.
pub proof fn lemma_refined_monotone(m: Map<int, u8>, matches: Seq<u64>, p: Seq<u8>)
    ensures
        refined(m, matches, p).len() <= matches.len(),
        forall|a: u64| refined(m, matches, p).contains(a) ==> matches.contains(a),
        ascending(matches) ==> ascending(refined(m, matches, p)),
    decreases matches.len(),
{
    let pred = |x: u64| holds(m, x as int, p);
    matches.lemma_filter_len(pred);
    assert forall|a: u64| refined(m, matches, p).contains(a) implies matches.contains(a) by {
        lemma_refined_sound(m, matches, p, a);
    }
    if p.len() > 0 && ascending(matches) {
        if matches.len() == 0 {
            reveal(Seq::filter);
        } else {
            let front = matches.drop_last();
            let last = matches.last();
            lemma_refined_monotone(m, front, p);
            front.lemma_filter_push(last, pred);
            assert(front.push(last) =~= matches);
            let kept = front.filter(pred);
            assert forall|i: int| 0 <= i < kept.len() implies #[trigger] kept[i] < last by {
                assert(kept.contains(kept[i]));
                lemma_refined_sound(m, front, p, kept[i]);
                let q = choose|q: int| 0 <= q < front.len() && front[q] == kept[i];
                assert(matches[q] < matches[matches.len() - 1]);
            }
        }
    }
}

} // verus!
