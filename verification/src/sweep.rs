//! How the engines go through an address space: span by span, each span in
//! blocks of window starts, each block in one read.

use crate::memory::{lemma_readable_prefix_bounds, mapped_spans, readable};
use crate::memory::{MemoryImage, MemoryRange};
use vstd::prelude::*;

verus! {

/// The most window starts that one read covers.
pub const STRIDE: usize = 0x1000;

/// Holes of up to this many addresses are bridged in the map of a scan.
pub const MAP_GAP: u64 = 0x100_0000;

/// Scans look at the addresses below this one.
pub const ADDRESS_LIMIT: u64 = 0x8000_0000_0000;

/// The spans that a scan of `m` goes through.
pub open spec fn scan_map(m: Map<int, u8>) -> Seq<MemoryRange> {
    mapped_spans(m, MAP_GAP as int, 0, ADDRESS_LIMIT as int)
}

/// A faulty address lies where a sweep of `span` for windows of `n` bytes
/// reads: in the span, or among the `n - 1` addresses behind it.
pub open spec fn extent_faulty(mem: &MemoryImage, span: MemoryRange, n: int) -> bool {
    mem.faulty_in(span.base as int, span.size + n - 1)
}

/// A faulty address lies where a sweep of `spans` for windows of `n` bytes
/// reads.
pub open spec fn sweep_faulty(mem: &MemoryImage, spans: Seq<MemoryRange>, n: int) -> bool {
    exists|i: int| 0 <= i < spans.len() && extent_faulty(mem, #[trigger] spans[i], n)
}

/// The most window starts that one read for windows of `n` bytes covers:
/// [`STRIDE`], or as many as leave room for the bytes of the last window
/// where that is less.
pub fn block_width(n: usize) -> (w: usize)
    requires
        n >= 1,
    ensures
        1 <= w <= STRIDE,
        w + n - 1 <= usize::MAX,
        w == if n - 1 <= usize::MAX - STRIDE { STRIDE as int } else { usize::MAX - (n - 1) },
{
    if n - 1 <= usize::MAX - STRIDE {
        STRIDE
    } else {
        usize::MAX - (n - 1)
    }
}

/// The end of the block of at most `width` window starts that begins at
/// `pos`, in a span that ends at `span_end`.
pub fn block_end(pos: u64, span_end: u64, width: usize) -> (end: u64)
    requires
        pos < span_end,
        width >= 1,
    ensures
        pos < end <= span_end,
        end - pos <= width,
        end == if span_end - pos > width { pos + width } else { span_end as int },
{
    if span_end - pos > width as u64 {
        pos + width as u64
    } else {
        span_end
    }
}

/// Reads the windows of up to `n` bytes that start in `[pos, end)`.
///
/// The result is the number of bytes that `buf` now holds of the memory
/// from `pos` on, and the address at which to go on: `end`, or before it
/// the first readable address behind a hole. From `pos` up to that address
/// a window lies within the bytes read if and only if it can be read at
/// all.
pub fn read_block(mem: &MemoryImage, pos: u64, end: u64, n: usize, buf: &mut Vec<u8>) -> (r: (
    usize,
    u64,
))
    requires
        mem.wf(),
        pos < end,
        1 <= n,
        n - 1 + (end - pos) <= old(buf).len(),
        !mem.faulty_in(pos as int, end - pos + n - 1),
    ensures
        final(buf).len() == old(buf).len(),
        r.0 <= end - pos + n - 1,
        forall|i: int| 0 <= i < r.0 ==> final(buf)[i] == mem@[pos + i],
        pos < r.1 <= end,
        forall|a: int, k: int|
            pos <= a < r.1 && 1 <= k <= n ==> (a - pos + k <= r.0 <==> #[trigger] readable(
                mem@,
                a,
                k,
            )),
{
    let len: usize = n - 1 + (end - pos) as usize;
    let got: usize = match mem.read_prefix(pos, buf, len) {
        Ok(got) => got,
        Err(_) => {
            assert(false);
            0
        },
    };
    proof {
        lemma_readable_prefix_bounds(mem@, pos as int, len as nat);
        mem.lemma_view_bounds();
        if got > 0 {
            assert(mem@.contains_key(pos + got - 1));
        }
    }
    if got == len {
        proof {
            assert forall|a: int, k: int| pos <= a < end && 1 <= k <= n implies (a - pos + k <= got
                <==> #[trigger] readable(mem@, a, k)) by {
                assert forall|x: int| a <= x < a + k implies mem@.contains_key(x) by {
                    assert(pos <= x < pos + got);
                }
            }
        }
        return (got, end);
    }
    let hole: u64 = pos + got as u64;
    let next: u64 = match mem.next_readable(hole) {
        Some(x) => if x < end {
            x
        } else {
            end
        },
        None => end,
    };
    proof {
        assert(!mem@.contains_key(hole as int));
        assert forall|a: int, k: int| pos <= a < next && 1 <= k <= n implies (a - pos + k <= got
            <==> #[trigger] readable(mem@, a, k)) by {
            if a - pos + k <= got {
                assert forall|x: int| a <= x < a + k implies mem@.contains_key(x) by {
                    assert(pos <= x < pos + got);
                }
            } else if a <= hole {
                assert(a <= hole < a + k);
            } else {
                assert(hole <= a < next);
                assert(!mem@.contains_key(a));
                assert(a <= a < a + k);
            }
        }
    }
    (got, next)
}

} // verus!
